use filetree::file_tree::{DirEntryInfo, DirListing, FileNode, FileTree, LoadStep};
use filetree::path::FsPath;

fn path(s: &str) -> FsPath {
    FsPath::parse(&s.as_bytes().to_vec())
}

fn comps(p: &FsPath) -> Vec<String> {
    p.components.iter().map(|c| String::from_utf8(c.clone()).unwrap()).collect()
}

fn entry(name: &str, is_dir: bool) -> DirEntryInfo {
    DirEntryInfo {
        name_bytes: name.as_bytes().to_vec(),
        name_is_utf8: true,
        is_dir,
        leads_to_dir: is_dir,
    }
}

fn text(s: &str) -> Vec<u8> {
    s.as_bytes().to_vec()
}

const BASE: &str = "/tmp/tree";

/// The listing of the base directory made by the original tests' fixture:
/// two directories, one hidden directory, two files and one hidden file.
fn base_entries() -> Vec<DirEntryInfo> {
    vec![
        entry("file2.rs", false),
        entry("dir_b", true),
        entry(".hidden_file", false),
        entry("dir_a", true),
        entry("file1.txt", false),
        entry(".hidden_dir", true),
    ]
}

fn listing(dir: &str, entries: Vec<DirEntryInfo>) -> DirListing {
    DirListing { dir: path(dir), entries: Some(entries) }
}

/// Every directory of the fixture, as reads would give them.
fn all_listings() -> Vec<DirListing> {
    vec![
        listing(BASE, base_entries()),
        listing("/tmp/tree/dir_a", vec![entry("nested.txt", false)]),
        listing("/tmp/tree/dir_b", vec![]),
        listing("/tmp/tree/.hidden_dir", vec![]),
    ]
}

fn new_tree(show_hidden: bool) -> FileTree {
    FileTree::new(&text(BASE), true, &base_entries(), show_hidden)
}

fn names(node: &FileNode) -> Vec<String> {
    node.children.iter().map(|c| c.name.clone()).collect()
}

fn index_of(tree: &FileTree, name: &str) -> Option<usize> {
    (0..tree.len()).find(|&i| tree.get_node(i).map(|n| n.is_dir && n.name == name).unwrap_or(false))
}

#[test]
fn test_file_node_new_file() {
    let file_path = path("/tmp/tree/file1.txt");
    let node = FileNode::new(&text("/tmp/tree/file1.txt"), false, 1);

    assert_eq!(comps(&node.path), comps(&file_path));
    assert_eq!(node.name, "file1.txt");
    assert!(!node.is_dir);
    assert!(!node.expanded);
    assert_eq!(node.depth, 1);
    assert!(node.children.is_empty());
}

#[test]
fn test_file_node_new_directory() {
    let dir_path = path("/tmp/tree/dir_a");
    let node = FileNode::new(&text("/tmp/tree/dir_a"), true, 2);

    assert_eq!(comps(&node.path), comps(&dir_path));
    assert_eq!(node.name, "dir_a");
    assert!(node.is_dir);
    assert!(!node.expanded);
    assert_eq!(node.depth, 2);
}

#[test]
fn test_file_node_load_children_excludes_hidden() {
    let mut node = FileNode::new(&text(BASE), true, 0);
    node.load_children(false, &base_entries());

    let names = names(&node);
    assert!(names.contains(&"dir_a".to_string()));
    assert!(names.contains(&"dir_b".to_string()));
    assert!(names.contains(&"file1.txt".to_string()));
    assert!(!names.contains(&".hidden_dir".to_string()));
    assert!(!names.contains(&".hidden_file".to_string()));
}

#[test]
fn test_file_node_load_children_includes_hidden() {
    let mut node = FileNode::new(&text(BASE), true, 0);
    node.load_children(true, &base_entries());

    let names = names(&node);
    assert!(names.contains(&"dir_a".to_string()));
    assert!(names.contains(&".hidden_dir".to_string()));
    assert!(names.contains(&".hidden_file".to_string()));
}

#[test]
fn test_file_node_load_children_sorts_dirs_first() {
    let mut node = FileNode::new(&text(BASE), true, 0);
    node.load_children(false, &base_entries());

    let first_file_idx = node.children.iter().position(|c| !c.is_dir).unwrap_or(node.children.len());
    for child in node.children.iter().take(first_file_idx) {
        assert!(child.is_dir, "{} should be a directory", child.name);
    }
    for child in node.children.iter().skip(first_file_idx) {
        assert!(!child.is_dir, "{} should be a file", child.name);
    }
}

#[test]
fn test_file_tree_new() {
    let tree = new_tree(false);

    assert!(tree.root.expanded);
    assert!(!tree.root.children.is_empty());
    assert!(!tree.flat_list.is_empty());
}

#[test]
fn test_file_tree_len() {
    let tree = new_tree(false);

    // Root + 2 dirs + 2 files (hidden excluded)
    assert_eq!(tree.len(), 5);
}

#[test]
fn test_file_tree_get_node() {
    let tree = new_tree(false);

    let node = tree.get_node(0);
    assert!(node.is_some());
    assert_eq!(comps(&node.unwrap().path), comps(&path(BASE)));

    let invalid = tree.get_node(1000);
    assert!(invalid.is_none());
}

#[test]
fn test_file_tree_collapse_all() {
    let mut tree = new_tree(false);
    let listings = all_listings();

    if let Some(dir_idx) = index_of(&tree, "dir_a") {
        assert!(matches!(tree.expand_node(dir_idx, &listings), LoadStep::Done));
    }

    tree.collapse_all();

    assert!(tree.root.expanded);
    for child in &tree.root.children {
        assert!(!child.expanded);
    }
}

#[test]
fn test_file_tree_set_show_hidden() {
    let mut tree = new_tree(false);
    let count_without_hidden = tree.len();

    assert!(matches!(tree.set_show_hidden(true, true, &all_listings()), LoadStep::Done));
    let count_with_hidden = tree.len();

    assert!(count_with_hidden > count_without_hidden);
}

#[test]
fn test_file_tree_refresh() {
    let mut tree = new_tree(false);
    let initial_len = tree.len();

    // The directory now holds a new file.
    let mut entries = base_entries();
    entries.push(entry("new_file.txt", false));
    let listings = vec![listing(BASE, entries)];

    assert!(matches!(tree.refresh(true, &listings), LoadStep::Done));
    assert_eq!(tree.len(), initial_len + 1);
}

#[test]
fn test_file_tree_expand_and_collapse_node() {
    let mut tree = new_tree(false);
    let listings = all_listings();

    let dir_idx = index_of(&tree, "dir_a").unwrap();
    let len_before = tree.len();

    assert!(matches!(tree.expand_node(dir_idx, &listings), LoadStep::Done));
    let len_after_expand = tree.len();
    assert!(len_after_expand > len_before);

    tree.collapse_node(dir_idx);
    let len_after_collapse = tree.len();
    assert_eq!(len_after_collapse, len_before);
}

#[test]
fn test_file_tree_is_empty() {
    let tree = FileTree::new(&text("/tmp/empty"), true, &vec![], false);

    // Tree has at least root
    assert!(!tree.is_empty());
}

#[test]
fn children_are_ordered_directories_first_then_by_name() {
    let mut node = FileNode::new(&text(BASE), true, 0);
    node.load_children(true, &base_entries());
    assert_eq!(
        names(&node),
        vec![".hidden_dir", "dir_a", "dir_b", ".hidden_file", "file1.txt", "file2.rs"]
    );
    assert!(node.children.iter().all(|c| c.depth == 1 && !c.expanded && c.children.is_empty()));
    assert_eq!(comps(&node.children[1].path), vec!["/", "tmp", "tree", "dir_a"]);
}

#[test]
fn names_that_are_not_utf8_are_never_hidden() {
    let mut node = FileNode::new(&text(BASE), true, 3);
    let odd = DirEntryInfo {
        name_bytes: vec![b'.', b'x', 0xff],
        name_is_utf8: false,
        is_dir: false,
        leads_to_dir: false,
    };
    node.load_children(false, &vec![odd, entry(".y", false)]);
    assert_eq!(names(&node), vec![".x\u{FFFD}"]);
    assert_eq!(node.children[0].depth, 4);
    // The child's path keeps the name's own bytes.
    assert_eq!(node.children[0].path.components.last().unwrap(), &vec![b'.', b'x', 0xff]);
}

#[test]
fn a_file_keeps_its_children_when_loaded() {
    let mut node = FileNode::new(&text("/tmp/f.txt"), false, 0);
    node.load_children(true, &base_entries());
    assert!(node.children.is_empty());
}

#[test]
fn node_name_falls_back_to_the_whole_path() {
    assert_eq!(FileNode::new(&text("/"), true, 0).name, "/");
    assert_eq!(FileNode::new(&text("a/.."), true, 0).name, "a/..");
    assert_eq!(FileNode::new(&text("./x/"), true, 0).name, "x");
    assert_eq!(FileNode::new(&text("a/../"), true, 0).name, "a/../");
    assert_eq!(FileNode::new(&text("//"), true, 0).name, "//");
}

#[test]
fn a_link_to_a_directory_is_ordered_as_a_file_but_opens_as_a_directory() {
    let mut node = FileNode::new(&text(BASE), true, 0);
    let mut link = entry("a_link", false);
    link.leads_to_dir = true;
    node.load_children(false, &vec![entry("b.txt", false), link, entry("z_dir", true)]);
    assert_eq!(names(&node), vec!["z_dir", "a_link", "b.txt"]);
    assert!(node.children[0].is_dir);
    assert!(node.children[1].is_dir);
    assert!(!node.children[2].is_dir);
}

#[test]
fn names_are_ordered_by_their_bytes() {
    let mut node = FileNode::new(&text(BASE), true, 0);
    let mut odd = entry("b", false);
    odd.name_bytes = vec![b'b', 0xff];
    odd.name_is_utf8 = false;
    // As text the replacement character (U+FFFD) would come before U+1F600,
    // but the raw byte 0xff comes after 0xf0, the first byte of U+1F600.
    node.load_children(false, &vec![odd, entry("b\u{1F600}", false), entry("a", false)]);
    assert_eq!(names(&node), vec!["a", "b\u{1F600}", "b\u{FFFD}"]);
}

#[test]
fn node_toggle_needs_a_listing_then_loads_it() {
    let mut node = FileNode::new(&text("/tmp/tree/dir_a"), true, 1);
    let none: Vec<DirListing> = vec![];
    match node.toggle_expand(false, &none) {
        LoadStep::NeedListing(p) => assert_eq!(comps(&p), comps(&path("/tmp/tree/dir_a"))),
        other => panic!("unexpected {:?}", other),
    }
    assert!(!node.expanded);

    assert!(matches!(node.toggle_expand(false, &all_listings()), LoadStep::Done));
    assert!(node.expanded);
    assert_eq!(names(&node), vec!["nested.txt"]);
    assert_eq!(node.children[0].depth, 2);

    // Toggling twice gives the node back.
    assert!(matches!(node.toggle_expand(false, &none), LoadStep::Done));
    assert!(!node.expanded);
    assert!(matches!(node.toggle_expand(false, &none), LoadStep::Done));
    assert!(node.expanded);
    assert_eq!(names(&node), vec!["nested.txt"]);
}

#[test]
fn node_toggle_with_a_failed_read_stays_empty() {
    let mut node = FileNode::new(&text("/locked"), true, 0);
    let failed = vec![DirListing { dir: path("/locked"), entries: None }];
    assert!(matches!(node.toggle_expand(false, &failed), LoadStep::Failed));
    assert!(node.expanded);
    assert!(node.children.is_empty());
}

#[test]
fn toggling_a_file_does_nothing() {
    let mut node = FileNode::new(&text("/tmp/f.txt"), false, 0);
    assert!(matches!(node.toggle_expand(false, &vec![]), LoadStep::Done));
    assert!(!node.expanded);
}

#[test]
fn expand_all_asks_for_each_listing_then_shows_everything() {
    let mut tree = new_tree(true);
    let all = all_listings();
    let mut have: Vec<DirListing> = vec![];
    let mut asked = 0;
    loop {
        match tree.expand_all(&have) {
            LoadStep::Done => break,
            LoadStep::NeedListing(p) => {
                asked += 1;
                let l = all.iter().find(|l| l.dir.components == p.components).unwrap();
                have.push(DirListing { dir: l.dir.clone(), entries: l.entries.clone() });
            }
            LoadStep::Failed => panic!("no read fails here"),
        }
    }
    // dir_a, dir_b and .hidden_dir had not been read.
    assert_eq!(asked, 3);
    // root, 3 dirs, 3 files, and dir_a/nested.txt
    assert_eq!(tree.len(), 8);
    assert!(tree.root.children.iter().filter(|c| c.is_dir).all(|c| c.expanded));
}

#[test]
fn expand_all_stops_at_a_failed_read() {
    let mut tree = new_tree(false);
    let listings = vec![DirListing { dir: path("/tmp/tree/dir_a"), entries: None }];
    let before = tree.len();
    assert!(matches!(tree.expand_all(&listings), LoadStep::Failed));
    // The shown list is not recomputed, but dir_a is expanded and dir_b not yet.
    assert_eq!(tree.len(), before);
    assert!(tree.root.children[0].expanded);
    assert!(!tree.root.children[1].expanded);
}

#[test]
fn collapse_all_shows_root_and_children() {
    let mut tree = new_tree(false);
    let _ = tree.expand_node(index_of(&tree, "dir_a").unwrap(), &all_listings());
    assert_eq!(tree.len(), 6);
    tree.collapse_all();
    assert_eq!(tree.len(), 1 + tree.root.children.len());
    assert_eq!(tree.flat_list, vec![0, 1, 2, 3, 4]);
}

#[test]
fn expand_node_on_a_file_or_bad_index_does_nothing() {
    let mut tree = new_tree(false);
    let before = tree.len();
    assert!(matches!(tree.expand_node(4, &vec![]), LoadStep::Done));
    assert!(matches!(tree.expand_node(99, &vec![]), LoadStep::Done));
    assert_eq!(tree.len(), before);
    tree.collapse_node(99);
    assert_eq!(tree.len(), before);
}

#[test]
fn expand_node_failure_leaves_node_expanded_and_list_unchanged() {
    let mut tree = new_tree(false);
    let i = index_of(&tree, "dir_b").unwrap();
    let failed = vec![DirListing { dir: path("/tmp/tree/dir_b"), entries: None }];
    assert!(matches!(tree.expand_node(i, &failed), LoadStep::Failed));
    assert!(tree.root.children[1].expanded);
    assert!(!tree.get_node(i).unwrap().expanded);
}

#[test]
fn tree_toggle_only_changes_the_root() {
    let mut tree = new_tree(false);
    let i = index_of(&tree, "dir_a").unwrap();
    // Toggling a node below the root reads its listing but keeps the tree.
    match tree.toggle_expand(i, &vec![]) {
        LoadStep::NeedListing(p) => assert_eq!(comps(&p), comps(&path("/tmp/tree/dir_a"))),
        other => panic!("unexpected {:?}", other),
    }
    assert!(matches!(tree.toggle_expand(i, &all_listings()), LoadStep::Done));
    assert!(!tree.root.children[0].expanded);
    assert_eq!(tree.len(), 5);

    // Toggling the root collapses it, and again expands it.
    assert!(matches!(tree.toggle_expand(0, &vec![]), LoadStep::Done));
    assert!(!tree.root.expanded);
    assert_eq!(tree.len(), 1);
    assert!(matches!(tree.toggle_expand(0, &vec![]), LoadStep::Done));
    assert_eq!(tree.len(), 5);
}

#[test]
fn refresh_restores_expanded_directories() {
    let mut tree = new_tree(false);
    let listings = all_listings();
    let _ = tree.expand_node(index_of(&tree, "dir_a").unwrap(), &listings);
    assert_eq!(tree.len(), 6);

    // Nothing changes until every listing needed is there.
    let partial = vec![listing(BASE, base_entries())];
    match tree.refresh(true, &partial) {
        LoadStep::NeedListing(p) => assert_eq!(comps(&p), comps(&path("/tmp/tree/dir_a"))),
        other => panic!("unexpected {:?}", other),
    }
    assert_eq!(tree.len(), 6);

    assert!(matches!(tree.refresh(true, &listings), LoadStep::Done));
    assert_eq!(tree.len(), 6);
    assert!(tree.root.children[0].expanded);
    assert!(!tree.root.children[1].expanded);
}

#[test]
fn refresh_with_an_unreadable_root_empties_it() {
    let mut tree = new_tree(false);
    let before = tree.len();
    let failed = vec![DirListing { dir: path(BASE), entries: None }];
    assert!(matches!(tree.refresh(true, &failed), LoadStep::Failed));
    assert!(tree.root.children.is_empty());
    assert!(tree.root.expanded);
    assert_eq!(tree.len(), before);
}

#[test]
fn shown_nodes_are_copies() {
    let mut tree = new_tree(false);
    if let Some(n) = tree.get_node_mut(1) {
        n.expanded = true;
    }
    assert!(tree.get_node(1).unwrap().expanded);
    assert!(!tree.root.children[0].expanded);
    tree.rebuild_flat_list();
    assert!(!tree.get_node(1).unwrap().expanded);
    assert!(tree.get_node_mut(50).is_none());
}

#[test]
fn a_node_at_the_deepest_depth_toggles_when_nothing_is_loaded() {
    let mut node = FileNode::new(&text("/locked"), true, usize::MAX);
    let failed = vec![DirListing { dir: path("/locked"), entries: None }];
    assert!(matches!(node.toggle_expand(false, &failed), LoadStep::Failed));
    assert!(node.expanded);
    let empty = vec![listing("/locked", vec![])];
    let mut other = FileNode::new(&text("/locked"), true, usize::MAX);
    assert!(matches!(other.toggle_expand(false, &empty), LoadStep::Done));
    assert!(other.expanded && other.children.is_empty());
}

fn shown(tree: &FileTree) -> Vec<(Vec<String>, String, bool, bool, usize)> {
    (0..tree.len())
        .map(|i| {
            let n = tree.get_node(i).unwrap();
            (comps(&n.path), n.name.clone(), n.is_dir, n.expanded, n.depth)
        })
        .collect()
}

#[test]
fn collapse_then_expand_gives_the_same_shown_list() {
    let mut tree = new_tree(false);
    let listings = all_listings();
    let _ = tree.expand_node(index_of(&tree, "dir_a").unwrap(), &listings);
    let before = shown(&tree);
    let i = index_of(&tree, "dir_a").unwrap();
    tree.collapse_node(i);
    assert_eq!(tree.len(), before.len() - 1);
    assert!(matches!(tree.expand_node(i, &vec![]), LoadStep::Done));
    assert_eq!(shown(&tree), before);
}

#[test]
fn refresh_with_nothing_changed_keeps_the_shown_list() {
    let mut tree = new_tree(true);
    let listings = all_listings();
    let _ = tree.expand_node(index_of(&tree, "dir_a").unwrap(), &listings);
    let _ = tree.expand_node(index_of(&tree, ".hidden_dir").unwrap(), &listings);
    let before = shown(&tree);
    assert!(matches!(tree.refresh(true, &listings), LoadStep::Done));
    assert_eq!(shown(&tree), before);
}

#[test]
fn expanding_a_node_whose_read_failed_reports_it() {
    let mut tree = FileTree::new(&text("/locked"), true, &vec![entry("d", true)], false);
    // A node whose read failed is expanded without anything to load.
    let failed = vec![DirListing { dir: path("/locked/d"), entries: None }];
    assert!(matches!(tree.expand_node(1, &failed), LoadStep::Failed));
}
