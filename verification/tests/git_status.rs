use filetree::git_status::{
    find_git_root, get_current_branch, parse_status, porcelain_readable, GitRepo, GitStatus,
    StatusMap,
};
use filetree::path::FsPath;

fn path(s: &str) -> FsPath {
    FsPath::parse(&s.as_bytes().to_vec())
}

fn comps(p: &FsPath) -> Vec<String> {
    p.components.iter().map(|c| String::from_utf8(c.clone()).unwrap()).collect()
}

fn some(s: &str) -> Option<String> {
    Some(s.to_string())
}

#[test]
fn test_parse_status_untracked() {
    assert_eq!(parse_status('?', '?'), GitStatus::Untracked);
}

#[test]
fn test_parse_status_ignored() {
    assert_eq!(parse_status('!', '!'), GitStatus::Ignored);
}

#[test]
fn test_parse_status_added() {
    assert_eq!(parse_status('A', ' '), GitStatus::Added);
    assert_eq!(parse_status('A', 'M'), GitStatus::Added);
}

#[test]
fn test_parse_status_modified() {
    assert_eq!(parse_status('M', ' '), GitStatus::Modified);
    assert_eq!(parse_status(' ', 'M'), GitStatus::Modified);
    assert_eq!(parse_status('M', 'M'), GitStatus::Modified);
}

#[test]
fn test_parse_status_deleted() {
    assert_eq!(parse_status('D', ' '), GitStatus::Deleted);
    assert_eq!(parse_status(' ', 'D'), GitStatus::Deleted);
}

#[test]
fn test_parse_status_renamed() {
    assert_eq!(parse_status('R', ' '), GitStatus::Renamed);
    assert_eq!(parse_status('R', 'M'), GitStatus::Renamed);
}

#[test]
fn test_parse_status_conflict() {
    assert_eq!(parse_status('U', ' '), GitStatus::Conflict);
    assert_eq!(parse_status(' ', 'U'), GitStatus::Conflict);
    assert_eq!(parse_status('U', 'U'), GitStatus::Conflict);
    assert_eq!(parse_status('A', 'A'), GitStatus::Conflict);
    assert_eq!(parse_status('D', 'D'), GitStatus::Conflict);
}

#[test]
fn test_parse_status_none() {
    assert_eq!(parse_status(' ', ' '), GitStatus::Clean);
}

#[test]
fn test_git_status_default() {
    assert_eq!(GitStatus::default(), GitStatus::Clean);
}

#[test]
fn test_git_repo_default() {
    let repo = GitRepo::default();
    assert!(repo.root.is_none());
    assert!(repo.statuses.is_empty());
    assert!(repo.dir_status_cache.is_empty());
    assert!(repo.branch.is_none());
}

#[test]
fn parse_status_other_letters_are_clean() {
    assert_eq!(parse_status('C', ' '), GitStatus::Clean);
    assert_eq!(parse_status('T', 'T'), GitStatus::Clean);
    assert_eq!(parse_status('?', ' '), GitStatus::Clean);
}

#[test]
fn repo_outside_any_repository_is_empty() {
    let repo = GitRepo::new(&None, &some(" M a.rs\n"), &None, &some("main\n"));
    assert!(!repo.is_inside_repo());
    assert!(repo.root.is_none());
    assert!(repo.statuses.is_empty());
    assert!(repo.dir_status_cache.is_empty());
    assert!(repo.branch.is_none());
}

#[test]
fn repo_reads_statuses_branch_and_directories() {
    let status = " M src/main.rs\n?? notes/todo.txt\nA  src/lib/new.rs\nR  old.rs -> moved/new.rs\n";
    let ignored = " M src/main.rs\n!! target/\n";
    let repo = GitRepo::new(&some("/home/u/proj\n"), &some(status), &some(ignored), &some("main\n"));
    assert!(repo.is_inside_repo());
    assert_eq!(comps(repo.root.as_ref().unwrap()), vec!["/", "home", "u", "proj"]);
    assert_eq!(repo.branch.as_deref(), Some("main"));

    assert_eq!(repo.get_status(&path("/home/u/proj/src/main.rs"), false), GitStatus::Modified);
    assert_eq!(repo.get_status(&path("/home/u/proj/notes/todo.txt"), false), GitStatus::Untracked);
    assert_eq!(repo.get_status(&path("/home/u/proj/src/lib/new.rs"), false), GitStatus::Added);
    assert_eq!(repo.get_status(&path("/home/u/proj/moved/new.rs"), false), GitStatus::Renamed);
    assert_eq!(repo.get_status(&path("/home/u/proj/old.rs"), false), GitStatus::Clean);
    assert_eq!(repo.get_status(&path("/home/u/proj/target"), true), GitStatus::Ignored);

    // Directories take the status of what lies below them.
    assert_eq!(repo.get_status(&path("/home/u/proj/src"), true), GitStatus::Modified);
    assert_eq!(repo.get_status(&path("/home/u/proj/src/lib"), true), GitStatus::Modified);
    assert_eq!(repo.get_status(&path("/home/u/proj/notes"), true), GitStatus::Untracked);
    assert_eq!(repo.get_status(&path("/home/u/proj/moved"), true), GitStatus::Modified);
    assert_eq!(repo.get_status(&path("/home/u/proj"), true), GitStatus::Modified);
    assert_eq!(repo.get_status(&path("/home/u"), true), GitStatus::Modified);
    assert_eq!(repo.get_status(&path("/"), true), GitStatus::Modified);
    // A directory's status is used only for directories.
    assert_eq!(repo.get_status(&path("/home/u/proj/src"), false), GitStatus::Clean);
    // An ignored path does not mark its directories.
    assert_eq!(repo.get_status(&path("/home/u/proj/docs"), true), GitStatus::Clean);
}

#[test]
fn untracked_directory_is_untracked_until_something_changes_in_it() {
    let status = "?? a/b/c.txt\n";
    let repo = GitRepo::new(&some("/r"), &some(status), &None, &None);
    assert_eq!(repo.get_status(&path("/r/a/b"), true), GitStatus::Untracked);
    assert_eq!(repo.get_status(&path("/r/a"), true), GitStatus::Untracked);
    assert!(repo.branch.is_none());

    let status = "?? a/b/c.txt\n D a/d.txt\n";
    let repo = GitRepo::new(&some("/r"), &some(status), &None, &None);
    assert_eq!(repo.get_status(&path("/r/a/b"), true), GitStatus::Untracked);
    assert_eq!(repo.get_status(&path("/r/a"), true), GitStatus::Modified);
    assert_eq!(repo.get_status(&path("/r/a/d.txt"), false), GitStatus::Deleted);
}

#[test]
fn short_lines_and_crlf_are_handled() {
    // Lines shorter than four bytes are skipped; "\r\n" ends a line too.
    let status = "M\r\n?? x\r\nUU y\n";
    let repo = GitRepo::new(&some("/r\n"), &some(status), &None, &None);
    assert_eq!(repo.get_status(&path("/r/x"), false), GitStatus::Untracked);
    assert_eq!(repo.get_status(&path("/r/y"), false), GitStatus::Conflict);
    assert_eq!(repo.get_status(&path("/r/M"), false), GitStatus::Clean);
}

#[test]
fn later_lines_and_ignored_lines_win() {
    let status = " M f\nA  f\n";
    let ignored = "!! f\n";
    let repo = GitRepo::new(&some("/r"), &some(status), &None, &None);
    assert_eq!(repo.get_status(&path("/r/f"), false), GitStatus::Added);
    let repo = GitRepo::new(&some("/r"), &some(status), &some(ignored), &None);
    assert_eq!(repo.get_status(&path("/r/f"), false), GitStatus::Ignored);
}

#[test]
fn refresh_replaces_everything() {
    let mut repo = GitRepo::new(&some("/r"), &some(" M f\n"), &None, &some("dev"));
    repo.refresh(&None, &None, &None, &None);
    assert!(repo.root.is_none());
    assert!(repo.statuses.is_empty());
    assert!(repo.dir_status_cache.is_empty());
    assert!(repo.branch.is_none());
}

#[test]
fn git_root_and_branch_are_trimmed() {
    let root = find_git_root(&some("  /srv/repo \n")).unwrap();
    assert_eq!(comps(&root), vec!["/", "srv", "repo"]);
    assert!(find_git_root(&None).is_none());
    assert_eq!(get_current_branch(&some("\tfeature/x\r\n")).as_deref(), Some("feature/x"));
    assert!(get_current_branch(&None).is_none());
}

#[test]
fn porcelain_lines_must_have_a_path_start() {
    assert!(porcelain_readable(&" M a\n?? b\n".to_string()));
    assert!(porcelain_readable(&"ab\n".to_string()));
    // A four-byte character covers the place where the path starts.
    assert!(!porcelain_readable(&"\u{1F600}x\n".to_string()));
    // A three-byte character ends exactly where the path starts.
    assert!(porcelain_readable(&"\u{20AC}xy\n".to_string()));
}

#[test]
fn multibyte_status_line_uses_the_path_after_three_bytes() {
    // "€" takes three bytes, so the path starts at the next character; the
    // status letters are "€" and "x".
    let repo = GitRepo::new(&some("/r"), &some("\u{20AC}xy\n"), &None, &None);
    assert_eq!(repo.get_status(&path("/r/xy"), false), GitStatus::Clean);
    assert!(!repo.statuses.is_empty());
}

#[test]
fn rename_uses_the_last_piece() {
    let repo = GitRepo::new(&some("/r"), &some("R  a -> b -> c\n"), &None, &None);
    assert_eq!(repo.get_status(&path("/r/c"), false), GitStatus::Renamed);
    assert_eq!(repo.get_status(&path("/r/b -> c"), false), GitStatus::Clean);
}

#[test]
fn status_map_insert_and_get() {
    let mut m = StatusMap::new();
    assert!(m.is_empty());
    m.insert(path("/a"), GitStatus::Added);
    m.insert(path("/b"), GitStatus::Deleted);
    m.insert(path("/a"), GitStatus::Modified);
    assert!(!m.is_empty());
    assert_eq!(m.get(&path("/a")), Some(GitStatus::Modified));
    assert_eq!(m.get(&path("/b")), Some(GitStatus::Deleted));
    assert_eq!(m.get(&path("/c")), None);
    m.clear();
    assert!(m.is_empty());
}
