use filetree::path::FsPath;
use filetree::text::{chars_of, lines_of, trim_chars};

fn chars(s: &str) -> Vec<char> {
    s.chars().collect()
}

fn bytes(s: &str) -> Vec<u8> {
    s.as_bytes().to_vec()
}

fn texts(p: &FsPath) -> Vec<String> {
    p.components.iter().map(|c| String::from_utf8(c.clone()).unwrap()).collect()
}

fn comps(s: &str) -> Vec<String> {
    texts(&FsPath::parse(&bytes(s)))
}

#[test]
fn parse_follows_path_components() {
    assert_eq!(comps("/a//b/./c/"), vec!["/", "a", "b", "c"]);
    assert_eq!(comps("./a/."), vec![".", "a"]);
    assert_eq!(comps("a/../b"), vec!["a", "..", "b"]);
    assert_eq!(comps("."), vec!["."]);
    assert_eq!(comps("//"), vec!["/"]);
    assert!(comps("").is_empty());
    assert_eq!(comps(".hidden/x"), vec![".hidden", "x"]);
}

#[test]
fn join_text_follows_path_join() {
    let base = FsPath::parse(&bytes("/r"));
    assert_eq!(texts(&base.join_text(&bytes("src/./main.rs"))), vec!["/", "r", "src", "main.rs"]);
    assert_eq!(texts(&base.join_text(&bytes("./x"))), vec!["/", "r", "x"]);
    assert_eq!(texts(&base.join_text(&bytes("/abs/y"))), vec!["/", "abs", "y"]);
    assert_eq!(texts(&base.join_text(&bytes("dir/"))), vec!["/", "r", "dir"]);
    let empty = FsPath::parse(&bytes(""));
    assert_eq!(texts(&empty.join_text(&bytes("./x"))), vec![".", "x"]);
}

#[test]
fn parent_and_prefixes() {
    let p = FsPath::parse(&bytes("/a/b/c"));
    let parent = p.parent().unwrap();
    assert_eq!(texts(&parent), vec!["/", "a", "b"]);
    assert!(p.starts_with(&parent));
    assert!(!parent.starts_with(&p));
    assert!(FsPath::parse(&bytes("/")).parent().is_none());
    assert!(FsPath::parse(&bytes("")).parent().is_none());
    assert_eq!(FsPath::parse(&bytes("a")).parent().unwrap().components.len(), 0);
    assert_eq!(p.file_name(), Some(bytes("c")));
    assert!(FsPath::parse(&bytes("a/..")).file_name().is_none());
    assert!(p.same_as(&FsPath::parse(&bytes("/a//b/c/"))));
    let joined = parent.join_name(&bytes("c"));
    assert!(joined.same_as(&p));
}

#[test]
fn components_keep_bytes_that_are_not_utf8() {
    let raw = vec![b'/', b'd', b'/', 0xff, b'x'];
    let p = FsPath::parse(&raw);
    assert_eq!(p.components, vec![vec![b'/'], vec![b'd'], vec![0xff, b'x']]);
    assert_eq!(p.file_name(), Some(vec![0xff, b'x']));
    assert!(!p.same_as(&FsPath::parse(&bytes("/d/\u{FFFD}x"))));
}

#[test]
fn lines_follow_str_lines() {
    let cases = ["", "a", "a\n", "a\r\nb", "a\n\nb\n", "\r\n", "x\ry\n", "a\r"];
    for case in cases {
        let got: Vec<String> = lines_of(&chars(case)).into_iter().map(|l| l.into_iter().collect()).collect();
        let want: Vec<String> = case.lines().map(|l| l.to_string()).collect();
        assert_eq!(got, want, "lines of {:?}", case);
    }
}

#[test]
fn trim_follows_str_trim() {
    let cases = ["  a b \n", "\u{3000}x\u{2003}", "", "   ", "z", "\t\r\n y \u{85}"];
    for case in cases {
        assert_eq!(trim_chars(&chars(case)), case.trim(), "trim of {:?}", case);
    }
}

#[test]
fn chars_of_gives_every_character() {
    assert_eq!(chars_of("h\u{e9}\u{1F600}"), vec!['h', '\u{e9}', '\u{1F600}']);
}
