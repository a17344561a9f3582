//! The status of files and directories in a git repository, read from the
//! output of `git status --porcelain`.
use vstd::prelude::*;

use crate::path::{FsPath, join_text, parse_path, path_parent, root_component};
use vstd::utf8::encode_utf8;

use crate::text::{bytes_of_chars, char_views, chars_of, lines_of, sub_chars, text_lines, trim_chars, trimmed};

verus! {

/// The status of one path.
#[derive(Debug, Clone, Copy, PartialEq, Eq, Structural)]
pub enum GitStatus {
    Clean,
    Modified,
    Added,
    Deleted,
    Renamed,
    Untracked,
    Ignored,
    Conflict,
}

impl Default for GitStatus {
    fn default() -> (r: GitStatus)
        ensures
            r == GitStatus::Clean,
    {
        GitStatus::Clean
    }
}

/// The status that the two status letters of a porcelain line (index,
/// then work tree) stand for.
pub open spec fn status_of(index: char, worktree: char) -> GitStatus {
    if index == '?' && worktree == '?' {
        GitStatus::Untracked
    } else if index == '!' && worktree == '!' {
        GitStatus::Ignored
    } else if index == 'U' || worktree == 'U' || (index == 'A' && worktree == 'A') || (index
        == 'D' && worktree == 'D') {
        GitStatus::Conflict
    } else if index == 'R' {
        GitStatus::Renamed
    } else if index == 'A' {
        GitStatus::Added
    } else if index == 'D' || worktree == 'D' {
        GitStatus::Deleted
    } else if index == 'M' || worktree == 'M' {
        GitStatus::Modified
    } else {
        GitStatus::Clean
    }
}

/// The status that the two status letters of a porcelain line stand for.
pub fn parse_status(index: char, worktree: char) -> (r: GitStatus)
    ensures
        r == status_of(index, worktree),
{
    match (index, worktree) {
        ('?', '?') => GitStatus::Untracked,
        ('!', '!') => GitStatus::Ignored,
        ('U', _) | (_, 'U') | ('A', 'A') | ('D', 'D') => GitStatus::Conflict,
        ('R', _) => GitStatus::Renamed,
        ('A', _) => GitStatus::Added,
        ('D', _) | (_, 'D') => GitStatus::Deleted,
        ('M', _) | (_, 'M') => GitStatus::Modified,
        _ => GitStatus::Clean,
    }
}

// ---------------------------------------------------------------------------
// Maps from paths to statuses
// ---------------------------------------------------------------------------

/// One path with its value.
#[derive(Debug)]
pub struct PathEntry<V> {
    pub path: FsPath,
    pub value: V,
}

/// The first position at or after `j` of an entry for `p`, or the length of
/// `s` if there is none.
pub open spec fn entry_index_from<V>(s: Seq<PathEntry<V>>, p: Seq<Seq<u8>>, j: int) -> int
    decreases s.len() - j,
{
    if j < 0 || j >= s.len() {
        s.len() as int
    } else if s[j].path@ == p {
        j
    } else {
        entry_index_from(s, p, j + 1)
    }
}

/// The map that a sequence of entries stands for: each path to the value of
/// its first entry.
pub open spec fn entries_map<V>(s: Seq<PathEntry<V>>) -> Map<Seq<Seq<u8>>, V> {
    Map::new(
        |p: Seq<Seq<u8>>| entry_index_from(s, p, 0) < s.len(),
        |p: Seq<Seq<u8>>| s[entry_index_from(s, p, 0)].value,
    )
}

/// No path has two entries.
pub open spec fn unique_paths<V>(s: Seq<PathEntry<V>>) -> bool {
    forall|i: int, j: int| 0 <= i < j < s.len() ==> s[i].path@ != s[j].path@
}

/// `entry_index_from` gives a position at or after `j` that holds an entry
/// for `p`, or the end, and no entry between `j` and it is for `p`.
pub proof fn lemma_entry_index_bounds<V>(s: Seq<PathEntry<V>>, p: Seq<Seq<u8>>, j: int)
    requires
        0 <= j <= s.len(),
    ensures
        j <= entry_index_from(s, p, j) <= s.len(),
        entry_index_from(s, p, j) < s.len() ==> s[entry_index_from(s, p, j)].path@ == p,
        forall|k: int| j <= k < entry_index_from(s, p, j) ==> s[k].path@ != p,
    decreases s.len() - j,
{
    if j < s.len() && s[j].path@ != p {
        lemma_entry_index_bounds(s, p, j + 1);
    }
}

/// A map from paths to values, each path held once.
#[derive(Debug)]
pub struct PathMap<V> {
    entries: Vec<PathEntry<V>>,
}

/// A map from paths to their statuses.
pub type StatusMap = PathMap<GitStatus>;

impl<V> View for PathMap<V> {
    type V = Map<Seq<Seq<u8>>, V>;

    closed spec fn view(&self) -> Map<Seq<Seq<u8>>, V> {
        entries_map(self.entries@)
    }
}

impl<V> PathMap<V> {
    /// No path is held twice.
    #[verifier::type_invariant]
    closed spec fn wf(&self) -> bool {
        unique_paths(self.entries@)
    }
}

impl<V: Copy> PathMap<V> {
    /// The empty map.
    pub fn new() -> (r: PathMap<V>)
        ensures
            r@ == Map::<Seq<Seq<u8>>, V>::empty(),
    {
        let r = PathMap { entries: Vec::new() };
        assert(r@ =~= Map::<Seq<Seq<u8>>, V>::empty());
        r
    }

    /// Whether the map holds no path.
    pub fn is_empty(&self) -> (r: bool)
        ensures
            r == (self@.dom() == Set::<Seq<Seq<u8>>>::empty()),
    {
        if self.entries.len() == 0 {
            assert(self@.dom() =~= Set::<Seq<Seq<u8>>>::empty());
            true
        } else {
            proof {
                let p = self.entries@[0].path@;
                assert(entry_index_from(self.entries@, p, 0) == 0);
                assert(self@.dom().contains(p));
            }
            false
        }
    }

    /// The position of the entry for `p`, if there is one.
    fn find(&self, p: &FsPath) -> (r: Option<usize>)
        ensures
            match r {
                Some(i) => i == entry_index_from(self.entries@, p@, 0) && i < self.entries@.len(),
                None => entry_index_from(self.entries@, p@, 0) == self.entries@.len(),
            },
    {
        let n = self.entries.len();
        let mut i: usize = 0;
        while i < n
            invariant
                n == self.entries@.len(),
                i <= n,
                entry_index_from(self.entries@, p@, 0) == entry_index_from(self.entries@, p@, i as int),
            decreases n - i,
        {
            if self.entries[i].path.same_as(p) {
                return Some(i);
            }
            i = i + 1;
        }
        None
    }

    /// The value of `p`, if the map holds it.
    pub fn get(&self, p: &FsPath) -> (r: Option<V>)
        ensures
            match r {
                Some(s) => self@.dom().contains(p@) && self@[p@] == s,
                None => !self@.dom().contains(p@),
            },
    {
        match self.find(p) {
            Some(i) => Some(self.entries[i].value),
            None => None,
        }
    }

    /// Sets the value of `p`, replacing the one it had.
    pub fn insert(&mut self, p: FsPath, value: V)
        ensures
            final(self)@ == old(self)@.insert(p@, value),
    {
        proof {
            use_type_invariant(&*self);
            lemma_entry_index_bounds(self.entries@, p@, 0);
        }
        let found = self.find(&p);
        let mut es: Vec<PathEntry<V>> = Vec::new();
        std::mem::swap(&mut es, &mut self.entries);
        match found {
            Some(i) => {
                let ghost before = es@;
                let path = es[i].path.duplicate();
                es.set(i, PathEntry { path, value });
                proof {
                    let s = es@;
                    assert forall|q: Seq<Seq<u8>>| #![auto]
                        entry_index_from(s, q, 0) == entry_index_from(before, q, 0) by {
                        lemma_entry_index_bounds(s, q, 0);
                        lemma_entry_index_bounds(before, q, 0);
                        let a = entry_index_from(s, q, 0);
                        let b = entry_index_from(before, q, 0);
                        if a < b {
                            assert(s[a].path@ == before[a].path@);
                        }
                        if b < a {
                            assert(s[b].path@ == before[b].path@);
                        }
                    }
                    let m = old(self)@.insert(p@, value);
                    assert forall|q: Seq<Seq<u8>>| #![trigger entry_index_from(s, q, 0)]
                        (entry_index_from(s, q, 0) < s.len()) == m.dom().contains(q) && (m.dom().contains(q)
                            ==> s[entry_index_from(s, q, 0)].value == m[q]) by {
                        let a = entry_index_from(s, q, 0);
                        lemma_entry_index_bounds(s, q, 0);
                        if a < s.len() && a != i {
                            assert(s[a] == before[a]);
                        }
                    }
                    assert(entries_map(es@) =~= m);
                    assert forall|x: int, y: int| 0 <= x < y < s.len() implies s[x].path@ != s[y].path@ by {
                        assert(s[x].path@ == before[x].path@);
                        assert(s[y].path@ == before[y].path@);
                    }
                }
            },
            None => {
                let ghost before = es@;
                es.push(PathEntry { path: p, value });
                proof {
                    let s = es@;
                    let m = old(self)@.insert(p@, value);
                    assert forall|q: Seq<Seq<u8>>| #![trigger entry_index_from(s, q, 0)]
                        (entry_index_from(s, q, 0) < s.len()) == m.dom().contains(q) && (m.dom().contains(q)
                            ==> s[entry_index_from(s, q, 0)].value == m[q]) by {
                        lemma_entry_index_bounds(s, q, 0);
                        lemma_entry_index_bounds(before, q, 0);
                        let a = entry_index_from(s, q, 0);
                        let b = entry_index_from(before, q, 0);
                        if a < before.len() {
                            assert(s[a] == before[a]);
                        }
                        if b < before.len() {
                            assert(s[b] == before[b]);
                        }
                        if q == p@ {
                            assert(s[before.len() as int].path@ == p@);
                            assert(a == before.len());
                        } else {
                            if a == before.len() {
                                assert(s[a].path@ == p@);
                            }
                            if b < before.len() {
                                assert(a == b);
                            } else if a < before.len() {
                                assert(before[a].path@ == q);
                            }
                        }
                    }
                    assert forall|q: Seq<Seq<u8>>| entries_map(es@).dom().contains(q) <==> m.dom().contains(q) by {
                        assert((entry_index_from(s, q, 0) < s.len()) == m.dom().contains(q));
                    }
                    assert(entries_map(es@).dom() =~= m.dom());
                    assert forall|q: Seq<Seq<u8>>| entries_map(es@).dom().contains(q) implies entries_map(es@)[q] == m[q] by {
                        assert((entry_index_from(s, q, 0) < s.len()) == m.dom().contains(q));
                    }
                    assert(entries_map(es@) =~= m);
                    assert forall|x: int, y: int| 0 <= x < y < s.len() implies s[x].path@ != s[y].path@ by {
                        if y == before.len() {
                            assert(s[x] == before[x]);
                            lemma_entry_index_bounds(before, p@, 0);
                        } else {
                            assert(s[x] == before[x]);
                            assert(s[y] == before[y]);
                        }
                    }
                }
            },
        }
        self.entries = es;
    }

    /// Removes every path.
    pub fn clear(&mut self)
        ensures
            final(self)@ == Map::<Seq<Seq<u8>>, V>::empty(),
    {
        self.entries = Vec::new();
        assert(self@ =~= Map::<Seq<Seq<u8>>, V>::empty());
    }
}

// ---------------------------------------------------------------------------
// Reading porcelain output
// ---------------------------------------------------------------------------

/// The number of bytes of the UTF-8 encoding of `c`.
pub open spec fn utf8_len(c: char) -> nat {
    if (c as u32) < 0x80 {
        1
    } else if (c as u32) < 0x800 {
        2
    } else if (c as u32) < 0x10000 {
        3
    } else {
        4
    }
}

/// The number of bytes of the UTF-8 encoding of `s`.
pub open spec fn byte_len(s: Seq<char>) -> nat
    decreases s.len(),
{
    if s.len() == 0 {
        0
    } else {
        byte_len(s.drop_last()) + utf8_len(s.last())
    }
}

/// The first `k` at or after `j` such that the first `k` characters of `s`
/// take at least three bytes, or the length of `s`.
pub open spec fn cut_from(s: Seq<char>, j: int) -> int
    decreases s.len() - j,
{
    if j < 0 || j >= s.len() {
        s.len() as int
    } else if byte_len(s.subrange(0, j)) >= 3 {
        j
    } else {
        cut_from(s, j + 1)
    }
}

/// A porcelain line can be read: when it has at least four bytes, its
/// fourth byte starts a character (the path starts there).
pub open spec fn line_ok(l: Seq<char>) -> bool {
    byte_len(l) < 4 || byte_len(l.subrange(0, cut_from(l, 0))) == 3
}

/// Every line of `out` can be read.
pub open spec fn porcelain_ok(out: Seq<char>) -> bool {
    forall|i: int| 0 <= i < text_lines(out).len() ==> line_ok(#[trigger] text_lines(out)[i])
}

/// ` -> ` stands at position `i` of `s`.
pub open spec fn arrow_at(s: Seq<char>, i: int) -> bool {
    0 <= i && i + 4 <= s.len() && s[i] == ' ' && s[i + 1] == '-' && s[i + 2] == '>' && s[i + 3]
        == ' '
}

/// The first position at or after `i` where ` -> ` stands, or -1.
pub open spec fn find_arrow(s: Seq<char>, i: int) -> int
    decreases s.len() - i,
{
    if i < 0 || i + 4 > s.len() {
        -1
    } else if arrow_at(s, i) {
        i
    } else {
        find_arrow(s, i + 1)
    }
}

/// `find_arrow` gives -1 or a position at or after `i` where ` -> ` stands.
pub proof fn lemma_find_arrow(s: Seq<char>, i: int)
    requires
        0 <= i,
    ensures
        find_arrow(s, i) == -1 || (i <= find_arrow(s, i) && arrow_at(s, find_arrow(s, i))),
    decreases s.len() - i,
{
    if i + 4 <= s.len() && !arrow_at(s, i) {
        lemma_find_arrow(s, i + 1);
    }
}

/// The last piece of `s` from `start` on when it is split at ` -> ` (the
/// pieces found from left to right).
pub open spec fn last_piece_from(s: Seq<char>, start: int) -> Seq<char>
    decreases s.len() - start,
{
    if start < 0 || start > s.len() {
        seq![]
    } else {
        let f = find_arrow(s, start);
        proof {
            lemma_find_arrow(s, start);
        }
        if f < 0 {
            s.subrange(start, s.len() as int)
        } else {
            last_piece_from(s, f + 4)
        }
    }
}

/// The path that a porcelain path text names: for a rename `old -> new`,
/// the new path.
pub open spec fn rename_target(s: Seq<char>) -> Seq<char> {
    last_piece_from(s, 0)
}

/// No ` -> ` stands in `s` at or after position `k`.
pub open spec fn arrow_free_from(s: Seq<char>, k: int) -> bool {
    forall|i: int| k <= i ==> !#[trigger] arrow_at(s, i)
}

proof fn lemma_find_arrow_none(s: Seq<char>, i: int)
    requires
        0 <= i,
        find_arrow(s, i) == -1,
    ensures
        arrow_free_from(s, i),
    decreases s.len() - i,
{
    if i + 4 <= s.len() {
        lemma_find_arrow_none(s, i + 1);
        assert forall|j: int| i <= j implies !#[trigger] arrow_at(s, j) by {
            if j > i {
                assert(!arrow_at(s, j));
            }
        }
    }
}

proof fn lemma_last_piece(s: Seq<char>, start: int)
    requires
        0 <= start <= s.len(),
    ensures
        exists|k: int|
            start <= k <= s.len() && #[trigger] s.subrange(k, s.len() as int) == last_piece_from(s, start)
                && arrow_free_from(s, k) && (k == start || (k >= start + 4 && arrow_at(s, k - 4))),
    decreases s.len() - start,
{
    lemma_find_arrow(s, start);
    let f = find_arrow(s, start);
    if f < 0 {
        lemma_find_arrow_none(s, start);
        assert(s.subrange(start, s.len() as int) == last_piece_from(s, start));
    } else {
        lemma_last_piece(s, f + 4);
        let k = choose|k: int|
            f + 4 <= k <= s.len() && #[trigger] s.subrange(k, s.len() as int) == last_piece_from(s, f + 4)
                && arrow_free_from(s, k) && (k == f + 4 || (k >= f + 8 && arrow_at(s, k - 4)));
        assert(s.subrange(k, s.len() as int) == last_piece_from(s, start));
    }
}

/// Law: the path a renamed line names is the part of the text after its
/// last ` -> `: it is a final part of the text, no ` -> ` stands in it, and
/// it starts right after a ` -> ` unless it is the whole text; a text
/// without ` -> ` names itself.
pub proof fn law_rename_target(s: Seq<char>)
    ensures
        exists|k: int|
            0 <= k <= s.len() && #[trigger] s.subrange(k, s.len() as int) == rename_target(s)
                && arrow_free_from(s, k) && (k == 0 || (k >= 4 && arrow_at(s, k - 4))),
        arrow_free_from(s, 0) ==> rename_target(s) == s,
{
    lemma_last_piece(s, 0);
    if arrow_free_from(s, 0) {
        lemma_find_arrow(s, 0);
        if find_arrow(s, 0) >= 0 {
            assert(!arrow_at(s, find_arrow(s, 0)));
        }
        assert(s.subrange(0, s.len() as int) =~= s);
    }
}

/// The effect of one line of `git status --porcelain` output on the map:
/// a line of at least four bytes sets the path after its first three bytes
/// (joined to `root`) to the status its two first characters stand for.
pub open spec fn status_line_effect(
    m: Map<Seq<Seq<u8>>, GitStatus>,
    root: Seq<Seq<u8>>,
    l: Seq<char>,
) -> Map<Seq<Seq<u8>>, GitStatus> {
    if byte_len(l) < 4 {
        m
    } else {
        m.insert(
            join_text(root, encode_utf8(rename_target(l.subrange(cut_from(l, 0), l.len() as int)))),
            status_of(l[0], l[1]),
        )
    }
}

/// The effect of one line of `git status --porcelain --ignored` output: a
/// line starting with `!! ` marks the path after it as ignored.
pub open spec fn ignored_line_effect(
    m: Map<Seq<Seq<u8>>, GitStatus>,
    root: Seq<Seq<u8>>,
    l: Seq<char>,
) -> Map<Seq<Seq<u8>>, GitStatus> {
    if l.len() >= 3 && l[0] == '!' && l[1] == '!' && l[2] == ' ' {
        m.insert(join_text(root, encode_utf8(l.subrange(3, l.len() as int))), GitStatus::Ignored)
    } else {
        m
    }
}

/// The effect of the status lines `ls`, in order.
pub open spec fn apply_status_lines(
    m: Map<Seq<Seq<u8>>, GitStatus>,
    root: Seq<Seq<u8>>,
    ls: Seq<Seq<char>>,
) -> Map<Seq<Seq<u8>>, GitStatus>
    decreases ls.len(),
{
    if ls.len() == 0 {
        m
    } else {
        status_line_effect(apply_status_lines(m, root, ls.drop_last()), root, ls.last())
    }
}

/// The effect of the ignored-file lines `ls`, in order.
pub open spec fn apply_ignored_lines(
    m: Map<Seq<Seq<u8>>, GitStatus>,
    root: Seq<Seq<u8>>,
    ls: Seq<Seq<char>>,
) -> Map<Seq<Seq<u8>>, GitStatus>
    decreases ls.len(),
{
    if ls.len() == 0 {
        m
    } else {
        ignored_line_effect(apply_ignored_lines(m, root, ls.drop_last()), root, ls.last())
    }
}

/// The lines of a command's output, none when the command did not run or
/// failed.
pub open spec fn output_lines(o: Option<String>) -> Seq<Seq<char>> {
    match o {
        Some(s) => text_lines(s@),
        None => seq![],
    }
}

proof fn lemma_byte_len_take_grows(s: Seq<char>, j: int)
    requires
        0 <= j < s.len(),
    ensures
        byte_len(s.subrange(0, j + 1)) == byte_len(s.subrange(0, j)) + utf8_len(s[j]),
{
    let t = s.subrange(0, j + 1);
    assert(t.drop_last() =~= s.subrange(0, j));
}

proof fn lemma_byte_len_mono(s: Seq<char>, a: int, b: int)
    requires
        0 <= a <= b <= s.len(),
    ensures
        byte_len(s.subrange(0, a)) <= byte_len(s.subrange(0, b)),
        a < b ==> byte_len(s.subrange(0, a)) < byte_len(s.subrange(0, b)),
    decreases b - a,
{
    if a < b {
        lemma_byte_len_mono(s, a, b - 1);
        lemma_byte_len_take_grows(s, b - 1);
    }
}

/// The number of bytes of the UTF-8 encoding of `c`.
fn char_width(c: char) -> (w: usize)
    ensures
        w == utf8_len(c),
{
    if (c as u32) < 0x80 {
        1
    } else if (c as u32) < 0x800 {
        2
    } else if (c as u32) < 0x10000 {
        3
    } else {
        4
    }
}

/// Counts the characters of `l` from its start until they take at least
/// three bytes (or `l` ends): gives their number and their bytes.
fn scan_to_third_byte(l: &Vec<char>) -> (r: (usize, usize))
    ensures
        r.0 <= l@.len(),
        r.1 == byte_len(l@.subrange(0, r.0 as int)),
        r.1 <= 6,
        cut_from(l@, 0) == cut_from(l@, r.0 as int),
        r.0 == l@.len() || r.1 >= 3,
{
    let n = l.len();
    let mut k: usize = 0;
    let mut acc: usize = 0;
    proof {
        assert(l@.subrange(0, 0) =~= Seq::<char>::empty());
    }
    while k < n && acc < 3
        invariant
            n == l@.len(),
            k <= n,
            acc == byte_len(l@.subrange(0, k as int)),
            acc <= 6,
            cut_from(l@, 0) == cut_from(l@, k as int),
        decreases n - k,
    {
        let c = l[k];
        let w = char_width(c);
        proof {
            lemma_byte_len_take_grows(l@, k as int);
        }
        acc = acc + w;
        k = k + 1;
    }
    (k, acc)
}

/// Where the path of a porcelain line starts, for a line of at least four
/// bytes that can be read: the position of its fourth byte.
fn path_start(l: &Vec<char>) -> (r: Option<usize>)
    requires
        line_ok(l@),
    ensures
        match r {
            Some(k) => byte_len(l@) >= 4 && k == cut_from(l@, 0) && 1 <= k <= l@.len() && l@.len()
                >= 2,
            None => byte_len(l@) < 4,
        },
{
    let n = l.len();
    let mut total: usize = 0;
    let mut i: usize = 0;
    proof {
        assert(l@.subrange(0, 0) =~= Seq::<char>::empty());
    }
    while i < n && total < 4
        invariant
            n == l@.len(),
            i <= n,
            total == byte_len(l@.subrange(0, i as int)),
            i > 0 ==> byte_len(l@.subrange(0, i - 1)) < 4,
        decreases n - i,
    {
        let c = l[i];
        let w = char_width(c);
        proof {
            lemma_byte_len_take_grows(l@, i as int);
        }
        total = total + w;
        i = i + 1;
    }
    if total < 4 {
        proof {
            assert(l@.subrange(0, n as int) =~= l@);
        }
        return None;
    }
    proof {
        lemma_byte_len_mono(l@, i as int, n as int);
        assert(l@.subrange(0, n as int) =~= l@);
    }
    let (k, acc) = scan_to_third_byte(l);
    proof {
        if k == n {
            assert(l@.subrange(0, n as int) =~= l@);
        }
        assert(acc == 3);
        assert(k >= 1);
        if k <= 1 {
            lemma_byte_len_mono(l@, k as int, n as int);
            if k == 1 {
                assert(l@.len() >= 2) by {
                    if l@.len() == 1 {
                        assert(l@.subrange(0, 1) =~= l@);
                    }
                }
            }
        }
    }
    Some(k)
}

/// Whether a porcelain line can be read (see `line_ok`).
pub fn line_readable(l: &Vec<char>) -> (r: bool)
    ensures
        r == line_ok(l@),
{
    let n = l.len();
    let (k, acc) = scan_to_third_byte(l);
    proof {
        if k == n {
            assert(l@.subrange(0, n as int) =~= l@);
        }
        if acc >= 3 {
            assert(cut_from(l@, 0) == k);
            lemma_byte_len_mono(l@, k as int, n as int);
            assert(l@.subrange(0, n as int) =~= l@);
        }
    }
    acc <= 3
}

/// Whether every line of a porcelain output can be read (see
/// `porcelain_ok`).
pub fn porcelain_readable(out: &String) -> (r: bool)
    ensures
        r == porcelain_ok(out@),
{
    let cs = chars_of(out.as_str());
    let lines = lines_of(&cs);
    let n = lines.len();
    for i in 0..n
        invariant
            n == lines@.len(),
            char_views(lines@) == text_lines(out@),
            forall|j: int| 0 <= j < i ==> line_ok(#[trigger] text_lines(out@)[j]),
    {
        proof {
            assert(char_views(lines@)[i as int] == lines@[i as int]@);
        }
        if !line_readable(&lines[i]) {
            return false;
        }
    }
    true
}

/// The path that a porcelain path text names: for a rename `old -> new`,
/// the new path.
pub fn rename_target_of(s: &Vec<char>) -> (r: Vec<char>)
    ensures
        r@ == rename_target(s@),
{
    let n = s.len();
    let mut last: usize = 0;
    let mut i: usize = 0;
    while i <= n && n - i >= 4
        invariant
            n == s@.len(),
            i <= n,
            last <= i,
            last <= n,
            last_piece_from(s@, 0) == last_piece_from(s@, last as int),
            find_arrow(s@, last as int) == find_arrow(s@, i as int),
        decreases n - i,
    {
        if s[i] == ' ' && s[i + 1] == '-' && s[i + 2] == '>' && s[i + 3] == ' ' {
            proof {
                assert(arrow_at(s@, i as int));
                lemma_find_arrow(s@, last as int);
            }
            last = i + 4;
            i = i + 4;
        } else {
            i = i + 1;
        }
    }
    proof {
        lemma_find_arrow(s@, last as int);
    }
    sub_chars(s, last, n)
}

/// The top directory of the repository, from the output of
/// `git rev-parse --show-toplevel` (`None` when it did not run or failed).
pub fn find_git_root(output: &Option<String>) -> (r: Option<FsPath>)
    ensures
        match r {
            Some(p) => output is Some && p@ == parse_path(encode_utf8(trimmed(output->0@))),
            None => output is None,
        },
{
    match output {
        Some(s) => {
            let cs = chars_of(s.as_str());
            let t = trim_chars(&cs);
            let tc = chars_of(t.as_str());
            Some(FsPath::parse(&bytes_of_chars(&tc)))
        },
        None => None,
    }
}

/// The current branch, from the output of `git rev-parse --abbrev-ref HEAD`
/// (`None` when it did not run or failed).
pub fn get_current_branch(output: &Option<String>) -> (r: Option<String>)
    ensures
        match r {
            Some(b) => output is Some && b@ == trimmed(output->0@),
            None => output is None,
        },
{
    match output {
        Some(s) => {
            let cs = chars_of(s.as_str());
            Some(trim_chars(&cs))
        },
        None => None,
    }
}

// ---------------------------------------------------------------------------
// Directory statuses
// ---------------------------------------------------------------------------

/// No component of `f` from position `k` on is the root.
pub open spec fn no_root_from(f: Seq<Seq<u8>>, k: int) -> bool {
    forall|j: int| k <= j < f.len() ==> f[j] != root_component()
}

/// `d` is reached from `f` by taking parents one or more times.
pub open spec fn is_ancestor(d: Seq<Seq<u8>>, f: Seq<Seq<u8>>) -> bool {
    exists|k: int| 0 <= k < f.len() && #[trigger] no_root_from(f, k) && d == f.subrange(0, k)
}

/// A status that marks its directories as modified.
pub open spec fn is_change(s: GitStatus) -> bool {
    s == GitStatus::Modified || s == GitStatus::Added || s == GitStatus::Deleted || s
        == GitStatus::Renamed || s == GitStatus::Conflict
}

/// Some path of `m` below `d` has a status that marks it as modified.
pub open spec fn has_change_below(m: Map<Seq<Seq<u8>>, GitStatus>, d: Seq<Seq<u8>>) -> bool {
    exists|f: Seq<Seq<u8>>| #[trigger] m.dom().contains(f) && is_ancestor(d, f) && is_change(m[f])
}

/// Some path of `m` below `d` is untracked.
pub open spec fn has_untracked_below(m: Map<Seq<Seq<u8>>, GitStatus>, d: Seq<Seq<u8>>) -> bool {
    exists|f: Seq<Seq<u8>>|
        #[trigger] m.dom().contains(f) && is_ancestor(d, f) && m[f] == GitStatus::Untracked
}

/// The status of directory `d` given the statuses of paths `m`: modified
/// when something below it is changed, otherwise untracked when something
/// below it is untracked, otherwise clean.
pub open spec fn dir_status(m: Map<Seq<Seq<u8>>, GitStatus>, d: Seq<Seq<u8>>) -> GitStatus {
    if has_change_below(m, d) {
        GitStatus::Modified
    } else if has_untracked_below(m, d) {
        GitStatus::Untracked
    } else {
        GitStatus::Clean
    }
}

/// The directories whose status is not clean, with their status.
pub open spec fn dir_cache(m: Map<Seq<Seq<u8>>, GitStatus>) -> Map<Seq<Seq<u8>>, GitStatus> {
    Map::new(|d: Seq<Seq<u8>>| dir_status(m, d) != GitStatus::Clean, |d: Seq<Seq<u8>>| dir_status(m, d))
}

/// Whether a status marks its directories as modified.
pub fn status_is_change(s: GitStatus) -> (r: bool)
    ensures
        r == is_change(s),
{
    match s {
        GitStatus::Modified | GitStatus::Added | GitStatus::Deleted | GitStatus::Renamed
        | GitStatus::Conflict => true,
        _ => false,
    }
}

proof fn lemma_unique_index<V>(s: Seq<PathEntry<V>>, j: int)
    requires
        unique_paths(s),
        0 <= j < s.len(),
    ensures
        entry_index_from(s, s[j].path@, 0) == j,
{
    lemma_entry_index_bounds(s, s[j].path@, 0);
    let a = entry_index_from(s, s[j].path@, 0);
    if a < j {
        assert(s[a].path@ == s[j].path@);
    }
}

/// Some entry before position `i` has a path below `d`.
pub open spec fn anc_upto(s: Seq<PathEntry<GitStatus>>, i: int, d: Seq<Seq<u8>>) -> bool {
    exists|j: int| 0 <= j < i && #[trigger] is_ancestor(d, s[j].path@)
}

/// Some entry before position `i` has a path below `d` and a changed
/// status.
pub open spec fn chg_upto(s: Seq<PathEntry<GitStatus>>, i: int, d: Seq<Seq<u8>>) -> bool {
    exists|j: int| 0 <= j < i && #[trigger] is_ancestor(d, s[j].path@) && is_change(s[j].value)
}

/// Some entry before position `i` has a path below `d` and is untracked.
pub open spec fn unt_upto(s: Seq<PathEntry<GitStatus>>, i: int, d: Seq<Seq<u8>>) -> bool {
    exists|j: int| 0 <= j < i && #[trigger] is_ancestor(d, s[j].path@) && s[j].value == GitStatus::Untracked
}

/// `d` is one of the first `m` components of `f` for some `m` from `lo` on.
pub open spec fn marked(f: Seq<Seq<u8>>, lo: int, d: Seq<Seq<u8>>) -> bool {
    exists|m: int| lo <= m < f.len() && d == #[trigger] f.subrange(0, m)
}

/// The flags gathered from the first `i` entries of `s`, and from the
/// directories of the `i`-th marked so far (those from `lo` on).
pub open spec fn flags_model(
    s: Seq<PathEntry<GitStatus>>,
    i: int,
    lo: int,
) -> Map<Seq<Seq<u8>>, (bool, bool)> {
    Map::new(
        |d: Seq<Seq<u8>>| anc_upto(s, i, d) || (i < s.len() && marked(s[i].path@, lo, d)),
        |d: Seq<Seq<u8>>|
            (
                chg_upto(s, i, d) || (i < s.len() && marked(s[i].path@, lo, d) && is_change(s[i].value)),
                unt_upto(s, i, d) || (i < s.len() && marked(s[i].path@, lo, d) && s[i].value
                    == GitStatus::Untracked),
            ),
    )
}

/// The directory statuses that flags stand for.
pub open spec fn flag_statuses(fl: Map<Seq<Seq<u8>>, (bool, bool)>) -> Map<Seq<Seq<u8>>, GitStatus> {
    Map::new(
        |d: Seq<Seq<u8>>| fl.dom().contains(d) && (fl[d].0 || fl[d].1),
        |d: Seq<Seq<u8>>|
            if fl[d].0 {
                GitStatus::Modified
            } else {
                GitStatus::Untracked
            },
    )
}

proof fn lemma_marked_is_ancestor(f: Seq<Seq<u8>>, lo: int)
    requires
        0 <= lo <= f.len(),
        no_root_from(f, lo),
        lo == 0 || f[lo - 1] == root_component(),
    ensures
        forall|d: Seq<Seq<u8>>| marked(f, lo, d) <==> is_ancestor(d, f),
{
    assert forall|d: Seq<Seq<u8>>| marked(f, lo, d) <==> is_ancestor(d, f) by {
        if marked(f, lo, d) {
            let m = choose|m: int| lo <= m < f.len() && d == #[trigger] f.subrange(0, m);
            assert(no_root_from(f, m));
        }
        if is_ancestor(d, f) {
            let k = choose|k: int| 0 <= k < f.len() && #[trigger] no_root_from(f, k) && d == f.subrange(0, k);
            if k < lo {
                assert(f[lo - 1] != root_component());
            }
            assert(d == f.subrange(0, k));
        }
    }
}

/// The flags (something changed below, something untracked below) of
/// every directory above a path of `statuses`.
fn gather_flags(statuses: &PathMap<GitStatus>) -> (r: PathMap<(bool, bool)>)
    ensures
        r@ == flags_model(statuses.entries@, statuses.entries@.len() as int, 0),
{
    let ghost e = statuses.entries@;
    let mut flags: PathMap<(bool, bool)> = PathMap::new();
    let n = statuses.entries.len();
    proof {
        if n > 0 {
            assert(flags@ =~= flags_model(e, 0, e[0].path@.len() as int));
        }
    }
    for i in 0..n
        invariant
            n == e.len(),
            e == statuses.entries@,
            flags@ == flags_model(e, i as int, if i < n { e[i as int].path@.len() as int } else { 0 }),
    {
        let f = &statuses.entries[i].path;
        let st = statuses.entries[i].value;
        let chg = status_is_change(st);
        let unt = st == GitStatus::Untracked;
        let mut current = f.parent();
        let ghost mut lo: int = f@.len() as int;
        proof {
            assert(f@.subrange(0, lo) =~= f@);
        }
        while current.is_some()
            invariant
                n == e.len(),
                e == statuses.entries@,
                i < n,
                f@ == e[i as int].path@,
                st == e[i as int].value,
                chg == is_change(st),
                unt == (st == GitStatus::Untracked),
                flags@ == flags_model(e, i as int, lo),
                0 <= lo <= f@.len(),
                no_root_from(f@, lo),
                match current {
                    Some(d) => path_parent(f@.subrange(0, lo)) == Some(d@),
                    None => path_parent(f@.subrange(0, lo)) is None,
                },
            decreases lo,
        {
            let dir = current.unwrap();
            let next = dir.parent();
            let prev = flags.get(&dir);
            let (c0, u0) = match prev {
                Some(x) => x,
                None => (false, false),
            };
            let ghost d0 = dir@;
            let ghost old_flags = flags@;
            flags.insert(dir, (c0 || chg, u0 || unt));
            proof {
                assert(d0 =~= f@.subrange(0, lo - 1));
                let lo2 = lo - 1;
                assert(no_root_from(f@, lo2));
                let want = flags_model(e, i as int, lo2);
                assert(marked(f@, lo2, d0)) by {
                    assert(d0 == f@.subrange(0, lo2));
                }
                assert forall|d: Seq<Seq<u8>>| d != d0 implies marked(f@, lo2, d) == marked(f@, lo, d) by {
                    if marked(f@, lo2, d) {
                        let m = choose|m: int| lo2 <= m < f@.len() && d == #[trigger] f@.subrange(0, m);
                        assert(m != lo2);
                    }
                }
                assert forall|d: Seq<Seq<u8>>| chg_upto(e, i as int, d) implies anc_upto(e, i as int, d) by {
                    let j = choose|j: int| 0 <= j < i && #[trigger] is_ancestor(d, e[j].path@) && is_change(e[j].value);
                }
                assert forall|d: Seq<Seq<u8>>| unt_upto(e, i as int, d) implies anc_upto(e, i as int, d) by {
                    let j = choose|j: int| 0 <= j < i && #[trigger] is_ancestor(d, e[j].path@) && e[j].value == GitStatus::Untracked;
                }
                assert(flags@ =~= want);
                lo = lo2;
            }
            current = next;
        }
        proof {
            lemma_marked_is_ancestor(f@, lo);
            let lo_next = if i + 1 < n { e[i + 1].path@.len() as int } else { 0 };
            let want = flags_model(e, i + 1, lo_next);
            assert forall|d: Seq<Seq<u8>>| anc_upto(e, i + 1, d) == (anc_upto(e, i as int, d) || is_ancestor(d, f@)) by {
                if anc_upto(e, i + 1, d) {
                    let j = choose|j: int| 0 <= j < i + 1 && #[trigger] is_ancestor(d, e[j].path@);
                }
            }
            assert forall|d: Seq<Seq<u8>>| chg_upto(e, i + 1, d) == (chg_upto(e, i as int, d) || (is_ancestor(d, f@) && chg)) by {
                if chg_upto(e, i + 1, d) {
                    let j = choose|j: int| 0 <= j < i + 1 && #[trigger] is_ancestor(d, e[j].path@) && is_change(e[j].value);
                }
            }
            assert forall|d: Seq<Seq<u8>>| unt_upto(e, i + 1, d) == (unt_upto(e, i as int, d) || (is_ancestor(d, f@) && unt)) by {
                if unt_upto(e, i + 1, d) {
                    let j = choose|j: int| 0 <= j < i + 1 && #[trigger] is_ancestor(d, e[j].path@) && e[j].value == GitStatus::Untracked;
                }
            }
            assert forall|d: Seq<Seq<u8>>| #![trigger want.dom().contains(d)]
                flags@.dom().contains(d) == want.dom().contains(d) && (want.dom().contains(d) ==> flags@[d] == want[d]) by {
                assert(marked(f@, lo, d) == is_ancestor(d, f@));
                assert(anc_upto(e, i + 1, d) == (anc_upto(e, i as int, d) || is_ancestor(d, f@)));
                assert(chg_upto(e, i + 1, d) == (chg_upto(e, i as int, d) || (is_ancestor(d, f@) && chg)));
                assert(unt_upto(e, i + 1, d) == (unt_upto(e, i as int, d) || (is_ancestor(d, f@) && unt)));
                if i + 1 < n {
                    assert(!marked(e[i + 1].path@, lo_next, d));
                }
            }
            assert forall|d: Seq<Seq<u8>>| flags@.dom().contains(d) <==> want.dom().contains(d) by {
                assert(want.dom().contains(d) == flags@.dom().contains(d));
            }
            assert(flags@.dom() =~= want.dom());
            assert forall|d: Seq<Seq<u8>>| flags@.dom().contains(d) implies flags@[d] == want[d] by {
                assert(want.dom().contains(d));
            }
            assert(flags@ =~= want);
        }
    }
    flags
}

/// The flags gathered from all the entries give exactly the directory
/// statuses of the map the entries stand for.
proof fn lemma_flags_give_dir_cache(e: Seq<PathEntry<GitStatus>>)
    requires
        unique_paths(e),
    ensures
        flag_statuses(flags_model(e, e.len() as int, 0)) == dir_cache(entries_map(e)),
{
    let m = entries_map(e);
    let n = e.len() as int;
    let fl = flags_model(e, n, 0);
    assert forall|d: Seq<Seq<u8>>| chg_upto(e, n, d) == has_change_below(m, d) by {
        if chg_upto(e, n, d) {
            let j = choose|j: int| 0 <= j < n && #[trigger] is_ancestor(d, e[j].path@) && is_change(e[j].value);
            lemma_unique_index(e, j);
            assert(m.dom().contains(e[j].path@));
        }
        if has_change_below(m, d) {
            let f = choose|f: Seq<Seq<u8>>| #[trigger] m.dom().contains(f) && is_ancestor(d, f) && is_change(m[f]);
            let j = entry_index_from(e, f, 0);
            lemma_entry_index_bounds(e, f, 0);
            assert(is_ancestor(d, e[j].path@));
        }
    }
    assert forall|d: Seq<Seq<u8>>| unt_upto(e, n, d) == has_untracked_below(m, d) by {
        if unt_upto(e, n, d) {
            let j = choose|j: int| 0 <= j < n && #[trigger] is_ancestor(d, e[j].path@) && e[j].value == GitStatus::Untracked;
            lemma_unique_index(e, j);
            assert(m.dom().contains(e[j].path@));
        }
        if has_untracked_below(m, d) {
            let f = choose|f: Seq<Seq<u8>>| #[trigger] m.dom().contains(f) && is_ancestor(d, f) && m[f] == GitStatus::Untracked;
            let j = entry_index_from(e, f, 0);
            lemma_entry_index_bounds(e, f, 0);
            assert(is_ancestor(d, e[j].path@));
        }
    }
    assert forall|d: Seq<Seq<u8>>| chg_upto(e, n, d) || unt_upto(e, n, d) implies anc_upto(e, n, d) by {
        if chg_upto(e, n, d) {
            let j = choose|j: int| 0 <= j < n && #[trigger] is_ancestor(d, e[j].path@) && is_change(e[j].value);
        } else {
            let j = choose|j: int| 0 <= j < n && #[trigger] is_ancestor(d, e[j].path@) && e[j].value == GitStatus::Untracked;
        }
    }
    let a = flag_statuses(fl);
    let b = dir_cache(m);
    assert forall|d: Seq<Seq<u8>>| a.dom().contains(d) <==> b.dom().contains(d) by {
        assert(chg_upto(e, n, d) == has_change_below(m, d));
        assert(unt_upto(e, n, d) == has_untracked_below(m, d));
    }
    assert(a.dom() =~= b.dom());
    assert forall|d: Seq<Seq<u8>>| a.dom().contains(d) implies a[d] == b[d] by {
        assert(chg_upto(e, n, d) == has_change_below(m, d));
        assert(unt_upto(e, n, d) == has_untracked_below(m, d));
    }
    assert(a =~= b);
}

/// Some entry before position `i` has the path `d`.
pub open spec fn listed_upto<V>(g: Seq<PathEntry<V>>, i: int, d: Seq<Seq<u8>>) -> bool {
    exists|x: int| 0 <= x < i && #[trigger] g[x].path@ == d
}

/// Records in `cache` the status of every directory flagged in `flags`
/// (modified, or else untracked), keeping the other entries of `cache`.
fn apply_flags(cache: &mut PathMap<GitStatus>, flags: &PathMap<(bool, bool)>)
    ensures
        final(cache)@ == old(cache)@.union_prefer_right(flag_statuses(flags@)),
{
    proof {
        use_type_invariant(flags);
    }
    let ghost g = flags.entries@;
    let ghost fs = flag_statuses(flags@);
    let n = flags.entries.len();
    for i in 0..n
        invariant
            n == g.len(),
            g == flags.entries@,
            unique_paths(g),
            fs == flag_statuses(flags@),
            cache@ == old(cache)@.union_prefer_right(
                Map::new(
                    |d: Seq<Seq<u8>>| listed_upto(g, i as int, d) && fs.dom().contains(d),
                    |d: Seq<Seq<u8>>| fs[d],
                ),
            ),
    {
        let ghost before = cache@;
        let (c, u) = flags.entries[i].value;
        proof {
            lemma_unique_index(g, i as int);
        }
        if c || u {
            let st = if c {
                GitStatus::Modified
            } else {
                GitStatus::Untracked
            };
            let p = flags.entries[i].path.duplicate();
            cache.insert(p, st);
        }
        proof {
            let d0 = g[i as int].path@;
            let next = old(cache)@.union_prefer_right(
                Map::new(
                    |d: Seq<Seq<u8>>| listed_upto(g, i + 1, d) && fs.dom().contains(d),
                    |d: Seq<Seq<u8>>| fs[d],
                ),
            );
            assert forall|d: Seq<Seq<u8>>| #[trigger] listed_upto(g, i + 1, d) == (listed_upto(g, i as int, d) || d == d0) by {
                if d == d0 {
                    assert(g[i as int].path@ == d);
                }
            }
            assert(cache@ =~= next);
        }
    }
    proof {
        let full = Map::new(
            |d: Seq<Seq<u8>>| listed_upto(g, n as int, d) && fs.dom().contains(d),
            |d: Seq<Seq<u8>>| fs[d],
        );
        assert forall|d: Seq<Seq<u8>>| fs.dom().contains(d) implies listed_upto(g, n as int, d) by {
            lemma_entry_index_bounds(g, d, 0);
            let x = entry_index_from(g, d, 0);
        }
        assert(full =~= fs);
    }
}

/// Law: what each pair of porcelain status letters means. `??` is
/// untracked and `!!` ignored; a `U` on either side, `AA` or `DD` is a
/// conflict; otherwise an index `R` is a rename and an index `A` an
/// addition; otherwise a `D` on either side is a deletion, even when the
/// other side is `M`; otherwise an `M` on either side is a modification;
/// every other pair is clean.
pub proof fn law_status_letters(index: char, worktree: char)
    ensures
        (status_of(index, worktree) == GitStatus::Untracked) <==> (index == '?' && worktree == '?'),
        (status_of(index, worktree) == GitStatus::Ignored) <==> (index == '!' && worktree == '!'),
        (status_of(index, worktree) == GitStatus::Conflict) <==> (index == 'U' || worktree == 'U' || (index
            == 'A' && worktree == 'A') || (index == 'D' && worktree == 'D')),
        (status_of(index, worktree) == GitStatus::Renamed) <==> (index == 'R' && worktree != 'U'),
        (status_of(index, worktree) == GitStatus::Added) <==> (index == 'A' && worktree != 'A' && worktree
            != 'U'),
        (status_of(index, worktree) == GitStatus::Deleted) <==> ((index == 'D' || worktree == 'D') && index
            != 'U' && worktree != 'U' && index != 'R' && index != 'A' && !(index == 'D' && worktree == 'D')),
        (status_of(index, worktree) == GitStatus::Modified) <==> ((index == 'M' || worktree == 'M') && index
            != 'D' && worktree != 'D' && index != 'U' && worktree != 'U' && index != 'R' && index != 'A'),
        (status_of(index, worktree) == GitStatus::Clean) <==> (index != 'M' && worktree != 'M' && index != 'D'
            && worktree != 'D' && index != 'U' && worktree != 'U' && index != 'R' && index != 'A' && !(index
            == '?' && worktree == '?') && !(index == '!' && worktree == '!')),
        status_of('M', 'D') == GitStatus::Deleted,
        status_of('D', 'M') == GitStatus::Deleted,
{
}

/// Law: how the statuses below a directory decide its own. A directory
/// above a path that is modified, added, deleted, renamed or in conflict
/// shows as modified; otherwise, a directory above an untracked path shows
/// as untracked; a directory with nothing but ignored or clean paths below
/// it (or nothing at all) shows no status.
pub proof fn law_statuses_that_mark_directories(m: Map<Seq<Seq<u8>>, GitStatus>, d: Seq<Seq<u8>>)
    ensures
        (exists|f: Seq<Seq<u8>>|
            #[trigger] m.dom().contains(f) && is_ancestor(d, f) && (m[f] == GitStatus::Modified || m[f]
                == GitStatus::Added || m[f] == GitStatus::Deleted || m[f] == GitStatus::Renamed || m[f]
                == GitStatus::Conflict)) ==> dir_cache(m).dom().contains(d) && dir_cache(m)[d]
            == GitStatus::Modified,
        (forall|f: Seq<Seq<u8>>|
            #[trigger] m.dom().contains(f) && is_ancestor(d, f) ==> m[f] == GitStatus::Untracked || m[f]
                == GitStatus::Ignored || m[f] == GitStatus::Clean) ==> (dir_cache(m).dom().contains(d) <==> (
            exists|f: Seq<Seq<u8>>|
                #[trigger] m.dom().contains(f) && is_ancestor(d, f) && m[f] == GitStatus::Untracked)),
        (forall|f: Seq<Seq<u8>>|
            #[trigger] m.dom().contains(f) && is_ancestor(d, f) ==> m[f] == GitStatus::Untracked || m[f]
                == GitStatus::Ignored || m[f] == GitStatus::Clean) ==> (dir_cache(m).dom().contains(d)
            ==> dir_cache(m)[d] == GitStatus::Untracked),
{
    if exists|f: Seq<Seq<u8>>|
        #[trigger] m.dom().contains(f) && is_ancestor(d, f) && (m[f] == GitStatus::Modified || m[f]
            == GitStatus::Added || m[f] == GitStatus::Deleted || m[f] == GitStatus::Renamed || m[f]
            == GitStatus::Conflict) {
        let f = choose|f: Seq<Seq<u8>>|
            #[trigger] m.dom().contains(f) && is_ancestor(d, f) && (m[f] == GitStatus::Modified || m[f]
                == GitStatus::Added || m[f] == GitStatus::Deleted || m[f] == GitStatus::Renamed || m[f]
                == GitStatus::Conflict);
        assert(is_change(m[f]));
        assert(has_change_below(m, d));
    }
    if forall|f: Seq<Seq<u8>>|
        #[trigger] m.dom().contains(f) && is_ancestor(d, f) ==> m[f] == GitStatus::Untracked || m[f]
            == GitStatus::Ignored || m[f] == GitStatus::Clean {
        if has_change_below(m, d) {
            let f = choose|f: Seq<Seq<u8>>| #[trigger] m.dom().contains(f) && is_ancestor(d, f) && is_change(m[f]);
            assert(m[f] == GitStatus::Untracked || m[f] == GitStatus::Ignored || m[f] == GitStatus::Clean);
        }
        assert(!has_change_below(m, d));
    }
}

proof fn lemma_ignored_lines_mark(
    m: Map<Seq<Seq<u8>>, GitStatus>,
    root: Seq<Seq<u8>>,
    ls: Seq<Seq<char>>,
)
    ensures
        forall|i: int|
            0 <= i < ls.len() && ls[i].len() >= 3 && ls[i][0] == '!' && ls[i][1] == '!' && ls[i][2] == ' ' ==> {
                let p = join_text(root, encode_utf8(#[trigger] ls[i].subrange(3, ls[i].len() as int)));
                &&& apply_ignored_lines(m, root, ls).dom().contains(p)
                &&& apply_ignored_lines(m, root, ls)[p] == GitStatus::Ignored
            },
        forall|p: Seq<Seq<u8>>|
            #[trigger] apply_ignored_lines(m, root, ls).dom().contains(p) ==> m.dom().contains(p)
                || apply_ignored_lines(m, root, ls)[p] == GitStatus::Ignored,
        forall|p: Seq<Seq<u8>>|
            m.dom().contains(p) ==> #[trigger] apply_ignored_lines(m, root, ls).dom().contains(p),
    decreases ls.len(),
{
    if ls.len() > 0 {
        let a = ls.drop_last();
        lemma_ignored_lines_mark(m, root, a);
        let before = apply_ignored_lines(m, root, a);
        let after = apply_ignored_lines(m, root, ls);
        assert forall|i: int|
            0 <= i < ls.len() && ls[i].len() >= 3 && ls[i][0] == '!' && ls[i][1] == '!' && ls[i][2] == ' ' implies {
                let p = join_text(root, encode_utf8(#[trigger] ls[i].subrange(3, ls[i].len() as int)));
                &&& after.dom().contains(p)
                &&& after[p] == GitStatus::Ignored
            } by {
            if i < a.len() {
                assert(a[i] == ls[i]);
                let p = join_text(root, encode_utf8(a[i].subrange(3, a[i].len() as int)));
                assert(before.dom().contains(p) && before[p] == GitStatus::Ignored);
            }
        }
    }
}

/// Law: every path that a `!! ` line of the ignored-files output names
/// (joined to the root) is read as ignored, whatever the status output
/// said of it; every path the status output gave a status keeps one, and
/// the ignored-files output adds no other status than ignored.
pub proof fn law_ignored_lines_mark_paths(
    root: Seq<Seq<u8>>,
    status_output: Option<String>,
    ignored_output: Option<String>,
)
    ensures
        ({
            let ls = output_lines(ignored_output);
            forall|i: int|
                0 <= i < ls.len() && ls[i].len() >= 3 && ls[i][0] == '!' && ls[i][1] == '!' && ls[i][2] == ' '
                    ==> read_statuses(root, status_output, ignored_output).dom().contains(
                    join_text(root, encode_utf8(#[trigger] ls[i].subrange(3, ls[i].len() as int))),
                ) && read_statuses(root, status_output, ignored_output)[join_text(
                    root,
                    encode_utf8(ls[i].subrange(3, ls[i].len() as int)),
                )] == GitStatus::Ignored
        }),
        forall|p: Seq<Seq<u8>>|
            #[trigger] read_statuses(root, status_output, ignored_output).dom().contains(p) ==> apply_status_lines(
                Map::empty(),
                root,
                output_lines(status_output),
            ).dom().contains(p) || read_statuses(root, status_output, ignored_output)[p] == GitStatus::Ignored,
        forall|p: Seq<Seq<u8>>|
            apply_status_lines(Map::empty(), root, output_lines(status_output)).dom().contains(p)
                ==> #[trigger] read_statuses(root, status_output, ignored_output).dom().contains(p),
{
    let m = apply_status_lines(Map::empty(), root, output_lines(status_output));
    lemma_ignored_lines_mark(m, root, output_lines(ignored_output));
}

/// The path a status line names, joined to `root`: the text after its
/// first three bytes, or after its last ` -> ` for a rename.
pub open spec fn status_line_path(root: Seq<Seq<u8>>, l: Seq<char>) -> Seq<Seq<u8>> {
    join_text(root, encode_utf8(rename_target(l.subrange(cut_from(l, 0), l.len() as int))))
}

/// Law: every line of the status output of at least four bytes gives the
/// path it names a status, and every path read from it has the status that
/// the two letters of some line naming it stand for (index letter first,
/// then work-tree letter); no other path gets one.
pub proof fn law_status_lines_give_statuses(root: Seq<Seq<u8>>, ls: Seq<Seq<char>>)
    ensures
        forall|i: int|
            0 <= i < ls.len() && byte_len(ls[i]) >= 4 ==> apply_status_lines(Map::empty(), root, ls).dom().contains(
                status_line_path(root, #[trigger] ls[i]),
            ),
        forall|p: Seq<Seq<u8>>|
            #[trigger] apply_status_lines(Map::empty(), root, ls).dom().contains(p) ==> exists|i: int|
                0 <= i < ls.len() && byte_len(#[trigger] ls[i]) >= 4 && status_line_path(root, ls[i]) == p
                    && apply_status_lines(Map::empty(), root, ls)[p] == status_of(ls[i][0], ls[i][1]),
    decreases ls.len(),
{
    if ls.len() > 0 {
        let a = ls.drop_last();
        law_status_lines_give_statuses(root, a);
        let before = apply_status_lines(Map::empty(), root, a);
        let after = apply_status_lines(Map::empty(), root, ls);
        let l = ls.last();
        assert forall|i: int| 0 <= i < ls.len() && byte_len(ls[i]) >= 4 implies after.dom().contains(
            status_line_path(root, #[trigger] ls[i]),
        ) by {
            if i < a.len() {
                assert(a[i] == ls[i]);
                assert(before.dom().contains(status_line_path(root, a[i])));
            }
        }
        assert forall|p: Seq<Seq<u8>>| #[trigger] after.dom().contains(p) implies exists|i: int|
            0 <= i < ls.len() && byte_len(#[trigger] ls[i]) >= 4 && status_line_path(root, ls[i]) == p
                && after[p] == status_of(ls[i][0], ls[i][1]) by {
            if byte_len(l) >= 4 && p == status_line_path(root, l) {
                assert(ls[ls.len() - 1] == l);
            } else {
                assert(before.dom().contains(p));
                let i = choose|i: int|
                    0 <= i < a.len() && byte_len(#[trigger] a[i]) >= 4 && status_line_path(root, a[i]) == p
                        && before[p] == status_of(a[i][0], a[i][1]);
                assert(ls[i] == a[i]);
            }
        }
    }
}

/// Law: the parent of a path is one of the directories above it.
pub proof fn law_parent_is_above(f: Seq<Seq<u8>>, d: Seq<Seq<u8>>)
    requires
        path_parent(f) == Some(d),
    ensures
        is_ancestor(d, f),
{
    let k = f.len() - 1;
    assert(no_root_from(f, k));
    assert(d =~= f.subrange(0, k));
}

/// Law: every directory above a changed path shows as modified.
pub proof fn law_change_marks_directories_modified(
    m: Map<Seq<Seq<u8>>, GitStatus>,
    f: Seq<Seq<u8>>,
    d: Seq<Seq<u8>>,
)
    requires
        m.dom().contains(f),
        is_change(m[f]),
        is_ancestor(d, f),
    ensures
        dir_cache(m).dom().contains(d),
        dir_cache(m)[d] == GitStatus::Modified,
{
    assert(has_change_below(m, d));
}

/// Law: a directory above an untracked path shows as untracked unless
/// something below it is changed, in which case it shows as modified.
pub proof fn law_untracked_marks_directories(
    m: Map<Seq<Seq<u8>>, GitStatus>,
    f: Seq<Seq<u8>>,
    d: Seq<Seq<u8>>,
)
    requires
        m.dom().contains(f),
        m[f] == GitStatus::Untracked,
        is_ancestor(d, f),
    ensures
        dir_cache(m).dom().contains(d),
        dir_cache(m)[d] == (if has_change_below(m, d) {
            GitStatus::Modified
        } else {
            GitStatus::Untracked
        }),
{
    assert(has_untracked_below(m, d));
}

/// Law: a directory shows a status only when some path below it has a
/// status that marks it: a change, or an untracked path.
pub proof fn law_directory_status_has_a_cause(m: Map<Seq<Seq<u8>>, GitStatus>, d: Seq<Seq<u8>>)
    requires
        dir_cache(m).dom().contains(d),
    ensures
        exists|f: Seq<Seq<u8>>|
            #[trigger] m.dom().contains(f) && is_ancestor(d, f) && (is_change(m[f]) || m[f]
                == GitStatus::Untracked),
{
    if has_change_below(m, d) {
        let f = choose|f: Seq<Seq<u8>>| #[trigger] m.dom().contains(f) && is_ancestor(d, f) && is_change(m[f]);
        assert(m.dom().contains(f) && is_ancestor(d, f) && (is_change(m[f]) || m[f] == GitStatus::Untracked));
    } else {
        let f = choose|f: Seq<Seq<u8>>|
            #[trigger] m.dom().contains(f) && is_ancestor(d, f) && m[f] == GitStatus::Untracked;
        assert(m.dom().contains(f) && is_ancestor(d, f) && (is_change(m[f]) || m[f] == GitStatus::Untracked));
    }
}

// ---------------------------------------------------------------------------
// The repository
// ---------------------------------------------------------------------------

/// The path held by an optional path.
pub open spec fn opt_path(o: Option<FsPath>) -> Option<Seq<Seq<u8>>> {
    match o {
        Some(p) => Some(p@),
        None => None,
    }
}

/// The text held by an optional string.
pub open spec fn opt_text(o: Option<String>) -> Option<Seq<char>> {
    match o {
        Some(s) => Some(s@),
        None => None,
    }
}

/// The statuses read for a repository whose top directory is `root`, from
/// the outputs of `git status --porcelain -unormal` and of
/// `git status --porcelain --ignored -unormal`.
pub open spec fn read_statuses(
    root: Seq<Seq<u8>>,
    status_output: Option<String>,
    ignored_output: Option<String>,
) -> Map<Seq<Seq<u8>>, GitStatus> {
    apply_ignored_lines(
        apply_status_lines(Map::empty(), root, output_lines(status_output)),
        root,
        output_lines(ignored_output),
    )
}

/// Every path that `m` holds is `root` joined with some text.
pub open spec fn keys_joined(m: Map<Seq<Seq<u8>>, GitStatus>, root: Seq<Seq<u8>>) -> bool {
    forall|p: Seq<Seq<u8>>| #[trigger] m.dom().contains(p) ==> exists|s: Seq<char>| p == join_text(root, encode_utf8(s))
}

proof fn lemma_status_lines_joined(m: Map<Seq<Seq<u8>>, GitStatus>, root: Seq<Seq<u8>>, ls: Seq<Seq<char>>)
    requires
        keys_joined(m, root),
    ensures
        keys_joined(apply_status_lines(m, root, ls), root),
    decreases ls.len(),
{
    if ls.len() > 0 {
        lemma_status_lines_joined(m, root, ls.drop_last());
        let l = ls.last();
        if byte_len(l) >= 4 {
            let s = rename_target(l.subrange(cut_from(l, 0), l.len() as int));
            let before = apply_status_lines(m, root, ls.drop_last());
            let after = apply_status_lines(m, root, ls);
            assert forall|p: Seq<Seq<u8>>| #[trigger] after.dom().contains(p) implies exists|t: Seq<char>|
                p == join_text(root, encode_utf8(t)) by {
                if p == join_text(root, encode_utf8(s)) {
                } else {
                    assert(before.dom().contains(p));
                }
            }
        }
    }
}

proof fn lemma_ignored_lines_joined(m: Map<Seq<Seq<u8>>, GitStatus>, root: Seq<Seq<u8>>, ls: Seq<Seq<char>>)
    requires
        keys_joined(m, root),
    ensures
        keys_joined(apply_ignored_lines(m, root, ls), root),
    decreases ls.len(),
{
    if ls.len() > 0 {
        lemma_ignored_lines_joined(m, root, ls.drop_last());
        let l = ls.last();
        if l.len() >= 3 && l[0] == '!' && l[1] == '!' && l[2] == ' ' {
            let s = l.subrange(3, l.len() as int);
            let before = apply_ignored_lines(m, root, ls.drop_last());
            let after = apply_ignored_lines(m, root, ls);
            assert forall|p: Seq<Seq<u8>>| #[trigger] after.dom().contains(p) implies exists|t: Seq<char>|
                p == join_text(root, encode_utf8(t)) by {
                if p == join_text(root, encode_utf8(s)) {
                } else {
                    assert(before.dom().contains(p));
                }
            }
        }
    }
}

/// Law: every path whose status is read from git's output is the root of
/// the repository joined with the text that git gave for it.
pub proof fn law_status_paths_under_root(
    root: Seq<Seq<u8>>,
    status_output: Option<String>,
    ignored_output: Option<String>,
)
    ensures
        keys_joined(read_statuses(root, status_output, ignored_output), root),
{
    let e = Map::<Seq<Seq<u8>>, GitStatus>::empty();
    lemma_status_lines_joined(e, root, output_lines(status_output));
    lemma_ignored_lines_joined(
        apply_status_lines(e, root, output_lines(status_output)),
        root,
        output_lines(ignored_output),
    );
}

/// The git state of the repository a directory belongs to.
#[derive(Debug)]
pub struct GitRepo {
    pub root: Option<FsPath>,
    pub statuses: StatusMap,
    pub dir_status_cache: StatusMap,
    pub branch: Option<String>,
}

impl Default for GitRepo {
    fn default() -> (r: GitRepo)
        ensures
            r.root is None,
            r.statuses@ == Map::<Seq<Seq<u8>>, GitStatus>::empty(),
            r.dir_status_cache@ == Map::<Seq<Seq<u8>>, GitStatus>::empty(),
            r.branch is None,
    {
        GitRepo { root: None, statuses: PathMap::new(), dir_status_cache: PathMap::new(), branch: None }
    }
}

impl GitRepo {
    /// The outputs of the git commands can be read: the porcelain status
    /// output is looked at only when the top directory was found.
    pub open spec fn outputs_ok(root_output: Option<String>, status_output: Option<String>) -> bool {
        root_output is Some && status_output is Some ==> porcelain_ok(status_output->0@)
    }

    /// The state read from the outputs of the git commands (see
    /// `refresh`).
    pub fn new(
        root_output: &Option<String>,
        status_output: &Option<String>,
        ignored_output: &Option<String>,
        branch_output: &Option<String>,
    ) -> (r: GitRepo)
        requires
            Self::outputs_ok(*root_output, *status_output),
        ensures
            r.refreshed_from(*root_output, *status_output, *ignored_output, *branch_output),
    {
        let mut repo = GitRepo::default();
        repo.refresh(root_output, status_output, ignored_output, branch_output);
        repo
    }

    /// The state that the outputs of the git commands give: the top
    /// directory from `git rev-parse --show-toplevel` (`None` when it did not
    /// run or failed); when there is one, the statuses of its paths, the
    /// statuses of its directories, and the branch from
    /// `git rev-parse --abbrev-ref HEAD`; otherwise nothing.
    pub open spec fn refreshed_from(
        &self,
        root_output: Option<String>,
        status_output: Option<String>,
        ignored_output: Option<String>,
        branch_output: Option<String>,
    ) -> bool {
        match root_output {
            None => {
                &&& self.root is None
                &&& self.statuses@ == Map::<Seq<Seq<u8>>, GitStatus>::empty()
                &&& self.dir_status_cache@ == Map::<Seq<Seq<u8>>, GitStatus>::empty()
                &&& self.branch is None
            },
            Some(o) => {
                let root = parse_path(encode_utf8(trimmed(o@)));
                let st = read_statuses(root, status_output, ignored_output);
                &&& opt_path(self.root) == Some(root)
                &&& self.statuses@ == st
                &&& self.dir_status_cache@ == dir_cache(st)
                &&& opt_text(self.branch) == (match branch_output {
                    Some(b) => Some(trimmed(b@)),
                    None => None,
                })
            },
        }
    }

    /// Reads the state again from the outputs of the git commands (see
    /// `refreshed_from`).
    pub fn refresh(
        &mut self,
        root_output: &Option<String>,
        status_output: &Option<String>,
        ignored_output: &Option<String>,
        branch_output: &Option<String>,
    )
        requires
            Self::outputs_ok(*root_output, *status_output),
        ensures
            final(self).refreshed_from(*root_output, *status_output, *ignored_output, *branch_output),
    {
        self.root = find_git_root(root_output);
        self.statuses.clear();
        self.dir_status_cache.clear();
        self.branch = None;
        match &self.root {
            Some(r) => {
                let root = r.duplicate();
                self.load_statuses(&root, status_output, ignored_output);
                self.build_directory_cache();
                self.branch = get_current_branch(branch_output);
                proof {
                    assert(self.dir_status_cache@ =~= dir_cache(self.statuses@));
                }
            },
            None => {},
        }
    }

    /// Records the statuses read from the outputs of
    /// `git status --porcelain -unormal` and then of
    /// `git status --porcelain --ignored -unormal` (`None` when a command did
    /// not run or failed), for the repository whose top directory is `root`.
    fn load_statuses(&mut self, root: &FsPath, status_output: &Option<String>, ignored_output: &Option<String>)
        requires
            status_output matches Some(s) ==> porcelain_ok(s@),
        ensures
            final(self).statuses@ == apply_ignored_lines(
                apply_status_lines(old(self).statuses@, root@, output_lines(*status_output)),
                root@,
                output_lines(*ignored_output),
            ),
            final(self).root == old(self).root,
            final(self).branch == old(self).branch,
            final(self).dir_status_cache == old(self).dir_status_cache,
    {
        let ghost start = self.statuses@;
        if let Some(out) = status_output {
            let cs = chars_of(out.as_str());
            let lines = lines_of(&cs);
            let n = lines.len();
            proof {
                assert(char_views(lines@).subrange(0, 0) =~= Seq::<Seq<char>>::empty());
            }
            for i in 0..n
                invariant
                    n == lines@.len(),
                    char_views(lines@) == text_lines(out@),
                    porcelain_ok(out@),
                    self.root == old(self).root,
                    self.branch == old(self).branch,
                    self.dir_status_cache == old(self).dir_status_cache,
                    self.statuses@ == apply_status_lines(start, root@, char_views(lines@).subrange(0, i as int)),
            {
                let l = &lines[i];
                proof {
                    assert(char_views(lines@)[i as int] == l@);
                    assert(line_ok(text_lines(out@)[i as int]));
                    let t = char_views(lines@).subrange(0, i + 1);
                    assert(t.drop_last() =~= char_views(lines@).subrange(0, i as int));
                    assert(t.last() == l@);
                }
                match path_start(l) {
                    None => {},
                    Some(k) => {
                        let rest = sub_chars(l, k, l.len());
                        let target = rename_target_of(&rest);
                        let full = root.join_text(&bytes_of_chars(&target));
                        let st = parse_status(l[0], l[1]);
                        self.statuses.insert(full, st);
                    },
                }
            }
            proof {
                assert(char_views(lines@).subrange(0, n as int) =~= char_views(lines@));
            }
        }
        let ghost mid = self.statuses@;
        proof {
            assert(mid == apply_status_lines(start, root@, output_lines(*status_output)));
        }
        if let Some(out) = ignored_output {
            let cs = chars_of(out.as_str());
            let lines = lines_of(&cs);
            let n = lines.len();
            proof {
                assert(char_views(lines@).subrange(0, 0) =~= Seq::<Seq<char>>::empty());
            }
            for i in 0..n
                invariant
                    n == lines@.len(),
                    char_views(lines@) == text_lines(out@),
                    self.root == old(self).root,
                    self.branch == old(self).branch,
                    self.dir_status_cache == old(self).dir_status_cache,
                    self.statuses@ == apply_ignored_lines(mid, root@, char_views(lines@).subrange(0, i as int)),
            {
                let l = &lines[i];
                proof {
                    assert(char_views(lines@)[i as int] == l@);
                    let t = char_views(lines@).subrange(0, i + 1);
                    assert(t.drop_last() =~= char_views(lines@).subrange(0, i as int));
                    assert(t.last() == l@);
                }
                if l.len() >= 3 && l[0] == '!' && l[1] == '!' && l[2] == ' ' {
                    let rest = sub_chars(l, 3, l.len());
                    let full = root.join_text(&bytes_of_chars(&rest));
                    self.statuses.insert(full, GitStatus::Ignored);
                }
            }
            proof {
                assert(char_views(lines@).subrange(0, n as int) =~= char_views(lines@));
            }
        }
    }

    /// Records the status of every directory above a path with a status:
    /// modified when something below it is changed, otherwise untracked when
    /// something below it is untracked; clean directories are not recorded.
    fn build_directory_cache(&mut self)
        ensures
            final(self).dir_status_cache@ == old(self).dir_status_cache@.union_prefer_right(
                dir_cache(old(self).statuses@),
            ),
            final(self).root == old(self).root,
            final(self).branch == old(self).branch,
            final(self).statuses == old(self).statuses,
    {
        let flags = gather_flags(&self.statuses);
        proof {
            use_type_invariant(&self.statuses);
            lemma_flags_give_dir_cache(self.statuses.entries@);
        }
        apply_flags(&mut self.dir_status_cache, &flags);
    }

    /// The status of `path`: its own status when it has one; otherwise, when
    /// it is a directory (`path_is_dir`), the status recorded for it as a
    /// directory; otherwise clean.
    pub fn get_status(&self, path: &FsPath, path_is_dir: bool) -> (r: GitStatus)
        ensures
            r == (if self.statuses@.dom().contains(path@) {
                self.statuses@[path@]
            } else if path_is_dir && self.dir_status_cache@.dom().contains(path@) {
                self.dir_status_cache@[path@]
            } else {
                GitStatus::Clean
            }),
    {
        if let Some(s) = self.statuses.get(path) {
            return s;
        }
        if path_is_dir {
            if let Some(s) = self.dir_status_cache.get(path) {
                return s;
            }
        }
        GitStatus::Clean
    }

    /// Whether a repository was found.
    pub fn is_inside_repo(&self) -> (r: bool)
        ensures
            r == self.root is Some,
    {
        self.root.is_some()
    }
}

} // verus!
