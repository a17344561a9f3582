//! A tree of directory entries that can be expanded and collapsed, and the
//! flat list of the entries that are visible.
use vstd::prelude::*;

use crate::path::{DOT, FsPath, parse_path, path_file_name, path_starts_with};
use crate::text::{lossy_text, text_of_bytes};

verus! {

// ---------------------------------------------------------------------------
// Directory listings
// ---------------------------------------------------------------------------

/// One entry of a directory listing, as a directory read reports it.
#[derive(Debug, Clone)]
pub struct DirEntryInfo {
    /// The bytes of the file name as the system gives them.
    pub name_bytes: Vec<u8>,
    /// Whether the file name is valid UTF-8.
    pub name_is_utf8: bool,
    /// Whether the entry itself is a directory (a symbolic link to one is
    /// not): this orders the listing.
    pub is_dir: bool,
    /// Whether the entry's path leads to a directory, following symbolic
    /// links: this is the kind of the node made for the entry.
    pub leads_to_dir: bool,
}

/// `a` comes strictly before `b` in the lexicographic order of bytes.
pub open spec fn name_lt(a: Seq<u8>, b: Seq<u8>) -> bool
    decreases a.len(),
{
    if b.len() == 0 {
        false
    } else if a.len() == 0 {
        true
    } else if a[0] != b[0] {
        a[0] < b[0]
    } else {
        name_lt(a.drop_first(), b.drop_first())
    }
}

/// `x` is listed strictly before `y`: entries that are directories themselves
/// come before the others, and entries of the same kind are ordered by the
/// bytes of their names.
pub open spec fn entry_lt(x: DirEntryInfo, y: DirEntryInfo) -> bool {
    (x.is_dir && !y.is_dir) || (x.is_dir == y.is_dir && name_lt(x.name_bytes@, y.name_bytes@))
}

/// A hidden entry: its name is valid UTF-8 and starts with `.`.
pub open spec fn is_hidden(e: DirEntryInfo) -> bool {
    e.name_is_utf8 && e.name_bytes@.len() > 0 && e.name_bytes@[0] == DOT
}

/// Whether an entry is listed, given whether hidden entries are shown.
pub open spec fn is_shown(e: DirEntryInfo, show_hidden: bool) -> bool {
    show_hidden || !is_hidden(e)
}

/// The first position at or after `j` whose entry `x` comes strictly before,
/// or the length of `r` if there is none.
pub open spec fn insert_pos_from(r: Seq<DirEntryInfo>, x: DirEntryInfo, j: int) -> int
    decreases r.len() - j,
{
    if j >= r.len() || j < 0 {
        r.len() as int
    } else if entry_lt(x, r[j]) {
        j
    } else {
        insert_pos_from(r, x, j + 1)
    }
}

/// `r` with `x` inserted after every entry that does not come after it.
pub open spec fn insert_sorted(r: Seq<DirEntryInfo>, x: DirEntryInfo) -> Seq<DirEntryInfo> {
    r.insert(insert_pos_from(r, x, 0), x)
}

/// The shown entries of `es`, ordered by `entry_lt`, entries that are not
/// ordered either way keeping the order they had in `es`.
pub open spec fn sorted_listing(es: Seq<DirEntryInfo>, show_hidden: bool) -> Seq<DirEntryInfo>
    decreases es.len(),
{
    if es.len() == 0 {
        seq![]
    } else {
        let rest = sorted_listing(es.drop_last(), show_hidden);
        if is_shown(es.last(), show_hidden) {
            insert_sorted(rest, es.last())
        } else {
            rest
        }
    }
}

/// Whether the name `a` comes strictly before the name `b`, both given by
/// their bytes.
pub fn name_less(a: &Vec<u8>, b: &Vec<u8>) -> (r: bool)
    ensures
        r == name_lt(a@, b@),
{
    let la = a.len();
    let lb = b.len();
    let mut i: usize = 0;
    assert(a@.skip(0) =~= a@);
    assert(b@.skip(0) =~= b@);
    while i < la && i < lb
        invariant
            la == a@.len(),
            lb == b@.len(),
            i <= la,
            i <= lb,
            name_lt(a@, b@) == name_lt(a@.skip(i as int), b@.skip(i as int)),
        decreases la - i,
    {
        let x = a[i];
        let y = b[i];
        assert(a@.skip(i as int)[0] == x);
        assert(b@.skip(i as int)[0] == y);
        if x != y {
            return x < y;
        }
        assert(a@.skip(i as int).drop_first() =~= a@.skip(i + 1));
        assert(b@.skip(i as int).drop_first() =~= b@.skip(i + 1));
        i = i + 1;
    }
    assert(a@.skip(i as int).len() == la - i);
    assert(b@.skip(i as int).len() == lb - i);
    i < lb
}

/// Whether `x` is listed strictly before `y`.
pub fn entry_less(x: &DirEntryInfo, y: &DirEntryInfo) -> (r: bool)
    ensures
        r == entry_lt(*x, *y),
{
    if x.is_dir && !y.is_dir {
        true
    } else if x.is_dir == y.is_dir {
        name_less(&x.name_bytes, &y.name_bytes)
    } else {
        false
    }
}

/// Whether an entry is hidden.
pub fn entry_is_hidden(e: &DirEntryInfo) -> (r: bool)
    ensures
        r == is_hidden(*e),
{
    e.name_is_utf8 && e.name_bytes.len() > 0 && e.name_bytes[0] == DOT
}

/// The entries of `es` at the positions `idx`, in that order.
pub open spec fn picked(es: Seq<DirEntryInfo>, idx: Seq<usize>) -> Seq<DirEntryInfo> {
    idx.map_values(|k: usize| es[k as int])
}

/// The positions of the shown entries of a listing, ordered as the tree
/// shows them.
pub fn sort_listing(entries: &Vec<DirEntryInfo>, show_hidden: bool) -> (r: Vec<usize>)
    ensures
        forall|j: int| 0 <= j < r@.len() ==> #[trigger] r@[j] < entries@.len(),
        picked(entries@, r@) == sorted_listing(entries@, show_hidden),
{
    let mut out: Vec<usize> = Vec::new();
    let n = entries.len();
    for i in 0..n
        invariant
            n == entries.len(),
            forall|j: int| 0 <= j < out@.len() ==> #[trigger] out@[j] < n,
            picked(entries@, out@) == sorted_listing(entries@.subrange(0, i as int), show_hidden),
    {
        let e = &entries[i];
        let ghost po = picked(entries@, out@);
        proof {
            let s = entries@.subrange(0, i + 1);
            assert(s.drop_last() =~= entries@.subrange(0, i as int));
            assert(s.last() == *e);
        }
        if show_hidden || !entry_is_hidden(e) {
            proof {
                law_listing_in_order(entries@.subrange(0, i as int), show_hidden);
                lemma_insert_pos(po, *e, 0);
            }
            let mut lo: usize = 0;
            let mut hi: usize = out.len();
            while lo < hi
                invariant
                    n == entries.len(),
                    forall|j: int| 0 <= j < out@.len() ==> #[trigger] out@[j] < n,
                    po == picked(entries@, out@),
                    lo <= hi <= out@.len(),
                    listing_in_order(po),
                    forall|k: int| 0 <= k < lo ==> !entry_lt(*e, #[trigger] po[k]),
                    forall|k: int| hi <= k < out@.len() ==> entry_lt(*e, #[trigger] po[k]),
                decreases hi - lo,
            {
                let mid = lo + (hi - lo) / 2;
                let at = out[mid];
                assert(po[mid as int] == entries@[at as int]);
                if entry_less(e, &entries[at]) {
                    proof {
                        assert forall|k: int| mid <= k < out@.len() implies entry_lt(*e, #[trigger] po[k]) by {
                            lemma_lt_carries_forward(po, *e, mid as int, k);
                        }
                    }
                    hi = mid;
                } else {
                    proof {
                        assert forall|k: int| 0 <= k <= mid implies !entry_lt(*e, #[trigger] po[k]) by {
                            if entry_lt(*e, po[k]) {
                                lemma_lt_carries_forward(po, *e, k, mid as int);
                            }
                        }
                    }
                    lo = mid + 1;
                }
            }
            let j = lo;
            proof {
                let p = insert_pos_from(po, *e, 0);
                if p < j {
                    assert(entry_lt(*e, po[p]));
                }
                if j < p {
                    assert(entry_lt(*e, po[j as int]));
                }
            }
            out.insert(j, i);
            proof {
                assert(picked(entries@, out@) =~= po.insert(j as int, *e));
            }
        }
    }
    assert(entries@.subrange(0, n as int) =~= entries@);
    out
}


proof fn lemma_name_lt_irreflexive(a: Seq<u8>)
    ensures
        !name_lt(a, a),
    decreases a.len(),
{
    if a.len() > 0 {
        lemma_name_lt_irreflexive(a.drop_first());
    }
}

proof fn lemma_name_lt_transitive(a: Seq<u8>, b: Seq<u8>, c: Seq<u8>)
    requires
        name_lt(a, b),
        name_lt(b, c),
    ensures
        name_lt(a, c),
    decreases a.len(),
{
    if a.len() > 0 && b.len() > 0 && c.len() > 0 && a[0] == b[0] && b[0] == c[0] {
        lemma_name_lt_transitive(a.drop_first(), b.drop_first(), c.drop_first());
    }
}

proof fn lemma_name_lt_total(a: Seq<u8>, b: Seq<u8>)
    ensures
        name_lt(a, b) || name_lt(b, a) || a == b,
    decreases a.len(),
{
    if a.len() > 0 && b.len() > 0 && a[0] == b[0] {
        lemma_name_lt_total(a.drop_first(), b.drop_first());
        if a.drop_first() == b.drop_first() {
            assert(a =~= seq![a[0]] + a.drop_first());
            assert(b =~= seq![b[0]] + b.drop_first());
        }
    } else if a.len() == 0 && b.len() == 0 {
        assert(a =~= b);
    }
}

proof fn lemma_entry_lt_order(x: DirEntryInfo, y: DirEntryInfo, z: DirEntryInfo)
    ensures
        !entry_lt(x, x),
        entry_lt(x, y) && entry_lt(y, z) ==> entry_lt(x, z),
{
    lemma_name_lt_irreflexive(x.name_bytes@);
    if entry_lt(x, y) && entry_lt(y, z) && x.is_dir == y.is_dir && y.is_dir == z.is_dir {
        lemma_name_lt_transitive(x.name_bytes@, y.name_bytes@, z.name_bytes@);
    }
}

/// In a listing in order, once `x` comes before an entry it comes before
/// every later one.
proof fn lemma_lt_carries_forward(r: Seq<DirEntryInfo>, x: DirEntryInfo, j: int, k: int)
    requires
        listing_in_order(r),
        0 <= j <= k < r.len(),
        entry_lt(x, r[j]),
    ensures
        entry_lt(x, r[k]),
{
    if j < k && !entry_lt(x, r[k]) {
        assert(!entry_lt(r[k], r[j]));
        lemma_name_lt_total(x.name_bytes@, r[k].name_bytes@);
        if entry_lt(r[k], x) {
            lemma_entry_lt_order(r[k], x, r[j]);
        } else {
            lemma_name_lt_total(r[k].name_bytes@, r[j].name_bytes@);
            assert(x.is_dir == r[k].is_dir);
            assert(x.name_bytes@ == r[k].name_bytes@);
        }
    }
}

/// A listing is in order: no entry comes strictly before an earlier one.
pub open spec fn listing_in_order(l: Seq<DirEntryInfo>) -> bool {
    forall|i: int, j: int| 0 <= i < j < l.len() ==> !entry_lt(#[trigger] l[j], #[trigger] l[i])
}

proof fn lemma_insert_pos(r: Seq<DirEntryInfo>, x: DirEntryInfo, j: int)
    requires
        0 <= j <= r.len(),
    ensures
        j <= insert_pos_from(r, x, j) <= r.len(),
        forall|k: int| j <= k < insert_pos_from(r, x, j) ==> !entry_lt(x, #[trigger] r[k]),
        insert_pos_from(r, x, j) < r.len() ==> entry_lt(x, r[insert_pos_from(r, x, j)]),
    decreases r.len() - j,
{
    if j < r.len() && !entry_lt(x, r[j]) {
        lemma_insert_pos(r, x, j + 1);
    }
}

proof fn lemma_insert_sorted_in_order(r: Seq<DirEntryInfo>, x: DirEntryInfo)
    requires
        listing_in_order(r),
    ensures
        listing_in_order(insert_sorted(r, x)),
        insert_sorted(r, x).to_multiset() == r.to_multiset().insert(x),
{
    let k = insert_pos_from(r, x, 0);
    lemma_insert_pos(r, x, 0);
    let s = r.insert(k, x);
    assert forall|i: int, j: int| 0 <= i < j < s.len() implies !entry_lt(#[trigger] s[j], #[trigger] s[i]) by {
        if i < k && j < k {
            assert(s[i] == r[i] && s[j] == r[j]);
        } else if i < k && j == k {
            assert(s[i] == r[i] && s[j] == x);
            if entry_lt(x, r[i]) {
                assert(false);
            }
        } else if i < k && j > k {
            assert(s[i] == r[i] && s[j] == r[j - 1]);
        } else if i == k {
            assert(s[j] == r[j - 1]);
            lemma_entry_lt_order(r[j - 1], x, r[k]);
            if entry_lt(r[j - 1], x) {
                lemma_entry_lt_order(r[j - 1], x, r[k]);
                if j - 1 > k {
                    assert(!entry_lt(r[j - 1], r[k]));
                }
                lemma_entry_lt_order(r[k], r[k], r[k]);
            }
        } else {
            assert(s[i] == r[i - 1] && s[j] == r[j - 1]);
        }
    }
    assert(s.remove(k) =~= r);
    s.to_multiset_ensures();
    assert(s.remove(k).to_multiset() =~= s.to_multiset().remove(x));
    assert(s.to_multiset().contains(x)) by {
        assert(s[k] == x);
    }
}

/// The entries of a listing that are shown, in the order they were read.
pub open spec fn shown_entries(es: Seq<DirEntryInfo>, show_hidden: bool) -> Seq<DirEntryInfo> {
    es.filter(|e: DirEntryInfo| is_shown(e, show_hidden))
}

/// Law: the children made from a listing are in order: directories before
/// other entries, and entries of the same kind by the bytes of their names;
/// they are exactly the entries that are shown.
pub proof fn law_listing_in_order(es: Seq<DirEntryInfo>, show_hidden: bool)
    ensures
        listing_in_order(sorted_listing(es, show_hidden)),
        sorted_listing(es, show_hidden).to_multiset() == shown_entries(es, show_hidden).to_multiset(),
    decreases es.len(),
{
    if es.len() > 0 {
        let a = es.drop_last();
        let x = es.last();
        law_listing_in_order(a, show_hidden);
        if is_shown(x, show_hidden) {
            lemma_insert_sorted_in_order(sorted_listing(a, show_hidden), x);
        }
        let pred = |e: DirEntryInfo| is_shown(e, show_hidden);
        assert(es =~= a + seq![x]);
        Seq::filter_distributes_over_add(a, seq![x], pred);
        reveal_with_fuel(Seq::filter, 2);
        let fa = a.filter(pred);
        if is_shown(x, show_hidden) {
            assert(seq![x].filter(pred) =~= seq![x]);
            fa.to_multiset_ensures();
            assert(shown_entries(es, show_hidden) =~= fa.push(x));
        } else {
            assert(seq![x].filter(pred) =~= Seq::<DirEntryInfo>::empty());
            assert(shown_entries(es, show_hidden) =~= fa);
        }
    } else {
        assert(shown_entries(es, show_hidden) =~= Seq::<DirEntryInfo>::empty());
    }
}

/// Law: in the children made from a listing, every entry that is itself a
/// directory comes before every entry that is not.
pub proof fn law_directories_first(es: Seq<DirEntryInfo>, show_hidden: bool)
    ensures
        forall|i: int, j: int|
            0 <= i < j < sorted_listing(es, show_hidden).len() && (#[trigger] sorted_listing(es, show_hidden)[j]).is_dir
                ==> (#[trigger] sorted_listing(es, show_hidden)[i]).is_dir,
{
    law_listing_in_order(es, show_hidden);
}

/// `a` does not come after `b` in byte order: at the first position where
/// they differ `a` has the smaller byte, or `a` is a prefix of `b`.
pub open spec fn bytes_le(a: Seq<u8>, b: Seq<u8>) -> bool {
    exists|k: int|
        0 <= k <= a.len() && k <= b.len() && #[trigger] a.take(k) == b.take(k) && (k == a.len() || (k < b.len()
            && a[k] < b[k]))
}

proof fn lemma_not_lt_gives_le(a: Seq<u8>, b: Seq<u8>)
    requires
        !name_lt(b, a),
    ensures
        bytes_le(a, b),
    decreases a.len(),
{
    if a.len() == 0 {
        assert(a.take(0) =~= b.take(0));
    } else if b.len() == 0 {
    } else if a[0] != b[0] {
        assert(a.take(0) =~= b.take(0));
    } else {
        lemma_not_lt_gives_le(a.drop_first(), b.drop_first());
        let a1 = a.drop_first();
        let b1 = b.drop_first();
        let k = choose|k: int|
            0 <= k <= a1.len() && k <= b1.len() && #[trigger] a1.take(k) == b1.take(k) && (k == a1.len() || (k
                < b1.len() && a1[k] < b1[k]));
        assert(a.take(k + 1) =~= seq![a[0]] + a1.take(k));
        assert(b.take(k + 1) =~= seq![b[0]] + b1.take(k));
        if k < a1.len() {
            assert(a[k + 1] == a1[k]);
            assert(b[k + 1] == b1[k]);
        }
    }
}

/// Law: in the children made from a listing, entries of the same kind come
/// in byte order of their names: an earlier name never comes after a later
/// one.
pub proof fn law_names_in_byte_order(es: Seq<DirEntryInfo>, show_hidden: bool)
    ensures
        forall|i: int, j: int|
            0 <= i < j < sorted_listing(es, show_hidden).len() && (#[trigger] sorted_listing(es, show_hidden)[i]).is_dir
                == (#[trigger] sorted_listing(es, show_hidden)[j]).is_dir ==> bytes_le(
                sorted_listing(es, show_hidden)[i].name_bytes@,
                sorted_listing(es, show_hidden)[j].name_bytes@,
            ),
{
    law_listing_in_order(es, show_hidden);
    let l = sorted_listing(es, show_hidden);
    assert forall|i: int, j: int| 0 <= i < j < l.len() && (#[trigger] l[i]).is_dir == (#[trigger] l[j]).is_dir implies bytes_le(
        l[i].name_bytes@,
        l[j].name_bytes@,
    ) by {
        assert(!entry_lt(l[j], l[i]));
        lemma_not_lt_gives_le(l[i].name_bytes@, l[j].name_bytes@);
    }
}

/// Law: hidden entries are left out exactly when they are not shown: with
/// hidden entries shown, every entry of the listing gets a child; without,
/// only those that are not hidden, and never more.
pub proof fn law_hidden_entries(es: Seq<DirEntryInfo>)
    ensures
        sorted_listing(es, true).len() == es.len(),
        sorted_listing(es, false).len() <= es.len(),
        forall|i: int|
            0 <= i < sorted_listing(es, false).len() ==> !is_hidden(#[trigger] sorted_listing(es, false)[i]),
{
    law_listing_in_order(es, true);
    law_listing_in_order(es, false);
    let t = sorted_listing(es, true);
    let f = sorted_listing(es, false);
    t.to_multiset_ensures();
    f.to_multiset_ensures();
    shown_entries(es, true).to_multiset_ensures();
    shown_entries(es, false).to_multiset_ensures();
    assert(shown_entries(es, true) =~= es) by {
        broadcast use vstd::seq_lib::group_filter_ensures;

        assert forall|k: int| 0 <= k < es.len() implies shown_entries(es, true).contains(#[trigger] es[k]) by {
            es.lemma_filter_contains_rev(|e: DirEntryInfo| is_shown(e, true), es[k]);
        }
        Seq::lemma_filter_len(es, |e: DirEntryInfo| is_shown(e, true));
        lemma_filter_all(es, |e: DirEntryInfo| is_shown(e, true));
    }
    Seq::lemma_filter_len(es, |e: DirEntryInfo| is_shown(e, false));
    assert forall|i: int| 0 <= i < f.len() implies !is_hidden(#[trigger] f[i]) by {
        assert(f.to_multiset().count(f[i]) > 0);
        assert(shown_entries(es, false).contains(f[i]));
        let k = choose|k: int| 0 <= k < shown_entries(es, false).len() && shown_entries(es, false)[k] == f[i];
        Seq::lemma_filter_pred(es, |e: DirEntryInfo| is_shown(e, false), k);
    }
}

proof fn lemma_filter_all(s: Seq<DirEntryInfo>, pred: spec_fn(DirEntryInfo) -> bool)
    requires
        forall|e: DirEntryInfo| #[trigger] pred(e),
    ensures
        s.filter(pred) == s,
    decreases s.len(),
{
    reveal_with_fuel(Seq::filter, 1);
    if s.len() > 0 {
        lemma_filter_all(s.drop_last(), pred);
        assert(s.drop_last().push(s.last()) =~= s);
    }
}

// ---------------------------------------------------------------------------
// Listings read so far
// ---------------------------------------------------------------------------

/// The outcome of reading one directory: its entries, or `None` when the
/// read failed.
#[derive(Debug)]
pub struct DirListing {
    pub dir: FsPath,
    pub entries: Option<Vec<DirEntryInfo>>,
}

/// The entries of a listing by their values.
pub open spec fn listing_entries(l: DirListing) -> Option<Seq<DirEntryInfo>> {
    match l.entries {
        Some(v) => Some(v@),
        None => None,
    }
}

/// The first position at or after `j` of a listing for `p`, or the length of
/// `ls` if there is none.
pub open spec fn listing_index_from(ls: Seq<DirListing>, p: Seq<Seq<u8>>, j: int) -> int
    decreases ls.len() - j,
{
    if j >= ls.len() || j < 0 {
        ls.len() as int
    } else if ls[j].dir@ == p {
        j
    } else {
        listing_index_from(ls, p, j + 1)
    }
}

/// The outcome of the first read of `p` among `ls`: `None` when `p` has not
/// been read, `Some(None)` when the read failed, `Some(Some(es))` when it
/// gave the entries `es`.
pub open spec fn lookup_listing(ls: Seq<DirListing>, p: Seq<Seq<u8>>) -> Option<
    Option<Seq<DirEntryInfo>>,
> {
    let i = listing_index_from(ls, p, 0);
    if i < ls.len() {
        Some(listing_entries(ls[i]))
    } else {
        None
    }
}

/// `ls` without the listing that `lookup_listing(ls, p)` uses.
pub open spec fn set_aside(ls: Seq<DirListing>, p: Seq<Seq<u8>>) -> Seq<DirListing> {
    let i = listing_index_from(ls, p, 0);
    if i < ls.len() {
        ls.remove(i)
    } else {
        ls
    }
}

/// The position of the first listing of `p` in `ls`, if there is one.
pub fn find_listing(ls: &Vec<DirListing>, p: &FsPath) -> (r: Option<usize>)
    ensures
        match r {
            Some(i) => i == listing_index_from(ls@, p@, 0) && i < ls@.len(),
            None => listing_index_from(ls@, p@, 0) == ls@.len(),
        },
{
    let n = ls.len();
    let mut i: usize = 0;
    while i < n
        invariant
            n == ls@.len(),
            i <= n,
            listing_index_from(ls@, p@, 0) == listing_index_from(ls@, p@, i as int),
        decreases n - i,
    {
        if ls[i].dir.same_as(p) {
            return Some(i);
        }
        i = i + 1;
    }
    None
}

/// `listing_index_from` gives a position at or after `j` that holds a
/// listing of `p`, and no listing between `j` and it is for `p`.
pub proof fn lemma_listing_index_bounds(ls: Seq<DirListing>, p: Seq<Seq<u8>>, j: int)
    requires
        0 <= j <= ls.len(),
    ensures
        j <= listing_index_from(ls, p, j) <= ls.len(),
        listing_index_from(ls, p, j) < ls.len() ==> ls[listing_index_from(ls, p, j)].dir@ == p,
        forall|k: int| j <= k < listing_index_from(ls, p, j) ==> ls[k].dir@ != p,
    decreases ls.len() - j,
{
    if j < ls.len() && ls[j].dir@ != p {
        lemma_listing_index_bounds(ls, p, j + 1);
    }
}

/// Setting aside the listing of `p` does not change the outcome for any
/// other path.
pub proof fn lemma_set_aside_keeps_others(ls: Seq<DirListing>, p: Seq<Seq<u8>>, q: Seq<Seq<u8>>)
    requires
        p != q,
    ensures
        lookup_listing(set_aside(ls, p), q) == lookup_listing(ls, q),
{
    lemma_listing_index_bounds(ls, p, 0);
    lemma_listing_index_bounds(ls, q, 0);
    let i = listing_index_from(ls, p, 0);
    if i < ls.len() {
        let r = ls.remove(i);
        lemma_listing_index_bounds(r, q, 0);
        let iq = listing_index_from(ls, q, 0);
        let jq = listing_index_from(r, q, 0);
        // Positions before `i` are shared; after it they shift by one.
        if iq < i {
            assert(r[iq] == ls[iq]);
            if jq < iq {
                assert(r[jq] == ls[jq]);
            }
            assert(jq == iq);
        } else {
            assert(iq != i);
            if jq < i {
                assert(r[jq] == ls[jq]);
            } else if jq < r.len() {
                assert(r[jq] == ls[jq + 1]);
                if jq + 1 < iq {
                    assert(false);
                }
            }
            if iq < ls.len() {
                assert(r[iq - 1] == ls[iq]);
                assert(jq <= iq - 1);
            }
            assert(jq + 1 == iq || (jq == r.len() && iq == ls.len()));
        }
    }
}

/// What a step of an operation that may need directory listings comes to.
#[derive(Debug)]
pub enum LoadStep {
    /// The operation is complete.
    Done,
    /// The operation needs the listing of this directory; it has not been
    /// read yet.
    NeedListing(FsPath),
    /// The operation stopped because a read it needed failed.
    Failed,
}

/// The value of a `LoadStep`.
pub enum StepModel {
    Done,
    Need(Seq<Seq<u8>>),
    Failed,
}

impl View for LoadStep {
    type V = StepModel;

    open spec fn view(&self) -> StepModel {
        match self {
            LoadStep::Done => StepModel::Done,
            LoadStep::NeedListing(p) => StepModel::Need(p@),
            LoadStep::Failed => StepModel::Failed,
        }
    }
}

// ---------------------------------------------------------------------------
// Nodes
// ---------------------------------------------------------------------------

/// An entry of the tree: a file or a directory, with the children that have
/// been loaded for it.
#[derive(Debug)]
pub struct FileNode {
    pub path: FsPath,
    pub name: String,
    pub is_dir: bool,
    pub expanded: bool,
    pub depth: usize,
    pub children: Vec<FileNode>,
}

/// The mathematical value of a node.
pub struct NodeModel {
    pub path: Seq<Seq<u8>>,
    pub name: Seq<char>,
    pub is_dir: bool,
    pub expanded: bool,
    pub depth: usize,
    pub children: Seq<NodeModel>,
}

/// A node with no path, no name and no children.
pub open spec fn empty_model() -> NodeModel {
    NodeModel {
        path: seq![],
        name: seq![],
        is_dir: false,
        expanded: false,
        depth: 0,
        children: seq![],
    }
}

/// The model of `n`: its fields by their views, its children by their models.
pub open spec fn node_model(n: FileNode) -> NodeModel
    decreases n,
{
    NodeModel {
        path: n.path@,
        name: n.name@,
        is_dir: n.is_dir,
        expanded: n.expanded,
        depth: n.depth,
        children: Seq::new(
            n.children@.len(),
            |i: int|
                if 0 <= i < n.children@.len() {
                    node_model(n.children@[i])
                } else {
                    empty_model()
                },
        ),
    }
}

impl View for FileNode {
    type V = NodeModel;

    open spec fn view(&self) -> NodeModel {
        node_model(*self)
    }
}

/// The models of a sequence of nodes.
pub open spec fn models(s: Seq<FileNode>) -> Seq<NodeModel> {
    s.map_values(|n: FileNode| n@)
}

/// The name a node is shown under: the text of the last component of its
/// path when that names an entry (the name of every entry of a listing),
/// otherwise empty.
pub open spec fn node_name(p: Seq<Seq<u8>>) -> Seq<char> {
    match path_file_name(p) {
        Some(n) => lossy_text(n),
        None => seq![],
    }
}

/// A node for `p`, collapsed and with no children.
pub open spec fn fresh_node(p: Seq<Seq<u8>>, is_dir: bool, depth: usize) -> NodeModel {
    NodeModel {
        path: p,
        name: node_name(p),
        is_dir: is_dir,
        expanded: false,
        depth: depth,
        children: seq![],
    }
}

/// A node for the path whose bytes are `text`, collapsed and with no
/// children: its name is the text of the path's last component when that
/// names an entry, otherwise the text of the whole path.
pub open spec fn text_node(text: Seq<u8>, is_dir: bool, depth: usize) -> NodeModel {
    let p = parse_path(text);
    NodeModel {
        name: match path_file_name(p) {
            Some(n) => lossy_text(n),
            None => lossy_text(text),
        },
        ..fresh_node(p, is_dir, depth)
    }
}

/// `m` with the name `name`.
pub open spec fn named(m: NodeModel, name: Seq<char>) -> NodeModel {
    NodeModel { name, ..m }
}

/// The children of a directory at `p` and `depth`, one for each listed entry.
pub open spec fn listing_children(
    p: Seq<Seq<u8>>,
    depth: usize,
    listed: Seq<DirEntryInfo>,
) -> Seq<NodeModel> {
    Seq::new(
        listed.len(),
        |i: int| fresh_node(p.push(listed[i].name_bytes@), listed[i].leads_to_dir, (depth + 1) as usize),
    )
}

/// `m` with its children replaced by those of the listing `es`, when `m` is a
/// directory; `m` itself otherwise.
pub open spec fn with_listing(m: NodeModel, es: Seq<DirEntryInfo>, show_hidden: bool) -> NodeModel {
    if m.is_dir {
        NodeModel {
            children: listing_children(m.path, m.depth, sorted_listing(es, show_hidden)),
            ..m
        }
    } else {
        m
    }
}

/// Loading the listing `es` into `m` gives depths that fit in a `usize`.
pub open spec fn load_fits(m: NodeModel, es: Seq<DirEntryInfo>, show_hidden: bool) -> bool {
    m.is_dir && sorted_listing(es, show_hidden).len() > 0 ==> m.depth < usize::MAX || m.depth
        <= m.path.len()
}

/// Every node's depth is at most the number of components of its path.
pub open spec fn depths_fit(m: NodeModel) -> bool
    decreases m,
{
    &&& m.depth <= m.path.len()
    &&& forall|i: int| 0 <= i < m.children.len() ==> depths_fit(#[trigger] m.children[i])
}

impl FileNode {
    /// A collapsed node with no children for the path whose bytes are
    /// `path_bytes`; `is_dir` says whether the path is a directory.
    pub fn new(path_bytes: &Vec<u8>, is_dir: bool, depth: usize) -> (r: FileNode)
        ensures
            r@ == text_node(path_bytes@, is_dir, depth),
    {
        let path = FsPath::parse(path_bytes);
        let name = match path.file_name() {
            Some(n) => text_of_bytes(&n),
            None => text_of_bytes(path_bytes),
        };
        let r = FileNode { path, name, is_dir, expanded: false, depth, children: Vec::new() };
        assert(r@.children =~= Seq::<NodeModel>::empty());
        r
    }

    /// A collapsed node for `path` with no children; `is_dir` says whether
    /// the path is a directory.
    fn at(path: FsPath, is_dir: bool, depth: usize) -> (r: FileNode)
        ensures
            r@ == fresh_node(path@, is_dir, depth),
    {
        let name = match path.file_name() {
            Some(n) => text_of_bytes(&n),
            None => String::new(),
        };
        let r = FileNode { path, name, is_dir, expanded: false, depth, children: Vec::new() };
        assert(r@.children =~= Seq::<NodeModel>::empty());
        r
    }

    /// Replaces the children of a directory by one collapsed node for each
    /// entry of `entries` that is shown, directories first, then by name.
    /// A node that is not a directory is left as it is.
    pub fn load_children(&mut self, show_hidden: bool, entries: &Vec<DirEntryInfo>)
        requires
            load_fits(old(self)@, entries@, show_hidden),
        ensures
            final(self)@ == with_listing(old(self)@, entries@, show_hidden),
    {
        if !self.is_dir {
            return;
        }
        let listed = sort_listing(entries, show_hidden);
        let ghost old_self = old(self)@;
        let ghost sl = sorted_listing(entries@, show_hidden);
        let n = listed.len();
        let mut kids: Vec<FileNode> = Vec::new();
        for i in 0..n
            invariant
                n == listed@.len(),
                forall|j: int| 0 <= j < listed@.len() ==> #[trigger] listed@[j] < entries@.len(),
                picked(entries@, listed@) == sl,
                sl == sorted_listing(entries@, show_hidden),
                n > 0 ==> self.depth < usize::MAX || self.depth <= self@.path.len(),
                self@ == old_self,
                self.is_dir,
                kids@.len() == i,
                forall|j: int|
                    0 <= j < i ==> kids@[j]@ == listing_children(
                        self@.path,
                        self.depth,
                        sl,
                    )[j],
        {
            let e = &entries[listed[i]];
            assert(sl[i as int] == *e);
            let p = self.path.join_name(&e.name_bytes);
            proof {
                assert(p.components.len() == p.components@.len());
            }
            let child = FileNode::at(p, e.leads_to_dir, self.depth + 1);
            kids.push(child);
        }
        let ghost before = self@;
        self.children = kids;
        proof {
            let want = with_listing(old_self, entries@, show_hidden);
            assert(self@.children.len() == want.children.len());
            assert forall|j: int| 0 <= j < self@.children.len() implies self@.children[j]
                == want.children[j] by {
                assert(self@.children[j] == self.children@[j]@);
            }
            assert(self@.children =~= want.children);
        }
    }

    /// Toggles a directory between expanded and collapsed, as `toggle_one`
    /// says: expanding a directory without children first needs its listing
    /// from `listings`.
    pub fn toggle_expand(&mut self, show_hidden: bool, listings: &Vec<DirListing>) -> (r: LoadStep)
        requires
            (old(self)@.is_dir && !old(self)@.expanded && old(self)@.children.len() == 0) ==> (lookup_listing(
                listings@,
                old(self)@.path,
            ) matches Some(Some(es)) ==> load_fits(old(self)@, es, show_hidden)),
        ensures
            r@ == toggle_one(old(self)@, listings@, show_hidden).1,
            final(self)@ == toggle_one(old(self)@, listings@, show_hidden).0,
    {
        if !self.is_dir {
            return LoadStep::Done;
        }
        if !self.expanded && self.children.len() == 0 {
            self.expanded = true;
            let st = load_from_listings(self, listings, show_hidden);
            if let LoadStep::NeedListing(_) = st {
                self.expanded = false;
                proof {
                    assert(self@.children =~= old(self)@.children);
                }
            }
            st
        } else {
            self.expanded = !self.expanded;
            proof {
                assert(self@.children =~= old(self)@.children);
            }
            LoadStep::Done
        }
    }
}

/// Copies a node and all its descendants.
pub fn copy_node(node: &FileNode) -> (r: FileNode)
    ensures
        r@ == node@,
    decreases node,
{
    let mut kids: Vec<FileNode> = Vec::new();
    let n = node.children.len();
    for i in 0..n
        invariant
            n == node.children.len(),
            kids.len() == i,
            forall|j: int| 0 <= j < i ==> kids@[j]@ == node.children@[j]@,
    {
        proof {
            assert(decreases_to!(node => node.children));
            assert(decreases_to!(node.children => node.children@));
            assert(decreases_to!(node.children@ => node.children@[i as int]));
        }
        let c = copy_node(&node.children[i]);
        kids.push(c);
    }
    let r = FileNode {
        path: node.path.duplicate(),
        name: node.name.clone(),
        is_dir: node.is_dir,
        expanded: node.expanded,
        depth: node.depth,
        children: kids,
    };
    assert(r@.children.len() == node@.children.len());
    assert forall|j: int| 0 <= j < r@.children.len() implies r@.children[j] == node@.children[j] by {
        assert(r.children@[j]@ == node.children@[j]@);
    }
    assert(r@.children =~= node@.children);
    r
}

// ---------------------------------------------------------------------------
// The visible list
// ---------------------------------------------------------------------------

/// The nodes of `m` that are shown, in the order they are shown: `m`, then,
/// when `m` is expanded, the shown nodes of each child in turn.
pub open spec fn flat(m: NodeModel) -> Seq<NodeModel>
    decreases m,
{
    if m.expanded {
        seq![m] + flat_seq(m.children)
    } else {
        seq![m]
    }
}

/// The shown nodes of each node of `s` in turn.
pub open spec fn flat_seq(s: Seq<NodeModel>) -> Seq<NodeModel>
    decreases s,
{
    if s.len() == 0 {
        seq![]
    } else {
        flat_seq(s.drop_last()) + flat(s.last())
    }
}

/// The positions `0..n` in order.
pub open spec fn positions(n: nat) -> Seq<usize> {
    Seq::new(n, |i: int| i as usize)
}

/// Some shown node of `m` has the path `t`.
pub open spec fn visible_has(m: NodeModel, t: Seq<Seq<u8>>) -> bool {
    exists|k: int| 0 <= k < flat(m).len() && (#[trigger] flat(m)[k]).path == t
}

/// The first child at or after `j` among `s` that shows a node with path
/// `t`, or the length of `s` if there is none.
pub open spec fn first_child_hit(s: Seq<NodeModel>, t: Seq<Seq<u8>>, j: int) -> int
    decreases s.len() - j,
{
    if j < 0 || j >= s.len() {
        s.len() as int
    } else if visible_has(s[j], t) {
        j
    } else {
        first_child_hit(s, t, j + 1)
    }
}

/// `m` with `f` applied to the first shown node whose path is `t` (in the
/// order the nodes are shown), and unchanged if there is none.
pub open spec fn at_first_hit(
    m: NodeModel,
    t: Seq<Seq<u8>>,
    f: spec_fn(NodeModel) -> NodeModel,
) -> NodeModel
    decreases m,
{
    if m.path == t {
        f(m)
    } else if m.expanded {
        let j = first_child_hit(m.children, t, 0);
        if 0 <= j < m.children.len() {
            with_children(m, m.children.update(j, at_first_hit(m.children[j], t, f)))
        } else {
            m
        }
    } else {
        m
    }
}

/// The first shown node of `m` whose path is `t`, when there is one.
pub open spec fn first_visible(m: NodeModel, t: Seq<Seq<u8>>) -> NodeModel
    decreases m,
{
    if m.path == t {
        m
    } else if m.expanded {
        let j = first_child_hit(m.children, t, 0);
        if 0 <= j < m.children.len() {
            first_visible(m.children[j], t)
        } else {
            m
        }
    } else {
        m
    }
}

proof fn lemma_first_child_hit_bounds(s: Seq<NodeModel>, t: Seq<Seq<u8>>, j: int)
    requires
        0 <= j <= s.len(),
    ensures
        j <= first_child_hit(s, t, j) <= s.len(),
        first_child_hit(s, t, j) < s.len() ==> visible_has(s[first_child_hit(s, t, j)], t),
        forall|k: int| j <= k < first_child_hit(s, t, j) ==> !visible_has(#[trigger] s[k], t),
    decreases s.len() - j,
{
    if j < s.len() && !visible_has(s[j], t) {
        lemma_first_child_hit_bounds(s, t, j + 1);
    }
}

/// The shown nodes of a sequence hold a node with path `t` exactly when the
/// shown nodes of one of its members do.
proof fn lemma_flat_seq_has(s: Seq<NodeModel>, t: Seq<Seq<u8>>)
    ensures
        (exists|k: int| 0 <= k < flat_seq(s).len() && (#[trigger] flat_seq(s)[k]).path == t)
            <==> (exists|j: int| 0 <= j < s.len() && visible_has(#[trigger] s[j], t)),
    decreases s.len(),
{
    if s.len() > 0 {
        let a = s.drop_last();
        lemma_flat_seq_has(a, t);
        let fa = flat_seq(a);
        let fl = flat(s.last());
        assert(flat_seq(s) == fa + fl);
        if exists|k: int| 0 <= k < flat_seq(s).len() && (#[trigger] flat_seq(s)[k]).path == t {
            let k = choose|k: int| 0 <= k < flat_seq(s).len() && (#[trigger] flat_seq(s)[k]).path == t;
            if k < fa.len() {
                assert(fa[k] == flat_seq(s)[k]);
                let j = choose|j: int| 0 <= j < a.len() && visible_has(#[trigger] a[j], t);
                assert(s[j] == a[j]);
            } else {
                assert(fl[k - fa.len()] == flat_seq(s)[k]);
                assert(visible_has(s[s.len() - 1], t));
            }
        }
        if exists|j: int| 0 <= j < s.len() && visible_has(#[trigger] s[j], t) {
            let j = choose|j: int| 0 <= j < s.len() && visible_has(#[trigger] s[j], t);
            if j < s.len() - 1 {
                assert(a[j] == s[j]);
                let k = choose|k: int| 0 <= k < fa.len() && (#[trigger] fa[k]).path == t;
                assert(flat_seq(s)[k] == fa[k]);
            } else {
                let k = choose|k: int| 0 <= k < fl.len() && (#[trigger] fl[k]).path == t;
                assert(flat_seq(s)[fa.len() + k] == fl[k]);
            }
        }
    }
}

/// A node shows a node with path `t` exactly when it has that path itself,
/// or is expanded and one of its children shows such a node.
pub proof fn lemma_visible_has(m: NodeModel, t: Seq<Seq<u8>>)
    ensures
        visible_has(m, t) <==> (m.path == t || (m.expanded && exists|j: int|
            0 <= j < m.children.len() && visible_has(#[trigger] m.children[j], t))),
{
    lemma_flat_seq_has(m.children, t);
    assert(flat(m)[0] == m);
    if m.expanded {
        let f = flat_seq(m.children);
        assert(flat(m) == seq![m] + f);
        if visible_has(m, t) && m.path != t {
            let k = choose|k: int| 0 <= k < flat(m).len() && (#[trigger] flat(m)[k]).path == t;
            assert(flat(m)[k] == f[k - 1]);
        }
        if exists|j: int| 0 <= j < m.children.len() && visible_has(#[trigger] m.children[j], t) {
            let k = choose|k: int| 0 <= k < f.len() && (#[trigger] f[k]).path == t;
            assert(flat(m)[k + 1] == f[k]);
        }
    }
}

/// Nothing changes where no shown node has path `t`.
proof fn lemma_no_hit_unchanged(m: NodeModel, t: Seq<Seq<u8>>, f: spec_fn(NodeModel) -> NodeModel)
    requires
        !visible_has(m, t),
    ensures
        at_first_hit(m, t, f) == m,
{
    lemma_visible_has(m, t);
    if m.expanded {
        lemma_first_child_hit_bounds(m.children, t, 0);
    }
}

/// `m` and all its descendants collapsed.
pub open spec fn collapse_all_spec(m: NodeModel) -> NodeModel
    decreases m,
{
    NodeModel {
        expanded: false,
        children: Seq::new(
            m.children.len(),
            |i: int|
                if 0 <= i < m.children.len() {
                    collapse_all_spec(m.children[i])
                } else {
                    empty_model()
                },
        ),
        ..m
    }
}

/// `m` with the children `cs`.
pub open spec fn with_children(m: NodeModel, cs: Seq<NodeModel>) -> NodeModel {
    NodeModel { children: cs, ..m }
}

/// `m` with its `expanded` flag set to `b`.
pub open spec fn expanded_as(m: NodeModel, b: bool) -> NodeModel {
    NodeModel { expanded: b, ..m }
}

/// A node made collapsed.
pub open spec fn collapse_one() -> spec_fn(NodeModel) -> NodeModel {
    |n: NodeModel| NodeModel { expanded: false, ..n }
}

/// Collapses `node` and all its descendants.
fn collapse_all_recursive(node: &mut FileNode)
    ensures
        final(node)@ == collapse_all_spec(old(node)@),
    decreases *old(node),
{
    node.expanded = false;
    let n = node.children.len();
    for i in 0..n
        invariant
            node.children.len() == n,
            old(node).children.len() == n,
            node.path == old(node).path,
            node.name == old(node).name,
            node.is_dir == old(node).is_dir,
            node.depth == old(node).depth,
            !node.expanded,
            forall|j: int| i <= j < n ==> node.children@[j] == old(node).children@[j],
            forall|j: int|
                0 <= j < i ==> node.children@[j]@ == collapse_all_spec(old(node).children@[j]@),
    {
        proof {
            assert(decreases_to!(*old(node) => old(node).children));
            assert(decreases_to!(old(node).children => old(node).children@));
            assert(decreases_to!(old(node).children@ => old(node).children@[i as int]));
        }
        collapse_all_recursive(&mut node.children[i]);
    }
    proof {
        let want = collapse_all_spec(old(node)@);
        assert forall|j: int| 0 <= j < n implies node@.children[j] == want.children[j] by {
            assert(node@.children[j] == node.children@[j]@);
            assert(old(node)@.children[j] == old(node).children@[j]@);
        }
        assert(node@.children =~= want.children);
    }
}

/// Collapses the first shown node of `node` whose path is `target`; tells
/// whether there was one.
fn collapse_path_recursive(node: &mut FileNode, target: &FsPath) -> (found: bool)
    ensures
        found == visible_has(old(node)@, target@),
        final(node)@ == at_first_hit(old(node)@, target@, collapse_one()),
        !found ==> final(node)@ == old(node)@,
    decreases old(node)@,
{
    proof {
        lemma_visible_has(old(node)@, target@);
    }
    if node.path.same_as(target) {
        node.expanded = false;
        return true;
    }
    if node.expanded {
        let n = node.children.len();
        proof {
            lemma_first_child_hit_bounds(old(node)@.children, target@, 0);
        }
        for i in 0..n
            invariant
                node.children.len() == n,
                old(node).children.len() == n,
                node@ == old(node)@,
                node.expanded,
                node@.path != target@,
                first_child_hit(old(node)@.children, target@, 0) == first_child_hit(
                    old(node)@.children,
                    target@,
                    i as int,
                ),
        {
            proof {
                assert(node@.children[i as int] == node.children@[i as int]@);
                assert(decreases_to!(old(node)@ => old(node)@.children));
                assert(decreases_to!(old(node)@.children => old(node)@.children[i as int]));
            }
            let ghost before = *node;
            let found = collapse_path_recursive(&mut node.children[i], target);
            if found {
                proof {
                    let om = old(node)@;
                    assert(before@.children[i as int] == before.children@[i as int]@);
                    assert(visible_has(om.children[i as int], target@));
                    lemma_visible_has(om, target@);
                    assert(om.expanded);
                    assert(visible_has(om, target@));
                    assert(first_child_hit(om.children, target@, i as int) == i);
                    let want = at_first_hit(om, target@, collapse_one());
                    assert(want.children == om.children.update(
                        i as int,
                        at_first_hit(om.children[i as int], target@, collapse_one()),
                    ));
                    assert forall|j: int| 0 <= j < n implies node@.children[j] == want.children[j] by {
                        assert(node@.children[j] == node.children@[j]@);
                        if j != i {
                            assert(node.children@[j] == before.children@[j]);
                            assert(before@.children[j] == before.children@[j]@);
                        }
                    }
                    assert(node@.children =~= want.children);
                }
                return true;
            }
            proof {
                assert(before@.children[i as int] == before.children@[i as int]@);
                assert forall|j: int| 0 <= j < n implies node@.children[j] == before@.children[j] by {
                    assert(node@.children[j] == node.children@[j]@);
                    assert(before@.children[j] == before.children@[j]@);
                }
                assert(node@.children =~= before@.children);
            }
        }
        proof {
            lemma_first_child_hit_bounds(old(node)@.children, target@, n as int);
        }
    }
    false
}

/// Expanding one node: a collapsed directory without children needs its
/// listing first (`Need`, nothing changed); a failed read leaves it expanded
/// and empty (`Failed`); a listing fills it. Any other collapsed node is
/// simply expanded, and an expanded node is left as it is.
pub open spec fn expand_one(n: NodeModel, ls: Seq<DirListing>, show_hidden: bool) -> (NodeModel, StepModel) {
    if !n.expanded {
        if n.is_dir && n.children.len() == 0 {
            match lookup_listing(ls, n.path) {
                None => (n, StepModel::Need(n.path)),
                Some(None) => (expanded_as(n, true), StepModel::Failed),
                Some(Some(es)) => (with_listing(expanded_as(n, true), es, show_hidden), StepModel::Done),
            }
        } else {
            (expanded_as(n, true), StepModel::Done)
        }
    } else {
        (n, StepModel::Done)
    }
}

/// The node that `expand_one` gives.
pub open spec fn expand_fn(ls: Seq<DirListing>, show_hidden: bool) -> spec_fn(NodeModel) -> NodeModel {
    |n: NodeModel| expand_one(n, ls, show_hidden).0
}

/// Toggling one node: a directory without children that is being expanded
/// needs its listing first (`Need`, nothing changed); a failed read leaves it
/// expanded and empty (`Failed`); a listing fills it. Any other directory
/// flips between expanded and collapsed; a file is left as it is.
pub open spec fn toggle_one(n: NodeModel, ls: Seq<DirListing>, show_hidden: bool) -> (NodeModel, StepModel) {
    if !n.is_dir {
        (n, StepModel::Done)
    } else if !n.expanded && n.children.len() == 0 {
        match lookup_listing(ls, n.path) {
            None => (n, StepModel::Need(n.path)),
            Some(None) => (expanded_as(n, true), StepModel::Failed),
            Some(Some(es)) => (with_listing(expanded_as(n, true), es, show_hidden), StepModel::Done),
        }
    } else {
        (expanded_as(n, !n.expanded), StepModel::Done)
    }
}

/// A step that asks for a listing.
pub open spec fn needs_listing(r: Option<LoadStep>) -> bool {
    r matches Some(st) && st@ is Need
}

/// Fills `node` with the listing of its directory found in `listings`, if
/// there is one: `NeedListing` when none has been read (nothing changed),
/// `Failed` when the read failed (nothing changed), `Done` otherwise.
fn load_from_listings(node: &mut FileNode, listings: &Vec<DirListing>, show_hidden: bool) -> (r: LoadStep)
    requires
        old(node).is_dir,
        lookup_listing(listings@, old(node)@.path) matches Some(Some(es)) ==> load_fits(old(node)@, es, show_hidden),
    ensures
        r@ == (match lookup_listing(listings@, old(node)@.path) {
            None => StepModel::Need(old(node)@.path),
            Some(None) => StepModel::Failed,
            Some(Some(es)) => StepModel::Done,
        }),
        final(node)@ == (match lookup_listing(listings@, old(node)@.path) {
            Some(Some(es)) => with_listing(old(node)@, es, show_hidden),
            _ => old(node)@,
        }),
{
    match find_listing(listings, &node.path) {
        None => LoadStep::NeedListing(node.path.duplicate()),
        Some(i) => match &listings[i].entries {
            None => LoadStep::Failed,
            Some(es) => {
                node.load_children(show_hidden, es);
                LoadStep::Done
            },
        },
    }
}

/// When `n` is a collapsed directory without children, so that expanding
/// or toggling it reads its listing from `ls`, the children that listing
/// gives have depths that fit in a `usize`.
pub open spec fn loads_fit(n: NodeModel, ls: Seq<DirListing>, show_hidden: bool) -> bool {
    (n.is_dir && !n.expanded && n.children.len() == 0) ==> (lookup_listing(ls, n.path) matches Some(Some(es))
        ==> load_fits(n, es, show_hidden))
}

/// `loads_fit` holds of the first shown node of `m` whose path is `t`, if
/// there is one.
pub open spec fn hit_loads_fit(m: NodeModel, t: Seq<Seq<u8>>, ls: Seq<DirListing>, show_hidden: bool) -> bool {
    visible_has(m, t) ==> loads_fit(first_visible(m, t), ls, show_hidden)
}

proof fn lemma_hit_loads_fit_child(m: NodeModel, t: Seq<Seq<u8>>, i: int, ls: Seq<DirListing>, show_hidden: bool)
    requires
        hit_loads_fit(m, t, ls, show_hidden),
        m.path != t,
        m.expanded,
        0 <= i < m.children.len(),
        first_child_hit(m.children, t, 0) == first_child_hit(m.children, t, i),
    ensures
        hit_loads_fit(m.children[i], t, ls, show_hidden),
{
    if visible_has(m.children[i], t) {
        lemma_visible_has(m, t);
        assert(first_child_hit(m.children, t, i) == i);
        assert(first_visible(m, t) == first_visible(m.children[i], t));
    }
}

/// A tree whose every depth is at most the number of components of its
/// path (as every tree this library builds) meets `hit_loads_fit` for
/// every path.
pub proof fn lemma_fit_gives_hit_loads_fit(m: NodeModel, t: Seq<Seq<u8>>, ls: Seq<DirListing>, show_hidden: bool)
    requires
        depths_fit(m),
    ensures
        hit_loads_fit(m, t, ls, show_hidden),
{
    lemma_fit_first_visible(m, t);
}

/// Expands the first shown node of `node` whose path is `target`, as
/// `expand_one` says; gives `None` when there is no such node.
fn expand_path_recursive(
    node: &mut FileNode,
    target: &FsPath,
    listings: &Vec<DirListing>,
    show_hidden: bool,
) -> (r: Option<LoadStep>)
    requires
        hit_loads_fit(old(node)@, target@, listings@, show_hidden),
    ensures
        r is Some <==> visible_has(old(node)@, target@),
        r matches Some(st) ==> st@ == expand_one(first_visible(old(node)@, target@), listings@, show_hidden).1,
        (r is None || needs_listing(r)) ==> final(node)@ == old(node)@,
        !needs_listing(r) ==> final(node)@ == at_first_hit(
            old(node)@,
            target@,
            expand_fn(listings@, show_hidden),
        ),
    decreases old(node)@,
{
    proof {
        lemma_visible_has(old(node)@, target@);
    }
    if node.path.same_as(target) {
        if !node.expanded {
            if node.is_dir && node.children.len() == 0 {
                node.expanded = true;
                let st = load_from_listings(node, listings, show_hidden);
                if let LoadStep::NeedListing(_) = st {
                    node.expanded = false;
                    proof {
                        assert(node@.children =~= old(node)@.children);
                    }
                }
                proof {
                    assert(expanded_as(old(node)@, true).path == old(node)@.path);
                }
                return Some(st);
            } else {
                node.expanded = true;
                proof {
                    assert(node@.children =~= old(node)@.children);
                }
            }
        }
        return Some(LoadStep::Done);
    }
    if node.expanded {
        let n = node.children.len();
        proof {
            lemma_first_child_hit_bounds(old(node)@.children, target@, 0);
        }
        for i in 0..n
            invariant
                node.children.len() == n,
                old(node).children.len() == n,
                node@ == old(node)@,
                node.expanded,
                node@.path != target@,
                hit_loads_fit(old(node)@, target@, listings@, show_hidden),
                first_child_hit(old(node)@.children, target@, 0) == first_child_hit(
                    old(node)@.children,
                    target@,
                    i as int,
                ),
        {
            proof {
                assert(node@.children[i as int] == node.children@[i as int]@);
                assert(decreases_to!(old(node)@ => old(node)@.children));
                assert(decreases_to!(old(node)@.children => old(node)@.children[i as int]));
                lemma_hit_loads_fit_child(old(node)@, target@, i as int, listings@, show_hidden);
            }
            let ghost before = *node;
            let r = expand_path_recursive(&mut node.children[i], target, listings, show_hidden);
            if r.is_some() {
                proof {
                    let om = old(node)@;
                    assert(before@.children[i as int] == before.children@[i as int]@);
                    assert(visible_has(om.children[i as int], target@));
                    lemma_visible_has(om, target@);
                    assert(om.expanded);
                    assert(visible_has(om, target@));
                    assert(first_child_hit(om.children, target@, i as int) == i);
                    assert(first_visible(om, target@) == first_visible(om.children[i as int], target@));
                    let want = at_first_hit(om, target@, expand_fn(listings@, show_hidden));
                    assert(want.children == om.children.update(
                        i as int,
                        at_first_hit(om.children[i as int], target@, expand_fn(listings@, show_hidden)),
                    ));
                    assert forall|j: int| 0 <= j < n implies node@.children[j] == (if needs_listing(r) {
                        om.children[j]
                    } else {
                        want.children[j]
                    }) by {
                        assert(node@.children[j] == node.children@[j]@);
                        if j != i {
                            assert(node.children@[j] == before.children@[j]);
                            assert(before@.children[j] == before.children@[j]@);
                        }
                    }
                    if needs_listing(r) {
                        assert(node@.children =~= om.children);
                    } else {
                        assert(node@.children =~= want.children);
                    }
                }
                return r;
            }
            proof {
                assert(before@.children[i as int] == before.children@[i as int]@);
                assert forall|j: int| 0 <= j < n implies node@.children[j] == before@.children[j] by {
                    assert(node@.children[j] == node.children@[j]@);
                    assert(before@.children[j] == before.children@[j]@);
                }
                assert(node@.children =~= before@.children);
            }
        }
        proof {
            lemma_first_child_hit_bounds(old(node)@.children, target@, n as int);
        }
    }
    proof {
        lemma_no_hit_unchanged(old(node)@, target@, expand_fn(listings@, show_hidden));
    }
    None
}

/// Toggling the node at `t` in a tree with root `root`: the first shown node
/// with path `t` is toggled on a copy of the tree, and the result is kept
/// only when that node is the root itself. Gives the new root and the step.
pub open spec fn tree_toggle(root: NodeModel, t: Seq<Seq<u8>>, ls: Seq<DirListing>, show_hidden: bool) -> (NodeModel, StepModel) {
    if visible_has(root, t) {
        let (h, st) = toggle_one(first_visible(root, t), ls, show_hidden);
        if st is Done && root.path == t {
            (h, st)
        } else {
            (root, st)
        }
    } else {
        (root, StepModel::Done)
    }
}

/// The outcome of expanding the node at `t` in a tree with root `root`: the
/// new root and the step.
pub open spec fn tree_expand(root: NodeModel, t: Seq<Seq<u8>>, ls: Seq<DirListing>, show_hidden: bool) -> (NodeModel, StepModel) {
    if visible_has(root, t) {
        let st = expand_one(first_visible(root, t), ls, show_hidden).1;
        if st is Need {
            (root, st)
        } else {
            (at_first_hit(root, t, expand_fn(ls, show_hidden)), st)
        }
    } else {
        (root, StepModel::Done)
    }
}

/// Directory listings that give the same outcome as `ls` for every path a
/// step at node `m` may look up: either they are `ls` itself, or `m` has no
/// children yet and they agree with `ls` on every path that starts with
/// `m`'s path.
pub open spec fn listings_agree(ls: Seq<DirListing>, g: Seq<DirListing>, m: NodeModel) -> bool {
    g == ls || (m.children.len() == 0 && forall|q: Seq<Seq<u8>>|
        path_starts_with(q, m.path) ==> #[trigger] lookup_listing(ls, q) == lookup_listing(g, q))
}

/// Expanding every directory of `m`, loading each directory that has no
/// children from `ls` and going on into the new children, in the order the
/// nodes are shown, and stopping at the first directory whose listing has
/// not been read (`Need`) or could not be read (`Failed`). The new
/// children of a directory are expanded with its own listing set aside:
/// their paths are longer, so they never use it.
pub open spec fn expand_all_spec(m: NodeModel, ls: Seq<DirListing>, show_hidden: bool) -> (NodeModel, StepModel)
    decreases ls.len(), m, 0int,
{
    if !m.is_dir {
        (m, StepModel::Done)
    } else {
        let m1 = expanded_as(m, true);
        if m.children.len() == 0 {
            match lookup_listing(ls, m.path) {
                None => (m1, StepModel::Need(m.path)),
                Some(None) => (m1, StepModel::Failed),
                Some(Some(es)) => {
                    proof {
                        lemma_listing_index_bounds(ls, m.path, 0);
                    }
                    let m2 = with_listing(m1, es, show_hidden);
                    let (cs, st) = expand_all_from(m2.children, 0, set_aside(ls, m.path), show_hidden);
                    (with_children(m2, cs), st)
                },
            }
        } else {
            let (cs, st) = expand_all_from(m.children, 0, ls, show_hidden);
            (with_children(m1, cs), st)
        }
    }
}

/// `expand_all_spec` applied to the members of `s` from position `i` on, in
/// order, stopping after the first that does not end in `Done`.
pub open spec fn expand_all_from(s: Seq<NodeModel>, i: int, ls: Seq<DirListing>, show_hidden: bool) -> (Seq<NodeModel>, StepModel)
    decreases ls.len(), s, s.len() - i,
{
    if i < 0 || i >= s.len() {
        (s, StepModel::Done)
    } else {
        let (c, st) = expand_all_spec(s[i], ls, show_hidden);
        if st is Done {
            let (rest, st2) = expand_all_from(s, i + 1, ls, show_hidden);
            (rest.update(i, c), st2)
        } else {
            (s.update(i, c), st)
        }
    }
}

proof fn lemma_expand_all_from_len(s: Seq<NodeModel>, i: int, ls: Seq<DirListing>, show_hidden: bool)
    ensures
        expand_all_from(s, i, ls, show_hidden).0.len() == s.len(),
    decreases s.len() - i,
{
    if 0 <= i < s.len() {
        lemma_expand_all_from_len(s, i + 1, ls, show_hidden);
    }
}

proof fn lemma_expand_all_from_update(
    s: Seq<NodeModel>,
    i: int,
    k: int,
    x: NodeModel,
    ls: Seq<DirListing>,
    show_hidden: bool,
)
    requires
        0 <= k < i,
        k < s.len(),
    ensures
        expand_all_from(s.update(k, x), i, ls, show_hidden) == (
            expand_all_from(s, i, ls, show_hidden).0.update(k, x),
            expand_all_from(s, i, ls, show_hidden).1,
        ),
    decreases s.len() - i,
{
    let s2 = s.update(k, x);
    if i < s.len() {
        assert(s2[i] == s[i]);
        lemma_expand_all_from_update(s, i + 1, k, x, ls, show_hidden);
        let (c, st) = expand_all_spec(s[i], ls, show_hidden);
        if st is Done {
            let r = expand_all_from(s, i + 1, ls, show_hidden).0;
            lemma_expand_all_from_len(s, i + 1, ls, show_hidden);
            assert(r.update(k, x).update(i, c) =~= r.update(i, c).update(k, x));
        } else {
            assert(s2.update(i, c) =~= s.update(i, c).update(k, x));
        }
    }
}

proof fn lemma_starts_with_child(q: Seq<Seq<u8>>, p: Seq<Seq<u8>>, x: Seq<u8>)
    requires
        path_starts_with(q, p.push(x)),
    ensures
        path_starts_with(q, p),
        q != p,
{
    assert(q.subrange(0, p.len() as int) =~= p.push(x).subrange(0, p.len() as int));
    assert(p.push(x).subrange(0, p.len() as int) =~= p);
}

/// Loading a listing into a node whose depth fits its path keeps every
/// depth within its path.
proof fn lemma_fit_with_listing(m: NodeModel, es: Seq<DirEntryInfo>, show_hidden: bool)
    requires
        depths_fit(m),
    ensures
        depths_fit(with_listing(m, es, show_hidden)),
{
    let w = with_listing(m, es, show_hidden);
    if m.is_dir {
        assert forall|i: int| 0 <= i < w.children.len() implies depths_fit(#[trigger] w.children[i]) by {
            let c = w.children[i];
            assert(c.children.len() == 0);
            assert(c.path.len() == m.path.len() + 1);
        }
    }
}

/// Every directory that expanding everything in `m` loads (see
/// `expand_all_spec`) gets children whose depths fit in a `usize`.
pub open spec fn expand_all_fits(m: NodeModel, ls: Seq<DirListing>, show_hidden: bool) -> bool
    decreases ls.len(), m, 0int,
{
    if !m.is_dir {
        true
    } else if m.children.len() == 0 {
        match lookup_listing(ls, m.path) {
            Some(Some(es)) => {
                proof {
                    lemma_listing_index_bounds(ls, m.path, 0);
                }
                let m2 = with_listing(expanded_as(m, true), es, show_hidden);
                load_fits(m, es, show_hidden) && expand_all_fits_from(m2.children, 0, set_aside(ls, m.path), show_hidden)
            },
            _ => true,
        }
    } else {
        expand_all_fits_from(m.children, 0, ls, show_hidden)
    }
}

/// `expand_all_fits` of the members of `s` from position `i` on that
/// expanding everything reaches (see `expand_all_from`).
pub open spec fn expand_all_fits_from(s: Seq<NodeModel>, i: int, ls: Seq<DirListing>, show_hidden: bool) -> bool
    decreases ls.len(), s, s.len() - i,
{
    if i < 0 || i >= s.len() {
        true
    } else {
        expand_all_fits(s[i], ls, show_hidden) && (expand_all_spec(s[i], ls, show_hidden).1 is Done
            ==> expand_all_fits_from(s, i + 1, ls, show_hidden))
    }
}

proof fn lemma_fits_from_update(s: Seq<NodeModel>, i: int, k: int, x: NodeModel, ls: Seq<DirListing>, show_hidden: bool)
    requires
        0 <= k < i,
        k < s.len(),
    ensures
        expand_all_fits_from(s.update(k, x), i, ls, show_hidden) == expand_all_fits_from(s, i, ls, show_hidden),
    decreases s.len() - i,
{
    if i < s.len() {
        assert(s.update(k, x)[i] == s[i]);
        lemma_fits_from_update(s, i + 1, k, x, ls, show_hidden);
    }
}

/// A tree whose every depth is at most the number of components of its
/// path (as every tree this library builds) meets `expand_all_fits`: each
/// child made has a path one component longer than its parent's.
pub proof fn lemma_fit_gives_expand_all_fits(m: NodeModel, ls: Seq<DirListing>, show_hidden: bool)
    requires
        depths_fit(m),
    ensures
        expand_all_fits(m, ls, show_hidden),
    decreases ls.len(), m, 0int,
{
    if m.is_dir {
        if m.children.len() == 0 {
            match lookup_listing(ls, m.path) {
                Some(Some(es)) => {
                    lemma_listing_index_bounds(ls, m.path, 0);
                    let m2 = with_listing(expanded_as(m, true), es, show_hidden);
                    lemma_fit_with_listing(expanded_as(m, true), es, show_hidden);
                    lemma_fit_gives_fits_from(m2.children, 0, set_aside(ls, m.path), show_hidden);
                },
                _ => {},
            }
        } else {
            lemma_fit_gives_fits_from(m.children, 0, ls, show_hidden);
        }
    }
}

proof fn lemma_fit_gives_fits_from(s: Seq<NodeModel>, i: int, ls: Seq<DirListing>, show_hidden: bool)
    requires
        forall|j: int| 0 <= j < s.len() ==> depths_fit(#[trigger] s[j]),
    ensures
        expand_all_fits_from(s, i, ls, show_hidden),
    decreases ls.len(), s, s.len() - i,
{
    if 0 <= i < s.len() {
        lemma_fit_gives_expand_all_fits(s[i], ls, show_hidden);
        lemma_fit_gives_fits_from(s, i + 1, ls, show_hidden);
    }
}

/// Expands every directory of `node` (see `expand_all_spec`, with the
/// listings `g` that agree with `listings` where it matters).
fn expand_all_recursive(
    node: &mut FileNode,
    listings: &Vec<DirListing>,
    show_hidden: bool,
    Ghost(g): Ghost<Seq<DirListing>>,
) -> (r: LoadStep)
    requires
        expand_all_fits(old(node)@, g, show_hidden),
        listings_agree(listings@, g, old(node)@),
    ensures
        (final(node)@, r@) == expand_all_spec(old(node)@, g, show_hidden),
        depths_fit(old(node)@) ==> depths_fit(final(node)@),
    decreases g.len(), old(node)@,
{
    if !node.is_dir {
        return LoadStep::Done;
    }
    let ghost fit = depths_fit(old(node)@);
    let had_children = node.children.len() > 0;
    node.expanded = true;
    proof {
        assert(node@.children =~= old(node)@.children);
    }
    let ghost mut g2 = g;
    if !had_children {
        let ghost pre = node@;
        assert(lookup_listing(listings@, pre.path) == lookup_listing(g, pre.path)) by {
            assert(pre.path.subrange(0, pre.path.len() as int) =~= pre.path);
        }
        assert(lookup_listing(listings@, pre.path) matches Some(Some(es)) ==> load_fits(pre, es, show_hidden));
        let st = load_from_listings(node, listings, show_hidden);
        match st {
            LoadStep::Done => {},
            _ => {
                return st;
            },
        }
        proof {
            let es = lookup_listing(g, pre.path)->0->0;
            g2 = set_aside(g, pre.path);
            lemma_listing_index_bounds(g, pre.path, 0);
            assert(g2.len() < g.len());
            if fit {
                lemma_fit_with_listing(pre, es, show_hidden);
            }
            let kids = node@.children;
            assert forall|j: int| 0 <= j < kids.len() implies listings_agree(listings@, g2, #[trigger] kids[j]) by {
                let c = kids[j];
                assert(c.children.len() == 0);
                assert forall|q: Seq<Seq<u8>>| path_starts_with(q, c.path) implies #[trigger] lookup_listing(
                    listings@,
                    q,
                ) == lookup_listing(g2, q) by {
                    let nm = sorted_listing(es, show_hidden)[j].name_bytes@;
                    assert(c.path == pre.path.push(nm));
                    lemma_starts_with_child(q, pre.path, nm);
                    lemma_set_aside_keeps_others(g, pre.path, q);
                }
            }
        }
    } else {
        proof {
            assert(g == listings@);
            assert(node@.children == old(node)@.children);
            assert(decreases_to!(old(node)@ => old(node)@.children));
        }
    }
    let ghost base = node@;
    let n = node.children.len();
    proof {
        assert(expand_all_spec(old(node)@, g, show_hidden) == (
            with_children(base, expand_all_from(base.children, 0, g2, show_hidden).0),
            expand_all_from(base.children, 0, g2, show_hidden).1,
        ));
    }
    for i in 0..n
        invariant
            n == node.children.len(),
            n == base.children.len(),
            node@ == with_children(base, node@.children),
            expand_all_from(base.children, 0, g2, show_hidden) == expand_all_from(
                node@.children,
                i as int,
                g2,
                show_hidden,
            ),
            forall|j: int| i <= j < n ==> node@.children[j] == base.children[j],
            fit ==> forall|j: int| 0 <= j < n ==> depths_fit(#[trigger] node@.children[j]),
            fit ==> node@.depth <= node@.path.len(),
            fit == depths_fit(old(node)@),
            expand_all_fits_from(node@.children, i as int, g2, show_hidden),
            forall|j: int| 0 <= j < n ==> listings_agree(listings@, g2, #[trigger] base.children[j]),
            expand_all_spec(old(node)@, g, show_hidden) == (
                with_children(base, expand_all_from(base.children, 0, g2, show_hidden).0),
                expand_all_from(base.children, 0, g2, show_hidden).1,
            ),
            g2.len() < g.len() || (g2 == g && decreases_to!(old(node)@ => base.children)),
    {
        let ghost cur = node@.children;
        proof {
            assert(node@.children[i as int] == node.children@[i as int]@);
            if g2 == g {
                assert(decreases_to!(base.children => base.children[i as int]));
            }
        }
        let ghost before = *node;
        proof {
            assert(listings_agree(listings@, g2, base.children[i as int]));
            if fit {
                assert(depths_fit(node@.children[i as int]));
            }
        }
        let st = expand_all_recursive(&mut node.children[i], listings, show_hidden, Ghost(g2));
        proof {
            let c = expand_all_spec(cur[i as int], g2, show_hidden).0;
            assert forall|j: int| 0 <= j < n implies node@.children[j] == cur.update(i as int, c)[j] by {
                assert(node@.children[j] == node.children@[j]@);
                assert(before@.children[j] == before.children@[j]@);
                if j != i {
                    assert(node.children@[j] == before.children@[j]);
                }
            }
            assert(node@.children =~= cur.update(i as int, c));
            assert(node@ =~= with_children(base, node@.children));
        }
        proof {
            let (c, stm) = expand_all_spec(cur[i as int], g2, show_hidden);
            assert(stm == st@);
            if stm is Done {
                lemma_expand_all_from_update(cur, i + 1, i as int, c, g2, show_hidden);
            } else {
                assert(expand_all_from(cur, i as int, g2, show_hidden) == (cur.update(i as int, c), stm));
                assert(expand_all_spec(old(node)@, g, show_hidden) == (with_children(base, cur.update(i as int, c)), stm));
                assert(node@ == with_children(base, cur.update(i as int, c)));
            }
            if fit {
                assert forall|j: int| 0 <= j < n implies depths_fit(#[trigger] node@.children[j]) by {
                    if j != i {
                        assert(node@.children[j] == cur[j]);
                    }
                }
                assert(depths_fit(node@));
            }
            if stm is Done {
                lemma_fits_from_update(cur, i + 1, i as int, c, g2, show_hidden);
            }
        }
        match st {
            LoadStep::Done => {},
            _ => {
                return st;
            },
        }
    }
    proof {
        if fit {
            assert(depths_fit(node@));
        }
    }
    LoadStep::Done
}

/// Restoring the expanded state of the directory at `t` in `m`: every
/// directory on the way down to `t` (a directory whose path `t` starts with)
/// that is collapsed is expanded, and loaded from `ls` when it has no
/// children; the directory at `t` itself is expanded and loaded from `ls`
/// when it has no children. A failed read leaves a directory empty. Stops
/// with the path whose listing has not been read yet, if there is one. The
/// new children of a directory are visited with its own listing set aside:
/// their paths are longer, so they never use it.
pub open spec fn restore_spec(m: NodeModel, t: Seq<Seq<u8>>, ls: Seq<DirListing>, show_hidden: bool) -> (NodeModel, Option<Seq<Seq<u8>>>)
    decreases ls.len(), m, 0int,
{
    if !m.is_dir {
        (m, None)
    } else if m.path == t {
        let m1 = expanded_as(m, true);
        if m.children.len() == 0 {
            match lookup_listing(ls, m.path) {
                None => (m1, Some(m.path)),
                Some(None) => (m1, None),
                Some(Some(es)) => (with_listing(m1, es, show_hidden), None),
            }
        } else {
            (m1, None)
        }
    } else if path_starts_with(t, m.path) {
        if !m.expanded && m.children.len() == 0 {
            let m1 = expanded_as(m, true);
            match lookup_listing(ls, m.path) {
                None => (m1, Some(m.path)),
                Some(None) => (m1, None),
                Some(Some(es)) => {
                    proof {
                        lemma_listing_index_bounds(ls, m.path, 0);
                    }
                    let m2 = with_listing(m1, es, show_hidden);
                    let (cs, need) = restore_from(m2.children, 0, t, set_aside(ls, m.path), show_hidden);
                    (with_children(m2, cs), need)
                },
            }
        } else {
            let (cs, need) = restore_from(m.children, 0, t, ls, show_hidden);
            (with_children(expanded_as(m, true), cs), need)
        }
    } else {
        (m, None)
    }
}

/// `restore_spec` applied to the members of `s` from position `i` on, in
/// order, stopping after the first that needs a listing.
pub open spec fn restore_from(s: Seq<NodeModel>, i: int, t: Seq<Seq<u8>>, ls: Seq<DirListing>, show_hidden: bool) -> (Seq<NodeModel>, Option<Seq<Seq<u8>>>)
    decreases ls.len(), s, s.len() - i,
{
    if i < 0 || i >= s.len() {
        (s, None)
    } else {
        let (c, need) = restore_spec(s[i], t, ls, show_hidden);
        if need is None {
            let (rest, need2) = restore_from(s, i + 1, t, ls, show_hidden);
            (rest.update(i, c), need2)
        } else {
            (s.update(i, c), need)
        }
    }
}

proof fn lemma_restore_from_len(s: Seq<NodeModel>, i: int, t: Seq<Seq<u8>>, ls: Seq<DirListing>, show_hidden: bool)
    ensures
        restore_from(s, i, t, ls, show_hidden).0.len() == s.len(),
    decreases s.len() - i,
{
    if 0 <= i < s.len() {
        lemma_restore_from_len(s, i + 1, t, ls, show_hidden);
    }
}

proof fn lemma_restore_from_update(
    s: Seq<NodeModel>,
    i: int,
    k: int,
    x: NodeModel,
    t: Seq<Seq<u8>>,
    ls: Seq<DirListing>,
    show_hidden: bool,
)
    requires
        0 <= k < i,
        k < s.len(),
    ensures
        restore_from(s.update(k, x), i, t, ls, show_hidden) == (
            restore_from(s, i, t, ls, show_hidden).0.update(k, x),
            restore_from(s, i, t, ls, show_hidden).1,
        ),
    decreases s.len() - i,
{
    let s2 = s.update(k, x);
    if i < s.len() {
        assert(s2[i] == s[i]);
        lemma_restore_from_update(s, i + 1, k, x, t, ls, show_hidden);
        let (c, need) = restore_spec(s[i], t, ls, show_hidden);
        if need is None {
            let r = restore_from(s, i + 1, t, ls, show_hidden).0;
            lemma_restore_from_len(s, i + 1, t, ls, show_hidden);
            assert(r.update(k, x).update(i, c) =~= r.update(i, c).update(k, x));
        } else {
            assert(s2.update(i, c) =~= s.update(i, c).update(k, x));
        }
    }
}

/// Restores the expanded state of the directory at `target_path` in `node`
/// (see `restore_spec`, with the listings `g` that agree with `listings`
/// where it matters); gives the path whose listing is needed, if any.
fn restore_expanded_recursive(
    node: &mut FileNode,
    target_path: &FsPath,
    show_hidden: bool,
    listings: &Vec<DirListing>,
    Ghost(g): Ghost<Seq<DirListing>>,
) -> (r: Option<FsPath>)
    requires
        depths_fit(old(node)@),
        listings_agree(listings@, g, old(node)@),
    ensures
        final(node)@ == restore_spec(old(node)@, target_path@, g, show_hidden).0,
        match r {
            Some(p) => restore_spec(old(node)@, target_path@, g, show_hidden).1 == Some(p@),
            None => restore_spec(old(node)@, target_path@, g, show_hidden).1 is None,
        },
        depths_fit(final(node)@),
    decreases g.len(), old(node)@,
{
    if !node.is_dir {
        return None;
    }
    let ghost pre = node@;
    assert(lookup_listing(listings@, pre.path) == lookup_listing(g, pre.path)) by {
        assert(pre.path.subrange(0, pre.path.len() as int) =~= pre.path);
    }
    if node.path.same_as(target_path) {
        node.expanded = true;
        proof {
            assert(node@.children =~= old(node)@.children);
        }
        if node.children.len() == 0 {
            let ghost mid = node@;
            let st = load_from_listings(node, listings, show_hidden);
            proof {
                if st@ is Done {
                    lemma_fit_with_listing(mid, lookup_listing(g, pre.path)->0->0, show_hidden);
                }
            }
            match st {
                LoadStep::NeedListing(p) => {
                    return Some(p);
                },
                _ => {
                    return None;
                },
            }
        }
        return None;
    }
    if !target_path.starts_with(&node.path) {
        return None;
    }
    let had_children = node.children.len() > 0;
    let was_expanded = node.expanded;
    node.expanded = true;
    proof {
        assert(node@.children =~= old(node)@.children);
    }
    let ghost mut g2 = g;
    if !was_expanded && !had_children {
        let ghost mid = node@;
        let st = load_from_listings(node, listings, show_hidden);
        match st {
            LoadStep::NeedListing(p) => {
                return Some(p);
            },
            LoadStep::Failed => {
                return None;
            },
            LoadStep::Done => {},
        }
        proof {
            let es = lookup_listing(g, pre.path)->0->0;
            g2 = set_aside(g, pre.path);
            lemma_listing_index_bounds(g, pre.path, 0);
            assert(g2.len() < g.len());
            lemma_fit_with_listing(mid, es, show_hidden);
            let kids = node@.children;
            assert forall|j: int| 0 <= j < kids.len() implies listings_agree(listings@, g2, #[trigger] kids[j]) by {
                let c = kids[j];
                assert(c.children.len() == 0);
                assert forall|q: Seq<Seq<u8>>| path_starts_with(q, c.path) implies #[trigger] lookup_listing(
                    listings@,
                    q,
                ) == lookup_listing(g2, q) by {
                    let nm = sorted_listing(es, show_hidden)[j].name_bytes@;
                    assert(c.path == pre.path.push(nm));
                    lemma_starts_with_child(q, pre.path, nm);
                    lemma_set_aside_keeps_others(g, pre.path, q);
                }
            }
        }
    } else {
        proof {
            if had_children {
                assert(g == listings@);
            } else {
                assert(old(node)@.children.len() == 0);
            }
            assert(node@.children == old(node)@.children);
            assert(decreases_to!(old(node)@ => old(node)@.children));
        }
    }
    let ghost base = node@;
    let n = node.children.len();
    proof {
        if !(!was_expanded && !had_children) && !had_children {
            assert(n == 0);
        }
        assert(restore_spec(old(node)@, target_path@, g, show_hidden) == (
            with_children(base, restore_from(base.children, 0, target_path@, g2, show_hidden).0),
            restore_from(base.children, 0, target_path@, g2, show_hidden).1,
        ));
    }
    for i in 0..n
        invariant
            n == node.children.len(),
            n == base.children.len(),
            node@ == with_children(base, node@.children),
            restore_from(base.children, 0, target_path@, g2, show_hidden) == restore_from(
                node@.children,
                i as int,
                target_path@,
                g2,
                show_hidden,
            ),
            forall|j: int| i <= j < n ==> node@.children[j] == base.children[j],
            forall|j: int| 0 <= j < n ==> depths_fit(#[trigger] node@.children[j]),
            node@.depth <= node@.path.len(),
            forall|j: int| 0 <= j < n ==> listings_agree(listings@, g2, #[trigger] base.children[j]),
            g2.len() < g.len() || (g2 == g && decreases_to!(old(node)@ => base.children)),
            restore_spec(old(node)@, target_path@, g, show_hidden) == (
                with_children(base, restore_from(base.children, 0, target_path@, g2, show_hidden).0),
                restore_from(base.children, 0, target_path@, g2, show_hidden).1,
            ),
    {
        let ghost cur = node@.children;
        proof {
            assert(node@.children[i as int] == node.children@[i as int]@);
            if g2 == g {
                assert(decreases_to!(base.children => base.children[i as int]));
            }
        }
        let ghost before = *node;
        proof {
            assert(listings_agree(listings@, g2, base.children[i as int]));
            assert(depths_fit(node@.children[i as int]));
        }
        let need = restore_expanded_recursive(&mut node.children[i], target_path, show_hidden, listings, Ghost(g2));
        proof {
            let (c, nm) = restore_spec(cur[i as int], target_path@, g2, show_hidden);
            assert forall|j: int| 0 <= j < n implies node@.children[j] == cur.update(i as int, c)[j] by {
                assert(node@.children[j] == node.children@[j]@);
                assert(before@.children[j] == before.children@[j]@);
                if j != i {
                    assert(node.children@[j] == before.children@[j]);
                }
            }
            assert(node@.children =~= cur.update(i as int, c));
            assert(node@ =~= with_children(base, node@.children));
            if nm is None {
                lemma_restore_from_update(cur, i + 1, i as int, c, target_path@, g2, show_hidden);
            } else {
                assert(restore_from(cur, i as int, target_path@, g2, show_hidden) == (cur.update(i as int, c), nm));
            }
            assert forall|j: int| 0 <= j < n implies depths_fit(#[trigger] node@.children[j]) by {
                if j != i {
                    assert(node@.children[j] == cur[j]);
                }
            }
            assert(depths_fit(node@));
        }
        if need.is_some() {
            return need;
        }
    }
    proof {
        assert(depths_fit(node@));
    }
    None
}

/// The paths of the expanded directories of `m`, in the order they are
/// shown; the children of a collapsed node or of a file are not visited.
pub open spec fn collect_expanded(m: NodeModel) -> Seq<Seq<Seq<u8>>>
    decreases m,
{
    if m.is_dir && m.expanded {
        seq![m.path] + collect_seq(m.children)
    } else {
        seq![]
    }
}

/// `collect_expanded` of each member of `s` in turn.
pub open spec fn collect_seq(s: Seq<NodeModel>) -> Seq<Seq<Seq<u8>>>
    decreases s,
{
    if s.len() == 0 {
        seq![]
    } else {
        collect_seq(s.drop_last()) + collect_expanded(s.last())
    }
}

/// The paths held by a sequence of paths.
pub open spec fn path_views(v: Seq<FsPath>) -> Seq<Seq<Seq<u8>>> {
    v.map_values(|p: FsPath| p@)
}

/// Appends the paths of the expanded directories of `node` to `paths`.
fn collect_expanded_recursive(node: &FileNode, paths: &mut Vec<FsPath>)
    ensures
        path_views(final(paths)@) == path_views(old(paths)@) + collect_expanded(node@),
    decreases node,
{
    if node.is_dir && node.expanded {
        paths.push(node.path.duplicate());
        proof {
            assert(path_views(paths@) =~= path_views(old(paths)@) + seq![node@.path]);
        }
        let n = node.children.len();
        for i in 0..n
            invariant
                n == node.children.len(),
                node.is_dir && node.expanded,
                path_views(paths@) == path_views(old(paths)@) + seq![node@.path] + collect_seq(
                    node@.children.subrange(0, i as int),
                ),
        {
            proof {
                assert(decreases_to!(node => node.children));
                assert(decreases_to!(node.children => node.children@));
                assert(decreases_to!(node.children@ => node.children@[i as int]));
            }
            collect_expanded_recursive(&node.children[i], paths);
            proof {
                let s = node@.children.subrange(0, i + 1);
                assert(s.drop_last() =~= node@.children.subrange(0, i as int));
                assert(s.last() == node.children@[i as int]@);
                assert(path_views(paths@) =~= path_views(old(paths)@) + seq![node@.path] + collect_seq(s));
            }
        }
        proof {
            assert(node@.children.subrange(0, n as int) =~= node@.children);
        }
    } else {
        proof {
            assert(path_views(paths@) =~= path_views(old(paths)@) + collect_expanded(node@));
        }
    }
}

/// Restores in turn the expanded state of each path of `paths` from
/// position `k` on, stopping at the first that needs a listing.
pub open spec fn restore_all(m: NodeModel, paths: Seq<Seq<Seq<u8>>>, k: int, ls: Seq<DirListing>, show_hidden: bool) -> (NodeModel, Option<Seq<Seq<u8>>>)
    decreases paths.len() - k,
{
    if k < 0 || k >= paths.len() {
        (m, None)
    } else {
        let (m2, need) = restore_spec(m, paths[k], ls, show_hidden);
        if need is None {
            restore_all(m2, paths, k + 1, ls, show_hidden)
        } else {
            (m2, need)
        }
    }
}

/// Rebuilding a tree with root `old_root` from the listings `ls`: a new
/// expanded root for the same path and under the same name, loaded from its listing when it is a
/// directory (`root_is_dir`), and the expanded state of every directory that
/// was expanded before restored. Gives the new root and the step; when a
/// listing is still needed the root is the old one.
pub open spec fn refresh_spec(old_root: NodeModel, root_is_dir: bool, ls: Seq<DirListing>, show_hidden: bool) -> (NodeModel, StepModel) {
    let paths = collect_expanded(old_root);
    let r0 = expanded_as(named(fresh_node(old_root.path, root_is_dir, 0), old_root.name), true);
    let loaded = if root_is_dir {
        match lookup_listing(ls, old_root.path) {
            None => None,
            Some(None) => Some(None),
            Some(Some(es)) => Some(Some(with_listing(r0, es, show_hidden))),
        }
    } else {
        Some(Some(r0))
    };
    match loaded {
        None => (old_root, StepModel::Need(old_root.path)),
        Some(None) => (r0, StepModel::Failed),
        Some(Some(r1)) => {
            let (r2, need) = restore_all(r1, paths, 0, ls, show_hidden);
            match need {
                None => (r2, StepModel::Done),
                Some(q) => (old_root, StepModel::Need(q)),
            }
        },
    }
}

/// A change to a node that keeps every depth within its path.
pub open spec fn keeps_fit(f: spec_fn(NodeModel) -> NodeModel) -> bool {
    forall|x: NodeModel| depths_fit(x) ==> depths_fit(#[trigger] f(x))
}

proof fn lemma_fit_at_first_hit(m: NodeModel, t: Seq<Seq<u8>>, f: spec_fn(NodeModel) -> NodeModel)
    requires
        depths_fit(m),
        keeps_fit(f),
    ensures
        depths_fit(at_first_hit(m, t, f)),
    decreases m,
{
    if m.path == t {
        assert(depths_fit(f(m)));
    } else if m.expanded {
        let j = first_child_hit(m.children, t, 0);
        if 0 <= j < m.children.len() {
            lemma_fit_at_first_hit(m.children[j], t, f);
            let r = at_first_hit(m, t, f);
            assert forall|i: int| 0 <= i < r.children.len() implies depths_fit(#[trigger] r.children[i]) by {
                if i != j {
                    assert(r.children[i] == m.children[i]);
                }
            }
        }
    }
}

proof fn lemma_fit_expanded_as(m: NodeModel, b: bool)
    requires
        depths_fit(m),
    ensures
        depths_fit(expanded_as(m, b)),
{
    let r = expanded_as(m, b);
    assert forall|i: int| 0 <= i < r.children.len() implies depths_fit(#[trigger] r.children[i]) by {
        assert(r.children[i] == m.children[i]);
    }
}

proof fn lemma_fit_one_step(ls: Seq<DirListing>, show_hidden: bool)
    ensures
        keeps_fit(expand_fn(ls, show_hidden)),
        keeps_fit(collapse_one()),
        forall|x: NodeModel| depths_fit(x) ==> depths_fit(#[trigger] toggle_one(x, ls, show_hidden).0),
{
    assert forall|x: NodeModel| depths_fit(x) implies depths_fit(#[trigger] expand_fn(ls, show_hidden)(x)) by {
        lemma_fit_expanded_as(x, true);
        match lookup_listing(ls, x.path) {
            Some(Some(es)) => lemma_fit_with_listing(expanded_as(x, true), es, show_hidden),
            _ => {},
        }
    }
    assert forall|x: NodeModel| depths_fit(x) implies depths_fit(#[trigger] collapse_one()(x)) by {
        lemma_fit_expanded_as(x, false);
    }
    assert forall|x: NodeModel| depths_fit(x) implies depths_fit(#[trigger] toggle_one(x, ls, show_hidden).0) by {
        lemma_fit_expanded_as(x, true);
        lemma_fit_expanded_as(x, !x.expanded);
        match lookup_listing(ls, x.path) {
            Some(Some(es)) => lemma_fit_with_listing(expanded_as(x, true), es, show_hidden),
            _ => {},
        }
    }
}

proof fn lemma_fit_collapse_all(m: NodeModel)
    requires
        depths_fit(m),
    ensures
        depths_fit(collapse_all_spec(m)),
    decreases m,
{
    let c = collapse_all_spec(m);
    assert forall|i: int| 0 <= i < c.children.len() implies depths_fit(#[trigger] c.children[i]) by {
        lemma_fit_collapse_all(m.children[i]);
    }
}

proof fn lemma_fit_first_visible(m: NodeModel, t: Seq<Seq<u8>>)
    requires
        depths_fit(m),
    ensures
        depths_fit(first_visible(m, t)),
    decreases m,
{
    if m.path != t && m.expanded {
        let j = first_child_hit(m.children, t, 0);
        if 0 <= j < m.children.len() {
            lemma_fit_first_visible(m.children[j], t);
        }
    }
}

// ---------------------------------------------------------------------------
// Laws of the tree
// ---------------------------------------------------------------------------

/// Law: the first shown node of a tree is its root, so a tree always shows
/// at least one node.
pub proof fn law_root_shown_first(m: NodeModel)
    ensures
        flat(m).len() >= 1,
        flat(m)[0] == m,
{
}

/// Every node of `s` is collapsed.
pub open spec fn all_collapsed(s: Seq<NodeModel>) -> bool {
    forall|i: int| 0 <= i < s.len() ==> !(#[trigger] s[i]).expanded
}

proof fn lemma_flat_seq_collapsed(s: Seq<NodeModel>)
    requires
        all_collapsed(s),
    ensures
        flat_seq(s) == s,
    decreases s.len(),
{
    if s.len() > 0 {
        assert(all_collapsed(s.drop_last())) by {
            assert forall|i: int| 0 <= i < s.drop_last().len() implies !(#[trigger] s.drop_last()[i]).expanded by {
                assert(s.drop_last()[i] == s[i]);
            }
        }
        lemma_flat_seq_collapsed(s.drop_last());
        assert(!s.last().expanded);
        assert(flat(s.last()) == seq![s.last()]);
        assert(s.drop_last().push(s.last()) =~= s);
    }
}

/// Law: an expanded node whose children are all collapsed (such as a root
/// just loaded from its listing) shows itself followed by its children.
pub proof fn law_shows_root_and_children(m: NodeModel)
    requires
        m.expanded,
        all_collapsed(m.children),
    ensures
        flat(m) == seq![m] + m.children,
        flat(m).len() == 1 + m.children.len(),
{
    lemma_flat_seq_collapsed(m.children);
}

/// No node of `m` is expanded.
pub open spec fn nothing_expanded(m: NodeModel) -> bool
    decreases m,
{
    &&& !m.expanded
    &&& forall|i: int| 0 <= i < m.children.len() ==> nothing_expanded(#[trigger] m.children[i])
}

proof fn lemma_collapse_all_nothing_expanded(m: NodeModel)
    ensures
        nothing_expanded(collapse_all_spec(m)),
    decreases m,
{
    let c = collapse_all_spec(m);
    assert forall|i: int| 0 <= i < c.children.len() implies nothing_expanded(#[trigger] c.children[i]) by {
        lemma_collapse_all_nothing_expanded(m.children[i]);
    }
}

/// Law: collapsing everything but the root leaves no node below the root
/// expanded, so the nodes shown are the root followed by its children.
pub proof fn law_collapse_all(m: NodeModel)
    ensures
        ({
            let r = expanded_as(collapse_all_spec(m), true);
            &&& forall|i: int| 0 <= i < r.children.len() ==> nothing_expanded(#[trigger] r.children[i])
            &&& flat(r) == seq![r] + r.children
            &&& flat(r).len() == 1 + m.children.len()
        }),
{
    let r = expanded_as(collapse_all_spec(m), true);
    lemma_collapse_all_nothing_expanded(m);
    assert(all_collapsed(r.children)) by {
        assert forall|i: int| 0 <= i < r.children.len() implies !(#[trigger] r.children[i]).expanded by {
            assert(nothing_expanded(r.children[i]));
        }
    }
    lemma_flat_seq_collapsed(r.children);
}

/// Every directory of `m` that is reached through directories is expanded.
pub open spec fn dirs_open(m: NodeModel) -> bool
    decreases m,
{
    m.is_dir ==> (m.expanded && forall|i: int| 0 <= i < m.children.len() ==> dirs_open(#[trigger] m.children[i]))
}

/// Law: when expanding everything completes, every directory reached
/// through directories is expanded.
pub proof fn law_expand_all_opens_every_directory(m: NodeModel, ls: Seq<DirListing>, show_hidden: bool)
    ensures
        expand_all_spec(m, ls, show_hidden).1 is Done ==> dirs_open(expand_all_spec(m, ls, show_hidden).0),
    decreases ls.len(), m, 0int,
{
    if m.is_dir {
        if m.children.len() == 0 {
            match lookup_listing(ls, m.path) {
                Some(Some(es)) => {
                    lemma_listing_index_bounds(ls, m.path, 0);
                    let m2 = with_listing(expanded_as(m, true), es, show_hidden);
                    lemma_expand_all_from_opens(m2.children, 0, set_aside(ls, m.path), show_hidden);
                },
                _ => {},
            }
        } else {
            lemma_expand_all_from_opens(m.children, 0, ls, show_hidden);
        }
    }
}

proof fn lemma_expand_all_from_opens(s: Seq<NodeModel>, i: int, ls: Seq<DirListing>, show_hidden: bool)
    requires
        0 <= i <= s.len(),
    ensures
        expand_all_from(s, i, ls, show_hidden).0.len() == s.len(),
        expand_all_from(s, i, ls, show_hidden).1 is Done ==> forall|j: int|
            i <= j < s.len() ==> dirs_open(#[trigger] expand_all_from(s, i, ls, show_hidden).0[j]),
    decreases ls.len(), s, s.len() - i,
{
    if i < s.len() {
        let (c, st) = expand_all_spec(s[i], ls, show_hidden);
        law_expand_all_opens_every_directory(s[i], ls, show_hidden);
        if st is Done {
            lemma_expand_all_from_opens(s, i + 1, ls, show_hidden);
        }
    }
}

/// A change to a node that keeps its path.
pub open spec fn keeps_path(f: spec_fn(NodeModel) -> NodeModel) -> bool {
    forall|x: NodeModel| (#[trigger] f(x)).path == x.path
}

proof fn lemma_hit_stays_visible(m: NodeModel, t: Seq<Seq<u8>>, f: spec_fn(NodeModel) -> NodeModel)
    requires
        visible_has(m, t),
        keeps_path(f),
    ensures
        visible_has(at_first_hit(m, t, f), t),
    decreases m,
{
    let r = at_first_hit(m, t, f);
    lemma_visible_has(m, t);
    lemma_visible_has(r, t);
    if m.path == t {
        assert(f(m).path == m.path);
    } else {
        lemma_first_child_hit_bounds(m.children, t, 0);
        let j = first_child_hit(m.children, t, 0);
        lemma_hit_stays_visible(m.children[j], t, f);
        assert(r.children[j] == at_first_hit(m.children[j], t, f));
    }
}

proof fn lemma_compose_hits(
    m: NodeModel,
    t: Seq<Seq<u8>>,
    f: spec_fn(NodeModel) -> NodeModel,
    g: spec_fn(NodeModel) -> NodeModel,
)
    requires
        keeps_path(f),
    ensures
        at_first_hit(at_first_hit(m, t, f), t, g) == at_first_hit(m, t, |x: NodeModel| g(f(x))),
    decreases m,
{
    let m1 = at_first_hit(m, t, f);
    if m.path == t {
        assert(f(m).path == t);
    } else if m.expanded {
        lemma_first_child_hit_bounds(m.children, t, 0);
        let j = first_child_hit(m.children, t, 0);
        if 0 <= j < m.children.len() {
            lemma_hit_stays_visible(m.children[j], t, f);
            lemma_compose_hits(m.children[j], t, f, g);
            let c1 = m1.children;
            assert(c1 == m.children.update(j, at_first_hit(m.children[j], t, f)));
            lemma_first_child_hit_bounds(c1, t, 0);
            let j1 = first_child_hit(c1, t, 0);
            if j1 < j {
                assert(c1[j1] == m.children[j1]);
            }
            assert(!(j < j1)) by {
                if j < j1 {
                    assert(!visible_has(c1[j], t));
                }
            }
            assert(j1 == j);
            assert(at_first_hit(m1, t, g).children =~= at_first_hit(m, t, |x: NodeModel| g(f(x))).children);
        } else {
            assert(m1 == m);
        }
    }
}

proof fn lemma_flat_seq_update_len(s: Seq<NodeModel>, j: int, c: NodeModel)
    requires
        0 <= j < s.len(),
        flat(c).len() == flat(s[j]).len(),
    ensures
        flat_seq(s.update(j, c)).len() == flat_seq(s).len(),
    decreases s.len(),
{
    let u = s.update(j, c);
    if j == s.len() - 1 {
        assert(u.drop_last() =~= s.drop_last());
    } else {
        lemma_flat_seq_update_len(s.drop_last(), j, c);
        assert(u.drop_last() =~= s.drop_last().update(j, c));
    }
}

proof fn lemma_flat_len_at_first_hit(m: NodeModel, t: Seq<Seq<u8>>, h: spec_fn(NodeModel) -> NodeModel)
    requires
        visible_has(m, t),
        flat(h(first_visible(m, t))).len() == flat(first_visible(m, t)).len(),
    ensures
        flat(at_first_hit(m, t, h)).len() == flat(m).len(),
    decreases m,
{
    lemma_visible_has(m, t);
    if m.path != t {
        lemma_first_child_hit_bounds(m.children, t, 0);
        let j = first_child_hit(m.children, t, 0);
        lemma_flat_len_at_first_hit(m.children[j], t, h);
        lemma_flat_seq_update_len(m.children, j, at_first_hit(m.children[j], t, h));
    }
}

/// Law: expanding a collapsed directory and then collapsing it again (both
/// by its path) shows as many nodes as before, whether or not its children
/// were loaded on the way.
pub proof fn law_expand_then_collapse(m: NodeModel, t: Seq<Seq<u8>>, ls: Seq<DirListing>, show_hidden: bool)
    requires
        visible_has(m, t),
        !first_visible(m, t).expanded,
        expand_one(first_visible(m, t), ls, show_hidden).1 is Done,
    ensures
        flat(at_first_hit(at_first_hit(m, t, expand_fn(ls, show_hidden)), t, collapse_one())).len()
            == flat(m).len(),
{
    let f = expand_fn(ls, show_hidden);
    let g = collapse_one();
    assert(keeps_path(f)) by {
        assert forall|x: NodeModel| (#[trigger] f(x)).path == x.path by {
        }
    }
    lemma_compose_hits(m, t, f, g);
    let h = |x: NodeModel| g(f(x));
    let n = first_visible(m, t);
    assert(flat(h(n)) =~= seq![h(n)]);
    assert(flat(n) =~= seq![n]);
    lemma_flat_len_at_first_hit(m, t, h);
}

proof fn lemma_first_visible_path(m: NodeModel, t: Seq<Seq<u8>>)
    requires
        visible_has(m, t),
    ensures
        first_visible(m, t).path == t,
    decreases m,
{
    lemma_visible_has(m, t);
    if m.path != t {
        lemma_first_child_hit_bounds(m.children, t, 0);
        let j = first_child_hit(m.children, t, 0);
        lemma_first_visible_path(m.children[j], t);
    }
}

proof fn lemma_first_visible_after_hit(m: NodeModel, t: Seq<Seq<u8>>, f: spec_fn(NodeModel) -> NodeModel)
    requires
        visible_has(m, t),
        keeps_path(f),
    ensures
        first_visible(at_first_hit(m, t, f), t) == f(first_visible(m, t)),
    decreases m,
{
    lemma_visible_has(m, t);
    let m1 = at_first_hit(m, t, f);
    if m.path == t {
        assert(f(m).path == t);
    } else {
        lemma_first_child_hit_bounds(m.children, t, 0);
        let j = first_child_hit(m.children, t, 0);
        lemma_hit_stays_visible(m.children[j], t, f);
        lemma_first_visible_after_hit(m.children[j], t, f);
        let c1 = m1.children;
        assert(c1 == m.children.update(j, at_first_hit(m.children[j], t, f)));
        lemma_first_child_hit_bounds(c1, t, 0);
        let j1 = first_child_hit(c1, t, 0);
        if j1 < j {
            assert(c1[j1] == m.children[j1]);
        }
        assert(!(j < j1)) by {
            if j < j1 {
                assert(!visible_has(c1[j], t));
            }
        }
    }
}

proof fn lemma_hit_identity(m: NodeModel, t: Seq<Seq<u8>>, h: spec_fn(NodeModel) -> NodeModel)
    requires
        visible_has(m, t),
        h(first_visible(m, t)) == first_visible(m, t),
    ensures
        at_first_hit(m, t, h) == m,
    decreases m,
{
    lemma_visible_has(m, t);
    if m.path != t {
        lemma_first_child_hit_bounds(m.children, t, 0);
        let j = first_child_hit(m.children, t, 0);
        lemma_hit_identity(m.children[j], t, h);
        assert(m.children.update(j, m.children[j]) =~= m.children);
    }
}

/// Law: collapsing an expanded node and then expanding it again (both by its
/// path) gives the tree back as it was, so the same nodes are shown again,
/// whenever expanding needs no new children: the node keeps children, is not
/// a directory, or its listing would give it none.
pub proof fn law_collapse_then_expand(m: NodeModel, t: Seq<Seq<u8>>, ls: Seq<DirListing>, show_hidden: bool)
    requires
        visible_has(m, t),
        first_visible(m, t).expanded,
        first_visible(m, t).children.len() > 0 || !first_visible(m, t).is_dir || reads_empty(ls, t, show_hidden),
    ensures
        !(tree_expand(at_first_hit(m, t, collapse_one()), t, ls, show_hidden).1 is Need),
        tree_expand(at_first_hit(m, t, collapse_one()), t, ls, show_hidden).0 == m,
        flat(tree_expand(at_first_hit(m, t, collapse_one()), t, ls, show_hidden).0) == flat(m),
{
    let f = collapse_one();
    let g = expand_fn(ls, show_hidden);
    assert(keeps_path(f)) by {
        assert forall|x: NodeModel| (#[trigger] f(x)).path == x.path by {
        }
    }
    let n = first_visible(m, t);
    lemma_first_visible_path(m, t);
    lemma_hit_stays_visible(m, t, f);
    lemma_first_visible_after_hit(m, t, f);
    let m1 = at_first_hit(m, t, f);
    assert(first_visible(m1, t) == f(n));
    lemma_compose_hits(m, t, f, g);
    let h = |x: NodeModel| g(f(x));
    if n.is_dir && n.children.len() == 0 {
        assert(reads_empty(ls, t, show_hidden));
        match lookup_listing(ls, n.path) {
            Some(Some(es)) => {
                assert(listing_children(n.path, n.depth, sorted_listing(es, show_hidden)) =~= n.children);
            },
            _ => {},
        }
    }
    assert(h(n) =~~= n);
    lemma_hit_identity(m, t, h);
}

/// The position in `flat(m)` of the first shown node whose path is `t`.
pub open spec fn hit_pos(m: NodeModel, t: Seq<Seq<u8>>) -> int
    decreases m,
{
    if m.path == t {
        0
    } else if m.expanded {
        let j = first_child_hit(m.children, t, 0);
        if 0 <= j < m.children.len() {
            1 + flat_seq(m.children.take(j)).len() + hit_pos(m.children[j], t)
        } else {
            0
        }
    } else {
        0
    }
}

proof fn lemma_flat_seq_split(s: Seq<NodeModel>, j: int)
    requires
        0 <= j < s.len(),
    ensures
        flat_seq(s) == flat_seq(s.take(j)) + flat(s[j]) + flat_seq(s.skip(j + 1)),
    decreases s.len(),
{
    let dl = s.drop_last();
    if j == s.len() - 1 {
        assert(s.take(j) =~= dl);
        assert(s.skip(j + 1) =~= Seq::<NodeModel>::empty());
        assert(flat_seq(s) =~= flat_seq(s.take(j)) + flat(s[j]) + flat_seq(s.skip(j + 1)));
    } else {
        lemma_flat_seq_split(dl, j);
        assert(dl.take(j) =~= s.take(j));
        assert(dl[j] == s[j]);
        let sk = s.skip(j + 1);
        assert(sk.drop_last() =~= dl.skip(j + 1));
        assert(sk.last() == s.last());
        assert(flat_seq(s) =~= flat_seq(s.take(j)) + flat(s[j]) + flat_seq(s.skip(j + 1)));
    }
}

proof fn lemma_shapes_add(x: Seq<NodeModel>, y: Seq<NodeModel>)
    ensures
        shapes(x + y) == shapes(x) + shapes(y),
{
    assert(shapes(x + y) =~= shapes(x) + shapes(y));
}

proof fn lemma_splice_arith(
    m: NodeModel,
    r: NodeModel,
    a: Seq<NodeModel>,
    fc: Seq<NodeModel>,
    z: Seq<NodeModel>,
    fnew: Seq<NodeModel>,
    fc2: Seq<NodeModel>,
    kc: int,
    ln: int,
)
    requires
        0 <= kc,
        1 <= ln,
        kc + ln <= fc.len(),
        shapes(fc2) == shapes(fc.take(kc)) + shapes(fnew) + shapes(fc.skip(kc + ln)),
        shapes(seq![r]) == shapes(seq![m]),
    ensures
        ({
            let fm = seq![m] + a + fc + z;
            let k = 1 + a.len() + kc;
            &&& k + ln <= fm.len()
            &&& fm[k] == fc[kc]
            &&& shapes(seq![r] + a + fc2 + z) == shapes(fm.take(k)) + shapes(fnew) + shapes(fm.skip(k + ln))
        }),
{
    let fm = seq![m] + a + fc + z;
    let k = 1 + a.len() + kc;
    assert(fm[k] == fc[kc]);
    assert(fm.take(k) =~= seq![m] + a + fc.take(kc));
    assert(fm.skip(k + ln) =~= fc.skip(kc + ln) + z);
    lemma_shapes_add(seq![r] + a + fc2, z);
    lemma_shapes_add(seq![r] + a, fc2);
    lemma_shapes_add(seq![r], a);
    lemma_shapes_add(seq![m] + a, fc.take(kc));
    lemma_shapes_add(seq![m], a);
    lemma_shapes_add(fc.skip(kc + ln), z);
    assert(shapes(seq![r] + a + fc2 + z) =~= shapes(fm.take(k)) + shapes(fnew) + shapes(fm.skip(k + ln)));
}

/// Law: changing the first shown node whose path is `t` by `f` (as
/// expanding or collapsing a node by its path does) replaces, in the shown
/// list, the nodes that node shows (the node and, when it is expanded, the
/// nodes below it) by the nodes the changed node shows; the nodes before and
/// after them stay as they were (the same paths, names, kinds, expanded
/// flags and depths, in the same order).
#[verifier::spinoff_prover]
#[verifier::rlimit(60)]
pub proof fn law_change_splices_shown_list(m: NodeModel, t: Seq<Seq<u8>>, f: spec_fn(NodeModel) -> NodeModel)
    requires
        visible_has(m, t),
    ensures
        0 <= hit_pos(m, t),
        hit_pos(m, t) + flat(first_visible(m, t)).len() <= flat(m).len(),
        flat(m)[hit_pos(m, t)] == first_visible(m, t),
        shapes(flat(at_first_hit(m, t, f))) == shapes(flat(m).take(hit_pos(m, t))) + shapes(flat(f(first_visible(m, t))))
            + shapes(flat(m).skip(hit_pos(m, t) + flat(first_visible(m, t)).len())),
    decreases m,
{
    lemma_visible_has(m, t);
    let n = first_visible(m, t);
    if m.path == t {
        law_root_shown_first(m);
        assert(flat(m).take(0) =~= Seq::<NodeModel>::empty());
        assert(flat(m).skip(flat(m).len() as int) =~= Seq::<NodeModel>::empty());
        assert(shapes(flat(m).take(0)) =~= Seq::empty());
        assert(shapes(flat(m).skip(flat(m).len() as int)) =~= Seq::empty());
        assert(shapes(flat(f(m))) =~= shapes(flat(m).take(0)) + shapes(flat(f(m))) + shapes(
            flat(m).skip(flat(m).len() as int),
        ));
    } else {
        lemma_first_child_hit_bounds(m.children, t, 0);
        let j = first_child_hit(m.children, t, 0);
        let c = m.children[j];
        law_change_splices_shown_list(c, t, f);
        let kc = hit_pos(c, t);
        let s = m.children;
        let u = s.update(j, at_first_hit(c, t, f));
        lemma_flat_seq_split(s, j);
        lemma_flat_seq_split(u, j);
        assert(u.take(j) =~= s.take(j));
        assert(u.skip(j + 1) =~= s.skip(j + 1));
        let a = flat_seq(s.take(j));
        let z = flat_seq(s.skip(j + 1));
        let fm = flat(m);
        assert(fm == seq![m] + flat_seq(s));
        assert(fm =~= seq![m] + a + flat(c) + z);
        let k = 1 + a.len() + kc;
        assert(hit_pos(m, t) == k);
        assert(first_visible(m, t) == first_visible(c, t));
        let r = at_first_hit(m, t, f);
        assert(r == with_children(m, u));
        assert(r.expanded);
        assert(flat(r) == seq![r] + flat_seq(u));
        assert(u[j] == at_first_hit(c, t, f));
        assert(shapes(seq![r]) =~= shapes(seq![m]));
        law_root_shown_first(n);
        lemma_splice_arith(m, r, a, flat(c), z, flat(f(n)), flat(at_first_hit(c, t, f)), kc, flat(n).len() as int);
    }
}

/// The name of `e` is not valid UTF-8 text whose first byte is `.` (46).
pub open spec fn no_dot_name(e: DirEntryInfo) -> bool {
    !(e.name_is_utf8 && e.name_bytes@.len() > 0 && e.name_bytes@[0] == 46u8)
}

/// Law: which entries a listing shows. With hidden entries shown, the
/// children are made from every entry of the listing; without, from exactly
/// the entries whose name is not valid UTF-8 text starting with `.` (its
/// first byte), each as often as it is listed.
pub proof fn law_shown_entries(es: Seq<DirEntryInfo>)
    ensures
        sorted_listing(es, true).to_multiset() == es.to_multiset(),
        sorted_listing(es, false).to_multiset() == es.filter(|e: DirEntryInfo| no_dot_name(e)).to_multiset(),
{
    law_listing_in_order(es, true);
    law_listing_in_order(es, false);
    let keep = |e: DirEntryInfo| no_dot_name(e);
    let shown = |e: DirEntryInfo| is_shown(e, false);
    assert(shown =~= keep);
    let all = |e: DirEntryInfo| is_shown(e, true);
    assert forall|e: DirEntryInfo| #[trigger] all(e) by {
    }
    lemma_filter_all(es, all);
}

/// Law: expanding or toggling open a collapsed directory that has no
/// children, once its listing `es` has been read, expands it and gives it
/// exactly the children made from the entries of `es` it shows, with hidden
/// entries shown as `show_hidden` says: with hidden entries shown, one child
/// for each entry. Nothing else about the node changes.
pub proof fn law_expand_loads_listing(n: NodeModel, ls: Seq<DirListing>, show_hidden: bool, es: Seq<DirEntryInfo>)
    requires
        n.is_dir,
        !n.expanded,
        n.children.len() == 0,
        lookup_listing(ls, n.path) == Some(Some(es)),
    ensures
        (expand_one(n, ls, show_hidden).1 is Done),
        expand_one(n, ls, show_hidden).0 == (NodeModel {
            expanded: true,
            children: listing_children(n.path, n.depth, sorted_listing(es, show_hidden)),
            ..n
        }),
        show_hidden ==> expand_one(n, ls, show_hidden).0.children.len() == es.len(),
        (toggle_one(n, ls, show_hidden).1 is Done),
        toggle_one(n, ls, show_hidden).0 == (NodeModel {
            expanded: true,
            children: listing_children(n.path, n.depth, sorted_listing(es, show_hidden)),
            ..n
        }),
        show_hidden ==> toggle_one(n, ls, show_hidden).0.children.len() == es.len(),
{
    law_hidden_entries(es);
}

/// Law: expanding, in a tree, the first shown node with path `t` when it is
/// a collapsed directory without children whose listing `es` has been read
/// gives that node exactly the children made from the entries of `es` it
/// shows, with the tree's choice of showing hidden entries; the node stays
/// the first shown one with that path.
pub proof fn law_tree_expand_loads_listing(
    root: NodeModel,
    t: Seq<Seq<u8>>,
    ls: Seq<DirListing>,
    show_hidden: bool,
    es: Seq<DirEntryInfo>,
)
    requires
        visible_has(root, t),
        first_visible(root, t).is_dir,
        !first_visible(root, t).expanded,
        first_visible(root, t).children.len() == 0,
        lookup_listing(ls, t) == Some(Some(es)),
    ensures
        (tree_expand(root, t, ls, show_hidden).1 is Done),
        visible_has(tree_expand(root, t, ls, show_hidden).0, t),
        first_visible(tree_expand(root, t, ls, show_hidden).0, t) == (NodeModel {
            expanded: true,
            children: listing_children(t, first_visible(root, t).depth, sorted_listing(es, show_hidden)),
            ..first_visible(root, t)
        }),
        show_hidden ==> first_visible(tree_expand(root, t, ls, show_hidden).0, t).children.len() == es.len(),
{
    let f = expand_fn(ls, show_hidden);
    assert(keeps_path(f)) by {
        assert forall|x: NodeModel| (#[trigger] f(x)).path == x.path by {
        }
    }
    lemma_first_visible_path(root, t);
    law_expand_loads_listing(first_visible(root, t), ls, show_hidden, es);
    lemma_hit_stays_visible(root, t, f);
    lemma_first_visible_after_hit(root, t, f);
}

/// Law: what opening and closing one node does to it. Collapsing clears
/// its expanded flag and nothing else. Expanding an expanded node leaves it
/// as it is; expanding a collapsed one sets the flag (unless its listing is
/// still needed) and keeps the children it already has. Toggling a
/// directory flips the flag (unless its listing is still needed) and keeps
/// the children it already has; toggling a file does nothing. None of them
/// changes the node's path, name, kind or depth.
pub proof fn law_open_and_close(n: NodeModel, ls: Seq<DirListing>, show_hidden: bool)
    ensures
        !collapse_one()(n).expanded,
        collapse_one()(n) == (NodeModel { expanded: false, ..n }),
        n.expanded ==> expand_one(n, ls, show_hidden) == (n, StepModel::Done),
        !n.expanded && !(expand_one(n, ls, show_hidden).1 is Need) ==> expand_one(n, ls, show_hidden).0.expanded,
        !n.expanded && (n.children.len() > 0 || !n.is_dir) ==> expand_one(n, ls, show_hidden) == (
            NodeModel { expanded: true, ..n },
            StepModel::Done,
        ),
        !n.is_dir ==> toggle_one(n, ls, show_hidden) == (n, StepModel::Done),
        n.is_dir && !(toggle_one(n, ls, show_hidden).1 is Need) ==> toggle_one(n, ls, show_hidden).0.expanded
            == !n.expanded,
        n.is_dir && (n.expanded || n.children.len() > 0) ==> toggle_one(n, ls, show_hidden) == (
            NodeModel { expanded: !n.expanded, ..n },
            StepModel::Done,
        ),
        expand_one(n, ls, show_hidden).1 is Need ==> expand_one(n, ls, show_hidden).0 == n,
        toggle_one(n, ls, show_hidden).1 is Need ==> toggle_one(n, ls, show_hidden).0 == n,
        ({
            let e = expand_one(n, ls, show_hidden).0;
            let g = toggle_one(n, ls, show_hidden).0;
            &&& e.path == n.path && e.name == n.name && e.is_dir == n.is_dir && e.depth == n.depth
            &&& g.path == n.path && g.name == n.name && g.is_dir == n.is_dir && g.depth == n.depth
        }),
{
}

/// Law: toggling a directory that already has children, and then toggling
/// it again, gives it back as it was.
pub proof fn law_toggle_twice(n: NodeModel, ls: Seq<DirListing>, show_hidden: bool)
    requires
        n.is_dir,
        n.children.len() > 0,
    ensures
        toggle_one(n, ls, show_hidden).1 is Done,
        toggle_one(toggle_one(n, ls, show_hidden).0, ls, show_hidden) == (n, StepModel::Done),
{
    assert(expanded_as(expanded_as(n, !n.expanded), n.expanded) =~= n);
}

/// Every directory of `r` on the way down to `t` (a directory whose path
/// `t` starts with) is expanded, and so is the directory at `t`.
pub open spec fn restored(r: NodeModel, t: Seq<Seq<u8>>) -> bool
    decreases r,
{
    (r.is_dir && path_starts_with(t, r.path)) ==> (r.expanded && (r.path != t ==> forall|i: int|
        0 <= i < r.children.len() ==> restored(#[trigger] r.children[i], t)))
}

/// Law: when restoring the expanded state of the directory at `t`
/// completes, every directory on the way down to `t`, and the directory at
/// `t` itself, is expanded.
pub proof fn law_restore_expands_the_way_down(m: NodeModel, t: Seq<Seq<u8>>, ls: Seq<DirListing>, show_hidden: bool)
    ensures
        restore_spec(m, t, ls, show_hidden).1 is None ==> restored(restore_spec(m, t, ls, show_hidden).0, t),
    decreases ls.len(), m, 0int,
{
    let (r, need) = restore_spec(m, t, ls, show_hidden);
    if m.is_dir && m.path != t && path_starts_with(t, m.path) {
        if !m.expanded && m.children.len() == 0 {
            match lookup_listing(ls, m.path) {
                Some(Some(es)) => {
                    lemma_listing_index_bounds(ls, m.path, 0);
                    let m2 = with_listing(expanded_as(m, true), es, show_hidden);
                    lemma_restore_from_restored(m2.children, 0, t, set_aside(ls, m.path), show_hidden);
                },
                _ => {},
            }
        } else {
            lemma_restore_from_restored(m.children, 0, t, ls, show_hidden);
        }
    }
}

proof fn lemma_restore_from_restored(s: Seq<NodeModel>, i: int, t: Seq<Seq<u8>>, ls: Seq<DirListing>, show_hidden: bool)
    requires
        0 <= i <= s.len(),
    ensures
        restore_from(s, i, t, ls, show_hidden).0.len() == s.len(),
        restore_from(s, i, t, ls, show_hidden).1 is None ==> forall|j: int|
            i <= j < s.len() ==> restored(#[trigger] restore_from(s, i, t, ls, show_hidden).0[j], t),
    decreases ls.len(), s, s.len() - i,
{
    if i < s.len() {
        law_restore_expands_the_way_down(s[i], t, ls, show_hidden);
        let (c, need) = restore_spec(s[i], t, ls, show_hidden);
        if need is None {
            lemma_restore_from_restored(s, i + 1, t, ls, show_hidden);
        }
    }
}

/// Reading the directory at `p` again from `ls` gives it no children: its
/// read failed, or listed nothing that is shown.
pub open spec fn reads_empty(ls: Seq<DirListing>, p: Seq<Seq<u8>>, show_hidden: bool) -> bool {
    match lookup_listing(ls, p) {
        None => false,
        Some(None) => true,
        Some(Some(es)) => sorted_listing(es, show_hidden).len() == 0,
    }
}

/// Every expanded directory of `m` that has no children would get none from
/// its listing in `ls` either.
pub open spec fn settled(m: NodeModel, ls: Seq<DirListing>, show_hidden: bool) -> bool
    decreases m,
{
    &&& (m.is_dir && m.expanded && m.children.len() == 0) ==> reads_empty(ls, m.path, show_hidden)
    &&& forall|i: int| 0 <= i < m.children.len() ==> settled(#[trigger] m.children[i], ls, show_hidden)
}

/// Every node of `m` has a path of at least `n` components.
pub open spec fn paths_at_least(m: NodeModel, n: nat) -> bool
    decreases m,
{
    &&& m.path.len() >= n
    &&& forall|i: int| 0 <= i < m.children.len() ==> paths_at_least(#[trigger] m.children[i], n)
}

proof fn lemma_fresh_children(p: Seq<Seq<u8>>, depth: usize, listed: Seq<DirEntryInfo>, ls: Seq<DirListing>, show_hidden: bool, n: nat)
    requires
        n <= p.len() + 1,
    ensures
        forall|j: int| 0 <= j < listed.len() ==> settled(#[trigger] listing_children(p, depth, listed)[j], ls, show_hidden),
        forall|j: int| 0 <= j < listed.len() ==> paths_at_least(#[trigger] listing_children(p, depth, listed)[j], n),
{
    assert forall|j: int| 0 <= j < listed.len() implies settled(#[trigger] listing_children(p, depth, listed)[j], ls, show_hidden)
        && paths_at_least(listing_children(p, depth, listed)[j], n) by {
        let c = listing_children(p, depth, listed)[j];
        assert(c.children.len() == 0);
    }
}

proof fn lemma_restore_keeps_long_paths(m: NodeModel, t: Seq<Seq<u8>>, ls: Seq<DirListing>, show_hidden: bool, n: nat)
    requires
        paths_at_least(m, n),
    ensures
        paths_at_least(restore_spec(m, t, ls, show_hidden).0, n),
    decreases ls.len(), m, 0int,
{
    if m.is_dir && m.path != t && path_starts_with(t, m.path) {
        if !m.expanded && m.children.len() == 0 {
            match lookup_listing(ls, m.path) {
                Some(Some(es)) => {
                    lemma_listing_index_bounds(ls, m.path, 0);
                    let m2 = with_listing(expanded_as(m, true), es, show_hidden);
                    lemma_fresh_children(m.path, m.depth, sorted_listing(es, show_hidden), ls, show_hidden, n);
                    lemma_restore_from_keeps_long_paths(m2.children, 0, t, set_aside(ls, m.path), show_hidden, n);
                },
                _ => {},
            }
        } else {
            lemma_restore_from_keeps_long_paths(m.children, 0, t, ls, show_hidden, n);
        }
    } else if m.is_dir && m.path == t && m.children.len() == 0 {
        match lookup_listing(ls, m.path) {
            Some(Some(es)) => {
                lemma_fresh_children(m.path, m.depth, sorted_listing(es, show_hidden), ls, show_hidden, n);
            },
            _ => {},
        }
    }
}

proof fn lemma_restore_from_keeps_long_paths(s: Seq<NodeModel>, i: int, t: Seq<Seq<u8>>, ls: Seq<DirListing>, show_hidden: bool, n: nat)
    requires
        0 <= i <= s.len(),
        forall|j: int| 0 <= j < s.len() ==> paths_at_least(#[trigger] s[j], n),
    ensures
        restore_from(s, i, t, ls, show_hidden).0.len() == s.len(),
        forall|j: int| 0 <= j < s.len() ==> paths_at_least(#[trigger] restore_from(s, i, t, ls, show_hidden).0[j], n),
    decreases ls.len(), s, s.len() - i,
{
    lemma_restore_from_len(s, i, t, ls, show_hidden);
    if i < s.len() {
        lemma_restore_keeps_long_paths(s[i], t, ls, show_hidden, n);
        lemma_restore_from_keeps_long_paths(s, i + 1, t, ls, show_hidden, n);
    }
}

proof fn lemma_settled_without(m: NodeModel, ls: Seq<DirListing>, q: Seq<Seq<u8>>, show_hidden: bool)
    requires
        settled(m, set_aside(ls, q), show_hidden),
        paths_at_least(m, q.len() + 1),
    ensures
        settled(m, ls, show_hidden),
    decreases m,
{
    lemma_set_aside_keeps_others(ls, q, m.path);
    assert forall|i: int| 0 <= i < m.children.len() implies settled(#[trigger] m.children[i], ls, show_hidden) by {
        lemma_settled_without(m.children[i], ls, q, show_hidden);
    }
}

proof fn lemma_restore_keeps_settled(m: NodeModel, t: Seq<Seq<u8>>, ls: Seq<DirListing>, show_hidden: bool)
    requires
        settled(m, ls, show_hidden),
        restore_spec(m, t, ls, show_hidden).1 is None,
    ensures
        settled(restore_spec(m, t, ls, show_hidden).0, ls, show_hidden),
    decreases ls.len(), m, 0int,
{
    if !m.is_dir {
    } else if m.path == t {
        if m.children.len() == 0 {
            match lookup_listing(ls, m.path) {
                Some(Some(es)) => {
                    lemma_fresh_children(m.path, m.depth, sorted_listing(es, show_hidden), ls, show_hidden, m.path.len() + 1);
                },
                _ => {},
            }
        }
    } else if path_starts_with(t, m.path) {
        if !m.expanded && m.children.len() == 0 {
            match lookup_listing(ls, m.path) {
                Some(Some(es)) => {
                    lemma_listing_index_bounds(ls, m.path, 0);
                    let ls2 = set_aside(ls, m.path);
                    let m2 = with_listing(expanded_as(m, true), es, show_hidden);
                    lemma_fresh_children(m.path, m.depth, sorted_listing(es, show_hidden), ls2, show_hidden, m.path.len() + 1);
                    lemma_fresh_children(m.path, m.depth, sorted_listing(es, show_hidden), ls, show_hidden, m.path.len() + 1);
                    lemma_restore_from_keeps_settled(m2.children, 0, t, ls2, show_hidden);
                    lemma_restore_from_keeps_long_paths(m2.children, 0, t, ls2, show_hidden, m.path.len() + 1);
                    let cs = restore_from(m2.children, 0, t, ls2, show_hidden).0;
                    assert forall|j: int| 0 <= j < cs.len() implies settled(#[trigger] cs[j], ls, show_hidden) by {
                        lemma_settled_without(cs[j], ls, m.path, show_hidden);
                    }
                },
                _ => {},
            }
        } else {
            lemma_restore_from_keeps_settled(m.children, 0, t, ls, show_hidden);
        }
    }
}

proof fn lemma_restore_from_keeps_settled(s: Seq<NodeModel>, i: int, t: Seq<Seq<u8>>, ls: Seq<DirListing>, show_hidden: bool)
    requires
        0 <= i <= s.len(),
        forall|j: int| 0 <= j < s.len() ==> settled(#[trigger] s[j], ls, show_hidden),
        restore_from(s, i, t, ls, show_hidden).1 is None,
    ensures
        restore_from(s, i, t, ls, show_hidden).0.len() == s.len(),
        forall|j: int| 0 <= j < s.len() ==> settled(#[trigger] restore_from(s, i, t, ls, show_hidden).0[j], ls, show_hidden),
    decreases ls.len(), s, s.len() - i,
{
    lemma_restore_from_len(s, i, t, ls, show_hidden);
    if i < s.len() {
        lemma_restore_keeps_settled(s[i], t, ls, show_hidden);
        lemma_restore_from_keeps_settled(s, i + 1, t, ls, show_hidden);
    }
}

proof fn lemma_restore_keeps_restored(m: NodeModel, t: Seq<Seq<u8>>, u: Seq<Seq<u8>>, ls: Seq<DirListing>, show_hidden: bool)
    requires
        settled(m, ls, show_hidden),
        restored(m, u),
        restore_spec(m, t, ls, show_hidden).1 is None,
    ensures
        restored(restore_spec(m, t, ls, show_hidden).0, u),
    decreases m, 0int,
{
    let r = restore_spec(m, t, ls, show_hidden).0;
    if m.is_dir && path_starts_with(u, m.path) && m.path != u && m.path != t && path_starts_with(t, m.path) && (m.expanded || m.children.len() > 0) {
        lemma_restore_from_keeps_restored(m.children, 0, t, u, ls, show_hidden);
        assert forall|i: int| 0 <= i < r.children.len() implies restored(#[trigger] r.children[i], u) by {
        }
    }
}

proof fn lemma_restore_from_keeps_restored(s: Seq<NodeModel>, i: int, t: Seq<Seq<u8>>, u: Seq<Seq<u8>>, ls: Seq<DirListing>, show_hidden: bool)
    requires
        0 <= i <= s.len(),
        forall|j: int| 0 <= j < s.len() ==> settled(#[trigger] s[j], ls, show_hidden),
        forall|j: int| 0 <= j < s.len() ==> restored(#[trigger] s[j], u),
        restore_from(s, i, t, ls, show_hidden).1 is None,
    ensures
        restore_from(s, i, t, ls, show_hidden).0.len() == s.len(),
        forall|j: int| 0 <= j < s.len() ==> restored(#[trigger] restore_from(s, i, t, ls, show_hidden).0[j], u),
    decreases s, s.len() - i,
{
    lemma_restore_from_len(s, i, t, ls, show_hidden);
    if i < s.len() {
        lemma_restore_keeps_restored(s[i], t, u, ls, show_hidden);
        lemma_restore_from_keeps_restored(s, i + 1, t, u, ls, show_hidden);
    }
}

proof fn lemma_restore_all_keeps(m: NodeModel, paths: Seq<Seq<Seq<u8>>>, k: int, u: Seq<Seq<u8>>, ls: Seq<DirListing>, show_hidden: bool)
    requires
        settled(m, ls, show_hidden),
        restored(m, u),
        restore_all(m, paths, k, ls, show_hidden).1 is None,
    ensures
        restored(restore_all(m, paths, k, ls, show_hidden).0, u),
    decreases paths.len() - k,
{
    if 0 <= k < paths.len() {
        lemma_restore_keeps_settled(m, paths[k], ls, show_hidden);
        lemma_restore_keeps_restored(m, paths[k], u, ls, show_hidden);
        lemma_restore_all_keeps(restore_spec(m, paths[k], ls, show_hidden).0, paths, k + 1, u, ls, show_hidden);
    }
}

proof fn lemma_restore_all_restores(m: NodeModel, paths: Seq<Seq<Seq<u8>>>, k: int, ls: Seq<DirListing>, show_hidden: bool)
    requires
        0 <= k,
        settled(m, ls, show_hidden),
        restore_all(m, paths, k, ls, show_hidden).1 is None,
    ensures
        forall|j: int| k <= j < paths.len() ==> restored(#[trigger] restore_all(m, paths, k, ls, show_hidden).0, paths[j]),
    decreases paths.len() - k,
{
    if k < paths.len() {
        let m2 = restore_spec(m, paths[k], ls, show_hidden).0;
        lemma_restore_keeps_settled(m, paths[k], ls, show_hidden);
        law_restore_expands_the_way_down(m, paths[k], ls, show_hidden);
        lemma_restore_all_keeps(m2, paths, k + 1, paths[k], ls, show_hidden);
        lemma_restore_all_restores(m2, paths, k + 1, ls, show_hidden);
    }
}

/// Some path of `paths` lies at or below `p`.
pub open spec fn leads_below(paths: Seq<Seq<Seq<u8>>>, p: Seq<Seq<u8>>) -> bool {
    exists|q: Seq<Seq<u8>>| #[trigger] paths.contains(q) && path_starts_with(q, p)
}

/// Every expanded directory of `m` lies on the way down to one of `paths`
/// (at or above it).
pub open spec fn opened_within(m: NodeModel, paths: Seq<Seq<Seq<u8>>>) -> bool
    decreases m,
{
    &&& (m.is_dir && m.expanded) ==> leads_below(paths, m.path)
    &&& forall|i: int| 0 <= i < m.children.len() ==> opened_within(#[trigger] m.children[i], paths)
}

proof fn lemma_fresh_opened(p: Seq<Seq<u8>>, depth: usize, listed: Seq<DirEntryInfo>, paths: Seq<Seq<Seq<u8>>>)
    ensures
        forall|j: int| 0 <= j < listed.len() ==> opened_within(#[trigger] listing_children(p, depth, listed)[j], paths),
{
    assert forall|j: int| 0 <= j < listed.len() implies opened_within(#[trigger] listing_children(p, depth, listed)[j], paths) by {
        assert(listing_children(p, depth, listed)[j].children.len() == 0);
    }
}

proof fn lemma_restore_opened(m: NodeModel, t: Seq<Seq<u8>>, ls: Seq<DirListing>, show_hidden: bool, paths: Seq<Seq<Seq<u8>>>)
    requires
        paths.contains(t),
        forall|i: int| 0 <= i < m.children.len() ==> opened_within(#[trigger] m.children[i], paths),
    ensures
        ({
            let r = restore_spec(m, t, ls, show_hidden).0;
            &&& r.path == m.path
            &&& r.is_dir == m.is_dir
            &&& r.expanded ==> (m.expanded || path_starts_with(t, m.path))
            &&& m.expanded ==> r.expanded
            &&& forall|i: int| 0 <= i < r.children.len() ==> opened_within(#[trigger] r.children[i], paths)
        }),
    decreases ls.len(), m, 0int,
{
    if m.is_dir && m.path == t {
        assert(t.subrange(0, t.len() as int) =~= t);
        if m.children.len() == 0 {
            match lookup_listing(ls, m.path) {
                Some(Some(es)) => {
                    lemma_fresh_opened(m.path, m.depth, sorted_listing(es, show_hidden), paths);
                },
                _ => {},
            }
        }
    } else if m.is_dir && path_starts_with(t, m.path) {
        if !m.expanded && m.children.len() == 0 {
            match lookup_listing(ls, m.path) {
                Some(Some(es)) => {
                    lemma_listing_index_bounds(ls, m.path, 0);
                    let m2 = with_listing(expanded_as(m, true), es, show_hidden);
                    lemma_fresh_opened(m.path, m.depth, sorted_listing(es, show_hidden), paths);
                    lemma_restore_from_opened(m2.children, 0, t, set_aside(ls, m.path), show_hidden, paths);
                },
                _ => {},
            }
        } else {
            lemma_restore_from_opened(m.children, 0, t, ls, show_hidden, paths);
        }
    }
}

proof fn lemma_restore_from_opened(s: Seq<NodeModel>, i: int, t: Seq<Seq<u8>>, ls: Seq<DirListing>, show_hidden: bool, paths: Seq<Seq<Seq<u8>>>)
    requires
        0 <= i <= s.len(),
        paths.contains(t),
        forall|j: int| 0 <= j < s.len() ==> opened_within(#[trigger] s[j], paths),
    ensures
        restore_from(s, i, t, ls, show_hidden).0.len() == s.len(),
        forall|j: int| 0 <= j < s.len() ==> opened_within(#[trigger] restore_from(s, i, t, ls, show_hidden).0[j], paths),
    decreases ls.len(), s, s.len() - i,
{
    lemma_restore_from_len(s, i, t, ls, show_hidden);
    if i < s.len() {
        let c = restore_spec(s[i], t, ls, show_hidden).0;
        lemma_restore_opened(s[i], t, ls, show_hidden, paths);
        assert(opened_within(c, paths)) by {
            if c.is_dir && c.expanded && !s[i].expanded {
                assert(leads_below(paths, c.path)) by {
                    assert(paths.contains(t) && path_starts_with(t, c.path));
                }
            }
        }
        lemma_restore_from_opened(s, i + 1, t, ls, show_hidden, paths);
    }
}

proof fn lemma_restore_all_opened(m: NodeModel, paths: Seq<Seq<Seq<u8>>>, k: int, ls: Seq<DirListing>, show_hidden: bool)
    requires
        0 <= k,
        forall|i: int| 0 <= i < m.children.len() ==> opened_within(#[trigger] m.children[i], paths),
    ensures
        ({
            let r = restore_all(m, paths, k, ls, show_hidden).0;
            &&& (m.expanded ==> r.expanded)
            &&& forall|i: int| 0 <= i < r.children.len() ==> opened_within(#[trigger] r.children[i], paths)
        }),
    decreases paths.len() - k,
{
    if k < paths.len() {
        assert(paths.contains(paths[k]));
        lemma_restore_opened(m, paths[k], ls, show_hidden, paths);
        let (m2, need) = restore_spec(m, paths[k], ls, show_hidden);
        if need is None {
            lemma_restore_all_opened(m2, paths, k + 1, ls, show_hidden);
            assert(restore_all(m, paths, k, ls, show_hidden) == restore_all(m2, paths, k + 1, ls, show_hidden));
        } else {
            assert(restore_all(m, paths, k, ls, show_hidden).0 == m2);
        }
    }
}

/// Law: when a refresh completes, every directory that was expanded before
/// it is expanded again wherever the new tree still holds it, and so is
/// every directory on the way down to it; the new root is expanded, and no
/// other directory is expanded unless it lies on the way down to (or at) a
/// directory that was expanded before.
pub proof fn law_refresh_restores_expanded(old_root: NodeModel, root_is_dir: bool, ls: Seq<DirListing>, show_hidden: bool)
    requires
        refresh_spec(old_root, root_is_dir, ls, show_hidden).1 is Done,
    ensures
        forall|i: int| 0 <= i < collect_expanded(old_root).len() ==> restored(
            refresh_spec(old_root, root_is_dir, ls, show_hidden).0,
            #[trigger] collect_expanded(old_root)[i],
        ),
        refresh_spec(old_root, root_is_dir, ls, show_hidden).0.expanded,
        forall|i: int| 0 <= i < refresh_spec(old_root, root_is_dir, ls, show_hidden).0.children.len() ==> opened_within(
            #[trigger] refresh_spec(old_root, root_is_dir, ls, show_hidden).0.children[i],
            collect_expanded(old_root),
        ),
{
    let paths = collect_expanded(old_root);
    let r0 = expanded_as(named(fresh_node(old_root.path, root_is_dir, 0), old_root.name), true);
    let r1 = if root_is_dir {
        match lookup_listing(ls, old_root.path) {
            Some(Some(es)) => {
                lemma_fresh_children(old_root.path, 0, sorted_listing(es, show_hidden), ls, show_hidden, 0);
                lemma_fresh_opened(old_root.path, 0, sorted_listing(es, show_hidden), paths);
                with_listing(r0, es, show_hidden)
            },
            _ => r0,
        }
    } else {
        r0
    };
    assert(settled(r1, ls, show_hidden));
    lemma_restore_all_restores(r1, paths, 0, ls, show_hidden);
    lemma_restore_all_opened(r1, paths, 0, ls, show_hidden);
}

/// `n` as a node is first made: the same path, name, kind and depth,
/// collapsed, and without children.
pub open spec fn fresh_like(n: NodeModel) -> NodeModel {
    NodeModel { expanded: false, children: seq![], ..n }
}

/// What reading the directories of `n` again gives when nothing changed:
/// every expanded node expanded again with its children rebuilt in turn,
/// every other node collapsed and without children.
pub open spec fn rebuilt(n: NodeModel) -> NodeModel
    decreases n, 0int,
{
    if n.expanded {
        NodeModel { children: rebuilt_seq(n.children), ..n }
    } else {
        fresh_like(n)
    }
}

/// `rebuilt` of each member of `s`.
pub open spec fn rebuilt_seq(s: Seq<NodeModel>) -> Seq<NodeModel>
    decreases s, 1int,
{
    if s.len() == 0 {
        seq![]
    } else {
        rebuilt_seq(s.drop_last()).push(rebuilt(s.last()))
    }
}

proof fn lemma_rebuilt_seq(s: Seq<NodeModel>)
    ensures
        rebuilt_seq(s).len() == s.len(),
        forall|i: int| 0 <= i < s.len() ==> #[trigger] rebuilt_seq(s)[i] == rebuilt(s[i]),
    decreases s.len(),
{
    if s.len() > 0 {
        lemma_rebuilt_seq(s.drop_last());
        assert forall|i: int| 0 <= i < s.len() implies #[trigger] rebuilt_seq(s)[i] == rebuilt(s[i]) by {
            if i < s.len() - 1 {
                assert(s.drop_last()[i] == s[i]);
            }
        }
    }
}

/// The entries that each listing read in `ls` shows name each entry once,
/// as in a real directory.
pub open spec fn shown_names_distinct(ls: Seq<DirListing>, show_hidden: bool) -> bool {
    forall|p: Seq<Seq<u8>>, i: int, j: int|
        #![trigger lookup_listing(ls, p), sorted_listing(lookup_listing(ls, p)->0->0, show_hidden)[i], sorted_listing(lookup_listing(ls, p)->0->0, show_hidden)[j]]
        (lookup_listing(ls, p) matches Some(Some(es)) && 0 <= i < j < sorted_listing(es, show_hidden).len())
            ==> sorted_listing(lookup_listing(ls, p)->0->0, show_hidden)[i].name_bytes@ != sorted_listing(
            lookup_listing(ls, p)->0->0,
            show_hidden,
        )[j].name_bytes@
}

/// `n` holds what `ls` lists, as when every child list of `n` was read from
/// `ls`: each expanded node is a directory whose children are, in order,
/// nodes for the entries its listing shows (the same path, name, kind and
/// depth), or none when its read failed.
pub open spec fn matches_listings(n: NodeModel, ls: Seq<DirListing>, show_hidden: bool) -> bool
    decreases n,
{
    n.expanded ==> {
        &&& n.is_dir
        &&& match lookup_listing(ls, n.path) {
            None => false,
            Some(None) => n.children.len() == 0,
            Some(Some(es)) => {
                &&& n.children.len() == sorted_listing(es, show_hidden).len()
                &&& forall|i: int| 0 <= i < n.children.len() ==> fresh_like(#[trigger] n.children[i])
                    == listing_children(n.path, n.depth, sorted_listing(es, show_hidden))[i]
            },
        }
        &&& forall|i: int| 0 <= i < n.children.len() ==> matches_listings(#[trigger] n.children[i], ls, show_hidden)
    }
}

/// What the shown list shows of each node: its path, name, kind, whether
/// it is expanded, and its depth.
pub open spec fn shapes(s: Seq<NodeModel>) -> Seq<(Seq<Seq<u8>>, Seq<char>, bool, bool, usize)> {
    s.map_values(|n: NodeModel| (n.path, n.name, n.is_dir, n.expanded, n.depth))
}

proof fn lemma_rebuilt_shapes(n: NodeModel)
    ensures
        shapes(flat(rebuilt(n))) == shapes(flat(n)),
    decreases n, 0int,
{
    if n.expanded {
        lemma_rebuilt_seq_shapes(n.children);
        let r = rebuilt(n);
        assert(flat(r) == seq![r] + flat_seq(rebuilt_seq(n.children)));
        assert(flat(n) == seq![n] + flat_seq(n.children));
        assert(shapes(flat(r)) =~= shapes(seq![r]) + shapes(flat_seq(rebuilt_seq(n.children))));
        assert(shapes(flat(n)) =~= shapes(seq![n]) + shapes(flat_seq(n.children)));
        assert(shapes(seq![r]) =~= shapes(seq![n]));
    } else {
        assert(shapes(flat(rebuilt(n))) =~= shapes(flat(n)));
    }
}

proof fn lemma_rebuilt_seq_shapes(s: Seq<NodeModel>)
    ensures
        shapes(flat_seq(rebuilt_seq(s))) == shapes(flat_seq(s)),
    decreases s, 1int,
{
    if s.len() > 0 {
        lemma_rebuilt_seq_shapes(s.drop_last());
        lemma_rebuilt_shapes(s.last());
        let r = rebuilt_seq(s);
        assert(r.drop_last() == rebuilt_seq(s.drop_last()));
        assert(r.last() == rebuilt(s.last()));
        assert(shapes(flat_seq(r)) =~= shapes(flat_seq(r.drop_last())) + shapes(flat(r.last())));
        assert(shapes(flat_seq(s)) =~= shapes(flat_seq(s.drop_last())) + shapes(flat(s.last())));
    }
}

proof fn lemma_restore_all_shift(m: NodeModel, x: Seq<Seq<u8>>, rest: Seq<Seq<Seq<u8>>>, k: int, ls: Seq<DirListing>, show_hidden: bool)
    requires
        0 <= k,
    ensures
        restore_all(m, seq![x] + rest, k + 1, ls, show_hidden) == restore_all(m, rest, k, ls, show_hidden),
    decreases rest.len() - k,
{
    let l = seq![x] + rest;
    if k < rest.len() {
        assert(l[k + 1] == rest[k]);
        let (m2, need) = restore_spec(m, rest[k], ls, show_hidden);
        if need is None {
            lemma_restore_all_shift(m2, x, rest, k + 1, ls, show_hidden);
        }
    }
}

proof fn lemma_restore_all_concat(m: NodeModel, a: Seq<Seq<Seq<u8>>>, b: Seq<Seq<Seq<u8>>>, k: int, ls: Seq<DirListing>, show_hidden: bool)
    requires
        0 <= k <= a.len(),
        restore_all(m, a, k, ls, show_hidden).1 is None,
    ensures
        restore_all(m, a + b, k, ls, show_hidden) == restore_all(restore_all(m, a, k, ls, show_hidden).0, b, 0, ls, show_hidden),
    decreases a.len() - k,
{
    let l = a + b;
    if k < a.len() {
        assert(l[k] == a[k]);
        let (m2, need) = restore_spec(m, a[k], ls, show_hidden);
        lemma_restore_all_concat(m2, a, b, k + 1, ls, show_hidden);
    } else {
        assert(forall|j: int| 0 <= j < b.len() ==> l[a.len() + j] == b[j]);
        lemma_restore_all_suffix(m, a, b, 0, ls, show_hidden);
    }
}

proof fn lemma_restore_all_suffix(m: NodeModel, a: Seq<Seq<Seq<u8>>>, b: Seq<Seq<Seq<u8>>>, j: int, ls: Seq<DirListing>, show_hidden: bool)
    requires
        0 <= j,
    ensures
        restore_all(m, a + b, a.len() + j, ls, show_hidden) == restore_all(m, b, j, ls, show_hidden),
    decreases b.len() - j,
{
    if j < b.len() {
        assert((a + b)[a.len() + j] == b[j]);
        let (m2, need) = restore_spec(m, b[j], ls, show_hidden);
        lemma_restore_all_suffix(m2, a, b, j + 1, ls, show_hidden);
    }
}

proof fn lemma_restore_from_untouched(s: Seq<NodeModel>, k: int, t: Seq<Seq<u8>>, ls: Seq<DirListing>, show_hidden: bool)
    requires
        0 <= k,
        forall|j: int| k <= j < s.len() ==> !path_starts_with(t, #[trigger] s[j].path),
    ensures
        restore_from(s, k, t, ls, show_hidden) == (s, Option::<Seq<Seq<u8>>>::None),
    decreases s.len() - k,
{
    if k < s.len() {
        assert(!path_starts_with(t, s[k].path));
        assert(s[k].path != t) by {
            if s[k].path == t {
                assert(t.subrange(0, t.len() as int) =~= t);
            }
        }
        assert(restore_spec(s[k], t, ls, show_hidden) == (s[k], Option::<Seq<Seq<u8>>>::None));
        lemma_restore_from_untouched(s, k + 1, t, ls, show_hidden);
        assert(s.update(k, s[k]) =~= s);
    }
}

proof fn lemma_restore_from_single(s: Seq<NodeModel>, k: int, i: int, t: Seq<Seq<u8>>, ls: Seq<DirListing>, show_hidden: bool)
    requires
        0 <= k <= i < s.len(),
        forall|j: int| 0 <= j < s.len() && j != i ==> !path_starts_with(t, #[trigger] s[j].path),
    ensures
        restore_from(s, k, t, ls, show_hidden) == (
            s.update(i, restore_spec(s[i], t, ls, show_hidden).0),
            restore_spec(s[i], t, ls, show_hidden).1,
        ),
    decreases i - k,
{
    if k < i {
        assert(!path_starts_with(t, s[k].path));
        assert(s[k].path != t) by {
            if s[k].path == t {
                assert(t.subrange(0, t.len() as int) =~= t);
            }
        }
        assert(restore_spec(s[k], t, ls, show_hidden) == (s[k], Option::<Seq<Seq<u8>>>::None));
        lemma_restore_from_single(s, k + 1, i, t, ls, show_hidden);
        let u = s.update(i, restore_spec(s[i], t, ls, show_hidden).0);
        assert(u.update(k, s[k]) =~= u);
    } else {
        lemma_restore_from_untouched(s, i + 1, t, ls, show_hidden);
    }
}

/// The children of `m` have paths one component longer than `m`'s, each
/// starting with it, and no two the same.
pub open spec fn fans_out(m: NodeModel) -> bool {
    &&& forall|j: int| 0 <= j < m.children.len() ==> (#[trigger] m.children[j]).path.len() == m.path.len() + 1
        && path_starts_with(m.children[j].path, m.path)
    &&& forall|j: int, k: int| 0 <= j < k < m.children.len() ==> (#[trigger] m.children[j]).path != (#[trigger] m.children[k]).path
}

/// Restoring in `m` the paths of `l` from position `k` on, all of them at
/// or below child `i`, changes only that child.
proof fn lemma_restore_all_in_child(m: NodeModel, l: Seq<Seq<Seq<u8>>>, k: int, i: int, ls: Seq<DirListing>, show_hidden: bool)
    requires
        0 <= k,
        0 <= i < m.children.len(),
        m.expanded,
        m.is_dir,
        fans_out(m),
        forall|q: int| 0 <= q < l.len() ==> path_starts_with(#[trigger] l[q], m.children[i].path),
    ensures
        restore_all(m, l, k, ls, show_hidden) == (
            with_children(m, m.children.update(i, restore_all(m.children[i], l, k, ls, show_hidden).0)),
            restore_all(m.children[i], l, k, ls, show_hidden).1,
        ),
    decreases l.len() - k,
{
    if k < l.len() {
        let t = l[k];
        let c = m.children[i];
        assert(path_starts_with(t, c.path));
        assert(path_starts_with(t, m.path)) by {
            assert(t.subrange(0, m.path.len() as int) =~= c.path.subrange(0, m.path.len() as int));
        }
        assert(m.path != t);
        assert forall|j: int| 0 <= j < m.children.len() && j != i implies !path_starts_with(t, #[trigger] m.children[j].path) by {
            let d = m.children[j];
            if path_starts_with(t, d.path) {
                assert(d.path =~= t.subrange(0, d.path.len() as int));
                assert(c.path =~= t.subrange(0, c.path.len() as int));
                if j < i {
                    assert(m.children[j].path != m.children[i].path);
                } else {
                    assert(m.children[i].path != m.children[j].path);
                }
            }
        }
        lemma_restore_from_single(m.children, 0, i, t, ls, show_hidden);
        let (c2, need) = restore_spec(c, t, ls, show_hidden);
        let m2 = with_children(m, m.children.update(i, c2));
        assert(expanded_as(m, true) == m);
        assert(restore_spec(m, t, ls, show_hidden) == (m2, need));
        if need is None {
            assert(m2.children[i] == c2);
            assert(fans_out(m2)) by {
                assert forall|j: int| 0 <= j < m2.children.len() implies #[trigger] m2.children[j].path == m.children[j].path by {
                }
            }
            lemma_restore_all_in_child(m2, l, k + 1, i, ls, show_hidden);
            assert(m2.children.update(i, restore_all(c2, l, k + 1, ls, show_hidden).0) =~= m.children.update(
                i,
                restore_all(c2, l, k + 1, ls, show_hidden).0,
            ));
        }
    } else {
        assert(m.children.update(i, m.children[i]) =~= m.children);
    }
}

proof fn lemma_collect_under(n: NodeModel, ls: Seq<DirListing>, show_hidden: bool)
    requires
        matches_listings(n, ls, show_hidden),
    ensures
        forall|q: int| 0 <= q < collect_expanded(n).len() ==> path_starts_with(#[trigger] collect_expanded(n)[q], n.path),
    decreases n, 0int,
{
    if n.is_dir && n.expanded {
        assert forall|j: int| 0 <= j < n.children.len() implies path_starts_with(#[trigger] n.children[j].path, n.path) by {
            match lookup_listing(ls, n.path) {
                Some(Some(es)) => {
                    let kids = listing_children(n.path, n.depth, sorted_listing(es, show_hidden));
                    assert(fresh_like(n.children[j]) == kids[j]);
                    assert(n.children[j].path.subrange(0, n.path.len() as int) =~= n.path);
                },
                _ => {},
            }
        }
        lemma_collect_seq_under(n.children, n.path, ls, show_hidden);
        let c = collect_expanded(n);
        assert forall|q: int| 0 <= q < c.len() implies path_starts_with(#[trigger] c[q], n.path) by {
            if q == 0 {
                assert(n.path.subrange(0, n.path.len() as int) =~= n.path);
            } else {
                assert(c[q] == collect_seq(n.children)[q - 1]);
            }
        }
    }
}

proof fn lemma_collect_seq_under(s: Seq<NodeModel>, base: Seq<Seq<u8>>, ls: Seq<DirListing>, show_hidden: bool)
    requires
        forall|j: int| 0 <= j < s.len() ==> matches_listings(#[trigger] s[j], ls, show_hidden),
        forall|j: int| 0 <= j < s.len() ==> path_starts_with(#[trigger] s[j].path, base),
    ensures
        forall|q: int| 0 <= q < collect_seq(s).len() ==> path_starts_with(#[trigger] collect_seq(s)[q], base),
    decreases s, 1int,
{
    if s.len() > 0 {
        let a = s.drop_last();
        assert forall|j: int| 0 <= j < a.len() implies matches_listings(#[trigger] a[j], ls, show_hidden) && path_starts_with(a[j].path, base) by {
            assert(a[j] == s[j]);
        }
        lemma_collect_seq_under(a, base, ls, show_hidden);
        lemma_collect_under(s.last(), ls, show_hidden);
        let x = s.last();
        assert(path_starts_with(x.path, base));
        let c = collect_seq(s);
        assert forall|q: int| 0 <= q < c.len() implies path_starts_with(#[trigger] c[q], base) by {
            let ca = collect_seq(a);
            if q < ca.len() {
                assert(c[q] == ca[q]);
            } else {
                let e = collect_expanded(x);
                assert(c[q] == e[q - ca.len()]);
                assert(path_starts_with(e[q - ca.len()], x.path));
                assert(c[q].subrange(0, base.len() as int) =~= x.path.subrange(0, base.len() as int));
            }
        }
    }
}

/// The children that loading the listing `es` gives a node like `n`, with
/// the first `k` of `n`'s children rebuilt in their place.
pub open spec fn part_rebuilt(n: NodeModel, es: Seq<DirEntryInfo>, show_hidden: bool, k: int) -> Seq<NodeModel> {
    rebuilt_seq(n.children.take(k)) + listing_children(n.path, n.depth, sorted_listing(es, show_hidden)).skip(k)
}

proof fn lemma_loaded_fans_out(n: NodeModel, es: Seq<DirEntryInfo>, ls: Seq<DirListing>, show_hidden: bool, k: int)
    requires
        matches_listings(n, ls, show_hidden),
        n.expanded,
        lookup_listing(ls, n.path) == Some(Some(es)),
        shown_names_distinct(ls, show_hidden),
        0 <= k <= n.children.len(),
    ensures
        fans_out(with_children(expanded_as(fresh_like(n), true), part_rebuilt(n, es, show_hidden, k))),
        part_rebuilt(n, es, show_hidden, k).len() == n.children.len(),
        forall|j: int| 0 <= j < n.children.len() ==> (#[trigger] part_rebuilt(n, es, show_hidden, k)[j]).path
            == n.path.push(sorted_listing(es, show_hidden)[j].name_bytes@),
{
    let sl = sorted_listing(es, show_hidden);
    let kids = listing_children(n.path, n.depth, sl);
    let pr = part_rebuilt(n, es, show_hidden, k);
    lemma_rebuilt_seq(n.children.take(k));
    assert forall|j: int| 0 <= j < n.children.len() implies (#[trigger] pr[j]).path == n.path.push(sl[j].name_bytes@) by {
        assert(fresh_like(n.children[j]) == kids[j]);
        if j < k {
            assert(pr[j] == rebuilt(n.children[j]));
        } else {
            assert(pr[j] == kids[j]);
        }
    }
    let m = with_children(expanded_as(fresh_like(n), true), pr);
    assert forall|j: int| 0 <= j < m.children.len() implies (#[trigger] m.children[j]).path.len() == m.path.len() + 1
        && path_starts_with(m.children[j].path, m.path) by {
        assert(m.children[j].path.subrange(0, m.path.len() as int) =~= m.path);
    }
    assert forall|j: int, q: int| 0 <= j < q < m.children.len() implies (#[trigger] m.children[j]).path != (#[trigger] m.children[q]).path by {
        assert(sl[j].name_bytes@ != sl[q].name_bytes@);
        assert(m.children[j].path.last() == sl[j].name_bytes@);
        assert(m.children[q].path.last() == sl[q].name_bytes@);
    }
}

proof fn lemma_restore_children(n: NodeModel, es: Seq<DirEntryInfo>, ls: Seq<DirListing>, show_hidden: bool, k: int)
    requires
        matches_listings(n, ls, show_hidden),
        n.expanded,
        lookup_listing(ls, n.path) == Some(Some(es)),
        shown_names_distinct(ls, show_hidden),
        0 <= k <= n.children.len(),
    ensures
        restore_all(
            with_listing(expanded_as(fresh_like(n), true), es, show_hidden),
            collect_seq(n.children.take(k)),
            0,
            ls,
            show_hidden,
        ) == (
            with_children(expanded_as(fresh_like(n), true), part_rebuilt(n, es, show_hidden, k)),
            Option::<Seq<Seq<u8>>>::None,
        ),
    decreases n, 0int, k,
{
    let sl = sorted_listing(es, show_hidden);
    let kids = listing_children(n.path, n.depth, sl);
    let t0 = with_listing(expanded_as(fresh_like(n), true), es, show_hidden);
    let base = expanded_as(fresh_like(n), true);
    assert(t0 == with_children(base, kids));
    if k == 0 {
        assert(n.children.take(0) =~= Seq::<NodeModel>::empty());
        assert(part_rebuilt(n, es, show_hidden, 0) =~= kids);
    } else {
        lemma_restore_children(n, es, ls, show_hidden, k - 1);
        let s = n.children.take(k);
        let c = n.children[k - 1];
        assert(s.drop_last() =~= n.children.take(k - 1));
        assert(s.last() == c);
        let a = collect_seq(n.children.take(k - 1));
        let b = collect_expanded(c);
        assert(collect_seq(s) == a + b);
        lemma_restore_all_concat(t0, a, b, 0, ls, show_hidden);
        let tk = with_children(base, part_rebuilt(n, es, show_hidden, k - 1));
        lemma_loaded_fans_out(n, es, ls, show_hidden, k - 1);
        lemma_rebuilt_seq(n.children.take(k - 1));
        assert(tk.children[k - 1] == kids[k - 1]);
        assert(fresh_like(c) == kids[k - 1]);
        lemma_collect_under(c, ls, show_hidden);
        lemma_restore_all_in_child(tk, b, 0, k - 1, ls, show_hidden);
        lemma_rebuild_node(c, ls, show_hidden);
        lemma_rebuilt_seq(s);
        assert(s.drop_last().push(c) =~= s);
        assert(rebuilt_seq(s) == rebuilt_seq(n.children.take(k - 1)).push(rebuilt(c)));
        assert(part_rebuilt(n, es, show_hidden, k - 1).update(k - 1, rebuilt(c)) =~= part_rebuilt(n, es, show_hidden, k));
    }
}

proof fn lemma_rebuild_node(n: NodeModel, ls: Seq<DirListing>, show_hidden: bool)
    requires
        matches_listings(n, ls, show_hidden),
        shown_names_distinct(ls, show_hidden),
    ensures
        restore_all(fresh_like(n), collect_expanded(n), 0, ls, show_hidden) == (rebuilt(n), Option::<Seq<Seq<u8>>>::None),
    decreases n, 1int, 0int,
{
    let f = fresh_like(n);
    if n.expanded {
        let rest = collect_seq(n.children);
        assert(collect_expanded(n) == seq![n.path] + rest);
        assert((seq![n.path] + rest)[0] == n.path);
        match lookup_listing(ls, n.path) {
            Some(None) => {
                assert(n.children =~= Seq::<NodeModel>::empty());
                assert(rest =~= Seq::<Seq<Seq<u8>>>::empty());
                lemma_restore_all_shift(expanded_as(f, true), n.path, rest, 0, ls, show_hidden);
                assert(rebuilt(n) =~= expanded_as(f, true));
            },
            Some(Some(es)) => {
                let t0 = with_listing(expanded_as(f, true), es, show_hidden);
                assert(restore_spec(f, n.path, ls, show_hidden) == (t0, Option::<Seq<Seq<u8>>>::None));
                lemma_restore_all_shift(t0, n.path, rest, 0, ls, show_hidden);
                lemma_restore_children(n, es, ls, show_hidden, n.children.len() as int);
                assert(n.children.take(n.children.len() as int) =~= n.children);
                let pr = part_rebuilt(n, es, show_hidden, n.children.len() as int);
                lemma_rebuilt_seq(n.children);
                assert(pr =~= rebuilt_seq(n.children));
                assert(with_children(expanded_as(f, true), pr) =~= rebuilt(n));
            },
            None => {},
        }
    }
}

/// Law: when nothing changed on disk since the tree was read (every
/// expanded node holds what its listing in `ls` shows), a completed refresh
/// gives the tree back with every expanded directory expanded again, so the
/// shown list is the same: the same paths, names, kinds, expanded flags and
/// depths, in the same order.
pub proof fn law_refresh_keeps_shown_list(old_root: NodeModel, root_is_dir: bool, ls: Seq<DirListing>, show_hidden: bool)
    requires
        refresh_spec(old_root, root_is_dir, ls, show_hidden).1 is Done,
        old_root.expanded,
        old_root.depth == 0,
        old_root.is_dir == root_is_dir,
        root_is_dir ==> matches_listings(old_root, ls, show_hidden),
        !root_is_dir ==> old_root.children.len() == 0,
        shown_names_distinct(ls, show_hidden),
    ensures
        refresh_spec(old_root, root_is_dir, ls, show_hidden).0 == rebuilt(old_root),
        shapes(flat(refresh_spec(old_root, root_is_dir, ls, show_hidden).0)) == shapes(flat(old_root)),
{
    let m = old_root;
    let r0 = expanded_as(named(fresh_node(m.path, root_is_dir, 0), m.name), true);
    assert(r0 == expanded_as(fresh_like(m), true));
    if root_is_dir {
        match lookup_listing(ls, m.path) {
            Some(Some(es)) => {
                let r1 = with_listing(r0, es, show_hidden);
                let rest = collect_seq(m.children);
                assert(collect_expanded(m) == seq![m.path] + rest);
                assert((seq![m.path] + rest)[0] == m.path);
                assert(expanded_as(r1, true) == r1);
                assert(with_listing(expanded_as(r1, true), es, show_hidden) == r1);
                assert(restore_spec(r1, m.path, ls, show_hidden) == (r1, Option::<Seq<Seq<u8>>>::None));
                lemma_restore_all_shift(r1, m.path, rest, 0, ls, show_hidden);
                lemma_restore_children(m, es, ls, show_hidden, m.children.len() as int);
                assert(m.children.take(m.children.len() as int) =~= m.children);
                let pr = part_rebuilt(m, es, show_hidden, m.children.len() as int);
                lemma_rebuilt_seq(m.children);
                assert(pr =~= rebuilt_seq(m.children));
                assert(with_children(expanded_as(fresh_like(m), true), pr) =~= rebuilt(m));
            },
            _ => {},
        }
    } else {
        assert(m.children =~= Seq::<NodeModel>::empty());
        assert(rebuilt(m) =~= r0);
    }
    lemma_rebuilt_shapes(m);
}


/// A file tree: the root node, and the list of the nodes that are shown.
#[derive(Debug)]
pub struct FileTree {
    pub root: FileNode,
    pub flat_list: Vec<usize>,
    nodes: Vec<FileNode>,
    pub show_hidden: bool,
}

impl FileTree {
    /// The models of the nodes in the shown list.
    pub closed spec fn shown(&self) -> Seq<NodeModel> {
        models(self.nodes@)
    }

    /// The model of the root node.
    pub closed spec fn root_model(&self) -> NodeModel {
        self.root@
    }

    /// The positions held in `flat_list`.
    pub closed spec fn positions_listed(&self) -> Seq<usize> {
        self.flat_list@
    }

    /// Whether hidden entries are shown.
    pub closed spec fn hidden_shown(&self) -> bool {
        self.show_hidden
    }

    /// Every node's depth is at most the number of components of its path.
    pub open spec fn well_formed(&self) -> bool {
        depths_fit(self.root_model())
    }

    /// The shown list agrees with the root: it holds the shown nodes of the
    /// root in order, and `flat_list` holds their positions.
    pub open spec fn list_fresh(&self) -> bool {
        &&& self.shown() == flat(self.root_model())
        &&& self.positions_listed() == positions(self.shown().len())
    }

    /// A tree rooted at the path whose bytes are `root_path`, whose root is expanded
    /// and holds one child for each shown entry of `root_entries` (the root's
    /// directory listing, used when `root_is_dir`), with its shown list
    /// computed.
    pub fn new(
        root_path: &Vec<u8>,
        root_is_dir: bool,
        root_entries: &Vec<DirEntryInfo>,
        show_hidden: bool,
    ) -> (r: FileTree)
        ensures
            r.root_model() == with_listing(
                expanded_as(text_node(root_path@, root_is_dir, 0), true),
                root_entries@,
                show_hidden,
            ),
            r.hidden_shown() == show_hidden,
            r.list_fresh(),
            r.well_formed(),
    {
        let mut root = FileNode::new(root_path, root_is_dir, 0);
        root.expanded = true;
        proof {
            assert(depths_fit(root@));
        }
        let ghost r0 = root@;
        root.load_children(show_hidden, root_entries);
        proof {
            lemma_fit_with_listing(r0, root_entries@, show_hidden);
        }
        let mut tree = FileTree { root, flat_list: Vec::new(), nodes: Vec::new(), show_hidden };
        tree.rebuild_flat_list();
        tree
    }

    /// The node at `index` in the shown list, if there is one.
    pub fn get_node(&self, index: usize) -> (r: Option<&FileNode>)
        ensures
            match r {
                Some(n) => index < self.shown().len() && n@ == self.shown()[index as int],
                None => index >= self.shown().len(),
            },
    {
        if index < self.nodes.len() {
            Some(&self.nodes[index])
        } else {
            None
        }
    }

    /// The node at `index` in the shown list, to be changed in place. The
    /// shown list holds copies: a change made through it does not reach the
    /// root.
    pub fn get_node_mut(&mut self, index: usize) -> (r: Option<&mut FileNode>)
        ensures
            final(self).root_model() == old(self).root_model(),
            final(self).hidden_shown() == old(self).hidden_shown(),
            final(self).positions_listed() == old(self).positions_listed(),
            index >= old(self).shown().len() ==> r is None && final(self).shown() == old(self).shown(),
            index < old(self).shown().len() ==> (r matches Some(x) && (*x)@ == old(self).shown()[index as int]
                && final(self).shown() == old(self).shown().update(index as int, final(x)@)),
    {
        if index < self.nodes.len() {
            Some(&mut self.nodes[index])
        } else {
            None
        }
    }

    /// The number of shown nodes.
    pub fn len(&self) -> (r: usize)
        ensures
            r == self.shown().len(),
    {
        self.nodes.len()
    }

    /// Whether no node is shown.
    pub fn is_empty(&self) -> (r: bool)
        ensures
            r == (self.shown().len() == 0),
    {
        self.nodes.len() == 0
    }

    /// Expands every directory of the tree, loading each directory that has
    /// no children from `listings` (see `expand_all_spec`); the shown list is
    /// recomputed unless the step asks for a listing or failed.
    pub fn expand_all(&mut self, listings: &Vec<DirListing>) -> (r: LoadStep)
        requires
            expand_all_fits(old(self).root_model(), listings@, old(self).hidden_shown()),
        ensures
            (final(self).root_model(), r@) == expand_all_spec(
                old(self).root_model(),
                listings@,
                old(self).hidden_shown(),
            ),
            old(self).well_formed() ==> final(self).well_formed(),
            final(self).hidden_shown() == old(self).hidden_shown(),
            r@ is Done ==> final(self).list_fresh(),
            !(r@ is Done) ==> final(self).shown() == old(self).shown() && final(self).positions_listed()
                == old(self).positions_listed(),
    {
        let show_hidden = self.show_hidden;
        let st = expand_all_recursive(&mut self.root, listings, show_hidden, Ghost(listings@));
        match st {
            LoadStep::Done => {
                self.rebuild_flat_list();
                LoadStep::Done
            },
            _ => st,
        }
    }

    /// The paths of the expanded directories of the tree, in the order they
    /// are shown.
    fn collect_expanded_paths(&self) -> (r: Vec<FsPath>)
        ensures
            path_views(r@) == collect_expanded(self.root_model()),
    {
        let mut paths: Vec<FsPath> = Vec::new();
        collect_expanded_recursive(&self.root, &mut paths);
        proof {
            assert(path_views(Seq::<FsPath>::empty()) =~= Seq::<Seq<Seq<u8>>>::empty());
            assert(path_views(paths@) =~= collect_expanded(self.root@));
        }
        paths
    }

    /// Rebuilds the tree from the listings read so far (see
    /// `refresh_spec`): a new root for the same path, whose children come
    /// from its listing, with every directory that was expanded expanded
    /// again. `root_is_dir` says whether the root's path is a directory.
    /// Nothing changes while a listing is still needed; when the root's
    /// listing could not be read, the root is replaced by an empty one and
    /// the shown list is left as it was.
    pub fn refresh(&mut self, root_is_dir: bool, listings: &Vec<DirListing>) -> (r: LoadStep)
        ensures
            (final(self).root_model(), r@) == refresh_spec(
                old(self).root_model(),
                root_is_dir,
                listings@,
                old(self).hidden_shown(),
            ),
            final(self).well_formed() || r@ is Need,
            final(self).hidden_shown() == old(self).hidden_shown(),
            r@ is Done ==> final(self).list_fresh(),
            !(r@ is Done) ==> final(self).shown() == old(self).shown() && final(self).positions_listed()
                == old(self).positions_listed(),
    {
        let expanded_paths = self.collect_expanded_paths();
        let ghost paths = path_views(expanded_paths@);
        let root_path = self.root.path.duplicate();
        let mut root = FileNode::at(root_path, root_is_dir, 0);
        root.name = self.root.name.clone();
        root.expanded = true;
        proof {
            assert(root@.children =~= Seq::<NodeModel>::empty());
        }
        let ghost r0 = root@;
        assert(r0 == expanded_as(named(fresh_node(old(self).root_model().path, root_is_dir, 0), old(self).root_model().name), true));
        let show_hidden = self.show_hidden;
        if root_is_dir {
            let st = load_from_listings(&mut root, listings, show_hidden);
            match st {
                LoadStep::NeedListing(p) => {
                    return LoadStep::NeedListing(p);
                },
                LoadStep::Failed => {
                    self.root = root;
                    return LoadStep::Failed;
                },
                LoadStep::Done => {},
            }
        }
        proof {
            if root_is_dir {
                lemma_fit_with_listing(r0, lookup_listing(listings@, r0.path)->0->0, show_hidden);
            }
        }
        let n = expanded_paths.len();
        for k in 0..n
            invariant
                n == expanded_paths@.len(),
                paths == path_views(expanded_paths@),
                paths == collect_expanded(old(self).root_model()),
                depths_fit(root@),
                r0 == expanded_as(named(fresh_node(old(self).root_model().path, root_is_dir, 0), old(self).root_model().name), true),
                root_is_dir ==> lookup_listing(listings@, r0.path) matches Some(Some(_)),
                self.root_model() == old(self).root_model(),
                self.hidden_shown() == old(self).hidden_shown(),
                self.shown() == old(self).shown(),
                self.positions_listed() == old(self).positions_listed(),
                show_hidden == self.show_hidden,
                restore_all(
                    if root_is_dir {
                        with_listing(r0, lookup_listing(listings@, r0.path)->0->0, show_hidden)
                    } else {
                        r0
                    },
                    paths,
                    0,
                    listings@,
                    show_hidden,
                ) == restore_all(root@, paths, k as int, listings@, show_hidden),
        {
            let ghost cur = root@;
            let need = restore_expanded_recursive(
                &mut root,
                &expanded_paths[k],
                show_hidden,
                listings,
                Ghost(listings@),
            );
            proof {
                assert(paths[k as int] == expanded_paths@[k as int]@);
                let (m2, nd) = restore_spec(cur, paths[k as int], listings@, show_hidden);
                if nd is None {
                    assert(restore_all(cur, paths, k as int, listings@, show_hidden) == restore_all(
                        root@,
                        paths,
                        k + 1,
                        listings@,
                        show_hidden,
                    ));
                } else {
                    assert(restore_all(cur, paths, k as int, listings@, show_hidden) == (m2, nd));
                }
            }
            if let Some(q) = need {
                proof {
                    let start = if root_is_dir {
                        with_listing(r0, lookup_listing(listings@, r0.path)->0->0, show_hidden)
                    } else {
                        r0
                    };
                    assert(restore_all(start, paths, 0, listings@, show_hidden).1 == Some(q@));
                    assert(root_is_dir ==> lookup_listing(listings@, r0.path) is Some);
                }
                return LoadStep::NeedListing(q);
            }
        }
        self.root = root;
        self.rebuild_flat_list();
        LoadStep::Done
    }

    /// Sets whether hidden entries are shown, then rebuilds the tree as
    /// `refresh` does.
    pub fn set_show_hidden(&mut self, show_hidden: bool, root_is_dir: bool, listings: &Vec<DirListing>) -> (r: LoadStep)
        ensures
            (final(self).root_model(), r@) == refresh_spec(
                old(self).root_model(),
                root_is_dir,
                listings@,
                show_hidden,
            ),
            final(self).well_formed() || r@ is Need,
            final(self).hidden_shown() == show_hidden,
            r@ is Done ==> final(self).list_fresh(),
            !(r@ is Done) ==> final(self).shown() == old(self).shown() && final(self).positions_listed()
                == old(self).positions_listed(),
    {
        self.show_hidden = show_hidden;
        self.refresh(root_is_dir, listings)
    }

    /// Collapses every node but the root, which is left expanded, and
    /// recomputes the shown list.
    pub fn collapse_all(&mut self)
        ensures
            final(self).root_model() == expanded_as(collapse_all_spec(old(self).root_model()), true),
            final(self).hidden_shown() == old(self).hidden_shown(),
            final(self).list_fresh(),
            old(self).well_formed() ==> final(self).well_formed(),
    {
        proof {
            if old(self).well_formed() {
                lemma_fit_collapse_all(old(self).root@);
                lemma_fit_expanded_as(collapse_all_spec(old(self).root@), true);
            }
        }
        collapse_all_recursive(&mut self.root);
        self.root.expanded = true;
        proof {
            assert(self.root@.children =~= collapse_all_spec(old(self).root@).children);
        }
        self.rebuild_flat_list();
    }

    /// Collapses the first shown node whose path is `target_path`, and
    /// recomputes the shown list.
    fn collapse_path(&mut self, target_path: &FsPath)
        ensures
            final(self).root_model() == at_first_hit(old(self).root_model(), target_path@, collapse_one()),
            final(self).hidden_shown() == old(self).hidden_shown(),
            final(self).list_fresh(),
            old(self).well_formed() ==> final(self).well_formed(),
    {
        proof {
            if old(self).well_formed() {
                lemma_fit_one_step(Seq::empty(), false);
                lemma_fit_at_first_hit(old(self).root@, target_path@, collapse_one());
            }
        }
        collapse_path_recursive(&mut self.root, target_path);
        self.rebuild_flat_list();
    }

    /// Expands the first shown node whose path is `target_path` (see
    /// `tree_expand`); the shown list is recomputed unless the step asks for
    /// a listing or failed.
    fn expand_path(&mut self, target_path: &FsPath, listings: &Vec<DirListing>) -> (r: LoadStep)
        requires
            hit_loads_fit(old(self).root_model(), target_path@, listings@, old(self).hidden_shown()),
        ensures
            r@ == tree_expand(old(self).root_model(), target_path@, listings@, old(self).hidden_shown()).1,
            final(self).root_model() == tree_expand(
                old(self).root_model(),
                target_path@,
                listings@,
                old(self).hidden_shown(),
            ).0,
            final(self).hidden_shown() == old(self).hidden_shown(),
            r@ is Done ==> final(self).list_fresh(),
            !(r@ is Done) ==> final(self).shown() == old(self).shown() && final(self).positions_listed()
                == old(self).positions_listed(),
            old(self).well_formed() ==> final(self).well_formed(),
    {
        proof {
            if old(self).well_formed() {
                lemma_fit_one_step(listings@, self.show_hidden);
                lemma_fit_at_first_hit(old(self).root@, target_path@, expand_fn(listings@, self.show_hidden));
            }
        }
        let show_hidden = self.show_hidden;
        let r = expand_path_recursive(&mut self.root, target_path, listings, show_hidden);
        match r {
            Some(LoadStep::NeedListing(p)) => LoadStep::NeedListing(p),
            Some(LoadStep::Failed) => LoadStep::Failed,
            _ => {
                proof {
                    if r is None {
                        lemma_no_hit_unchanged(old(self).root@, target_path@, expand_fn(listings@, show_hidden));
                    }
                }
                self.rebuild_flat_list();
                LoadStep::Done
            },
        }
    }

    /// Expands the node at `index` in the shown list when it is a collapsed
    /// directory (by its path: the first shown node with that path is
    /// expanded, see `tree_expand`); does nothing otherwise.
    pub fn expand_node(&mut self, index: usize, listings: &Vec<DirListing>) -> (r: LoadStep)
        requires
            index < old(self).shown().len() ==> hit_loads_fit(
                old(self).root_model(),
                old(self).shown()[index as int].path,
                listings@,
                old(self).hidden_shown(),
            ),
        ensures
            ({
                let n = old(self).shown()[index as int];
                let (root, st) = tree_expand(old(self).root_model(), n.path, listings@, old(self).hidden_shown());
                if index < old(self).shown().len() && n.is_dir && !n.expanded {
                    &&& r@ == st
                    &&& final(self).root_model() == root
                    &&& st is Done ==> final(self).list_fresh()
                    &&& !(st is Done) ==> final(self).shown() == old(self).shown()
                        && final(self).positions_listed() == old(self).positions_listed()
                } else {
                    &&& r@ is Done
                    &&& final(self).root_model() == old(self).root_model()
                    &&& final(self).shown() == old(self).shown()
                    &&& final(self).positions_listed() == old(self).positions_listed()
                }
            }),
            final(self).hidden_shown() == old(self).hidden_shown(),
            old(self).well_formed() ==> final(self).well_formed(),
    {
        if index < self.nodes.len() {
            let node = &self.nodes[index];
            if node.is_dir && !node.expanded {
                let path = node.path.duplicate();
                return self.expand_path(&path, listings);
            }
        }
        LoadStep::Done
    }

    /// Replaces the root by `new_root` when both have the same path.
    fn update_root(&mut self, new_root: FileNode)
        ensures
            final(self).root_model() == (if old(self).root_model().path == new_root@.path {
                new_root@
            } else {
                old(self).root_model()
            }),
            final(self).hidden_shown() == old(self).hidden_shown(),
            final(self).shown() == old(self).shown(),
            final(self).positions_listed() == old(self).positions_listed(),
    {
        if self.root.path.same_as(&new_root.path) {
            self.root = new_root;
        }
    }

    /// Toggles, on `node` (a copy of part of the tree), the first shown node
    /// whose path is `target_path`; the root takes the result when that node
    /// has the root's path and the toggle is done.
    fn toggle_expand_recursive(
        &mut self,
        node: &mut FileNode,
        target_path: &FsPath,
        listings: &Vec<DirListing>,
    ) -> (r: Option<LoadStep>)
        requires
            hit_loads_fit(old(node)@, target_path@, listings@, old(self).hidden_shown()),
        ensures
            r is Some <==> visible_has(old(node)@, target_path@),
            r matches Some(st) ==> st@ == toggle_one(
                first_visible(old(node)@, target_path@),
                listings@,
                old(self).hidden_shown(),
            ).1,
            final(self).root_model() == (if (r matches Some(st) && st@ is Done) && old(
                self,
            ).root_model().path == target_path@ {
                toggle_one(first_visible(old(node)@, target_path@), listings@, old(self).hidden_shown()).0
            } else {
                old(self).root_model()
            }),
            r is None ==> final(node)@ == old(node)@,
            final(self).hidden_shown() == old(self).hidden_shown(),
            final(self).shown() == old(self).shown(),
            final(self).positions_listed() == old(self).positions_listed(),
        decreases old(node)@,
    {
        proof {
            lemma_visible_has(old(node)@, target_path@);
        }
        if node.path.same_as(target_path) {
            let st = node.toggle_expand(self.show_hidden, listings);
            if let LoadStep::Done = st {
                let copy = copy_node(node);
                self.update_root(copy);
            }
            return Some(st);
        }
        if node.expanded {
            let n = node.children.len();
            proof {
                lemma_first_child_hit_bounds(old(node)@.children, target_path@, 0);
            }
            for i in 0..n
                invariant
                    node.children.len() == n,
                    old(node).children.len() == n,
                    node@ == old(node)@,
                    node.expanded,
                    node@.path != target_path@,
                    hit_loads_fit(old(node)@, target_path@, listings@, self.hidden_shown()),
                    first_child_hit(old(node)@.children, target_path@, 0) == first_child_hit(
                        old(node)@.children,
                        target_path@,
                        i as int,
                    ),
                    self.root_model() == old(self).root_model(),
                    self.hidden_shown() == old(self).hidden_shown(),
                    self.shown() == old(self).shown(),
                    self.positions_listed() == old(self).positions_listed(),
            {
                proof {
                    assert(node@.children[i as int] == node.children@[i as int]@);
                    assert(decreases_to!(old(node)@ => old(node)@.children));
                    assert(decreases_to!(old(node)@.children => old(node)@.children[i as int]));
                    lemma_hit_loads_fit_child(old(node)@, target_path@, i as int, listings@, self.hidden_shown());
                }
                let ghost before = *node;
                let r = self.toggle_expand_recursive(&mut node.children[i], target_path, listings);
                if r.is_some() {
                    proof {
                        let om = old(node)@;
                        assert(before@.children[i as int] == before.children@[i as int]@);
                        assert(visible_has(om.children[i as int], target_path@));
                        lemma_visible_has(om, target_path@);
                        assert(visible_has(om, target_path@));
                        assert(first_child_hit(om.children, target_path@, i as int) == i);
                        assert(first_visible(om, target_path@) == first_visible(
                            om.children[i as int],
                            target_path@,
                        ));
                    }
                    return r;
                }
                proof {
                    assert(before@.children[i as int] == before.children@[i as int]@);
                    assert forall|j: int| 0 <= j < n implies node@.children[j] == before@.children[j] by {
                        assert(node@.children[j] == node.children@[j]@);
                        assert(before@.children[j] == before.children@[j]@);
                    }
                    assert(node@.children =~= before@.children);
                }
            }
            proof {
                lemma_first_child_hit_bounds(old(node)@.children, target_path@, n as int);
            }
        }
        None
    }

    /// Toggles the node at `index` in the shown list (see `tree_toggle`):
    /// the toggle is made on a copy of the tree, and only a toggle of the
    /// root itself is kept. The shown list is recomputed unless the step asks
    /// for a listing or failed.
    pub fn toggle_expand(&mut self, index: usize, listings: &Vec<DirListing>) -> (r: LoadStep)
        requires
            index < old(self).shown().len() ==> hit_loads_fit(
                old(self).root_model(),
                old(self).shown()[index as int].path,
                listings@,
                old(self).hidden_shown(),
            ),
        ensures
            ({
                let t = old(self).shown()[index as int].path;
                let (root, st) = tree_toggle(old(self).root_model(), t, listings@, old(self).hidden_shown());
                if index < old(self).shown().len() {
                    &&& r@ == st
                    &&& final(self).root_model() == root
                    &&& st is Done ==> final(self).list_fresh()
                    &&& !(st is Done) ==> final(self).shown() == old(self).shown()
                        && final(self).positions_listed() == old(self).positions_listed()
                } else {
                    &&& r@ is Done
                    &&& final(self).root_model() == old(self).root_model()
                    &&& final(self).shown() == old(self).shown()
                    &&& final(self).positions_listed() == old(self).positions_listed()
                }
            }),
            final(self).hidden_shown() == old(self).hidden_shown(),
            old(self).well_formed() ==> final(self).well_formed(),
    {
        proof {
            if old(self).well_formed() {
                lemma_fit_one_step(listings@, self.show_hidden);
                lemma_fit_first_visible(self.root@, self.shown()[index as int].path);
            }
        }
        if index < self.nodes.len() {
            let path = self.nodes[index].path.duplicate();
            let mut copy = copy_node(&self.root);
            let r = self.toggle_expand_recursive(&mut copy, &path, listings);
            match r {
                Some(LoadStep::NeedListing(p)) => LoadStep::NeedListing(p),
                Some(LoadStep::Failed) => LoadStep::Failed,
                _ => {
                    self.rebuild_flat_list();
                    LoadStep::Done
                },
            }
        } else {
            LoadStep::Done
        }
    }

    /// Collapses the node at `index` in the shown list when it is an
    /// expanded directory (by its path: the first shown node with that path
    /// is collapsed), and then recomputes the shown list; does nothing
    /// otherwise.
    pub fn collapse_node(&mut self, index: usize)
        ensures
            ({
                let n = old(self).shown()[index as int];
                if index < old(self).shown().len() && n.is_dir && n.expanded {
                    &&& final(self).root_model() == at_first_hit(
                        old(self).root_model(),
                        n.path,
                        collapse_one(),
                    )
                    &&& final(self).list_fresh()
                } else {
                    &&& final(self).root_model() == old(self).root_model()
                    &&& final(self).shown() == old(self).shown()
                    &&& final(self).positions_listed() == old(self).positions_listed()
                }
            }),
            final(self).hidden_shown() == old(self).hidden_shown(),
            old(self).well_formed() ==> final(self).well_formed(),
    {
        if index < self.nodes.len() {
            let node = &self.nodes[index];
            if node.is_dir && node.expanded {
                let path = node.path.duplicate();
                self.collapse_path(&path);
            }
        }
    }

    /// Recomputes the shown list from the root.
    pub fn rebuild_flat_list(&mut self)
        ensures
            final(self).root_model() == old(self).root_model(),
            final(self).hidden_shown() == old(self).hidden_shown(),
            final(self).list_fresh(),
    {
        self.nodes.clear();
        self.flat_list.clear();
        let root = copy_node(&self.root);
        self.flatten_node(&root);
        assert(self.shown() =~= flat(self.root@));
        let n = self.nodes.len();
        for i in 0..n
            invariant
                n == self.nodes.len(),
                self.flat_list@ == positions(i as nat),
                self.root == old(self).root,
                self.show_hidden == old(self).show_hidden,
                self.shown() == flat(self.root@),
        {
            self.flat_list.push(i);
            assert(self.flat_list@ =~= positions((i + 1) as nat));
        }
    }

    /// Appends the shown nodes of `node` to the shown list.
    fn flatten_node(&mut self, node: &FileNode)
        ensures
            final(self).root == old(self).root,
            final(self).show_hidden == old(self).show_hidden,
            final(self).flat_list == old(self).flat_list,
            final(self).shown() == old(self).shown() + flat(node@),
        decreases node,
    {
        self.nodes.push(copy_node(node));
        proof {
            assert(self.shown() =~= old(self).shown() + seq![node@]);
        }
        if node.expanded {
            let n = node.children.len();
            for i in 0..n
                invariant
                    n == node.children.len(),
                    node.expanded,
                    self.root == old(self).root,
                    self.show_hidden == old(self).show_hidden,
                    self.flat_list == old(self).flat_list,
                    self.shown() == old(self).shown() + seq![node@] + flat_seq(
                        node@.children.subrange(0, i as int),
                    ),
            {
                proof {
                    assert(decreases_to!(node => node.children));
                    assert(decreases_to!(node.children => node.children@));
                    assert(decreases_to!(node.children@ => node.children@[i as int]));
                }
                let ghost before = self.shown();
                self.flatten_node(&node.children[i]);
                proof {
                    let s = node@.children.subrange(0, i + 1);
                    assert(s.drop_last() =~= node@.children.subrange(0, i as int));
                    assert(s.last() == node.children@[i as int]@);
                    assert(self.shown() =~= old(self).shown() + seq![node@] + flat_seq(s));
                }
            }
            proof {
                assert(node@.children.subrange(0, n as int) =~= node@.children);
            }
        }
    }
}

} // verus!
