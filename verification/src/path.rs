//! Filesystem paths as sequences of components.
//!
//! A path is held the way `std::path::Path::components` sees it on Unix: an
//! optional leading root component `/`, an optional leading `.`, then the
//! remaining components in order. Each component is held as the bytes the
//! system uses for it, so names that are not valid UTF-8 are kept exactly.
//! Two paths are equal, and one starts with another, exactly when their
//! component sequences are equal or one is a prefix of the other, as with
//! `Path`'s `==` and `starts_with`.
use vstd::prelude::*;

use crate::text::split_on;

verus! {

/// The byte of `/`, which separates components.
pub const SLASH: u8 = 47u8;

/// The byte of `.`.
pub const DOT: u8 = 46u8;

/// The component `/`.
pub open spec fn root_component() -> Seq<u8> {
    seq![SLASH]
}

/// The component `.`.
pub open spec fn cur_component() -> Seq<u8> {
    seq![DOT]
}

/// The component `..`.
pub open spec fn parent_component() -> Seq<u8> {
    seq![DOT, DOT]
}

/// A component that names an entry (not the root, not `.`, not `..`).
pub open spec fn is_normal_component(c: Seq<u8>) -> bool {
    c != root_component() && c != cur_component() && c != parent_component()
}

/// `base` is a component-wise prefix of `p`.
pub open spec fn path_starts_with(p: Seq<Seq<u8>>, base: Seq<Seq<u8>>) -> bool {
    base.len() <= p.len() && p.subrange(0, base.len() as int) == base
}

/// The last component of `p` when it names an entry.
pub open spec fn path_file_name(p: Seq<Seq<u8>>) -> Option<Seq<u8>> {
    if p.len() > 0 && is_normal_component(p.last()) {
        Some(p.last())
    } else {
        None
    }
}

/// The parent of `p`: `p` without its last component, unless `p` is empty or
/// ends in the root.
pub open spec fn path_parent(p: Seq<Seq<u8>>) -> Option<Seq<Seq<u8>>> {
    if p.len() == 0 || p.last() == root_component() {
        None
    } else {
        Some(p.drop_last())
    }
}

/// A piece of a path's text that makes a component when it stands after the
/// first: not empty and not `.`.
pub open spec fn kept_part(p: Seq<u8>) -> bool {
    p.len() > 0 && p != cur_component()
}

/// The pieces of `ps` that make components.
pub open spec fn keep_parts(ps: Seq<Seq<u8>>) -> Seq<Seq<u8>>
    decreases ps.len(),
{
    if ps.len() == 0 {
        seq![]
    } else if kept_part(ps.last()) {
        keep_parts(ps.drop_last()).push(ps.last())
    } else {
        keep_parts(ps.drop_last())
    }
}

/// The components that the pieces of `s` between `/` make.
pub open spec fn tail_parts(s: Seq<u8>) -> Seq<Seq<u8>> {
    keep_parts(split_on(s, SLASH))
}

/// The path starts with a `.` component.
pub open spec fn leading_dot(s: Seq<u8>) -> bool {
    s.len() > 0 && s[0] == DOT && (s.len() == 1 || s[1] == SLASH)
}

/// The components of the path whose bytes are `s`, as `Path::components`
/// gives them on Unix: a root when `s` starts with `/`, a `.` when it starts
/// with a `.` component, then every piece between `/` that is neither empty
/// nor `.`.
pub open spec fn parse_path(s: Seq<u8>) -> Seq<Seq<u8>> {
    (if s.len() > 0 && s[0] == SLASH {
        seq![root_component()]
    } else {
        seq![]
    }) + (if leading_dot(s) {
        seq![cur_component()]
    } else {
        seq![]
    }) + tail_parts(s)
}

/// The components of `base` joined with the path whose bytes are `s`, as
/// `Path::join` gives them: `s` alone when it is absolute or `base` is
/// empty, otherwise `base` followed by the components of `s` (where a
/// leading `.` is no longer leading).
pub open spec fn join_text(base: Seq<Seq<u8>>, s: Seq<u8>) -> Seq<Seq<u8>> {
    if (s.len() > 0 && s[0] == SLASH) || base.len() == 0 {
        parse_path(s)
    } else {
        base + tail_parts(s)
    }
}

/// The components held by a sequence of byte vectors.
pub open spec fn byte_views(v: Seq<Vec<u8>>) -> Seq<Seq<u8>> {
    v.map_values(|c: Vec<u8>| c@)
}

/// A copy of `b`.
pub fn copy_bytes(b: &[u8]) -> (r: Vec<u8>)
    ensures
        r@ == b@,
{
    let mut out: Vec<u8> = Vec::new();
    let n = b.len();
    for i in 0..n
        invariant
            n == b@.len(),
            out@ == b@.subrange(0, i as int),
    {
        out.push(b[i]);
        assert(out@ =~= b@.subrange(0, i + 1));
    }
    assert(b@.subrange(0, n as int) =~= b@);
    out
}

/// The components that the pieces of `cs` between `/` make.
pub fn tail_parts_of(cs: &Vec<u8>) -> (r: Vec<Vec<u8>>)
    ensures
        byte_views(r@) == tail_parts(cs@),
{
    let mut out: Vec<Vec<u8>> = Vec::new();
    let mut cur: Vec<u8> = Vec::new();
    let n = cs.len();
    for i in 0..n
        invariant
            n == cs@.len(),
            split_on(cs@.subrange(0, i as int), SLASH).len() >= 1,
            byte_views(out@) == keep_parts(split_on(cs@.subrange(0, i as int), SLASH).drop_last()),
            cur@ == split_on(cs@.subrange(0, i as int), SLASH).last(),
    {
        let c = cs[i];
        let ghost t = cs@.subrange(0, i + 1);
        proof {
            assert(t.drop_last() =~= cs@.subrange(0, i as int));
            assert(t.last() == c);
            crate::text::lemma_split_on_len(t, SLASH);
        }
        if c == SLASH {
            let ghost p0 = split_on(cs@.subrange(0, i as int), SLASH);
            let keep = cur.len() > 0 && !(cur.len() == 1 && cur[0] == DOT);
            proof {
                assert(keep == kept_part(cur@)) by {
                    if cur@ == cur_component() {
                        assert(cur@[0] == DOT);
                    }
                    if cur.len() == 1 && cur@[0] == DOT {
                        assert(cur@ =~= cur_component());
                    }
                }
                assert(split_on(t, SLASH) == p0.push(seq![]));
                assert(split_on(t, SLASH).drop_last() =~= p0);
            }
            let part = cur;
            cur = Vec::new();
            if keep {
                let ghost old_out = out@;
                let ghost pv = part@;
                out.push(part);
                proof {
                    assert(byte_views(out@) =~= byte_views(old_out).push(pv));
                }
            }
        } else {
            cur.push(c);
            proof {
                let p0 = split_on(cs@.subrange(0, i as int), SLASH);
                let p1 = split_on(t, SLASH);
                assert(p1 == p0.update(p0.len() - 1, p0.last().push(c)));
                assert(p1.drop_last() =~= p0.drop_last());
            }
        }
    }
    proof {
        assert(cs@.subrange(0, n as int) =~= cs@);
        let ps = split_on(cs@, SLASH);
        assert(ps =~= ps.drop_last().push(ps.last()));
    }
    let keep = cur.len() > 0 && !(cur.len() == 1 && cur[0] == DOT);
    proof {
        assert(keep == kept_part(cur@)) by {
            if cur@ == cur_component() {
                assert(cur@[0] == DOT);
            }
            if cur.len() == 1 && cur@[0] == DOT {
                assert(cur@ =~= cur_component());
            }
        }
    }
    if keep {
        let ghost old_out = out@;
        let ghost pv = cur@;
        out.push(cur);
        proof {
            assert(byte_views(out@) =~= byte_views(old_out).push(pv));
        }
    }
    out
}

/// Law: a path joined with the name of an entry starts with the path, has
/// the path as its parent, and names that entry.
pub proof fn law_join_name(p: Seq<Seq<u8>>, name: Seq<u8>)
    requires
        is_normal_component(name),
    ensures
        path_starts_with(p.push(name), p),
        path_parent(p.push(name)) == Some(p),
        path_file_name(p.push(name)) == Some(name),
{
    assert(p.push(name).subrange(0, p.len() as int) =~= p);
    assert(p.push(name).drop_last() =~= p);
}

/// A filesystem path, held as the bytes of its components.
#[derive(Debug, Clone)]
pub struct FsPath {
    pub components: Vec<Vec<u8>>,
}

impl View for FsPath {
    type V = Seq<Seq<u8>>;

    open spec fn view(&self) -> Seq<Seq<u8>> {
        byte_views(self.components@)
    }
}

/// Whether `c` is the component `/`.
fn is_root(c: &Vec<u8>) -> (r: bool)
    ensures
        r == (c@ == root_component()),
{
    if c.len() == 1 && c[0] == SLASH {
        assert(c@ =~= root_component());
        true
    } else {
        false
    }
}

/// Whether `c` names an entry (is not `/`, `.` or `..`).
fn is_normal(c: &Vec<u8>) -> (r: bool)
    ensures
        r == is_normal_component(c@),
{
    if c.len() == 1 && (c[0] == SLASH || c[0] == DOT) {
        assert(c@ =~= root_component() || c@ =~= cur_component());
        false
    } else if c.len() == 2 && c[0] == DOT && c[1] == DOT {
        assert(c@ =~= parent_component());
        false
    } else {
        true
    }
}

/// Whether two components are the same bytes.
fn same_bytes(a: &Vec<u8>, b: &Vec<u8>) -> (r: bool)
    ensures
        r == (a@ == b@),
{
    let n = a.len();
    if n != b.len() {
        return false;
    }
    for i in 0..n
        invariant
            n == a@.len(),
            n == b@.len(),
            forall|j: int| 0 <= j < i ==> a@[j] == b@[j],
    {
        if a[i] != b[i] {
            return false;
        }
    }
    assert(a@ =~= b@);
    true
}

impl FsPath {
    /// The path whose bytes are `cs`, as `Path::new` reads it on Unix.
    pub fn parse(cs: &Vec<u8>) -> (r: FsPath)
        ensures
            r@ == parse_path(cs@),
    {
        let mut comps: Vec<Vec<u8>> = Vec::new();
        let n = cs.len();
        let ghost first: Seq<Seq<u8>> = if cs@.len() > 0 && cs@[0] == SLASH {
            seq![root_component()]
        } else {
            Seq::<Seq<u8>>::empty()
        };
        let ghost second: Seq<Seq<u8>> = if leading_dot(cs@) {
            seq![cur_component()]
        } else {
            Seq::<Seq<u8>>::empty()
        };
        if n > 0 && cs[0] == SLASH {
            let mut root: Vec<u8> = Vec::new();
            root.push(SLASH);
            assert(root@ =~= root_component());
            comps.push(root);
        }
        assert(byte_views(comps@) =~= first);
        if n > 0 && cs[0] == DOT && (n == 1 || cs[1] == SLASH) {
            let mut dot: Vec<u8> = Vec::new();
            dot.push(DOT);
            assert(dot@ =~= cur_component());
            let ghost before = comps@;
            comps.push(dot);
            assert(byte_views(comps@) =~= byte_views(before).push(cur_component()));
        }
        let ghost lead = byte_views(comps@);
        assert(lead =~= first + second);
        let mut rest = tail_parts_of(cs);
        comps.append(&mut rest);
        let r = FsPath { components: comps };
        assert(r@ =~= parse_path(cs@));
        r
    }

    /// This path joined with the path whose bytes are `cs`, as `Path::join`
    /// gives it.
    pub fn join_text(&self, cs: &Vec<u8>) -> (r: FsPath)
        ensures
            r@ == join_text(self@, cs@),
    {
        if (cs.len() > 0 && cs[0] == SLASH) || self.components.len() == 0 {
            return FsPath::parse(cs);
        }
        let mut r = self.duplicate();
        let mut rest = tail_parts_of(cs);
        r.components.append(&mut rest);
        assert(r@ =~= self@ + tail_parts(cs@));
        r
    }

    /// The path made of the given components.
    pub fn from_components(components: Vec<Vec<u8>>) -> (r: FsPath)
        ensures
            r@ == byte_views(components@),
    {
        FsPath { components }
    }

    /// A copy of this path.
    pub fn duplicate(&self) -> (r: FsPath)
        ensures
            r@ == self@,
    {
        let mut out: Vec<Vec<u8>> = Vec::new();
        let n = self.components.len();
        for i in 0..n
            invariant
                n == self.components.len(),
                out@.len() == i,
                forall|j: int| 0 <= j < i ==> out@[j]@ == self.components@[j]@,
        {
            out.push(copy_bytes(self.components[i].as_slice()));
        }
        let r = FsPath { components: out };
        assert(r@ =~= self@);
        r
    }

    /// Whether two paths have the same components.
    pub fn same_as(&self, other: &FsPath) -> (r: bool)
        ensures
            r == (self@ == other@),
    {
        let n = self.components.len();
        if n != other.components.len() {
            assert(self@.len() != other@.len());
            return false;
        }
        for i in 0..n
            invariant
                n == self.components.len(),
                n == other.components.len(),
                forall|j: int| 0 <= j < i ==> self@[j] == other@[j],
        {
            if !same_bytes(&self.components[i], &other.components[i]) {
                assert(self@[i as int] != other@[i as int]);
                return false;
            }
        }
        assert(self@ =~= other@);
        true
    }

    /// Whether `base` is a component-wise prefix of this path.
    pub fn starts_with(&self, base: &FsPath) -> (r: bool)
        ensures
            r == path_starts_with(self@, base@),
    {
        let n = base.components.len();
        if n > self.components.len() {
            return false;
        }
        for i in 0..n
            invariant
                n == base.components.len(),
                n <= self.components.len(),
                forall|j: int| 0 <= j < i ==> self@[j] == base@[j],
        {
            if !same_bytes(&self.components[i], &base.components[i]) {
                assert(self@.subrange(0, n as int)[i as int] != base@[i as int]);
                return false;
            }
        }
        assert(self@.subrange(0, n as int) =~= base@);
        true
    }

    /// This path with one more component, `name`, at its end.
    pub fn join_name(&self, name: &Vec<u8>) -> (r: FsPath)
        ensures
            r@ == self@.push(name@),
    {
        let mut r = self.duplicate();
        r.components.push(copy_bytes(name.as_slice()));
        assert(r@ =~= self@.push(name@));
        r
    }

    /// The last component, when it names an entry.
    pub fn file_name(&self) -> (r: Option<Vec<u8>>)
        ensures
            match r {
                Some(s) => path_file_name(self@) == Some(s@),
                None => path_file_name(self@) is None,
            },
    {
        let n = self.components.len();
        if n == 0 {
            return None;
        }
        let last = &self.components[n - 1];
        if is_normal(last) {
            Some(copy_bytes(last.as_slice()))
        } else {
            None
        }
    }

    /// The parent of this path, as `Path::parent` gives it.
    pub fn parent(&self) -> (r: Option<FsPath>)
        ensures
            match r {
                Some(q) => path_parent(self@) == Some(q@),
                None => path_parent(self@) is None,
            },
    {
        let n = self.components.len();
        if n == 0 || is_root(&self.components[n - 1]) {
            None
        } else {
            let mut out: Vec<Vec<u8>> = Vec::new();
            for i in 0..n - 1
                invariant
                    n == self.components.len(),
                    n > 0,
                    out@.len() == i,
                    forall|j: int| 0 <= j < i ==> out@[j]@ == self.components@[j]@,
            {
                out.push(copy_bytes(self.components[i].as_slice()));
            }
            let q = FsPath { components: out };
            assert(q@ =~= self@.drop_last());
            Some(q)
        }
    }
}

} // verus!
