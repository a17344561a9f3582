//! Small facts about text used by the rest of the library.
use vstd::prelude::*;
use vstd::std_specs::iter::IteratorSpec;
use vstd::utf8::{decode_utf8, encode_utf8, valid_utf8};
use vstd::string::StringSliceAdditionalSpecFns;

use crate::path::copy_bytes;

verus! {

/// What `String::from_utf8_lossy` gives for the bytes `b`: their text, with
/// each sequence that is not valid UTF-8 replaced by U+FFFD.
pub uninterp spec fn lossy_text(b: Seq<u8>) -> Seq<char>;

/// The text of the bytes `b`, by `String::from_utf8_lossy`: the result is
/// `lossy_text(b)`, and the decoded text itself when `b` is valid UTF-8 (the
/// function's documentation says it then returns the text unchanged).
#[verifier::external_body]
pub(crate) fn text_of_bytes(b: &Vec<u8>) -> (r: String)
    ensures
        r@ == lossy_text(b@),
        valid_utf8(b@) ==> r@ == decode_utf8(b@),
{
    String::from_utf8_lossy(b).into_owned()
}

/// The characters of `s`, in order.
pub fn chars_of(s: &str) -> (r: Vec<char>)
    ensures
        r@ == s@,
{
    broadcast use vstd::string::group_string_axioms;

    let mut out: Vec<char> = Vec::new();
    let mut it = s.chars();
    loop
        invariant
            it.obeys_prophetic_iter_laws(),
            out@ + it.remaining() == s@,
            it.decrease() is Some,
        decreases it.decrease()->0,
    {
        let ghost before = it.remaining();
        match it.next() {
            Some(c) => {
                out.push(c);
                assert(out@ + it.remaining() =~= s@);
            },
            None => {
                assert(out@ =~= s@);
                return out;
            },
        }
    }
}

/// `String::push` appends one character to the end of the string.
pub assume_specification[ String::push ](s: &mut String, ch: char)
    ensures
        final(s)@ == old(s)@.push(ch),
;

/// The text made of the characters of `cs` from `from` up to `to`.
pub fn string_from_chars(cs: &Vec<char>, from: usize, to: usize) -> (r: String)
    requires
        from <= to <= cs@.len(),
    ensures
        r@ == cs@.subrange(from as int, to as int),
{
    let mut r = String::new();
    let mut i = from;
    while i < to
        invariant
            from <= i <= to,
            to <= cs@.len(),
            r@ == cs@.subrange(from as int, i as int),
        decreases to - i,
    {
        r.push(cs[i]);
        i = i + 1;
        assert(r@ =~= cs@.subrange(from as int, i as int));
    }
    r
}

/// The characters of `cs` from `from` up to `to`.
pub fn sub_chars(cs: &Vec<char>, from: usize, to: usize) -> (r: Vec<char>)
    requires
        from <= to <= cs@.len(),
    ensures
        r@ == cs@.subrange(from as int, to as int),
{
    let mut r: Vec<char> = Vec::new();
    let mut i = from;
    while i < to
        invariant
            from <= i <= to,
            to <= cs@.len(),
            r@ == cs@.subrange(from as int, i as int),
        decreases to - i,
    {
        r.push(cs[i]);
        i = i + 1;
        assert(r@ =~= cs@.subrange(from as int, i as int));
    }
    r
}

/// The UTF-8 bytes of the characters `cs`.
pub fn bytes_of_chars(cs: &Vec<char>) -> (r: Vec<u8>)
    ensures
        r@ == encode_utf8(cs@),
{
    let s = string_from_chars(cs, 0, cs.len());
    proof {
        assert(cs@.subrange(0, cs@.len() as int) =~= cs@);
    }
    copy_bytes(s.as_str().as_bytes())
}

/// The pieces of `s` between the occurrences of `sep`: one more piece than
/// there are occurrences, some of them possibly empty.
pub open spec fn split_on<A>(s: Seq<A>, sep: A) -> Seq<Seq<A>>
    decreases s.len(),
{
    if s.len() == 0 {
        seq![seq![]]
    } else {
        let p = split_on(s.drop_last(), sep);
        if s.last() == sep {
            p.push(seq![])
        } else {
            p.update(p.len() - 1, p.last().push(s.last()))
        }
    }
}

/// Splitting always gives at least one piece.
pub proof fn lemma_split_on_len<A>(s: Seq<A>, sep: A)
    ensures
        split_on(s, sep).len() >= 1,
    decreases s.len(),
{
    if s.len() > 0 {
        lemma_split_on_len(s.drop_last(), sep);
    }
}

/// `l` without a last carriage return.
pub open spec fn strip_cr(l: Seq<char>) -> Seq<char> {
    if l.len() > 0 && l.last() == '\r' {
        l.drop_last()
    } else {
        l
    }
}

/// The lines of `s`, as `str::lines` gives them: split at each `\n`, a `\r`
/// just before a `\n` dropped, and no empty last line after a final `\n`.
pub open spec fn text_lines(s: Seq<char>) -> Seq<Seq<char>> {
    let ps = split_on(s, '\n');
    let done = ps.drop_last().map_values(|l: Seq<char>| strip_cr(l));
    if ps.last().len() > 0 {
        done.push(ps.last())
    } else {
        done
    }
}

/// The characters of a sequence of character vectors.
pub open spec fn char_views(v: Seq<Vec<char>>) -> Seq<Seq<char>> {
    v.map_values(|l: Vec<char>| l@)
}

/// The lines of `cs`, as `str::lines` gives them.
pub fn lines_of(cs: &Vec<char>) -> (r: Vec<Vec<char>>)
    ensures
        char_views(r@) == text_lines(cs@),
{
    let mut out: Vec<Vec<char>> = Vec::new();
    let mut cur: Vec<char> = Vec::new();
    let n = cs.len();
    for i in 0..n
        invariant
            n == cs@.len(),
            split_on(cs@.subrange(0, i as int), '\n').len() >= 1,
            char_views(out@) == split_on(cs@.subrange(0, i as int), '\n').drop_last().map_values(
                |l: Seq<char>| strip_cr(l),
            ),
            cur@ == split_on(cs@.subrange(0, i as int), '\n').last(),
    {
        let c = cs[i];
        let ghost t = cs@.subrange(0, i + 1);
        proof {
            assert(t.drop_last() =~= cs@.subrange(0, i as int));
            assert(t.last() == c);
            lemma_split_on_len(t, '\n');
        }
        if c == '\n' {
            let k = cur.len();
            let line = if k > 0 && cur[k - 1] == '\r' {
                let mut l = cur;
                l.pop();
                l
            } else {
                cur
            };
            proof {
                assert(line@ == strip_cr(split_on(cs@.subrange(0, i as int), '\n').last()));
            }
            let ghost old_out = out@;
            out.push(line);
            cur = Vec::new();
            proof {
                let p0 = split_on(cs@.subrange(0, i as int), '\n');
                assert(split_on(t, '\n') == p0.push(seq![]));
                assert(split_on(t, '\n').drop_last() =~= p0);
                assert(p0 =~= p0.drop_last().push(p0.last()));
                assert(char_views(out@) =~= char_views(old_out).push(out@[out@.len() - 1]@));
                assert(char_views(out@) =~= p0.map_values(|l: Seq<char>| strip_cr(l)));
                assert(cur@ =~= split_on(t, '\n').last());
            }
        } else {
            cur.push(c);
            proof {
                let p0 = split_on(cs@.subrange(0, i as int), '\n');
                let p1 = split_on(t, '\n');
                assert(p1 == p0.update(p0.len() - 1, p0.last().push(c)));
                assert(p1.drop_last() =~= p0.drop_last());
            }
        }
    }
    proof {
        assert(cs@.subrange(0, n as int) =~= cs@);
    }
    if cur.len() > 0 {
        out.push(cur);
        proof {
            let ps = split_on(cs@, '\n');
            assert(char_views(out@) =~= ps.drop_last().map_values(|l: Seq<char>| strip_cr(l)).push(ps.last()));
        }
    }
    out
}

/// Whether `c` is white space (the Unicode `White_Space` property, as
/// `char::is_whitespace` has it).
pub open spec fn is_white(c: char) -> bool {
    ('\u{9}' <= c <= '\u{d}') || c == ' ' || c == '\u{85}' || c == '\u{a0}' || c == '\u{1680}'
        || ('\u{2000}' <= c <= '\u{200a}') || c == '\u{2028}' || c == '\u{2029}' || c == '\u{202f}'
        || c == '\u{205f}' || c == '\u{3000}'
}

/// Whether `c` is white space.
pub fn char_is_white(c: char) -> (r: bool)
    ensures
        r == is_white(c),
{
    ('\u{9}' <= c && c <= '\u{d}') || c == ' ' || c == '\u{85}' || c == '\u{a0}' || c == '\u{1680}'
        || ('\u{2000}' <= c && c <= '\u{200a}') || c == '\u{2028}' || c == '\u{2029}' || c
        == '\u{202f}' || c == '\u{205f}' || c == '\u{3000}'
}

/// The first position at or after `i` that does not hold white space, or
/// the length of `s`.
pub open spec fn skip_white_from(s: Seq<char>, i: int) -> int
    decreases s.len() - i,
{
    if i < 0 || i >= s.len() {
        s.len() as int
    } else if is_white(s[i]) {
        skip_white_from(s, i + 1)
    } else {
        i
    }
}

/// The end of `s.take(j)` once white space at its end is dropped.
pub open spec fn trim_end_at(s: Seq<char>, j: int) -> int
    decreases j,
{
    if j <= 0 || j > s.len() {
        0
    } else if is_white(s[j - 1]) {
        trim_end_at(s, j - 1)
    } else {
        j
    }
}

/// `s` without white space at its start and its end, as `str::trim` gives
/// it.
pub open spec fn trimmed(s: Seq<char>) -> Seq<char> {
    let a = skip_white_from(s, 0);
    if a >= s.len() {
        seq![]
    } else {
        s.subrange(a, trim_end_at(s, s.len() as int))
    }
}

proof fn lemma_trim_end_at_bound(s: Seq<char>, j: int, a: int)
    requires
        0 <= a < j <= s.len(),
        !is_white(s[a]),
    ensures
        a < trim_end_at(s, j) <= j,
    decreases j,
{
    if is_white(s[j - 1]) {
        lemma_trim_end_at_bound(s, j - 1, a);
    }
}

proof fn lemma_skip_white_bound(s: Seq<char>, i: int)
    requires
        0 <= i <= s.len(),
    ensures
        i <= skip_white_from(s, i) <= s.len(),
        skip_white_from(s, i) < s.len() ==> !is_white(s[skip_white_from(s, i)]),
    decreases s.len() - i,
{
    if i < s.len() && is_white(s[i]) {
        lemma_skip_white_bound(s, i + 1);
    }
}

/// The characters of `s` without white space at its start and its end.
pub fn trim_chars(cs: &Vec<char>) -> (r: String)
    ensures
        r@ == trimmed(cs@),
{
    let n = cs.len();
    let mut a: usize = 0;
    while a < n && char_is_white(cs[a])
        invariant
            n == cs@.len(),
            a <= n,
            skip_white_from(cs@, 0) == skip_white_from(cs@, a as int),
        decreases n - a,
    {
        a = a + 1;
    }
    if a >= n {
        return String::new();
    }
    let mut b: usize = n;
    proof {
        lemma_trim_end_at_bound(cs@, n as int, a as int);
    }
    while b > a + 1 && char_is_white(cs[b - 1])
        invariant
            n == cs@.len(),
            a < b <= n,
            !is_white(cs@[a as int]),
            trim_end_at(cs@, n as int) == trim_end_at(cs@, b as int),
        decreases b,
    {
        b = b - 1;
    }
    string_from_chars(cs, a, b)
}

} // verus!
