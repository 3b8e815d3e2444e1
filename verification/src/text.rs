//! Character-level text helpers: conversion between `str` and `Vec<char>`,
//! Unicode whitespace, trimming, splitting at a character, and line
//! splitting with the meaning that `str::trim`, `str::split_once` and
//! `str::lines` give them.

use vstd::prelude::*;

verus! {

/// The characters of `s`, in order.
pub fn chars_of(s: &str) -> (r: Vec<char>)
    ensures
        r@ == s@,
{
    broadcast use vstd::string::group_string_axioms;

    let mut out: Vec<char> = Vec::new();
    for c in it: s.chars()
        invariant
            out@ == it.seq().take(it.index() as int),
            it.seq() == s@,
    {
        out.push(c);
    }
    out
}

/// Collects characters into a `String` (`FromIterator<&char> for String`).
#[verifier::external_body]
pub(crate) fn string_of(chars: &[char]) -> (r: String)
    ensures
        r@ == chars@,
{
    chars.iter().collect()
}

/// The characters with the Unicode `White_Space` property, which is what
/// `char::is_whitespace` tests.
pub open spec fn is_ws(c: char) -> bool {
    ||| ('\u{9}' <= c && c <= '\u{d}')
    ||| c == ' '
    ||| c == '\u{85}'
    ||| c == '\u{a0}'
    ||| c == '\u{1680}'
    ||| ('\u{2000}' <= c && c <= '\u{200a}')
    ||| c == '\u{2028}'
    ||| c == '\u{2029}'
    ||| c == '\u{202f}'
    ||| c == '\u{205f}'
    ||| c == '\u{3000}'
}

pub fn is_whitespace(c: char) -> (r: bool)
    ensures
        r == is_ws(c),
{
    ('\u{9}' <= c && c <= '\u{d}') || c == ' ' || c == '\u{85}' || c == '\u{a0}' || c
        == '\u{1680}' || ('\u{2000}' <= c && c <= '\u{200a}') || c == '\u{2028}' || c
        == '\u{2029}' || c == '\u{202f}' || c == '\u{205f}' || c == '\u{3000}'
}

/// `s` without its leading whitespace.
pub open spec fn trim_start(s: Seq<char>) -> Seq<char>
    decreases s.len(),
{
    if s.len() > 0 && is_ws(s[0]) {
        trim_start(s.drop_first())
    } else {
        s
    }
}

/// `s` without its trailing whitespace.
pub open spec fn trim_end(s: Seq<char>) -> Seq<char>
    decreases s.len(),
{
    if s.len() > 0 && is_ws(s.last()) {
        trim_end(s.drop_last())
    } else {
        s
    }
}

/// `s` without leading and trailing whitespace (`str::trim`).
pub open spec fn trim(s: Seq<char>) -> Seq<char> {
    trim_end(trim_start(s))
}

/// The index of the first `c` in `s`, or `s.len()` when there is none.
pub open spec fn find(s: Seq<char>, c: char) -> int
    decreases s.len(),
{
    if s.len() == 0 {
        0
    } else if s[0] == c {
        0
    } else {
        1 + find(s.drop_first(), c)
    }
}

/// `s` holds no `c`.
pub open spec fn lacks(s: Seq<char>, c: char) -> bool {
    forall|i: int| 0 <= i < s.len() ==> s[i] != c
}

/// `s` holds no whitespace.
pub open spec fn no_ws(s: Seq<char>) -> bool {
    forall|i: int| 0 <= i < s.len() ==> !is_ws(#[trigger] s[i])
}

pub proof fn lemma_find(s: Seq<char>, c: char)
    ensures
        0 <= find(s, c) <= s.len(),
        forall|j: int| 0 <= j < find(s, c) ==> s[j] != c,
        find(s, c) < s.len() ==> s[find(s, c)] == c,
    decreases s.len(),
{
    if s.len() > 0 && s[0] != c {
        lemma_find(s.drop_first(), c);
        assert forall|j: int| 0 <= j < find(s, c) implies s[j] != c by {
            if j > 0 {
                assert(s[j] == s.drop_first()[j - 1]);
            }
        }
    }
}

/// `find` is the first occurrence: any index before which `c` does not
/// occur and at which `c` occurs (or the end) is `find`.
pub proof fn lemma_find_at(s: Seq<char>, c: char, k: int)
    requires
        0 <= k <= s.len(),
        forall|j: int| 0 <= j < k ==> s[j] != c,
        k < s.len() ==> s[k] == c,
    ensures
        find(s, c) == k,
    decreases s.len(),
{
    if s.len() > 0 && s[0] != c {
        assert forall|j: int| 0 <= j < k - 1 implies s.drop_first()[j] != c by {
            assert(s.drop_first()[j] == s[j + 1]);
        }
        lemma_find_at(s.drop_first(), c, k - 1);
    }
}

pub proof fn lemma_trim_start_no_ws(s: Seq<char>)
    requires
        s.len() == 0 || !is_ws(s[0]),
    ensures
        trim_start(s) == s,
{
}

pub proof fn lemma_trim_end_no_ws(s: Seq<char>)
    requires
        s.len() == 0 || !is_ws(s.last()),
    ensures
        trim_end(s) == s,
{
}

/// Trimming text whose ends are not whitespace leaves it as it is.
pub proof fn lemma_trim_no_ws(s: Seq<char>)
    requires
        no_ws(s),
    ensures
        trim(s) == s,
{
    if s.len() > 0 {
        assert(!is_ws(s[0]));
        assert(!is_ws(s[s.len() - 1]));
    }
    lemma_trim_start_no_ws(s);
    lemma_trim_end_no_ws(s);
}

/// One leading whitespace character goes with `trim_start`.
pub proof fn lemma_trim_space_prefix(s: Seq<char>)
    requires
        no_ws(s),
    ensures
        trim(seq![' '] + s) == s,
{
    let t = seq![' '] + s;
    assert(t.drop_first() =~= s);
    assert(trim_start(t) == trim_start(s));
    lemma_trim_no_ws(s);
}

pub fn trim_start_len(v: &[char]) -> (n: usize)
    ensures
        n <= v@.len(),
        trim_start(v@) == v@.skip(n as int),
{
    let mut i: usize = 0;
    assert(v@.skip(0) =~= v@);
    while i < v.len() && is_whitespace(v[i])
        invariant
            i <= v@.len(),
            trim_start(v@) == trim_start(v@.skip(i as int)),
        decreases v@.len() - i,
    {
        assert(v@.skip(i as int).drop_first() =~= v@.skip(i + 1));
        i = i + 1;
    }
    i
}

/// `v` without leading and trailing whitespace.
pub fn trim_chars(v: &[char]) -> (r: Vec<char>)
    ensures
        r@ == trim(v@),
{
    let start = trim_start_len(v);
    let mut end: usize = v.len();
    while end > start && is_whitespace(v[end - 1])
        invariant
            start <= end <= v@.len(),
            trim(v@) == trim_end(v@.subrange(start as int, end as int)),
            trim_start(v@) == v@.skip(start as int),
        decreases end,
    {
        assert(v@.subrange(start as int, end as int).drop_last() =~= v@.subrange(
            start as int,
            end - 1,
        ));
        end = end - 1;
    }
    assert(trim_start(v@) =~= v@.subrange(start as int, v@.len() as int));
    let mut out: Vec<char> = Vec::new();
    let mut k: usize = start;
    while k < end
        invariant
            start <= k <= end <= v@.len(),
            out@ == v@.subrange(start as int, k as int),
        decreases end - k,
    {
        out.push(v[k]);
        k = k + 1;
        assert(out@ =~= v@.subrange(start as int, k as int));
    }
    proof {
        let t = v@.subrange(start as int, end as int);
        assert(t.len() == 0 || !is_ws(t.last()));
        lemma_trim_end_no_ws(t);
    }
    out
}

/// `s` split at its first `c`, that character dropped (`str::split_once`).
pub open spec fn split_once(s: Seq<char>, c: char) -> Option<(Seq<char>, Seq<char>)> {
    let i = find(s, c);
    if i < s.len() {
        Some((s.take(i), s.skip(i + 1)))
    } else {
        None
    }
}

pub fn find_char(v: &[char], c: char) -> (i: usize)
    ensures
        i == find(v@, c),
{
    let mut i: usize = 0;
    while i < v.len() && v[i] != c
        invariant
            i <= v@.len(),
            forall|j: int| 0 <= j < i ==> v@[j] != c,
        decreases v@.len() - i,
    {
        i = i + 1;
    }
    proof {
        lemma_find_at(v@, c, i as int);
    }
    i
}

pub fn copy_range(v: &[char], from: usize, to: usize) -> (r: Vec<char>)
    requires
        from <= to <= v@.len(),
    ensures
        r@ == v@.subrange(from as int, to as int),
{
    let mut out: Vec<char> = Vec::new();
    let mut k: usize = from;
    while k < to
        invariant
            from <= k <= to <= v@.len(),
            out@ == v@.subrange(from as int, k as int),
        decreases to - k,
    {
        out.push(v[k]);
        k = k + 1;
        assert(out@ =~= v@.subrange(from as int, k as int));
    }
    out
}

/// `s` without one trailing carriage return.
pub open spec fn strip_cr(s: Seq<char>) -> Seq<char> {
    if s.len() > 0 && s.last() == '\r' {
        s.drop_last()
    } else {
        s
    }
}

/// The lines of `s` as `str::lines` yields them: split after each `'\n'`,
/// a line ending in `"\r\n"` loses both characters, and a final line
/// without a newline is kept as it is.
pub open spec fn lines(s: Seq<char>) -> Seq<Seq<char>>
    decreases s.len(),
{
    if s.len() == 0 {
        seq![]
    } else {
        let i = find(s, '\n');
        if i < s.len() {
            if 0 <= i {
                seq![strip_cr(s.take(i))] + lines(s.skip(i + 1))
            } else {
                seq![]
            }
        } else {
            seq![s]
        }
    }
}

/// A line followed by a newline is the first of the lines.
pub proof fn lemma_lines_cons(a: Seq<char>, rest: Seq<char>)
    requires
        lacks(a, '\n'),
        a.len() == 0 || a.last() != '\r',
    ensures
        lines(a + seq!['\n'] + rest) == seq![a] + lines(rest),
{
    let s = a + seq!['\n'] + rest;
    lemma_find_at(s, '\n', a.len() as int);
    assert(s.take(a.len() as int) =~= a);
    assert(s.skip(a.len() + 1int) =~= rest);
}

pub fn strip_cr_vec(v: Vec<char>) -> (r: Vec<char>)
    ensures
        r@ == strip_cr(v@),
{
    let mut v = v;
    if v.len() > 0 && v[v.len() - 1] == '\r' {
        v.pop();
    }
    v
}

/// Pushing a line extends the deep view by that line.
pub(crate) proof fn lemma_push_deep_view(before: Seq<Seq<char>>, out: Vec<Vec<char>>, lv: Seq<char>)
    requires
        out@.len() > 0,
        out@.last()@ == lv,
        out.deep_view().drop_last() == before,
    ensures
        out.deep_view() == before + seq![lv],
{
    let d = out.deep_view();
    assert(d.last() =~= lv);
    assert(d =~= d.drop_last() + seq![d.last()]);
}

/// The lines of `v` (`str::lines`).
pub fn split_lines(v: &[char]) -> (r: Vec<Vec<char>>)
    ensures
        r.deep_view() == lines(v@),
{
    let mut out: Vec<Vec<char>> = Vec::new();
    let mut pos: usize = 0;
    assert(v@.skip(0) =~= v@);
    assert(out.deep_view() =~= Seq::<Seq<char>>::empty());
    while pos < v.len()
        invariant
            pos <= v@.len(),
            lines(v@) == out.deep_view() + lines(v@.skip(pos as int)),
        decreases v@.len() - pos,
    {
        let ghost rest = v@.skip(pos as int);
        let mut i: usize = pos;
        while i < v.len() && v[i] != '\n'
            invariant
                pos <= i <= v@.len(),
                forall|j: int| pos <= j < i ==> v@[j] != '\n',
            decreases v@.len() - i,
        {
            i = i + 1;
        }
        proof {
            lemma_find_at(rest, '\n', i - pos);
        }
        let line = copy_range(v, pos, i);
        assert(line@ =~= rest.take(i - pos));
        if i < v.len() {
            let line = strip_cr_vec(line);
            let ghost before = out.deep_view();
            let ghost lv = line@;
            out.push(line);
            proof {
                assert(rest.skip(i - pos + 1) =~= v@.skip(i + 1));
                assert(out.deep_view().drop_last() =~= before);
                lemma_push_deep_view(before, out, lv);
            }
            pos = i + 1;
        } else {
            let ghost before = out.deep_view();
            let ghost lv = line@;
            out.push(line);
            proof {
                assert(rest =~= lv);
                assert(out.deep_view().drop_last() =~= before);
                lemma_push_deep_view(before, out, lv);
                assert(v@.skip(v@.len() as int) =~= Seq::<char>::empty());
            }
            pos = v.len();
        }
    }
    proof {
        assert(v@.skip(pos as int) =~= Seq::<char>::empty());
        assert(out.deep_view() + Seq::<Seq<char>>::empty() =~= out.deep_view());
    }
    out
}

/// Whether two character sequences are equal.
pub fn chars_eq(a: &[char], b: &[char]) -> (r: bool)
    ensures
        r == (a@ == b@),
{
    if a.len() != b.len() {
        return false;
    }
    let mut i: usize = 0;
    while i < a.len()
        invariant
            a@.len() == b@.len(),
            i <= a@.len(),
            forall|j: int| 0 <= j < i ==> a@[j] == b@[j],
        decreases a@.len() - i,
    {
        if a[i] != b[i] {
            return false;
        }
        i = i + 1;
    }
    assert(a@ =~= b@);
    true
}

} // verus!
