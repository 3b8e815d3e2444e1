//! Dotenv text: parsing it into pairs, and the line edits behind `set` and
//! `unset`.
//!
//! The edits work line by line. A line assigns a variable when, after
//! leading whitespace and an optional `export` word, it starts with the
//! name, optional whitespace and `=`; that is where dotenv's own parser
//! ends a name. Edited text is written back one line per `\n`.

use vstd::prelude::*;

use crate::text::{
    chars_of, copy_range, find, is_whitespace, is_ws, lacks, lemma_find, lemma_lines_cons,
    lemma_push_deep_view, lines, strip_cr,
    split_lines, string_of, trim_start,
};
use crate::vars::{is_ascii_alphanumeric, valid_name};

verus! {

// ---------------------------------------------------------------------------
// Parsing
// ---------------------------------------------------------------------------

/// What dotenvy reads from these bytes when the environment defines no
/// variable: `None` when it rejects them, else the name/value pairs in
/// order. Whether it accepts them, and the names, never depend on the
/// environment; only values with a `$` reference do.
pub uninterp spec fn dotenv_read(bytes: Seq<u8>) -> Option<Seq<(Seq<char>, Seq<char>)>>;

/// The dollar sign, which starts a substitution.
pub open spec fn dollar() -> u8 {
    36u8
}

/// Parses dotenv text with `dotenvy::from_read_iter` and collects the
/// pairs up to the first item that fails, which is given by its message.
/// Claimed: it succeeds exactly when dotenvy accepts the bytes; the names
/// are those dotenvy reads, and so are the values when the bytes hold no
/// `$` (then no substitution consults the process environment).
#[verifier::external_body]
fn dotenv_pairs(bytes: &[u8]) -> (r: Result<Vec<(String, String)>, String>)
    ensures
        match r {
            Ok(v) => dotenv_read(bytes@) matches Some(ps) && ps.len() == v@.len() && forall|i: int|
                0 <= i < ps.len() ==> (#[trigger] v@[i]).0@ == ps[i].0 && (!bytes@.contains(
                    dollar(),
                ) ==> v@[i].1@ == ps[i].1),
            Err(_) => dotenv_read(bytes@) is None,
        },
{
    dotenvy::from_read_iter(std::io::Cursor::new(bytes)).collect::<Result<Vec<_>, _>>().map_err(
        |e| e.to_string(),
    )
}

/// Dotenv text that could not be parsed; the parser's message.
#[derive(Debug)]
pub struct EnvParseError {
    pub cause: String,
}

/// The pairs of dotenv-format bytes, in file order; quoting, comments and
/// blank lines are handled by dotenvy.
pub fn parse(bytes: &[u8]) -> (r: Result<Vec<(String, String)>, EnvParseError>)
    ensures
        match dotenv_read(bytes@) {
            None => r is Err,
            Some(ps) => r matches Ok(v) && v@.len() == ps.len() && forall|i: int|
                0 <= i < ps.len() ==> (#[trigger] v@[i]).0@ == ps[i].0 && (!bytes@.contains(
                    dollar(),
                ) ==> v@[i].1@ == ps[i].1),
        },
{
    match dotenv_pairs(bytes) {
        Ok(pairs) => Ok(pairs),
        Err(cause) => Err(EnvParseError { cause }),
    }
}

// ---------------------------------------------------------------------------
// Which lines assign a variable
// ---------------------------------------------------------------------------

/// The word that may stand before an assignment.
pub open spec fn export_word() -> Seq<char> {
    seq!['e', 'x', 'p', 'o', 'r', 't']
}

/// `t` starts with `key`, then optional whitespace, then `=`.
pub open spec fn assigns_directly(t: Seq<char>, key: Seq<char>) -> bool {
    &&& key.len() <= t.len()
    &&& t.take(key.len() as int) == key
    &&& {
        let r = trim_start(t.skip(key.len() as int));
        r.len() > 0 && r[0] == '='
    }
}

/// The line assigns `key`: after leading whitespace it starts with
/// `key =`, or with `export`, whitespace and then `key =`.
pub open spec fn assigns(line: Seq<char>, key: Seq<char>) -> bool {
    let t = trim_start(line);
    ||| assigns_directly(t, key)
    ||| (t.len() > 6 && t.take(6) == export_word() && is_ws(t[6]) && assigns_directly(
        trim_start(t.skip(6)),
        key,
    ))
}

/// The index just past the whitespace that starts at `from`.
fn skip_ws_from(v: &[char], from: usize) -> (n: usize)
    requires
        from <= v@.len(),
    ensures
        from <= n <= v@.len(),
        trim_start(v@.skip(from as int)) == v@.skip(n as int),
{
    let mut i: usize = from;
    while i < v.len() && is_whitespace(v[i])
        invariant
            from <= i <= v@.len(),
            trim_start(v@.skip(from as int)) == trim_start(v@.skip(i as int)),
        decreases v@.len() - i,
    {
        assert(v@.skip(i as int).drop_first() =~= v@.skip(i + 1));
        i = i + 1;
    }
    i
}

fn assigns_directly_at(v: &[char], n: usize, key: &[char]) -> (r: bool)
    requires
        n <= v@.len(),
    ensures
        r == assigns_directly(v@.skip(n as int), key@),
{
    let ghost t = v@.skip(n as int);
    if v.len() - n < key.len() {
        return false;
    }
    let mut j: usize = 0;
    while j < key.len()
        invariant
            n <= v@.len(),
            n + key.len() <= v.len(),
            j <= key@.len(),
            t == v@.skip(n as int),
            forall|k: int| 0 <= k < j ==> v@[n + k] == key@[k],
        decreases key@.len() - j,
    {
        assert(n + j < v.len());
        if v[n + j] != key[j] {
            assert(t.take(key@.len() as int)[j as int] != key@[j as int]);
            return false;
        }
        j = j + 1;
    }
    assert(t.take(key@.len() as int) =~= key@);
    let m = skip_ws_from(v, n + key.len());
    assert(t.skip(key@.len() as int) =~= v@.skip(n + key@.len()));
    m < v.len() && v[m] == '='
}

/// Whether the line assigns `key`.
pub fn assigns_line(v: &[char], key: &[char]) -> (r: bool)
    ensures
        r == assigns(v@, key@),
{
    assert(v@.skip(0) =~= v@);
    let n = skip_ws_from(v, 0);
    let ghost t = v@.skip(n as int);
    if assigns_directly_at(v, n, key) {
        return true;
    }
    if v.len() - n > 6 && v[n] == 'e' && v[n + 1] == 'x' && v[n + 2] == 'p' && v[n + 3] == 'o'
        && v[n + 4] == 'r' && v[n + 5] == 't' && is_whitespace(v[n + 6]) {
        assert(t.take(6) =~= export_word());
        let m = skip_ws_from(v, n + 6);
        assert(t.skip(6) =~= v@.skip(n + 6));
        return assigns_directly_at(v, m, key);
    }
    proof {
        if t.len() > 6 && t.take(6) == export_word() {
            assert forall|k: int| 0 <= k < 6 implies t[k] == export_word()[k] by {
                assert(t.take(6)[k] == t[k]);
            }
        }
    }
    false
}

// ---------------------------------------------------------------------------
// How a value is written
// ---------------------------------------------------------------------------

/// Characters that stand in a value without quotes.
pub open spec fn is_plain(c: char) -> bool {
    ||| is_ascii_alphanumeric(c)
    ||| c == '_' || c == '.' || c == '/' || c == ':' || c == '@' || c == '+' || c == ','
    ||| c == '-'
}

pub open spec fn all_plain(s: Seq<char>) -> bool {
    forall|i: int| 0 <= i < s.len() ==> is_plain(#[trigger] s[i])
}

/// A character inside double quotes: backslash, quote and dollar are
/// escaped with a backslash, and a newline is written `\n`.
pub open spec fn escape(c: char) -> Seq<char> {
    if c == '\\' || c == '"' || c == '$' {
        seq!['\\', c]
    } else if c == '\n' {
        seq!['\\', 'n']
    } else {
        seq![c]
    }
}

pub open spec fn escaped(s: Seq<char>) -> Seq<char>
    decreases s.len(),
{
    if s.len() == 0 {
        seq![]
    } else {
        escaped(s.drop_last()) + escape(s.last())
    }
}

/// A value as it is written: bare when it is non-empty and plain,
/// otherwise in double quotes with its special characters escaped.
pub open spec fn quoted(v: Seq<char>) -> Seq<char> {
    if v.len() > 0 && all_plain(v) {
        v
    } else {
        seq!['"'] + escaped(v) + seq!['"']
    }
}

/// The line that assigns `value` to `key`.
pub open spec fn assignment(key: Seq<char>, value: Seq<char>) -> Seq<char> {
    key + seq!['='] + quoted(value)
}

fn is_plain_char(c: char) -> (r: bool)
    ensures
        r == is_plain(c),
{
    ('0' <= c && c <= '9') || ('a' <= c && c <= 'z') || ('A' <= c && c <= 'Z') || c == '_' || c
        == '.' || c == '/' || c == ':' || c == '@' || c == '+' || c == ',' || c == '-'
}

fn push_all(out: &mut Vec<char>, s: &[char])
    ensures
        final(out)@ == old(out)@ + s@,
{
    let ghost start = out@;
    let mut i: usize = 0;
    while i < s.len()
        invariant
            i <= s@.len(),
            out@ == start + s@.take(i as int),
        decreases s@.len() - i,
    {
        out.push(s[i]);
        i = i + 1;
        assert(out@ =~= start + s@.take(i as int));
    }
    assert(s@.take(s@.len() as int) =~= s@);
}

/// The value as it is written in a line.
pub fn quote(v: &[char]) -> (r: Vec<char>)
    ensures
        r@ == quoted(v@),
{
    let mut plain = true;
    let mut i: usize = 0;
    while i < v.len()
        invariant
            i <= v@.len(),
            plain == (forall|k: int| 0 <= k < i ==> is_plain(#[trigger] v@[k])),
        decreases v@.len() - i,
    {
        if !is_plain_char(v[i]) {
            plain = false;
        }
        i = i + 1;
    }
    if v.len() > 0 && plain {
        let r = copy_range(v, 0, v.len());
        assert(v@.subrange(0, v@.len() as int) =~= v@);
        return r;
    }
    let mut out: Vec<char> = Vec::new();
    out.push('"');
    let mut i: usize = 0;
    assert(v@.take(0) =~= Seq::<char>::empty());
    assert(out@ =~= seq!['"'] + escaped(v@.take(0)));
    while i < v.len()
        invariant
            i <= v@.len(),
            out@ == seq!['"'] + escaped(v@.take(i as int)),
        decreases v@.len() - i,
    {
        let c = v[i];
        let ghost before = out@;
        if c == '\\' || c == '"' || c == '$' {
            out.push('\\');
            out.push(c);
        } else if c == '\n' {
            out.push('\\');
            out.push('n');
        } else {
            out.push(c);
        }
        assert(out@ =~= before + escape(c));
        assert(v@.take(i + 1).drop_last() =~= v@.take(i as int));
        assert(escaped(v@.take(i + 1)) == escaped(v@.take(i as int)) + escape(c));
        i = i + 1;
        assert(out@ =~= seq!['"'] + escaped(v@.take(i as int)));
    }
    out.push('"');
    assert(v@.take(v@.len() as int) =~= v@);
    assert(out@ =~= quoted(v@));
    out
}

/// The line `key=value`, the value written as [`quote`] writes it.
pub fn assignment_line(key: &[char], value: &[char]) -> (r: Vec<char>)
    ensures
        r@ == assignment(key@, value@),
{
    let mut out: Vec<char> = Vec::new();
    push_all(&mut out, key);
    out.push('=');
    let q = quote(value);
    push_all(&mut out, &q);
    assert(out@ =~= assignment(key@, value@));
    out
}

// ---------------------------------------------------------------------------
// Editing the lines
// ---------------------------------------------------------------------------

/// The index of the first line that assigns `key`, or the number of lines.
pub open spec fn first_assigning(ls: Seq<Seq<char>>, key: Seq<char>) -> int
    decreases ls.len(),
{
    if ls.len() == 0 {
        0
    } else if assigns(ls[0], key) {
        0
    } else {
        1 + first_assigning(ls.drop_first(), key)
    }
}

/// The lines that do not assign `key`, in order.
pub open spec fn without(ls: Seq<Seq<char>>, key: Seq<char>) -> Seq<Seq<char>>
    decreases ls.len(),
{
    if ls.len() == 0 {
        seq![]
    } else if assigns(ls[0], key) {
        without(ls.drop_first(), key)
    } else {
        seq![ls[0]] + without(ls.drop_first(), key)
    }
}

/// The lines with `line` in place of the first line that assigns `key`
/// and without the later ones; `line` is added at the end when no line
/// assigns `key`.
pub open spec fn with_line(ls: Seq<Seq<char>>, key: Seq<char>, line: Seq<char>) -> Seq<
    Seq<char>,
> {
    let i = first_assigning(ls, key);
    if i < ls.len() {
        ls.take(i).push(line) + without(ls.skip(i + 1), key)
    } else {
        ls.push(line)
    }
}

/// Some line assigns `key`.
pub open spec fn has_assignment(ls: Seq<Seq<char>>, key: Seq<char>) -> bool {
    exists|i: int| 0 <= i < ls.len() && assigns(#[trigger] ls[i], key)
}

/// Lines written out, each followed by `\n`.
pub open spec fn line_text(ls: Seq<Seq<char>>) -> Seq<char>
    decreases ls.len(),
{
    if ls.len() == 0 {
        seq![]
    } else {
        ls[0] + seq!['\n'] + line_text(ls.drop_first())
    }
}

/// The text after `set`: the variable's one assignment is `key=value`.
pub open spec fn set_var_spec(text: Seq<char>, key: Seq<char>, value: Seq<char>) -> Seq<char> {
    line_text(with_line(lines(text), key, assignment(key, value)))
}

/// The text after `unset`: no line assigns the variable.
pub open spec fn unset_var_spec(text: Seq<char>, key: Seq<char>) -> Seq<char> {
    line_text(without(lines(text), key))
}

proof fn lemma_first_assigning(ls: Seq<Seq<char>>, key: Seq<char>, i: int)
    requires
        0 <= i <= ls.len(),
        forall|k: int| 0 <= k < i ==> !assigns(#[trigger] ls[k], key),
        i == ls.len() || assigns(ls[i], key),
    ensures
        first_assigning(ls, key) == i,
    decreases i,
{
    if i > 0 {
        assert forall|k: int| 0 <= k < i - 1 implies !assigns(#[trigger] ls.drop_first()[k], key) by {
            assert(ls.drop_first()[k] == ls[k + 1]);
        }
        lemma_first_assigning(ls.drop_first(), key, i - 1);
    }
}

proof fn lemma_dv_index(ls: Vec<Vec<char>>, i: int)
    requires
        0 <= i < ls@.len(),
    ensures
        ls.deep_view()[i] == ls@[i]@,
{
    assert(ls.deep_view()[i] =~= ls@[i]@);
}

/// A copy of the line.
fn copy_line(l: &Vec<char>) -> (r: Vec<char>)
    ensures
        r@ == l@,
{
    let r = copy_range(l.as_slice(), 0, l.len());
    assert(l@.subrange(0, l@.len() as int) =~= l@);
    r
}

/// Appends the lines from `from` on that do not assign `key`.
fn keep_unassigning(ls: &Vec<Vec<char>>, from: usize, key: &[char], out: &mut Vec<Vec<char>>)
    requires
        from <= ls@.len(),
    ensures
        final(out).deep_view() == old(out).deep_view() + without(
            ls.deep_view().skip(from as int),
            key@,
        ),
{
    let ghost lsd = ls.deep_view();
    let ghost start = out.deep_view();
    let mut i: usize = from;
    assert(start =~= start + Seq::<Seq<char>>::empty());
    while i < ls.len()
        invariant
            from <= i <= ls@.len(),
            lsd == ls.deep_view(),
            start + without(lsd.skip(from as int), key@) == out.deep_view() + without(
                lsd.skip(i as int),
                key@,
            ),
        decreases ls@.len() - i,
    {
        let ghost rest = lsd.skip(i as int);
        proof {
            lemma_dv_index(*ls, i as int);
            assert(rest[0] == lsd[i as int]);
            assert(rest.drop_first() =~= lsd.skip(i + 1));
        }
        if !assigns_line(ls[i].as_slice(), key) {
            let ghost before = out.deep_view();
            let line = copy_line(&ls[i]);
            let ghost lv = line@;
            out.push(line);
            proof {
                assert(out.deep_view().drop_last() =~= before);
                lemma_push_deep_view(before, *out, lv);
                assert(out.deep_view() + without(lsd.skip(i + 1), key@) =~= before + without(
                    rest,
                    key@,
                ));
            }
        }
        i = i + 1;
    }
    proof {
        assert(lsd.skip(ls@.len() as int) =~= Seq::<Seq<char>>::empty());
        assert(out.deep_view() + Seq::<Seq<char>>::empty() =~= out.deep_view());
    }
}

/// The lines written out, each followed by a newline.
fn render_lines(ls: &Vec<Vec<char>>) -> (r: Vec<char>)
    ensures
        r@ == line_text(ls.deep_view()),
{
    let ghost lsd = ls.deep_view();
    let mut out: Vec<char> = Vec::new();
    let mut i: usize = 0;
    assert(lsd.skip(0) =~= lsd);
    while i < ls.len()
        invariant
            i <= ls@.len(),
            lsd == ls.deep_view(),
            line_text(lsd) == out@ + line_text(lsd.skip(i as int)),
        decreases ls@.len() - i,
    {
        let ghost rest = lsd.skip(i as int);
        let ghost before = out@;
        proof {
            lemma_dv_index(*ls, i as int);
            assert(rest[0] == lsd[i as int]);
            assert(rest.drop_first() =~= lsd.skip(i + 1));
        }
        push_all(&mut out, ls[i].as_slice());
        out.push('\n');
        assert(out@ + line_text(lsd.skip(i + 1)) =~= before + line_text(rest));
        i = i + 1;
    }
    assert(lsd.skip(ls@.len() as int) =~= Seq::<Seq<char>>::empty());
    assert(out@ + Seq::<char>::empty() =~= out@);
    out
}

/// The text with `key` set to `value`: the first line that assigns `key`
/// becomes `key=value`, later ones are dropped, and the line is added at
/// the end when there is none. Lines are written back ending in `\n`.
pub fn set_var(text: &str, key: &str, value: &str) -> (r: String)
    ensures
        r@ == set_var_spec(text@, key@, value@),
{
    let tv = chars_of(text);
    let kv = chars_of(key);
    let vv = chars_of(value);
    let ls = split_lines(tv.as_slice());
    let ghost lsd = ls.deep_view();
    let line = assignment_line(kv.as_slice(), vv.as_slice());
    let ghost lv = line@;
    let mut out: Vec<Vec<char>> = Vec::new();
    let mut i: usize = 0;
    assert(out.deep_view() =~= lsd.take(0));
    while i < ls.len() && !assigns_line(ls[i].as_slice(), kv.as_slice())
        invariant
            i <= ls@.len(),
            lsd == ls.deep_view(),
            out.deep_view() == lsd.take(i as int),
            forall|k: int| 0 <= k < i ==> !assigns(#[trigger] lsd[k], kv@),
        decreases ls@.len() - i,
    {
        proof {
            lemma_dv_index(ls, i as int);
        }
        let ghost before = out.deep_view();
        let l = copy_line(&ls[i]);
        let ghost cur = l@;
        out.push(l);
        proof {
            assert(out.deep_view().drop_last() =~= before);
            lemma_push_deep_view(before, out, cur);
            assert(out.deep_view() =~= lsd.take(i + 1));
        }
        i = i + 1;
    }
    proof {
        if i < ls@.len() {
            lemma_dv_index(ls, i as int);
        }
        lemma_first_assigning(lsd, kv@, i as int);
    }
    let ghost before = out.deep_view();
    out.push(line);
    proof {
        assert(out.deep_view().drop_last() =~= before);
        lemma_push_deep_view(before, out, lv);
    }
    if i < ls.len() {
        keep_unassigning(&ls, i + 1, kv.as_slice(), &mut out);
        assert(out.deep_view() =~= with_line(lsd, kv@, lv));
    } else {
        assert(lsd.take(i as int) =~= lsd);
        assert(out.deep_view() =~= with_line(lsd, kv@, lv));
    }
    let r = render_lines(&out);
    string_of(r.as_slice())
}

/// The text without the lines that assign `key`, and whether there were
/// any. Lines are written back ending in `\n`.
pub fn unset_var(text: &str, key: &str) -> (r: (String, bool))
    ensures
        r.0@ == unset_var_spec(text@, key@),
        r.1 == has_assignment(lines(text@), key@),
{
    let tv = chars_of(text);
    let kv = chars_of(key);
    let ls = split_lines(tv.as_slice());
    let ghost lsd = ls.deep_view();
    let mut found = false;
    let mut i: usize = 0;
    while i < ls.len()
        invariant
            i <= ls@.len(),
            lsd == ls.deep_view(),
            found == (exists|k: int| 0 <= k < i && assigns(#[trigger] lsd[k], kv@)),
        decreases ls@.len() - i,
    {
        proof {
            lemma_dv_index(ls, i as int);
        }
        if assigns_line(ls[i].as_slice(), kv.as_slice()) {
            found = true;
        }
        i = i + 1;
    }
    let mut out: Vec<Vec<char>> = Vec::new();
    assert(out.deep_view() =~= Seq::<Seq<char>>::empty());
    keep_unassigning(&ls, 0, kv.as_slice(), &mut out);
    assert(lsd.skip(0) =~= lsd);
    assert(Seq::<Seq<char>>::empty() + without(lsd, kv@) =~= without(lsd, kv@));
    let r = render_lines(&out);
    (string_of(r.as_slice()), found)
}

// ---------------------------------------------------------------------------
// Laws of the edits
// ---------------------------------------------------------------------------

proof fn lemma_first_assigning_props(ls: Seq<Seq<char>>, key: Seq<char>)
    ensures
        0 <= first_assigning(ls, key) <= ls.len(),
        forall|k: int| 0 <= k < first_assigning(ls, key) ==> !assigns(#[trigger] ls[k], key),
        first_assigning(ls, key) < ls.len() ==> assigns(ls[first_assigning(ls, key)], key),
    decreases ls.len(),
{
    if ls.len() > 0 && !assigns(ls[0], key) {
        lemma_first_assigning_props(ls.drop_first(), key);
        assert forall|k: int| 0 <= k < first_assigning(ls, key) implies !assigns(
            #[trigger] ls[k],
            key,
        ) by {
            if k > 0 {
                assert(ls[k] == ls.drop_first()[k - 1]);
            }
        }
    }
}

proof fn lemma_without_concat(a: Seq<Seq<char>>, b: Seq<Seq<char>>, key: Seq<char>)
    ensures
        without(a + b, key) == without(a, key) + without(b, key),
    decreases a.len(),
{
    if a.len() == 0 {
        assert(a + b =~= b);
        assert(without(a, key) + without(b, key) =~= without(b, key));
    } else {
        assert((a + b).drop_first() =~= a.drop_first() + b);
        assert((a + b)[0] == a[0]);
        lemma_without_concat(a.drop_first(), b, key);
        if !assigns(a[0], key) {
            assert(seq![a[0]] + (without(a.drop_first(), key) + without(b, key)) =~= (seq![a[0]]
                + without(a.drop_first(), key)) + without(b, key));
        }
    }
}

proof fn lemma_without_unchanged(ls: Seq<Seq<char>>, key: Seq<char>)
    requires
        !has_assignment(ls, key),
    ensures
        without(ls, key) == ls,
    decreases ls.len(),
{
    if ls.len() > 0 {
        assert(!assigns(ls[0], key));
        assert(!has_assignment(ls.drop_first(), key)) by {
            if has_assignment(ls.drop_first(), key) {
                let k = choose|k: int|
                    0 <= k < ls.drop_first().len() && assigns(#[trigger] ls.drop_first()[k], key);
                assert(ls[k + 1] == ls.drop_first()[k]);
            }
        }
        lemma_without_unchanged(ls.drop_first(), key);
        assert(seq![ls[0]] + ls.drop_first() =~= ls);
    }
}

/// After the lines that assign a variable are dropped, no line assigns it.
pub proof fn law_without_assigns_none(ls: Seq<Seq<char>>, key: Seq<char>)
    ensures
        !has_assignment(without(ls, key), key),
    decreases ls.len(),
{
    if ls.len() > 0 {
        law_without_assigns_none(ls.drop_first(), key);
        let w = without(ls.drop_first(), key);
        if !assigns(ls[0], key) {
            let r = seq![ls[0]] + w;
            assert forall|k: int| 0 <= k < r.len() implies !assigns(#[trigger] r[k], key) by {
                if k > 0 {
                    assert(r[k] == w[k - 1]);
                }
            }
        }
    }
}

proof fn lemma_without_single(l: Seq<char>, key: Seq<char>)
    requires
        assigns(l, key),
    ensures
        without(seq![l], key) == Seq::<Seq<char>>::empty(),
{
    let s = seq![l];
    assert(s[0] == l);
    assert(s.drop_first() =~= Seq::<Seq<char>>::empty());
    assert(without(s.drop_first(), key) == Seq::<Seq<char>>::empty());
}

proof fn lemma_not_ws_name_char(c: char)
    requires
        is_ascii_alphanumeric(c) || c == '_',
    ensures
        !is_ws(c),
{
}

proof fn lemma_assignment_assigns(key: Seq<char>, value: Seq<char>)
    requires
        valid_name(key),
    ensures
        assigns(assignment(key, value), key),
{
    let a = assignment(key, value);
    lemma_not_ws_name_char(key[0]);
    assert(a[0] == key[0]);
    assert(trim_start(a) == a);
    assert(a.take(key.len() as int) =~= key);
    let rest = a.skip(key.len() as int);
    assert(rest[0] == '=');
    assert(trim_start(rest) == rest);
}

/// Setting a variable leaves exactly one line that assigns it, the line
/// `key=value`, and keeps every line that assigns something else.
pub proof fn law_set_assigns_once(ls: Seq<Seq<char>>, key: Seq<char>, value: Seq<char>)
    requires
        valid_name(key),
    ensures
        ({
            let res = with_line(ls, key, assignment(key, value));
            &&& has_assignment(res, key)
            &&& forall|j: int|
                0 <= j < res.len() && assigns(#[trigger] res[j], key) ==> res[j] == assignment(
                    key,
                    value,
                )
            &&& forall|j: int, k: int|
                0 <= j < res.len() && 0 <= k < res.len() && assigns(#[trigger] res[j], key)
                    && assigns(#[trigger] res[k], key) ==> j == k
            &&& without(res, key) == without(ls, key)
        }),
{
    let nl = assignment(key, value);
    let res = with_line(ls, key, nl);
    let i = first_assigning(ls, key);
    lemma_first_assigning_props(ls, key);
    lemma_assignment_assigns(key, value);
    let p = ls.take(i);
    assert(!has_assignment(p, key)) by {
        if has_assignment(p, key) {
            let k = choose|k: int| 0 <= k < p.len() && assigns(#[trigger] p[k], key);
            assert(p[k] == ls[k]);
        }
    }
    lemma_without_unchanged(p, key);
    lemma_without_single(nl, key);
    if i < ls.len() {
        let w = without(ls.skip(i + 1), key);
        law_without_assigns_none(ls.skip(i + 1), key);
        lemma_without_unchanged(w, key);
        assert(res =~= p + seq![nl] + w);
        assert forall|j: int| 0 <= j < res.len() && assigns(#[trigger] res[j], key) implies j
            == i by {
            if j < i {
                assert(res[j] == p[j]);
            } else if j > i {
                assert(res[j] == w[j - i - 1]);
            }
        }
        assert(res[i] == nl);
        lemma_without_concat(p + seq![nl], w, key);
        lemma_without_concat(p, seq![nl], key);
        assert(without(p, key) + Seq::<Seq<char>>::empty() =~= p);
        assert(ls =~= (p + seq![ls[i]]) + ls.skip(i + 1));
        lemma_without_concat(p + seq![ls[i]], ls.skip(i + 1), key);
        lemma_without_concat(p, seq![ls[i]], key);
        lemma_without_single(ls[i], key);
    } else {
        assert(p =~= ls);
        assert(res =~= ls + seq![nl]);
        assert forall|j: int| 0 <= j < res.len() && assigns(#[trigger] res[j], key) implies j
            == i by {
            if j < i {
                assert(res[j] == ls[j]);
            }
        }
        assert(res[i] == nl);
        lemma_without_concat(ls, seq![nl], key);
        assert(without(ls, key) + Seq::<Seq<char>>::empty() =~= without(ls, key));
    }
}

/// A line that survives being written out and split again: no newline
/// in it and no carriage return at its end.
pub open spec fn clean_line(l: Seq<char>) -> bool {
    lacks(l, '\n') && (l.len() == 0 || l.last() != '\r')
}

pub open spec fn all_clean(ls: Seq<Seq<char>>) -> bool {
    forall|k: int| 0 <= k < ls.len() ==> clean_line(#[trigger] ls[k])
}

proof fn lemma_lines_lack_newline(s: Seq<char>)
    ensures
        forall|k: int| 0 <= k < lines(s).len() ==> lacks(#[trigger] lines(s)[k], '\n'),
    decreases s.len(),
{
    if s.len() > 0 {
        let i = find(s, '\n');
        lemma_find(s, '\n');
        if i < s.len() {
            lemma_lines_lack_newline(s.skip(i + 1));
            let first = strip_cr(s.take(i));
            assert(lacks(first, '\n')) by {
                assert forall|j: int| 0 <= j < first.len() implies first[j] != '\n' by {
                    assert(first[j] == s[j]);
                }
            }
            let r = lines(s);
            assert forall|k: int| 0 <= k < r.len() implies lacks(#[trigger] r[k], '\n') by {
                if k > 0 {
                    assert(r[k] == lines(s.skip(i + 1))[k - 1]);
                }
            }
        }
    }
}

proof fn lemma_lines_of_line_text(ls: Seq<Seq<char>>)
    requires
        all_clean(ls),
    ensures
        lines(line_text(ls)) == ls,
    decreases ls.len(),
{
    if ls.len() > 0 {
        assert(all_clean(ls.drop_first())) by {
            assert forall|k: int| 0 <= k < ls.drop_first().len() implies clean_line(
                #[trigger] ls.drop_first()[k],
            ) by {
                assert(ls.drop_first()[k] == ls[k + 1]);
            }
        }
        lemma_lines_of_line_text(ls.drop_first());
        assert(clean_line(ls[0]));
        lemma_lines_cons(ls[0], line_text(ls.drop_first()));
        assert(seq![ls[0]] + ls.drop_first() =~= ls);
    }
}

proof fn lemma_without_clean(ls: Seq<Seq<char>>, key: Seq<char>)
    requires
        all_clean(ls),
    ensures
        all_clean(without(ls, key)),
    decreases ls.len(),
{
    if ls.len() > 0 {
        assert(all_clean(ls.drop_first())) by {
            assert forall|k: int| 0 <= k < ls.drop_first().len() implies clean_line(
                #[trigger] ls.drop_first()[k],
            ) by {
                assert(ls.drop_first()[k] == ls[k + 1]);
            }
        }
        lemma_without_clean(ls.drop_first(), key);
        let w = without(ls.drop_first(), key);
        if !assigns(ls[0], key) {
            let r = seq![ls[0]] + w;
            assert forall|k: int| 0 <= k < r.len() implies clean_line(#[trigger] r[k]) by {
                if k > 0 {
                    assert(r[k] == w[k - 1]);
                }
            }
        }
    }
}

proof fn lemma_escaped_lacks_newline(v: Seq<char>)
    ensures
        lacks(escaped(v), '\n'),
    decreases v.len(),
{
    if v.len() > 0 {
        lemma_escaped_lacks_newline(v.drop_last());
        let a = escaped(v.drop_last());
        let e = escape(v.last());
        assert forall|j: int| 0 <= j < (a + e).len() implies (a + e)[j] != '\n' by {
            if j >= a.len() {
                assert((a + e)[j] == e[j - a.len()]);
            } else {
                assert((a + e)[j] == a[j]);
            }
        }
    }
}

proof fn lemma_assignment_clean(key: Seq<char>, value: Seq<char>)
    requires
        valid_name(key),
    ensures
        clean_line(assignment(key, value)),
{
    let q = quoted(value);
    let a = assignment(key, value);
    if !(value.len() > 0 && all_plain(value)) {
        lemma_escaped_lacks_newline(value);
        assert(lacks(q, '\n')) by {
            let e = escaped(value);
            assert forall|j: int| 0 <= j < q.len() implies q[j] != '\n' by {
                if 0 < j && j < q.len() - 1 {
                    assert(q[j] == e[j - 1]);
                }
            }
        }
    } else {
        assert(is_plain(value.last()));
    }
    assert forall|j: int| 0 <= j < a.len() implies a[j] != '\n' by {
        if j < key.len() {
            assert(a[j] == key[j]);
        } else if j > key.len() {
            assert(a[j] == q[j - key.len() - 1]);
        }
    }
    assert(a.last() == q.last());
}

/// The lines after `set` all survive being written out and split again.
proof fn lemma_set_lines_clean(ls: Seq<Seq<char>>, key: Seq<char>, value: Seq<char>)
    requires
        valid_name(key),
        all_clean(ls),
    ensures
        all_clean(with_line(ls, key, assignment(key, value))),
{
    let nl = assignment(key, value);
    let i = first_assigning(ls, key);
    lemma_first_assigning_props(ls, key);
    lemma_assignment_clean(key, value);
    let res = with_line(ls, key, nl);
    if i < ls.len() {
        let rest = ls.skip(i + 1);
        assert(all_clean(rest)) by {
            assert forall|k: int| 0 <= k < rest.len() implies clean_line(#[trigger] rest[k]) by {
                assert(rest[k] == ls[k + i + 1]);
            }
        }
        lemma_without_clean(rest, key);
        let w = without(rest, key);
        assert forall|k: int| 0 <= k < res.len() implies clean_line(#[trigger] res[k]) by {
            if k < i {
                assert(res[k] == ls[k]);
            } else if k > i {
                assert(res[k] == w[k - i - 1]);
            }
        }
    } else {
        assert forall|k: int| 0 <= k < res.len() implies clean_line(#[trigger] res[k]) by {
            if k < i {
                assert(res[k] == ls[k]);
            }
        }
    }
}

/// Unsetting a variable after setting it gives what unsetting it alone
/// gives, and the set text assigns the variable: for a valid name, and
/// text none of whose lines ends in a carriage return that the line
/// splitting would not remove.
pub proof fn law_unset_after_set(text: Seq<char>, key: Seq<char>, value: Seq<char>)
    requires
        valid_name(key),
        forall|k: int|
            0 <= k < lines(text).len() ==> (#[trigger] lines(text)[k]).len() == 0 || lines(
                text,
            )[k].last() != '\r',
    ensures
        unset_var_spec(set_var_spec(text, key, value), key) == unset_var_spec(text, key),
        has_assignment(lines(set_var_spec(text, key, value)), key),
{
    let ls = lines(text);
    lemma_lines_lack_newline(text);
    assert(all_clean(ls));
    lemma_set_lines_clean(ls, key, value);
    let res = with_line(ls, key, assignment(key, value));
    lemma_lines_of_line_text(res);
    law_set_assigns_once(ls, key, value);
}

/// Setting a variable twice to the same value gives the text that setting
/// it once gives, on the same inputs as [`law_unset_after_set`].
pub proof fn law_set_idempotent(text: Seq<char>, key: Seq<char>, value: Seq<char>)
    requires
        valid_name(key),
        forall|k: int|
            0 <= k < lines(text).len() ==> (#[trigger] lines(text)[k]).len() == 0 || lines(
                text,
            )[k].last() != '\r',
    ensures
        set_var_spec(set_var_spec(text, key, value), key, value) == set_var_spec(text, key, value),
{
    let ls = lines(text);
    let nl = assignment(key, value);
    lemma_lines_lack_newline(text);
    assert(all_clean(ls));
    lemma_set_lines_clean(ls, key, value);
    let res = with_line(ls, key, nl);
    lemma_lines_of_line_text(res);
    law_set_assigns_once(ls, key, value);
    lemma_first_assigning_props(ls, key);
    lemma_first_assigning_props(res, key);
    let i = first_assigning(ls, key);
    lemma_assignment_assigns(key, value);
    // the assignment stands where the first assigning line stood
    assert(res[i] == nl);
    assert(assigns(res[i], key));
    let j = first_assigning(res, key);
    assert(j == i) by {
        if j < i {
            assert(res[j] == ls[j]);
        }
    }
    let tail = res.skip(i + 1);
    law_without_assigns_none(ls.skip(i + 1), key);
    if i < ls.len() {
        assert(tail =~= without(ls.skip(i + 1), key));
        lemma_without_unchanged(tail, key);
        assert(res.take(i) =~= ls.take(i));
    } else {
        assert(tail =~= Seq::<Seq<char>>::empty());
        assert(without(tail, key) == tail);
        assert(res.take(i) =~= ls);
    }
    assert(with_line(res, key, nl) =~= res);
}

/// Characters to which dotenv gives a meaning in a bare value: quotes,
/// the backslash, `$` (substitution), `#` (comment), and whitespace.
pub open spec fn dotenv_special(c: char) -> bool {
    ||| c == '\'' || c == '"' || c == '\\' || c == '$' || c == '#'
    ||| c == ' ' || c == '\t' || c == '\n' || c == '\r'
}

/// What dotenv makes of the character after a backslash inside double
/// quotes.
pub open spec fn dq_unescape(c: char) -> Option<char> {
    if c == 'n' {
        Some('\n')
    } else if c == '\\' || c == '\'' || c == '"' || c == '$' || c == ' ' {
        Some(c)
    } else {
        None
    }
}

/// The value that the inside of a double-quoted value on one line stands
/// for, as dotenv reads it: a backslash escapes the next character, and
/// an unescaped quote, `$` or newline would end or change the value
/// (`None`).
pub open spec fn dq_read(e: Seq<char>) -> Option<Seq<char>>
    decreases e.len(),
{
    if e.len() == 0 {
        Some(seq![])
    } else if e[0] == '\\' {
        if e.len() < 2 {
            None
        } else {
            match (dq_unescape(e[1]), dq_read(e.skip(2))) {
                (Some(d), Some(r)) => Some(seq![d] + r),
                _ => None,
            }
        }
    } else if e[0] == '"' || e[0] == '$' || e[0] == '\n' {
        None
    } else {
        match dq_read(e.skip(1)) {
            Some(r) => Some(seq![e[0]] + r),
            None => None,
        }
    }
}

/// `w`, written after `key=`, stands for exactly `v`: either bare, not
/// empty and free of every character dotenv gives a meaning to, or in
/// double quotes whose inside dotenv reads back as `v`.
pub open spec fn reads_back(w: Seq<char>, v: Seq<char>) -> bool {
    ||| (w == v && v.len() > 0 && forall|i: int| 0 <= i < v.len() ==> !dotenv_special(#[trigger] v[i]))
    ||| (w.len() >= 2 && w[0] == '"' && w[w.len() - 1] == '"' && dq_read(w.subrange(1, w.len() - 1))
        == Some(v))
}

proof fn lemma_escaped_cons(c: char, s: Seq<char>)
    ensures
        escaped(seq![c] + s) == escape(c) + escaped(s),
    decreases s.len(),
{
    let t = seq![c] + s;
    if s.len() == 0 {
        assert(t =~= seq![c]);
        assert(t.drop_last() =~= Seq::<char>::empty());
        assert(escaped(t.drop_last()) == Seq::<char>::empty());
        assert(t.last() == c);
        assert(escaped(t) =~= escaped(t.drop_last()) + escape(c));
        assert(escaped(s) == Seq::<char>::empty());
        assert(escape(c) + escaped(s) =~= escape(c));
    } else {
        assert(t.drop_last() =~= seq![c] + s.drop_last());
        assert(t.last() == s.last());
        lemma_escaped_cons(c, s.drop_last());
        assert(escaped(t) == escaped(t.drop_last()) + escape(t.last()));
        assert(escaped(s) == escaped(s.drop_last()) + escape(s.last()));
        assert(escape(c) + escaped(s.drop_last()) + escape(s.last()) =~= escape(c) + (escaped(
            s.drop_last(),
        ) + escape(s.last())));
    }
}

proof fn lemma_escaped_reads_back(v: Seq<char>)
    ensures
        dq_read(escaped(v)) == Some(v),
    decreases v.len(),
{
    if v.len() == 0 {
        assert(escaped(v) =~= Seq::<char>::empty());
    } else {
        let c = v[0];
        let rest = v.skip(1);
        assert(v =~= seq![c] + rest);
        lemma_escaped_cons(c, rest);
        lemma_escaped_reads_back(rest);
        let e = escaped(v);
        let er = escaped(rest);
        assert(e == escape(c) + er);
        if c == '\\' || c == '"' || c == '$' || c == '\n' {
            assert(e.skip(2) =~= er);
            assert(e[0] == '\\');
        } else {
            assert(e.skip(1) =~= er);
            assert(e[0] == c);
        }
        assert(seq![c] + rest =~= v);
    }
}

/// The line that assigns a value states the value exactly: it is `key=`
/// followed by the value written in a form that dotenv reads back as that
/// value (a value with a quote, backslash, `$`, `#` or whitespace, and the
/// empty value, stand in double quotes).
pub proof fn law_assignment_reads_back(key: Seq<char>, value: Seq<char>)
    ensures
        ({
            let l = assignment(key, value);
            &&& l.len() > key.len()
            &&& l.take(key.len() as int) == key
            &&& l[key.len() as int] == '='
            &&& reads_back(l.skip(key.len() as int + 1), value)
        }),
{
    let l = assignment(key, value);
    let w = quoted(value);
    assert(l =~= key + seq!['='] + w);
    assert(l.take(key.len() as int) =~= key);
    assert(l.skip(key.len() as int + 1) =~= w);
    if value.len() > 0 && all_plain(value) {
        assert forall|i: int| 0 <= i < value.len() implies !dotenv_special(#[trigger] value[i]) by {
            assert(is_plain(value[i]));
        }
    } else {
        lemma_escaped_reads_back(value);
        assert(w.subrange(1, w.len() - 1) =~= escaped(value));
    }
}

/// After setting a variable, the text assigns it in exactly the lines
/// that read back as `key=` and the value: every line of the set text
/// that assigns the variable is `key=` followed by the value in a form
/// that dotenv reads back as that value, and there is such a line (for a
/// valid name, and text none of whose lines ends in a carriage return
/// that the line splitting would not remove).
pub proof fn law_set_reads_back(text: Seq<char>, key: Seq<char>, value: Seq<char>)
    requires
        valid_name(key),
        forall|k: int|
            0 <= k < lines(text).len() ==> (#[trigger] lines(text)[k]).len() == 0 || lines(
                text,
            )[k].last() != '\r',
    ensures
        has_assignment(lines(set_var_spec(text, key, value)), key),
        forall|j: int|
            0 <= j < lines(set_var_spec(text, key, value)).len() && assigns(
                #[trigger] lines(set_var_spec(text, key, value))[j],
                key,
            ) ==> ({
                let l = lines(set_var_spec(text, key, value))[j];
                &&& l.len() > key.len()
                &&& l.take(key.len() as int) == key
                &&& l[key.len() as int] == '='
                &&& reads_back(l.skip(key.len() as int + 1), value)
            }),
{
    let ls = lines(text);
    lemma_lines_lack_newline(text);
    assert(all_clean(ls));
    lemma_set_lines_clean(ls, key, value);
    let res = with_line(ls, key, assignment(key, value));
    lemma_lines_of_line_text(res);
    law_set_assigns_once(ls, key, value);
    law_assignment_reads_back(key, value);
}

} // verus!
