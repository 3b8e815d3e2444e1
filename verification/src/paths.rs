//! Paths as the project sees them: relative to the project root, written
//! with `/`. A path is text; its components are those `std::path::Path`
//! gives on Unix: a leading `/` is the root, a leading `.` segment the
//! current directory, and the other non-empty segments other than `.` are
//! names (or `..`).

use vstd::prelude::*;
use vstd::slice::slice_to_vec;

use crate::text::{
    chars_of, copy_range, find, find_char, lacks, lemma_find, lemma_find_at, string_of,
};

verus! {

// ---------------------------------------------------------------------------
// Components
// ---------------------------------------------------------------------------

/// `s` split at every `/` (always at least one, possibly empty, segment).
pub open spec fn segments(s: Seq<char>) -> Seq<Seq<char>>
    decreases s.len(),
{
    let i = find(s, '/');
    if 0 <= i < s.len() {
        seq![s.take(i)] + segments(s.skip(i + 1))
    } else {
        seq![s]
    }
}

pub open spec fn dot() -> Seq<char> {
    seq!['.']
}

pub open spec fn dot_dot() -> Seq<char> {
    seq!['.', '.']
}

pub open spec fn root() -> Seq<char> {
    seq!['/']
}

/// A segment that is a component of its own: not empty and not `.`.
pub open spec fn is_named(seg: Seq<char>) -> bool {
    seg.len() > 0 && seg != dot()
}

/// The named segments, in order.
pub open spec fn named(segs: Seq<Seq<char>>) -> Seq<Seq<char>>
    decreases segs.len(),
{
    if segs.len() == 0 {
        seq![]
    } else {
        (if is_named(segs[0]) {
            seq![segs[0]]
        } else {
            seq![]
        }) + named(segs.drop_first())
    }
}

/// The leading root (`/`) or current-directory (`.`) component, if any.
pub open spec fn lead(p: Seq<char>) -> Seq<Seq<char>> {
    if p.len() > 0 && p[0] == '/' {
        seq![root()]
    } else if p == dot() || (p.len() >= 2 && p[0] == '.' && p[1] == '/') {
        seq![dot()]
    } else {
        seq![]
    }
}

/// The components of a path (`Path::components`), the root written `/`
/// and the current directory `.`.
pub open spec fn comps(p: Seq<char>) -> Seq<Seq<char>> {
    lead(p) + named(segments(p))
}

/// Names joined with `/`.
pub open spec fn join_slash(cs: Seq<Seq<char>>) -> Seq<char>
    decreases cs.len(),
{
    if cs.len() == 0 {
        seq![]
    } else if cs.len() == 1 {
        cs[0]
    } else {
        cs[0] + seq!['/'] + join_slash(cs.drop_first())
    }
}

/// The path that pushing these components onto an empty `PathBuf` builds.
pub open spec fn render(cs: Seq<Seq<char>>) -> Seq<char> {
    if cs.len() > 0 && cs[0] == root() {
        seq!['/'] + join_slash(cs.drop_first())
    } else {
        join_slash(cs)
    }
}

fn is_dot(v: &[char]) -> (r: bool)
    ensures
        r == (v@ == dot()),
{
    let r = v.len() == 1 && v[0] == '.';
    proof {
        if v@.len() == 1 && v@[0] == '.' {
            assert(v@ =~= dot());
        }
    }
    r
}

fn is_dot_dot(v: &[char]) -> (r: bool)
    ensures
        r == (v@ == dot_dot()),
{
    let r = v.len() == 2 && v[0] == '.' && v[1] == '.';
    proof {
        if v@.len() == 2 && v@[0] == '.' && v@[1] == '.' {
            assert(v@ =~= dot_dot());
        }
    }
    r
}

fn is_root(v: &[char]) -> (r: bool)
    ensures
        r == (v@ == root()),
{
    let r = v.len() == 1 && v[0] == '/';
    proof {
        if v@.len() == 1 && v@[0] == '/' {
            assert(v@ =~= root());
        }
    }
    r
}

fn single(c: char) -> (r: Vec<char>)
    ensures
        r@ == seq![c],
{
    let mut v: Vec<char> = Vec::new();
    v.push(c);
    assert(v@ =~= seq![c]);
    v
}

pub proof fn lemma_deep_view_push(out: Vec<Vec<char>>, before: Seq<Seq<char>>, lv: Seq<char>)
    requires
        out@.len() > 0,
        out@.last()@ == lv,
        out.deep_view().drop_last() == before,
    ensures
        out.deep_view() == before + seq![lv],
{
    let d = out.deep_view();
    assert(d.last() =~= lv);
    assert(d =~= d.drop_last() + seq![d.last()]);
}

/// The components of `p`.
pub fn components(p: &[char]) -> (r: Vec<Vec<char>>)
    ensures
        r.deep_view() == comps(p@),
{
    let mut out: Vec<Vec<char>> = Vec::new();
    if p.len() > 0 && p[0] == '/' {
        let r = single('/');
        out.push(r);
        assert(out.deep_view()[0] =~= root());
    } else if (p.len() == 1 && p[0] == '.') || (p.len() >= 2 && p[0] == '.' && p[1] == '/') {
        let d = single('.');
        out.push(d);
        assert(out.deep_view()[0] =~= dot());
    }
    proof {
        if p@.len() == 1 && p@[0] == '.' {
            assert(p@ =~= dot());
        }
        assert(out.deep_view() =~= lead(p@));
        assert(p@.skip(0) =~= p@);
    }
    let mut pos: usize = 0;
    let mut more = true;
    while more
        invariant
            pos <= p@.len(),
            more ==> comps(p@) == out.deep_view() + named(segments(p@.skip(pos as int))),
            !more ==> comps(p@) == out.deep_view(),
        decreases
                if more {
                    p@.len() + 1 - pos
                } else {
                    0
                },
    {
        let ghost rest = p@.skip(pos as int);
        let mut i: usize = pos;
        while i < p.len() && p[i] != '/'
            invariant
                pos <= i <= p@.len(),
                forall|j: int| pos <= j < i ==> p@[j] != '/',
            decreases p@.len() - i,
        {
            i = i + 1;
        }
        proof {
            lemma_find_at(rest, '/', i - pos);
        }
        let seg = copy_range(p, pos, i);
        assert(seg@ =~= rest.take(i - pos));
        let keep = seg.len() > 0 && !is_dot(&seg);
        let ghost before = out.deep_view();
        let ghost sv = seg@;
        if keep {
            out.push(seg);
            proof {
                assert(out.deep_view().drop_last() =~= before);
                lemma_deep_view_push(out, before, sv);
            }
        }
        proof {
            let x = if is_named(sv) {
                seq![sv]
            } else {
                seq![]
            };
            assert(out.deep_view() =~= before + x);
        }
        if i < p.len() {
            proof {
                assert(rest.skip(i - pos + 1) =~= p@.skip(i + 1));
                assert(segments(rest) =~= seq![sv] + segments(p@.skip(i + 1)));
                assert(segments(rest)[0] == sv);
                assert(segments(rest).drop_first() =~= segments(p@.skip(i + 1)));
                assert(named(segments(rest)) =~= (if is_named(sv) {
                    seq![sv]
                } else {
                    seq![]
                }) + named(segments(p@.skip(i + 1))));
            }
            pos = i + 1;
        } else {
            proof {
                assert(sv =~= rest);
                assert(segments(rest) =~= seq![sv]);
                assert(seq![sv].drop_first() =~= Seq::<Seq<char>>::empty());
                assert(seq![sv][0] == sv);
                assert(named(Seq::<Seq<char>>::empty()) == Seq::<Seq<char>>::empty());
            }
            more = false;
        }
    }
    out
}

/// The path built from components.
pub fn render_components(cs: &Vec<Vec<char>>) -> (r: Vec<char>)
    ensures
        r@ == render(cs.deep_view()),
{
    let ghost d = cs.deep_view();
    let mut out: Vec<char> = Vec::new();
    let mut start: usize = 0;
    if cs.len() > 0 && is_root(&cs[0]) {
        out.push('/');
        start = 1;
    }
    proof {
        if cs@.len() > 0 {
            assert(d[0] =~= cs@[0]@);
        }
    }
    let ghost names = d.skip(start as int);
    proof {
        if start == 1 {
            assert(d.skip(1) =~= d.drop_first());
        } else {
            assert(d.skip(0) =~= d);
        }
    }
    assert(render(d) == out@ + join_slash(names));
    let mut k: usize = start;
    assert(names.skip(0) =~= names);
    while k < cs.len()
        invariant
            start <= k <= cs@.len(),
            d == cs.deep_view(),
            names == d.skip(start as int),
            render(d) == out@ + join_slash(d.skip(k as int)),
        decreases cs@.len() - k,
    {
        let c = &cs[k];
        assert(d[k as int] =~= c@);
        let ghost tail = d.skip(k as int);
        assert(tail[0] == c@);
        assert(tail.drop_first() =~= d.skip(k + 1));
        let mut j: usize = 0;
        let ghost before = out@;
        while j < c.len()
            invariant
                j <= c@.len(),
                out@ == before + c@.subrange(0, j as int),
            decreases c@.len() - j,
        {
            out.push(c[j]);
            j = j + 1;
            assert(out@ =~= before + c@.subrange(0, j as int));
        }
        assert(c@.subrange(0, c@.len() as int) =~= c@);
        if k + 1 < cs.len() {
            out.push('/');
            assert(join_slash(tail) == c@ + seq!['/'] + join_slash(d.skip(k + 1)));
        } else {
            assert(tail.len() == 1);
            assert(d.skip(k + 1) =~= Seq::<Seq<char>>::empty());
        }
        k = k + 1;
    }
    assert(d.skip(k as int) =~= Seq::<Seq<char>>::empty());
    out
}

// ---------------------------------------------------------------------------
// Normalization
// ---------------------------------------------------------------------------

/// The components after lexical normalization, processed from `cs` onto
/// the stack `st`: `.` vanishes, `..` removes the last name (never the
/// root), everything else is pushed.
pub open spec fn norm_stack(cs: Seq<Seq<char>>, st: Seq<Seq<char>>) -> Seq<Seq<char>>
    decreases cs.len(),
{
    if cs.len() == 0 {
        st
    } else {
        let c = cs[0];
        let st2 = if c == dot() {
            st
        } else if c == dot_dot() {
            if st.len() > 0 && st.last() != root() {
                st.drop_last()
            } else {
                st
            }
        } else {
            st.push(c)
        };
        norm_stack(cs.drop_first(), st2)
    }
}

/// Lexically normalize a path, resolving `.` and `..` without touching the
/// filesystem.
pub open spec fn normalize_spec(p: Seq<char>) -> Seq<char> {
    render(norm_stack(comps(p), seq![]))
}

fn normalized_components(p: &[char]) -> (r: Vec<Vec<char>>)
    ensures
        r.deep_view() == norm_stack(comps(p@), seq![]),
{
    let cs = components(p);
    let ghost d = cs.deep_view();
    let mut st: Vec<Vec<char>> = Vec::new();
    let mut k: usize = 0;
    assert(d.skip(0) =~= d);
    assert(st.deep_view() =~= Seq::<Seq<char>>::empty());
    while k < cs.len()
        invariant
            k <= cs@.len(),
            d == cs.deep_view(),
            d == comps(p@),
            norm_stack(d, seq![]) == norm_stack(d.skip(k as int), st.deep_view()),
        decreases cs@.len() - k,
    {
        let c = &cs[k];
        let ghost tail = d.skip(k as int);
        assert(d[k as int] =~= c@);
        assert(tail[0] == c@);
        assert(tail.drop_first() =~= d.skip(k + 1));
        let ghost before = st.deep_view();
        assert(before.push(c@) =~= before + seq![c@]);
        if is_dot(c) {
        } else if is_dot_dot(c) {
            if st.len() > 0 && !is_root(&st[st.len() - 1]) {
                proof {
                    assert(before.last() =~= st@.last()@);
                }
                st.pop();
                assert(st.deep_view() =~= before.drop_last());
            } else {
                proof {
                    if st@.len() > 0 {
                        assert(before.last() =~= st@.last()@);
                    }
                }
            }
        } else {
            st.push(c.clone());
            proof {
                assert(st.deep_view().drop_last() =~= before);
                lemma_deep_view_push(st, before, c@);
            }
        }
        assert(norm_stack(tail, before) == norm_stack(d.skip(k + 1), st.deep_view()));
        k = k + 1;
    }
    assert(d.skip(k as int) =~= Seq::<Seq<char>>::empty());
    st
}

/// Lexically normalize a path, resolving `.` and `..` without touching the
/// filesystem.
pub fn normalize(path: &str) -> (r: String)
    ensures
        r@ == normalize_spec(path@),
{
    let p = chars_of(path);
    let st = normalized_components(&p);
    let out = render_components(&st);
    string_of(&out)
}


// ---------------------------------------------------------------------------
// Encrypted siblings and location binding
// ---------------------------------------------------------------------------

pub open spec fn enc_suffix() -> Seq<char> {
    seq!['.', 'e', 'n', 'c']
}

/// apps/web/.env -> apps/web/.env.enc
pub open spec fn enc_path_spec(plain: Seq<char>) -> Seq<char> {
    plain + enc_suffix()
}

/// apps/web/.env -> apps/web/.env.enc
pub fn enc_path(plain: &str) -> (r: String)
    ensures
        r@ == enc_path_spec(plain@),
{
    let mut v = chars_of(plain);
    v.push('.');
    v.push('e');
    v.push('n');
    v.push('c');
    assert(v@ =~= enc_path_spec(plain@));
    string_of(&v)
}

/// `p` without trailing separators and trailing `.` components, which
/// `Path::file_name` looks past.
pub open spec fn trim_trailing(p: Seq<char>) -> Seq<char>
    decreases p.len(),
{
    if p.len() > 0 && p.last() == '/' {
        trim_trailing(p.drop_last())
    } else if p.len() >= 2 && p.last() == '.' && p[p.len() - 2] == '/' {
        trim_trailing(p.drop_last())
    } else {
        p
    }
}

/// The index of the last `c` in `s`, or -1.
pub open spec fn rfind(s: Seq<char>, c: char) -> int
    decreases s.len(),
{
    if s.len() == 0 {
        -1
    } else if s.last() == c {
        s.len() - 1
    } else {
        rfind(s.drop_last(), c)
    }
}

/// The last segment of `p` once trailing separators are gone.
pub open spec fn file_segment(p: Seq<char>) -> Seq<char> {
    let q = trim_trailing(p);
    q.skip(rfind(q, '/') + 1)
}

/// A file name with the extension `enc` (`Path::extension`): it ends in
/// `.enc` and something comes before that dot.
pub open spec fn has_enc_ext(name: Seq<char>) -> bool {
    name.len() > 4 && name.skip(name.len() - 4) == enc_suffix()
}

/// Accept either form of a user-supplied path: apps/web/.env.enc ->
/// apps/web/.env (`path.with_extension("")` when the extension is `enc`).
pub open spec fn strip_enc_spec(p: Seq<char>) -> Seq<char> {
    let q = trim_trailing(p);
    if has_enc_ext(file_segment(p)) {
        q.take(q.len() - 4)
    } else {
        p
    }
}

proof fn lemma_trim_trailing(p: Seq<char>)
    ensures
        trim_trailing(p).len() <= p.len(),
        trim_trailing(p) == p.take(trim_trailing(p).len() as int),
    decreases p.len(),
{
    if p.len() > 0 && p.last() == '/' {
        lemma_trim_trailing(p.drop_last());
        assert(p.drop_last().take(trim_trailing(p).len() as int) =~= p.take(
            trim_trailing(p).len() as int,
        ));
    } else if p.len() >= 2 && p.last() == '.' && p[p.len() - 2] == '/' {
        lemma_trim_trailing(p.drop_last());
        assert(p.drop_last().take(trim_trailing(p).len() as int) =~= p.take(
            trim_trailing(p).len() as int,
        ));
    } else {
        assert(p.take(p.len() as int) =~= p);
    }
}

proof fn lemma_rfind(s: Seq<char>, c: char)
    ensures
        -1 <= rfind(s, c) < s.len(),
        rfind(s, c) >= 0 ==> s[rfind(s, c)] == c,
        forall|j: int| rfind(s, c) < j < s.len() ==> s[j] != c,
    decreases s.len(),
{
    if s.len() > 0 && s.last() != c {
        lemma_rfind(s.drop_last(), c);
        assert forall|j: int| rfind(s, c) < j < s.len() implies s[j] != c by {
            if j < s.len() - 1 {
                assert(s[j] == s.drop_last()[j]);
            }
        }
    }
}

proof fn lemma_rfind_append(s: Seq<char>, t: Seq<char>, c: char)
    requires
        forall|j: int| 0 <= j < t.len() ==> t[j] != c,
    ensures
        rfind(s + t, c) == rfind(s, c),
    decreases t.len(),
{
    if t.len() > 0 {
        assert((s + t).drop_last() =~= s + t.drop_last());
        assert((s + t).last() == t.last());
        lemma_rfind_append(s, t.drop_last(), c);
    } else {
        assert(s + t =~= s);
    }
}

/// The length of `trim_trailing`.
fn trimmed_len(p: &[char]) -> (n: usize)
    ensures
        n <= p@.len(),
        trim_trailing(p@) == p@.take(n as int),
{
    let mut n: usize = p.len();
    assert(p@.take(n as int) =~= p@);
    while n > 0 && (p[n - 1] == '/' || (n >= 2 && p[n - 1] == '.' && p[n - 2] == '/'))
        invariant
            n <= p@.len(),
            trim_trailing(p@) == trim_trailing(p@.take(n as int)),
        decreases n,
    {
        assert(p@.take(n as int).drop_last() =~= p@.take(n - 1));
        n = n - 1;
    }
    n
}

/// Accept either form of a user-supplied path: apps/web/.env.enc -> apps/web/.env
pub fn strip_enc(path: &str) -> (r: String)
    ensures
        r@ == strip_enc_spec(path@),
{
    let p = chars_of(path);
    let n = trimmed_len(&p);
    let ghost q = p@.take(n as int);
    let mut s: usize = n;
    assert(q.take(s as int) =~= q);
    while s > 0 && p[s - 1] != '/'
        invariant
            s <= n <= p@.len(),
            q == p@.take(n as int),
            rfind(q, '/') == rfind(q.take(s as int), '/'),
        decreases s,
    {
        assert(q.take(s as int).drop_last() =~= q.take(s - 1));
        s = s - 1;
    }
    proof {
        if s > 0 {
            assert(q.take(s as int).last() == '/');
        } else {
            assert(q.take(0) =~= Seq::<char>::empty());
        }
        assert(rfind(q, '/') + 1 == s);
    }
    let name_len = n - s;
    if name_len > 4 && p[n - 4] == '.' && p[n - 3] == 'e' && p[n - 2] == 'n' && p[n - 1] == 'c' {
        proof {
            let seg = q.skip(s as int);
            assert(seg.skip(seg.len() - 4) =~= enc_suffix());
        }
        let out = copy_range(&p, 0, n - 4);
        proof {
            assert(out@ =~= q.take(q.len() - 4));
        }
        string_of(&out)
    } else {
        proof {
            let seg = q.skip(s as int);
            if seg.len() > 4 && seg.skip(seg.len() - 4) == enc_suffix() {
                assert(seg.skip(seg.len() - 4)[0] == p@[n - 4]);
                assert(seg.skip(seg.len() - 4)[1] == p@[n - 3]);
                assert(seg.skip(seg.len() - 4)[2] == p@[n - 2]);
                assert(seg.skip(seg.len() - 4)[3] == p@[n - 1]);
            }
        }
        string_of(&p)
    }
}

/// Stripping `.enc` from the encrypted sibling of a path gives the path
/// back, for every path that names something (not empty, not ending in a
/// separator).
pub proof fn law_strip_enc_of_enc_path(p: Seq<char>)
    requires
        p.len() > 0,
        p.last() != '/',
    ensures
        strip_enc_spec(enc_path_spec(p)) == p,
{
    let q = enc_path_spec(p);
    assert(q.last() == 'c');
    assert(trim_trailing(q) == q);
    lemma_rfind_append(p, enc_suffix(), '/');
    lemma_rfind(p, '/');
    let r = rfind(p, '/');
    let seg = q.skip(r + 1);
    assert(seg =~= p.skip(r + 1) + enc_suffix());
    assert(r < p.len() - 1);
    assert(seg.skip(seg.len() - 4) =~= enc_suffix());
    assert(q.take(q.len() - 4) =~= p);
}

/// The character a path separator is bound as: `\` becomes `/`.
pub open spec fn unify_sep(c: char) -> char {
    if c == '\\' {
        '/'
    } else {
        c
    }
}

/// AAD binding a ciphertext to its root-relative location: the UTF-8 bytes
/// of the path with stable separators across platforms.
pub open spec fn aad_spec(rel: Seq<char>) -> Seq<u8> {
    vstd::utf8::encode_utf8(rel.map_values(|c: char| unify_sep(c)))
}

/// AAD binding a ciphertext to its root-relative location, with stable
/// separators across platforms.
pub fn aad_for(rel: &str) -> (r: Vec<u8>)
    ensures
        r@ == aad_spec(rel@),
{
    let p = chars_of(rel);
    let mut out: Vec<char> = Vec::new();
    let mut k: usize = 0;
    while k < p.len()
        invariant
            k <= p@.len(),
            out@ == p@.subrange(0, k as int).map_values(|c: char| unify_sep(c)),
        decreases p@.len() - k,
    {
        let c = if p[k] == '\\' {
            '/'
        } else {
            p[k]
        };
        out.push(c);
        k = k + 1;
        assert(out@ =~= p@.subrange(0, k as int).map_values(|c: char| unify_sep(c)));
    }
    assert(p@.subrange(0, p@.len() as int) =~= p@);
    let s = string_of(&out);
    slice_to_vec(s.as_str().as_bytes())
}

// ---------------------------------------------------------------------------
// Resolving user paths against the project root
// ---------------------------------------------------------------------------

/// `a` is a prefix of `b`.
pub open spec fn is_prefix<A>(a: Seq<A>, b: Seq<A>) -> bool {
    a.len() <= b.len() && b.take(a.len() as int) == a
}

/// `p` is absolute.
pub open spec fn is_absolute(p: Seq<char>) -> bool {
    p.len() > 0 && p[0] == '/'
}

/// `base.join(p)`: `p` when it is absolute, else `p` after `base` with one
/// separator between them.
pub open spec fn join_spec(base: Seq<char>, p: Seq<char>) -> Seq<char> {
    if is_absolute(p) {
        p
    } else if base.len() == 0 || base.last() == '/' {
        base + p
    } else {
        base + seq!['/'] + p
    }
}

/// The root-relative form of a user-supplied path (relative to `cwd` or
/// absolute), normalized; `None` when it lies outside the root. The
/// remaining components are written with single separators.
pub open spec fn rel_to_root_spec(root: Seq<char>, cwd: Seq<char>, path: Seq<char>) -> Option<
    Seq<char>,
> {
    let n = comps(normalize_spec(join_spec(cwd, path)));
    let r = comps(root);
    if is_prefix(r, n) {
        Some(render(n.skip(r.len() as int)))
    } else {
        None
    }
}

/// `base.join(p)`.
pub fn join(base: &str, p: &str) -> (r: String)
    ensures
        r@ == join_spec(base@, p@),
{
    let b = chars_of(base);
    let q = chars_of(p);
    if q.len() > 0 && q[0] == '/' {
        return string_of(&q);
    }
    let mut out = b;
    if out.len() > 0 && out[out.len() - 1] != '/' {
        out.push('/');
    }
    let ghost start = out@;
    let mut k: usize = 0;
    while k < q.len()
        invariant
            k <= q@.len(),
            out@ == start + q@.subrange(0, k as int),
        decreases q@.len() - k,
    {
        out.push(q[k]);
        k = k + 1;
        assert(out@ =~= start + q@.subrange(0, k as int));
    }
    assert(q@.subrange(0, q@.len() as int) =~= q@);
    string_of(&out)
}

/// A user-supplied path that does not lie under the project root.
#[derive(Debug)]
pub struct OutsideRoot;

/// Resolve a user-supplied path (relative to `cwd` or absolute) to a
/// root-relative path.
pub fn rel_to_root(root: &str, cwd: &str, path: &str) -> (r: Result<String, OutsideRoot>)
    ensures
        match rel_to_root_spec(root@, cwd@, path@) {
            Some(rel) => r matches Ok(s) && s@ == rel,
            None => r is Err,
        },
{
    let abs = join(cwd, path);
    let norm = normalize(abs.as_str());
    let nc = components(&chars_of(norm.as_str()));
    let rc = components(&chars_of(root));
    let ghost n = nc.deep_view();
    let ghost rv = rc.deep_view();
    if rc.len() > nc.len() {
        return Err(OutsideRoot);
    }
    let mut k: usize = 0;
    while k < rc.len()
        invariant
            k <= rc@.len() <= nc@.len(),
            n == nc.deep_view(),
            rv == rc.deep_view(),
            n == comps(normalize_spec(join_spec(cwd@, path@))),
            rv == comps(root@),
            forall|j: int| 0 <= j < k ==> rv[j] == n[j],
        decreases rc@.len() - k,
    {
        assert(rv[k as int] =~= rc@[k as int]@);
        assert(n[k as int] =~= nc@[k as int]@);
        if !crate::text::chars_eq(&rc[k], &nc[k]) {
            proof {
                assert(n.take(rv.len() as int)[k as int] == n[k as int]);
                assert(n.take(rv.len() as int) != rv);
                assert(!is_prefix(rv, n));
            }
            return Err(OutsideRoot);
        }
        k = k + 1;
    }
    assert(n.take(rv.len() as int) =~= rv);
    let mut rest: Vec<Vec<char>> = Vec::new();
    let mut j: usize = rc.len();
    assert(rest.deep_view() =~= n.subrange(rv.len() as int, j as int));
    while j < nc.len()
        invariant
            rv.len() <= j <= nc@.len(),
            n == nc.deep_view(),
            rest.deep_view() == n.subrange(rv.len() as int, j as int),
        decreases nc@.len() - j,
    {
        let ghost before = rest.deep_view();
        rest.push(nc[j].clone());
        proof {
            assert(n[j as int] =~= nc@[j as int]@);
            assert(rest.deep_view().drop_last() =~= before);
            lemma_deep_view_push(rest, before, n[j as int]);
            assert(rest.deep_view() =~= n.subrange(rv.len() as int, j + 1));
        }
        j = j + 1;
    }
    assert(n.subrange(rv.len() as int, n.len() as int) =~= n.skip(rv.len() as int));
    let out = render_components(&rest);
    Ok(string_of(&out))
}


// ---------------------------------------------------------------------------
// Finding the project root
// ---------------------------------------------------------------------------

/// The successive parents of a path with components `cs`, nearest first
/// (`Path::parent`, written in normal form).
pub open spec fn parents_of(cs: Seq<Seq<char>>) -> Seq<Seq<char>>
    decreases cs.len(),
{
    if cs.len() > 0 && cs.last() != root() {
        seq![render(cs.drop_last())] + parents_of(cs.drop_last())
    } else {
        seq![]
    }
}

/// `start` and then each of its parents, nearest first: the directories in
/// which the project manifest is looked for.
pub open spec fn ancestors_spec(start: Seq<char>) -> Seq<Seq<char>> {
    seq![start] + parents_of(comps(start))
}

/// `start` and its parents, nearest first.
pub fn ancestors(start: &str) -> (r: Vec<String>)
    ensures
        r.deep_view() == ancestors_spec(start@),
{
    let cs = components(&chars_of(start));
    let ghost d = cs.deep_view();
    let mut out: Vec<String> = Vec::new();
    out.push(start.to_owned());
    assert(out.deep_view() =~= seq![start@]);
    let mut k: usize = cs.len();
    let mut at_top = cs.len() == 0;
    if !at_top {
        at_top = is_root(&cs[cs.len() - 1]);
        assert(d[k - 1] =~= cs@[k - 1]@);
    }
    assert(d.take(k as int) =~= d);
    while !at_top
        invariant
            k <= cs@.len(),
            d == cs.deep_view(),
            d == comps(start@),
            ancestors_spec(start@) == out.deep_view() + parents_of(d.take(k as int)),
            at_top <==> (k == 0 || d[k - 1] == root()),
        decreases k,
    {
        assert(d[k - 1] =~= cs@[k - 1]@);
        let mut prefix: Vec<Vec<char>> = Vec::new();
        let mut j: usize = 0;
        assert(prefix.deep_view() =~= d.take(0));
        while j < k - 1
            invariant
                j <= k - 1,
                k <= cs@.len(),
                d == cs.deep_view(),
                prefix.deep_view() == d.take(j as int),
            decreases k - 1 - j,
        {
            let ghost before = prefix.deep_view();
            prefix.push(cs[j].clone());
            proof {
                assert(d[j as int] =~= cs@[j as int]@);
                assert(prefix.deep_view().drop_last() =~= before);
                lemma_deep_view_push(prefix, before, d[j as int]);
                assert(prefix.deep_view() =~= d.take(j + 1));
            }
            j = j + 1;
        }
        let parent = render_components(&prefix);
        let ghost before = out.deep_view();
        let ps = string_of(&parent);
        out.push(ps);
        proof {
            let t = d.take(k as int);
            assert(t.last() == d[k - 1]);
            assert(t.drop_last() =~= d.take(k - 1));
            assert(out.deep_view() =~= before + seq![render(d.take(k - 1))]);
        }
        k = k - 1;
        if k == 0 {
            at_top = true;
        } else {
            at_top = is_root(&cs[k - 1]);
            assert(d[k - 1] =~= cs@[k - 1]@);
        }
    }
    proof {
        let t = d.take(k as int);
        if k > 0 {
            assert(t.last() == d[k - 1]);
            assert(d[k - 1] =~= cs@[k - 1]@);
        }
        assert(parents_of(t) =~= Seq::<Seq<char>>::empty());
    }
    out
}

/// The first of `dirs`, from index `i` on, whose flag is set.
pub open spec fn first_flagged(dirs: Seq<Seq<char>>, flags: Seq<bool>, i: int) -> Option<
    Seq<char>,
>
    decreases dirs.len() - i,
{
    if i < 0 || i >= dirs.len() || i >= flags.len() {
        None
    } else if flags[i] {
        Some(dirs[i])
    } else {
        first_flagged(dirs, flags, i + 1)
    }
}

/// Walk up from `start` looking for a directory containing symmetry.toml:
/// `has_manifest[i]` tells whether the `i`-th of `ancestors(start)` holds
/// one (probing may stop at the first that does). The nearest such
/// directory, or `None`.
pub fn find_root(start: &str, has_manifest: &[bool]) -> (r: Option<String>)
    ensures
        match first_flagged(ancestors_spec(start@), has_manifest@, 0) {
            Some(d) => r matches Some(s) && s@ == d,
            None => r is None,
        },
{
    let anc = ancestors(start);
    let mut i: usize = 0;
    while i < anc.len() && i < has_manifest.len()
        invariant
            i <= anc@.len(),
            anc.deep_view() == ancestors_spec(start@),
            first_flagged(anc.deep_view(), has_manifest@, 0) == first_flagged(
                anc.deep_view(),
                has_manifest@,
                i as int,
            ),
        decreases anc@.len() - i,
    {
        if has_manifest[i] {
            assert(anc.deep_view()[i as int] == anc@[i as int]@);
            return Some(anc[i].clone());
        }
        i = i + 1;
    }
    None
}

// ---------------------------------------------------------------------------
// Picking the env file nearest to the current directory
// ---------------------------------------------------------------------------

/// The components of the directory holding `f` (`parent`, or none).
pub open spec fn dir_comps(f: Seq<char>) -> Seq<Seq<char>> {
    let c = comps(f);
    if c.len() > 0 && c.last() != root() {
        c.drop_last()
    } else {
        seq![]
    }
}

/// How deep the directory holding `f` is.
pub open spec fn depth(f: Seq<char>) -> nat {
    dir_comps(f).len()
}

/// The directory holding `f` contains `cwd` (`cwd.starts_with(dir)`).
pub open spec fn dir_contains(f: Seq<char>, cwd: Seq<char>) -> bool {
    is_prefix(dir_comps(f), comps(cwd))
}

/// The files whose directory contains `cwd`, in order.
pub open spec fn candidates(fs: Seq<Seq<char>>, cwd: Seq<char>) -> Seq<Seq<char>>
    decreases fs.len(),
{
    if fs.len() == 0 {
        seq![]
    } else {
        candidates(fs.drop_last(), cwd) + (if dir_contains(fs.last(), cwd) {
            seq![fs.last()]
        } else {
            seq![]
        })
    }
}

/// The greatest directory depth among `fs` (0 when empty).
pub open spec fn max_depth(fs: Seq<Seq<char>>) -> nat
    decreases fs.len(),
{
    if fs.len() == 0 {
        0
    } else {
        let m = max_depth(fs.drop_last());
        if depth(fs.last()) > m {
            depth(fs.last())
        } else {
            m
        }
    }
}

/// The files of `fs` whose directory has depth `d`, in order.
pub open spec fn at_depth(fs: Seq<Seq<char>>, d: nat) -> Seq<Seq<char>>
    decreases fs.len(),
{
    if fs.len() == 0 {
        seq![]
    } else {
        at_depth(fs.drop_last(), d) + (if depth(fs.last()) == d {
            seq![fs.last()]
        } else {
            seq![]
        })
    }
}

pub enum NearestFailure {
    NoFiles,
    NoMatch,
    Ambiguous(Seq<Seq<char>>),
}

/// Why no single env file could be picked.
#[derive(Debug)]
pub enum NearestError {
    /// The manifest lists no env files.
    NoFiles,
    /// No file's directory contains the current directory.
    NoMatch,
    /// Several files share the deepest matching directory; they are listed.
    Ambiguous(Vec<String>),
}

impl View for NearestError {
    type V = NearestFailure;

    open spec fn view(&self) -> NearestFailure {
        match self {
            NearestError::NoFiles => NearestFailure::NoFiles,
            NearestError::NoMatch => NearestFailure::NoMatch,
            NearestError::Ambiguous(w) => NearestFailure::Ambiguous(w.deep_view()),
        }
    }
}

/// Pick the env file whose directory most closely contains `rel_cwd`.
/// A single-file manifest always wins; otherwise ambiguity is an error.
pub open spec fn nearest_spec(files: Seq<Seq<char>>, rel_cwd: Seq<char>) -> Result<
    Seq<char>,
    NearestFailure,
> {
    if files.len() == 0 {
        Err(NearestFailure::NoFiles)
    } else if files.len() == 1 {
        Ok(files[0])
    } else {
        let c = candidates(files, rel_cwd);
        if c.len() == 0 {
            Err(NearestFailure::NoMatch)
        } else {
            let w = at_depth(c, max_depth(c));
            if w.len() == 1 {
                Ok(w[0])
            } else {
                Err(NearestFailure::Ambiguous(w))
            }
        }
    }
}

/// The number of components of the directory holding a file with
/// components `fc`.
fn dir_len(fc: &Vec<Vec<char>>) -> (n: usize)
    ensures
        dir_comps_of(fc.deep_view()) == fc.deep_view().take(n as int),
        n == dir_comps_of(fc.deep_view()).len(),
{
    let ghost d = fc.deep_view();
    if fc.len() > 0 && !is_root(&fc[fc.len() - 1]) {
        assert(d.last() =~= fc@.last()@);
        assert(d.drop_last() =~= d.take(fc@.len() - 1));
        fc.len() - 1
    } else {
        proof {
            if fc@.len() > 0 {
                assert(d.last() =~= fc@.last()@);
            }
        }
        assert(d.take(0) =~= Seq::<Seq<char>>::empty());
        0
    }
}

/// `dir_comps` on components.
pub open spec fn dir_comps_of(c: Seq<Seq<char>>) -> Seq<Seq<char>> {
    if c.len() > 0 && c.last() != root() {
        c.drop_last()
    } else {
        seq![]
    }
}

/// Whether the first `n` components of `a` are a prefix of `b`.
fn comps_prefix(a: &Vec<Vec<char>>, n: usize, b: &Vec<Vec<char>>) -> (r: bool)
    requires
        n <= a@.len(),
    ensures
        r == is_prefix(a.deep_view().take(n as int), b.deep_view()),
{
    let ghost x = a.deep_view().take(n as int);
    let ghost y = b.deep_view();
    if n > b.len() {
        return false;
    }
    let mut k: usize = 0;
    while k < n
        invariant
            k <= n <= a@.len(),
            n <= b@.len(),
            x == a.deep_view().take(n as int),
            y == b.deep_view(),
            forall|j: int| 0 <= j < k ==> x[j] == y[j],
        decreases n - k,
    {
        assert(x[k as int] =~= a@[k as int]@);
        assert(y[k as int] =~= b@[k as int]@);
        if !crate::text::chars_eq(&a[k], &b[k]) {
            assert(y.take(n as int)[k as int] == y[k as int]);
            return false;
        }
        k = k + 1;
    }
    assert(y.take(n as int) =~= x);
    true
}

/// Pick the env file whose directory most closely contains `rel_cwd`.
/// A single-file manifest always wins; otherwise ambiguity is an error.
pub fn nearest(files: &[String], rel_cwd: &str) -> (r: Result<String, NearestError>)
    ensures
        match nearest_spec(files.deep_view(), rel_cwd@) {
            Ok(f) => r matches Ok(s) && s@ == f,
            Err(e) => r matches Err(x) && x@ == e,
        },
{
    let ghost fs = files.deep_view();
    if files.len() == 0 {
        return Err(NearestError::NoFiles);
    }
    if files.len() == 1 {
        assert(fs[0] == files@[0]@);
        return Ok(files[0].clone());
    }
    let cwd = components(&chars_of(rel_cwd));
    let mut cands: Vec<String> = Vec::new();
    let mut depths: Vec<usize> = Vec::new();
    let mut i: usize = 0;
    assert(fs.take(0) =~= Seq::<Seq<char>>::empty());
    assert(cands.deep_view() =~= Seq::<Seq<char>>::empty());
    while i < files.len()
        invariant
            i <= files@.len(),
            fs == files.deep_view(),
            cwd.deep_view() == comps(rel_cwd@),
            cands.deep_view() == candidates(fs.take(i as int), rel_cwd@),
            depths@.len() == cands@.len(),
            forall|j: int| 0 <= j < depths@.len() ==> depths@[j] == depth(cands.deep_view()[j]),
        decreases files@.len() - i,
    {
        let fc = components(&chars_of(files[i].as_str()));
        let n = dir_len(&fc);
        let hit = comps_prefix(&fc, n, &cwd);
        proof {
            assert(fs[i as int] == files@[i as int]@);
            assert(fs.take(i + 1).drop_last() =~= fs.take(i as int));
            assert(fs.take(i + 1).last() == fs[i as int]);
        }
        if hit {
            let ghost before = cands.deep_view();
            cands.push(files[i].clone());
            depths.push(n);
            proof {
                assert(cands.deep_view() =~= before + seq![fs[i as int]]);
                assert forall|j: int| 0 <= j < depths@.len() implies depths@[j] == depth(
                    cands.deep_view()[j],
                ) by {
                    if j < before.len() {
                        assert(cands.deep_view()[j] == before[j]);
                    }
                }
            }
        } else {
            assert(cands.deep_view() =~= candidates(fs.take(i + 1), rel_cwd@));
        }
        i = i + 1;
    }
    assert(fs.take(i as int) =~= fs);
    let ghost c = cands.deep_view();
    if cands.len() == 0 {
        return Err(NearestError::NoMatch);
    }
    let mut deepest: usize = 0;
    let mut k: usize = 0;
    assert(c.take(0) =~= Seq::<Seq<char>>::empty());
    while k < cands.len()
        invariant
            k <= cands@.len(),
            c == cands.deep_view(),
            depths@.len() == cands@.len(),
            forall|j: int| 0 <= j < depths@.len() ==> depths@[j] == depth(c[j]),
            deepest == max_depth(c.take(k as int)),
        decreases cands@.len() - k,
    {
        assert(c.take(k + 1).drop_last() =~= c.take(k as int));
        assert(c.take(k + 1).last() == c[k as int]);
        if depths[k] > deepest {
            deepest = depths[k];
        }
        k = k + 1;
    }
    assert(c.take(k as int) =~= c);
    let mut winners: Vec<String> = Vec::new();
    let mut k: usize = 0;
    assert(winners.deep_view() =~= at_depth(c.take(0), deepest as nat));
    while k < cands.len()
        invariant
            k <= cands@.len(),
            c == cands.deep_view(),
            depths@.len() == cands@.len(),
            forall|j: int| 0 <= j < depths@.len() ==> depths@[j] == depth(c[j]),
            winners.deep_view() == at_depth(c.take(k as int), deepest as nat),
        decreases cands@.len() - k,
    {
        assert(c.take(k + 1).drop_last() =~= c.take(k as int));
        assert(c.take(k + 1).last() == c[k as int]);
        if depths[k] == deepest {
            let ghost before = winners.deep_view();
            winners.push(cands[k].clone());
            assert(c[k as int] == cands@[k as int]@);
            assert(winners.deep_view() =~= before + seq![c[k as int]]);
        }
        k = k + 1;
    }
    assert(c.take(k as int) =~= c);
    if winners.len() == 1 {
        assert(winners.deep_view()[0] == winners@[0]@);
        Ok(winners[0].clone())
    } else {
        Err(NearestError::Ambiguous(winners))
    }
}


// ---------------------------------------------------------------------------
// Comparing paths
// ---------------------------------------------------------------------------

/// Whether two paths are equal as `Path` compares them: component by component.
pub fn same_path(a: &str, b: &str) -> (r: bool)
    ensures
        r == (comps(a@) == comps(b@)),
{
    let x = components(&chars_of(a));
    let y = components(&chars_of(b));
    let ghost xd = x.deep_view();
    let ghost yd = y.deep_view();
    if x.len() != y.len() {
        assert(xd.len() != yd.len());
        return false;
    }
    let mut k: usize = 0;
    while k < x.len()
        invariant
            k <= x@.len(),
            x@.len() == y@.len(),
            xd == x.deep_view(),
            yd == y.deep_view(),
            xd == comps(a@),
            yd == comps(b@),
            forall|j: int| 0 <= j < k ==> xd[j] == yd[j],
        decreases x@.len() - k,
    {
        assert(xd[k as int] =~= x@[k as int]@);
        assert(yd[k as int] =~= y@[k as int]@);
        if !crate::text::chars_eq(&x[k], &y[k]) {
            assert(xd[k as int] != yd[k as int]);
            return false;
        }
        k = k + 1;
    }
    assert(xd =~= yd);
    true
}

/// Whether `p` lies at or under `base` (`p.starts_with(base)`).
pub fn starts_with_path(p: &str, base: &str) -> (r: bool)
    ensures
        r == is_prefix(comps(base@), comps(p@)),
{
    let x = components(&chars_of(base));
    let y = components(&chars_of(p));
    assert(x.deep_view().take(x@.len() as int) =~= x.deep_view());
    comps_prefix(&x, x.len(), &y)
}

/// `p` with the leading components of `base` removed (`Path::strip_prefix`,
/// the rest written with single separators), or `None` when `base` is not
/// a prefix of `p`.
pub open spec fn strip_prefix_spec(base: Seq<char>, p: Seq<char>) -> Option<Seq<char>> {
    let b = comps(base);
    let c = comps(p);
    if is_prefix(b, c) {
        Some(render(c.skip(b.len() as int)))
    } else {
        None
    }
}

/// `p` with the leading components of `base` removed, or `None`.
pub fn strip_prefix(base: &str, p: &str) -> (r: Option<String>)
    ensures
        match strip_prefix_spec(base@, p@) {
            Some(s) => r matches Some(x) && x@ == s,
            None => r is None,
        },
{
    let bc = components(&chars_of(base));
    let pc = components(&chars_of(p));
    assert(bc.deep_view().take(bc@.len() as int) =~= bc.deep_view());
    if !comps_prefix(&bc, bc.len(), &pc) {
        return None;
    }
    let ghost n = pc.deep_view();
    let mut rest: Vec<Vec<char>> = Vec::new();
    let mut j: usize = bc.len();
    assert(rest.deep_view() =~= n.subrange(bc@.len() as int, j as int));
    while j < pc.len()
        invariant
            bc@.len() <= j <= pc@.len(),
            n == pc.deep_view(),
            rest.deep_view() == n.subrange(bc@.len() as int, j as int),
        decreases pc@.len() - j,
    {
        let ghost before = rest.deep_view();
        rest.push(pc[j].clone());
        proof {
            assert(n[j as int] =~= pc@[j as int]@);
            assert(rest.deep_view().drop_last() =~= before);
            lemma_deep_view_push(rest, before, n[j as int]);
            assert(rest.deep_view() =~= n.subrange(bc@.len() as int, j + 1));
        }
        j = j + 1;
    }
    assert(n.subrange(bc@.len() as int, n.len() as int) =~= n.skip(bc@.len() as int));
    let out = render_components(&rest);
    Some(string_of(&out))
}

/// The current directory relative to the project root; the root itself
/// when it is not inside the root.
pub open spec fn rel_cwd_spec(root: Seq<char>, cwd: Seq<char>) -> Seq<char> {
    match strip_prefix_spec(root, cwd) {
        Some(r) => r,
        None => seq![],
    }
}

pub fn rel_cwd(root: &str, cwd: &str) -> (r: String)
    ensures
        r@ == rel_cwd_spec(root@, cwd@),
{
    match strip_prefix(root, cwd) {
        Some(r) => r,
        None => String::new(),
    }
}

// ---------------------------------------------------------------------------
// The nearest file is the deepest match
// ---------------------------------------------------------------------------

/// The entries of `fs` for which `p` holds, in order.
pub(crate) open spec fn keep(fs: Seq<Seq<char>>, p: spec_fn(Seq<char>) -> bool) -> Seq<Seq<char>>
    decreases fs.len(),
{
    if fs.len() == 0 {
        seq![]
    } else {
        keep(fs.drop_last(), p) + (if p(fs.last()) {
            seq![fs.last()]
        } else {
            seq![]
        })
    }
}

proof fn lemma_candidates_keep(fs: Seq<Seq<char>>, cwd: Seq<char>)
    ensures
        candidates(fs, cwd) == keep(fs, |f: Seq<char>| dir_contains(f, cwd)),
    decreases fs.len(),
{
    if fs.len() > 0 {
        lemma_candidates_keep(fs.drop_last(), cwd);
    }
}

proof fn lemma_at_depth_keep(fs: Seq<Seq<char>>, d: nat)
    ensures
        at_depth(fs, d) == keep(fs, |f: Seq<char>| depth(f) == d),
    decreases fs.len(),
{
    if fs.len() > 0 {
        lemma_at_depth_keep(fs.drop_last(), d);
    }
}

proof fn lemma_keep_concat(a: Seq<Seq<char>>, b: Seq<Seq<char>>, p: spec_fn(Seq<char>) -> bool)
    ensures
        keep(a + b, p) == keep(a, p) + keep(b, p),
    decreases b.len(),
{
    if b.len() == 0 {
        assert(a + b =~= a);
        assert(keep(a, p) + keep(b, p) =~= keep(a, p));
    } else {
        assert((a + b).drop_last() =~= a + b.drop_last());
        assert((a + b).last() == b.last());
        lemma_keep_concat(a, b.drop_last(), p);
        let tail = if p(b.last()) {
            seq![b.last()]
        } else {
            seq![]
        };
        assert(keep(a, p) + keep(b.drop_last(), p) + tail =~= keep(a, p) + (keep(
            b.drop_last(),
            p,
        ) + tail));
    }
}

proof fn lemma_keep_single(x: Seq<char>, p: spec_fn(Seq<char>) -> bool)
    ensures
        keep(seq![x], p) == (if p(x) {
            seq![x]
        } else {
            seq![]
        }),
{
    let s = seq![x];
    assert(s.drop_last() =~= Seq::<Seq<char>>::empty());
    assert(keep(s.drop_last(), p) == Seq::<Seq<char>>::empty());
}

/// `pos` gives, for each entry of `r`, a position of `fs` holding it, the
/// positions strictly increasing.
pub open spec fn positions_in(pos: Seq<int>, r: Seq<Seq<char>>, fs: Seq<Seq<char>>) -> bool {
    &&& pos.len() == r.len()
    &&& forall|k: int| 0 <= k < r.len() ==> 0 <= #[trigger] pos[k] < fs.len() && fs[pos[k]] == r[k]
    &&& forall|a: int, b: int| 0 <= a < b < r.len() ==> #[trigger] pos[a] < #[trigger] pos[b]
}

/// `r` is `fs` with some entries left out, the others in their order.
pub open spec fn subsequence_of(r: Seq<Seq<char>>, fs: Seq<Seq<char>>) -> bool {
    exists|pos: Seq<int>| #[trigger] positions_in(pos, r, fs)
}

/// `keep` leaves entries out and keeps the others in order.
pub(crate) proof fn lemma_keep_subsequence(fs: Seq<Seq<char>>, p: spec_fn(Seq<char>) -> bool)
    ensures
        subsequence_of(keep(fs, p), fs),
    decreases fs.len(),
{
    if fs.len() == 0 {
        assert(positions_in(Seq::<int>::empty(), keep(fs, p), fs));
    } else {
        let a = keep(fs.drop_last(), p);
        lemma_keep_subsequence(fs.drop_last(), p);
        let pos0 = choose|pos: Seq<int>| #[trigger] positions_in(pos, a, fs.drop_last());
        assert forall|k: int| 0 <= k < a.len() implies 0 <= #[trigger] pos0[k] < fs.len() && fs[pos0[k]]
            == a[k] by {
            assert(fs.drop_last()[pos0[k]] == fs[pos0[k]]);
        }
        if p(fs.last()) {
            let pos = pos0.push(fs.len() - 1);
            let r = keep(fs, p);
            assert(r == a + seq![fs.last()]);
            assert forall|k: int| 0 <= k < r.len() implies 0 <= #[trigger] pos[k] < fs.len() && fs[pos[k]]
                == r[k] by {
                if k < a.len() {
                    assert(pos[k] == pos0[k]);
                }
            }
            assert forall|x: int, y: int| 0 <= x < y < r.len() implies #[trigger] pos[x] < #[trigger] pos[y] by {
                assert(pos[x] == pos0[x]);
                if y < a.len() {
                    assert(pos[y] == pos0[y]);
                }
            }
            assert(positions_in(pos, r, fs));
        } else {
            assert(keep(fs, p) =~= a);
            assert(positions_in(pos0, keep(fs, p), fs));
        }
    }
}

/// An entry of `fs` is in `keep` exactly when `p` holds of it.
pub(crate) proof fn lemma_keep_exact(fs: Seq<Seq<char>>, p: spec_fn(Seq<char>) -> bool)
    ensures
        forall|k: int|
            0 <= k < keep(fs, p).len() ==> p(#[trigger] keep(fs, p)[k]) && fs.contains(keep(fs, p)[k]),
        forall|j: int| 0 <= j < fs.len() && p(#[trigger] fs[j]) ==> keep(fs, p).contains(fs[j]),
{
    lemma_keep_members(fs, p);
    assert forall|j: int| 0 <= j < fs.len() && p(#[trigger] fs[j]) implies keep(fs, p).contains(fs[j]) by {
        lemma_keep_index(fs, p, j);
    }
}

/// What `keep` holds: entries for which `p` holds, each one of `fs`.
proof fn lemma_keep_members(fs: Seq<Seq<char>>, p: spec_fn(Seq<char>) -> bool)
    ensures
        forall|k: int|
            0 <= k < keep(fs, p).len() ==> p(#[trigger] keep(fs, p)[k]) && exists|j: int|
                0 <= j < fs.len() && fs[j] == keep(fs, p)[k],
    decreases fs.len(),
{
    if fs.len() > 0 {
        let a = keep(fs.drop_last(), p);
        lemma_keep_members(fs.drop_last(), p);
        let r = keep(fs, p);
        assert forall|k: int| 0 <= k < r.len() implies p(#[trigger] r[k]) && exists|j: int|
            0 <= j < fs.len() && fs[j] == r[k] by {
            if k < a.len() {
                assert(r[k] == a[k]);
                let j = choose|j: int| 0 <= j < fs.drop_last().len() && fs.drop_last()[j] == a[k];
                assert(fs[j] == fs.drop_last()[j]);
            } else {
                assert(r[k] == fs.last());
                assert(fs[fs.len() - 1] == fs.last());
            }
        }
    }
}

/// Where entry `j` of `fs` lands in `keep`, and that later entries land
/// later.
proof fn lemma_keep_index(fs: Seq<Seq<char>>, p: spec_fn(Seq<char>) -> bool, j: int)
    requires
        0 <= j < fs.len(),
        p(fs[j]),
    ensures
        keep(fs.take(j), p).len() < keep(fs, p).len(),
        keep(fs, p)[keep(fs.take(j), p).len() as int] == fs[j],
        forall|i: int|
            j < i < fs.len() ==> keep(fs.take(j), p).len() < #[trigger] keep(fs.take(i), p).len(),
{
    let a = fs.take(j);
    lemma_keep_single(fs[j], p);
    assert(fs =~= (a + seq![fs[j]]) + fs.skip(j + 1));
    lemma_keep_concat(a + seq![fs[j]], fs.skip(j + 1), p);
    lemma_keep_concat(a, seq![fs[j]], p);
    assert forall|i: int| j < i < fs.len() implies keep(fs.take(j), p).len() < #[trigger] keep(
        fs.take(i),
        p,
    ).len() by {
        assert(fs.take(i) =~= (a + seq![fs[j]]) + fs.subrange(j + 1, i));
        lemma_keep_concat(a + seq![fs[j]], fs.subrange(j + 1, i), p);
    }
}

/// Two distinct entries for which `p` holds make `keep` at least two long.
proof fn lemma_keep_two(fs: Seq<Seq<char>>, p: spec_fn(Seq<char>) -> bool, i: int, j: int)
    requires
        0 <= i < j < fs.len(),
        p(fs[i]),
        p(fs[j]),
    ensures
        keep(fs, p).len() >= 2,
{
    lemma_keep_index(fs, p, i);
    lemma_keep_index(fs, p, j);
    assert(keep(fs.take(i), p).len() < keep(fs.take(j), p).len());
}

proof fn lemma_max_depth_bound(fs: Seq<Seq<char>>)
    ensures
        forall|k: int| 0 <= k < fs.len() ==> depth(#[trigger] fs[k]) <= max_depth(fs),
    decreases fs.len(),
{
    if fs.len() > 0 {
        lemma_max_depth_bound(fs.drop_last());
        assert forall|k: int| 0 <= k < fs.len() implies depth(#[trigger] fs[k]) <= max_depth(
            fs,
        ) by {
            if k < fs.len() - 1 {
                assert(fs[k] == fs.drop_last()[k]);
            }
        }
    }
}

/// With two or more files, the one picked lies in a directory that
/// contains the current directory, and every other file whose directory
/// contains it lies strictly shallower; no file is picked exactly when no
/// file's directory contains the current directory.
pub proof fn law_nearest_is_deepest(files: Seq<Seq<char>>, cwd: Seq<char>)
    requires
        files.len() >= 2,
    ensures
        nearest_spec(files, cwd) matches Ok(f) ==> exists|i: int|
            0 <= i < files.len() && files[i] == f && dir_contains(f, cwd) && forall|j: int|
                0 <= j < files.len() && j != i && dir_contains(#[trigger] files[j], cwd)
                    ==> depth(files[j]) < depth(f),
        nearest_spec(files, cwd) matches Err(NearestFailure::NoMatch) <==> forall|j: int|
            0 <= j < files.len() ==> !dir_contains(#[trigger] files[j], cwd),
{
    let pc = |f: Seq<char>| dir_contains(f, cwd);
    let c = candidates(files, cwd);
    lemma_candidates_keep(files, cwd);
    lemma_keep_members(files, pc);
    assert(c == keep(files, pc));
    if exists|j: int| 0 <= j < files.len() && dir_contains(#[trigger] files[j], cwd) {
        let j = choose|j: int| 0 <= j < files.len() && dir_contains(#[trigger] files[j], cwd);
        lemma_keep_index(files, pc, j);
    }
    if c.len() > 0 {
        assert(pc(c[0]));
    }
    if c.len() > 0 {
        let m = max_depth(c);
        let pd = |f: Seq<char>| depth(f) == m;
        let w = at_depth(c, m);
        lemma_at_depth_keep(c, m);
        lemma_keep_members(c, pd);
        lemma_max_depth_bound(c);
        if w.len() == 1 {
            let f = w[0];
            assert(pd(w[0]));
            let k0 = choose|k: int| 0 <= k < c.len() && c[k] == w[0];
            assert(pc(c[k0]));
            let i = choose|i: int| 0 <= i < files.len() && files[i] == c[k0];
            assert forall|j: int|
                0 <= j < files.len() && j != i && dir_contains(#[trigger] files[j], cwd) implies depth(
                files[j],
            ) < depth(f) by {
                lemma_keep_index(files, pc, j);
                lemma_keep_index(files, pc, i);
                let kj = keep(files.take(j), pc).len() as int;
                let ki = keep(files.take(i), pc).len() as int;
                assert(depth(c[kj]) <= m);
                if depth(files[j]) == m {
                    assert(ki != kj);
                    if ki < kj {
                        lemma_keep_two(c, pd, ki, kj);
                    } else {
                        lemma_keep_two(c, pd, kj, ki);
                    }
                }
            }
        }
    }
}

proof fn lemma_keep_keep(fs: Seq<Seq<char>>, p: spec_fn(Seq<char>) -> bool, q: spec_fn(Seq<char>) -> bool)
    ensures
        keep(keep(fs, p), q) == keep(fs, |f: Seq<char>| p(f) && q(f)),
    decreases fs.len(),
{
    if fs.len() > 0 {
        lemma_keep_keep(fs.drop_last(), p, q);
        let x = fs.last();
        let tail = if p(x) {
            seq![x]
        } else {
            seq![]
        };
        lemma_keep_concat(keep(fs.drop_last(), p), tail, q);
        lemma_keep_single(x, q);
        if !p(x) {
            assert(keep(tail, q) =~= Seq::<Seq<char>>::empty()) by {
                assert(tail =~= Seq::<Seq<char>>::empty());
            }
        }
        assert(keep(keep(fs.drop_last(), p), q) + keep(tail, q) =~= keep(
            fs,
            |f: Seq<char>| p(f) && q(f),
        ));
    }
}

proof fn lemma_keep_none(fs: Seq<Seq<char>>, p: spec_fn(Seq<char>) -> bool)
    requires
        forall|j: int| 0 <= j < fs.len() ==> !p(#[trigger] fs[j]),
    ensures
        keep(fs, p) == Seq::<Seq<char>>::empty(),
    decreases fs.len(),
{
    if fs.len() > 0 {
        assert forall|j: int| 0 <= j < fs.drop_last().len() implies !p(
            #[trigger] fs.drop_last()[j],
        ) by {
            assert(fs.drop_last()[j] == fs[j]);
        }
        lemma_keep_none(fs.drop_last(), p);
        assert(!p(fs[fs.len() - 1]));
        assert(keep(fs, p) =~= Seq::<Seq<char>>::empty());
    }
}

proof fn lemma_keep_unique(fs: Seq<Seq<char>>, p: spec_fn(Seq<char>) -> bool, i: int)
    requires
        0 <= i < fs.len(),
        p(fs[i]),
        forall|j: int| 0 <= j < fs.len() && j != i ==> !p(#[trigger] fs[j]),
    ensures
        keep(fs, p) == seq![fs[i]],
    decreases fs.len(),
{
    let d = fs.drop_last();
    if i == fs.len() - 1 {
        assert forall|j: int| 0 <= j < d.len() implies !p(#[trigger] d[j]) by {
            assert(d[j] == fs[j]);
        }
        lemma_keep_none(d, p);
        assert(keep(fs, p) =~= seq![fs[i]]);
    } else {
        assert forall|j: int| 0 <= j < d.len() && j != i implies !p(#[trigger] d[j]) by {
            assert(d[j] == fs[j]);
        }
        assert(d[i] == fs[i]);
        lemma_keep_unique(d, p, i);
        assert(!p(fs[fs.len() - 1]));
        assert(keep(fs, p) =~= seq![fs[i]]);
    }
}

proof fn lemma_max_depth_attained(fs: Seq<Seq<char>>)
    requires
        fs.len() > 0,
    ensures
        exists|k: int| 0 <= k < fs.len() && depth(#[trigger] fs[k]) == max_depth(fs),
    decreases fs.len(),
{
    let d = fs.drop_last();
    if d.len() == 0 {
        assert(depth(fs[0]) == max_depth(fs));
    } else {
        lemma_max_depth_attained(d);
        if depth(fs.last()) > max_depth(d) {
            assert(depth(fs[fs.len() - 1]) == max_depth(fs));
        } else {
            let k = choose|k: int| 0 <= k < d.len() && depth(#[trigger] d[k]) == max_depth(d);
            assert(fs[k] == d[k]);
        }
    }
}

/// With two or more files, the file picked is one of them whose
/// directory's components are, one by one, the first components of the
/// current directory (a directory `api` does not contain `api-gateway/src`:
/// names are compared whole); every other file whose directory's
/// components begin the current directory's lies in a shallower
/// directory; and no file is picked for want of a match exactly when no
/// file's directory's components begin the current directory's.
pub proof fn law_nearest_by_components(files: Seq<Seq<char>>, cwd: Seq<char>)
    requires
        files.len() >= 2,
    ensures
        nearest_spec(files, cwd) matches Ok(f) ==> files.contains(f) && dir_comps(f).len()
            <= comps(cwd).len() && forall|k: int|
            0 <= k < dir_comps(f).len() ==> #[trigger] dir_comps(f)[k] == comps(cwd)[k],
        nearest_spec(files, cwd) matches Ok(f) ==> forall|j: int|
            0 <= j < files.len() && #[trigger] files[j] != f && dir_comps(files[j]).len() <= comps(
                cwd,
            ).len() && (forall|k: int|
                0 <= k < dir_comps(files[j]).len() ==> dir_comps(files[j])[k] == comps(cwd)[k])
                ==> dir_comps(files[j]).len() < dir_comps(f).len(),
        nearest_spec(files, cwd) matches Err(NearestFailure::NoMatch) <==> forall|j: int|
            0 <= j < files.len() ==> !(dir_comps(#[trigger] files[j]).len() <= comps(cwd).len()
                && forall|k: int|
                0 <= k < dir_comps(files[j]).len() ==> dir_comps(files[j])[k] == comps(cwd)[k]),
{
    law_nearest_is_deepest(files, cwd);
    let c = comps(cwd);
    assert forall|f: Seq<char>| dir_contains(f, cwd) <==> (dir_comps(f).len() <= c.len() && forall|k: int|
        0 <= k < dir_comps(f).len() ==> dir_comps(f)[k] == c[k]) by {
        let d = dir_comps(f);
        if dir_contains(f, cwd) {
            assert forall|k: int| 0 <= k < d.len() implies d[k] == c[k] by {
                assert(c.take(d.len() as int)[k] == c[k]);
            }
        }
        if d.len() <= c.len() && forall|k: int| 0 <= k < d.len() ==> d[k] == c[k] {
            assert(c.take(d.len() as int) =~= d);
        }
    }
    if nearest_spec(files, cwd) is Ok {
        let f = nearest_spec(files, cwd)->Ok_0;
        let i = choose|i: int|
            0 <= i < files.len() && files[i] == f && dir_contains(f, cwd) && forall|j: int|
                0 <= j < files.len() && j != i && dir_contains(#[trigger] files[j], cwd)
                    ==> depth(files[j]) < depth(f);
        assert(files[i] == f);
    }
}

/// With two or more files, a file whose directory contains the current
/// directory and lies strictly deeper than that of every other such file
/// is the one picked.
pub proof fn law_nearest_picks_unique_deepest(files: Seq<Seq<char>>, cwd: Seq<char>, i: int)
    requires
        files.len() >= 2,
        0 <= i < files.len(),
        dir_contains(files[i], cwd),
        forall|j: int|
            0 <= j < files.len() && j != i && dir_contains(#[trigger] files[j], cwd) ==> depth(
                files[j],
            ) < depth(files[i]),
    ensures
        nearest_spec(files, cwd) == Ok::<Seq<char>, NearestFailure>(files[i]),
{
    let pc = |f: Seq<char>| dir_contains(f, cwd);
    let c = candidates(files, cwd);
    lemma_candidates_keep(files, cwd);
    lemma_keep_members(files, pc);
    lemma_keep_index(files, pc, i);
    let ki = keep(files.take(i), pc).len() as int;
    assert(c[ki] == files[i]);
    let m = max_depth(c);
    lemma_max_depth_bound(c);
    lemma_max_depth_attained(c);
    let k = choose|k: int| 0 <= k < c.len() && depth(#[trigger] c[k]) == m;
    assert(pc(c[k]));
    let j = choose|j: int| 0 <= j < files.len() && files[j] == c[k];
    assert(depth(files[i]) <= m);
    if j != i {
        assert(dir_contains(files[j], cwd));
    }
    assert(depth(files[i]) == m);
    let pd = |f: Seq<char>| depth(f) == m;
    lemma_at_depth_keep(c, m);
    lemma_keep_keep(files, pc, pd);
    let both = |f: Seq<char>| pc(f) && pd(f);
    assert forall|j2: int| 0 <= j2 < files.len() && j2 != i implies !both(#[trigger] files[j2]) by {
        if dir_contains(files[j2], cwd) {
            assert(depth(files[j2]) < depth(files[i]));
        }
    }
    lemma_keep_unique(files, both, i);
    assert(at_depth(c, m) == seq![files[i]]);
}

// ---------------------------------------------------------------------------
// Normal form
// ---------------------------------------------------------------------------

/// A component that normalization keeps besides the root: a name that is
/// neither `.` nor `..` and holds no separator.
pub open spec fn plain_name(c: Seq<char>) -> bool {
    c.len() > 0 && lacks(c, '/') && c != dot() && c != dot_dot()
}

/// Components in normal form: the root, if any, first, then plain names.
pub open spec fn clean_stack(st: Seq<Seq<char>>) -> bool {
    forall|k: int| 0 <= k < st.len() ==> (k == 0 && #[trigger] st[k] == root()) || plain_name(st[k])
}

proof fn lemma_segments_lack_slash(s: Seq<char>)
    ensures
        forall|k: int| 0 <= k < segments(s).len() ==> lacks(#[trigger] segments(s)[k], '/'),
    decreases s.len(),
{
    let i = find(s, '/');
    lemma_find(s, '/');
    if 0 <= i < s.len() {
        lemma_segments_lack_slash(s.skip(i + 1));
        let r = segments(s);
        assert forall|k: int| 0 <= k < r.len() implies lacks(#[trigger] r[k], '/') by {
            if k == 0 {
                assert(r[0] == s.take(i));
            } else {
                assert(r[k] == segments(s.skip(i + 1))[k - 1]);
            }
        }
    }
}

proof fn lemma_named_props(segs: Seq<Seq<char>>)
    requires
        forall|k: int| 0 <= k < segs.len() ==> lacks(#[trigger] segs[k], '/'),
    ensures
        forall|k: int|
            0 <= k < named(segs).len() ==> is_named(#[trigger] named(segs)[k]) && lacks(
                named(segs)[k],
                '/',
            ),
    decreases segs.len(),
{
    if segs.len() > 0 {
        assert forall|k: int| 0 <= k < segs.drop_first().len() implies lacks(
            #[trigger] segs.drop_first()[k],
            '/',
        ) by {
            assert(segs.drop_first()[k] == segs[k + 1]);
        }
        lemma_named_props(segs.drop_first());
        let t = named(segs.drop_first());
        let h = if is_named(segs[0]) {
            seq![segs[0]]
        } else {
            seq![]
        };
        let r = named(segs);
        assert(r == h + t);
        assert forall|k: int| 0 <= k < r.len() implies is_named(#[trigger] r[k]) && lacks(
            r[k],
            '/',
        ) by {
            if k < h.len() {
                assert(r[k] == segs[0]);
            } else {
                assert(r[k] == t[k - h.len()]);
            }
        }
    }
}

/// Normalization of components that start with at most a root or `.`
/// and are otherwise names without separators gives a clean stack.
proof fn lemma_norm_stack_clean(cs: Seq<Seq<char>>, st: Seq<Seq<char>>)
    requires
        clean_stack(st),
        cs.len() > 0 && cs[0] == root() ==> st.len() == 0,
        forall|k: int| 0 < k < cs.len() ==> #[trigger] cs[k] != root(),
        forall|k: int|
            0 <= k < cs.len() ==> #[trigger] cs[k] == root() || cs[k] == dot() || (cs[k].len() > 0
                && lacks(cs[k], '/')),
    ensures
        clean_stack(norm_stack(cs, st)),
    decreases cs.len(),
{
    if cs.len() > 0 {
        let c = cs[0];
        let st2 = if c == dot() {
            st
        } else if c == dot_dot() {
            if st.len() > 0 && st.last() != root() {
                st.drop_last()
            } else {
                st
            }
        } else {
            st.push(c)
        };
        assert(clean_stack(st2)) by {
            if c == dot() {
            } else if c == dot_dot() {
                if st.len() > 0 && st.last() != root() {
                    assert forall|k: int| 0 <= k < st2.len() implies (k == 0 && #[trigger] st2[k]
                        == root()) || plain_name(st2[k]) by {
                        assert(st2[k] == st[k]);
                    }
                }
            } else {
                assert forall|k: int| 0 <= k < st2.len() implies (k == 0 && #[trigger] st2[k]
                    == root()) || plain_name(st2[k]) by {
                    if k < st.len() {
                        assert(st2[k] == st[k]);
                    } else {
                        assert(st2[k] == c);
                    }
                }
            }
        }
        let d = cs.drop_first();
        assert forall|k: int| 0 < k < d.len() implies #[trigger] d[k] != root() by {
            assert(d[k] == cs[k + 1]);
        }
        assert forall|k: int| 0 <= k < d.len() implies #[trigger] d[k] == root() || d[k] == dot()
            || (d[k].len() > 0 && lacks(d[k], '/')) by {
            assert(d[k] == cs[k + 1]);
        }
        if d.len() > 0 {
            assert(d[0] == cs[1]);
        }
        lemma_norm_stack_clean(d, st2);
    }
}

proof fn lemma_norm_stack_plain(cs: Seq<Seq<char>>, st: Seq<Seq<char>>)
    requires
        forall|k: int| 0 <= k < cs.len() ==> #[trigger] cs[k] != dot() && cs[k] != dot_dot(),
    ensures
        norm_stack(cs, st) == st + cs,
    decreases cs.len(),
{
    if cs.len() > 0 {
        let d = cs.drop_first();
        assert forall|k: int| 0 <= k < d.len() implies #[trigger] d[k] != dot() && d[k]
            != dot_dot() by {
            assert(d[k] == cs[k + 1]);
        }
        lemma_norm_stack_plain(d, st.push(cs[0]));
        assert(st.push(cs[0]) + d =~= st + cs);
    } else {
        assert(st + cs =~= st);
    }
}

proof fn lemma_named_all(ns: Seq<Seq<char>>)
    requires
        forall|k: int| 0 <= k < ns.len() ==> is_named(#[trigger] ns[k]),
    ensures
        named(ns) == ns,
    decreases ns.len(),
{
    if ns.len() > 0 {
        let d = ns.drop_first();
        assert forall|k: int| 0 <= k < d.len() implies is_named(#[trigger] d[k]) by {
            assert(d[k] == ns[k + 1]);
        }
        lemma_named_all(d);
        assert(is_named(ns[0]));
        assert(seq![ns[0]] + d =~= ns);
    }
}

proof fn lemma_segments_join(ns: Seq<Seq<char>>)
    requires
        ns.len() > 0,
        forall|k: int| 0 <= k < ns.len() ==> plain_name(#[trigger] ns[k]),
    ensures
        segments(join_slash(ns)) == ns,
    decreases ns.len(),
{
    let a = ns[0];
    assert(plain_name(a));
    if ns.len() == 1 {
        lemma_find_at(a, '/', a.len() as int);
        assert(join_slash(ns) == a);
        assert(segments(a) =~= ns);
    } else {
        let d = ns.drop_first();
        assert forall|k: int| 0 <= k < d.len() implies plain_name(#[trigger] d[k]) by {
            assert(d[k] == ns[k + 1]);
        }
        lemma_segments_join(d);
        let j = join_slash(ns);
        assert(j == a + seq!['/'] + join_slash(d));
        lemma_find_at(j, '/', a.len() as int);
        assert(j.take(a.len() as int) =~= a);
        assert(j.skip(a.len() + 1int) =~= join_slash(d));
        assert(segments(j) =~= ns);
    }
}

proof fn lemma_named_empty_segment()
    ensures
        named(seq![Seq::<char>::empty()]) == Seq::<Seq<char>>::empty(),
{
    let e = Seq::<char>::empty();
    let s = seq![e];
    assert(s[0] == e);
    assert(!is_named(e));
    assert(s.drop_first() =~= Seq::<Seq<char>>::empty());
    assert(named(s.drop_first()) == Seq::<Seq<char>>::empty());
    assert(named(s) =~= Seq::<Seq<char>>::empty());
}

proof fn lemma_comps_render_clean(st: Seq<Seq<char>>)
    requires
        clean_stack(st),
    ensures
        comps(render(st)) == st,
{
    if st.len() == 0 {
        let e = Seq::<char>::empty();
        lemma_find_at(e, '/', 0);
        assert(segments(e) =~= seq![e]);
        lemma_named_empty_segment();
        assert(render(st) =~= e);
        assert(comps(e) =~= st);
    } else if st[0] == root() {
        let ns = st.drop_first();
        assert forall|k: int| 0 <= k < ns.len() implies plain_name(#[trigger] ns[k]) by {
            assert(ns[k] == st[k + 1]);
            if st[k + 1] == root() {
                assert(plain_name(st[k + 1]));
            }
        }
        let j = join_slash(ns);
        let p = render(st);
        assert(p == seq!['/'] + j);
        lemma_find_at(p, '/', 0);
        assert(p.take(0) =~= Seq::<char>::empty());
        assert(p.skip(1) =~= j);
        assert(segments(p) =~= seq![Seq::<char>::empty()] + segments(j));
        assert(seq![Seq::<char>::empty()] + segments(j) =~= seq![Seq::<char>::empty()].add(
            segments(j),
        ));
        let sp = segments(p);
        assert(sp[0] == Seq::<char>::empty());
        assert(sp.drop_first() =~= segments(j));
        if ns.len() > 0 {
            lemma_segments_join(ns);
            assert forall|k: int| 0 <= k < ns.len() implies is_named(#[trigger] ns[k]) by {
                assert(plain_name(ns[k]));
            }
            lemma_named_all(ns);
        } else {
            lemma_find_at(j, '/', 0);
            assert(j =~= Seq::<char>::empty());
            assert(segments(j) =~= seq![Seq::<char>::empty()]);
            lemma_named_empty_segment();
        }
        assert(!is_named(sp[0]));
        assert(named(sp) =~= named(sp.drop_first()));
        assert(named(sp) == ns);
        assert(st =~= seq![root()] + ns);
        assert(lead(p) =~= seq![root()]);
        assert(comps(p) =~= st);
    } else {
        assert forall|k: int| 0 <= k < st.len() implies plain_name(#[trigger] st[k]) by {
            if st[k] == root() {
                assert(root()[0] == '/');
                assert(!plain_name(root()));
            }
        }
        assert forall|k: int| 0 <= k < st.len() implies is_named(#[trigger] st[k]) by {
            assert(plain_name(st[k]));
        }
        lemma_segments_join(st);
        lemma_named_all(st);
        let p = render(st);
        assert(p == join_slash(st));
        let a = st[0];
        assert(plain_name(a));
        if st.len() == 1 {
            assert(p == a);
        } else {
            assert(p == a + seq!['/'] + join_slash(st.drop_first()));
        }
        assert(p[0] == a[0]);
        assert(a[0] != '/') by {
            assert(lacks(a, '/'));
        }
        assert(lead(p) =~= Seq::<Seq<char>>::empty()) by {
            if p == dot() {
                assert(a.len() == 1 || p.len() > 1);
                assert(a =~= dot());
            }
            if p.len() >= 2 && p[0] == '.' && p[1] == '/' {
                if a.len() >= 2 {
                    assert(p[1] == a[1]);
                } else {
                    assert(a =~= dot());
                }
            }
        }
        assert(comps(p) =~= st);
    }
}

/// Normalizing is idempotent, and a normalized path has no `.` or `..`
/// components left.
pub proof fn law_normalize_idempotent(p: Seq<char>)
    ensures
        normalize_spec(normalize_spec(p)) == normalize_spec(p),
        forall|k: int|
            0 <= k < comps(normalize_spec(p)).len() ==> #[trigger] comps(normalize_spec(p))[k]
                != dot() && comps(normalize_spec(p))[k] != dot_dot(),
{
    let cs = comps(p);
    lemma_segments_lack_slash(p);
    lemma_named_props(segments(p));
    let l = lead(p);
    let nm = named(segments(p));
    assert(cs == l + nm);
    assert forall|k: int| 0 < k < cs.len() implies #[trigger] cs[k] != root() by {
        if k >= l.len() {
            assert(cs[k] == nm[k - l.len()]);
            assert(lacks(nm[k - l.len()], '/'));
            assert(nm[k - l.len()][0] != '/');
        } else {
            assert(l.len() == 1);
        }
    }
    assert forall|k: int| 0 <= k < cs.len() implies #[trigger] cs[k] == root() || cs[k] == dot()
        || (cs[k].len() > 0 && lacks(cs[k], '/')) by {
        if k >= l.len() {
            assert(cs[k] == nm[k - l.len()]);
        } else {
            assert(cs[k] == l[k]);
        }
    }
    lemma_norm_stack_clean(cs, seq![]);
    let st = norm_stack(cs, seq![]);
    lemma_comps_render_clean(st);
    assert forall|k: int| 0 <= k < st.len() implies #[trigger] st[k] != dot() && st[k]
        != dot_dot() by {
        if st[k] == root() {
            assert(st[k].len() == 1 && st[k][0] == '/');
            assert(dot()[0] == '.');
            assert(dot_dot().len() == 2);
        }
    }
    lemma_norm_stack_plain(st, seq![]);
    assert(Seq::<Seq<char>>::empty() + st =~= st);
}

/// One step of normalization: the stack after one more component.
pub open spec fn norm_step(st: Seq<Seq<char>>, c: Seq<char>) -> Seq<Seq<char>> {
    if c == dot() {
        st
    } else if c == dot_dot() {
        if st.len() > 0 && st.last() != root() {
            st.drop_last()
        } else {
            st
        }
    } else {
        st.push(c)
    }
}

proof fn lemma_norm_stack_append(a: Seq<Seq<char>>, b: Seq<Seq<char>>, st: Seq<Seq<char>>)
    ensures
        norm_stack(a + b, st) == norm_stack(b, norm_stack(a, st)),
    decreases a.len(),
{
    if a.len() == 0 {
        assert(a + b =~= b);
    } else {
        assert((a + b).drop_first() =~= a.drop_first() + b);
        assert((a + b)[0] == a[0]);
        lemma_norm_stack_append(a.drop_first(), b, norm_step(st, a[0]));
    }
}

/// Normalization reads the components one at a time: `.` changes
/// nothing, `..` removes the last component kept (never the root, and
/// nothing when none is kept), and any other component is kept.
pub proof fn law_normalize_steps(cs: Seq<Seq<char>>, st: Seq<Seq<char>>, c: Seq<char>)
    ensures
        norm_stack(cs.push(c), st) == norm_step(norm_stack(cs, st), c),
{
    lemma_norm_stack_append(cs, seq![c], st);
    assert(cs.push(c) =~= cs + seq![c]);
    let s = norm_stack(cs, st);
    let one = seq![c];
    assert(one[0] == c);
    assert(one.drop_first() =~= Seq::<Seq<char>>::empty());
    assert(norm_stack(one.drop_first(), norm_step(s, c)) == norm_step(s, c));
}

} // verus!
