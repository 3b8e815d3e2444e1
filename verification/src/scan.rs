//! Which files count as env files, which directories a scan prunes, and
//! the order in which the files found are listed.

use vstd::prelude::*;

use crate::paths::{comps, components};
use crate::text::{chars_eq, chars_of};

verus! {

/// `s` ends with `suffix`.
pub open spec fn ends_with(s: Seq<char>, suffix: Seq<char>) -> bool {
    suffix.len() <= s.len() && s.skip(s.len() - suffix.len()) == suffix
}

/// `s` starts with `prefix`.
pub open spec fn starts_with(s: Seq<char>, prefix: Seq<char>) -> bool {
    prefix.len() <= s.len() && s.take(prefix.len() as int) == prefix
}

pub fn chars_ends_with(s: &[char], suffix: &str) -> (r: bool)
    ensures
        r == ends_with(s@, suffix@),
{
    let x = chars_of(suffix);
    if x.len() > s.len() {
        return false;
    }
    let n = s.len();
    let off = n - x.len();
    let mut i: usize = 0;
    while i < x.len()
        invariant
            n == s@.len(),
            off + x@.len() == n,
            x@ == suffix@,
            i <= x@.len(),
            forall|j: int| 0 <= j < i ==> s@[off + j] == x@[j],
        decreases x@.len() - i,
    {
        if s[off + i] != x[i] {
            assert(s@.skip(off as int)[i as int] != x@[i as int]);
            return false;
        }
        i = i + 1;
    }
    assert(s@.skip(off as int) =~= x@);
    true
}

pub fn chars_starts_with(s: &[char], prefix: &str) -> (r: bool)
    ensures
        r == starts_with(s@, prefix@),
{
    let x = chars_of(prefix);
    if x.len() > s.len() {
        return false;
    }
    let mut i: usize = 0;
    while i < x.len()
        invariant
            x@.len() <= s@.len(),
            x@ == prefix@,
            i <= x@.len(),
            forall|j: int| 0 <= j < i ==> s@[j] == x@[j],
        decreases x@.len() - i,
    {
        if s[i] != x[i] {
            assert(s@.take(x@.len() as int)[i as int] != x@[i as int]);
            return false;
        }
        i = i + 1;
    }
    assert(s@.take(x@.len() as int) =~= x@);
    true
}

/// Whether the characters are exactly those of `lit`.
pub fn chars_are(s: &[char], lit: &str) -> (r: bool)
    ensures
        r == (s@ == lit@),
{
    let x = chars_of(lit);
    chars_eq(s, &x)
}

/// Env files that are templates, not secrets.
pub open spec fn template_names() -> Seq<Seq<char>> {
    seq![".env.example"@, ".env.sample"@, ".env.template"@]
}

/// Directories that never contain env files worth managing.
pub open spec fn skip_dir_names() -> Seq<Seq<char>> {
    seq![
        ".git"@,
        "node_modules"@,
        "target"@,
        "dist"@,
        "build"@,
        "out"@,
        "vendor"@,
        ".venv"@,
        "venv"@,
        "__pycache__"@,
        ".next"@,
        ".nuxt"@,
        ".cache"@,
        ".turbo"@,
        ".output"@,
    ]
}

/// An env file worth managing: `.env` or `.env.<something>`, but neither an
/// encrypted `.enc` file nor a template.
pub open spec fn is_env_file_spec(name: Seq<char>) -> bool {
    &&& !ends_with(name, ".enc"@)
    &&& !template_names().contains(name)
    &&& (name == ".env"@ || starts_with(name, ".env."@))
}

pub fn is_env_file(name: &str) -> (r: bool)
    ensures
        r == is_env_file_spec(name@),
{
    let n = chars_of(name);
    let template = chars_are(&n, ".env.example") || chars_are(&n, ".env.sample") || chars_are(
        &n,
        ".env.template",
    );
    proof {
        let t = template_names();
        assert(t[0] == ".env.example"@ && t[1] == ".env.sample"@ && t[2] == ".env.template"@);
        if t.contains(n@) {
            let i = choose|i: int| 0 <= i < t.len() && t[i] == n@;
            assert(i == 0 || i == 1 || i == 2);
        }
    }
    if chars_ends_with(&n, ".enc") || template {
        return false;
    }
    chars_are(&n, ".env") || chars_starts_with(&n, ".env.")
}

/// Which names count as env files, character by character: `.env`
/// itself, or `.env.` followed by anything, except names ending in `.enc`
/// and the three template names. So `.envrc`, `.environment` or `x.env`
/// never count.
pub proof fn law_env_file_names(name: Seq<char>)
    ensures
        is_env_file_spec(name) ==> (name =~= seq!['.', 'e', 'n', 'v'] || (name.len() >= 5
            && name[0] == '.' && name[1] == 'e' && name[2] == 'n' && name[3] == 'v' && name[4]
            == '.')),
        is_env_file_spec(name) ==> !(name.len() >= 4 && name[name.len() - 4] == '.'
            && name[name.len() - 3] == 'e' && name[name.len() - 2] == 'n' && name[name.len() - 1]
            == 'c') && name != ".env.example"@ && name != ".env.sample"@ && name
            != ".env.template"@,
        name =~= seq!['.', 'e', 'n', 'v'] ==> is_env_file_spec(name),
        (name.len() >= 5 && name[0] == '.' && name[1] == 'e' && name[2] == 'n' && name[3] == 'v'
            && name[4] == '.' && !(name.len() >= 4 && name[name.len() - 4] == '.' && name[name.len()
            - 3] == 'e' && name[name.len() - 2] == 'n' && name[name.len() - 1] == 'c')
            && name != ".env.example"@ && name != ".env.sample"@ && name != ".env.template"@)
            ==> is_env_file_spec(name),
{
    reveal_strlit(".env");
    reveal_strlit(".env.");
    reveal_strlit(".enc");
    reveal_strlit(".env.example");
    reveal_strlit(".env.sample");
    reveal_strlit(".env.template");
    let t = template_names();
    if is_env_file_spec(name) {
        assert(t[0] == ".env.example"@ && t[1] == ".env.sample"@ && t[2] == ".env.template"@);
        if name.len() >= 4 && name[name.len() - 4] == '.' && name[name.len() - 3] == 'e'
            && name[name.len() - 2] == 'n' && name[name.len() - 1] == 'c' {
            assert(name.skip(name.len() - 4) =~= ".enc"@);
        }
        if name != ".env"@ {
            assert(name.take(5)[0] == name[0]);
            assert(name.take(5)[1] == name[1]);
            assert(name.take(5)[2] == name[2]);
            assert(name.take(5)[3] == name[3]);
            assert(name.take(5)[4] == name[4]);
        }
    }
    if name =~= seq!['.', 'e', 'n', 'v'] {
        assert(name == ".env"@);
        assert(!ends_with(name, ".enc"@)) by {
            assert(name.skip(0)[3] != ".enc"@[3]);
        }
        assert(!t.contains(name)) by {
            if t.contains(name) {
                let i = choose|i: int| 0 <= i < t.len() && t[i] == name;
                assert(t[i].len() != name.len());
            }
        }
    }
    if name.len() >= 5 && name[0] == '.' && name[1] == 'e' && name[2] == 'n' && name[3] == 'v'
        && name[4] == '.' && !(name.len() >= 4 && name[name.len() - 4] == '.' && name[name.len()
        - 3] == 'e' && name[name.len() - 2] == 'n' && name[name.len() - 1] == 'c')
        && name != ".env.example"@ && name != ".env.sample"@ && name != ".env.template"@ {
        assert(name.take(5) =~= ".env."@);
        assert(!ends_with(name, ".enc"@)) by {
            if ends_with(name, ".enc"@) {
                let k = name.len() - 4;
                assert(name.skip(k)[0] == name[k]);
                assert(name.skip(k)[1] == name[k + 1]);
                assert(name.skip(k)[2] == name[k + 2]);
                assert(name.skip(k)[3] == name[k + 3]);
            }
        }
        assert(!t.contains(name)) by {
            if t.contains(name) {
                let i = choose|i: int| 0 <= i < t.len() && t[i] == name;
                assert(i == 0 || i == 1 || i == 2);
            }
        }
    }
}

/// A directory a scan does not descend into.
pub open spec fn is_skip_dir_spec(name: Seq<char>) -> bool {
    skip_dir_names().contains(name)
}

pub fn is_skip_dir(name: &str) -> (r: bool)
    ensures
        r == is_skip_dir_spec(name@),
{
    let n = chars_of(name);
    let r = chars_are(&n, ".git") || chars_are(&n, "node_modules") || chars_are(&n, "target")
        || chars_are(&n, "dist") || chars_are(&n, "build") || chars_are(&n, "out") || chars_are(
        &n,
        "vendor",
    ) || chars_are(&n, ".venv") || chars_are(&n, "venv") || chars_are(&n, "__pycache__")
        || chars_are(&n, ".next") || chars_are(&n, ".nuxt") || chars_are(&n, ".cache")
        || chars_are(&n, ".turbo") || chars_are(&n, ".output");
    proof {
        let t = skip_dir_names();
        if r {
            if n@ == ".git"@ {
                assert(t[0] == n@);
            } else if n@ == "node_modules"@ {
                assert(t[1] == n@);
            } else if n@ == "target"@ {
                assert(t[2] == n@);
            } else if n@ == "dist"@ {
                assert(t[3] == n@);
            } else if n@ == "build"@ {
                assert(t[4] == n@);
            } else if n@ == "out"@ {
                assert(t[5] == n@);
            } else if n@ == "vendor"@ {
                assert(t[6] == n@);
            } else if n@ == ".venv"@ {
                assert(t[7] == n@);
            } else if n@ == "venv"@ {
                assert(t[8] == n@);
            } else if n@ == "__pycache__"@ {
                assert(t[9] == n@);
            } else if n@ == ".next"@ {
                assert(t[10] == n@);
            } else if n@ == ".nuxt"@ {
                assert(t[11] == n@);
            } else if n@ == ".cache"@ {
                assert(t[12] == n@);
            } else if n@ == ".turbo"@ {
                assert(t[13] == n@);
            } else {
                assert(t[14] == n@);
            }
        } else {
            if t.contains(n@) {
                let i = choose|i: int| 0 <= i < t.len() && t[i] == n@;
                assert(0 <= i < 15);
            }
        }
    }
    r
}

// ---------------------------------------------------------------------------
// Path order
// ---------------------------------------------------------------------------

/// `a` comes before `b` in character order.
pub open spec fn chars_lt(a: Seq<char>, b: Seq<char>) -> bool
    decreases a.len(),
{
    if a.len() == 0 {
        b.len() > 0
    } else if b.len() == 0 {
        false
    } else if a[0] != b[0] {
        a[0] < b[0]
    } else {
        chars_lt(a.drop_first(), b.drop_first())
    }
}

/// The component list `a` comes before `b`: compared component by
/// component, a prefix first.
pub open spec fn comps_lt(a: Seq<Seq<char>>, b: Seq<Seq<char>>) -> bool
    decreases a.len(),
{
    if a.len() == 0 {
        b.len() > 0
    } else if b.len() == 0 {
        false
    } else if a[0] != b[0] {
        chars_lt(a[0], b[0])
    } else {
        comps_lt(a.drop_first(), b.drop_first())
    }
}

/// `a` sorts before `b` as `Path` orders paths: by their components.
pub open spec fn path_lt(a: Seq<char>, b: Seq<char>) -> bool {
    comps_lt(comps(a), comps(b))
}

/// No path of `s` sorts before one that precedes it.
pub open spec fn path_sorted(s: Seq<Seq<char>>) -> bool {
    forall|i: int, j: int| 0 <= i < j < s.len() ==> !path_lt(#[trigger] s[j], #[trigger] s[i])
}

proof fn lemma_chars_lt_irreflexive(a: Seq<char>)
    ensures
        !chars_lt(a, a),
    decreases a.len(),
{
    if a.len() > 0 {
        lemma_chars_lt_irreflexive(a.drop_first());
    }
}

proof fn lemma_chars_lt_transitive(a: Seq<char>, b: Seq<char>, c: Seq<char>)
    requires
        chars_lt(a, b),
        chars_lt(b, c),
    ensures
        chars_lt(a, c),
    decreases a.len(),
{
    if a.len() > 0 && b.len() > 0 && c.len() > 0 && a[0] == b[0] && b[0] == c[0] {
        lemma_chars_lt_transitive(a.drop_first(), b.drop_first(), c.drop_first());
    }
}

proof fn lemma_comps_lt_irreflexive(a: Seq<Seq<char>>)
    ensures
        !comps_lt(a, a),
    decreases a.len(),
{
    if a.len() > 0 {
        lemma_comps_lt_irreflexive(a.drop_first());
    }
}

proof fn lemma_comps_lt_transitive(a: Seq<Seq<char>>, b: Seq<Seq<char>>, c: Seq<Seq<char>>)
    requires
        comps_lt(a, b),
        comps_lt(b, c),
    ensures
        comps_lt(a, c),
    decreases a.len(),
{
    if a.len() > 0 && b.len() > 0 && c.len() > 0 {
        if a[0] == b[0] && b[0] == c[0] {
            lemma_comps_lt_transitive(a.drop_first(), b.drop_first(), c.drop_first());
        } else if a[0] != b[0] && b[0] != c[0] {
            lemma_chars_lt_transitive(a[0], b[0], c[0]);
            if a[0] == c[0] {
                lemma_chars_lt_irreflexive(a[0]);
            }
        }
    }
}

/// Path order is a strict order: no path sorts before itself, and it is
/// transitive.
pub proof fn law_path_order(a: Seq<char>, b: Seq<char>, c: Seq<char>)
    ensures
        !path_lt(a, a),
        path_lt(a, b) && path_lt(b, c) ==> path_lt(a, c),
{
    lemma_comps_lt_irreflexive(comps(a));
    if path_lt(a, b) && path_lt(b, c) {
        lemma_comps_lt_transitive(comps(a), comps(b), comps(c));
    }
}

fn chars_less(a: &[char], b: &[char]) -> (r: bool)
    ensures
        r == chars_lt(a@, b@),
{
    let mut i: usize = 0;
    assert(a@.skip(0) =~= a@);
    assert(b@.skip(0) =~= b@);
    while i < a.len() && i < b.len() && a[i] == b[i]
        invariant
            i <= a@.len(),
            i <= b@.len(),
            chars_lt(a@, b@) == chars_lt(a@.skip(i as int), b@.skip(i as int)),
        decreases a@.len() - i,
    {
        assert(a@.skip(i as int).drop_first() =~= a@.skip(i + 1));
        assert(b@.skip(i as int).drop_first() =~= b@.skip(i + 1));
        i = i + 1;
    }
    if i == a.len() {
        i < b.len()
    } else if i == b.len() {
        false
    } else {
        a[i] < b[i]
    }
}

fn comps_less(a: &Vec<Vec<char>>, b: &Vec<Vec<char>>) -> (r: bool)
    ensures
        r == comps_lt(a.deep_view(), b.deep_view()),
{
    let ghost x = a.deep_view();
    let ghost y = b.deep_view();
    let mut i: usize = 0;
    assert(x.skip(0) =~= x);
    assert(y.skip(0) =~= y);
    loop
        invariant
            i <= a@.len(),
            i <= b@.len(),
            x == a.deep_view(),
            y == b.deep_view(),
            comps_lt(x, y) == comps_lt(x.skip(i as int), y.skip(i as int)),
        decreases a@.len() - i,
    {
        if i == a.len() {
            return i < b.len();
        }
        if i == b.len() {
            return false;
        }
        assert(x[i as int] =~= a@[i as int]@);
        assert(y[i as int] =~= b@[i as int]@);
        if !chars_eq(a[i].as_slice(), b[i].as_slice()) {
            return chars_less(a[i].as_slice(), b[i].as_slice());
        }
        assert(x.skip(i as int).drop_first() =~= x.skip(i + 1));
        assert(y.skip(i as int).drop_first() =~= y.skip(i + 1));
        i = i + 1;
    }
}

/// Whether `a` sorts before `b` as paths.
pub fn path_less(a: &str, b: &str) -> (r: bool)
    ensures
        r == path_lt(a@, b@),
{
    let ca = components(chars_of(a).as_slice());
    let cb = components(chars_of(b).as_slice());
    comps_less(&ca, &cb)
}

/// The paths in path order (what a scan lists).
pub fn sort_paths(v: &[String]) -> (r: Vec<String>)
    ensures
        r.deep_view().to_multiset() == v.deep_view().to_multiset(),
        path_sorted(r.deep_view()),
{
    let ghost vd = v.deep_view();
    let mut out: Vec<String> = Vec::new();
    let mut i: usize = 0;
    assert(vd.take(0) =~= Seq::<Seq<char>>::empty());
    assert(out.deep_view() =~= Seq::<Seq<char>>::empty());
    while i < v.len()
        invariant
            i <= v@.len(),
            vd == v.deep_view(),
            out.deep_view().to_multiset() == vd.take(i as int).to_multiset(),
            path_sorted(out.deep_view()),
        decreases v@.len() - i,
    {
        let x = v[i].clone();
        let ghost xv = x@;
        assert(xv == vd[i as int]);
        let ghost od = out.deep_view();
        let mut p: usize = 0;
        while p < out.len() && !path_less(x.as_str(), out[p].as_str())
            invariant
                p <= out@.len(),
                od == out.deep_view(),
                xv == x@,
                forall|k: int| 0 <= k < p ==> !path_lt(xv, #[trigger] od[k]),
            decreases out@.len() - p,
        {
            assert(od[p as int] == out@[p as int]@);
            p = p + 1;
        }
        proof {
            if p < out@.len() {
                assert(od[p as int] == out@[p as int]@);
            }
        }
        out.insert(p, x);
        let ghost nd = out.deep_view();
        assert(nd =~= od.insert(p as int, xv)) by {
            assert forall|k: int| 0 <= k < nd.len() implies nd[k] == od.insert(p as int, xv)[k] by {
                assert(nd[k] == out@[k]@);
            }
        }
        proof {
            assert forall|a: int, b: int| 0 <= a < b < nd.len() implies !path_lt(
                #[trigger] nd[b],
                #[trigger] nd[a],
            ) by {
                if b < p {
                    assert(nd[a] == od[a] && nd[b] == od[b]);
                } else if a > p {
                    assert(nd[a] == od[a - 1] && nd[b] == od[b - 1]);
                } else if b == p {
                    assert(nd[a] == od[a] && nd[b] == xv);
                } else if a < p {
                    assert(nd[a] == od[a] && nd[b] == od[b - 1]);
                } else {
                    assert(nd[a] == xv && nd[b] == od[b - 1]);
                    assert(path_lt(xv, od[p as int]));
                    if path_lt(od[b - 1], xv) {
                        law_path_order(od[b - 1], xv, od[p as int]);
                        law_path_order(od[p as int], od[p as int], od[p as int]);
                    }
                }
            }
            assert(vd.take(i + 1) =~= vd.take(i as int).push(vd[i as int]));
            vstd::seq_lib::to_multiset_insert(od, p as int, xv);
            vstd::seq_lib::to_multiset_build(vd.take(i as int), vd[i as int]);
        }
        i = i + 1;
    }
    assert(vd.take(v@.len() as int) =~= vd);
    out
}

} // verus!
