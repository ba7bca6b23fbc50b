//! Relative link paths between concepts, and rebasing a relative path when
//! the document holding it moves.
use vstd::prelude::*;
use crate::concept_id::{texts, ConceptId};
use crate::text::{chars_of, extend_all, extend_range, join_with, string_of, trim, trim_bounds, views};

verus! {

broadcast use vstd::string::group_string_axioms;

/// The length of the longest common prefix of `a` and `b`.
pub open spec fn common_len(a: Seq<Seq<char>>, b: Seq<Seq<char>>, i: int) -> int
    decreases a.len() - i,
{
    if 0 <= i < a.len() && i < b.len() && a[i] == b[i] {
        common_len(a, b, i + 1)
    } else {
        i
    }
}

pub proof fn lemma_common_len_bounds(a: Seq<Seq<char>>, b: Seq<Seq<char>>, i: int)
    requires
        0 <= i <= a.len(),
        i <= b.len(),
    ensures
        i <= common_len(a, b, i) <= a.len(),
        common_len(a, b, i) <= b.len(),
        forall|k: int| i <= k < common_len(a, b, i) ==> #[trigger] a[k] == b[k],
    decreases a.len() - i,
{
    if i < a.len() && i < b.len() && a[i] == b[i] {
        lemma_common_len_bounds(a, b, i + 1);
    }
}

/// `n` copies of `..`.
pub open spec fn ups(n: int) -> Seq<Seq<char>>
    decreases n,
{
    if n <= 0 {
        seq![]
    } else {
        ups(n - 1).push(".."@)
    }
}

/// The parts of a relative path from directory `from_dir` to file `name` in
/// directory `to_dir`: one `..` per directory left, then the directories entered.
pub open spec fn relative_parts(from_dir: Seq<Seq<char>>, to_dir: Seq<Seq<char>>) -> Seq<Seq<char>> {
    let c = common_len(from_dir, to_dir, 0);
    ups(from_dir.len() - c) + to_dir.subrange(c, to_dir.len() as int)
}

/// The relative markdown link from concept `from` to concept `to`.
pub open spec fn relative_link(from: Seq<Seq<char>>, to: Seq<Seq<char>>) -> Seq<char> {
    join_with(
        relative_parts(from.drop_last(), to.drop_last()).push(to.last() + ".md"@),
        "/"@,
    )
}

/// Whether two character vectors are equal.
pub fn same_chars(a: &[char], b: &[char]) -> (r: bool)
    ensures
        r == (a@ == b@),
{
    if a.len() != b.len() {
        return false;
    }
    let mut i: usize = 0;
    while i < a.len()
        invariant
            a.len() == b.len(),
            i <= a.len(),
            forall|k: int| 0 <= k < i ==> a@[k] == b@[k],
        decreases a.len() - i,
    {
        if a[i] != b[i] {
            return false;
        }
        i += 1;
    }
    proof {
        assert(a@ =~= b@);
    }
    true
}

/// Common-prefix length of two segment lists, from `i`.
fn common_len_exec(a: &Vec<Vec<char>>, b: &Vec<Vec<char>>) -> (r: usize)
    ensures
        r == common_len(views(a@), views(b@), 0),
        r <= a.len(),
        r <= b.len(),
{
    let mut i: usize = 0;
    while i < a.len() && i < b.len() && same_chars(&a[i], &b[i])
        invariant
            i <= a.len(),
            i <= b.len(),
            common_len(views(a@), views(b@), i as int) == common_len(views(a@), views(b@), 0),
        decreases a.len() - i,
    {
        proof {
            assert(views(a@)[i as int] == a@[i as int]@);
            assert(views(b@)[i as int] == b@[i as int]@);
        }
        i += 1;
    }
    proof {
        if i < a.len() && i < b.len() {
            assert(views(a@)[i as int] == a@[i as int]@);
            assert(views(b@)[i as int] == b@[i as int]@);
        }
    }
    i
}

/// The character vectors of a list of strings.
pub fn chars_of_all(v: &Vec<String>) -> (r: Vec<Vec<char>>)
    ensures
        views(r@) == texts(v@),
{
    let mut out: Vec<Vec<char>> = Vec::new();
    let mut i: usize = 0;
    while i < v.len()
        invariant
            i <= v.len(),
            views(out@) == texts(v@).take(i as int),
        decreases v.len() - i,
    {
        let c = chars_of(v[i].as_str());
        proof {
            let before = views(out@);
            assert(views(out@.push(c)) =~= before.push(c@));
            assert(texts(v@).take(i + 1) =~= texts(v@).take(i as int).push(v@[i as int]@));
        }
        out.push(c);
        i += 1;
    }
    proof {
        assert(texts(v@).take(v.len() as int) =~= texts(v@));
    }
    out
}

/// Appends `n` copies of `..` to `parts`.
fn push_ups(parts: &mut Vec<Vec<char>>, n: usize)
    ensures
        views(final(parts)@) == views(old(parts)@) + ups(n as int),
{
    let ghost start = views(parts@);
    let mut k: usize = 0;
    while k < n
        invariant
            k <= n,
            views(parts@) == start + ups(k as int),
        decreases n - k,
    {
        let dd = chars_of("..");
        proof {
            let before = views(parts@);
            assert(views(parts@.push(dd)) =~= before.push(dd@));
            assert(start + ups(k + 1) =~= (start + ups(k as int)).push(".."@));
        }
        parts.push(dd);
        k += 1;
    }
}

/// Appends `src[lo..]` to `parts`.
fn push_tail(parts: &mut Vec<Vec<char>>, src: &Vec<Vec<char>>, lo: usize)
    requires
        lo <= src.len(),
    ensures
        views(final(parts)@) == views(old(parts)@) + views(src@).subrange(lo as int, src.len() as int),
{
    let ghost start = views(parts@);
    let mut k = lo;
    while k < src.len()
        invariant
            lo <= k <= src.len(),
            views(parts@) == start + views(src@).subrange(lo as int, k as int),
        decreases src.len() - k,
    {
        let mut c: Vec<char> = Vec::new();
        extend_all(&mut c, &src[k]);
        proof {
            let before = views(parts@);
            assert(views(parts@.push(c)) =~= before.push(c@));
            assert(views(src@)[k as int] == src@[k as int]@);
            assert(start + views(src@).subrange(lo as int, k + 1) =~= (start + views(src@).subrange(lo as int, k as int)).push(src@[k as int]@));
        }
        parts.push(c);
        k += 1;
    }
}

/// Computes the relative markdown link path from `from_concept` to `to_concept`.
///
/// `auth/tokens/jwt` to `auth/tokens/refresh` is `refresh.md`; to
/// `users/profile` it is `../../users/profile.md`.
pub fn compute_relative_path(from_concept: &ConceptId, to_concept: &ConceptId) -> (r: String)
    requires
        from_concept.wf(),
        to_concept.wf(),
    ensures
        r@ == relative_link(from_concept@, to_concept@),
{
    let from_dir = chars_of_all(&from_concept.dir());
    let to_dir = chars_of_all(&to_concept.dir());
    let c = common_len_exec(&from_dir, &to_dir);
    let mut parts: Vec<Vec<char>> = Vec::new();
    push_ups(&mut parts, from_dir.len() - c);
    push_tail(&mut parts, &to_dir, c);
    let mut file = chars_of(to_concept.name());
    let md = chars_of(".md");
    extend_all(&mut file, &md);
    proof {
        let before = views(parts@);
        assert(views(parts@.push(file)) =~= before.push(file@));
        assert(views(parts@) =~= Seq::<Seq<char>>::empty() + relative_parts(from_concept@.drop_last(), to_concept@.drop_last()));
    }
    parts.push(file);
    let slash = chars_of("/");
    let joined = crate::text::join_lines(&parts, &slash);
    proof {
        assert(views(parts@) =~= relative_parts(from_concept@.drop_last(), to_concept@.drop_last()).push(to_concept@.last() + ".md"@));
    }
    string_of(&joined)
}

/// A URI scheme: a letter, then letters, digits, `+`, `-` or `.`, then `:`.
pub open spec fn has_scheme(s: Seq<char>) -> bool {
    exists|k: int| 1 <= k < s.len() && s[k] == ':' && scheme_chars(s, k)
}

/// `s[0..k]` is a scheme name.
pub open spec fn scheme_chars(s: Seq<char>, k: int) -> bool {
    &&& 0 < k <= s.len()
    &&& is_ascii_alpha(s[0])
    &&& forall|t: int| 1 <= t < k ==> is_ascii_alpha(#[trigger] s[t]) || ('0' <= s[t] <= '9') || s[t] == '+' || s[t] == '-' || s[t] == '.'
}

/// An ASCII letter.
pub open spec fn is_ascii_alpha(c: char) -> bool {
    ('a' <= c && c <= 'z') || ('A' <= c && c <= 'Z')
}

/// Whether `s` begins with a URI scheme (`https:`, `mailto:`, ...).
pub fn is_external(s: &[char]) -> (r: bool)
    ensures
        r == has_scheme(s@),
{
    if s.len() == 0 || !(('a' <= s[0] && s[0] <= 'z') || ('A' <= s[0] && s[0] <= 'Z')) {
        proof {
            assert forall|k: int| 1 <= k < s@.len() && s@[k] == ':' implies !scheme_chars(s@, k) by {}
        }
        return false;
    }
    let mut k: usize = 1;
    while k < s.len()
        invariant
            1 <= k <= s.len(),
            is_ascii_alpha(s@[0]),
            forall|t: int| 1 <= t < k ==> is_ascii_alpha(#[trigger] s@[t]) || ('0' <= s@[t] <= '9') || s@[t] == '+' || s@[t] == '-' || s@[t] == '.',
        decreases s.len() - k,
    {
        let c = s[k];
        if c == ':' {
            proof {
                assert(scheme_chars(s@, k as int));
            }
            return true;
        }
        if !(('a' <= c && c <= 'z') || ('A' <= c && c <= 'Z') || ('0' <= c && c <= '9') || c == '+' || c == '-' || c == '.') {
            proof {
                assert forall|j: int| 1 <= j < s@.len() && s@[j] == ':' implies !scheme_chars(s@, j) by {
                    if j > k {
                        assert(!(is_ascii_alpha(s@[k as int]) || ('0' <= s@[k as int] <= '9') || s@[k as int] == '+' || s@[k as int] == '-' || s@[k as int] == '.'));
                    }
                }
            }
            return false;
        }
        k += 1;
    }
    false
}

/// Resolves path segments against a directory: `""` and `"."` stay, `".."`
/// leaves a directory (nothing above the root), anything else enters one.
pub open spec fn resolve(dir: Seq<Seq<char>>, segs: Seq<Seq<char>>) -> Seq<Seq<char>>
    decreases segs.len(),
{
    if segs.len() == 0 {
        dir
    } else {
        let d = resolve(dir, segs.drop_last());
        let s = segs.last();
        if s.len() == 0 || s == "."@ {
            d
        } else if s == ".."@ {
            if d.len() == 0 { d } else { d.drop_last() }
        } else {
            d.push(s)
        }
    }
}

/// `s` split at every `/`.
pub open spec fn split_slash(s: Seq<char>) -> Seq<Seq<char>> {
    crate::concept_id::split_slash(s)
}

/// The first index of `c` in `s`, or the length.
pub open spec fn first_index(s: Seq<char>, c: char, i: int) -> int
    decreases s.len() - i,
{
    if i >= s.len() {
        s.len() as int
    } else if s[i] == c {
        i
    } else {
        first_index(s, c, i + 1)
    }
}

/// What rebasing `rel` from `old_dir` to `new_dir` gives.
pub open spec fn rebased(old_dir: Seq<Seq<char>>, new_dir: Seq<Seq<char>>, rel: Seq<char>) -> Seq<char> {
    let t = trim(rel);
    if (t.len() > 0 && t[0] == '/') || has_scheme(t) {
        t
    } else {
        let h = first_index(t, '#', 0);
        let path = t.subrange(0, h);
        let anchor = t.subrange(h, t.len() as int);
        if path.len() == 0 {
            t
        } else {
            let res = resolve(old_dir, split_slash(path));
            let res_dir = if res.len() == 0 { res } else { res.drop_last() };
            let file: Seq<char> = if res.len() == 0 { seq![] } else { res.last() };
            let c = common_len(new_dir, res_dir, 0);
            let parts0 = ups(new_dir.len() - c) + res_dir.subrange(c, res_dir.len() as int);
            let parts = if file.len() > 0 { parts0.push(file) } else { parts0 };
            let body = if parts.len() == 0 { "."@ } else { join_with(parts, "/"@) };
            body + anchor
        }
    }
}

/// Splits `s` at every `/` into character vectors.
pub fn split_slash_exec(s: &[char]) -> (r: Vec<Vec<char>>)
    ensures
        views(r@) == split_slash(s@),
{
    let mut out: Vec<Vec<char>> = Vec::new();
    let mut start: usize = 0;
    let mut i: usize = 0;
    while i < s.len()
        invariant
            start <= i <= s.len(),
            views(out@) + crate::concept_id::split_from(s@, start as int, i as int) == split_slash(s@),
        decreases s.len() - i,
    {
        if s[i] == '/' {
            let mut piece: Vec<char> = Vec::new();
            extend_range(&mut piece, s, start, i);
            proof {
                let before = views(out@);
                assert(views(out@.push(piece)) =~= before.push(piece@));
                assert(before + crate::concept_id::split_from(s@, start as int, i as int) =~= before.push(piece@) + crate::concept_id::split_from(s@, i + 1, i + 1));
            }
            out.push(piece);
            start = i + 1;
        }
        i += 1;
    }
    let mut piece: Vec<char> = Vec::new();
    extend_range(&mut piece, s, start, s.len());
    proof {
        let before = views(out@);
        assert(views(out@.push(piece)) =~= before.push(piece@));
        assert(before + crate::concept_id::split_from(s@, start as int, i as int) =~= before.push(piece@));
    }
    out.push(piece);
    out
}

/// Rebases a relative file/resource path from `old_dir` to `new_dir`.
///
/// External URIs (with a scheme), absolute paths (`/...`), and pure anchors
/// are returned trimmed but otherwise as-is. An anchor is kept.
pub fn rebase_relative_path(old_dir: &Vec<String>, new_dir: &Vec<String>, rel_path: &str) -> (r: String)
    ensures
        r@ == rebased(texts(old_dir@), texts(new_dir@), rel_path@),
{
    let v = chars_of(rel_path);
    let (a, b) = trim_bounds(&v, 0, v.len());
    let mut t: Vec<char> = Vec::new();
    extend_range(&mut t, &v, a, b);
    proof {
        assert(v@.subrange(0, v@.len() as int) =~= v@);
        assert(t@ == trim(rel_path@));
    }
    if (t.len() > 0 && t[0] == '/') || is_external(&t) {
        return string_of(&t);
    }
    let mut h: usize = 0;
    while h < t.len() && t[h] != '#'
        invariant
            h <= t.len(),
            first_index(t@, '#', h as int) == first_index(t@, '#', 0),
        decreases t.len() - h,
    {
        h += 1;
    }
    if h == 0 {
        return string_of(&t);
    }
    let mut path: Vec<char> = Vec::new();
    extend_range(&mut path, &t, 0, h);
    let segs = split_slash_exec(&path);
    let mut res = resolve_exec(chars_of_all(old_dir), &segs);
    let ghost resv = views(res@);
    let file: Vec<char> = if res.len() == 0 {
        Vec::new()
    } else {
        let f = res.pop().unwrap();
        proof {
            assert(views(res@) =~= resv.drop_last());
        }
        f
    };
    let nd = chars_of_all(new_dir);
    let c = common_len_exec(&nd, &res);
    let mut parts: Vec<Vec<char>> = Vec::new();
    push_ups(&mut parts, nd.len() - c);
    push_tail(&mut parts, &res, c);
    if file.len() > 0 {
        proof {
            let before = views(parts@);
            assert(views(parts@.push(file)) =~= before.push(file@));
        }
        parts.push(file);
    }
    let mut out: Vec<char> = if parts.len() == 0 {
        chars_of(".")
    } else {
        let slash = chars_of("/");
        crate::text::join_lines(&parts, &slash)
    };
    extend_range(&mut out, &t, h, t.len());
    proof {
        let res_dir = if resv.len() == 0 { resv } else { resv.drop_last() };
        assert(views(res@) == res_dir);
        assert(views(parts@).len() == 0 ==> views(parts@) =~= Seq::<Seq<char>>::empty());
    }
    string_of(&out)
}


/// [`resolve`] in exec form.
pub fn resolve_exec(dir: Vec<Vec<char>>, segs: &Vec<Vec<char>>) -> (r: Vec<Vec<char>>)
    ensures
        views(r@) == resolve(views(dir@), views(segs@)),
{
    let ghost d0 = views(dir@);
    let mut res = dir;
    let mut k: usize = 0;
    let dot = chars_of(".");
    let dotdot = chars_of("..");
    while k < segs.len()
        invariant
            k <= segs.len(),
            dot@ == "."@,
            dotdot@ == ".."@,
            views(res@) == resolve(d0, views(segs@).take(k as int)),
        decreases segs.len() - k,
    {
        let s = &segs[k];
        proof {
            assert(views(segs@).take(k + 1).drop_last() =~= views(segs@).take(k as int));
            assert(views(segs@).take(k + 1).last() == s@);
        }
        if s.len() == 0 || same_chars(s, &dot) {
        } else if same_chars(s, &dotdot) {
            if res.len() > 0 {
                let ghost before = views(res@);
                res.pop();
                proof {
                    assert(views(res@) =~= before.drop_last());
                }
            }
        } else {
            let mut c: Vec<char> = Vec::new();
            extend_all(&mut c, s);
            proof {
                let before = views(res@);
                assert(views(res@.push(c)) =~= before.push(c@));
            }
            res.push(c);
        }
        k += 1;
    }
    proof {
        assert(views(segs@).take(segs.len() as int) =~= views(segs@));
    }
    res
}

} // verus!
