//! The markdown a concept body is written in: headings and their anchor
//! slugs, fenced code, inline link destinations, and link rewriting.
//!
//! Fences here are the ones the refactoring tools honour: a line whose
//! leading-whitespace-trimmed text starts with three backticks or three
//! tildes opens a fence, and the next line starting (after leading
//! whitespace) with three of the same character closes it. Lines inside a
//! fence, and the fence lines themselves, are code.
use vstd::prelude::*;
use crate::paths::is_ascii_alpha;
use crate::links::Link;
use crate::text::{
    ascii_lower, chars_of, eq_ignore_ascii_case, eq_ignore_case, extend_range, has_prefix,
    is_digit, is_whitespace, is_ws, lemma_run_len_bounds, lines, matches_at, run_len,
    run_len_exec, split_lines, string_of, to_ascii_lower, trim, trim_bounds, trim_start, views,
};

verus! {

broadcast use vstd::string::group_string_axioms;

/// What `char::is_alphanumeric` answers for a character that is neither ASCII
/// nor whitespace (the Unicode `Alphabetic` or `Numeric` properties).
pub uninterp spec fn unicode_alphanumeric(c: char) -> bool;

/// Alphanumeric as `char::is_alphanumeric` decides it: ASCII letters and
/// digits among ASCII characters, never a whitespace character, and the
/// Unicode properties otherwise.
pub open spec fn is_alnum(c: char) -> bool {
    if (c as u32) < 128 {
        is_ascii_alpha(c) || is_digit(c)
    } else if is_ws(c) {
        false
    } else {
        unicode_alphanumeric(c)
    }
}

/// `char::is_alphanumeric`. Trusted: among ASCII it holds exactly of letters
/// and digits, and it never holds of a `White_Space` character (no such
/// character is `Alphabetic` or `Numeric`); other characters go by the name
/// [`unicode_alphanumeric`], whose values are not stated.
#[verifier::external_body]
pub(crate) fn char_is_alphanumeric(c: char) -> (r: bool)
    ensures
        r == (if (c as u32) < 128 {
            is_ascii_alpha(c) || is_digit(c)
        } else if is_ws(c) {
            false
        } else {
            unicode_alphanumeric(c)
        }),
{
    c.is_alphanumeric()
}

/// `s` without its leading run of `#`.
pub open spec fn strip_hashes(s: Seq<char>) -> Seq<char> {
    s.subrange(run_len(s, 0, '#'), s.len() as int)
}

/// A heading's text: trimmed, leading `#`s removed, trimmed again.
pub open spec fn heading_text(t: Seq<char>) -> Seq<char> {
    trim(strip_hashes(trim(t)))
}

/// One step of slug building: alphanumerics are kept (ASCII-lowercased);
/// whitespace, `-` and `_` become one `-` unless the slug already ends in one;
/// everything else is dropped.
pub open spec fn slug_step(prev: Seq<char>, c: char) -> Seq<char> {
    if is_alnum(c) {
        prev.push(ascii_lower(c))
    } else if (is_ws(c) || c == '-' || c == '_') && !(prev.len() > 0 && prev.last() == '-') {
        prev.push('-')
    } else {
        prev
    }
}

/// The slug of `s` before its edge dashes are trimmed.
pub open spec fn slug_raw(s: Seq<char>) -> Seq<char>
    decreases s.len(),
{
    if s.len() == 0 {
        seq![]
    } else {
        slug_step(slug_raw(s.drop_last()), s.last())
    }
}

/// The length of the run of `c` that ends just before `j`.
pub open spec fn back_run(s: Seq<char>, j: int, c: char) -> int
    decreases j,
{
    if 0 < j <= s.len() && s[j - 1] == c {
        1 + back_run(s, j - 1, c)
    } else {
        0
    }
}

/// `str::trim_matches('-')`.
pub open spec fn trim_dashes(s: Seq<char>) -> Seq<char> {
    let a = run_len(s, 0, '-');
    if a >= s.len() {
        seq![]
    } else {
        s.subrange(a, s.len() - back_run(s, s.len() as int, '-'))
    }
}

/// The anchor slug of a heading: `"## Pricing Tiers"` gives `"pricing-tiers"`.
pub open spec fn slug_of(t: Seq<char>) -> Seq<char> {
    trim_dashes(slug_raw(heading_text(t)))
}

pub proof fn lemma_back_run_bounds(s: Seq<char>, j: int, c: char)
    requires
        0 <= j <= s.len(),
    ensures
        0 <= back_run(s, j, c) <= j,
        forall|k: int| j - back_run(s, j, c) <= k < j ==> #[trigger] s[k] == c,
        j - back_run(s, j, c) > 0 ==> s[j - back_run(s, j, c) - 1] != c,
    decreases j,
{
    if 0 < j && s[j - 1] == c {
        lemma_back_run_bounds(s, j - 1, c);
    }
}

/// A copy of `trim(v)`.
pub fn trimmed(v: &[char]) -> (r: Vec<char>)
    ensures
        r@ == trim(v@),
{
    let (a, b) = trim_bounds(v, 0, v.len());
    let mut out: Vec<char> = Vec::new();
    extend_range(&mut out, v, a, b);
    proof {
        assert(v@.subrange(0, v@.len() as int) =~= v@);
    }
    out
}

/// The characters of [`heading_text`].
pub(crate) fn heading_text_exec(v: &[char]) -> (r: Vec<char>)
    ensures
        r@ == heading_text(v@),
{
    let t = trimmed(v);
    let h = run_len_exec(&t, 0, '#');
    let mut u: Vec<char> = Vec::new();
    extend_range(&mut u, &t, h, t.len());
    trimmed(&u)
}

/// `slug_raw` in exec form.
pub(crate) fn slug_raw_exec(w: &[char]) -> (r: Vec<char>)
    ensures
        r@ == slug_raw(w@),
{
    let mut slug: Vec<char> = Vec::new();
    let mut i: usize = 0;
    while i < w.len()
        invariant
            i <= w.len(),
            slug@ == slug_raw(w@.take(i as int)),
        decreases w.len() - i,
    {
        let c = w[i];
        proof {
            assert(w@.take(i + 1).drop_last() =~= w@.take(i as int));
            assert(w@.take(i + 1).last() == c);
        }
        if char_is_alphanumeric(c) {
            slug.push(to_ascii_lower(c));
        } else if (is_whitespace(c) || c == '-' || c == '_') && !(slug.len() > 0 && slug[slug.len()
            - 1] == '-') {
            slug.push('-');
        }
        i += 1;
    }
    proof {
        assert(w@.take(w.len() as int) =~= w@);
    }
    slug
}

/// `trim_dashes` in exec form.
pub(crate) fn trim_dashes_exec(s: &[char]) -> (r: Vec<char>)
    ensures
        r@ == trim_dashes(s@),
{
    let a = run_len_exec(s, 0, '-');
    if a >= s.len() {
        return Vec::new();
    }
    let mut j = s.len();
    while j > 0 && s[j - 1] == '-'
        invariant
            j <= s.len(),
            back_run(s@, s.len() as int, '-') == (s.len() - j) + back_run(s@, j as int, '-'),
        decreases j,
    {
        j -= 1;
    }
    proof {
        lemma_back_run_bounds(s@, s.len() as int, '-');
        lemma_run_len_bounds(s@, 0, '-');
        assert(s@[a as int] != '-');
    }
    let mut out: Vec<char> = Vec::new();
    extend_range(&mut out, s, a, j);
    out
}

/// Derives a markdown anchor slug from a heading's text.
///
/// Example: `"## Pricing Tiers"` gives `"pricing-tiers"`.
pub fn heading_slug(text: &str) -> (r: String)
    ensures
        r@ == slug_of(text@),
{
    let v = chars_of(text);
    let w = heading_text_exec(&v);
    let raw = slug_raw_exec(&w);
    let t = trim_dashes_exec(&raw);
    string_of(&t)
}

/// A slug-shaped text: alphanumerics (already ASCII-lowercase) and single
/// dashes, with no dash at either end.
pub open spec fn slug_shaped(s: Seq<char>) -> bool {
    &&& forall|i: int| 0 <= i < s.len() ==> (#[trigger] s[i] == '-' || (is_alnum(s[i])
        && ascii_lower(s[i]) == s[i]))
    &&& forall|i: int| 0 <= i < s.len() - 1 ==> !(#[trigger] s[i] == '-' && s[i + 1] == '-')
    &&& s.len() > 0 ==> s[0] != '-' && s.last() != '-'
}

proof fn lemma_lower_alnum(c: char)
    requires
        is_alnum(c),
    ensures
        is_alnum(ascii_lower(c)),
        ascii_lower(ascii_lower(c)) == ascii_lower(c),
        ascii_lower(c) != '-',
{
}

/// `slug_raw` yields alphanumerics and dashes with no two dashes in a row.
proof fn lemma_slug_raw_shape(s: Seq<char>)
    ensures
        forall|i: int| 0 <= i < slug_raw(s).len() ==> (#[trigger] slug_raw(s)[i] == '-' || (
        is_alnum(slug_raw(s)[i]) && ascii_lower(slug_raw(s)[i]) == slug_raw(s)[i])),
        forall|i: int|
            0 <= i < slug_raw(s).len() - 1 ==> !(#[trigger] slug_raw(s)[i] == '-' && slug_raw(
                s,
            )[i + 1] == '-'),
    decreases s.len(),
{
    if s.len() > 0 {
        lemma_slug_raw_shape(s.drop_last());
        let p = slug_raw(s.drop_last());
        let c = s.last();
        let r = slug_raw(s);
        assert(r == slug_step(p, c));
        if is_alnum(c) {
            lemma_lower_alnum(c);
            assert(r == p.push(ascii_lower(c)));
            assert forall|i: int| 0 <= i < r.len() implies (#[trigger] r[i] == '-' || (is_alnum(
                r[i]) && ascii_lower(r[i]) == r[i])) by {
                if i < p.len() {
                    assert(r[i] == p[i]);
                }
            }
            assert forall|i: int| 0 <= i < r.len() - 1 implies !(#[trigger] r[i] == '-' && r[i
                + 1] == '-') by {
                if i < p.len() - 1 {
                    assert(r[i] == p[i] && r[i + 1] == p[i + 1]);
                }
            }
        } else if (is_ws(c) || c == '-' || c == '_') && !(p.len() > 0 && p.last() == '-') {
            assert(r == p.push('-'));
            assert forall|i: int| 0 <= i < r.len() implies (#[trigger] r[i] == '-' || (is_alnum(
                r[i]) && ascii_lower(r[i]) == r[i])) by {
                if i < p.len() {
                    assert(r[i] == p[i]);
                }
            }
            assert forall|i: int| 0 <= i < r.len() - 1 implies !(#[trigger] r[i] == '-' && r[i
                + 1] == '-') by {
                if i < p.len() - 1 {
                    assert(r[i] == p[i] && r[i + 1] == p[i + 1]);
                } else {
                    assert(r[i] == p.last());
                }
            }
        } else {
            assert(r == p);
        }
    }
}

/// A text without `--`, not starting with `-`, made of dashes and lowercase
/// alphanumerics, is its own raw slug.
proof fn lemma_slug_raw_fixed(s: Seq<char>)
    requires
        forall|i: int| 0 <= i < s.len() ==> (#[trigger] s[i] == '-' || (is_alnum(s[i])
            && ascii_lower(s[i]) == s[i])),
        forall|i: int| 0 <= i < s.len() - 1 ==> !(#[trigger] s[i] == '-' && s[i + 1] == '-'),
        s.len() > 0 ==> s[0] != '-',
    ensures
        slug_raw(s) == s,
    decreases s.len(),
{
    if s.len() > 0 {
        let p = s.drop_last();
        assert forall|i: int| 0 <= i < p.len() - 1 implies !(#[trigger] p[i] == '-' && p[i + 1]
            == '-') by {
            assert(p[i] == s[i] && p[i + 1] == s[i + 1]);
        }
        assert forall|i: int| 0 <= i < p.len() implies (#[trigger] p[i] == '-' || (is_alnum(p[i])
            && ascii_lower(p[i]) == p[i])) by {
            assert(p[i] == s[i]);
        }
        lemma_slug_raw_fixed(p);
        let c = s.last();
        if c == '-' {
            assert(s.len() >= 2);
            assert(!(s[s.len() - 2] == '-' && s[s.len() - 1] == '-'));
            assert(p.last() == s[s.len() - 2]);
        }
        assert(s =~= p.push(c));
    }
}

/// The result of [`heading_slug`] is slug-shaped.
pub proof fn lemma_slug_shaped(t: Seq<char>)
    ensures
        slug_shaped(slug_of(t)),
{
    let r = slug_raw(heading_text(t));
    lemma_slug_raw_shape(heading_text(t));
    lemma_run_len_bounds(r, 0, '-');
    lemma_back_run_bounds(r, r.len() as int, '-');
    let a = run_len(r, 0, '-');
    if a < r.len() {
        let b = r.len() - back_run(r, r.len() as int, '-');
        assert(r[a] != '-');
        assert(a < b);
        let s = r.subrange(a, b);
        assert forall|i: int| 0 <= i < s.len() - 1 implies !(#[trigger] s[i] == '-' && s[i + 1]
            == '-') by {
            assert(s[i] == r[a + i] && s[i + 1] == r[a + i + 1]);
        }
        assert forall|i: int| 0 <= i < s.len() implies (#[trigger] s[i] == '-' || (is_alnum(s[i])
            && ascii_lower(s[i]) == s[i])) by {
            assert(s[i] == r[a + i]);
        }
    }
}

/// A slug-shaped text is its own heading text.
proof fn lemma_heading_text_fixed(s: Seq<char>)
    requires
        slug_shaped(s),
    ensures
        heading_text(s) == s,
{
    crate::text::lemma_skip_ws_bounds(s, 0, s.len() as int);
    crate::text::lemma_skip_ws_back_bounds(s, 0, s.len() as int);
    if s.len() > 0 {
        assert(!is_ws(s[0]));
        assert(!is_ws(s.last()));
        assert(crate::text::skip_ws(s, 0, s.len() as int) == 0);
        assert(crate::text::skip_ws_back(s, 0, s.len() as int) == s.len());
    } else {
        assert(crate::text::skip_ws(s, 0, 0) == 0);
        assert(crate::text::skip_ws_back(s, 0, 0) == 0);
    }
    assert(trim_start(s) =~= s);
    assert(trim(s) =~= s);
    assert(run_len(s, 0, '#') == 0);
    assert(strip_hashes(s) =~= s);
}

/// Slugging is idempotent: the slug of a slug is the slug itself.
pub proof fn lemma_heading_slug_idempotent(t: Seq<char>)
    ensures
        slug_of(slug_of(t)) == slug_of(t),
{
    let s = slug_of(t);
    lemma_slug_shaped(t);
    lemma_heading_text_fixed(s);
    lemma_slug_raw_fixed(s);
    lemma_run_len_bounds(s, 0, '-');
    lemma_back_run_bounds(s, s.len() as int, '-');
    if s.len() > 0 {
        assert(run_len(s, 0, '-') == 0);
        assert(back_run(s, s.len() as int, '-') == 0);
        assert(s.subrange(0, s.len() as int) =~= s);
    }
}

/// An ATX heading line: after trimming, one to six `#` followed by
/// whitespace or the end of the line. Gives the level and the trimmed text.
pub open spec fn heading_line(line: Seq<char>) -> Option<(int, Seq<char>)> {
    let t = trim(line);
    let n = run_len(t, 0, '#');
    if 1 <= n <= 6 && (n == t.len() || is_ws(t[n])) {
        Some((n, trim(t.subrange(n, t.len() as int))))
    } else {
        None
    }
}

/// Parses an ATX heading line into its level and text.
pub fn parse_heading_line(line: &str) -> (r: Option<(usize, String)>)
    ensures
        match r {
            Some((n, s)) => heading_line(line@) == Some((n as int, s@)),
            None => heading_line(line@) is None,
        },
{
    let v = chars_of(line);
    let t = trimmed(&v);
    let n = run_len_exec(&t, 0, '#');
    proof {
        lemma_run_len_bounds(t@, 0, '#');
    }
    if 1 <= n && n <= 6 && (n == t.len() || is_whitespace(t[n])) {
        let (a, b) = trim_bounds(&t, n, t.len());
        let mut out: Vec<char> = Vec::new();
        extend_range(&mut out, &t, a, b);
        Some((n, string_of(&out)))
    } else {
        None
    }
}

/// A heading found in a body.
#[derive(Clone, Debug, PartialEq, Eq)]
pub struct Heading {
    /// 1 to 6.
    pub level: usize,
    /// The heading text, trimmed.
    pub text: String,
}

impl Heading {
    /// The anchor slug of this heading.
    pub fn slug(&self) -> (r: String)
        ensures
            r@ == slug_of(self.text@),
    {
        heading_slug(self.text.as_str())
    }
}

/// The fence open after `line`, given the fence open before it.
pub open spec fn fence_after(f: Option<char>, line: Seq<char>) -> Option<char> {
    let ts = trim_start(line);
    match f {
        Some(c) => if has_prefix(ts, seq![c, c, c]) {
            None
        } else {
            Some(c)
        },
        None => if has_prefix(ts, "```"@) {
            Some('`')
        } else if has_prefix(ts, "~~~"@) {
            Some('~')
        } else {
            None
        },
    }
}

/// Whether `line` is code, given the fence open before it.
pub open spec fn is_code_line(f: Option<char>, line: Seq<char>) -> bool {
    f is Some || fence_after(None, line) is Some
}

/// The fence open before line `i`.
pub open spec fn fence_before(ls: Seq<Seq<char>>, i: int) -> Option<char>
    decreases i,
{
    if i <= 0 {
        None
    } else {
        fence_after(fence_before(ls, i - 1), ls[i - 1])
    }
}

/// Whether line `i` of `ls` is code.
pub open spec fn code_at(ls: Seq<Seq<char>>, i: int) -> bool {
    is_code_line(fence_before(ls, i), ls[i])
}

fn starts_with_chars(v: &[char], w: &str) -> (r: bool)
    ensures
        r == has_prefix(v@, w@),
{
    let wv = chars_of(w);
    let r = matches_at(v, 0, &wv);
    proof {
        if r {
            assert(v@.subrange(0, wv@.len() as int) == wv@);
        }
    }
    r
}

/// `fence_after` in exec form.
pub fn next_fence(f: Option<char>, line: &[char]) -> (r: Option<char>)
    ensures
        r == fence_after(f, line@),
{
    let a = crate::text::skip_ws_exec(line, 0, line.len());
    let mut ts: Vec<char> = Vec::new();
    extend_range(&mut ts, line, a, line.len());
    match f {
        Some(c) => {
            let close = ts.len() >= 3 && ts[0] == c && ts[1] == c && ts[2] == c;
            proof {
                if ts.len() >= 3 {
                    if close {
                        assert(ts@.subrange(0, 3) =~= seq![c, c, c]);
                    } else {
                        let x = ts@.subrange(0, 3);
                        assert(x[0] == ts@[0] && x[1] == ts@[1] && x[2] == ts@[2]);
                        assert(x != seq![c, c, c]);
                    }
                }
            }
            if close {
                None
            } else {
                Some(c)
            }
        },
        None => {
            if starts_with_chars(&ts, "```") {
                Some('`')
            } else if starts_with_chars(&ts, "~~~") {
                Some('~')
            } else {
                None
            }
        },
    }
}

/// The headings among the first `i` lines, skipping code.
pub open spec fn headings_upto(ls: Seq<Seq<char>>, i: int) -> Seq<(int, Seq<char>)>
    decreases i,
{
    if i <= 0 {
        seq![]
    } else {
        let prev = headings_upto(ls, i - 1);
        if !code_at(ls, i - 1) && heading_line(ls[i - 1]) is Some {
            prev.push(heading_line(ls[i - 1])->0)
        } else {
            prev
        }
    }
}

/// The headings of a body, in order, outside fenced code.
pub open spec fn headings_of(body: Seq<char>) -> Seq<(int, Seq<char>)> {
    headings_upto(lines(body), lines(body).len() as int)
}

/// The level and text of each heading.
pub open spec fn heading_views(v: Seq<Heading>) -> Seq<(int, Seq<char>)> {
    v.map_values(|h: Heading| (h.level as int, h.text@))
}

/// Extracts the ATX headings of a body, skipping fenced code blocks.
pub fn extract_headings(body: &str) -> (r: Vec<Heading>)
    ensures
        heading_views(r@) == headings_of(body@),
{
    let v = chars_of(body);
    let ls = split_lines(&v);
    let ghost gl = views(ls@);
    let mut out: Vec<Heading> = Vec::new();
    let mut fence: Option<char> = None;
    let mut i: usize = 0;
    while i < ls.len()
        invariant
            i <= ls.len(),
            gl == views(ls@),
            gl == lines(body@),
            fence == fence_before(gl, i as int),
            heading_views(out@) == headings_upto(gl, i as int),
        decreases ls.len() - i,
    {
        let line = &ls[i];
        proof {
            assert(gl[i as int] == line@);
        }
        let code = fence.is_some() || next_fence(None, line).is_some();
        if !code {
            let s = string_of(line);
            match parse_heading_line(s.as_str()) {
                Some((n, t)) => {
                    let h = Heading { level: n, text: t };
                    proof {
                        assert(heading_views(out@.push(h)) =~= heading_views(out@).push(
                            (n as int, h.text@),
                        ));
                    }
                    out.push(h);
                },
                None => {},
            }
        }
        fence = next_fence(fence, line);
        i += 1;
    }
    out
}

/// A `-` or `_` read as a space.
pub open spec fn dash_to_space(c: char) -> char {
    if c == '-' || c == '_' {
        ' '
    } else {
        c
    }
}

/// Whether two heading references name the same heading: their texts match
/// ignoring ASCII case, their slugs match, or they match ignoring case once
/// `-` and `_` are read as spaces.
pub open spec fn headings_match(a: Seq<char>, b: Seq<char>) -> bool {
    let x = heading_text(a);
    let y = heading_text(b);
    ||| eq_ignore_case(x, y)
    ||| slug_of(x) == slug_of(y)
    ||| eq_ignore_case(x.map_values(|c: char| dash_to_space(c)), y.map_values(|c: char| dash_to_space(c)))
}

pub(crate) fn dashes_to_spaces(v: &[char]) -> (r: Vec<char>)
    ensures
        r@ == v@.map_values(|c: char| dash_to_space(c)),
{
    let mut out: Vec<char> = Vec::new();
    let mut i: usize = 0;
    while i < v.len()
        invariant
            i <= v.len(),
            out@ == v@.take(i as int).map_values(|c: char| dash_to_space(c)),
        decreases v.len() - i,
    {
        let c = v[i];
        out.push(if c == '-' || c == '_' { ' ' } else { c });
        i += 1;
        proof {
            assert(out@ =~= v@.take(i as int).map_values(|c: char| dash_to_space(c)));
        }
    }
    proof {
        assert(v@.take(v.len() as int) =~= v@);
    }
    out
}

fn same_chars_vec(a: &[char], b: &[char]) -> (r: bool)
    ensures
        r == (a@ == b@),
{
    if a.len() != b.len() {
        return false;
    }
    let r = matches_at(a, 0, b);
    proof {
        if r {
            assert(a@ =~= a@.subrange(0, b@.len() as int));
        } else {
            assert(a@.subrange(0, b@.len() as int) =~= a@);
        }
    }
    r
}

/// Whether a heading reference (`"## Pricing Model"`, `"pricing-model"`,
/// `"Pricing Model"`) names the same heading as another.
pub fn matches_heading(a: &str, b: &str) -> (r: bool)
    ensures
        r == headings_match(a@, b@),
{
    let x = heading_text_exec(&chars_of(a));
    let y = heading_text_exec(&chars_of(b));
    if eq_ignore_ascii_case(&x, &y) {
        return true;
    }
    let sx = trim_dashes_exec(&slug_raw_exec(&heading_text_exec(&x)));
    let sy = trim_dashes_exec(&slug_raw_exec(&heading_text_exec(&y)));
    if same_chars_vec(&sx, &sy) {
        return true;
    }
    eq_ignore_ascii_case(&dashes_to_spaces(&x), &dashes_to_spaces(&y))
}


/// The index of the first space or tab at or after `i`, or the length.
pub open spec fn first_blank(s: Seq<char>, i: int) -> int
    decreases s.len() - i,
{
    if i < 0 || i >= s.len() {
        s.len() as int
    } else if s[i] == ' ' || s[i] == '\t' {
        i
    } else {
        first_blank(s, i + 1)
    }
}

/// Whether `s` opens with a title quote.
pub open spec fn quoted_start(s: Seq<char>) -> bool {
    s.len() > 0 && (s[0] == '"' || s[0] == '\'')
}

/// Whether `d` opens with `<` and has a later `>`.
pub open spec fn angled(d: Seq<char>) -> bool {
    d.len() > 0 && d[0] == '<' && crate::paths::first_index(d, '>', 1) < d.len()
}

/// A destination without a quoted title after it.
pub open spec fn title_stripped(dest: Seq<char>) -> Seq<char> {
    let d = trim(dest);
    let idx = first_blank(d, 0);
    if idx < d.len() && quoted_start(trim_start(d.subrange(idx, d.len() as int))) {
        d.subrange(0, idx)
    } else {
        d
    }
}

/// A destination with its angle brackets or its quoted title removed.
pub open spec fn cleaned(dest: Seq<char>) -> Seq<char> {
    let d = trim(dest);
    if angled(d) {
        d.subrange(1, crate::paths::first_index(d, '>', 1))
    } else {
        title_stripped(d)
    }
}

/// The quoted title after a destination, with one leading space, or nothing.
pub open spec fn title_suffix(dest: Seq<char>) -> Seq<char> {
    let d = trim(dest);
    let after = if angled(d) {
        d.subrange(crate::paths::first_index(d, '>', 1) + 1, d.len() as int)
    } else if first_blank(d, 0) < d.len() {
        d.subrange(first_blank(d, 0), d.len() as int)
    } else {
        seq![]
    };
    let t = trim(after);
    if quoted_start(t) {
        seq![' '] + t
    } else {
        seq![]
    }
}

fn first_blank_exec(s: &[char]) -> (r: usize)
    ensures
        r == first_blank(s@, 0),
        r <= s.len(),
{
    let mut i: usize = 0;
    while i < s.len() && s[i] != ' ' && s[i] != '\t'
        invariant
            i <= s.len(),
            first_blank(s@, i as int) == first_blank(s@, 0),
        decreases s.len() - i,
    {
        i += 1;
    }
    i
}

pub(crate) fn first_index_exec(s: &[char], c: char, from: usize) -> (r: usize)
    requires
        from <= s.len(),
    ensures
        r == crate::paths::first_index(s@, c, from as int),
        from <= r <= s.len(),
{
    let mut i: usize = from;
    while i < s.len() && s[i] != c
        invariant
            from <= i <= s.len(),
            crate::paths::first_index(s@, c, i as int) == crate::paths::first_index(s@, c, from as int),
        decreases s.len() - i,
    {
        i += 1;
    }
    i
}

fn slice_of(v: &[char], lo: usize, hi: usize) -> (r: Vec<char>)
    requires
        lo <= hi <= v.len(),
    ensures
        r@ == v@.subrange(lo as int, hi as int),
{
    let mut out: Vec<char> = Vec::new();
    extend_range(&mut out, v, lo, hi);
    out
}

fn title_stripped_exec(dest: &[char]) -> (r: Vec<char>)
    ensures
        r@ == title_stripped(dest@),
{
    let d = trimmed(dest);
    let idx = first_blank_exec(&d);
    if idx < d.len() {
        let rest = slice_of(&d, idx, d.len());
        let a = crate::text::skip_ws_exec(&rest, 0, rest.len());
        if a < rest.len() && (rest[a] == '"' || rest[a] == '\'') {
            return slice_of(&d, 0, idx);
        }
        proof {
            let ts = trim_start(d@.subrange(idx as int, d@.len() as int));
            assert(ts =~= rest@.subrange(a as int, rest@.len() as int));
        }
    }
    d
}

fn cleaned_exec(dest: &[char]) -> (r: Vec<char>)
    ensures
        r@ == cleaned(dest@),
{
    let d = trimmed(dest);
    if d.len() > 0 && d[0] == '<' {
        let e = first_index_exec(&d, '>', 1);
        if e < d.len() {
            return slice_of(&d, 1, e);
        }
    }
    title_stripped_exec(&d)
}

fn title_suffix_exec(dest: &[char]) -> (r: Vec<char>)
    ensures
        r@ == title_suffix(dest@),
{
    let d = trimmed(dest);
    let mut after: Vec<char> = Vec::new();
    let mut done = false;
    if d.len() > 0 && d[0] == '<' {
        let e = first_index_exec(&d, '>', 1);
        if e < d.len() {
            after = slice_of(&d, e + 1, d.len());
            done = true;
        }
    }
    if !done {
        let idx = first_blank_exec(&d);
        if idx < d.len() {
            after = slice_of(&d, idx, d.len());
        }
    }
    proof {
        if !angled(d@) && first_blank(d@, 0) >= d@.len() {
            assert(after@ =~= Seq::<char>::empty());
        }
    }
    let t = trimmed(&after);
    if t.len() > 0 && (t[0] == '"' || t[0] == '\'') {
        let mut out: Vec<char> = Vec::new();
        out.push(' ');
        crate::text::extend_all(&mut out, &t);
        proof {
            assert(out@ =~= seq![' '] + t@);
        }
        out
    } else {
        Vec::new()
    }
}

/// A link destination without its angle brackets or its quoted title.
pub fn clean_destination(dest: &str) -> (r: String)
    ensures
        r@ == cleaned(dest@),
{
    string_of(&cleaned_exec(&chars_of(dest)))
}

/// A link destination without a quoted title after it.
pub fn strip_title(dest: &str) -> (r: String)
    ensures
        r@ == title_stripped(dest@),
{
    string_of(&title_stripped_exec(&chars_of(dest)))
}

/// The quoted title after a link destination, with a leading space, or an
/// empty string when there is none.
pub fn extract_title_suffix(dest: &str) -> (r: String)
    ensures
        r@ == title_suffix(dest@),
{
    string_of(&title_suffix_exec(&chars_of(dest)))
}

/// Whether the character at `i` is escaped by an odd run of backslashes.
pub open spec fn escaped(s: Seq<char>, i: int) -> bool {
    back_run(s, i, '\\') % 2 == 1
}

fn is_escaped(s: &[char], i: usize) -> (r: bool)
    requires
        i <= s.len(),
    ensures
        r == escaped(s@, i as int),
{
    let mut j = i;
    while j > 0 && s[j - 1] == '\\'
        invariant
            j <= i <= s.len(),
            back_run(s@, i as int, '\\') == (i - j) + back_run(s@, j as int, '\\'),
        decreases j,
    {
        j -= 1;
    }
    (i - j) % 2 == 1
}

/// Where the bracket opened before `i` closes (at `depth` open brackets),
/// skipping backslash-escaped characters; `-1` if it never does.
pub open spec fn bracket_close(s: Seq<char>, i: int, depth: int, open: char, close: char) -> int
    decreases s.len() - i,
{
    if i < 0 || i >= s.len() {
        -1
    } else if s[i] == '\\' {
        if i + 2 > s.len() {
            -1
        } else {
            bracket_close(s, i + 2, depth, open, close)
        }
    } else if s[i] == open {
        bracket_close(s, i + 1, depth + 1, open, close)
    } else if s[i] == close {
        if depth <= 1 {
            i
        } else {
            bracket_close(s, i + 1, depth - 1, open, close)
        }
    } else {
        bracket_close(s, i + 1, depth, open, close)
    }
}

pub proof fn lemma_bracket_close_range(s: Seq<char>, i: int, depth: int, open: char, close: char)
    ensures
        bracket_close(s, i, depth, open, close) == -1 || (i <= bracket_close(s, i, depth, open, close)
            < s.len()),
    decreases s.len() - i,
{
    if i < 0 || i >= s.len() {
    } else if s[i] == '\\' {
        if i + 2 <= s.len() {
            lemma_bracket_close_range(s, i + 2, depth, open, close);
        }
    } else if s[i] == open {
        lemma_bracket_close_range(s, i + 1, depth + 1, open, close);
    } else if s[i] == close {
        if depth > 1 {
            lemma_bracket_close_range(s, i + 1, depth - 1, open, close);
        }
    } else {
        lemma_bracket_close_range(s, i + 1, depth, open, close);
    }
}

fn bracket_close_exec(s: &[char], start: usize, open: char, close: char) -> (r: Option<usize>)
    requires
        1 <= start,
    ensures
        match r {
            Some(x) => x as int == bracket_close(s@, start as int, 1, open, close) && start <= x
                < s.len(),
            None => bracket_close(s@, start as int, 1, open, close) == -1,
        },
{
    let mut i = start;
    let mut depth: usize = 1;
    while i < s.len()
        invariant
            1 <= start <= i,
            1 <= depth <= i - start + 1,
            bracket_close(s@, i as int, depth as int, open, close) == bracket_close(s@, start as int, 1, open, close),
        decreases s.len() - i,
    {
        let c = s[i];
        if c == '\\' {
            if i + 1 >= s.len() {
                return None;
            }
            i += 2;
        } else if c == open {
            depth += 1;
            i += 1;
        } else if c == close {
            if depth <= 1 {
                proof {
                    lemma_bracket_close_range(s@, start as int, 1, open, close);
                }
                return Some(i);
            }
            depth -= 1;
            i += 1;
        } else {
            i += 1;
        }
    }
    None
}

/// The inline link `[text](dest)` opening at `st`: the indices of its `]`
/// and of its closing `)`.
pub open spec fn link_at(s: Seq<char>, st: int) -> Option<(int, int)> {
    let te = bracket_close(s, st + 1, 1, '[', ']');
    if te < 0 || te + 1 >= s.len() || s[te + 1] != '(' {
        None
    } else {
        let de = bracket_close(s, te + 2, 1, '(', ')');
        if de < 0 {
            None
        } else {
            Some((te, de))
        }
    }
}

pub proof fn lemma_link_at_bounds(s: Seq<char>, st: int)
    requires
        0 <= st,
    ensures
        link_at(s, st) matches Some((te, de)) ==> st < te && te + 2 <= de < s.len(),
{
    lemma_bracket_close_range(s, st + 1, 1, '[', ']');
    let te = bracket_close(s, st + 1, 1, '[', ']');
    if te >= 0 {
        lemma_bracket_close_range(s, te + 2, 1, '(', ')');
    }
}

fn link_at_exec(s: &[char], st: usize) -> (r: Option<(usize, usize)>)
    requires
        st < s.len(),
    ensures
        match r {
            Some((te, de)) => link_at(s@, st as int) == Some((te as int, de as int)) && st < te
                && te + 2 <= de && de < s.len(),
            None => link_at(s@, st as int) is None,
        },
{
    match bracket_close_exec(s, st + 1, '[', ']') {
        None => None,
        Some(te) => {
            if te + 1 >= s.len() || s[te + 1] != '(' {
                None
            } else {
                match bracket_close_exec(s, te + 2, '(', ')') {
                    None => None,
                    Some(de) => Some((te, de)),
                }
            }
        },
    }
}

/// Whether an inline link opens at `i` outside a code span.
pub open spec fn opens_link(s: Seq<char>, i: int, in_code: bool) -> bool {
    &&& !in_code
    &&& s[i] == '['
    &&& !escaped(s, i)
    &&& !(i + 1 < s.len() && s[i + 1] == '^')
    &&& link_at(s, i) is Some
}

/// The inline links of a line from `i` on, as `(start, ']' index, ')' index)`.
/// Backticks that are not escaped toggle code spans; links inside them and
/// `[^...]` footnote markers are not links.
pub open spec fn line_sites(s: Seq<char>, i: int, in_code: bool) -> Seq<(int, int, int)>
    decreases s.len() - i,
{
    if i < 0 || i >= s.len() {
        seq![]
    } else if s[i] == '`' && !escaped(s, i) {
        line_sites(s, i + 1, !in_code)
    } else if opens_link(s, i, in_code) {
        let (te, de) = link_at(s, i)->0;
        proof {
            lemma_link_at_bounds(s, i);
        }
        seq![(i, te, de)] + line_sites(s, de + 1, in_code)
    } else {
        line_sites(s, i + 1, in_code)
    }
}

/// How an action renders the link `s[st..=de]`.
pub open spec fn link_piece(s: Seq<char>, st: int, te: int, de: int, a: ActView) -> Seq<char> {
    match a {
        ActView::Keep => s.subrange(st, de + 1),
        ActView::Rewrite(nd) => seq!['['] + s.subrange(st + 1, te) + "]("@
            + angle_if_spaced(nd) + title_suffix(s.subrange(te + 2, de)) + seq![')'],
        ActView::Unlink => s.subrange(st + 1, te),
    }
}

/// A new destination, in angle brackets when it holds a space and has none.
pub open spec fn angle_if_spaced(nd: Seq<char>) -> Seq<char> {
    if nd.contains(' ') && !(nd.len() > 0 && nd[0] == '<') {
        seq!['<'] + nd + seq!['>']
    } else {
        nd
    }
}

/// A line from `i` on with its links rendered by `acts`, starting at `acts[k]`.
pub open spec fn rewrite_line_from(
    s: Seq<char>,
    i: int,
    in_code: bool,
    acts: Seq<ActView>,
    k: int,
) -> Seq<char>
    decreases s.len() - i,
{
    if i < 0 || i >= s.len() {
        seq![]
    } else if s[i] == '`' && !escaped(s, i) {
        seq!['`'] + rewrite_line_from(s, i + 1, !in_code, acts, k)
    } else if opens_link(s, i, in_code) {
        let (te, de) = link_at(s, i)->0;
        proof {
            lemma_link_at_bounds(s, i);
        }
        link_piece(s, i, te, de, acts[k]) + rewrite_line_from(s, de + 1, in_code, acts, k + 1)
    } else {
        seq![s[i]] + rewrite_line_from(s, i + 1, in_code, acts, k)
    }
}

/// Action to perform on a detected markdown link during rewrite.
#[derive(Clone, Debug, PartialEq, Eq)]
pub enum LinkRewriteAction {
    /// Keep the link destination as-is.
    Keep,
    /// Rewrite the destination to a new target (keeping text and title).
    Rewrite(String),
    /// Unlink: replace `[Text](dest)` with plain `Text`.
    Unlink,
}

/// A link rewrite action with its new destination as a character sequence.
pub enum ActView {
    Keep,
    Rewrite(Seq<char>),
    Unlink,
}

impl View for LinkRewriteAction {
    type V = ActView;

    open spec fn view(&self) -> ActView {
        match self {
            LinkRewriteAction::Keep => ActView::Keep,
            LinkRewriteAction::Rewrite(d) => ActView::Rewrite(d@),
            LinkRewriteAction::Unlink => ActView::Unlink,
        }
    }
}

/// The views of a list of actions.
pub open spec fn act_views(acts: Seq<LinkRewriteAction>) -> Seq<ActView> {
    acts.map_values(|a: LinkRewriteAction| a@)
}

fn push_piece(out: &mut Vec<char>, s: &[char], st: usize, te: usize, de: usize, a: &LinkRewriteAction)
    requires
        st < te,
        te + 2 <= de < s.len(),
    ensures
        final(out)@ == old(out)@ + link_piece(s@, st as int, te as int, de as int, a@),
{
    match a {
        LinkRewriteAction::Keep => {
            extend_range(out, s, st, de + 1);
        },
        LinkRewriteAction::Rewrite(nd) => {
            let ghost start = out@;
            let ndv = chars_of(nd.as_str());
            let spaced = crate::syntax::contains_char(&ndv, ' ');
            let mut dv: Vec<char> = Vec::new();
            if spaced && !(ndv.len() > 0 && ndv[0] == '<') {
                dv.push('<');
                crate::text::extend_all(&mut dv, &ndv);
                dv.push('>');
                proof {
                    assert(dv@ =~= seq!['<'] + nd@ + seq!['>']);
                }
            } else {
                crate::text::extend_all(&mut dv, &ndv);
            }
            assert(dv@ == angle_if_spaced(nd@));
            let raw = slice_of(s, te + 2, de);
            let suffix = title_suffix_exec(&raw);
            let mut piece: Vec<char> = Vec::new();
            piece.push('[');
            extend_range(&mut piece, s, st + 1, te);
            piece.push(']');
            piece.push('(');
            crate::text::extend_all(&mut piece, &dv);
            crate::text::extend_all(&mut piece, &suffix);
            piece.push(')');
            proof {
                assert(piece@ =~= seq!['['] + s@.subrange(st + 1, te as int) + "]("@ + dv@ + suffix@ + seq![')']) by {
                    reveal_strlit("](");
                }
            }
            crate::text::extend_all(out, &piece);
        },
        LinkRewriteAction::Unlink => {
            extend_range(out, s, st + 1, te);
        },
    }
}

/// The `(text, raw destination)` of every link a line's sites name.
pub open spec fn site_links(s: Seq<char>, sites: Seq<(int, int, int)>) -> Seq<(Seq<char>, Seq<char>)> {
    sites.map_values(|t: (int, int, int)| (s.subrange(t.0 + 1, t.1), s.subrange(t.1 + 2, t.2)))
}

/// The inline links of one line.
pub open spec fn links_of_line(s: Seq<char>) -> Seq<(Seq<char>, Seq<char>)> {
    site_links(s, line_sites(s, 0, false))
}

/// The sites of one line in exec form, with their exact positions.
fn line_sites_exec(s: &[char]) -> (r: Vec<(usize, usize, usize)>)
    ensures
        r@.map_values(|t: (usize, usize, usize)| (t.0 as int, t.1 as int, t.2 as int)) == line_sites(s@, 0, false),
        forall|k: int| 0 <= k < r@.len() ==> (#[trigger] r@[k]).0 < r@[k].1 && r@[k].1 + 2 <= r@[k].2 && r@[k].2 < s.len(),
{
    let mut out: Vec<(usize, usize, usize)> = Vec::new();
    let mut i: usize = 0;
    let mut in_code = false;
    while i < s.len()
        invariant
            i <= s.len(),
            out@.map_values(|t: (usize, usize, usize)| (t.0 as int, t.1 as int, t.2 as int))
                + line_sites(s@, i as int, in_code) == line_sites(s@, 0, false),
            forall|k: int| 0 <= k < out@.len() ==> (#[trigger] out@[k]).0 < out@[k].1 && out@[k].1 + 2 <= out@[k].2 && out@[k].2 < s.len(),
        decreases s.len() - i,
    {
        let ghost before = out@.map_values(|t: (usize, usize, usize)| (t.0 as int, t.1 as int, t.2 as int));
        if s[i] == '`' && !is_escaped(s, i) {
            in_code = !in_code;
            i += 1;
        } else {
            let mut found: Option<(usize, usize)> = None;
            if !in_code && s[i] == '[' && !is_escaped(s, i) && !(i + 1 < s.len() && s[i + 1] == '^') {
                found = link_at_exec(s, i);
            }
            match found {
                Some((te, de)) => {
                    out.push((i, te, de));
                    proof {
                        assert(out@.map_values(|t: (usize, usize, usize)| (t.0 as int, t.1 as int, t.2 as int))
                            =~= before.push((i as int, te as int, de as int)));
                        assert(before + line_sites(s@, i as int, in_code) =~= before.push((i as int, te as int, de as int)) + line_sites(s@, de + 1, in_code));
                    }
                    i = de + 1;
                },
                None => {
                    i += 1;
                },
            }
        }
    }
    out
}

/// Renders one line's links by `acts[lo..]`.
fn rewrite_line_exec(s: &[char], acts: &Vec<LinkRewriteAction>, lo: usize) -> (r: Vec<char>)
    requires
        lo + line_sites(s@, 0, false).len() <= acts.len(),
    ensures
        r@ == rewrite_line_from(s@, 0, false, act_views(acts@), lo as int),
{
    let mut out: Vec<char> = Vec::new();
    let mut i: usize = 0;
    let mut k: usize = lo;
    let mut in_code = false;
    while i < s.len()
        invariant
            i <= s.len(),
            lo <= k,
            k + line_sites(s@, i as int, in_code).len() == lo + line_sites(s@, 0, false).len(),
            lo + line_sites(s@, 0, false).len() <= acts.len(),
            out@ + rewrite_line_from(s@, i as int, in_code, act_views(acts@), k as int) == rewrite_line_from(s@, 0, false, act_views(acts@), lo as int),
        decreases s.len() - i,
    {
        let ghost g = out@;
        if s[i] == '`' && !is_escaped(s, i) {
            out.push('`');
            proof {
                assert(g + rewrite_line_from(s@, i as int, in_code, act_views(acts@), k as int) =~= out@ + rewrite_line_from(s@, i + 1, !in_code, act_views(acts@), k as int));
            }
            in_code = !in_code;
            i += 1;
        } else {
            let mut found: Option<(usize, usize)> = None;
            if !in_code && s[i] == '[' && !is_escaped(s, i) && !(i + 1 < s.len() && s[i + 1] == '^') {
                found = link_at_exec(s, i);
            }
            match found {
                Some((te, de)) => {
                    push_piece(&mut out, s, i, te, de, &acts[k]);
                    proof {
                        assert(act_views(acts@)[k as int] == acts@[k as int]@);
                    }
                    proof {
                        assert(g + rewrite_line_from(s@, i as int, in_code, act_views(acts@), k as int) =~= out@ + rewrite_line_from(s@, de + 1, in_code, act_views(acts@), k + 1));
                    }
                    i = de + 1;
                    k += 1;
                },
                None => {
                    out.push(s[i]);
                    proof {
                        assert(g + rewrite_line_from(s@, i as int, in_code, act_views(acts@), k as int) =~= out@ + rewrite_line_from(s@, i + 1, in_code, act_views(acts@), k as int));
                    }
                    i += 1;
                },
            }
        }
    }
    proof {
        assert(out@ + rewrite_line_from(s@, i as int, in_code, act_views(acts@), k as int) =~= out@);
    }
    out
}


/// The `(text, raw destination)` of every inline link in the first `i` lines
/// that are not code.
pub open spec fn links_upto(ls: Seq<Seq<char>>, i: int) -> Seq<(Seq<char>, Seq<char>)>
    decreases i,
{
    if i <= 0 {
        seq![]
    } else {
        let p = links_upto(ls, i - 1);
        if code_at(ls, i - 1) {
            p
        } else {
            p + links_of_line(ls[i - 1])
        }
    }
}

/// Every inline link of a body outside code, in order.
pub open spec fn links_in(body: Seq<char>) -> Seq<(Seq<char>, Seq<char>)> {
    links_upto(lines(body), lines(body).len() as int)
}

/// The first `i` lines with their links rendered by `acts`, code untouched.
pub open spec fn rewritten_upto(ls: Seq<Seq<char>>, acts: Seq<ActView>, i: int) -> Seq<Seq<char>>
    decreases i,
{
    if i <= 0 {
        seq![]
    } else {
        let p = rewritten_upto(ls, acts, i - 1);
        if code_at(ls, i - 1) {
            p.push(ls[i - 1])
        } else {
            p.push(rewrite_line_from(ls[i - 1], 0, false, acts, links_upto(ls, i - 1).len() as int))
        }
    }
}

/// Whether a text ends with a newline.
pub open spec fn ends_with_newline(s: Seq<char>) -> bool {
    s.len() > 0 && s.last() == '\n'
}

/// A body with its links rendered by `acts`, one action per link of
/// [`links_in`] in order: lines are rejoined with `\n`, keeping a final
/// newline.
pub open spec fn rewritten(body: Seq<char>, acts: Seq<ActView>) -> Seq<char> {
    let ls = lines(body);
    crate::text::join_with(rewritten_upto(ls, acts, ls.len() as int), "\n"@) + if ends_with_newline(body) {
        "\n"@
    } else {
        seq![]
    }
}

/// How many of the first `n` actions change their link.
pub open spec fn changed_count(acts: Seq<ActView>, n: int) -> int
    decreases n,
{
    if n <= 0 {
        0
    } else {
        changed_count(acts, n - 1) + if acts[n - 1] is Keep {
            0int
        } else {
            1int
        }
    }
}

proof fn lemma_links_upto_mono(ls: Seq<Seq<char>>, i: int, j: int)
    requires
        0 <= i <= j,
    ensures
        links_upto(ls, i).len() <= links_upto(ls, j).len(),
    decreases j - i,
{
    if i < j {
        lemma_links_upto_mono(ls, i, j - 1);
    }
}

proof fn lemma_changed_count_bounds(acts: Seq<ActView>, n: int)
    requires
        0 <= n,
    ensures
        0 <= changed_count(acts, n) <= n,
    decreases n,
{
    if n > 0 {
        lemma_changed_count_bounds(acts, n - 1);
    }
}

/// Whether `l` and `raw` are what a link with `site` as its text and raw
/// destination is handed to a rewrite callback as.
pub open spec fn link_of_site(l: Link, raw: Seq<char>, site: (Seq<char>, Seq<char>)) -> bool {
    &&& l.text@ == site.0
    &&& raw == site.1
    &&& l.target@ == cleaned(site.1)
    &&& l.kind == crate::links::kind_of(cleaned(site.1))
}

/// Lists every inline link of a body outside fenced code and inline code
/// spans, with its raw destination (as written between the parentheses).
pub fn markdown_links(body: &str) -> (r: Vec<(Link, String)>)
    ensures
        r@.len() == links_in(body@).len(),
        forall|k: int| 0 <= k < r@.len() ==> link_of_site(#[trigger] r@[k].0, r@[k].1@, links_in(body@)[k]),
{
    let v = chars_of(body);
    let ls = split_lines(&v);
    let ghost gl = views(ls@);
    let mut out: Vec<(Link, String)> = Vec::new();
    let mut fence: Option<char> = None;
    let mut i: usize = 0;
    while i < ls.len()
        invariant
            i <= ls.len(),
            gl == views(ls@),
            gl == lines(body@),
            fence == fence_before(gl, i as int),
            out@.len() == links_upto(gl, i as int).len(),
            forall|k: int| 0 <= k < out@.len() ==> link_of_site(#[trigger] out@[k].0, out@[k].1@, links_upto(gl, i as int)[k]),
        decreases ls.len() - i,
    {
        let line = &ls[i];
        proof {
            assert(gl[i as int] == line@);
        }
        let code = fence.is_some() || next_fence(None, line).is_some();
        if !code {
            let sites = line_sites_exec(line);
            let ghost sv = sites@.map_values(|t: (usize, usize, usize)| (t.0 as int, t.1 as int, t.2 as int));
            let ghost before = links_upto(gl, i as int);
            let ghost base = out@.len();
            let mut j: usize = 0;
            while j < sites.len()
                invariant
                    j <= sites.len(),
                    sv == sites@.map_values(|t: (usize, usize, usize)| (t.0 as int, t.1 as int, t.2 as int)),
                    sv == line_sites(line@, 0, false),
                    forall|k: int| 0 <= k < sites@.len() ==> (#[trigger] sites@[k]).0 < sites@[k].1 && sites@[k].1 + 2 <= sites@[k].2 && sites@[k].2 < line@.len(),
                    before == links_upto(gl, i as int),
                    out@.len() == base + j,
                    base == before.len(),
                    forall|k: int| 0 <= k < out@.len() ==> link_of_site(#[trigger] out@[k].0, out@[k].1@, (before + links_of_line(line@))[k]),
                decreases sites.len() - j,
            {
                let (st, te, de) = sites[j];
                let text = crate::text::string_of_range(line, st + 1, te);
                let raw = crate::text::string_of_range(line, te + 2, de);
                let target = string_of(&cleaned_exec(&slice_of(line, te + 2, de)));
                let kind = Link::classify(target.as_str());
                let l = Link { text, kind, target };
                proof {
                    assert(sv[j as int] == (st as int, te as int, de as int));
                    let site = links_of_line(line@)[j as int];
                    assert(site == (line@.subrange(st + 1, te as int), line@.subrange(te + 2, de as int)));
                    assert((before + links_of_line(line@))[base + j] == site);
                }
                out.push((l, raw));
                j += 1;
            }
            proof {
                assert(links_upto(gl, i + 1) == before + links_of_line(line@));
            }
        }
        fence = next_fence(fence, line);
        i += 1;
    }
    out
}

/// Renders a body's links by `acts`, one action per link of [`markdown_links`]
/// in order, and counts the links that changed.
pub fn apply_link_actions(body: &str, acts: &Vec<LinkRewriteAction>) -> (r: (String, usize))
    requires
        acts@.len() == links_in(body@).len(),
    ensures
        r.0@ == rewritten(body@, act_views(acts@)),
        r.1 == changed_count(act_views(acts@), acts@.len() as int),
{
    let v = chars_of(body);
    let ls = split_lines(&v);
    let ghost gl = views(ls@);
    let mut out: Vec<Vec<char>> = Vec::new();
    let mut fence: Option<char> = None;
    let mut off: usize = 0;
    let mut i: usize = 0;
    let alen = acts.len();
    while i < ls.len()
        invariant
            i <= ls.len(),
            gl == views(ls@),
            gl == lines(body@),
            alen == acts@.len(),
            acts@.len() == links_upto(gl, gl.len() as int).len(),
            fence == fence_before(gl, i as int),
            off == links_upto(gl, i as int).len(),
            views(out@) == rewritten_upto(gl, act_views(acts@), i as int),
        decreases ls.len() - i,
    {
        let line = &ls[i];
        proof {
            assert(gl[i as int] == line@);
            lemma_links_upto_mono(gl, i + 1, gl.len() as int);
        }
        let code = fence.is_some() || next_fence(None, line).is_some();
        let ghost old_out = views(out@);
        if code {
            let mut copy: Vec<char> = Vec::new();
            crate::text::extend_all(&mut copy, line);
            out.push(copy);
            proof {
                assert(views(out@) =~= old_out.push(line@));
            }
        } else {
            let sites = line_sites_exec(line);
            let n = sites.len();
            proof {
                assert(links_upto(gl, i + 1) == links_upto(gl, i as int) + links_of_line(line@));
                assert(sites@.map_values(|t: (usize, usize, usize)| (t.0 as int, t.1 as int, t.2 as int)).len() == n);
                assert(links_of_line(line@).len() == n);
                assert(links_upto(gl, i + 1).len() == off + n);
                assert(links_upto(gl, i + 1).len() <= links_upto(gl, gl.len() as int).len());
                assert(off + n <= alen);
            }
            let r = rewrite_line_exec(line, acts, off);
            out.push(r);
            proof {
                assert(views(out@) =~= old_out.push(r@));
            }
            off = off + n;
        }
        fence = next_fence(fence, line);
        i += 1;
    }
    let nl = chars_of("\n");
    let mut joined = crate::text::join_lines(&out, &nl);
    if v.len() > 0 && v[v.len() - 1] == '\n' {
        joined.push('\n');
        proof {
            assert(joined@ =~= crate::text::join_with(views(out@), "\n"@) + "\n"@) by {
                reveal_strlit("\n");
            }
        }
    } else {
        proof {
            assert(joined@ =~= crate::text::join_with(views(out@), "\n"@) + Seq::<char>::empty());
        }
    }
    let mut count: usize = 0;
    let mut k: usize = 0;
    while k < acts.len()
        invariant
            k <= acts.len(),
            count == changed_count(act_views(acts@), k as int),
            count <= k,
        decreases acts.len() - k,
    {
        match &acts[k] {
            LinkRewriteAction::Keep => {},
            _ => {
                count += 1;
            },
        }
        k += 1;
    }
    (string_of(&joined), count)
}

/// Whether `a` is something `f` can answer for the link `site`.
pub open spec fn answers<F: Fn(&Link, &str) -> LinkRewriteAction>(
    f: F,
    site: (Seq<char>, Seq<char>),
    a: LinkRewriteAction,
) -> bool {
    exists|l: &Link, d: &str| link_of_site(*l, d@, site) && #[trigger] call_ensures(f, (l, d), a)
}

/// Rewrites the inline links of a body with a callback, which sees each link
/// (text, kind, cleaned target) and its raw destination and answers what to
/// do with it. Fenced code blocks and inline code spans are left untouched.
/// Returns the new body and the number of links rewritten or unlinked.
pub fn rewrite_markdown_links<F: Fn(&Link, &str) -> LinkRewriteAction>(body: &str, rewrite_fn: F) -> (r: (String, usize))
    requires
        forall|l: &Link, d: &str| #[trigger] call_requires(rewrite_fn, (l, d)),
    ensures
        exists|acts: Seq<LinkRewriteAction>|
            {
                &&& acts.len() == links_in(body@).len()
                &&& forall|k: int| 0 <= k < acts.len() ==> answers(rewrite_fn, links_in(body@)[k], #[trigger] acts[k])
                &&& r.0@ == rewritten(body@, act_views(acts))
                &&& r.1 == changed_count(act_views(acts), acts.len() as int)
            },
{
    let links = markdown_links(body);
    let mut acts: Vec<LinkRewriteAction> = Vec::new();
    let mut k: usize = 0;
    while k < links.len()
        invariant
            k <= links.len(),
            acts@.len() == k,
            links@.len() == links_in(body@).len(),
            forall|j: int| 0 <= j < links@.len() ==> link_of_site(#[trigger] links@[j].0, links@[j].1@, links_in(body@)[j]),
            forall|j: int| 0 <= j < k ==> answers(rewrite_fn, links_in(body@)[j], #[trigger] acts@[j]),
            forall|l: &Link, d: &str| #[trigger] call_requires(rewrite_fn, (l, d)),
        decreases links.len() - k,
    {
        let l = &links[k].0;
        let d = links[k].1.as_str();
        let a = rewrite_fn(l, d);
        proof {
            assert(link_of_site(*l, d@, links_in(body@)[k as int]));
            assert(call_ensures(rewrite_fn, (l, d), a));
            assert(answers(rewrite_fn, links_in(body@)[k as int], a));
        }
        acts.push(a);
        k += 1;
    }
    let r = apply_link_actions(body, &acts);
    proof {
        assert(acts@.len() == links_in(body@).len());
    }
    r
}


/// A line with every inline code span, backticks included, blanked to
/// spaces; an unclosed span runs to the end of the line.
pub open spec fn blank_code_spans(s: Seq<char>, i: int, in_code: bool) -> Seq<char>
    decreases s.len() - i,
{
    if i < 0 || i >= s.len() {
        seq![]
    } else if s[i] == '`' && !escaped(s, i) {
        seq![' '] + blank_code_spans(s, i + 1, !in_code)
    } else if in_code {
        seq![' '] + blank_code_spans(s, i + 1, in_code)
    } else {
        seq![s[i]] + blank_code_spans(s, i + 1, in_code)
    }
}

/// The non-code lines among the first `i`, numbered from 1, with code spans
/// blanked.
pub open spec fn code_free_upto(ls: Seq<Seq<char>>, i: int) -> Seq<(int, Seq<char>)>
    decreases i,
{
    if i <= 0 {
        seq![]
    } else {
        let p = code_free_upto(ls, i - 1);
        if code_at(ls, i - 1) {
            p
        } else {
            p.push((i, blank_code_spans(ls[i - 1], 0, false)))
        }
    }
}

/// The prose lines of a body: every line outside fenced code, numbered from
/// 1, with its inline code spans blanked.
pub open spec fn code_free(body: Seq<char>) -> Seq<(int, Seq<char>)> {
    code_free_upto(lines(body), lines(body).len() as int)
}

fn blank_code_spans_exec(s: &[char]) -> (r: Vec<char>)
    ensures
        r@ == blank_code_spans(s@, 0, false),
{
    let mut out: Vec<char> = Vec::new();
    let mut in_code = false;
    let mut i: usize = 0;
    while i < s.len()
        invariant
            i <= s.len(),
            out@ + blank_code_spans(s@, i as int, in_code) == blank_code_spans(s@, 0, false),
        decreases s.len() - i,
    {
        let ghost g = out@;
        if s[i] == '`' && !is_escaped(s, i) {
            out.push(' ');
            proof {
                assert(g + blank_code_spans(s@, i as int, in_code) =~= out@ + blank_code_spans(s@, i + 1, !in_code));
            }
            in_code = !in_code;
        } else if in_code {
            out.push(' ');
            proof {
                assert(g + blank_code_spans(s@, i as int, in_code) =~= out@ + blank_code_spans(s@, i + 1, in_code));
            }
        } else {
            out.push(s[i]);
            proof {
                assert(g + blank_code_spans(s@, i as int, in_code) =~= out@ + blank_code_spans(s@, i + 1, in_code));
            }
        }
        i += 1;
    }
    proof {
        assert(out@ + blank_code_spans(s@, i as int, in_code) =~= out@);
    }
    out
}

/// The numbered prose lines of a body (see [`code_free`]).
pub fn code_free_lines(body: &str) -> (r: Vec<(usize, Vec<char>)>)
    ensures
        r@.map_values(|p: (usize, Vec<char>)| (p.0 as int, p.1@)) == code_free(body@),
{
    let v = chars_of(body);
    let ls = split_lines(&v);
    let ghost gl = views(ls@);
    let mut out: Vec<(usize, Vec<char>)> = Vec::new();
    let mut fence: Option<char> = None;
    let mut i: usize = 0;
    while i < ls.len()
        invariant
            i <= ls.len(),
            gl == views(ls@),
            gl == lines(body@),
            fence == fence_before(gl, i as int),
            out@.map_values(|p: (usize, Vec<char>)| (p.0 as int, p.1@)) == code_free_upto(gl, i as int),
        decreases ls.len() - i,
    {
        let line = &ls[i];
        proof {
            assert(gl[i as int] == line@);
        }
        let code = fence.is_some() || next_fence(None, line).is_some();
        if !code {
            let b = blank_code_spans_exec(line);
            let ghost before = out@.map_values(|p: (usize, Vec<char>)| (p.0 as int, p.1@));
            out.push((i + 1, b));
            proof {
                assert(out@.map_values(|p: (usize, Vec<char>)| (p.0 as int, p.1@)) =~= before.push((i + 1, b@)));
            }
        }
        fence = next_fence(fence, line);
        i += 1;
    }
    out
}

} // verus!
