//! Markdown footnotes, the carrier for per-claim attribution.
//!
//! To attribute a claim to a source, a producer writes a footnote whose label
//! is a `sources[].id`:
//!
//! ```markdown
//! The `events_` table is sharded daily as `events_YYYYMMDD`.[^ga4-schema]
//!
//! [^ga4-schema]: GA4 BigQuery Export schema
//! ```
//!
//! This module only finds the footnotes, outside fenced code and inline code
//! spans, since those are content, not attribution.
use vstd::prelude::*;
use crate::markdown::{code_free, code_free_lines};
use crate::paths::first_index;
use crate::text::{byte_len, skip_ws, string_of, string_of_range, trim, trim_bounds};

verus! {

broadcast use vstd::string::group_string_axioms;

/// A `[^label]` reference in the body prose.
#[derive(Clone, Debug, PartialEq, Eq)]
pub struct FootnoteRef {
    /// The label between `[^` and `]`.
    pub label: String,
    /// 1-based line number within the body.
    pub line: usize,
}

/// A `[^label]: text` definition line.
#[derive(Clone, Debug, PartialEq, Eq)]
pub struct FootnoteDef {
    /// The label between `[^` and `]:`.
    pub label: String,
    /// The prose after the colon.
    pub text: String,
    /// 1-based line number within the body.
    pub line: usize,
}

/// If `line` is a footnote definition (indented by at most three bytes of
/// whitespace, then `[^label]:` with a non-blank label), its trimmed label and
/// the index just past the colon.
pub open spec fn definition(line: Seq<char>) -> Option<(Seq<char>, int)> {
    let k = skip_ws(line, 0, line.len() as int);
    let c = first_index(line, ']', k + 2);
    if byte_len(line.subrange(0, k)) > 3 {
        None
    } else if !(line.len() >= 2 && k <= line.len() - 2 && line[k] == '[' && line[k + 1] == '^') {
        None
    } else if c >= line.len() || trim(line.subrange(k + 2, c)).len() == 0 {
        None
    } else if !(c + 1 < line.len() && line[c + 1] == ':') {
        None
    } else {
        Some((trim(line.subrange(k + 2, c)), c + 2))
    }
}

/// A usable footnote label: not blank, without `[`.
pub open spec fn good_label(l: Seq<char>) -> bool {
    l.len() > 0 && !l.contains('[')
}

/// The labels of the `[^label]` markers in `s` from `i` on.
pub open spec fn labels_from(s: Seq<char>, i: int) -> Seq<Seq<char>>
    decreases s.len() - i,
{
    if i < 0 || i + 2 >= s.len() {
        seq![]
    } else {
        let c = first_index(s, ']', i + 2);
        if s[i] == '[' && s[i + 1] == '^' && c < s.len() && good_label(trim(s.subrange(i + 2, c))) {
            proof {
                lemma_first_index_bounds(s, ']', i + 2);
            }
            seq![trim(s.subrange(i + 2, c))] + labels_from(s, c + 1)
        } else {
            labels_from(s, i + 1)
        }
    }
}

pub proof fn lemma_first_index_bounds(s: Seq<char>, c: char, i: int)
    requires
        0 <= i,
    ensures
        i <= first_index(s, c, i) || first_index(s, c, i) == s.len(),
        first_index(s, c, i) <= s.len() || i > s.len(),
        first_index(s, c, i) < s.len() ==> s[first_index(s, c, i)] == c,
    decreases s.len() - i,
{
    if i < s.len() && s[i] != c {
        lemma_first_index_bounds(s, c, i + 1);
    }
}

/// The part of a prose line scanned for references: after the marker of a
/// definition line, the whole line otherwise.
pub open spec fn ref_scan(line: Seq<char>) -> Seq<char> {
    match definition(line) {
        Some((_, off)) => line.subrange(off, line.len() as int),
        None => line,
    }
}

/// The references of the first `i` prose lines, as `(label, line)`.
pub open spec fn refs_upto(ps: Seq<(int, Seq<char>)>, i: int) -> Seq<(Seq<char>, int)>
    decreases i,
{
    if i <= 0 {
        seq![]
    } else {
        refs_upto(ps, i - 1) + labels_from(ref_scan(ps[i - 1].1), 0).map_values(
            |l: Seq<char>| (l, ps[i - 1].0),
        )
    }
}

/// The definitions of the first `i` prose lines, as `(label, text, line)`.
pub open spec fn defs_upto(ps: Seq<(int, Seq<char>)>, i: int) -> Seq<(Seq<char>, Seq<char>, int)>
    decreases i,
{
    if i <= 0 {
        seq![]
    } else {
        let p = defs_upto(ps, i - 1);
        let line = ps[i - 1].1;
        match definition(line) {
            Some((label, off)) => p.push((label, trim(line.subrange(off, line.len() as int)), ps[i - 1].0)),
            None => p,
        }
    }
}

fn first_index_from(s: &[char], c: char, from: usize) -> (r: usize)
    requires
        from <= s.len(),
    ensures
        r == first_index(s@, c, from as int),
        from <= r <= s.len(),
{
    let mut i: usize = from;
    while i < s.len() && s[i] != c
        invariant
            from <= i <= s.len(),
            first_index(s@, c, i as int) == first_index(s@, c, from as int),
        decreases s.len() - i,
    {
        i += 1;
    }
    i
}

fn definition_exec(line: &[char]) -> (r: Option<(Vec<char>, usize)>)
    ensures
        match r {
            Some((l, off)) => definition(line@) == Some((l@, off as int)) && off <= line.len(),
            None => definition(line@) is None,
        },
{
    if !crate::text::indent_bytes_at_most(line, 3) {
        return None;
    }
    let k = crate::text::skip_ws_exec(line, 0, line.len());
    if !(line.len() >= 2 && k <= line.len() - 2 && line[k] == '[' && line[k + 1] == '^') {
        return None;
    }
    let c = first_index_from(line, ']', k + 2);
    if c >= line.len() {
        return None;
    }
    let (a, b) = trim_bounds(line, k + 2, c);
    if a == b {
        return None;
    }
    if !(c + 1 < line.len() && line[c + 1] == ':') {
        return None;
    }
    let mut label: Vec<char> = Vec::new();
    crate::text::extend_range(&mut label, line, a, b);
    Some((label, c + 2))
}

fn contains_open_bracket(v: &[char], lo: usize, hi: usize) -> (r: bool)
    requires
        lo <= hi <= v.len(),
    ensures
        r == v@.subrange(lo as int, hi as int).contains('['),
{
    let mut i = lo;
    while i < hi
        invariant
            lo <= i <= hi <= v.len(),
            forall|k: int| lo <= k < i ==> v@[k] != '[',
        decreases hi - i,
    {
        if v[i] == '[' {
            proof {
                assert(v@.subrange(lo as int, hi as int)[i - lo] == '[');
            }
            return true;
        }
        i += 1;
    }
    proof {
        assert forall|j: int| 0 <= j < hi - lo implies v@.subrange(lo as int, hi as int)[j] != '[' by {
            assert(v@.subrange(lo as int, hi as int)[j] == v@[lo + j]);
        }
    }
    false
}

fn labels_exec(s: &[char]) -> (r: Vec<String>)
    ensures
        r@.map_values(|l: String| l@) == labels_from(s@, 0),
{
    let mut out: Vec<String> = Vec::new();
    let mut i: usize = 0;
    while s.len() >= 3 && i < s.len() - 2
        invariant
            i <= s.len(),
            out@.map_values(|l: String| l@) + labels_from(s@, i as int) == labels_from(s@, 0),
        decreases s.len() - i,
    {
        let ghost g = out@.map_values(|l: String| l@);
        let mut took = false;
        if s[i] == '[' && s[i + 1] == '^' {
            let c = first_index_from(s, ']', i + 2);
            if c < s.len() {
                let (a, b) = trim_bounds(s, i + 2, c);
                if a < b && !contains_open_bracket(s, a, b) {
                    let l = string_of_range(s, a, b);
                    proof {
                        assert(trim(s@.subrange(i + 2, c as int)) == s@.subrange(a as int, b as int));
                    }
                    out.push(l);
                    proof {
                        assert(out@.map_values(|l: String| l@) =~= g.push(l@));
                        assert(g + labels_from(s@, i as int) =~= g.push(l@) + labels_from(s@, c + 1));
                    }
                    i = c + 1;
                    took = true;
                }
            }
        }
        if !took {
            i += 1;
        }
    }
    out
}

/// Extracts every `[^label]` reference from the body prose.
///
/// A definition line's own `[^label]:` marker is not a reference, but
/// anything after it may be. Footnotes inside fenced code blocks or inline
/// code spans are ignored.
pub fn extract_refs(body: &str) -> (r: Vec<FootnoteRef>)
    ensures
        r@.map_values(|f: FootnoteRef| (f.label@, f.line as int)) == refs_upto(code_free(body@), code_free(body@).len() as int),
{
    let ps = code_free_lines(body);
    let ghost gp = ps@.map_values(|p: (usize, Vec<char>)| (p.0 as int, p.1@));
    let mut out: Vec<FootnoteRef> = Vec::new();
    let mut i: usize = 0;
    while i < ps.len()
        invariant
            i <= ps.len(),
            gp == ps@.map_values(|p: (usize, Vec<char>)| (p.0 as int, p.1@)),
            gp == code_free(body@),
            out@.map_values(|f: FootnoteRef| (f.label@, f.line as int)) == refs_upto(gp, i as int),
        decreases ps.len() - i,
    {
        let no = ps[i].0;
        let line = &ps[i].1;
        proof {
            assert(gp[i as int] == (no as int, line@));
        }
        let scan: Vec<char> = match definition_exec(line) {
            Some((_, off)) => {
                let mut t: Vec<char> = Vec::new();
                crate::text::extend_range(&mut t, line, off, line.len());
                t
            },
            None => {
                let mut t: Vec<char> = Vec::new();
                crate::text::extend_all(&mut t, line);
                t
            },
        };
        let labels = labels_exec(&scan);
        let ghost lv = labels@.map_values(|l: String| l@);
        let mut j: usize = 0;
        let ghost base = out@.map_values(|f: FootnoteRef| (f.label@, f.line as int));
        while j < labels.len()
            invariant
                j <= labels.len(),
                lv == labels@.map_values(|l: String| l@),
                out@.map_values(|f: FootnoteRef| (f.label@, f.line as int)) == base + lv.take(j as int).map_values(|l: Seq<char>| (l, no as int)),
            decreases labels.len() - j,
        {
            let f = FootnoteRef { label: labels[j].clone(), line: no };
            let ghost before = out@.map_values(|f: FootnoteRef| (f.label@, f.line as int));
            out.push(f);
            proof {
                assert(out@.map_values(|f: FootnoteRef| (f.label@, f.line as int)) =~= before.push((labels@[j as int]@, no as int)));
                assert(lv.take(j + 1).map_values(|l: Seq<char>| (l, no as int)) =~= lv.take(j as int).map_values(|l: Seq<char>| (l, no as int)).push((lv[j as int], no as int)));
            }
            j += 1;
        }
        proof {
            assert(lv.take(labels.len() as int) =~= lv);
            assert(scan@ == ref_scan(line@));
        }
        i += 1;
    }
    out
}

/// Extracts every `[^label]: text` definition from the body.
pub fn extract_definitions(body: &str) -> (r: Vec<FootnoteDef>)
    ensures
        r@.map_values(|f: FootnoteDef| (f.label@, f.text@, f.line as int)) == defs_upto(code_free(body@), code_free(body@).len() as int),
{
    let ps = code_free_lines(body);
    let ghost gp = ps@.map_values(|p: (usize, Vec<char>)| (p.0 as int, p.1@));
    let mut out: Vec<FootnoteDef> = Vec::new();
    let mut i: usize = 0;
    while i < ps.len()
        invariant
            i <= ps.len(),
            gp == ps@.map_values(|p: (usize, Vec<char>)| (p.0 as int, p.1@)),
            gp == code_free(body@),
            out@.map_values(|f: FootnoteDef| (f.label@, f.text@, f.line as int)) == defs_upto(gp, i as int),
        decreases ps.len() - i,
    {
        let no = ps[i].0;
        let line = &ps[i].1;
        proof {
            assert(gp[i as int] == (no as int, line@));
        }
        match definition_exec(line) {
            Some((label, off)) => {
                let (a, b) = trim_bounds(line, off, line.len());
                let f = FootnoteDef { label: string_of(&label), text: string_of_range(line, a, b), line: no };
                let ghost before = out@.map_values(|f: FootnoteDef| (f.label@, f.text@, f.line as int));
                out.push(f);
                proof {
                    assert(out@.map_values(|f: FootnoteDef| (f.label@, f.text@, f.line as int)) =~= before.push((label@, trim(line@.subrange(off as int, line@.len() as int)), no as int)));
                }
            },
            None => {},
        }
        i += 1;
    }
    out
}

} // verus!
