//! Attested Computation concepts.
//!
//! An Attested Computation carries a sanctioned way to compute a value: the
//! `runtime` that gives its `parameters` their meaning, the computation
//! itself (a code block under a `# Computation` heading, or a file named by
//! the `computation` key), and the `executor` and `attester` interfaces.
//! This module reads that contract; it never runs anything.
use vstd::prelude::*;
use crate::document::{displays_upto, field_text, opt_text, Frontmatter};
use crate::markdown::back_run;
use crate::text::{
    byte_len, chars_of, eq_ignore_ascii_case, eq_ignore_case, extend_range, has_prefix, is_ws,
    join_lines, join_with, lines, run_len, run_len_exec, skip_ws, split_lines, string_of,
    trim, trim_bounds, trim_start, utf8_len_exec, views,
};
use crate::yaml::{display_of, lookup, vview, vviews, Value, ValueView};

verus! {

broadcast use vstd::string::group_string_axioms;

/// The `type` value that marks a concept as an Attested Computation.
pub const ATTESTED_COMPUTATION_TYPE: &'static str = "Attested Computation";

/// The body heading that introduces an inline computation.
pub const COMPUTATION_HEADING: &'static str = "Computation";

// ---------------------------------------------------------------------------
// The contract's frontmatter parts.
// ---------------------------------------------------------------------------

/// One typed, named hole an agent may fill.
#[derive(Debug)]
pub struct Parameter {
    /// The parameter name.
    pub name: Option<String>,
    /// The declared type, e.g. `integer`.
    pub type_: Option<String>,
    /// Whether a value must be supplied.
    pub required: Option<bool>,
}

/// A parameter with its texts as sequences.
pub type ParamView = (Option<Seq<char>>, Option<Seq<char>>, Option<bool>);

/// The boolean a value holds, if it is one.
pub open spec fn bool_of(v: Option<ValueView>) -> Option<bool> {
    match v {
        Some(ValueView::Bool(b)) => Some(b),
        _ => None,
    }
}

/// The parameter a `parameters` entry (a mapping) describes.
pub open spec fn param_of(m: Seq<(ValueView, ValueView)>) -> ParamView {
    (field_text(m, "name"@), field_text(m, "type"@), bool_of(lookup(m, "required"@)))
}

/// The parameters read from the mapping entries among the first `n` items.
pub open spec fn params_upto(items: Seq<ValueView>, n: int) -> Seq<ParamView>
    decreases n,
{
    if n <= 0 {
        seq![]
    } else {
        let p = params_upto(items, n - 1);
        match items[n - 1] {
            ValueView::Pairs(m) => p.push(param_of(m)),
            _ => p,
        }
    }
}

/// The `parameters` list a value describes: each mapping item of a sequence,
/// or a lone mapping; nothing otherwise.
pub open spec fn params_of(v: ValueView) -> Seq<ParamView> {
    match v {
        ValueView::List(items) => params_upto(items, items.len() as int),
        ValueView::Pairs(m) => seq![param_of(m)],
        _ => seq![],
    }
}

/// The views of a list of parameters.
pub open spec fn param_views(ps: Seq<Parameter>) -> Seq<ParamView> {
    ps.map_values(|p: Parameter| p.view())
}

/// The display line of a parameter: its name (or `(unnamed)`), `: type` when
/// typed, and ` (required)` when required.
pub open spec fn param_line(p: ParamView) -> Seq<char> {
    let name = match p.0 {
        Some(n) => n,
        None => "(unnamed)"@,
    };
    let typed = match p.1 {
        Some(t) => name + ": "@ + t,
        None => name,
    };
    if p.2 == Some(true) {
        typed + " (required)"@
    } else {
        typed
    }
}

impl Parameter {
    /// The parameter with its texts as sequences.
    pub open spec fn view(&self) -> ParamView {
        (opt_text(self.name), opt_text(self.type_), self.required)
    }

    /// Reads one `parameters` entry; `None` when it is not a mapping.
    pub fn from_value(value: &Value) -> (r: Option<Parameter>)
        ensures
            match r {
                Some(p) => vview(*value) is Pairs && p@ == param_of(vview(*value)->Pairs_0),
                None => !(vview(*value) is Pairs),
            },
    {
        match value.as_mapping() {
            None => None,
            Some(map) => {
                let name = match map.get("name") {
                    Some(v) => v.as_display_string(),
                    None => None,
                };
                let type_ = match map.get("type") {
                    Some(v) => v.as_display_string(),
                    None => None,
                };
                let required = match map.get("required") {
                    Some(v) => v.as_bool(),
                    None => None,
                };
                Some(Parameter { name, type_, required })
            },
        }
    }

    /// Reads the whole `parameters` list (see [`params_of`]).
    pub fn list_from_value(value: &Value) -> (r: Vec<Parameter>)
        ensures
            param_views(r@) == params_of(vview(*value)),
    {
        let mut out: Vec<Parameter> = Vec::new();
        match value {
            Value::Sequence(items) => {
                let ghost iv = vviews(items@, items@.len() as int);
                proof {
                    crate::yaml::lemma_vviews_len(items@, items@.len() as int);
                }
                let mut i: usize = 0;
                while i < items.len()
                    invariant
                        i <= items.len(),
                        iv == vviews(items@, items@.len() as int),
                        iv.len() == items@.len(),
                        param_views(out@) == params_upto(iv, i as int),
                    decreases items.len() - i,
                {
                    proof {
                        crate::yaml::lemma_vviews_at(items@, i as int);
                    }
                    match Parameter::from_value(&items[i]) {
                        Some(p) => {
                            let ghost before = param_views(out@);
                            out.push(p);
                            proof {
                                assert(param_views(out@) =~= before.push(p@));
                            }
                        },
                        None => {},
                    }
                    i += 1;
                }
            },
            Value::Mapping(_) => {
                match Parameter::from_value(value) {
                    Some(p) => {
                        out.push(p);
                        proof {
                            assert(param_views(out@) =~= seq![p@]);
                        }
                    },
                    None => {},
                }
            },
            _ => {
                proof {
                    assert(param_views(out@) =~= seq![]);
                }
            },
        }
        out
    }

    /// `true` when the parameter is explicitly marked required.
    pub fn is_required(&self) -> (r: bool)
        ensures
            r == (self.required == Some(true)),
    {
        match self.required {
            Some(b) => b,
            None => false,
        }
    }

    /// The display line (see [`param_line`]).
    pub fn to_string(&self) -> (r: String)
        ensures
            r@ == param_line(self@),
    {
        let mut out: Vec<char> = Vec::new();
        match &self.name {
            Some(n) => crate::text::extend_all(&mut out, &chars_of(n.as_str())),
            None => crate::text::extend_all(&mut out, &chars_of("(unnamed)")),
        }
        match &self.type_ {
            Some(t) => {
                crate::text::extend_all(&mut out, &chars_of(": "));
                crate::text::extend_all(&mut out, &chars_of(t.as_str()));
            },
            None => {},
        }
        if self.is_required() {
            crate::text::extend_all(&mut out, &chars_of(" (required)"));
        }
        proof {
            let name = match self@.0 {
                Some(n) => n,
                None => "(unnamed)"@,
            };
            match self@.1 {
                Some(t) => {
                    assert(name + ": "@ + t =~= name + (": "@ + t));
                },
                None => {},
            }
        }
        string_of(&out)
    }
}

/// The `receipt` fields a value lists: the scalar items of a sequence, or a
/// lone scalar.
pub open spec fn receipt_of(v: Option<ValueView>) -> Seq<Seq<char>> {
    match v {
        Some(ValueView::List(items)) => displays_upto(items, items.len() as int),
        Some(other) => match display_of(other) {
            Some(t) => seq![t],
            None => seq![],
        },
        None => seq![],
    }
}

/// How the computation is run.
#[derive(Debug)]
pub struct Executor {
    /// Path to run instructions or code.
    pub resource: Option<String>,
    /// The fields a run must return.
    pub receipt: Vec<String>,
}

impl Executor {
    /// Reads an `executor` mapping; `None` when it is not a mapping.
    pub fn from_value(value: &Value) -> (r: Option<Executor>)
        ensures
            match r {
                Some(e) => vview(*value) is Pairs
                    && opt_text(e.resource) == field_text(vview(*value)->Pairs_0, "resource"@)
                    && crate::concept_id::texts(e.receipt@) == receipt_of(lookup(vview(*value)->Pairs_0, "receipt"@)),
                None => !(vview(*value) is Pairs),
            },
    {
        match value.as_mapping() {
            None => None,
            Some(map) => {
                let resource = match map.get("resource") {
                    Some(v) => v.as_display_string(),
                    None => None,
                };
                let mut receipt: Vec<String> = Vec::new();
                match map.get("receipt") {
                    Some(Value::Sequence(items)) => {
                        let ghost iv = vviews(items@, items@.len() as int);
                        proof {
                            crate::yaml::lemma_vviews_len(items@, items@.len() as int);
                        }
                        let mut i: usize = 0;
                        while i < items.len()
                            invariant
                                i <= items.len(),
                                iv == vviews(items@, items@.len() as int),
                                iv.len() == items@.len(),
                                crate::concept_id::texts(receipt@) == displays_upto(iv, i as int),
                            decreases items.len() - i,
                        {
                            proof {
                                crate::yaml::lemma_vviews_at(items@, i as int);
                            }
                            match items[i].as_display_string() {
                                Some(t) => {
                                    let ghost before = crate::concept_id::texts(receipt@);
                                    receipt.push(t);
                                    proof {
                                        assert(crate::concept_id::texts(receipt@) =~= before.push(t@));
                                    }
                                },
                                None => {},
                            }
                            i += 1;
                        }
                    },
                    Some(other) => {
                        match other.as_display_string() {
                            Some(t) => {
                                receipt.push(t);
                                proof {
                                    assert(crate::concept_id::texts(receipt@) =~= seq![t@]);
                                }
                            },
                            None => {
                                proof {
                                    assert(crate::concept_id::texts(receipt@) =~= seq![]);
                                }
                            },
                        }
                    },
                    None => {
                        proof {
                            assert(crate::concept_id::texts(receipt@) =~= seq![]);
                        }
                    },
                }
                Some(Executor { resource, receipt })
            },
        }
    }
}

/// The deterministic check over a run's receipt.
#[derive(Debug)]
pub struct Attester {
    /// Path to the attester code.
    pub resource: Option<String>,
}

impl Attester {
    /// Reads an `attester` mapping; `None` when it is not a mapping.
    pub fn from_value(value: &Value) -> (r: Option<Attester>)
        ensures
            match r {
                Some(a) => vview(*value) is Pairs
                    && opt_text(a.resource) == field_text(vview(*value)->Pairs_0, "resource"@),
                None => !(vview(*value) is Pairs),
            },
    {
        match value.as_mapping() {
            None => None,
            Some(map) => {
                let resource = match map.get("resource") {
                    Some(v) => v.as_display_string(),
                    None => None,
                };
                Some(Attester { resource })
            },
        }
    }
}


// ---------------------------------------------------------------------------
// The inline computation under `# Computation`.
// ---------------------------------------------------------------------------

/// An ATX heading's level and title: after leading whitespace, one to six
/// `#`, then the end of the line or a space or tab; the title is the rest,
/// trimmed, with trailing `#`s removed and trimmed again.
pub open spec fn atx_heading(line: Seq<char>) -> Option<(int, Seq<char>)> {
    let t = trim_start(line);
    let h = run_len(t, 0, '#');
    let rest = t.subrange(h, t.len() as int);
    if h == 0 || h > 6 {
        None
    } else if rest.len() > 0 && rest[0] != ' ' && rest[0] != '\t' {
        None
    } else {
        let r = trim(rest);
        Some((h, trim(r.subrange(0, r.len() - back_run(r, r.len() as int, '#')))))
    }
}

/// Whether a line is a `Computation` heading (ASCII case ignored).
pub open spec fn is_computation_heading(line: Seq<char>) -> bool {
    match atx_heading(line) {
        Some((_, t)) => eq_ignore_case(t, "Computation"@),
        None => false,
    }
}

/// The first `Computation` heading at or after `i`, or the length.
pub open spec fn first_computation_heading(ls: Seq<Seq<char>>, i: int) -> int
    decreases ls.len() - i,
{
    if i >= ls.len() {
        ls.len() as int
    } else if is_computation_heading(ls[i]) {
        i
    } else {
        first_computation_heading(ls, i + 1)
    }
}

/// The level of a heading line (0 for any other line).
pub open spec fn level_of(line: Seq<char>) -> int {
    match atx_heading(line) {
        Some((l, _)) => l,
        None => 0,
    }
}

/// The first heading at or after `i` whose level is at most `level`, or the
/// length. Lines inside a fenced block are code, not headings: `open` is the
/// marker of the fence that is open at `i`, if one is, and a line that
/// starts with it (after leading whitespace) closes the block.
pub open spec fn section_end(ls: Seq<Seq<char>>, i: int, level: int, open: Option<Seq<char>>) -> int
    decreases ls.len() - i,
{
    if i < 0 || i >= ls.len() {
        ls.len() as int
    } else {
        match open {
            Some(m) => if has_prefix(trim_start(ls[i]), m) {
                section_end(ls, i + 1, level, None)
            } else {
                section_end(ls, i + 1, level, open)
            },
            None => if atx_heading(ls[i]) is Some && level_of(ls[i]) <= level {
                i
            } else {
                section_end(ls, i + 1, level, fence_marker(ls[i]))
            },
        }
    }
}

/// The lines of the first `Computation` section, heading excluded: up to the
/// next heading of the same or a higher level.
pub open spec fn computation_section(body: Seq<char>) -> Option<Seq<Seq<char>>> {
    section_in(lines(body))
}

/// The lines of the first `Computation` section among `ls`.
pub open spec fn section_in(ls: Seq<Seq<char>>) -> Option<Seq<Seq<char>>> {
    let k = first_computation_heading(ls, 0);
    if k >= ls.len() {
        None
    } else {
        Some(ls.subrange(k + 1, section_end(ls, k + 1, level_of(ls[k]), None)))
    }
}

/// The fence a line opens: `` ``` `` or `~~~` after leading whitespace.
pub open spec fn fence_marker(line: Seq<char>) -> Option<Seq<char>> {
    if has_prefix(trim_start(line), "```"@) {
        Some("```"@)
    } else if has_prefix(trim_start(line), "~~~"@) {
        Some("~~~"@)
    } else {
        None
    }
}

/// The first line at or after `i` that opens a fence, or the length.
pub open spec fn first_fence(sec: Seq<Seq<char>>, i: int) -> int
    decreases sec.len() - i,
{
    if i >= sec.len() {
        sec.len() as int
    } else if fence_marker(sec[i]) is Some {
        i
    } else {
        first_fence(sec, i + 1)
    }
}

/// A line with up to `n` leading spaces removed; a leading tab counts as
/// one level and is removed alone.
pub open spec fn dedent(line: Seq<char>, n: int) -> Seq<char> {
    if line.len() > 0 && line[0] == '\t' {
        line.subrange(1, line.len() as int)
    } else {
        let k = run_len(line, 0, ' ');
        line.subrange(if k < n { k } else { n }, line.len() as int)
    }
}

/// The UTF-8 length of a line's leading whitespace.
pub open spec fn indent_bytes(line: Seq<char>) -> int {
    byte_len(line.subrange(0, skip_ws(line, 0, line.len() as int))) as int
}

/// The dedented lines from `i` up to the line that closes the fence.
pub open spec fn fenced_lines(sec: Seq<Seq<char>>, i: int, marker: Seq<char>, indent: int) -> Seq<Seq<char>>
    decreases sec.len() - i,
{
    if i < 0 || i >= sec.len() || has_prefix(trim_start(sec[i]), marker) {
        seq![]
    } else {
        seq![dedent(sec[i], indent)] + fenced_lines(sec, i + 1, marker, indent)
    }
}

/// Whether a line has no non-whitespace character.
pub open spec fn blank(line: Seq<char>) -> bool {
    trim(line).len() == 0
}

/// The first non-blank line at or after `i`, or the length.
pub open spec fn first_nonblank(ls: Seq<Seq<char>>, i: int) -> int
    decreases ls.len() - i,
{
    if i >= ls.len() {
        ls.len() as int
    } else if !blank(ls[i]) {
        i
    } else {
        first_nonblank(ls, i + 1)
    }
}

/// The end of the lines before `j` once trailing blank lines are dropped.
pub open spec fn nonblank_end(ls: Seq<Seq<char>>, j: int) -> int
    decreases j,
{
    if j > 0 && j <= ls.len() && blank(ls[j - 1]) {
        nonblank_end(ls, j - 1)
    } else {
        j
    }
}

/// The lines without leading and trailing blank lines.
pub open spec fn trim_blank_edges(ls: Seq<Seq<char>>) -> Seq<Seq<char>> {
    let a = first_nonblank(ls, 0);
    if a >= ls.len() {
        seq![]
    } else {
        ls.subrange(a, nonblank_end(ls, ls.len() as int))
    }
}

/// An inline computation as sequences: code, fence info, fenced.
pub type InlineView = (Seq<char>, Option<Seq<char>>, bool);

/// The code block that the first fence of a section opens, if it holds code.
pub open spec fn fenced_result(sec: Seq<Seq<char>>) -> Option<InlineView> {
    let i = first_fence(sec, 0);
    if i >= sec.len() {
        None
    } else {
        let t = trim_start(sec[i]);
        let marker = if has_prefix(t, "```"@) { "```"@ } else { "~~~"@ };
        let info = trim(t.subrange(3, t.len() as int));
        let code = trim_blank_edges(fenced_lines(sec, i + 1, marker, indent_bytes(sec[i])));
        if code.len() == 0 {
            None
        } else {
            Some((join_with(code, "\n"@), if info.len() == 0 { None } else { Some(info) }, true))
        }
    }
}

/// Whether a line belongs to an indented code block (four spaces or a tab).
pub open spec fn is_code_line(line: Seq<char>) -> bool {
    has_prefix(line, "    "@) || (line.len() > 0 && line[0] == '\t')
}

/// The first indented block from `i`: code lines dedented by four, blank
/// lines inside the block kept empty, ending at the first other line once the
/// block has started.
pub open spec fn indented_lines(sec: Seq<Seq<char>>, i: int, started: bool) -> Seq<Seq<char>>
    decreases sec.len() - i,
{
    if i < 0 || i >= sec.len() {
        seq![]
    } else if is_code_line(sec[i]) {
        seq![dedent(sec[i], 4)] + indented_lines(sec, i + 1, true)
    } else if blank(sec[i]) {
        if started {
            seq![seq![]] + indented_lines(sec, i + 1, true)
        } else {
            indented_lines(sec, i + 1, false)
        }
    } else if started {
        seq![]
    } else {
        indented_lines(sec, i + 1, false)
    }
}

/// The first indented code block of a section, if it holds code.
pub open spec fn indented_result(sec: Seq<Seq<char>>) -> Option<InlineView> {
    let code = trim_blank_edges(indented_lines(sec, 0, false));
    if code.len() == 0 {
        None
    } else {
        Some((join_with(code, "\n"@), None, false))
    }
}

/// The computation under a body's `# Computation` heading: the first fenced
/// block of the section, or failing that its first indented block.
pub open spec fn inline_computation(body: Seq<char>) -> Option<InlineView> {
    match computation_section(body) {
        None => None,
        Some(sec) => match fenced_result(sec) {
            Some(c) => Some(c),
            None => indented_result(sec),
        },
    }
}

/// A computation held in the body under `# Computation`.
#[derive(Debug)]
pub struct InlineComputation {
    /// The code, dedented, without the fence or indent.
    pub code: String,
    /// The fence info string (`sql`, `python`, ...), when fenced with one.
    pub language: Option<String>,
    /// `true` for a fenced block, `false` for an indented one.
    pub fenced: bool,
}

impl InlineComputation {
    /// The computation as sequences.
    pub open spec fn view(&self) -> InlineView {
        (self.code@, opt_text(self.language), self.fenced)
    }
}


/// A copy of `trim_start(line)`.
fn trim_start_vec(line: &[char]) -> (r: Vec<char>)
    ensures
        r@ == trim_start(line@),
{
    let a = crate::text::skip_ws_exec(line, 0, line.len());
    let mut t: Vec<char> = Vec::new();
    extend_range(&mut t, line, a, line.len());
    t
}

/// [`atx_heading`] in exec form.
fn atx_heading_exec(line: &[char]) -> (r: Option<(usize, Vec<char>)>)
    ensures
        match r {
            Some((l, t)) => atx_heading(line@) == Some((l as int, t@)),
            None => atx_heading(line@) is None,
        },
{
    let t = trim_start_vec(line);
    let h = run_len_exec(&t, 0, '#');
    if h == 0 || h > 6 {
        return None;
    }
    if h < t.len() && t[h] != ' ' && t[h] != '\t' {
        return None;
    }
    let mut rest: Vec<char> = Vec::new();
    extend_range(&mut rest, &t, h, t.len());
    let r = crate::markdown::trimmed(&rest);
    let mut k = r.len();
    while k > 0 && r[k - 1] == '#'
        invariant
            k <= r.len(),
            back_run(r@, r@.len() as int, '#') == (r.len() - k) + back_run(r@, k as int, '#'),
        decreases k,
    {
        k -= 1;
    }
    let mut u: Vec<char> = Vec::new();
    extend_range(&mut u, &r, 0, k);
    let title = crate::markdown::trimmed(&u);
    Some((h, title))
}

/// The level of a `Computation` heading line, if the line is one.
fn computation_heading_level(line: &[char]) -> (r: Option<usize>)
    ensures
        match r {
            Some(l) => is_computation_heading(line@) && level_of(line@) == l,
            None => !is_computation_heading(line@),
        },
{
    match atx_heading_exec(line) {
        Some((l, t)) => {
            let name = chars_of("Computation");
            if eq_ignore_ascii_case(&t, &name) {
                Some(l)
            } else {
                None
            }
        },
        None => None,
    }
}

/// The index of the first `Computation` heading, with its level.
fn find_computation_heading(ls: &Vec<Vec<char>>) -> (r: (usize, usize))
    ensures
        r.0 == first_computation_heading(views(ls@), 0),
        r.0 < ls.len() ==> r.1 == level_of(ls@[r.0 as int]@),
{
    let ghost l = views(ls@);
    let mut k: usize = 0;
    while k < ls.len()
        invariant
            k <= ls.len(),
            l == views(ls@),
            first_computation_heading(l, k as int) == first_computation_heading(l, 0),
        decreases ls.len() - k,
    {
        match computation_heading_level(&ls[k]) {
            Some(level) => {
                return (k, level);
            },
            None => {},
        }
        k += 1;
    }
    (k, 0)
}

/// [`fence_marker`] in exec form.
fn fence_marker_exec(line: &[char]) -> (r: Option<Vec<char>>)
    ensures
        match r {
            Some(m) => fence_marker(line@) == Some(m@),
            None => fence_marker(line@) is None,
        },
{
    let t = trim_start_vec(line);
    let tick = chars_of("```");
    let tilde = chars_of("~~~");
    proof {
        assert(t@.subrange(0, 3) =~= t@.subrange(0, 3));
    }
    if crate::text::matches_at(&t, 0, &tick) {
        Some(tick)
    } else if crate::text::matches_at(&t, 0, &tilde) {
        Some(tilde)
    } else {
        None
    }
}

/// [`section_end`] in exec form, from outside any fence.
fn find_section_end(ls: &Vec<Vec<char>>, i: usize, level: usize) -> (r: usize)
    requires
        i <= ls.len(),
    ensures
        r == section_end(views(ls@), i as int, level as int, None),
        i <= r <= ls.len(),
{
    let ghost l = views(ls@);
    let mut k: usize = i;
    let mut open: Option<Vec<char>> = None;
    while k < ls.len()
        invariant
            i <= k <= ls.len(),
            l == views(ls@),
            section_end(l, k as int, level as int, opt_text_chars(open)) == section_end(l, i as int, level as int, None),
        decreases ls.len() - k,
    {
        match open {
            Some(m) => {
                let t = trim_start_vec(&ls[k]);
                if crate::text::matches_at(&t, 0, &m) {
                    proof {
                        assert(t@.subrange(0, m@.len() as int) =~= t@.subrange(0, m@.len() as int));
                    }
                    open = None;
                } else {
                    open = Some(m);
                }
            },
            None => {
                match atx_heading_exec(&ls[k]) {
                    Some((lv, _)) => {
                        if lv <= level {
                            return k;
                        }
                    },
                    None => {},
                }
                open = fence_marker_exec(&ls[k]);
            },
        }
        k += 1;
    }
    k
}

/// The view of an optional character vector.
pub open spec fn opt_text_chars(o: Option<Vec<char>>) -> Option<Seq<char>> {
    match o {
        Some(v) => Some(v@),
        None => None,
    }
}

/// Copies of `ls[lo..hi]`.
fn copy_lines(ls: &Vec<Vec<char>>, lo: usize, hi: usize) -> (r: Vec<Vec<char>>)
    requires
        lo <= hi <= ls.len(),
    ensures
        views(r@) == views(ls@).subrange(lo as int, hi as int),
{
    let mut out: Vec<Vec<char>> = Vec::new();
    let mut j = lo;
    while j < hi
        invariant
            lo <= j <= hi <= ls.len(),
            views(out@) == views(ls@).subrange(lo as int, j as int),
        decreases hi - j,
    {
        let mut c: Vec<char> = Vec::new();
        crate::text::extend_all(&mut c, &ls[j]);
        let ghost before = views(out@);
        out.push(c);
        proof {
            assert(views(out@) =~= before.push(c@));
            assert(views(ls@).subrange(lo as int, j + 1) =~= views(ls@).subrange(lo as int, j as int).push(ls@[j as int]@));
        }
        j += 1;
    }
    out
}

/// [`section_in`] in exec form.
fn section_in_exec(ls: &Vec<Vec<char>>) -> (r: Option<Vec<Vec<char>>>)
    ensures
        match r {
            Some(sec) => section_in(views(ls@)) == Some(views(sec@)),
            None => section_in(views(ls@)) is None,
        },
{
    let (k, level) = find_computation_heading(ls);
    if k >= ls.len() {
        return None;
    }
    let e = find_section_end(ls, k + 1, level);
    Some(copy_lines(ls, k + 1, e))
}


/// [`dedent`] in exec form.
fn dedent_exec(line: &[char], n: usize) -> (r: Vec<char>)
    ensures
        r@ == dedent(line@, n as int),
{
    let mut out: Vec<char> = Vec::new();
    if line.len() > 0 && line[0] == '\t' {
        extend_range(&mut out, line, 1, line.len());
        return out;
    }
    let k = run_len_exec(line, 0, ' ');
    let strip = if k < n { k } else { n };
    extend_range(&mut out, line, strip, line.len());
    out
}

/// `min(indent_bytes(line), cap)`.
pub fn indent_bytes_capped(line: &[char], cap: usize) -> (r: usize)
    ensures
        r == (if indent_bytes(line@) < cap { indent_bytes(line@) } else { cap as int }),
{
    let end = crate::text::skip_ws_exec(line, 0, line.len());
    let mut total: usize = 0;
    let mut i: usize = 0;
    while i < end
        invariant
            i <= end <= line.len(),
            end == skip_ws(line@, 0, line@.len() as int),
            total == byte_len(line@.subrange(0, i as int)),
            total <= cap,
        decreases end - i,
    {
        let w = utf8_len_exec(line[i]);
        proof {
            let p = line@.subrange(0, i + 1);
            assert(p.drop_last() =~= line@.subrange(0, i as int));
        }
        if w > cap - total {
            proof {
                crate::text::lemma_byte_len_prefix_mono(line@.subrange(0, end as int), i + 1);
                assert(line@.subrange(0, end as int).subrange(0, i + 1) =~= line@.subrange(0, i + 1));
            }
            return cap;
        }
        total = total + w;
        i += 1;
    }
    proof {
        assert(line@.subrange(0, end as int) =~= line@.subrange(0, i as int));
    }
    total
}

/// Dedenting by `a` or by `b` is the same when both are at least the line's
/// leading spaces or equal.
proof fn lemma_fenced_lines_indent(sec: Seq<Seq<char>>, i: int, marker: Seq<char>, a: int, b: int)
    requires
        a == b || (a >= usize::MAX && b >= usize::MAX),
        forall|k: int| 0 <= k < sec.len() ==> (#[trigger] sec[k]).len() <= usize::MAX,
    ensures
        fenced_lines(sec, i, marker, a) == fenced_lines(sec, i, marker, b),
    decreases sec.len() - i,
{
    if !(i < 0 || i >= sec.len() || has_prefix(trim_start(sec[i]), marker)) {
        lemma_fenced_lines_indent(sec, i + 1, marker, a, b);
        crate::text::lemma_run_len_bounds(sec[i], 0, ' ');
        assert(dedent(sec[i], a) == dedent(sec[i], b));
    }
}

/// The indices `(a, e)` of `trim_blank_edges(ls)` inside `ls`.
fn blank_edges(ls: &Vec<Vec<char>>) -> (r: (usize, usize))
    ensures
        r.0 <= r.1 <= ls.len(),
        views(ls@).subrange(r.0 as int, r.1 as int) == trim_blank_edges(views(ls@)),
{
    let ghost l = views(ls@);
    let mut a: usize = 0;
    while a < ls.len() && crate::markdown::trimmed(&ls[a]).len() == 0
        invariant
            a <= ls.len(),
            l == views(ls@),
            first_nonblank(l, a as int) == first_nonblank(l, 0),
        decreases ls.len() - a,
    {
        a += 1;
    }
    if a >= ls.len() {
        return (a, a);
    }
    let mut e: usize = ls.len();
    while e > 0 && crate::markdown::trimmed(&ls[e - 1]).len() == 0
        invariant
            a < ls.len(),
            !blank(l[a as int]),
            e <= ls.len(),
            a < e,
            l == views(ls@),
            nonblank_end(l, e as int) == nonblank_end(l, l.len() as int),
        decreases e,
    {
        e -= 1;
    }
    (a, e)
}

/// The code of `ls` once blank edges are dropped, joined with newlines;
/// `None` when nothing is left.
fn join_code(ls: &Vec<Vec<char>>) -> (r: Option<String>)
    ensures
        match r {
            Some(c) => trim_blank_edges(views(ls@)).len() > 0 && c@ == join_with(trim_blank_edges(views(ls@)), "\n"@),
            None => trim_blank_edges(views(ls@)).len() == 0,
        },
{
    let (a, e) = blank_edges(ls);
    if a == e {
        return None;
    }
    let code = copy_lines(ls, a, e);
    let nl = chars_of("\n");
    let joined = join_lines(&code, &nl);
    Some(string_of(&joined))
}

/// [`fenced_result`] in exec form.
fn fenced_result_exec(sec: &Vec<Vec<char>>) -> (r: Option<InlineComputation>)
    ensures
        match r {
            Some(c) => fenced_result(views(sec@)) == Some(c@),
            None => fenced_result(views(sec@)) is None,
        },
{
    let ghost l = views(sec@);
    let tick = chars_of("```");
    let tilde = chars_of("~~~");
    proof {
        reveal_strlit("```");
        reveal_strlit("~~~");
    }
    let mut i: usize = 0;
    while i < sec.len() && !crate::text::matches_at(&trim_start_vec(&sec[i]), 0, &tick)
        && !crate::text::matches_at(&trim_start_vec(&sec[i]), 0, &tilde)
        invariant
            i <= sec.len(),
            l == views(sec@),
            tick@ == "```"@,
            tilde@ == "~~~"@,
            first_fence(l, i as int) == first_fence(l, 0),
        decreases sec.len() - i,
    {
        i += 1;
    }
    if i >= sec.len() {
        return None;
    }
    let t = trim_start_vec(&sec[i]);
    let marker = if crate::text::matches_at(&t, 0, &tick) { tick } else { tilde };
    let mut info_raw: Vec<char> = Vec::new();
    extend_range(&mut info_raw, &t, 3, t.len());
    let info = crate::markdown::trimmed(&info_raw);
    let indent = indent_bytes_capped(&sec[i], usize::MAX);
    let mut code: Vec<Vec<char>> = Vec::new();
    let mut j: usize = i + 1;
    let mut closed = false;
    while j < sec.len() && !closed
        invariant
            i < j <= sec.len(),
            l == views(sec@),
            marker@ == "```"@ || marker@ == "~~~"@,
            closed ==> views(code@) == fenced_lines(l, i + 1, marker@, indent as int),
            !closed ==> views(code@) + fenced_lines(l, j as int, marker@, indent as int)
                == fenced_lines(l, i + 1, marker@, indent as int),
        decreases sec.len() - j + (if closed { 0int } else { 1int }),
    {
        let lt = trim_start_vec(&sec[j]);
        if crate::text::matches_at(&lt, 0, &marker) {
            proof {
                assert(fenced_lines(l, j as int, marker@, indent as int) =~= seq![]);
                assert(views(code@) + seq![] =~= views(code@));
            }
            closed = true;
        } else {
            let d = dedent_exec(&sec[j], indent);
            let ghost before = views(code@);
            code.push(d);
            proof {
                assert(views(code@) =~= before.push(d@));
                assert(before + fenced_lines(l, j as int, marker@, indent as int) =~= before.push(d@)
                    + fenced_lines(l, j + 1, marker@, indent as int));
            }
            j += 1;
        }
    }
    proof {
        if !closed {
            assert(views(code@) + fenced_lines(l, j as int, marker@, indent as int) =~= views(code@));
        }
        assert forall|k: int| 0 <= k < l.len() implies (#[trigger] l[k]).len() <= usize::MAX by {
            assert(l[k] == sec@[k]@);
            assert(sec@[k].len() == sec@[k]@.len());
        }
        lemma_fenced_lines_indent(l, i + 1, marker@, indent as int, indent_bytes(l[i as int]));
    }
    match join_code(&code) {
        None => None,
        Some(c) => {
            let language = if info.len() == 0 { None } else { Some(string_of(&info)) };
            Some(InlineComputation { code: c, language, fenced: true })
        },
    }
}


/// [`indented_result`] in exec form.
fn indented_result_exec(sec: &Vec<Vec<char>>) -> (r: Option<InlineComputation>)
    ensures
        match r {
            Some(c) => indented_result(views(sec@)) == Some(c@),
            None => indented_result(views(sec@)) is None,
        },
{
    let ghost l = views(sec@);
    let four = chars_of("    ");
    proof {
        reveal_strlit("    ");
    }
    let mut code: Vec<Vec<char>> = Vec::new();
    let mut started = false;
    let mut done = false;
    let mut i: usize = 0;
    while i < sec.len() && !done
        invariant
            i <= sec.len(),
            l == views(sec@),
            four@ == "    "@,
            done ==> views(code@) == indented_lines(l, 0, false),
            !done ==> views(code@) + indented_lines(l, i as int, started) == indented_lines(l, 0, false),
        decreases sec.len() - i + (if done { 0int } else { 1int }),
    {
        let line = &sec[i];
        let is_code = crate::text::matches_at(line, 0, &four) || (line.len() > 0 && line[0] == '\t');
        let ghost before = views(code@);
        if is_code {
            let d = dedent_exec(line, 4);
            code.push(d);
            proof {
                assert(views(code@) =~= before.push(d@));
                assert(before + indented_lines(l, i as int, started) =~= before.push(d@) + indented_lines(l, i + 1, true));
            }
            started = true;
            i += 1;
        } else if crate::markdown::trimmed(line).len() == 0 {
            if started {
                let e: Vec<char> = Vec::new();
                code.push(e);
                proof {
                    assert(views(code@) =~= before.push(e@));
                    assert(before + indented_lines(l, i as int, started) =~= before.push(e@) + indented_lines(l, i + 1, true));
                }
            }
            i += 1;
        } else if started {
            proof {
                assert(before + indented_lines(l, i as int, started) =~= before);
            }
            done = true;
        } else {
            i += 1;
        }
    }
    proof {
        if !done {
            assert(views(code@) + indented_lines(l, i as int, started) =~= views(code@));
        }
    }
    match join_code(&code) {
        None => None,
        Some(c) => Some(InlineComputation { code: c, language: None, fenced: false }),
    }
}

/// Extracts the code block under a `# Computation` heading (see
/// [`inline_computation`]): the section runs to the next heading of the same
/// or a higher level; its first fenced block wins, failing that its first
/// indented block.
pub fn extract_inline_computation(body: &str) -> (r: Option<InlineComputation>)
    ensures
        match r {
            Some(c) => inline_computation(body@) == Some(c@),
            None => inline_computation(body@) is None,
        },
{
    let v = chars_of(body);
    let ls = split_lines(&v);
    match section_in_exec(&ls) {
        None => None,
        Some(sec) => match fenced_result_exec(&sec) {
            Some(c) => Some(c),
            None => indented_result_exec(&sec),
        },
    }
}

// ---------------------------------------------------------------------------
// The whole contract.
// ---------------------------------------------------------------------------

/// Where the sanctioned computation lives.
#[derive(Debug)]
pub enum ComputationSource {
    /// A code block in the body under `# Computation`.
    Inline(InlineComputation),
    /// The path named by the `computation` frontmatter key.
    File(String),
    /// Neither form is present, so the contract is incomplete.
    Missing,
}

/// A computation source as sequences.
pub enum SourceView {
    Inline(InlineView),
    File(Seq<char>),
    Missing,
}

/// The display text of a source: `inline (N line(s))`, `file PATH` or
/// `(missing)`.
pub open spec fn source_text(s: SourceView) -> Seq<char> {
    match s {
        SourceView::Inline(c) => "inline ("@ + crate::text::decimal(lines(c.0).len()) + " line(s))"@,
        SourceView::File(p) => "file "@ + p,
        SourceView::Missing => "(missing)"@,
    }
}

impl ComputationSource {
    /// The source as sequences.
    pub open spec fn view(&self) -> SourceView {
        match self {
            ComputationSource::Inline(c) => SourceView::Inline(c@),
            ComputationSource::File(p) => SourceView::File(p@),
            ComputationSource::Missing => SourceView::Missing,
        }
    }

    /// The inline code, if the computation is inline.
    pub fn code(&self) -> (r: Option<&str>)
        ensures
            match r {
                Some(c) => self@ matches SourceView::Inline(v) && v.0 == c@,
                None => !(self@ is Inline),
            },
    {
        match self {
            ComputationSource::Inline(c) => Some(c.code.as_str()),
            _ => None,
        }
    }

    /// The path, if the computation is held in a file.
    pub fn path(&self) -> (r: Option<&str>)
        ensures
            match r {
                Some(p) => self@ == SourceView::File(p@),
                None => !(self@ is File),
            },
    {
        match self {
            ComputationSource::File(p) => Some(p.as_str()),
            _ => None,
        }
    }

    /// `true` when neither an inline block nor a `computation` path is present.
    pub fn is_missing(&self) -> (r: bool)
        ensures
            r == (self@ is Missing),
    {
        match self {
            ComputationSource::Missing => true,
            _ => false,
        }
    }

    /// The display text (see [`source_text`]).
    pub fn to_string(&self) -> (r: String)
        ensures
            r@ == source_text(self@),
    {
        let mut out: Vec<char> = Vec::new();
        match self {
            ComputationSource::Inline(c) => {
                let code = chars_of(c.code.as_str());
                let ls = split_lines(&code);
                let n = ls.len();
                proof {
                    assert(views(ls@).len() == ls@.len());
                }
                crate::text::extend_all(&mut out, &chars_of("inline ("));
                crate::text::extend_all(&mut out, &crate::text::decimal_exec(n as u64));
                crate::text::extend_all(&mut out, &chars_of(" line(s))"));
            },
            ComputationSource::File(p) => {
                crate::text::extend_all(&mut out, &chars_of("file "));
                crate::text::extend_all(&mut out, &chars_of(p.as_str()));
            },
            ComputationSource::Missing => {
                crate::text::extend_all(&mut out, &chars_of("(missing)"));
            },
        }
        string_of(&out)
    }
}


/// A text that is present and not all whitespace.
pub open spec fn nonblank(o: Option<Seq<char>>) -> Option<Seq<char>> {
    match o {
        Some(t) => if trim(t).len() > 0 { Some(t) } else { None },
        None => None,
    }
}

/// An executor as sequences: resource and receipt fields.
pub type ExecutorView = (Option<Seq<char>>, Seq<Seq<char>>);

/// A contract as sequences.
pub struct ContractView {
    pub runtime: Option<Seq<char>>,
    pub parameters: Seq<ParamView>,
    pub computation: SourceView,
    pub executor: Option<ExecutorView>,
    pub attester: Option<Option<Seq<char>>>,
    pub has_redundant_inline: bool,
}

/// The contract a frontmatter and a body state: `runtime` and the
/// `computation` path when not blank; the `parameters` list; the `executor`
/// and `attester` mappings; the computation from the path when one is given,
/// else from the body's `# Computation` block, else missing; and whether the
/// body holds a block that a path makes redundant.
pub open spec fn contract_of(fm: Seq<(ValueView, ValueView)>, body: Seq<char>) -> ContractView {
    let path = nonblank(field_text(fm, "computation"@));
    let inline = inline_computation(body);
    ContractView {
        runtime: nonblank(field_text(fm, "runtime"@)),
        parameters: match lookup(fm, "parameters"@) {
            Some(v) => params_of(v),
            None => seq![],
        },
        computation: match path {
            Some(p) => SourceView::File(p),
            None => match inline {
                Some(c) => SourceView::Inline(c),
                None => SourceView::Missing,
            },
        },
        executor: match lookup(fm, "executor"@) {
            Some(ValueView::Pairs(m)) => Some((field_text(m, "resource"@), receipt_of(lookup(m, "receipt"@)))),
            _ => None,
        },
        attester: match lookup(fm, "attester"@) {
            Some(ValueView::Pairs(m)) => Some(field_text(m, "resource"@)),
            _ => None,
        },
        has_redundant_inline: path is Some && inline is Some,
    }
}

/// The required parameters among the first `n`.
pub open spec fn required_upto(ps: Seq<ParamView>, n: int) -> Seq<ParamView>
    decreases n,
{
    if n <= 0 {
        seq![]
    } else if ps[n - 1].2 == Some(true) {
        required_upto(ps, n - 1).push(ps[n - 1])
    } else {
        required_upto(ps, n - 1)
    }
}

/// The path-valued fields of a contract, as `(field, path)` pairs: the
/// `computation` file, the executor's and the attester's `resource`.
pub open spec fn path_fields_of(c: ContractView) -> Seq<(Seq<char>, Seq<char>)> {
    let a: Seq<(Seq<char>, Seq<char>)> = match c.computation {
        SourceView::File(p) => seq![("computation"@, p)],
        _ => seq![],
    };
    let b: Seq<(Seq<char>, Seq<char>)> = match c.executor {
        Some((Some(r), _)) => seq![("executor.resource"@, r)],
        _ => seq![],
    };
    let d: Seq<(Seq<char>, Seq<char>)> = match c.attester {
        Some(Some(r)) => seq![("attester.resource"@, r)],
        _ => seq![],
    };
    a + b + d
}

/// The texts of a list of string pairs.
pub open spec fn pair_views(v: Seq<(&str, &str)>) -> Seq<(Seq<char>, Seq<char>)> {
    v.map_values(|p: (&str, &str)| (p.0@, p.1@))
}

/// The contract of an `Attested Computation` concept.
#[derive(Debug)]
pub struct AttestedComputation {
    /// How to run the computation, and so what `parameters` mean.
    pub runtime: Option<String>,
    /// The typed, named holes an agent may fill.
    pub parameters: Vec<Parameter>,
    /// The sanctioned computation, inline or by path.
    pub computation: ComputationSource,
    /// How the computation is run.
    pub executor: Option<Executor>,
    /// The deterministic check over a run's receipt.
    pub attester: Option<Attester>,
    /// `true` when the body carries a `# Computation` block and the
    /// `computation` key names a file as well.
    pub has_redundant_inline: bool,
}

/// A text kept only when it is not blank.
fn keep_nonblank(o: Option<String>) -> (r: Option<String>)
    ensures
        opt_text(r) == nonblank(opt_text(o)),
{
    match o {
        Some(t) => {
            let v = chars_of(t.as_str());
            if crate::markdown::trimmed(&v).len() > 0 {
                Some(t)
            } else {
                None
            }
        },
        None => None,
    }
}

impl AttestedComputation {
    /// The contract as sequences.
    pub open spec fn view(&self) -> ContractView {
        ContractView {
            runtime: opt_text(self.runtime),
            parameters: param_views(self.parameters@),
            computation: self.computation@,
            executor: match self.executor {
                Some(e) => Some((opt_text(e.resource), crate::concept_id::texts(e.receipt@))),
                None => None,
            },
            attester: match self.attester {
                Some(a) => Some(opt_text(a.resource)),
                None => None,
            },
            has_redundant_inline: self.has_redundant_inline,
        }
    }

    /// Reads the contract from a concept's frontmatter and body (see
    /// [`contract_of`]). The concept's `type` is not checked: the keys are
    /// ordinary frontmatter and may stand on another type.
    pub fn from_parts(frontmatter: &Frontmatter, body: &str) -> (r: AttestedComputation)
        ensures
            r@ == contract_of(frontmatter@, body@),
    {
        let inline = extract_inline_computation(body);
        let path = keep_nonblank(frontmatter.display_str("computation"));
        let has_redundant_inline = path.is_some() && inline.is_some();
        let computation = match path {
            Some(p) => ComputationSource::File(p),
            None => match inline {
                Some(c) => ComputationSource::Inline(c),
                None => ComputationSource::Missing,
            },
        };
        let runtime = keep_nonblank(frontmatter.display_str("runtime"));
        let parameters = match frontmatter.get("parameters") {
            Some(v) => Parameter::list_from_value(v),
            None => Vec::new(),
        };
        let executor = match frontmatter.get("executor") {
            Some(v) => Executor::from_value(v),
            None => None,
        };
        let attester = match frontmatter.get("attester") {
            Some(v) => Attester::from_value(v),
            None => None,
        };
        let r = AttestedComputation {
            runtime,
            parameters,
            computation,
            executor,
            attester,
            has_redundant_inline,
        };
        proof {
            assert(r@.parameters == contract_of(frontmatter@, body@).parameters);
        }
        r
    }

    /// The parameters an agent must supply a value for, in order.
    pub fn required_parameters(&self) -> (r: Vec<&Parameter>)
        ensures
            r@.map_values(|p: &Parameter| p@) == required_upto(self@.parameters, self@.parameters.len() as int),
    {
        let mut out: Vec<&Parameter> = Vec::new();
        let mut i: usize = 0;
        while i < self.parameters.len()
            invariant
                i <= self.parameters.len(),
                out@.map_values(|p: &Parameter| p@) == required_upto(self@.parameters, i as int),
            decreases self.parameters.len() - i,
        {
            let p = &self.parameters[i];
            let ghost before = out@.map_values(|p: &Parameter| p@);
            proof {
                assert(self@.parameters[i as int] == p@);
            }
            if p.is_required() {
                out.push(p);
                proof {
                    assert(out@.map_values(|p: &Parameter| p@) =~= before.push(p@));
                }
            }
            i += 1;
        }
        out
    }

    /// The path-valued fields of this contract (see [`path_fields_of`]).
    pub fn path_fields(&self) -> (r: Vec<(&'static str, &str)>)
        ensures
            pair_views(r@) == path_fields_of(self@),
    {
        let mut out: Vec<(&'static str, &str)> = Vec::new();
        proof {
            reveal_strlit("computation");
            reveal_strlit("executor.resource");
            reveal_strlit("attester.resource");
        }
        match &self.computation {
            ComputationSource::File(p) => {
                out.push(("computation", p.as_str()));
            },
            _ => {},
        }
        let ghost a = pair_views(out@);
        match &self.executor {
            Some(e) => match &e.resource {
                Some(r) => {
                    out.push(("executor.resource", r.as_str()));
                },
                None => {},
            },
            None => {},
        }
        let ghost b = pair_views(out@);
        match &self.attester {
            Some(at) => match &at.resource {
                Some(r) => {
                    out.push(("attester.resource", r.as_str()));
                },
                None => {},
            },
            None => {},
        }
        proof {
            let c = self@;
            let sa: Seq<(Seq<char>, Seq<char>)> = match c.computation {
                SourceView::File(p) => seq![("computation"@, p)],
                _ => seq![],
            };
            let sb: Seq<(Seq<char>, Seq<char>)> = match c.executor {
                Some((Some(r), _)) => seq![("executor.resource"@, r)],
                _ => seq![],
            };
            let sd: Seq<(Seq<char>, Seq<char>)> = match c.attester {
                Some(Some(r)) => seq![("attester.resource"@, r)],
                _ => seq![],
            };
            assert(a =~= sa);
            assert(b =~= sa + sb);
            assert(pair_views(out@) =~= sa + sb + sd);
        }
        out
    }
}


/// Resolves a contract's path-valued fields to bundle-relative candidates,
/// as `(field, raw path, candidates)` in the order of
/// [`AttestedComputation::path_fields`].
pub fn contract_path_candidates(contract: &AttestedComputation, from: &crate::concept_id::ConceptId) -> (r: Vec<(&'static str, String, Vec<String>)>)
    requires
        from.wf(),
    ensures
        r@.len() == path_fields_of(contract@).len(),
        forall|k: int| 0 <= k < r@.len() ==> {
            &&& (#[trigger] r@[k]).0@ == path_fields_of(contract@)[k].0
            &&& r@[k].1@ == path_fields_of(contract@)[k].1
            &&& crate::concept_id::texts(r@[k].2@) == crate::links::path_candidates(path_fields_of(contract@)[k].1, from@.drop_last())
        },
{
    let fields = contract.path_fields();
    let ghost f = pair_views(fields@);
    let mut out: Vec<(&'static str, String, Vec<String>)> = Vec::new();
    let mut i: usize = 0;
    while i < fields.len()
        invariant
            i <= fields.len(),
            from.wf(),
            f == pair_views(fields@),
            f == path_fields_of(contract@),
            out@.len() == i,
            forall|k: int| 0 <= k < i ==> {
                &&& (#[trigger] out@[k]).0@ == f[k].0
                &&& out@[k].1@ == f[k].1
                &&& crate::concept_id::texts(out@[k].2@) == crate::links::path_candidates(f[k].1, from@.drop_last())
            },
        decreases fields.len() - i,
    {
        let (field, raw) = fields[i];
        let cands = crate::links::field_path_candidates(raw, from);
        out.push((field, raw.to_string(), cands));
        i += 1;
    }
    out
}

} // verus!
