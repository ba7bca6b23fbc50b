//! Deterministic remediation and migration of OKF documents and logs: a
//! missing `title` derived from the file name, a legacy `timestamp` moved
//! into `generated`, a missing `generated` block, a legacy `# Citations`
//! section turned into `sources` and footnotes, a missing top heading, an
//! untagged `# Computation` code block tagged with the runtime, canonical key
//! order, and trailing whitespace and excess blank lines.
use vstd::prelude::*;
use crate::text::{chars_of, has_prefix, join_with, lines, split_lines, string_of, trim, trim_end, trim_start, views};

verus! {

broadcast use vstd::string::group_string_axioms;

/// Which remediations to apply.
#[derive(Clone, Debug, PartialEq, Eq)]
pub struct FixOptions {
    /// Author attribution for generated blocks (e.g. `human:alice`).
    pub author: Option<String>,
    /// Insert a missing `title`.
    pub add_missing_title: bool,
    /// Insert a missing `generated` block.
    pub add_missing_generated: bool,
    /// Insert a missing top-level `# Heading`.
    pub add_missing_top_heading: bool,
    /// Migrate a legacy `timestamp`.
    pub migrate_legacy_timestamp: bool,
    /// Migrate a legacy `# Citations` section.
    pub migrate_legacy_citations: bool,
    /// Reorder frontmatter keys canonically.
    pub reorder_keys: bool,
    /// Tag unlabeled computation blocks.
    pub tag_computation_blocks: bool,
    /// Consolidate duplicate date headings in `log.md`.
    pub fix_log_duplicates: bool,
    /// Strip trailing whitespace and excess blank lines.
    pub clean_whitespace: bool,
    /// Regenerate index files.
    pub regenerate_indexes: bool,
}

impl FixOptions {
    /// Options that only fix conformance and migration issues.
    pub fn validation_only(author: Option<String>) -> (r: FixOptions)
        ensures
            r.author == author,
            r.add_missing_title && r.add_missing_generated && r.migrate_legacy_timestamp && r.migrate_legacy_citations,
            !r.add_missing_top_heading && !r.reorder_keys && !r.tag_computation_blocks,
            !r.fix_log_duplicates && !r.clean_whitespace && !r.regenerate_indexes,
    {
        FixOptions {
            author,
            add_missing_title: true,
            add_missing_generated: true,
            add_missing_top_heading: false,
            migrate_legacy_timestamp: true,
            migrate_legacy_citations: true,
            reorder_keys: false,
            tag_computation_blocks: false,
            fix_log_duplicates: false,
            clean_whitespace: false,
            regenerate_indexes: false,
        }
    }
}

impl Default for FixOptions {
    fn default() -> (r: FixOptions)
        ensures
            r.author is None,
            r.add_missing_title && r.add_missing_generated && r.add_missing_top_heading,
            r.migrate_legacy_timestamp && r.migrate_legacy_citations && r.reorder_keys,
            r.tag_computation_blocks && r.fix_log_duplicates && r.clean_whitespace && r.regenerate_indexes,
    {
        FixOptions {
            author: None,
            add_missing_title: true,
            add_missing_generated: true,
            add_missing_top_heading: true,
            migrate_legacy_timestamp: true,
            migrate_legacy_citations: true,
            reorder_keys: true,
            tag_computation_blocks: true,
            fix_log_duplicates: true,
            clean_whitespace: true,
            regenerate_indexes: true,
        }
    }
}

/// What kind of remediation was applied.
#[derive(Clone, Debug, PartialEq, Eq)]
pub enum RemediationKind {
    /// Reordered frontmatter keys to canonical order.
    KeyOrder,
    /// Migrated or removed a legacy `timestamp`.
    MigratedTimestamp,
    /// Migrated a legacy `# Citations` section to `sources`.
    MigratedCitations,
    /// Added a missing `title`.
    AddedTitle(String),
    /// Added a missing `generated` block.
    AddedGenerated,
    /// Added a missing top-level heading.
    AddedTopHeading(String),
    /// Tagged an unlabeled `# Computation` code block.
    AddedComputationLanguage(String),
    /// Consolidated duplicate date headings in `log.md`.
    ConsolidatedLogDates(String),
    /// Stripped trailing whitespace and excess blank lines.
    CleanedWhitespace,
}

/// A remediation kind as sequences.
pub enum KindView {
    KeyOrder,
    MigratedTimestamp,
    MigratedCitations,
    AddedTitle(Seq<char>),
    AddedGenerated,
    AddedTopHeading(Seq<char>),
    AddedComputationLanguage(Seq<char>),
    ConsolidatedLogDates(Seq<char>),
    CleanedWhitespace,
}

impl RemediationKind {
    /// The kind as sequences.
    pub open spec fn view(&self) -> KindView {
        match self {
            RemediationKind::KeyOrder => KindView::KeyOrder,
            RemediationKind::MigratedTimestamp => KindView::MigratedTimestamp,
            RemediationKind::MigratedCitations => KindView::MigratedCitations,
            RemediationKind::AddedTitle(t) => KindView::AddedTitle(t@),
            RemediationKind::AddedGenerated => KindView::AddedGenerated,
            RemediationKind::AddedTopHeading(t) => KindView::AddedTopHeading(t@),
            RemediationKind::AddedComputationLanguage(t) => KindView::AddedComputationLanguage(t@),
            RemediationKind::ConsolidatedLogDates(t) => KindView::ConsolidatedLogDates(t@),
            RemediationKind::CleanedWhitespace => KindView::CleanedWhitespace,
        }
    }
}

/// One remediation applied to a document or file.
#[derive(Clone, Debug, PartialEq, Eq)]
pub struct Remediation {
    /// The kind.
    pub kind: RemediationKind,
    /// What was done.
    pub description: String,
}

impl Remediation {
    /// The remediation as sequences.
    pub open spec fn view(&self) -> (KindView, Seq<char>) {
        (self.kind@, self.description@)
    }
}

/// The views of a list of remediations.
pub open spec fn rem_views(v: Seq<Remediation>) -> Seq<(KindView, Seq<char>)> {
    v.map_values(|r: Remediation| r@)
}

// ---------------------------------------------------------------------------
// Whitespace.
// ---------------------------------------------------------------------------

/// The lines of a body with trailing whitespace removed and runs of blank
/// lines cut to two, from line `i` with `run` blank lines just kept or
/// dropped.
pub open spec fn clean_from(ls: Seq<Seq<char>>, i: int, run: int) -> Seq<Seq<char>>
    decreases ls.len() - i,
{
    if i < 0 || i >= ls.len() {
        seq![]
    } else if trim_end(ls[i]).len() == 0 {
        if run + 1 > 2 {
            clean_from(ls, i + 1, run + 1)
        } else {
            seq![seq![]] + clean_from(ls, i + 1, run + 1)
        }
    } else {
        seq![trim_end(ls[i])] + clean_from(ls, i + 1, 0)
    }
}

/// The end of `ls[..j]` without trailing empty lines.
pub open spec fn nonempty_end(ls: Seq<Seq<char>>, j: int) -> int
    decreases j,
{
    if 0 < j <= ls.len() && ls[j - 1].len() == 0 {
        nonempty_end(ls, j - 1)
    } else {
        j
    }
}

/// Lines joined with newlines, with a final newline unless empty.
pub open spec fn joined_text(ls: Seq<Seq<char>>) -> Seq<char> {
    let t = join_with(ls, "\n"@);
    if t.len() == 0 { t } else { t.push('\n') }
}

/// A body with trailing whitespace stripped and excess blank lines removed,
/// and whether that changed it (against the body with a final newline).
pub open spec fn cleaned_body(body: Seq<char>) -> (Seq<char>, bool) {
    let c = clean_from(lines(body), 0, 0);
    let result = joined_text(c.subrange(0, nonempty_end(c, c.len() as int)));
    let normalized = if body.len() == 0 || body.last() == '\n' { body } else { body.push('\n') };
    (result, result != normalized)
}

proof fn lemma_nonempty_end_bounds(ls: Seq<Seq<char>>, j: int)
    requires
        0 <= j <= ls.len(),
    ensures
        0 <= nonempty_end(ls, j) <= j,
    decreases j,
{
    if 0 < j && ls[j - 1].len() == 0 {
        lemma_nonempty_end_bounds(ls, j - 1);
    }
}

/// A copy of `trim_end(v)`.
fn trim_end_vec(v: &[char]) -> (r: Vec<char>)
    ensures
        r@ == trim_end(v@),
{
    let e = crate::text::skip_ws_back_exec(v, 0, v.len());
    let mut out: Vec<char> = Vec::new();
    crate::text::extend_range(&mut out, v, 0, e);
    out
}

/// Joins lines with newlines, adding a final newline unless empty.
fn joined_text_exec(ls: &Vec<Vec<char>>) -> (r: Vec<char>)
    ensures
        r@ == joined_text(views(ls@)),
{
    let nl = chars_of("\n");
    let mut t = crate::text::join_lines(ls, &nl);
    if t.len() > 0 {
        t.push('\n');
    }
    t
}

/// Whether two texts are equal.
fn same_text(a: &[char], b: &[char]) -> (r: bool)
    ensures
        r == (a@ == b@),
{
    crate::paths::same_chars(a, b)
}

/// [`cleaned_body`] in exec form.
pub fn clean_body_whitespace(body: &str) -> (r: (String, bool))
    ensures
        (r.0@, r.1) == cleaned_body(body@),
{
    let v = chars_of(body);
    let ls = split_lines(&v);
    let ghost l = views(ls@);
    let mut out: Vec<Vec<char>> = Vec::new();
    let mut run: usize = 0;
    let mut i: usize = 0;
    while i < ls.len()
        invariant
            i <= ls.len(),
            l == views(ls@),
            run <= i,
            views(out@) + clean_from(l, i as int, run as int) == clean_from(l, 0, 0),
        decreases ls.len() - i,
    {
        let t = trim_end_vec(&ls[i]);
        let ghost before = views(out@);
        proof {
            assert(l[i as int] == ls@[i as int]@);
        }
        if t.len() == 0 {
            let ghost old_run = run;
            run += 1;
            if run <= 2 {
                out.push(t);
                proof {
                    assert(trim_end(l[i as int]).len() == 0);
                    assert(t@ =~= Seq::<char>::empty());
                    assert(clean_from(l, i as int, old_run as int) == seq![Seq::<char>::empty()] + clean_from(l, i + 1, run as int));
                    assert(views(out@) =~= before.push(t@));
                    assert(before + clean_from(l, i as int, old_run as int) =~= views(out@) + clean_from(l, i + 1, run as int));
                }
            } else {
                proof {
                    assert(clean_from(l, i as int, old_run as int) == clean_from(l, i + 1, run as int));
                }
            }
        } else {
            let ghost old_run = run;
            run = 0;
            out.push(t);
            proof {
                assert(views(out@) =~= before.push(t@));
                assert(before + clean_from(l, i as int, old_run as int) =~= views(out@) + clean_from(l, i + 1, 0));
            }
        }
        i += 1;
    }
    proof {
        assert(views(out@) + clean_from(l, i as int, run as int) =~= views(out@));
    }
    let ghost c = views(out@);
    while out.len() > 0 && out[out.len() - 1].len() == 0
        invariant
            c.len() >= out@.len(),
            views(out@) == c.subrange(0, out@.len() as int),
            nonempty_end(c, out@.len() as int) == nonempty_end(c, c.len() as int),
        decreases out.len(),
    {
        let ghost n = out@.len();
        proof {
            assert(views(out@)[n - 1] == out@[n - 1]@);
            assert(c[n - 1] == out@[n - 1]@);
        }
        out.pop();
        proof {
            assert(views(out@) =~= c.subrange(0, n - 1));
        }
    }
    proof {
        if out@.len() > 0 {
            assert(views(out@)[out@.len() - 1] == out@[out@.len() - 1]@);
            assert(c[out@.len() - 1] == out@[out@.len() - 1]@);
        }
    }
    let result = joined_text_exec(&out);
    let mut normalized: Vec<char> = Vec::new();
    crate::text::extend_all(&mut normalized, &v);
    if v.len() > 0 && v[v.len() - 1] != '\n' {
        normalized.push('\n');
    }
    let changed = !same_text(&result, &normalized);
    (string_of(&result), changed)
}


// ---------------------------------------------------------------------------
// Tagging the computation block.
// ---------------------------------------------------------------------------

/// `n` spaces.
pub open spec fn spaces(n: int) -> Seq<char> {
    Seq::new(n as nat, |_i: int| ' ')
}

/// Whether a trimmed line is a code fence: it starts with three backticks
/// or three tildes, with or without an info string after them.
pub open spec fn is_fence(t: Seq<char>) -> bool {
    has_prefix(t, "```"@) || has_prefix(t, "~~~"@)
}

/// The lines from `i` with each fence that opens a code block under
/// `# Computation` without an info string given the runtime as its info
/// string (its leading whitespace turned into as many spaces as it has UTF-8
/// bytes), and whether any was tagged. Every fence line in the section opens
/// or closes a block; a block that already names its language, and every
/// closing fence, stay as they are.
pub open spec fn tag_from(ls: Seq<Seq<char>>, i: int, in_comp: bool, in_code: bool, runtime: Seq<char>) -> (Seq<Seq<char>>, bool)
    decreases ls.len() - i,
{
    if i < 0 || i >= ls.len() {
        (seq![], false)
    } else {
        let line = ls[i];
        let t = trim(line);
        if has_prefix(t, "# "@) {
            let r = tag_from(ls, i + 1, t == "# Computation"@, in_code, runtime);
            (seq![line] + r.0, r.1)
        } else if in_comp && is_fence(t) {
            if !in_code && (t == "```"@ || t == "~~~"@) {
                let r = tag_from(ls, i + 1, in_comp, true, runtime);
                (seq![spaces(crate::computation::indent_bytes(line)) + t + runtime] + r.0, true)
            } else {
                let r = tag_from(ls, i + 1, in_comp, !in_code, runtime);
                (seq![line] + r.0, r.1)
            }
        } else {
            let r = tag_from(ls, i + 1, in_comp, in_code, runtime);
            (seq![line] + r.0, r.1)
        }
    }
}

/// A body with its untagged computation fences tagged, and whether any was.
pub open spec fn tagged_body(body: Seq<char>, runtime: Seq<char>) -> (Seq<char>, bool) {
    let r = tag_from(lines(body), 0, false, false, runtime);
    (join_with(r.0, "\n"@), r.1)
}

/// As many spaces as the leading whitespace of `line` has UTF-8 bytes.
fn leading_spaces(line: &[char]) -> (r: Vec<char>)
    ensures
        r@ == spaces(crate::computation::indent_bytes(line@)),
{
    let end = crate::text::skip_ws_exec(line, 0, line.len());
    let mut out: Vec<char> = Vec::new();
    let mut i: usize = 0;
    while i < end
        invariant
            i <= end <= line.len(),
            end == crate::text::skip_ws(line@, 0, line@.len() as int),
            out@ == spaces(crate::text::byte_len(line@.subrange(0, i as int)) as int),
        decreases end - i,
    {
        let w = crate::text::utf8_len_exec(line[i]);
        let ghost before = out@;
        let mut k: usize = 0;
        while k < w
            invariant
                k <= w,
                out@ == before + spaces(k as int),
            decreases w - k,
        {
            out.push(' ');
            k += 1;
            proof {
                assert(out@ =~= before + spaces(k as int));
            }
        }
        proof {
            let p = line@.subrange(0, i + 1);
            assert(p.drop_last() =~= line@.subrange(0, i as int));
            assert(before + spaces(w as int) =~= spaces(crate::text::byte_len(p) as int));
        }
        i += 1;
    }
    out
}

/// [`tagged_body`] in exec form.
pub fn tag_computation_block(body: &str, runtime: &str) -> (r: (String, bool))
    ensures
        (r.0@, r.1) == tagged_body(body@, runtime@),
{
    let v = chars_of(body);
    let ls = split_lines(&v);
    let ghost l = views(ls@);
    let rt = chars_of(runtime);
    let heading = chars_of("# ");
    let comp = chars_of("# Computation");
    let tick = chars_of("```");
    let tilde = chars_of("~~~");
    let mut out: Vec<Vec<char>> = Vec::new();
    let mut in_comp = false;
    let mut in_code = false;
    let mut changed = false;
    let mut i: usize = 0;
    proof {
        crate::text::lemma_lines_scan_short(body@, 0, 0);
    }
    while i < ls.len()
        invariant
            i <= ls.len(),
            l == views(ls@),
            l == lines(body@),
            rt@ == runtime@,
            heading@ == "# "@,
            comp@ == "# Computation"@,
            tick@ == "```"@,
            tilde@ == "~~~"@,
            ({
                let rest = tag_from(l, i as int, in_comp, in_code, runtime@);
                views(out@) + rest.0 == tag_from(l, 0, false, false, runtime@).0
                    && (changed || rest.1) == tag_from(l, 0, false, false, runtime@).1
            }),
        decreases ls.len() - i,
    {
        let line = &ls[i];
        proof {
            assert(l[i as int] == line@);
        }
        let t = crate::markdown::trimmed(line);
        let ghost before = views(out@);
        if crate::text::matches_at(&t, 0, &heading) {
            in_comp = same_text(&t, &comp);
            let mut c: Vec<char> = Vec::new();
            crate::text::extend_all(&mut c, line);
            out.push(c);
            proof {
                assert(t@.subrange(0, 2) =~= t@.subrange(0, 2));
                assert(views(out@) =~= before.push(line@));
            }
        } else if in_comp && (crate::text::matches_at(&t, 0, &tick) || crate::text::matches_at(&t, 0, &tilde)) {
            proof {
                assert(t@.subrange(0, 3) =~= t@.subrange(0, 3));
            }
            if !in_code && (same_text(&t, &tick) || same_text(&t, &tilde)) {
                let c0 = leading_spaces(line);
                let mut c = c0;
                crate::text::extend_all(&mut c, &t);
                crate::text::extend_all(&mut c, &rt);
                out.push(c);
                proof {
                    assert(views(out@) =~= before.push(c@));
                }
                in_code = true;
                changed = true;
            } else {
                let mut c: Vec<char> = Vec::new();
                crate::text::extend_all(&mut c, line);
                out.push(c);
                proof {
                    assert(views(out@) =~= before.push(line@));
                }
                in_code = !in_code;
            }
        } else {
            let mut c: Vec<char> = Vec::new();
            crate::text::extend_all(&mut c, line);
            out.push(c);
            proof {
                assert(views(out@) =~= before.push(line@));
            }
        }
        i += 1;
    }
    let nl = chars_of("\n");
    (string_of(&crate::text::join_lines(&out, &nl)), changed)
}


// ---------------------------------------------------------------------------
// Legacy citations.
// ---------------------------------------------------------------------------

/// `str::parse::<u32>`: an optional `+`, then one or more ASCII digits whose
/// value fits.
pub open spec fn parse_u32(s: Seq<char>) -> Option<int> {
    let d = if s.len() > 0 && s[0] == '+' { s.drop_first() } else { s };
    if d.len() > 0 && crate::date::all_digits(d, 0, d.len() as int)
        && crate::date::digits_value(d, 0, d.len() as int) <= 0xffff_ffff {
        Some(crate::date::digits_value(d, 0, d.len() as int))
    } else {
        None
    }
}

proof fn lemma_digits_value_mono(s: Seq<char>, j: int, k: int)
    requires
        0 <= j <= k <= s.len(),
        crate::date::all_digits(s, 0, k),
    ensures
        0 <= crate::date::digits_value(s, 0, j) <= crate::date::digits_value(s, 0, k),
    decreases k,
{
    if k > 0 {
        assert(crate::date::all_digits(s, 0, k - 1));
        assert('0' <= s[k - 1] <= '9');
        if j < k {
            lemma_digits_value_mono(s, j, k - 1);
        } else {
            lemma_digits_value_mono(s, k - 1, k - 1);
        }
    }
}

/// [`parse_u32`] in exec form.
fn parse_u32_exec(s: &[char]) -> (r: Option<u32>)
    ensures
        match r {
            Some(v) => parse_u32(s@) == Some(v as int),
            None => parse_u32(s@) is None,
        },
{
    let start: usize = if s.len() > 0 && s[0] == '+' { 1 } else { 0 };
    let ghost d = if s@.len() > 0 && s@[0] == '+' { s@.drop_first() } else { s@ };
    proof {
        assert(d =~= s@.subrange(start as int, s@.len() as int));
    }
    if start >= s.len() {
        return None;
    }
    let mut v: u64 = 0;
    let mut i: usize = start;
    while i < s.len()
        invariant
            start <= i <= s.len(),
            d =~= s@.subrange(start as int, s@.len() as int),
            d == (if s@.len() > 0 && s@[0] == '+' { s@.drop_first() } else { s@ }),
            d.len() > 0,
            crate::date::all_digits(d, 0, i - start),
            v == crate::date::digits_value(d, 0, i - start),
            v <= 0xffff_ffff,
        decreases s.len() - i,
    {
        let c = s[i];
        if !('0' <= c && c <= '9') {
            proof {
                assert(d[i - start] == c);
                assert(!crate::date::all_digits(d, 0, d.len() as int));
            }
            return None;
        }
        let nv = v * 10 + ((c as u32) - ('0' as u32)) as u64;
        proof {
            assert(d[i - start] == c);
            assert(crate::date::digits_value(d, 0, i - start + 1) == nv);
        }
        if nv > 0xffff_ffff {
            proof {
                if crate::date::all_digits(d, 0, d.len() as int) {
                    lemma_digits_value_mono(d, i - start + 1, d.len() as int);
                }
            }
            return None;
        }
        v = nv;
        i += 1;
    }
    Some(v as u32)
}

/// A citation of a legacy `# Citations` section: its number, the text and
/// target of a `[text](target)` entry, and the entry as written.
pub struct CitationView {
    pub number: int,
    pub text: Option<Seq<char>>,
    pub target: Option<Seq<char>>,
    pub raw: Seq<char>,
}

/// The citation a section line states: `[N] rest` with `N` a number and the
/// rest not blank; `[text](target)` as the whole rest gives its text and
/// target.
pub open spec fn citation_of(line: Seq<char>) -> Option<CitationView> {
    let t = trim(line);
    let c = crate::paths::first_index(t, ']', 1);
    if t.len() == 0 || t[0] != '[' || c >= t.len() {
        None
    } else {
        match parse_u32(trim(t.subrange(1, c))) {
            None => None,
            Some(n) => {
                let rest = trim(t.subrange(c + 1, t.len() as int));
                let j = crate::paths::first_index(rest, ']', 1);
                let linked = rest.len() > 0 && rest[0] == '[' && j + 1 < rest.len() && rest[j + 1] == '('
                    && rest.last() == ')';
                if rest.len() == 0 {
                    None
                } else if linked {
                    Some(CitationView {
                        number: n,
                        text: Some(rest.subrange(1, j)),
                        target: Some(rest.subrange(j + 2, rest.len() - 1)),
                        raw: rest,
                    })
                } else {
                    Some(CitationView { number: n, text: None, target: None, raw: rest })
                }
            },
        }
    }
}

/// The level of a line that is a heading (`#` first after trimming), with
/// its title; `None` otherwise.
pub open spec fn hash_heading(line: Seq<char>) -> Option<(int, Seq<char>)> {
    let t = trim(line);
    if t.len() > 0 && t[0] == '#' {
        let n = crate::text::run_len(t, 0, '#');
        Some((n, trim(t.subrange(n, t.len() as int))))
    } else {
        None
    }
}

/// Where a line leaves the citation scan: whether the line belongs to a
/// `Citations` section (and is dropped), and the state after it.
pub open spec fn cit_step(line: Seq<char>, in_cit: bool, level: int) -> (bool, bool, int) {
    match hash_heading(line) {
        Some((n, title)) => {
            if in_cit && n > level {
                (true, true, level)
            } else if crate::text::eq_ignore_case(title, "citations"@) {
                (true, true, n)
            } else {
                (false, false, level)
            }
        },
        None => (in_cit, in_cit, level),
    }
}

/// The citations of the lines from `i`.
pub open spec fn cits_from(ls: Seq<Seq<char>>, i: int, in_cit: bool, level: int) -> Seq<CitationView>
    decreases ls.len() - i,
{
    if i < 0 || i >= ls.len() {
        seq![]
    } else {
        let st = cit_step(ls[i], in_cit, level);
        let here: Seq<CitationView> = if st.0 && hash_heading(ls[i]) is None {
            match citation_of(ls[i]) {
                Some(c) => seq![c],
                None => seq![],
            }
        } else {
            seq![]
        };
        here + cits_from(ls, i + 1, st.1, st.2)
    }
}

/// The citations of a body's legacy `# Citations` sections, in order.
pub open spec fn citations_of(body: Seq<char>) -> Seq<CitationView> {
    cits_from(lines(body), 0, false, 1)
}

/// Whether `nums` holds `n`.
pub open spec fn has_num(nums: Seq<u32>, n: int) -> bool {
    exists|k: int| 0 <= k < nums.len() && nums[k] as int == n
}

/// A line from `i` with each `[N]` whose number is cited, and that is not a
/// footnote, image or link, turned into `[^N]`.
pub open spec fn refs_from(s: Seq<char>, i: int, nums: Seq<u32>) -> Seq<char>
    decreases s.len() - i,
{
    if i < 0 || i >= s.len() {
        seq![]
    } else if s[i] == '[' && !(i > 0 && (s[i - 1] == '^' || s[i - 1] == '!')) {
        let c = crate::paths::first_index(s, ']', i + 1);
        proof {
            crate::footnotes::lemma_first_index_bounds(s, ']', i + 1);
        }
        if c < s.len() {
            match parse_u32(trim(s.subrange(i + 1, c))) {
                Some(n) => {
                    if has_num(nums, n) && !(c + 1 < s.len() && (s[c + 1] == '(' || s[c + 1] == '[')) {
                        "[^"@ + crate::text::decimal(n as nat) + "]"@ + refs_from(s, c + 1, nums)
                    } else {
                        seq!['['] + refs_from(s, i + 1, nums)
                    }
                },
                None => seq!['['] + refs_from(s, i + 1, nums),
            }
        } else {
            seq!['['] + refs_from(s, i + 1, nums)
        }
    } else {
        seq![s[i]] + refs_from(s, i + 1, nums)
    }
}

/// The body lines from `i` outside `Citations` sections, references
/// rewritten.
pub open spec fn kept_from(ls: Seq<Seq<char>>, i: int, in_cit: bool, level: int, nums: Seq<u32>) -> Seq<Seq<char>>
    decreases ls.len() - i,
{
    if i < 0 || i >= ls.len() {
        seq![]
    } else {
        let st = cit_step(ls[i], in_cit, level);
        let here: Seq<Seq<char>> = if st.0 { seq![] } else { seq![refs_from(ls[i], 0, nums)] };
        here + kept_from(ls, i + 1, st.1, st.2, nums)
    }
}

/// The end of `ls[..j]` without trailing blank lines.
pub open spec fn nonblank_end(ls: Seq<Seq<char>>, j: int) -> int
    decreases j,
{
    if 0 < j <= ls.len() && trim(ls[j - 1]).len() == 0 {
        nonblank_end(ls, j - 1)
    } else {
        j
    }
}

/// A body with its `Citations` sections removed and the cited references
/// turned into footnotes, trailing blank lines dropped.
pub open spec fn migrated_body(body: Seq<char>, nums: Seq<u32>) -> Seq<char> {
    let k = kept_from(lines(body), 0, false, 1, nums);
    joined_text(k.subrange(0, nonblank_end(k, k.len() as int)))
}


/// A citation of a legacy `# Citations` section.
#[derive(Clone, Debug, PartialEq, Eq)]
pub struct Citation {
    /// The citation number.
    pub number: u32,
    /// The text of a `[text](target)` entry.
    pub text: Option<String>,
    /// The target of a `[text](target)` entry.
    pub target: Option<String>,
    /// The entry as written.
    pub raw: String,
}

impl Citation {
    /// The citation as sequences.
    pub open spec fn view(&self) -> CitationView {
        CitationView {
            number: self.number as int,
            text: crate::document::opt_text(self.text),
            target: crate::document::opt_text(self.target),
            raw: self.raw@,
        }
    }
}

/// The views of a list of citations.
pub open spec fn citation_views(v: Seq<Citation>) -> Seq<CitationView> {
    v.map_values(|c: Citation| c@)
}

/// The index of the first `c` in `s` at or after `i`, or the length.
fn find_char(s: &[char], c: char, i: usize) -> (r: usize)
    requires
        i <= s.len(),
    ensures
        r == crate::paths::first_index(s@, c, i as int),
        i <= r <= s.len(),
{
    let mut k = i;
    while k < s.len() && s[k] != c
        invariant
            i <= k <= s.len(),
            crate::paths::first_index(s@, c, k as int) == crate::paths::first_index(s@, c, i as int),
        decreases s.len() - k,
    {
        k += 1;
    }
    k
}

/// A copy of `v[lo..hi]`.
fn slice_of(v: &[char], lo: usize, hi: usize) -> (r: Vec<char>)
    requires
        lo <= hi <= v.len(),
    ensures
        r@ == v@.subrange(lo as int, hi as int),
{
    let mut out: Vec<char> = Vec::new();
    crate::text::extend_range(&mut out, v, lo, hi);
    out
}

/// [`hash_heading`] in exec form.
fn hash_heading_exec(line: &[char]) -> (r: Option<(usize, Vec<char>)>)
    ensures
        match r {
            Some((n, t)) => hash_heading(line@) == Some((n as int, t@)),
            None => hash_heading(line@) is None,
        },
{
    let t = crate::markdown::trimmed(line);
    if t.len() > 0 && t[0] == '#' {
        let n = crate::text::run_len_exec(&t, 0, '#');
        let rest = slice_of(&t, n, t.len());
        Some((n, crate::markdown::trimmed(&rest)))
    } else {
        None
    }
}

/// [`cit_step`] in exec form.
fn cit_step_exec(line: &[char], in_cit: bool, level: usize) -> (r: (bool, bool, usize))
    ensures
        (r.0, r.1, r.2 as int) == cit_step(line@, in_cit, level as int),
{
    match hash_heading_exec(line) {
        Some((n, title)) => {
            if in_cit && n > level {
                (true, true, level)
            } else if crate::text::eq_ignore_ascii_case(&title, &chars_of("citations")) {
                (true, true, n)
            } else {
                (false, false, level)
            }
        },
        None => (in_cit, in_cit, level),
    }
}

/// [`citation_of`] in exec form.
fn citation_of_exec(line: &[char]) -> (r: Option<Citation>)
    ensures
        match r {
            Some(c) => citation_of(line@) == Some(c@),
            None => citation_of(line@) is None,
        },
{
    let t = crate::markdown::trimmed(line);
    if t.len() == 0 || t[0] != '[' {
        return None;
    }
    let c = find_char(&t, ']', 1);
    if c >= t.len() {
        return None;
    }
    let inside = crate::markdown::trimmed(&slice_of(&t, 1, c));
    match parse_u32_exec(&inside) {
        None => None,
        Some(n) => {
            let rest = crate::markdown::trimmed(&slice_of(&t, c + 1, t.len()));
            if rest.len() == 0 {
                return None;
            }
            let j = find_char(&rest, ']', 1);
            let linked = rest[0] == '[' && j < rest.len() - 1 && rest[j + 1] == '('
                && rest[rest.len() - 1] == ')';
            if linked {
                let text = string_of(&slice_of(&rest, 1, j));
                let target = string_of(&slice_of(&rest, j + 2, rest.len() - 1));
                Some(Citation { number: n, text: Some(text), target: Some(target), raw: string_of(&rest) })
            } else {
                Some(Citation { number: n, text: None, target: None, raw: string_of(&rest) })
            }
        },
    }
}

/// The citations of a body's legacy `# Citations` sections (see
/// [`citations_of`]).
pub fn citations(body: &str) -> (r: Vec<Citation>)
    ensures
        citation_views(r@) == citations_of(body@),
{
    let v = chars_of(body);
    let ls = split_lines(&v);
    let ghost l = views(ls@);
    let mut out: Vec<Citation> = Vec::new();
    let mut in_cit = false;
    let mut level: usize = 1;
    let mut i: usize = 0;
    while i < ls.len()
        invariant
            i <= ls.len(),
            l == views(ls@),
            citation_views(out@) + cits_from(l, i as int, in_cit, level as int) == cits_from(l, 0, false, 1),
        decreases ls.len() - i,
    {
        let line = &ls[i];
        proof {
            assert(l[i as int] == line@);
        }
        let st = cit_step_exec(line, in_cit, level);
        let ghost before = citation_views(out@);
        if st.0 && hash_heading_exec(line).is_none() {
            match citation_of_exec(line) {
                Some(c) => {
                    out.push(c);
                    proof {
                        assert(citation_views(out@) =~= before.push(c@));
                        assert(before + cits_from(l, i as int, in_cit, level as int) =~= citation_views(out@) + cits_from(l, i + 1, st.1, st.2 as int));
                    }
                },
                None => {
                    proof {
                        assert(before + cits_from(l, i as int, in_cit, level as int) =~= citation_views(out@) + cits_from(l, i + 1, st.1, st.2 as int));
                    }
                },
            }
        } else {
            proof {
                assert(before + cits_from(l, i as int, in_cit, level as int) =~= citation_views(out@) + cits_from(l, i + 1, st.1, st.2 as int));
            }
        }
        in_cit = st.1;
        level = st.2;
        i += 1;
    }
    proof {
        assert(citation_views(out@) + cits_from(l, i as int, in_cit, level as int) =~= citation_views(out@));
    }
    out
}

/// Whether `nums` holds `n`, in exec form.
fn has_num_exec(nums: &Vec<u32>, n: u32) -> (r: bool)
    ensures
        r == has_num(nums@, n as int),
{
    let mut k: usize = 0;
    while k < nums.len()
        invariant
            k <= nums.len(),
            forall|q: int| 0 <= q < k ==> nums@[q] != n,
        decreases nums.len() - k,
    {
        if nums[k] == n {
            return true;
        }
        k += 1;
    }
    false
}

/// [`refs_from`] in exec form.
fn refs_exec(s: &[char], nums: &Vec<u32>) -> (r: Vec<char>)
    ensures
        r@ == refs_from(s@, 0, nums@),
{
    let mut out: Vec<char> = Vec::new();
    let mut i: usize = 0;
    while i < s.len()
        invariant
            i <= s.len(),
            out@ + refs_from(s@, i as int, nums@) == refs_from(s@, 0, nums@),
        decreases s.len() - i,
    {
        let ghost before = out@;
        if s[i] == '[' && !(i > 0 && (s[i - 1] == '^' || s[i - 1] == '!')) {
            let c = find_char(s, ']', i + 1);
            if c < s.len() {
                let inside = crate::markdown::trimmed(&slice_of(s, i + 1, c));
                match parse_u32_exec(&inside) {
                    Some(n) => {
                        if has_num_exec(nums, n) && !(c + 1 < s.len() && (s[c + 1] == '(' || s[c + 1] == '[')) {
                            crate::text::extend_all(&mut out, &chars_of("[^"));
                            crate::text::extend_all(&mut out, &crate::text::decimal_exec(n as u64));
                            out.push(']');
                            proof {
                                reveal_strlit("]");
                                assert(before + refs_from(s@, i as int, nums@) =~= out@ + refs_from(s@, c + 1, nums@));
                            }
                            i = c + 1;
                        } else {
                            out.push('[');
                            proof {
                                assert(before + refs_from(s@, i as int, nums@) =~= out@ + refs_from(s@, i + 1, nums@));
                            }
                            i += 1;
                        }
                    },
                    None => {
                        out.push('[');
                        proof {
                            assert(before + refs_from(s@, i as int, nums@) =~= out@ + refs_from(s@, i + 1, nums@));
                        }
                        i += 1;
                    },
                }
            } else {
                out.push('[');
                proof {
                    assert(before + refs_from(s@, i as int, nums@) =~= out@ + refs_from(s@, i + 1, nums@));
                }
                i += 1;
            }
        } else {
            out.push(s[i]);
            proof {
                assert(before + refs_from(s@, i as int, nums@) =~= out@ + refs_from(s@, i + 1, nums@));
            }
            i += 1;
        }
    }
    proof {
        assert(out@ + refs_from(s@, i as int, nums@) =~= out@);
    }
    out
}

/// [`migrated_body`] in exec form.
pub fn migrate_body_citations(body: &str, nums: &Vec<u32>) -> (r: String)
    ensures
        r@ == migrated_body(body@, nums@),
{
    let v = chars_of(body);
    let ls = split_lines(&v);
    let ghost l = views(ls@);
    let mut out: Vec<Vec<char>> = Vec::new();
    let mut in_cit = false;
    let mut level: usize = 1;
    let mut i: usize = 0;
    while i < ls.len()
        invariant
            i <= ls.len(),
            l == views(ls@),
            views(out@) + kept_from(l, i as int, in_cit, level as int, nums@) == kept_from(l, 0, false, 1, nums@),
        decreases ls.len() - i,
    {
        let line = &ls[i];
        proof {
            assert(l[i as int] == line@);
        }
        let st = cit_step_exec(line, in_cit, level);
        let ghost before = views(out@);
        if !st.0 {
            let r = refs_exec(line, nums);
            out.push(r);
            proof {
                assert(views(out@) =~= before.push(r@));
            }
        }
        proof {
            assert(before + kept_from(l, i as int, in_cit, level as int, nums@) =~= views(out@) + kept_from(l, i + 1, st.1, st.2 as int, nums@));
        }
        in_cit = st.1;
        level = st.2;
        i += 1;
    }
    proof {
        assert(views(out@) + kept_from(l, i as int, in_cit, level as int, nums@) =~= views(out@));
    }
    let ghost k = views(out@);
    while out.len() > 0 && crate::markdown::trimmed(&out[out.len() - 1]).len() == 0
        invariant
            k.len() >= out@.len(),
            views(out@) == k.subrange(0, out@.len() as int),
            nonblank_end(k, out@.len() as int) == nonblank_end(k, k.len() as int),
        decreases out.len(),
    {
        let ghost n = out@.len();
        proof {
            assert(views(out@)[n - 1] == out@[n - 1]@);
        }
        out.pop();
        proof {
            assert(views(out@) =~= k.subrange(0, n - 1));
        }
    }
    proof {
        if out@.len() > 0 {
            assert(views(out@)[out@.len() - 1] == out@[out@.len() - 1]@);
        }
    }
    string_of(&joined_text_exec(&out))
}


// ---------------------------------------------------------------------------
// The document pipeline.
// ---------------------------------------------------------------------------

/// A document being remediated, with the remediations so far.
pub struct FixState {
    pub fm: Seq<(crate::yaml::ValueView, crate::yaml::ValueView)>,
    pub body: Seq<char>,
    pub rems: Seq<(KindView, Seq<char>)>,
}

/// A `generated: { by, at }` block.
pub open spec fn gen_block(by: Seq<char>, at: Seq<char>) -> crate::yaml::ValueView {
    crate::yaml::ValueView::Pairs(seq![
        (crate::yaml::ValueView::Str("by"@), crate::yaml::ValueView::Str(by)),
        (crate::yaml::ValueView::Str("at"@), crate::yaml::ValueView::Str(at)),
    ])
}

/// The author a remediation attributes: the configured one, else `fallback`.
pub open spec fn author_of(o: FixOptions, fallback: Seq<char>) -> Seq<char> {
    match o.author {
        Some(a) => a@,
        None => fallback,
    }
}

/// Step one: a missing or blank `title` derived from the file stem.
pub open spec fn step_title(o: FixOptions, stem: Option<Seq<char>>, st: FixState) -> FixState {
    let titled = match crate::document::field_text(st.fm, "title"@) {
        Some(t) => trim(t).len() > 0,
        None => false,
    };
    if o.add_missing_title && !titled && stem is Some {
        let t = crate::scaffold::title_of_name(stem->0);
        FixState {
            fm: crate::yaml::set_entry(st.fm, "title"@, crate::yaml::ValueView::Str(t)),
            body: st.body,
            rems: st.rems.push((KindView::AddedTitle(t), "added missing title `"@ + t + "`"@)),
        }
    } else {
        st
    }
}

/// Step two: a legacy `timestamp` removed, and moved into a new `generated`
/// block when there is none.
pub open spec fn step_timestamp(o: FixOptions, fallback: Seq<char>, st: FixState) -> FixState {
    match crate::yaml::lookup(st.fm, "timestamp"@) {
        Some(v) => if o.migrate_legacy_timestamp {
            let fm1 = crate::yaml::remove_entry(st.fm, "timestamp"@);
            if crate::yaml::lookup(fm1, "generated"@) is None {
                match crate::yaml::display_of(v) {
                    Some(ts) => FixState {
                        fm: crate::yaml::set_entry(fm1, "generated"@, gen_block(author_of(o, fallback), ts)),
                        body: st.body,
                        rems: st.rems.push((KindView::MigratedTimestamp,
                            "migrated legacy timestamp `"@ + ts + "` to generated block"@)),
                    },
                    None => FixState { fm: fm1, body: st.body, rems: st.rems },
                }
            } else {
                FixState {
                    fm: fm1,
                    body: st.body,
                    rems: st.rems.push((KindView::MigratedTimestamp, "removed redundant legacy timestamp"@)),
                }
            }
        } else {
            st
        },
        None => st,
    }
}

/// Step three: a missing `generated` block added, stamped `now`.
pub open spec fn step_generated(o: FixOptions, fallback: Seq<char>, now: Seq<char>, st: FixState) -> FixState {
    if o.add_missing_generated && crate::yaml::lookup(st.fm, "generated"@) is None
        && crate::yaml::lookup(st.fm, "timestamp"@) is None {
        FixState {
            fm: crate::yaml::set_entry(st.fm, "generated"@, gen_block(author_of(o, fallback), now)),
            body: st.body,
            rems: st.rems.push((KindView::AddedGenerated, "added missing generated metadata block"@)),
        }
    } else {
        st
    }
}

/// The string `id` of a source entry, if it has one.
pub open spec fn source_id(v: crate::yaml::ValueView) -> Option<Seq<char>> {
    match v {
        crate::yaml::ValueView::Pairs(m) => match crate::yaml::lookup(m, "id"@) {
            Some(crate::yaml::ValueView::Str(id)) => Some(id),
            _ => None,
        },
        _ => None,
    }
}

/// The mapping items among the first `n`, and the ids they carry.
pub open spec fn kept_upto(items: Seq<crate::yaml::ValueView>, n: int) -> (Seq<crate::yaml::ValueView>, Seq<Seq<char>>)
    decreases n,
{
    if n <= 0 {
        (seq![], seq![])
    } else {
        let p = kept_upto(items, n - 1);
        if items[n - 1] is Pairs {
            (p.0.push(items[n - 1]), match source_id(items[n - 1]) {
                Some(id) => p.1.push(id),
                None => p.1,
            })
        } else {
            p
        }
    }
}

/// The existing `sources` kept by the migration, and their ids.
pub open spec fn kept_sources(v: Option<crate::yaml::ValueView>) -> (Seq<crate::yaml::ValueView>, Seq<Seq<char>>) {
    match v {
        Some(crate::yaml::ValueView::List(items)) => kept_upto(items, items.len() as int),
        Some(crate::yaml::ValueView::Pairs(m)) => (
            seq![crate::yaml::ValueView::Pairs(m)],
            match source_id(crate::yaml::ValueView::Pairs(m)) {
                Some(id) => seq![id],
                None => seq![],
            },
        ),
        _ => (seq![], seq![]),
    }
}

/// The source entry a citation becomes.
pub open spec fn citation_source(c: CitationView) -> crate::yaml::ValueView {
    let base = seq![
        (crate::yaml::ValueView::Str("id"@), crate::yaml::ValueView::Str(crate::text::decimal(c.number as nat))),
        (crate::yaml::ValueView::Str("resource"@), crate::yaml::ValueView::Str(match c.target {
            Some(t) => t,
            None => c.raw,
        })),
    ];
    crate::yaml::ValueView::Pairs(match c.text {
        Some(t) => base.push((crate::yaml::ValueView::Str("title"@), crate::yaml::ValueView::Str(t))),
        None => base,
    })
}

/// The source entries of the first `n` citations whose ids are new, and
/// the ids seen so far.
pub open spec fn new_sources(cits: Seq<CitationView>, ids: Seq<Seq<char>>, n: int) -> (Seq<crate::yaml::ValueView>, Seq<Seq<char>>)
    decreases n,
{
    if n <= 0 {
        (seq![], ids)
    } else {
        let p = new_sources(cits, ids, n - 1);
        let id = crate::text::decimal(cits[n - 1].number as nat);
        if p.1.contains(id) {
            p
        } else {
            (p.0.push(citation_source(cits[n - 1])), p.1.push(id))
        }
    }
}

/// The numbers of a list of citations.
pub open spec fn citation_numbers(cits: Seq<CitationView>) -> Seq<u32> {
    cits.map_values(|c: CitationView| c.number as u32)
}

/// Step four: the legacy `# Citations` section moved into `sources`, its
/// references turned into footnotes.
pub open spec fn step_citations(o: FixOptions, st: FixState) -> FixState {
    let cits = citations_of(st.body);
    if o.migrate_legacy_citations && cits.len() > 0 {
        let kept = kept_sources(crate::yaml::lookup(st.fm, "sources"@));
        let added = new_sources(cits, kept.1, cits.len() as int).0;
        FixState {
            fm: crate::yaml::set_entry(st.fm, "sources"@, crate::yaml::ValueView::List(kept.0 + added)),
            body: migrated_body(st.body, citation_numbers(cits)),
            rems: st.rems.push((KindView::MigratedCitations,
                "migrated "@ + crate::text::decimal(cits.len()) + " legacy citation(s) to frontmatter sources"@)),
        }
    } else {
        st
    }
}

/// Whether some line of a body starts (after leading whitespace) with `# `.
pub open spec fn has_top_heading(body: Seq<char>) -> bool {
    exists|k: int| 0 <= k < lines(body).len() && has_prefix(trim_start(#[trigger] lines(body)[k]), "# "@)
}

/// Step five: a `# title` heading put before a body that has none.
pub open spec fn step_heading(o: FixOptions, stem: Option<Seq<char>>, st: FixState) -> FixState {
    if o.add_missing_top_heading && trim(st.body).len() > 0 && !has_top_heading(st.body) {
        let title = match crate::document::field_text(st.fm, "title"@) {
            Some(t) => t,
            None => match stem {
                Some(s) => crate::scaffold::title_of_name(s),
                None => "Concept"@,
            },
        };
        FixState {
            fm: st.fm,
            body: "# "@ + title + "\n\n"@ + trim_start(st.body),
            rems: st.rems.push((KindView::AddedTopHeading(title), "added missing top-level heading `# "@ + title + "`"@)),
        }
    } else {
        st
    }
}

/// Step six: untagged computation fences tagged with the runtime.
pub open spec fn step_tag(o: FixOptions, st: FixState) -> FixState {
    match crate::document::field_text(st.fm, "runtime"@) {
        Some(r) => {
            let rt = trim(r);
            let tb = tagged_body(st.body, rt);
            if o.tag_computation_blocks && crate::bundle::is_attested(st.fm) && rt.len() > 0 && tb.1 {
                FixState {
                    fm: st.fm,
                    body: tb.0,
                    rems: st.rems.push((KindView::AddedComputationLanguage(rt),
                        "tagged computation code block with runtime `"@ + rt + "`"@)),
                }
            } else {
                st
            }
        },
        None => st,
    }
}

/// Step seven: frontmatter keys put in the preferred order.
pub open spec fn step_order(o: FixOptions, st: FixState) -> FixState {
    if o.reorder_keys && crate::document::out_of_order(st.fm) {
        FixState {
            fm: crate::document::reordered(st.fm),
            body: st.body,
            rems: st.rems.push((KindView::KeyOrder, "reordered frontmatter keys to canonical order"@)),
        }
    } else {
        st
    }
}

/// Step eight: trailing whitespace and excess blank lines removed.
pub open spec fn step_whitespace(o: FixOptions, st: FixState) -> FixState {
    let c = cleaned_body(st.body);
    if o.clean_whitespace && c.1 {
        FixState {
            fm: st.fm,
            body: c.0,
            rems: st.rems.push((KindView::CleanedWhitespace,
                "stripped trailing whitespace and normalized excess blank lines"@)),
        }
    } else {
        st
    }
}

/// A document remediated by the eight steps in order, with `fallback` as
/// the author when none is configured and `now` as the time a new
/// `generated` block records.
pub open spec fn remediated(
    fm: Seq<(crate::yaml::ValueView, crate::yaml::ValueView)>,
    body: Seq<char>,
    stem: Option<Seq<char>>,
    o: FixOptions,
    fallback: Seq<char>,
    now: Seq<char>,
) -> FixState {
    let s0 = FixState { fm, body, rems: seq![] };
    step_whitespace(o, step_order(o, step_tag(o, step_heading(o, stem, step_citations(o,
        step_generated(o, fallback, now, step_timestamp(o, fallback, step_title(o, stem, s0))))))))
}


/// A document being remediated.
struct Work {
    fm: crate::document::Frontmatter,
    body: String,
    rems: Vec<Remediation>,
}

impl Work {
    spec fn view(&self) -> FixState {
        FixState { fm: self.fm@, body: self.body@, rems: rem_views(self.rems@) }
    }

    /// Records a remediation.
    fn note(&mut self, kind: RemediationKind, description: Vec<char>)
        ensures
            final(self).fm@ == old(self).fm@,
            final(self).body@ == old(self).body@,
            rem_views(final(self).rems@) == rem_views(old(self).rems@).push((kind@, description@)),
    {
        let r = Remediation { kind, description: string_of(&description) };
        let ghost before = rem_views(self.rems@);
        self.rems.push(r);
        proof {
            assert(rem_views(self.rems@) =~= before.push(r@));
        }
    }
}

/// Characters of several texts in a row.
fn cat3(a: &str, b: &[char], c: &str) -> (r: Vec<char>)
    ensures
        r@ == a@ + b@ + c@,
{
    let mut out = chars_of(a);
    crate::text::extend_all(&mut out, b);
    crate::text::extend_all(&mut out, &chars_of(c));
    out
}

/// A `generated: { by, at }` block value.
fn gen_value(by: &str, at: &str) -> (r: crate::yaml::Value)
    ensures
        crate::yaml::vview(r) == gen_block(by@, at@),
{
    let mut m = crate::yaml::Mapping::new();
    m.insert("by", crate::yaml::Value::Text(by.to_string()));
    m.insert("at", crate::yaml::Value::Text(at.to_string()));
    proof {
        reveal_strlit("by");
        reveal_strlit("at");
        assert(crate::yaml::key_index(seq![], "by"@, 0) == 0);
        let m1 = seq![(crate::yaml::ValueView::Str("by"@), crate::yaml::ValueView::Str(by@))];
        assert(crate::yaml::key_index(m1, "at"@, 0) == 1) by {
            assert(m1[0].0 != crate::yaml::ValueView::Str("at"@)) by {
                assert("by"@ != "at"@) by {
                    assert("by"@[0] != "at"@[0]);
                }
            }
            assert(crate::yaml::key_index(m1, "at"@, 1) == 1);
        }
        assert(m@ =~= gen_block(by@, at@)->Pairs_0);
    }
    crate::yaml::Value::Mapping(m)
}

/// The attributed author.
fn author_str(o: &FixOptions, fallback: &str) -> (r: String)
    ensures
        r@ == author_of(*o, fallback@),
{
    match &o.author {
        Some(a) => a.clone(),
        None => fallback.to_string(),
    }
}

/// Step one in exec form.
fn do_title(w: &mut Work, o: &FixOptions, stem: Option<&str>)
    ensures
        final(w)@ == step_title(*o, match stem { Some(s) => Some(s@), None => None }, old(w)@),
{
    let titled = match w.fm.title() {
        Some(t) => crate::markdown::trimmed(&chars_of(t.as_str())).len() > 0,
        None => false,
    };
    if o.add_missing_title && !titled {
        match stem {
            Some(st) => {
                let t = crate::scaffold::title_from_name(st);
                let d = cat3("added missing title `", &chars_of(t.as_str()), "`");
                let kind = RemediationKind::AddedTitle(t.clone());
                w.fm.set("title", crate::yaml::Value::Text(t));
                w.note(kind, d);
            },
            None => {},
        }
    }
}

/// Step two in exec form.
fn do_timestamp(w: &mut Work, o: &FixOptions, fallback: &str)
    ensures
        final(w)@ == step_timestamp(*o, fallback@, old(w)@),
{
    if !o.migrate_legacy_timestamp {
        return;
    }
    let raw = match w.fm.get("timestamp") {
        Some(v) => Some(v.as_display_string()),
        None => None,
    };
    match raw {
        None => {},
        Some(ts) => {
            let _ = w.fm.remove("timestamp");
            if w.fm.get("generated").is_none() {
                match ts {
                    Some(t) => {
                        let d = cat3("migrated legacy timestamp `", &chars_of(t.as_str()), "` to generated block");
                        let author = author_str(o, fallback);
                        w.fm.set("generated", gen_value(author.as_str(), t.as_str()));
                        w.note(RemediationKind::MigratedTimestamp, d);
                    },
                    None => {},
                }
            } else {
                w.note(RemediationKind::MigratedTimestamp, chars_of("removed redundant legacy timestamp"));
            }
        },
    }
}

/// Step three in exec form.
fn do_generated(w: &mut Work, o: &FixOptions, fallback: &str, now: &str)
    ensures
        final(w)@ == step_generated(*o, fallback@, now@, old(w)@),
{
    if o.add_missing_generated && w.fm.get("generated").is_none() && w.fm.get("timestamp").is_none() {
        let author = author_str(o, fallback);
        w.fm.set("generated", gen_value(author.as_str(), now));
        w.note(RemediationKind::AddedGenerated, chars_of("added missing generated metadata block"));
    }
}

/// Step five in exec form.
fn do_heading(w: &mut Work, o: &FixOptions, stem: Option<&str>)
    ensures
        final(w)@ == step_heading(*o, match stem { Some(s) => Some(s@), None => None }, old(w)@),
{
    if !o.add_missing_top_heading {
        return;
    }
    let v = chars_of(w.body.as_str());
    if crate::markdown::trimmed(&v).len() == 0 {
        return;
    }
    let ls = split_lines(&v);
    let hash = chars_of("# ");
    let mut k: usize = 0;
    while k < ls.len()
        invariant
            k <= ls.len(),
            views(ls@) == lines(v@),
            hash@ == "# "@,
            forall|q: int| 0 <= q < k ==> !has_prefix(trim_start(#[trigger] lines(v@)[q]), "# "@),
            v@ == w.body@,
            w@ == old(w)@,
            o.add_missing_top_heading,
            trim(v@).len() > 0,
        decreases ls.len() - k,
    {
        let a = crate::text::skip_ws_exec(&ls[k], 0, ls[k].len());
        let t = slice_of(&ls[k], a, ls[k].len());
        proof {
            assert(views(ls@)[k as int] == ls@[k as int]@);
        }
        if crate::text::matches_at(&t, 0, &hash) {
            proof {
                reveal_strlit("# ");
                assert(t@ == trim_start(lines(v@)[k as int]));
                assert(t@.subrange(0, 2) == hash@);
                assert(has_prefix(trim_start(lines(v@)[k as int]), "# "@));
                assert(has_top_heading(v@));
            }
            return;
        }
        k += 1;
    }
    let title = match w.fm.title() {
        Some(t) => t,
        None => match stem {
            Some(s) => crate::scaffold::title_from_name(s),
            None => "Concept".to_string(),
        },
    };
    let tv = chars_of(title.as_str());
    let mut nb = cat3("# ", &tv, "\n\n");
    let a = crate::text::skip_ws_exec(&v, 0, v.len());
    crate::text::extend_range(&mut nb, &v, a, v.len());
    let d = cat3("added missing top-level heading `# ", &tv, "`");
    w.body = string_of(&nb);
    w.note(RemediationKind::AddedTopHeading(title), d);
}

/// Step six in exec form.
fn do_tag(w: &mut Work, o: &FixOptions)
    ensures
        final(w)@ == step_tag(*o, old(w)@),
{
    match w.fm.runtime() {
        None => {},
        Some(r) => {
            let rt = crate::markdown::trimmed(&chars_of(r.as_str()));
            let rts = string_of(&rt);
            let (b, changed) = tag_computation_block(w.body.as_str(), rts.as_str());
            if o.tag_computation_blocks && w.fm.is_attested_computation() && rt.len() > 0 && changed {
                let d = cat3("tagged computation code block with runtime `", &rt, "`");
                w.body = b;
                w.note(RemediationKind::AddedComputationLanguage(rts), d);
            }
        },
    }
}

/// Step seven in exec form.
fn do_order(w: &mut Work, o: &FixOptions)
    ensures
        final(w)@ == step_order(*o, old(w)@),
{
    if o.reorder_keys && w.fm.key_order_needs_fix() {
        w.fm.reorder_preferred();
        w.note(RemediationKind::KeyOrder, chars_of("reordered frontmatter keys to canonical order"));
    }
}

/// Step eight in exec form.
fn do_whitespace(w: &mut Work, o: &FixOptions)
    ensures
        final(w)@ == step_whitespace(*o, old(w)@),
{
    let (b, changed) = clean_body_whitespace(w.body.as_str());
    if o.clean_whitespace && changed {
        w.body = b;
        w.note(RemediationKind::CleanedWhitespace, chars_of("stripped trailing whitespace and normalized excess blank lines"));
    }
}


/// The string `id` of a mapping, in exec form.
fn mapping_id(m: &crate::yaml::Mapping) -> (r: Option<Vec<char>>)
    ensures
        match r {
            Some(id) => source_id(crate::yaml::ValueView::Pairs(m@)) == Some(id@),
            None => source_id(crate::yaml::ValueView::Pairs(m@)) is None,
        },
{
    match m.get("id") {
        Some(v) => match v.as_str() {
            Some(s) => Some(chars_of(s)),
            None => None,
        },
        None => None,
    }
}

/// Whether `ids` holds `id`, in exec form.
fn holds_id(ids: &Vec<Vec<char>>, id: &[char]) -> (r: bool)
    ensures
        r == views(ids@).contains(id@),
{
    let mut k: usize = 0;
    while k < ids.len()
        invariant
            k <= ids.len(),
            forall|q: int| 0 <= q < k ==> views(ids@)[q] != id@,
        decreases ids.len() - k,
    {
        if crate::paths::same_chars(&ids[k], id) {
            proof {
                assert(views(ids@)[k as int] == id@);
            }
            return true;
        }
        proof {
            assert(views(ids@)[k as int] == ids@[k as int]@);
        }
        k += 1;
    }
    false
}

/// The source value a citation becomes, in exec form.
fn citation_value(c: &Citation) -> (r: crate::yaml::Value)
    ensures
        crate::yaml::vview(r) == citation_source(c@),
{
    let id = string_of(&crate::text::decimal_exec(c.number as u64));
    let res = match &c.target {
        Some(t) => t.clone(),
        None => c.raw.clone(),
    };
    let mut entries: Vec<(crate::yaml::Value, crate::yaml::Value)> = Vec::new();
    entries.push((crate::yaml::Value::Text("id".to_string()), crate::yaml::Value::Text(id)));
    entries.push((crate::yaml::Value::Text("resource".to_string()), crate::yaml::Value::Text(res)));
    match &c.text {
        Some(t) => {
            entries.push((crate::yaml::Value::Text("title".to_string()), crate::yaml::Value::Text(t.clone())));
        },
        None => {},
    }
    let m = crate::yaml::Mapping { entries };
    proof {
        crate::yaml::lemma_pviews_len(m.entries@, m.entries@.len() as int);
        assert forall|i: int| 0 <= i < m.entries@.len() implies #[trigger] m@[i] == (crate::yaml::vview(m.entries@[i].0), crate::yaml::vview(m.entries@[i].1)) by {
            crate::yaml::lemma_pviews_at(m.entries@, i);
        }
        assert(m@ =~= citation_source(c@)->Pairs_0);
    }
    crate::yaml::Value::Mapping(m)
}

/// Step four in exec form.
fn do_citations(w: &mut Work, o: &FixOptions)
    ensures
        final(w)@ == step_citations(*o, old(w)@),
{
    if !o.migrate_legacy_citations {
        return;
    }
    let cits = citations(w.body.as_str());
    if cits.len() == 0 {
        return;
    }
    let ghost cv = citation_views(cits@);
    let mut items: Vec<crate::yaml::Value> = Vec::new();
    let mut ids: Vec<Vec<char>> = Vec::new();
    match w.fm.get("sources") {
        Some(crate::yaml::Value::Sequence(xs)) => {
            let ghost iv = crate::yaml::vviews(xs@, xs@.len() as int);
            proof {
                crate::yaml::lemma_vviews_len(xs@, xs@.len() as int);
            }
            let mut i: usize = 0;
            while i < xs.len()
                invariant
                    i <= xs.len(),
                    iv == crate::yaml::vviews(xs@, xs@.len() as int),
                    iv.len() == xs@.len(),
                    crate::yaml::vviews(items@, items@.len() as int) == kept_upto(iv, i as int).0,
                    views(ids@) == kept_upto(iv, i as int).1,
                decreases xs.len() - i,
            {
                proof {
                    crate::yaml::lemma_vviews_at(xs@, i as int);
                }
                match &xs[i] {
                    crate::yaml::Value::Mapping(m) => {
                        let c = xs[i].deep_clone();
                        proof {
                            crate::yaml::lemma_vviews_push(items@, c);
                        }
                        items.push(c);
                        match mapping_id(m) {
                            Some(id) => {
                                let ghost before = views(ids@);
                                ids.push(id);
                                proof {
                                    assert(views(ids@) =~= before.push(id@));
                                }
                            },
                            None => {},
                        }
                    },
                    _ => {},
                }
                i += 1;
            }
        },
        Some(crate::yaml::Value::Mapping(m)) => {
            let c = crate::yaml::Value::Mapping(m.deep_clone());
            proof {
                crate::yaml::lemma_vviews_push(items@, c);
            }
            items.push(c);
            match mapping_id(m) {
                Some(id) => {
                    ids.push(id);
                    proof {
                        assert(views(ids@) =~= seq![id@]);
                    }
                },
                None => {
                    proof {
                        assert(views(ids@) =~= Seq::<Seq<char>>::empty());
                    }
                },
            }
        },
        _ => {
            proof {
                assert(views(ids@) =~= Seq::<Seq<char>>::empty());
                assert(crate::yaml::vviews(items@, 0) =~= Seq::<crate::yaml::ValueView>::empty());
            }
        },
    }
    let ghost kept = kept_sources(crate::yaml::lookup(w.fm@, "sources"@));
    proof {
        assert(crate::yaml::vviews(items@, items@.len() as int) == kept.0);
        assert(views(ids@) == kept.1);
    }
    let ghost base = crate::yaml::vviews(items@, items@.len() as int);
    let mut nums: Vec<u32> = Vec::new();
    let mut j: usize = 0;
    while j < cits.len()
        invariant
            j <= cits.len(),
            cv == citation_views(cits@),
            base + new_sources(cv, kept.1, j as int).0 == crate::yaml::vviews(items@, items@.len() as int),
            views(ids@) == new_sources(cv, kept.1, j as int).1,
            nums@ == citation_numbers(cv).take(j as int),
        decreases cits.len() - j,
    {
        let c = &cits[j];
        proof {
            assert(cv[j as int] == c@);
        }
        let id = crate::text::decimal_exec(c.number as u64);
        if !holds_id(&ids, &id) {
            let val = citation_value(c);
            proof {
                crate::yaml::lemma_vviews_push(items@, val);
            }
            items.push(val);
            let ghost before = views(ids@);
            ids.push(id);
            proof {
                assert(views(ids@) =~= before.push(id@));
            }
        }
        nums.push(c.number);
        proof {
            assert(nums@ =~= citation_numbers(cv).take(j + 1));
        }
        j += 1;
    }
    proof {
        assert(nums@ =~= citation_numbers(cv));
    }
    let body = migrate_body_citations(w.body.as_str(), &nums);
    let n = decimal_len(cits.len());
    let d = cat3("migrated ", &n, " legacy citation(s) to frontmatter sources");
    w.fm.set("sources", crate::yaml::Value::Sequence(items));
    w.body = body;
    w.note(RemediationKind::MigratedCitations, d);
}

/// The decimal numeral of a count.
fn decimal_len(n: usize) -> (r: Vec<char>)
    ensures
        r@ == crate::text::decimal(n as nat),
{
    crate::text::decimal_exec(n as u64)
}

/// An optional file stem as a sequence.
pub open spec fn stem_view(stem: Option<&str>) -> Option<Seq<char>> {
    match stem {
        Some(s) => Some(s@),
        None => None,
    }
}

/// Remediates a document (see [`remediated`]), with `fallback_author` as
/// the author when none is configured and `now` as the time a new
/// `generated` block records.
pub fn remediate_document_at(
    doc: &crate::document::Document,
    filename_stem: Option<&str>,
    options: &FixOptions,
    fallback_author: &str,
    now: &str,
) -> (r: (crate::document::Document, Vec<Remediation>))
    ensures
        ({
            let st = remediated(doc.frontmatter@, doc.body@, match filename_stem {
                Some(s) => Some(s@),
                None => None,
            }, *options, fallback_author@, now@);
            r.0.frontmatter@ == st.fm && r.0.body@ == st.body && rem_views(r.1@) == st.rems
        }),
{
    let mut w = Work { fm: doc.frontmatter.deep_clone(), body: doc.body.clone(), rems: Vec::new() };
    proof {
        assert(rem_views(w.rems@) =~= Seq::<(KindView, Seq<char>)>::empty());
    }
    do_title(&mut w, options, filename_stem);
    do_timestamp(&mut w, options, fallback_author);
    do_generated(&mut w, options, fallback_author, now);
    do_citations(&mut w, options);
    do_heading(&mut w, options, filename_stem);
    do_tag(&mut w, options);
    do_order(&mut w, options);
    do_whitespace(&mut w, options);
    (crate::document::Document::new(w.fm, w.body), w.rems)
}

/// Remediates a document at the current time (see
/// [`remediate_document_at`]).
pub fn remediate_document(
    doc: &crate::document::Document,
    filename_stem: Option<&str>,
    options: &FixOptions,
    fallback_author: &str,
) -> (r: (crate::document::Document, Vec<Remediation>))
    ensures
        exists|now: Seq<char>| #![trigger remediated(doc.frontmatter@, doc.body@, stem_view(filename_stem), *options, fallback_author@, now)]
            remediated(doc.frontmatter@, doc.body@, stem_view(filename_stem), *options, fallback_author@, now).fm == r.0.frontmatter@
            && remediated(doc.frontmatter@, doc.body@, stem_view(filename_stem), *options, fallback_author@, now).body == r.0.body@
            && remediated(doc.frontmatter@, doc.body@, stem_view(filename_stem), *options, fallback_author@, now).rems == rem_views(r.1@)
            && crate::scaffold::is_timestamp(now),
{
    let now = crate::scaffold::current_iso_timestamp();
    let r = remediate_document_at(doc, filename_stem, options, fallback_author, now.as_str());
    proof {
        assert(stem_view(filename_stem) == match filename_stem {
            Some(s) => Some(s@),
            None => None::<Seq<char>>,
        });
        let st = remediated(doc.frontmatter@, doc.body@, stem_view(filename_stem), *options, fallback_author@, now@);
        assert(st.fm == r.0.frontmatter@);
    }
    r
}


// ---------------------------------------------------------------------------
// The log.
// ---------------------------------------------------------------------------

/// The remediation recorded for one folded log date.
pub open spec fn log_rem(date: Seq<char>) -> (KindView, Seq<char>) {
    (KindView::ConsolidatedLogDates(date), "consolidated duplicate date headings for `## "@ + date + "`"@)
}

/// A `log.md` text after remediation, with what was done: with
/// `fix_log_duplicates`, every later `## date` section of a date already
/// seen is folded into the first one and the log is rewritten; otherwise,
/// or when nothing was folded, the text is kept as it is.
pub open spec fn remediated_log(text: Seq<char>, options: FixOptions) -> (Seq<char>, Seq<(KindView, Seq<char>)>) {
    let l = crate::log::parse_log(text);
    let c = crate::log::consolidated(l.days, l.days.len() as int);
    if !options.fix_log_duplicates || c.1.len() == 0 {
        (text, seq![])
    } else {
        (crate::log::log_text(crate::log::LogView { head: l.head, days: c.0 }), c.1.map_values(|d: Seq<char>| log_rem(d)))
    }
}

/// Remediates a `log.md` text (see [`remediated_log`]).
pub fn remediate_log(text: &str, options: &FixOptions) -> (r: (String, Vec<Remediation>))
    ensures
        (r.0@, rem_views(r.1@)) == remediated_log(text@, *options),
{
    let mut rems: Vec<Remediation> = Vec::new();
    if !options.fix_log_duplicates {
        proof {
            assert(rem_views(rems@) =~= Seq::<(KindView, Seq<char>)>::empty());
        }
        return (string_of(&chars_of(text)), rems);
    }
    let log = crate::log::Log::parse(text);
    let head = log.head;
    let (days, folded) = crate::log::consolidate_days(log.days);
    let ghost fv = crate::concept_id::texts(folded@);
    let mut k: usize = 0;
    while k < folded.len()
        invariant
            k <= folded.len(),
            fv == crate::concept_id::texts(folded@),
            rem_views(rems@) == fv.take(k as int).map_values(|d: Seq<char>| log_rem(d)),
        decreases folded.len() - k,
    {
        let d = &folded[k];
        let mut desc = chars_of("consolidated duplicate date headings for `## ");
        crate::text::extend_all(&mut desc, &chars_of(d.as_str()));
        desc.push('`');
        let rem = Remediation { kind: RemediationKind::ConsolidatedLogDates(d.clone()), description: string_of(&desc) };
        let ghost before = rem_views(rems@);
        rems.push(rem);
        proof {
            reveal_strlit("`");
            assert(rem@ == log_rem(fv[k as int]));
            assert(rem_views(rems@) =~= before.push(rem@));
            assert(fv.take(k + 1).map_values(|d: Seq<char>| log_rem(d)) =~= fv.take(k as int).map_values(|d: Seq<char>| log_rem(d)).push(log_rem(fv[k as int])));
        }
        k += 1;
    }
    proof {
        assert(fv.take(k as int) =~= fv);
    }
    if folded.len() == 0 {
        return (string_of(&chars_of(text)), rems);
    }
    let out = crate::log::Log { head, days };
    (out.to_markdown(), rems)
}


// ---------------------------------------------------------------------------
// One file, and a whole bundle.
// ---------------------------------------------------------------------------

/// The index of the last `.` among the first `j` characters of `s`, or -1.
pub open spec fn last_dot(s: Seq<char>, j: int) -> int
    decreases j,
{
    if j <= 0 || j > s.len() {
        -1
    } else if s[j - 1] == '.' {
        j - 1
    } else {
        last_dot(s, j - 1)
    }
}

/// The stem of a file name: what precedes its last `.`, or the whole name
/// when it has no `.` but a leading one (and for `..`); none for an empty
/// name.
pub open spec fn stem_of(name: Seq<char>) -> Option<Seq<char>> {
    if name.len() == 0 {
        None
    } else if name == ".."@ {
        Some(name)
    } else {
        let d = last_dot(name, name.len() as int);
        if d <= 0 {
            Some(name)
        } else {
            Some(name.subrange(0, d))
        }
    }
}

/// [`stem_of`] in exec form.
fn stem_exec(name: &[char]) -> (r: Option<String>)
    ensures
        match r {
            Some(s) => stem_of(name@) == Some(s@),
            None => stem_of(name@) is None,
        },
{
    if name.len() == 0 {
        return None;
    }
    let dd = chars_of("..");
    proof {
        reveal_strlit("..");
    }
    if crate::paths::same_chars(name, &dd) {
        return Some(string_of(&dd));
    }
    let mut j = name.len();
    while j > 0 && name[j - 1] != '.'
        invariant
            j <= name.len(),
            last_dot(name@, j as int) == last_dot(name@, name@.len() as int),
        decreases j,
    {
        j -= 1;
    }
    let mut out: Vec<char> = Vec::new();
    if j <= 1 {
        crate::text::extend_all(&mut out, name);
    } else {
        crate::text::extend_range(&mut out, name, 0, j - 1);
    }
    Some(string_of(&out))
}

/// What remediating one file gave.
pub struct FileFixReport {
    /// The file's path.
    pub path: String,
    /// The remediations applied.
    pub remediations: Vec<Remediation>,
    /// The text before remediation.
    pub original_content: String,
    /// The text after remediation.
    pub remediated_content: String,
    /// Whether anything changed.
    pub changed: bool,
}

/// What remediating the file at `path` with text `original` gives, the
/// clock reading `now`: `log.md` has its duplicate dates consolidated,
/// `index.md` is left as it is, any other file is parsed as a document and
/// remediated, its stem standing for the missing title. `None` when that
/// file does not parse.
pub open spec fn file_fix_ok(path: Seq<char>, original: Seq<char>, options: FixOptions, fallback_author: Seq<char>, now: Seq<char>, f: FileFixReport) -> bool {
    let name = crate::bundle::file_name(path);
    &&& f.path@ == path
    &&& f.original_content@ == original
    &&& if name == "log.md"@ {
        &&& (f.remediated_content@, rem_views(f.remediations@)) == remediated_log(original, options)
        &&& f.changed == (f.remediated_content@ != original)
    } else if name == "index.md"@ {
        &&& f.remediated_content@ == original
        &&& f.remediations@.len() == 0
        &&& !f.changed
    } else {
        match crate::document::doc_spec(original) {
            Ok((fm, body)) => {
                let st = remediated(fm, body, stem_of(name), options, fallback_author, now);
                &&& rem_views(f.remediations@) == st.rems
                &&& exists|d: crate::document::Document| #![trigger d.frontmatter.yaml_text()]
                    d.frontmatter@ == st.fm && d.body@ == st.body
                        && f.remediated_content@ == crate::document::document_text(d.frontmatter.yaml_text(), d.body@)
                &&& f.changed == (f.remediated_content@ != original || st.rems.len() > 0)
            },
            Err(_) => false,
        }
    }
}

/// Whether remediating the file at `path` gives a report: every file but
/// one that is neither `log.md` nor `index.md` and does not parse.
pub open spec fn file_fixable(path: Seq<char>, original: Seq<char>) -> bool {
    let name = crate::bundle::file_name(path);
    name == "log.md"@ || name == "index.md"@ || crate::document::doc_spec(original) is Ok
}

/// Remediates one file's text, the clock reading `now` (see [`file_fix_ok`]).
pub fn remediate_file_at(path: &str, original: &str, options: &FixOptions, fallback_author: &str, now: &str) -> (r: Option<FileFixReport>)
    requires
        original@.len() <= usize::MAX / 8,
    ensures
        r is Some <==> file_fixable(path@, original@),
        r matches Some(f) ==> file_fix_ok(path@, original@, *options, fallback_author@, now@, f),
{
    let name = crate::bundle::file_name_exec(&chars_of(path));
    let log_name = chars_of("log.md");
    let index_name = chars_of("index.md");
    proof {
        reveal_strlit("log.md");
        reveal_strlit("index.md");
    }
    if crate::paths::same_chars(&name, &log_name) {
        let (t, rems) = remediate_log(original, options);
        let changed = !crate::text::str_eq(t.as_str(), original);
        return Some(FileFixReport {
            path: path.to_string(),
            remediations: rems,
            original_content: original.to_string(),
            remediated_content: t,
            changed,
        });
    }
    if crate::paths::same_chars(&name, &index_name) {
        return Some(FileFixReport {
            path: path.to_string(),
            remediations: Vec::new(),
            original_content: original.to_string(),
            remediated_content: original.to_string(),
            changed: false,
        });
    }
    match crate::document::Document::parse(original) {
        Err(_) => None,
        Ok(doc) => {
            let stem = stem_exec(&name);
            let (fixed, rems) = match &stem {
                Some(s) => remediate_document_at(&doc, Some(s.as_str()), options, fallback_author, now),
                None => remediate_document_at(&doc, None, options, fallback_author, now),
            };
            let text = fixed.serialize();
            let changed = !crate::text::str_eq(text.as_str(), original) || rems.len() > 0;
            proof {
                assert(fixed.frontmatter.yaml_text() == fixed.frontmatter.yaml_text());
            }
            Some(FileFixReport {
                path: path.to_string(),
                remediations: rems,
                original_content: original.to_string(),
                remediated_content: text,
                changed,
            })
        },
    }
}

/// What remediating a whole bundle gave.
pub struct BundleFixReport {
    /// The bundle's root directory.
    pub bundle_root: String,
    /// One report per remediated file, in path order.
    pub files: Vec<FileFixReport>,
    /// The `index.md` files that are out of date or missing, in path order
    /// of their directories.
    pub index_files_to_regenerate: Vec<String>,
    /// The options used.
    pub options: FixOptions,
}

/// Whether the fixer leaves a directory alone: a hidden one (its name
/// starts with `.`), `target` or `node_modules`.
pub open spec fn skipped_dir(seg: Seq<char>) -> bool {
    (seg.len() > 0 && seg[0] == '.') || seg == "target"@ || seg == "node_modules"@
}

/// Whether a bundle-relative path lies inside a directory the fixer leaves
/// alone.
pub open spec fn in_skipped_dir(rel: Seq<char>) -> bool {
    let p = crate::concept_id::split_slash(rel);
    exists|k: int| 0 <= k < p.len() - 1 && skipped_dir(#[trigger] p[k])
}

/// Whether the fixer takes up the file at bundle-relative path `rel`: a
/// markdown file, not `index.md`, outside the directories it leaves alone.
pub open spec fn fix_candidate(rel: Seq<char>) -> bool {
    collected_md(rel) && crate::bundle::file_name(rel) != "index.md"@
}

/// Whether the fixer sees the file at bundle-relative path `rel` at all: a
/// markdown file outside the directories it leaves alone.
pub open spec fn collected_md(rel: Seq<char>) -> bool {
    crate::concept_id::is_md_name(crate::bundle::file_name(rel)) && !in_skipped_dir(rel)
}

/// The files among the first `n` entries that the fixer reports on, as
/// `(path under root, text)`: candidates that give a report.
pub open spec fn fix_targets(root: Seq<char>, es: Seq<(Seq<char>, Option<Seq<char>>)>, n: int) -> Seq<(Seq<char>, Seq<char>)>
    decreases n,
{
    if n <= 0 || n > es.len() {
        seq![]
    } else {
        let p = fix_targets(root, es, n - 1);
        let rel = es[n - 1].0;
        let full = crate::concept_id::under_root(root, rel);
        match es[n - 1].1 {
            Some(t) => if fix_candidate(rel) && file_fixable(full, t) {
                p.push((full, t))
            } else {
                p
            },
            None => p,
        }
    }
}

/// [`skipped_dir`] in exec form.
fn skipped_dir_exec(seg: &[char]) -> (r: bool)
    ensures
        r == skipped_dir(seg@),
{
    let target = chars_of("target");
    let nm = chars_of("node_modules");
    (seg.len() > 0 && seg[0] == '.') || crate::paths::same_chars(seg, &target) || crate::paths::same_chars(seg, &nm)
}

/// [`collected_md`] in exec form.
fn collected_md_exec(rel: &str) -> (r: bool)
    ensures
        r == collected_md(rel@),
{
    let rv = chars_of(rel);
    let name = crate::bundle::file_name_exec(&rv);
    let md = chars_of(".md");
    proof {
        reveal_strlit(".md");
    }
    let is_md = name.len() > 3 && crate::text::matches_at(&name, name.len() - 3, &md);
    proof {
        assert(is_md == crate::concept_id::is_md_name(name@));
    }
    if !is_md {
        return false;
    }
    let p = crate::paths::split_slash_exec(&rv);
    let ghost pv = views(p@);
    let last: usize = if p.len() > 0 { p.len() - 1 } else { 0 };
    let mut k: usize = 0;
    while k < last
        invariant
            pv == views(p@),
            pv == crate::concept_id::split_slash(rel@),
            last == (if p.len() > 0 { p.len() - 1 } else { 0 }),
            k <= last,
            forall|q: int| 0 <= q < k ==> !skipped_dir(#[trigger] pv[q]),
        decreases p.len() - k,
    {
        proof {
            assert(pv[k as int] == p@[k as int]@);
        }
        if skipped_dir_exec(&p[k]) {
            return false;
        }
        k += 1;
    }
    true
}

/// [`fix_candidate`] in exec form.
fn fix_candidate_exec(rel: &str) -> (r: bool)
    ensures
        r == fix_candidate(rel@),
{
    let name = crate::bundle::file_name_exec(&chars_of(rel));
    let index_name = chars_of("index.md");
    proof {
        reveal_strlit("index.md");
    }
    collected_md_exec(rel) && !crate::paths::same_chars(&name, &index_name)
}

/// A copy of the options.
fn copy_options(o: &FixOptions) -> (r: FixOptions)
    ensures
        r == *o,
{
    FixOptions {
        author: match &o.author {
            Some(a) => Some(a.clone()),
            None => None,
        },
        add_missing_title: o.add_missing_title,
        add_missing_generated: o.add_missing_generated,
        add_missing_top_heading: o.add_missing_top_heading,
        migrate_legacy_timestamp: o.migrate_legacy_timestamp,
        migrate_legacy_citations: o.migrate_legacy_citations,
        reorder_keys: o.reorder_keys,
        tag_computation_blocks: o.tag_computation_blocks,
        fix_log_duplicates: o.fix_log_duplicates,
        clean_whitespace: o.clean_whitespace,
        regenerate_indexes: o.regenerate_indexes,
    }
}

/// Whether `r` is what remediating the files `es` of the bundle at `root`
/// gives, the clock reading `now` (see [`remediate_bundle_at`]).
pub open spec fn bundle_fix_ok(
    root: Seq<char>,
    es: Seq<(Seq<char>, Option<Seq<char>>)>,
    options: FixOptions,
    fallback_author: Seq<char>,
    now: Seq<char>,
    r: BundleFixReport,
) -> bool {
    let sorted = crate::bundle::by_path(es);
    let ts = fix_targets(root, sorted, sorted.len() as int);
    &&& r.bundle_root@ == root
    &&& r.options == options
    &&& r.files@.len() == ts.len()
    &&& forall|k: int| 0 <= k < ts.len() ==> file_fix_ok(ts[k].0, ts[k].1, options, fallback_author, now, #[trigger] r.files@[k])
    &&& crate::concept_id::texts(r.index_files_to_regenerate@) == index_plan(root, sorted, options, r.files@)
}

/// The directory part of a bundle-relative path (empty at the top).
pub open spec fn rel_dir(rel: Seq<char>) -> Seq<char> {
    let e = crate::bundle::last_slash_end(rel, rel.len() as int);
    if e == 0 {
        seq![]
    } else {
        rel.subrange(0, e - 1)
    }
}

/// The bundle-relative path of a directory's `index.md`.
pub open spec fn index_rel(dir: Seq<char>) -> Seq<char> {
    if dir.len() == 0 {
        "index.md"@
    } else {
        dir + "/index.md"@
    }
}

/// Where directory `d` belongs in the path-sorted list `s`.
pub open spec fn dir_slot(s: Seq<Seq<char>>, d: Seq<char>, i: int) -> int
    decreases s.len() - i,
{
    if i < 0 || i >= s.len() {
        s.len() as int
    } else if crate::bundle::path_before(s[i], d) {
        dir_slot(s, d, i + 1)
    } else {
        i
    }
}

/// The path-sorted list `s` with `d` added unless present.
pub open spec fn with_dir(s: Seq<Seq<char>>, d: Seq<char>) -> Seq<Seq<char>> {
    let p = dir_slot(s, d, 0);
    if p < s.len() && s[p] == d {
        s
    } else {
        s.insert(p, d)
    }
}

/// Directories each once, in path order.
pub open spec fn dirs_in_order(ds: Seq<Seq<char>>) -> Seq<Seq<char>>
    decreases ds.len(),
{
    if ds.len() == 0 {
        seq![]
    } else {
        with_dir(dirs_in_order(ds.drop_last()), ds.last())
    }
}

/// The directories of the markdown files the fixer sees among the first `n`
/// entries, in order, repeats kept.
pub open spec fn md_dirs(es: Seq<(Seq<char>, Option<Seq<char>>)>, n: int) -> Seq<Seq<char>>
    decreases n,
{
    if n <= 0 || n > es.len() {
        seq![]
    } else if collected_md(es[n - 1].0) {
        md_dirs(es, n - 1).push(rel_dir(es[n - 1].0))
    } else {
        md_dirs(es, n - 1)
    }
}

/// The directories of the concepts, in order.
pub open spec fn concept_dirs(cs: Seq<crate::bundle::ConceptView>) -> Seq<Seq<char>> {
    cs.map_values(|c: crate::bundle::ConceptView| join_with(c.id.drop_last(), "/"@))
}

/// Whether a file of the tree has bundle-relative path `p`.
pub open spec fn has_file(es: Seq<(Seq<char>, Option<Seq<char>>)>, p: Seq<char>) -> bool {
    exists|k: int| 0 <= k < es.len() && (#[trigger] es[k]).0 == p
}

/// The `index.md` paths of the first `n` directories of `ds` that have none.
pub open spec fn missing_indexes(root: Seq<char>, es: Seq<(Seq<char>, Option<Seq<char>>)>, ds: Seq<Seq<char>>, n: int) -> Seq<Seq<char>>
    decreases n,
{
    if n <= 0 || n > ds.len() {
        seq![]
    } else if has_file(es, index_rel(ds[n - 1])) {
        missing_indexes(root, es, ds, n - 1)
    } else {
        missing_indexes(root, es, ds, n - 1).push(crate::concept_id::under_root(root, index_rel(ds[n - 1])))
    }
}

/// The `index.md` files a fix leaves to regenerate, when asked to: after any
/// change, the index of every directory holding a markdown file; with no
/// change, the missing index of each directory holding a concept.
pub open spec fn index_plan(
    root: Seq<char>,
    es: Seq<(Seq<char>, Option<Seq<char>>)>,
    options: FixOptions,
    files: Seq<FileFixReport>,
) -> Seq<Seq<char>> {
    if !options.regenerate_indexes {
        seq![]
    } else if exists|k: int| 0 <= k < files.len() && (#[trigger] files[k]).changed {
        dirs_in_order(md_dirs(es, es.len() as int)).map_values(|d: Seq<char>| crate::concept_id::under_root(root, index_rel(d)))
    } else {
        let ds = dirs_in_order(concept_dirs(crate::bundle::bundle_of(root, es).concepts));
        missing_indexes(root, es, ds, ds.len() as int)
    }
}

/// [`rel_dir`] in exec form.
fn rel_dir_exec(rel: &[char]) -> (r: Vec<char>)
    ensures
        r@ == rel_dir(rel@),
{
    let mut j = rel.len();
    while j > 0 && rel[j - 1] != '/'
        invariant
            j <= rel.len(),
            crate::bundle::last_slash_end(rel@, j as int) == crate::bundle::last_slash_end(rel@, rel@.len() as int),
        decreases j,
    {
        j -= 1;
    }
    let mut out: Vec<char> = Vec::new();
    if j > 0 {
        crate::text::extend_range(&mut out, rel, 0, j - 1);
    }
    out
}

/// [`index_rel`] in exec form.
fn index_rel_exec(dir: &[char]) -> (r: String)
    ensures
        r@ == index_rel(dir@),
{
    if dir.len() == 0 {
        "index.md".to_string()
    } else {
        let mut out: Vec<char> = Vec::new();
        crate::text::extend_all(&mut out, dir);
        crate::text::extend_all(&mut out, &chars_of("/index.md"));
        string_of(&out)
    }
}

/// Adds `d` to the path-sorted list `dirs` unless present (see [`with_dir`]).
fn add_dir(dirs: &mut Vec<Vec<char>>, d: Vec<char>)
    ensures
        views(final(dirs)@) == with_dir(views(old(dirs)@), d@),
{
    let ghost s = views(dirs@);
    let ds = string_of(&d);
    let mut p: usize = 0;
    while p < dirs.len() && crate::bundle::path_less(string_of(&dirs[p]).as_str(), ds.as_str())
        invariant
            p <= dirs.len(),
            s == views(dirs@),
            ds@ == d@,
            dir_slot(s, d@, p as int) == dir_slot(s, d@, 0),
        decreases dirs.len() - p,
    {
        proof {
            assert(s[p as int] == dirs@[p as int]@);
        }
        p += 1;
    }
    proof {
        if p < dirs.len() {
            assert(s[p as int] == dirs@[p as int]@);
        }
    }
    if p < dirs.len() && crate::paths::same_chars(&dirs[p], &d) {
    } else {
        dirs.insert(p, d);
        proof {
            assert(views(dirs@) =~= s.insert(p as int, d@));
        }
    }
}

/// Whether one of the entries has path `p`.
fn has_file_exec(entries: &Vec<(String, Option<String>)>, p: &str) -> (r: bool)
    ensures
        r == has_file(crate::bundle::entry_views(entries@), p@),
{
    let ghost es = crate::bundle::entry_views(entries@);
    let mut k: usize = 0;
    while k < entries.len()
        invariant
            k <= entries.len(),
            es == crate::bundle::entry_views(entries@),
            forall|q: int| 0 <= q < k ==> (#[trigger] es[q]).0 != p@,
        decreases entries.len() - k,
    {
        proof {
            assert(es[k as int].0 == entries@[k as int].0@);
        }
        if crate::text::str_eq(entries[k].0.as_str(), p) {
            return true;
        }
        k += 1;
    }
    false
}

/// A copy of the entries.
fn copy_entries(entries: &Vec<(String, Option<String>)>) -> (r: Vec<(String, Option<String>)>)
    ensures
        r@ == entries@,
{
    let mut out: Vec<(String, Option<String>)> = Vec::new();
    let mut k: usize = 0;
    while k < entries.len()
        invariant
            k <= entries.len(),
            out@ == entries@.take(k as int),
        decreases entries.len() - k,
    {
        let t = match &entries[k].1 {
            Some(x) => Some(x.clone()),
            None => None,
        };
        out.push((entries[k].0.clone(), t));
        proof {
            assert(out@ =~= entries@.take(k + 1));
        }
        k += 1;
    }
    proof {
        assert(entries@.take(k as int) =~= entries@);
    }
    out
}

/// The `index.md` files a fix of the sorted entries `sorted` (of the tree
/// `given`) leaves to regenerate (see [`index_plan`]).
fn plan_indexes(
    root: &str,
    given: Vec<(String, Option<String>)>,
    sorted: &Vec<(String, Option<String>)>,
    options: &FixOptions,
    files: &Vec<FileFixReport>,
) -> (r: Vec<String>)
    requires
        crate::bundle::texts_fit(given@),
        crate::bundle::entry_views(sorted@) == crate::bundle::by_path(crate::bundle::entry_views(given@)),
    ensures
        crate::concept_id::texts(r@) == index_plan(root@, crate::bundle::entry_views(sorted@), *options, files@),
{
    let ghost es = crate::bundle::entry_views(sorted@);
    let mut out: Vec<String> = Vec::new();
    if !options.regenerate_indexes {
        proof {
            assert(crate::concept_id::texts(out@) =~= Seq::<Seq<char>>::empty());
        }
        return out;
    }
    let mut any = false;
    let mut f: usize = 0;
    while f < files.len()
        invariant
            f <= files.len(),
            any == exists|k: int| 0 <= k < f && (#[trigger] files@[k]).changed,
        decreases files.len() - f,
    {
        if files[f].changed {
            any = true;
        }
        f += 1;
    }
    let mut dirs: Vec<Vec<char>> = Vec::new();
    if any {
        let mut i: usize = 0;
        while i < sorted.len()
            invariant
                i <= sorted.len(),
                es == crate::bundle::entry_views(sorted@),
                views(dirs@) == dirs_in_order(md_dirs(es, i as int)),
            decreases sorted.len() - i,
        {
            proof {
                assert(es[i as int].0 == sorted@[i as int].0@);
            }
            if collected_md_exec(sorted[i].0.as_str()) {
                let d = rel_dir_exec(&chars_of(sorted[i].0.as_str()));
                proof {
                    assert(md_dirs(es, i + 1).drop_last() =~= md_dirs(es, i as int));
                }
                add_dir(&mut dirs, d);
            }
            i += 1;
        }
        let ghost dv = views(dirs@);
        let mut q: usize = 0;
        while q < dirs.len()
            invariant
                q <= dirs.len(),
                dv == views(dirs@),
                crate::concept_id::texts(out@) == dv.take(q as int).map_values(
                    |d: Seq<char>| crate::concept_id::under_root(root@, index_rel(d)),
                ),
            decreases dirs.len() - q,
        {
            let idx = index_rel_exec(&dirs[q]);
            let path = crate::bundle::join_root(root, idx.as_str());
            let ghost before = crate::concept_id::texts(out@);
            out.push(path);
            proof {
                assert(dv[q as int] == dirs@[q as int]@);
                assert(crate::concept_id::texts(out@) =~= before.push(path@));
                assert(dv.take(q + 1).map_values(|d: Seq<char>| crate::concept_id::under_root(root@, index_rel(d)))
                    =~= dv.take(q as int).map_values(|d: Seq<char>| crate::concept_id::under_root(root@, index_rel(d))).push(path@));
            }
            q += 1;
        }
        proof {
            assert(dv.take(q as int) =~= dv);
        }
        return out;
    }
    let bundle = crate::bundle::Bundle::load(root, given);
    let cs = bundle.concepts();
    let ghost cv = crate::bundle::concept_views(cs@);
    let mut c: usize = 0;
    while c < cs.len()
        invariant
            c <= cs.len(),
            cv == crate::bundle::concept_views(cs@),
            crate::bundle::ids_ok(cv),
            views(dirs@) == dirs_in_order(concept_dirs(cv).take(c as int)),
        decreases cs.len() - c,
    {
        let segs = cs[c].id.segments();
        let mut parts: Vec<Vec<char>> = Vec::new();
        let mut t: usize = 0;
        let upto: usize = if segs.len() > 0 { segs.len() - 1 } else { 0 };
        while t < upto
            invariant
                t <= upto,
                upto == (if segs.len() > 0 { segs.len() - 1 } else { 0 }),
                views(parts@) == crate::concept_id::texts(segs@).take(t as int),
            decreases upto - t,
        {
            let ghost before = views(parts@);
            parts.push(chars_of(segs[t].as_str()));
            proof {
                assert(views(parts@) =~= before.push(segs@[t as int]@));
                assert(crate::concept_id::texts(segs@).take(t + 1) =~= crate::concept_id::texts(segs@).take(t as int).push(segs@[t as int]@));
            }
            t += 1;
        }
        let d = crate::text::join_lines(&parts, &chars_of("/"));
        proof {
            let id = cs@[c as int].id@;
            assert(crate::concept_id::texts(segs@) == id);
            assert(cv[c as int] == cs@[c as int]@);
            assert(crate::concept_id::valid_segments(cv[c as int].id));
            assert(crate::concept_id::texts(segs@).len() == segs@.len());
            assert(crate::concept_id::texts(segs@).take(t as int) =~= id.drop_last());
            assert(cv[c as int] == cs@[c as int]@);
            assert(concept_dirs(cv).take(c + 1).drop_last() =~= concept_dirs(cv).take(c as int));
            assert(concept_dirs(cv).take(c + 1).last() == d@);
        }
        add_dir(&mut dirs, d);
        c += 1;
    }
    proof {
        assert(concept_dirs(cv).take(c as int) =~= concept_dirs(cv));
    }
    let ghost dv = views(dirs@);
    let mut q: usize = 0;
    while q < dirs.len()
        invariant
            q <= dirs.len(),
            dv == views(dirs@),
            es == crate::bundle::entry_views(sorted@),
            crate::concept_id::texts(out@) == missing_indexes(root@, es, dv, q as int),
        decreases dirs.len() - q,
    {
        let idx = index_rel_exec(&dirs[q]);
        proof {
            assert(dv[q as int] == dirs@[q as int]@);
        }
        if !has_file_exec(sorted, idx.as_str()) {
            let path = crate::bundle::join_root(root, idx.as_str());
            let ghost before = crate::concept_id::texts(out@);
            out.push(path);
            proof {
                assert(crate::concept_id::texts(out@) =~= before.push(path@));
            }
        }
        q += 1;
    }
    out
}


/// Remediates every file of a bundle (see [`remediate_bundle_at`]), the
/// clock read once for every file that gets a `generated` block.
pub fn remediate_bundle(
    root: &str,
    entries: Vec<(String, Option<String>)>,
    options: &FixOptions,
    fallback_author: &str,
) -> (r: BundleFixReport)
    requires
        crate::bundle::texts_fit(entries@),
    ensures
        exists|now: Seq<char>| #[trigger] bundle_fix_ok(root@, crate::bundle::entry_views(entries@), *options, fallback_author@, now, r)
            && crate::scaffold::is_timestamp(now),
{
    let now = crate::scaffold::current_iso_timestamp();
    remediate_bundle_at(root, entries, options, fallback_author, now.as_str())
}

/// Remediates every file of a bundle, the clock reading `now`: `entries`
/// holds the files of the tree as `(path relative to the root, text)`, as
/// for [`crate::bundle::Bundle::load`]; they are taken in path order. Each
/// markdown file but `index.md`, outside hidden, `target` and
/// `node_modules` directories, is remediated with
/// [`remediate_file_at`], and a file that does not parse is passed over.
pub fn remediate_bundle_at(
    root: &str,
    entries: Vec<(String, Option<String>)>,
    options: &FixOptions,
    fallback_author: &str,
    now: &str,
) -> (r: BundleFixReport)
    requires
        crate::bundle::texts_fit(entries@),
    ensures
        bundle_fix_ok(root@, crate::bundle::entry_views(entries@), *options, fallback_author@, now@, r),
{
    let ghost given = entries@;
    let copy = copy_entries(&entries);
    let sorted = crate::bundle::sort_by_path(entries);
    let ghost es = crate::bundle::entry_views(sorted@);
    let mut files: Vec<FileFixReport> = Vec::new();
    let mut i: usize = 0;
    while i < sorted.len()
        invariant
            i <= sorted.len(),
            es == crate::bundle::entry_views(sorted@),
            es == crate::bundle::by_path(crate::bundle::entry_views(given)),
            crate::bundle::texts_fit(given),
            forall|k: int| 0 <= k < sorted@.len() ==> exists|j: int| 0 <= j < given.len() && #[trigger] sorted@[k] == given[j],
            files@.len() == fix_targets(root@, es, i as int).len(),
            forall|k: int| 0 <= k < files@.len() ==> file_fix_ok(
                fix_targets(root@, es, i as int)[k].0,
                fix_targets(root@, es, i as int)[k].1,
                *options,
                fallback_author@,
                now@,
                #[trigger] files@[k],
            ),
        decreases sorted.len() - i,
    {
        let rel = sorted[i].0.as_str();
        let ghost prev = fix_targets(root@, es, i as int);
        proof {
            assert(es[i as int].0 == rel@);
            assert(es[i as int].1 == crate::document::opt_text(sorted@[i as int].1));
        }
        match &sorted[i].1 {
            Some(text) => {
                if fix_candidate_exec(rel) {
                    proof {
                        let j = choose|j: int| 0 <= j < given.len() && sorted@[i as int] == given[j];
                        assert(crate::bundle::text_fits(given[j].1));
                    }
                    let full = crate::bundle::join_root(root, rel);
                    match remediate_file_at(full.as_str(), text.as_str(), options, fallback_author, now) {
                        Some(f) => {
                            let ghost before = files@;
                            files.push(f);
                            proof {
                                assert forall|k: int| 0 <= k < files@.len() implies file_fix_ok(
                                    fix_targets(root@, es, i + 1)[k].0,
                                    fix_targets(root@, es, i + 1)[k].1,
                                    *options,
                                    fallback_author@,
                                    now@,
                                    #[trigger] files@[k],
                                ) by {
                                    if k < before.len() {
                                        assert(files@[k] == before[k]);
                                        assert(fix_targets(root@, es, i + 1)[k] == prev[k]);
                                    }
                                }
                            }
                        },
                        None => {},
                    }
                }
            },
            None => {},
        }
        i += 1;
    }
    let indexes = plan_indexes(root, copy, &sorted, options, &files);
    BundleFixReport {
        bundle_root: root.to_string(),
        files,
        index_files_to_regenerate: indexes,
        options: copy_options(options),
    }
}

/// The number of remediations in the first `n` file reports.
pub open spec fn total_upto(files: Seq<FileFixReport>, n: int) -> int
    decreases n,
{
    if n <= 0 || n > files.len() {
        0
    } else {
        total_upto(files, n - 1) + files[n - 1].remediations@.len()
    }
}

/// The indices of the first `n` file reports that changed a file, in order.
pub open spec fn changed_upto(files: Seq<FileFixReport>, n: int) -> Seq<int>
    decreases n,
{
    if n <= 0 || n > files.len() {
        seq![]
    } else if files[n - 1].changed {
        changed_upto(files, n - 1).push(n - 1)
    } else {
        changed_upto(files, n - 1)
    }
}

impl BundleFixReport {
    /// The number of remediations over all files.
    pub fn total_remediations(&self) -> (r: usize)
        requires
            total_upto(self.files@, self.files@.len() as int) <= usize::MAX,
        ensures
            r == total_upto(self.files@, self.files@.len() as int),
    {
        let mut total: usize = 0;
        let mut i: usize = 0;
        while i < self.files.len()
            invariant
                i <= self.files.len(),
                total == total_upto(self.files@, i as int),
                total_upto(self.files@, self.files@.len() as int) <= usize::MAX,
            decreases self.files.len() - i,
        {
            proof {
                lemma_total_upto_mono(self.files@, i + 1, self.files@.len() as int);
            }
            total = total + self.files[i].remediations.len();
            i += 1;
        }
        total
    }

    /// The reports of the files that were (or would be) changed, in order.
    pub fn changed_files(&self) -> (r: Vec<&FileFixReport>)
        ensures
            r@.len() == changed_upto(self.files@, self.files@.len() as int).len(),
            forall|k: int| 0 <= k < r@.len() ==> *#[trigger] r@[k] == self.files@[changed_upto(self.files@, self.files@.len() as int)[k]],
    {
        let mut out: Vec<&FileFixReport> = Vec::new();
        let mut i: usize = 0;
        while i < self.files.len()
            invariant
                i <= self.files.len(),
                out@.len() == changed_upto(self.files@, i as int).len(),
                forall|k: int| 0 <= k < out@.len() ==> *#[trigger] out@[k] == self.files@[changed_upto(self.files@, i as int)[k]],
            decreases self.files.len() - i,
        {
            if self.files[i].changed {
                let ghost before = out@;
                out.push(&self.files[i]);
                proof {
                    assert forall|k: int| 0 <= k < out@.len() implies *#[trigger] out@[k] == self.files@[changed_upto(self.files@, i + 1)[k]] by {
                        if k < before.len() {
                            assert(out@[k] == before[k]);
                        }
                    }
                }
            }
            i += 1;
        }
        out
    }

    /// Whether no file needs a fix and no index awaits regeneration.
    pub fn is_empty(&self) -> (r: bool)
        ensures
            r == ((forall|k: int| 0 <= k < self.files@.len() ==> !(#[trigger] self.files@[k]).changed)
                && self.index_files_to_regenerate@.len() == 0),
    {
        if self.index_files_to_regenerate.len() > 0 {
            return false;
        }
        let mut i: usize = 0;
        while i < self.files.len()
            invariant
                i <= self.files.len(),
                forall|k: int| 0 <= k < i ==> !(#[trigger] self.files@[k]).changed,
            decreases self.files.len() - i,
        {
            if self.files[i].changed {
                return false;
            }
            i += 1;
        }
        true
    }
}

proof fn lemma_total_upto_mono(files: Seq<FileFixReport>, a: int, b: int)
    requires
        0 <= a <= b <= files.len(),
    ensures
        0 <= total_upto(files, a) <= total_upto(files, b),
    decreases b,
{
    if b > a {
        lemma_total_upto_mono(files, a, b - 1);
    } else if a > 0 {
        lemma_total_upto_mono(files, a - 1, a - 1);
    }
}

/// Every file the fixer reports on among the first `n` entries is one of
/// those entries and is a fix candidate.
proof fn lemma_fix_targets_from(root: Seq<char>, es: Seq<(Seq<char>, Option<Seq<char>>)>, n: int, k: int)
    requires
        0 <= k < fix_targets(root, es, n).len(),
    ensures
        exists|i: int| 0 <= i < n && i < es.len() && fix_targets(root, es, n)[k].0 == crate::concept_id::under_root(root, #[trigger] es[i].0)
            && fix_candidate(es[i].0),
    decreases n,
{
    if n > 0 && n <= es.len() {
        let p = fix_targets(root, es, n - 1);
        if k < p.len() {
            lemma_fix_targets_from(root, es, n - 1, k);
            let i = choose|i: int| 0 <= i < n - 1 && i < es.len() && p[k].0 == crate::concept_id::under_root(root, #[trigger] es[i].0)
                && fix_candidate(es[i].0);
            assert(fix_targets(root, es, n)[k] == p[k]);
            assert(0 <= i < n);
        } else {
            assert(fix_targets(root, es, n)[k].0 == crate::concept_id::under_root(root, es[n - 1].0));
            assert(fix_candidate(es[n - 1].0));
        }
    }
}

/// A bundle fix never reports on a file inside a hidden directory (one whose
/// name starts with `.`), a `target` directory or a `node_modules`
/// directory: each reported file is one of the given files, and none of the
/// directories on its path is one of those.
pub proof fn lemma_fix_skips_ignored_dirs(
    root: Seq<char>,
    es: Seq<(Seq<char>, Option<Seq<char>>)>,
    options: FixOptions,
    fallback_author: Seq<char>,
    now: Seq<char>,
    r: BundleFixReport,
    k: int,
)
    requires
        bundle_fix_ok(root, es, options, fallback_author, now, r),
        0 <= k < r.files@.len(),
    ensures
        exists|i: int| #![trigger es[i]] 0 <= i < es.len() && r.files@[k].path@ == crate::concept_id::under_root(root, es[i].0) && {
            let dirs = crate::concept_id::split_slash(es[i].0);
            forall|j: int| 0 <= j < dirs.len() - 1 ==> #[trigger] dirs[j] != "target"@ && dirs[j] != "node_modules"@
                && !(dirs[j].len() > 0 && dirs[j][0] == '.')
        },
{
    let sorted = crate::bundle::by_path(es);
    let ts = fix_targets(root, sorted, sorted.len() as int);
    assert(file_fix_ok(ts[k].0, ts[k].1, options, fallback_author, now, r.files@[k]));
    lemma_fix_targets_from(root, sorted, sorted.len() as int, k);
    let i = choose|i: int| 0 <= i < sorted.len() && i < sorted.len() && ts[k].0 == crate::concept_id::under_root(root, #[trigger] sorted[i].0)
        && fix_candidate(sorted[i].0);
    crate::bundle::lemma_by_path_member(es, i);
    let j0 = choose|j: int| 0 <= j < es.len() && sorted[i] == #[trigger] es[j];
    let rel = es[j0].0;
    let dirs = crate::concept_id::split_slash(rel);
    assert(!in_skipped_dir(rel));
    assert forall|j: int| 0 <= j < dirs.len() - 1 implies #[trigger] dirs[j] != "target"@ && dirs[j] != "node_modules"@
        && !(dirs[j].len() > 0 && dirs[j][0] == '.') by {
        assert(!skipped_dir(dirs[j]));
    }
}

} // verus!
