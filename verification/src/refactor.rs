//! Refactoring a bundle's concept graph while keeping its links intact:
//! renaming a section, moving, removing, splitting and merging concepts.
//!
//! Each operation reads a loaded [`Bundle`] and returns a report together
//! with a [`Plan`]: the files to write or remove and the entry to add to
//! `log.md`. Carrying the plan out is the caller's part. A dry run plans
//! nothing.
use vstd::prelude::*;
use crate::bundle::{Bundle, ConceptView, has_id, position_of, pick_target, link_candidates, concept_views, ids_ok};
use crate::concept_id::{ConceptId, under_root, valid_segments};
use crate::document::Document;
use crate::links::{LinkKind, kind_of};
use crate::markdown::{
    ActView, LinkRewriteAction, act_views, cleaned, links_in, rewritten, changed_count, heading_text, slug_of,
    strip_hashes, dash_to_space, code_at, fence_before, ends_with_newline, link_of_site,
};
use crate::paths::first_index;
use crate::text::{chars_of, string_of, eq_ignore_case, trim, run_len, lines, join_with, views, extend_all, extend_range};
use crate::yaml::ValueView;

verus! {

broadcast use vstd::string::group_string_axioms;

/// Why a refactoring was refused.
#[derive(Debug)]
pub enum RefactorError {
    /// The concept was not found in the bundle.
    ConceptNotFound(ConceptId),
    /// The destination concept already exists in the bundle.
    ConceptAlreadyExists(ConceptId),
    /// The source and target concepts are the same.
    SameSourceAndTarget(ConceptId),
    /// The concept cannot be removed because other concepts link to it.
    HasInboundLinks {
        /// The concept being removed.
        target: ConceptId,
        /// How many concepts link to it.
        inbound_count: usize,
        /// The concepts that link to it.
        inbound_concepts: Vec<ConceptId>,
    },
    /// The section heading was not found in the concept's body.
    SectionNotFound {
        /// The concept searched.
        concept: ConceptId,
        /// The section asked for.
        section: String,
    },
    /// An invalid concept id.
    InvalidConceptId(String),
    /// A file system error.
    Io(String),
}

/// A change to one file of the bundle.
#[derive(Debug)]
pub enum FileEdit {
    /// Write the document to the path, replacing what is there.
    Write { path: String, document: Document },
    /// Remove the file at the path.
    Remove { path: String },
}

/// A file edit as sequences: path, frontmatter and body of a write.
pub enum EditView {
    Write(Seq<char>, Seq<(ValueView, ValueView)>, Seq<char>),
    Remove(Seq<char>),
}

impl FileEdit {
    pub open spec fn view(&self) -> EditView {
        match self {
            FileEdit::Write { path, document } => EditView::Write(path@, document.frontmatter@, document.body@),
            FileEdit::Remove { path } => EditView::Remove(path@),
        }
    }
}

/// The views of a list of edits.
pub open spec fn edit_views(v: Seq<FileEdit>) -> Seq<EditView> {
    v.map_values(|e: FileEdit| e@)
}

/// An entry for the bundle's `log.md`: its kind (`Update`, `Creation`)
/// and text, to be filed under the day it is carried out.
#[derive(Debug)]
pub struct LogNote {
    pub kind: String,
    pub message: String,
}

/// What an operation asks of the bundle's files.
#[derive(Debug)]
pub struct Plan {
    /// Files to write or remove, in order.
    pub edits: Vec<FileEdit>,
    /// The log entry to add, if any.
    pub log: Option<LogNote>,
    /// Whether the `index.md` listings are to be regenerated afterwards.
    pub update_index: bool,
}

/// The path of a concept's file under `root`.
pub open spec fn path_of(root: Seq<char>, id: Seq<Seq<char>>) -> Seq<char> {
    under_root(root, join_with(id, "/"@) + ".md"@)
}

/// Lines joined with `\n`, with a final newline when `body` has one.
pub open spec fn join_like(ls: Seq<Seq<char>>, body: Seq<char>) -> Seq<char> {
    join_with(ls, "\n"@) + if ends_with_newline(body) {
        "\n"@
    } else {
        Seq::<char>::empty()
    }
}

fn push_str(out: &mut Vec<char>, s: &str)
    ensures
        final(out)@ == old(out)@ + s@,
{
    let v = chars_of(s);
    extend_all(out, &v);
}

/// `s` joined as in [`join_like`].
fn join_like_exec(ls: &Vec<Vec<char>>, body: &[char]) -> (r: Vec<char>)
    ensures
        r@ == join_like(views(ls@), body@),
{
    let nl = chars_of("\n");
    let mut out = crate::text::join_lines(ls, &nl);
    if body.len() > 0 && body[body.len() - 1] == '\n' {
        out.push('\n');
        proof {
            reveal_strlit("\n");
        }
    }
    proof {
        assert(out@ =~= join_like(views(ls@), body@)) by {
            reveal_strlit("\n");
        }
    }
    out
}

// ---------------------------------------------------------------------
// Renaming a section
// ---------------------------------------------------------------------

/// Options for renaming a section heading.
#[derive(Debug)]
pub struct RenameSectionOptions {
    /// Plan nothing.
    pub dry_run: bool,
    /// Record the rename in `log.md`.
    pub update_log: bool,
    /// Author named in the log entry.
    pub author: Option<String>,
}

impl Default for RenameSectionOptions {
    fn default() -> (r: RenameSectionOptions)
        ensures
            !r.dry_run,
            r.update_log,
            r.author is None,
    {
        RenameSectionOptions { dry_run: false, update_log: true, author: None }
    }
}

/// What a section rename did.
#[derive(Debug)]
pub struct RenameSectionReport {
    /// The concept holding the section.
    pub concept: ConceptId,
    /// The section asked for, without `#`s.
    pub old_section: String,
    /// The new heading text, without `#`s.
    pub new_section: String,
    /// The anchor slug of the old section.
    pub old_slug: String,
    /// The anchor slug of the new section.
    pub new_slug: String,
    /// In-document anchor links updated.
    pub internal_links_updated: usize,
    /// Links from other concepts updated.
    pub external_links_updated: usize,
    /// The files written.
    pub affected_files: Vec<String>,
    /// Whether this was a dry run.
    pub dry_run: bool,
}

/// A line that starts, after trimming, with `#`: the number of leading
/// `#`s and the rest, trimmed.
pub open spec fn hash_title(line: Seq<char>) -> Option<(int, Seq<char>)> {
    let t = trim(line);
    if t.len() > 0 && t[0] == '#' {
        let n = run_len(t, 0, '#');
        Some((n, trim(t.subrange(n, t.len() as int))))
    } else {
        None
    }
}

/// Whether a heading's text names the section `y` (already stripped of
/// `#`s): equal ignoring ASCII case, the same slug, or equal ignoring case
/// once `-` and `_` read as spaces.
pub open spec fn section_matches(title: Seq<char>, y: Seq<char>) -> bool {
    ||| eq_ignore_case(title, y)
    ||| slug_of(title) == slug_of(y)
    ||| eq_ignore_case(title.map_values(|c: char| dash_to_space(c)), y.map_values(|c: char| dash_to_space(c)))
}

/// `n` hash signs.
pub open spec fn hashes(n: int) -> Seq<char> {
    Seq::new(n as nat, |_k: int| '#')
}

/// The first `i` lines with the first heading outside code that names
/// section `y` rewritten to `new_text` at the same level, and that
/// heading's old text.
pub open spec fn renamed_lines(ls: Seq<Seq<char>>, y: Seq<char>, new_text: Seq<char>, i: int) -> (Seq<Seq<char>>, Option<Seq<char>>)
    decreases i,
{
    if i <= 0 {
        (seq![], None)
    } else {
        let p = renamed_lines(ls, y, new_text, i - 1);
        let l = ls[i - 1];
        match hash_title(l) {
            Some(h) if p.1 is None && !code_at(ls, i - 1) && section_matches(h.1, y) => {
                (p.0.push(hashes(h.0) + seq![' '] + new_text), Some(h.1))
            },
            _ => (p.0.push(l), p.1),
        }
    }
}

/// Whether an anchor names the section with slug `old_slug` or heading
/// slug `matched`, directly or through its own slug.
pub open spec fn anchor_hit(a: Seq<char>, old_slug: Seq<char>, matched: Seq<char>) -> bool {
    a == old_slug || a == matched || slug_of(a) == old_slug || slug_of(a) == matched
}

/// The action on an in-document link with target `t`.
pub open spec fn internal_act(t: Seq<char>, old_slug: Seq<char>, matched: Seq<char>, new_slug: Seq<char>) -> ActView {
    if kind_of(t) is Anchor && anchor_hit(strip_hashes(t), old_slug, matched) {
        ActView::Rewrite(seq!['#'] + new_slug)
    } else {
        ActView::Keep
    }
}

/// The actions on every link of `body` for a section rename.
pub open spec fn internal_acts(body: Seq<char>, old_slug: Seq<char>, matched: Seq<char>, new_slug: Seq<char>) -> Seq<ActView> {
    links_in(body).map_values(|s: (Seq<char>, Seq<char>)| internal_act(cleaned(s.1), old_slug, matched, new_slug))
}

/// The action on a link with target `t`, written in concept `from`, for
/// a rename of a section of concept `id`.
pub open spec fn backlink_act(
    t: Seq<char>,
    from: Seq<Seq<char>>,
    cs: Seq<ConceptView>,
    id: Seq<Seq<char>>,
    old_slug: Seq<char>,
    matched: Seq<char>,
    new_slug: Seq<char>,
) -> ActView {
    let i = first_index(t, '#', 0);
    if pick_target(link_candidates(t, from.drop_last()), cs) == Some(id) && i < t.len()
        && anchor_hit(t.subrange(i + 1, t.len() as int), old_slug, matched) {
        ActView::Rewrite(t.subrange(0, i) + seq!['#'] + new_slug)
    } else {
        ActView::Keep
    }
}

/// The actions on every link of concept `c` for a rename of a section of
/// concept `id`.
pub open spec fn backlink_acts(
    c: ConceptView,
    cs: Seq<ConceptView>,
    id: Seq<Seq<char>>,
    old_slug: Seq<char>,
    matched: Seq<char>,
    new_slug: Seq<char>,
) -> Seq<ActView> {
    links_in(c.body).map_values(
        |s: (Seq<char>, Seq<char>)| backlink_act(cleaned(s.1), c.id, cs, id, old_slug, matched, new_slug),
    )
}

/// The concepts among the first `n` other than `id` whose links to a
/// section of `id` change: each one's position, new body and number of
/// links changed.
pub open spec fn section_backlinks(
    cs: Seq<ConceptView>,
    id: Seq<Seq<char>>,
    old_slug: Seq<char>,
    matched: Seq<char>,
    new_slug: Seq<char>,
    n: int,
) -> Seq<(int, Seq<char>, int)>
    decreases n,
{
    if n <= 0 {
        seq![]
    } else {
        let p = section_backlinks(cs, id, old_slug, matched, new_slug, n - 1);
        let c = cs[n - 1];
        let acts = backlink_acts(c, cs, id, old_slug, matched, new_slug);
        let k = changed_count(acts, acts.len() as int);
        if c.id != id && k > 0 {
            p.push((n - 1, rewritten(c.body, acts), k))
        } else {
            p
        }
    }
}

/// The sum of the counts of a list of changes.
pub open spec fn total_changed(v: Seq<(int, Seq<char>, int)>) -> int
    decreases v.len(),
{
    if v.len() == 0 {
        0
    } else {
        total_changed(v.drop_last()) + v.last().2
    }
}

/// `x` capped at the largest `usize`.
pub open spec fn sat(x: int) -> int {
    if x <= usize::MAX {
        x
    } else {
        usize::MAX as int
    }
}

/// The writes for a list of changes to the concepts `cs`.
pub open spec fn change_writes(root: Seq<char>, cs: Seq<ConceptView>, v: Seq<(int, Seq<char>, int)>) -> Seq<EditView> {
    v.map_values(|e: (int, Seq<char>, int)| EditView::Write(path_of(root, cs[e.0].id), cs[e.0].fm, e.1))
}

/// The paths of the concepts a list of changes writes.
pub open spec fn change_paths(root: Seq<char>, cs: Seq<ConceptView>, v: Seq<(int, Seq<char>, int)>) -> Seq<Seq<char>> {
    v.map_values(|e: (int, Seq<char>, int)| path_of(root, cs[e.0].id))
}

/// The text `(by author)` appended to log entries, or nothing.
pub open spec fn by_suffix(author: Option<Seq<char>>) -> Seq<char> {
    match author {
        Some(a) => " (by "@ + a + ")"@,
        None => Seq::<char>::empty(),
    }
}

/// The log entry of a section rename.
pub open spec fn rename_section_message(
    old_text: Seq<char>,
    new_text: Seq<char>,
    id: Seq<Seq<char>>,
    internal: int,
    external: int,
    author: Option<Seq<char>>,
) -> Seq<char> {
    "Renamed section `"@ + old_text + "` to `"@ + new_text + "` in concept `"@ + join_with(id, "/"@)
        + "` (updated "@ + crate::text::decimal(internal as nat) + " internal link(s), "@
        + crate::text::decimal(external as nat) + " external backlink(s))"@ + by_suffix(author) + "."@
}

/// The text of an optional string.
pub open spec fn opt_chars(o: Option<String>) -> Option<Seq<char>> {
    match o {
        Some(s) => Some(s@),
        None => None,
    }
}

/// The leading `#`s and trimmed rest of a line that starts with `#`.
fn hash_title_exec(line: &[char]) -> (r: Option<(usize, Vec<char>)>)
    ensures
        match r {
            Some((n, t)) => hash_title(line@) == Some((n as int, t@)),
            None => hash_title(line@) is None,
        },
{
    let t = crate::markdown::trimmed(line);
    if t.len() > 0 && t[0] == '#' {
        let n = crate::text::run_len_exec(&t, 0, '#');
        proof {
            crate::text::lemma_run_len_bounds(t@, 0, '#');
        }
        let mut rest: Vec<char> = Vec::new();
        extend_range(&mut rest, &t, n, t.len());
        let tt = crate::markdown::trimmed(&rest);
        Some((n, tt))
    } else {
        None
    }
}

/// The anchor slug of a character vector.
fn slug_chars(v: &[char]) -> (r: Vec<char>)
    ensures
        r@ == slug_of(v@),
{
    let s = string_of(v);
    let sl = crate::markdown::heading_slug(s.as_str());
    chars_of(sl.as_str())
}

fn section_matches_exec(title: &[char], y: &[char], y_slug: &[char]) -> (r: bool)
    requires
        y_slug@ == slug_of(y@),
    ensures
        r == section_matches(title@, y@),
{
    if crate::text::eq_ignore_ascii_case(title, y) {
        return true;
    }
    let ts = slug_chars(title);
    if crate::paths::same_chars(&ts, y_slug) {
        return true;
    }
    let a = crate::markdown::dashes_to_spaces(title);
    let b = crate::markdown::dashes_to_spaces(y);
    crate::text::eq_ignore_ascii_case(&a, &b)
}

/// [`renamed_lines`] over a whole body.
fn rename_heading_lines(body: &[char], y: &[char], y_slug: &[char], new_text: &[char]) -> (r: (Vec<Vec<char>>, Option<Vec<char>>))
    requires
        y_slug@ == slug_of(y@),
    ensures
        views(r.0@) == renamed_lines(lines(body@), y@, new_text@, lines(body@).len() as int).0,
        match r.1 {
            Some(t) => renamed_lines(lines(body@), y@, new_text@, lines(body@).len() as int).1 == Some(t@),
            None => renamed_lines(lines(body@), y@, new_text@, lines(body@).len() as int).1 is None,
        },
{
    let ls = crate::text::split_lines(body);
    let ghost gl = views(ls@);
    let mut out: Vec<Vec<char>> = Vec::new();
    let mut found: Option<Vec<char>> = None;
    let mut fence: Option<char> = None;
    let mut i: usize = 0;
    while i < ls.len()
        invariant
            i <= ls.len(),
            gl == views(ls@),
            gl == lines(body@),
            y_slug@ == slug_of(y@),
            fence == fence_before(gl, i as int),
            views(out@) == renamed_lines(gl, y@, new_text@, i as int).0,
            match found {
                Some(t) => renamed_lines(gl, y@, new_text@, i as int).1 == Some(t@),
                None => renamed_lines(gl, y@, new_text@, i as int).1 is None,
            },
        decreases ls.len() - i,
    {
        let line = &ls[i];
        proof {
            assert(gl[i as int] == line@);
        }
        let code = fence.is_some() || crate::markdown::next_fence(None, line).is_some();
        let ghost before = views(out@);
        let mut replaced = false;
        if found.is_none() && !code {
            match hash_title_exec(line) {
                Some((n, t)) => {
                    if section_matches_exec(&t, y, y_slug) {
                        let mut nl: Vec<char> = Vec::new();
                        let mut k: usize = 0;
                        while k < n
                            invariant
                                k <= n,
                                nl@ == hashes(k as int),
                            decreases n - k,
                        {
                            nl.push('#');
                            proof {
                                assert(nl@ =~= hashes(k + 1));
                            }
                            k += 1;
                        }
                        nl.push(' ');
                        extend_all(&mut nl, new_text);
                        proof {
                            assert(nl@ =~= hashes(n as int) + seq![' '] + new_text@);
                        }
                        out.push(nl);
                        found = Some(t);
                        replaced = true;
                    }
                },
                None => {},
            }
        }
        if !replaced {
            let mut copy: Vec<char> = Vec::new();
            extend_all(&mut copy, line);
            out.push(copy);
        }
        proof {
            assert(views(out@) =~= renamed_lines(gl, y@, new_text@, i + 1).0);
        }
        fence = crate::markdown::next_fence(fence, line);
        i += 1;
    }
    (out, found)
}

/// Whether an anchor names the renamed section.
fn anchor_hit_exec(a: &[char], old_slug: &[char], matched: &[char]) -> (r: bool)
    ensures
        r == anchor_hit(a@, old_slug@, matched@),
{
    if crate::paths::same_chars(a, old_slug) || crate::paths::same_chars(a, matched) {
        return true;
    }
    let s = slug_chars(a);
    crate::paths::same_chars(&s, old_slug) || crate::paths::same_chars(&s, matched)
}

/// A `Rewrite` action to the given characters.
fn rewrite_to(v: &[char]) -> (r: LinkRewriteAction)
    ensures
        r@ == ActView::Rewrite(v@),
{
    LinkRewriteAction::Rewrite(string_of(v))
}

/// [`internal_acts`] in exec form.
fn internal_acts_exec(body: &str, old_slug: &[char], matched: &[char], new_slug: &[char]) -> (r: Vec<LinkRewriteAction>)
    ensures
        act_views(r@) == internal_acts(body@, old_slug@, matched@, new_slug@),
        r@.len() == links_in(body@).len(),
{
    let links = crate::markdown::markdown_links(body);
    let ghost sv = links_in(body@);
    let mut acts: Vec<LinkRewriteAction> = Vec::new();
    let mut k: usize = 0;
    while k < links.len()
        invariant
            k <= links.len(),
            sv == links_in(body@),
            links@.len() == sv.len(),
            forall|j: int| 0 <= j < links@.len() ==> link_of_site(#[trigger] links@[j].0, links@[j].1@, sv[j]),
            act_views(acts@) == internal_acts(body@, old_slug@, matched@, new_slug@).take(k as int),
        decreases links.len() - k,
    {
        let l = &links[k].0;
        proof {
            assert(link_of_site(links@[k as int].0, links@[k as int].1@, sv[k as int]));
        }
        let t = chars_of(l.target.as_str());
        let mut a = LinkRewriteAction::Keep;
        match l.kind {
            LinkKind::Anchor => {
                let n = crate::text::run_len_exec(&t, 0, '#');
                proof {
                    crate::text::lemma_run_len_bounds(t@, 0, '#');
                }
                let mut rest: Vec<char> = Vec::new();
                extend_range(&mut rest, &t, n, t.len());
                if anchor_hit_exec(&rest, old_slug, matched) {
                    let mut d: Vec<char> = Vec::new();
                    d.push('#');
                    extend_all(&mut d, new_slug);
                    a = rewrite_to(&d);
                    proof {
                        assert(d@ =~= seq!['#'] + new_slug@);
                    }
                }
            },
            _ => {},
        }
        proof {
            assert(a@ == internal_act(cleaned(sv[k as int].1), old_slug@, matched@, new_slug@));
        }
        let ghost before = act_views(acts@);
        acts.push(a);
        proof {
            assert(act_views(acts@) =~= before.push(a@));
            assert(internal_acts(body@, old_slug@, matched@, new_slug@).take(k + 1) =~= internal_acts(
                body@,
                old_slug@,
                matched@,
                new_slug@,
            ).take(k as int).push(a@));
        }
        k += 1;
    }
    proof {
        assert(internal_acts(body@, old_slug@, matched@, new_slug@).take(k as int) =~= internal_acts(
            body@,
            old_slug@,
            matched@,
            new_slug@,
        ));
        assert(act_views(acts@).len() == acts@.len());
    }
    acts
}

/// [`backlink_acts`] in exec form for the concept at `k`.
fn backlink_acts_exec(
    b: &Bundle,
    from: &ConceptId,
    body: &str,
    id: &ConceptId,
    old_slug: &[char],
    matched: &[char],
    new_slug: &[char],
) -> (r: Vec<LinkRewriteAction>)
    requires
        from.wf(),
    ensures
        act_views(r@) == links_in(body@).map_values(
            |s: (Seq<char>, Seq<char>)| backlink_act(cleaned(s.1), from@, b@.concepts, id@, old_slug@, matched@, new_slug@),
        ),
        r@.len() == links_in(body@).len(),
{
    let ghost want = links_in(body@).map_values(
        |s: (Seq<char>, Seq<char>)| backlink_act(cleaned(s.1), from@, b@.concepts, id@, old_slug@, matched@, new_slug@),
    );
    let links = crate::markdown::markdown_links(body);
    let ghost sv = links_in(body@);
    let mut acts: Vec<LinkRewriteAction> = Vec::new();
    let mut k: usize = 0;
    while k < links.len()
        invariant
            k <= links.len(),
            from.wf(),
            sv == links_in(body@),
            want.len() == sv.len(),
            forall|j: int| 0 <= j < sv.len() ==> #[trigger] want[j] == backlink_act(cleaned(sv[j].1), from@, b@.concepts, id@, old_slug@, matched@, new_slug@),
            links@.len() == sv.len(),
            forall|j: int| 0 <= j < links@.len() ==> link_of_site(#[trigger] links@[j].0, links@[j].1@, sv[j]),
            act_views(acts@) == want.take(k as int),
        decreases links.len() - k,
    {
        let l = &links[k].0;
        proof {
            assert(link_of_site(links@[k as int].0, links@[k as int].1@, sv[k as int]));
        }
        let t = chars_of(l.target.as_str());
        let target = b.resolve_link(from, l.target.as_str());
        let hit = match &target {
            Some(x) => x.same(id),
            None => false,
        };
        let i = crate::markdown::first_index_exec(&t, '#', 0);
        let mut a = LinkRewriteAction::Keep;
        if hit && i < t.len() {
            let mut rest: Vec<char> = Vec::new();
            extend_range(&mut rest, &t, i + 1, t.len());
            if anchor_hit_exec(&rest, old_slug, matched) {
                let mut d: Vec<char> = Vec::new();
                extend_range(&mut d, &t, 0, i);
                d.push('#');
                extend_all(&mut d, new_slug);
                proof {
                    assert(d@ =~= t@.subrange(0, i as int) + seq!['#'] + new_slug@);
                }
                a = rewrite_to(&d);
            }
        }
        proof {
            assert(a@ == want[k as int]);
        }
        let ghost before = act_views(acts@);
        acts.push(a);
        proof {
            assert(act_views(acts@) =~= before.push(a@));
            assert(want.take(k + 1) =~= want.take(k as int).push(a@));
        }
        k += 1;
    }
    proof {
        assert(want.take(k as int) =~= want);
        assert(act_views(acts@).len() == acts@.len());
    }
    acts
}

proof fn lemma_total_changed_push(v: Seq<(int, Seq<char>, int)>, e: (int, Seq<char>, int))
    ensures
        total_changed(v.push(e)) == total_changed(v) + e.2,
{
    assert(v.push(e).drop_last() =~= v);
}

/// The message of a section rename.
fn rename_section_message_exec(
    old_text: &[char],
    new_text: &[char],
    id: &ConceptId,
    internal: usize,
    external: usize,
    author: &Option<String>,
) -> (r: String)
    ensures
        r@ == rename_section_message(old_text@, new_text@, id@, internal as int, external as int, opt_chars(*author)),
{
    let mut m: Vec<char> = Vec::new();
    push_str(&mut m, "Renamed section `");
    extend_all(&mut m, old_text);
    push_str(&mut m, "` to `");
    extend_all(&mut m, new_text);
    push_str(&mut m, "` in concept `");
    push_str(&mut m, id.to_string().as_str());
    push_str(&mut m, "` (updated ");
    extend_all(&mut m, &crate::text::decimal_exec(internal as u64));
    push_str(&mut m, " internal link(s), ");
    extend_all(&mut m, &crate::text::decimal_exec(external as u64));
    push_str(&mut m, " external backlink(s))");
    push_by_suffix(&mut m, author);
    push_str(&mut m, ".");
    proof {
        assert(m@ =~= rename_section_message(old_text@, new_text@, id@, internal as int, external as int, opt_chars(*author)));
    }
    string_of(&m)
}

fn push_by_suffix(m: &mut Vec<char>, author: &Option<String>)
    ensures
        final(m)@ == old(m)@ + by_suffix(opt_chars(*author)),
{
    match author {
        Some(a) => {
            push_str(m, " (by ");
            push_str(m, a.as_str());
            push_str(m, ")");
        },
        None => {},
    }
}

/// The file edits a section rename plans: the concept's own document with
/// its new body, then every other concept whose links to the section
/// changed.
pub open spec fn rename_section_edits(
    root: Seq<char>,
    cs: Seq<ConceptView>,
    id: Seq<Seq<char>>,
    own_body: Seq<char>,
    changes: Seq<(int, Seq<char>, int)>,
) -> Seq<EditView> {
    seq![EditView::Write(path_of(root, id), cs[position_of(cs, id)].fm, own_body)] + change_writes(root, cs, changes)
}

/// Renames a section heading within a concept and updates every anchor
/// link to it: in-document `#anchor` links, and links from other concepts
/// that resolve to this one and carry the old anchor.
///
/// The first heading outside fenced code whose text names `old_section`
/// (ignoring `#`s, ASCII case, `-`/`_` against spaces, or by slug) gets
/// `new_section` as its text, at the same level.
pub fn rename_section(
    bundle: &Bundle,
    concept_id: &ConceptId,
    old_section: &str,
    new_section: &str,
    options: &RenameSectionOptions,
) -> (r: Result<(RenameSectionReport, Plan), RefactorError>)
    ensures
        ({
            let cs = bundle@.concepts;
            let id = concept_id@;
            let y = heading_text(old_section@);
            let nt = heading_text(new_section@);
            let old_slug = slug_of(y);
            let new_slug = slug_of(nt);
            if !has_id(cs, id) {
                r matches Err(RefactorError::ConceptNotFound(e)) && e@ == id
            } else {
                let c = cs[position_of(cs, id)];
                let renamed = renamed_lines(lines(c.body), y, nt, lines(c.body).len() as int);
                match renamed.1 {
                    None => r matches Err(RefactorError::SectionNotFound { concept, section }) && concept@ == id
                        && section@ == old_section@,
                    Some(matched_title) => {
                        let matched = slug_of(matched_title);
                        let text = join_like(renamed.0, c.body);
                        let iacts = internal_acts(text, old_slug, matched, new_slug);
                        let own_body = rewritten(text, iacts);
                        let internal = changed_count(iacts, iacts.len() as int);
                        let changes = section_backlinks(cs, id, old_slug, matched, new_slug, cs.len() as int);
                        let external = sat(total_changed(changes));
                        r matches Ok((rep, plan)) && {
                            &&& rep.concept@ == id
                            &&& rep.old_section@ == y
                            &&& rep.new_section@ == nt
                            &&& rep.old_slug@ == old_slug
                            &&& rep.new_slug@ == new_slug
                            &&& rep.internal_links_updated == internal
                            &&& rep.external_links_updated == external
                            &&& rep.dry_run == options.dry_run
                            &&& crate::concept_id::texts(rep.affected_files@) == seq![path_of(bundle@.root, id)] + change_paths(
                                bundle@.root,
                                cs,
                                changes,
                            )
                            &&& edit_views(plan.edits@) == if options.dry_run {
                                Seq::<EditView>::empty()
                            } else {
                                rename_section_edits(bundle@.root, cs, id, own_body, changes)
                            }
                            &&& match plan.log {
                                Some(note) => !options.dry_run && options.update_log && note.kind@ == "Update"@
                                    && note.message@ == rename_section_message(y, nt, id, internal, external, opt_chars(options.author)),
                                None => options.dry_run || !options.update_log,
                            }
                            &&& !plan.update_index
                        }
                    },
                }
            }
        }),
{
    let cs = bundle.concepts();
    let concept = match bundle.get(concept_id) {
        Some(c) => c,
        None => {
            return Err(RefactorError::ConceptNotFound(concept_id.clone()));
        },
    };
    let y = crate::markdown::heading_text_exec(&chars_of(old_section));
    let nt = crate::markdown::heading_text_exec(&chars_of(new_section));
    let old_slug = slug_chars(&y);
    let new_slug = slug_chars(&nt);
    let body = chars_of(concept.document.body.as_str());
    let (new_lines, found) = rename_heading_lines(&body, &y, &old_slug, &nt);
    let matched_title = match found {
        Some(t) => t,
        None => {
            return Err(
                RefactorError::SectionNotFound { concept: concept_id.clone(), section: string_of(&chars_of(old_section)) },
            );
        },
    };
    let matched = slug_chars(&matched_title);
    let text = string_of(&join_like_exec(&new_lines, &body));
    let iacts = internal_acts_exec(text.as_str(), &old_slug, &matched, &new_slug);
    let (own_body, internal) = crate::markdown::apply_link_actions(text.as_str(), &iacts);
    let root = bundle.root();
    let own_path = concept_id.to_path(root);
    let mut affected: Vec<String> = Vec::new();
    affected.push(own_path.clone());
    let mut edits: Vec<FileEdit> = Vec::new();
    if !options.dry_run {
        let doc = Document::new(concept.document.frontmatter.deep_clone(), own_body);
        edits.push(FileEdit::Write { path: own_path, document: doc });
    }
    let ghost gcs = bundle@.concepts;
    let ghost own = rename_section_edits(bundle@.root, gcs, concept_id@, own_body@, seq![]);
    proof {
        assert(crate::concept_id::texts(affected@) =~= seq![path_of(bundle@.root, concept_id@)]);
        if !options.dry_run {
            assert(edit_views(edits@) =~= own);
        } else {
            assert(edit_views(edits@) =~= Seq::<EditView>::empty());
        }
    }
    let mut external: usize = 0;
    let mut j: usize = 0;
    while j < cs.len()
        invariant
            j <= cs.len(),
            concept_views(cs@) == gcs,
            gcs == bundle@.concepts,
            ids_ok(gcs),
            root@ == bundle@.root,
            external as int == sat(total_changed(section_backlinks(gcs, concept_id@, old_slug@, matched@, new_slug@, j as int))),
            crate::concept_id::texts(affected@) == seq![path_of(bundle@.root, concept_id@)] + change_paths(
                bundle@.root,
                gcs,
                section_backlinks(gcs, concept_id@, old_slug@, matched@, new_slug@, j as int),
            ),
            edit_views(edits@) == if options.dry_run {
                Seq::<EditView>::empty()
            } else {
                own + change_writes(bundle@.root, gcs, section_backlinks(gcs, concept_id@, old_slug@, matched@, new_slug@, j as int))
            },
        decreases cs.len() - j,
    {
        let other = &cs[j];
        proof {
            assert(gcs[j as int] == other@);
            assert(valid_segments(gcs[j as int].id));
        }
        let ghost prev = section_backlinks(gcs, concept_id@, old_slug@, matched@, new_slug@, j as int);
        if !other.id.same(concept_id) {
            let acts = backlink_acts_exec(bundle, &other.id, other.document.body.as_str(), concept_id, &old_slug, &matched, &new_slug);
            proof {
                assert(act_views(acts@) == backlink_acts(other@, gcs, concept_id@, old_slug@, matched@, new_slug@));
            }
            let (nb, count) = crate::markdown::apply_link_actions(other.document.body.as_str(), &acts);
            proof {
                assert(acts@.len() == act_views(acts@).len());
            }
            if count == 0 {
                proof {
                    assert(section_backlinks(gcs, concept_id@, old_slug@, matched@, new_slug@, j + 1) == prev);
                }
            }
            if count > 0 {
                let ghost e = (j as int, nb@, count as int);
                proof {
                    lemma_total_changed_push(prev, e);
                    assert(section_backlinks(gcs, concept_id@, old_slug@, matched@, new_slug@, j + 1) == prev.push(e));
                }
                external = if external <= usize::MAX - count { external + count } else { usize::MAX };
                let p = other.id.to_path(root);
                let ghost old_aff = crate::concept_id::texts(affected@);
                let ghost old_edits = edit_views(edits@);
                let pc = p.clone();
                affected.push(pc);
                proof {
                    assert(crate::concept_id::texts(affected@) =~= old_aff.push(p@));
                    assert(p@ == path_of(bundle@.root, gcs[j as int].id));
                }
                if !options.dry_run {
                    let doc = Document::new(other.document.frontmatter.deep_clone(), nb);
                    let ed = FileEdit::Write { path: p, document: doc };
                    proof {
                        assert(ed@ == EditView::Write(path_of(bundle@.root, gcs[j as int].id), gcs[j as int].fm, nb@));
                    }
                    edits.push(ed);
                    proof {
                        assert(edit_views(edits@) =~= old_edits.push(ed@));
                    }
                }
                proof {
                    assert(change_paths(bundle@.root, gcs, prev.push(e)) =~= change_paths(bundle@.root, gcs, prev).push(
                        path_of(bundle@.root, gcs[j as int].id),
                    ));
                    assert(change_writes(bundle@.root, gcs, prev.push(e)) =~= change_writes(bundle@.root, gcs, prev).push(
                        EditView::Write(path_of(bundle@.root, gcs[j as int].id), gcs[j as int].fm, nb@),
                    ));
                }
            }
        }
        else {
            proof {
                assert(gcs[j as int].id == concept_id@);
                assert(section_backlinks(gcs, concept_id@, old_slug@, matched@, new_slug@, j + 1) == prev);
            }
        }
        j += 1;
    }
    let log = if !options.dry_run && options.update_log {
        let msg = rename_section_message_exec(&y, &nt, concept_id, internal, external, &options.author);
        Some(LogNote { kind: string_of(&chars_of("Update")), message: msg })
    } else {
        None
    };
    let report = RenameSectionReport {
        concept: concept_id.clone(),
        old_section: string_of(&y),
        new_section: string_of(&nt),
        old_slug: string_of(&old_slug),
        new_slug: string_of(&new_slug),
        internal_links_updated: internal,
        external_links_updated: external,
        affected_files: affected,
        dry_run: options.dry_run,
    };
    Ok((report, Plan { edits, log, update_index: false }))
}


// ---------------------------------------------------------------------
// Shared: pointing links and source references at another concept
// ---------------------------------------------------------------------

/// The `#fragment` of a link target, `#` included, or nothing.
pub open spec fn anchor_of(t: Seq<char>) -> Seq<char> {
    t.subrange(first_index(t, '#', 0), t.len() as int)
}

/// The concept a link target written in concept `from` resolves to.
pub open spec fn resolves_to(t: Seq<char>, from: Seq<Seq<char>>, cs: Seq<ConceptView>) -> Option<Seq<Seq<char>>> {
    pick_target(link_candidates(t, from.drop_last()), cs)
}

/// The link `/new.md` to a concept from the bundle root.
pub open spec fn absolute_link(id: Seq<Seq<char>>) -> Seq<char> {
    "/"@ + join_with(id, "/"@) + ".md"@
}

/// The action on a link with target `t`, written in concept `from`, that
/// points it at `new` when it resolves to `old`: an absolute link stays
/// absolute, a relative one is made relative to `from`; the fragment is
/// kept.
pub open spec fn retarget_act(t: Seq<char>, from: Seq<Seq<char>>, cs: Seq<ConceptView>, old: Seq<Seq<char>>, new: Seq<Seq<char>>) -> ActView {
    if resolves_to(t, from, cs) == Some(old) {
        match kind_of(t) {
            LinkKind::Absolute => ActView::Rewrite(absolute_link(new) + anchor_of(t)),
            LinkKind::Relative => ActView::Rewrite(crate::paths::relative_link(from, new) + anchor_of(t)),
            _ => ActView::Keep,
        }
    } else {
        ActView::Keep
    }
}

/// A source entry whose `resource` resolves, from concept `from`, to
/// `old`, with that resource pointed at `new`; `None` for any other item.
pub open spec fn resource_retarget(item: ValueView, from: Seq<Seq<char>>, cs: Seq<ConceptView>, old: Seq<Seq<char>>, new: Seq<Seq<char>>) -> Option<ValueView> {
    match item {
        ValueView::Pairs(m) => match crate::yaml::lookup(m, "resource"@) {
            Some(ValueView::Str(res)) => if resolves_to(res, from, cs) == Some(old) {
                match kind_of(res) {
                    LinkKind::Absolute => Some(ValueView::Pairs(crate::yaml::set_entry(m, "resource"@, ValueView::Str(absolute_link(new))))),
                    LinkKind::Relative => Some(
                        ValueView::Pairs(crate::yaml::set_entry(m, "resource"@, ValueView::Str(crate::paths::relative_link(from, new)))),
                    ),
                    _ => None,
                }
            } else {
                None
            },
            _ => None,
        },
        _ => None,
    }
}

/// An item after [`resource_retarget`].
pub open spec fn item_retargeted(item: ValueView, from: Seq<Seq<char>>, cs: Seq<ConceptView>, old: Seq<Seq<char>>, new: Seq<Seq<char>>) -> ValueView {
    match resource_retarget(item, from, cs, old, new) {
        Some(x) => x,
        None => item,
    }
}

/// Whether one of the first `n` items is retargeted.
pub open spec fn any_retargeted(items: Seq<ValueView>, from: Seq<Seq<char>>, cs: Seq<ConceptView>, old: Seq<Seq<char>>, new: Seq<Seq<char>>, n: int) -> bool
    decreases n,
{
    if n <= 0 {
        false
    } else {
        any_retargeted(items, from, cs, old, new, n - 1) || resource_retarget(items[n - 1], from, cs, old, new) is Some
    }
}

/// A frontmatter with every `sources` entry that refers to `old` pointed
/// at `new`; `None` when no entry refers to `old`.
pub open spec fn fm_retarget(
    fm: Seq<(ValueView, ValueView)>,
    from: Seq<Seq<char>>,
    cs: Seq<ConceptView>,
    old: Seq<Seq<char>>,
    new: Seq<Seq<char>>,
) -> Option<Seq<(ValueView, ValueView)>> {
    match crate::yaml::lookup(fm, "sources"@) {
        Some(ValueView::List(items)) => if any_retargeted(items, from, cs, old, new, items.len() as int) {
            Some(
                crate::yaml::set_entry(
                    fm,
                    "sources"@,
                    ValueView::List(items.map_values(|it: ValueView| item_retargeted(it, from, cs, old, new))),
                ),
            )
        } else {
            None
        },
        _ => None,
    }
}

/// A changed concept as sequences: its position in the bundle, its new
/// frontmatter and body, and how many of its links changed.
pub struct ChangeView {
    pub pos: int,
    pub fm: Seq<(ValueView, ValueView)>,
    pub body: Seq<char>,
    pub count: int,
}

/// The sum of the link counts of a list of changes.
pub open spec fn total_links(v: Seq<ChangeView>) -> int
    decreases v.len(),
{
    if v.len() == 0 {
        0
    } else {
        total_links(v.drop_last()) + v.last().count
    }
}

/// The writes for a list of changed concepts.
pub open spec fn change_edits(root: Seq<char>, cs: Seq<ConceptView>, v: Seq<ChangeView>) -> Seq<EditView> {
    v.map_values(|e: ChangeView| EditView::Write(path_of(root, cs[e.pos].id), e.fm, e.body))
}

/// The paths of a list of changed concepts.
pub open spec fn change_view_paths(root: Seq<char>, cs: Seq<ConceptView>, v: Seq<ChangeView>) -> Seq<Seq<char>> {
    v.map_values(|e: ChangeView| path_of(root, cs[e.pos].id))
}

proof fn lemma_total_links_push(v: Seq<ChangeView>, e: ChangeView)
    ensures
        total_links(v.push(e)) == total_links(v) + e.count,
{
    assert(v.push(e).drop_last() =~= v);
}

/// A link target made absolute to `id`, with the fragment of `t`.
fn absolute_link_exec(id: &ConceptId, t: &[char]) -> (r: Vec<char>)
    ensures
        r@ == absolute_link(id@) + anchor_of(t@),
{
    let mut d: Vec<char> = Vec::new();
    d.push('/');
    push_str(&mut d, id.to_string().as_str());
    push_str(&mut d, ".md");
    let h = crate::markdown::first_index_exec(t, '#', 0);
    extend_range(&mut d, t, h, t.len());
    proof {
        reveal_strlit("/");
        assert(d@ =~= absolute_link(id@) + anchor_of(t@));
    }
    d
}

/// A link target made relative from `from` to `to`, with the fragment of `t`.
fn relative_link_exec(from: &ConceptId, to: &ConceptId, t: &[char]) -> (r: Vec<char>)
    requires
        from.wf(),
        to.wf(),
    ensures
        r@ == crate::paths::relative_link(from@, to@) + anchor_of(t@),
{
    let mut d = chars_of(crate::paths::compute_relative_path(from, to).as_str());
    let h = crate::markdown::first_index_exec(t, '#', 0);
    extend_range(&mut d, t, h, t.len());
    d
}

/// [`retarget_act`] in exec form.
fn retarget_act_exec(b: &Bundle, t: &str, from: &ConceptId, old: &ConceptId, new: &ConceptId) -> (r: LinkRewriteAction)
    requires
        from.wf(),
        new.wf(),
    ensures
        r@ == retarget_act(t@, from@, b@.concepts, old@, new@),
{
    let target = b.resolve_link(from, t);
    let hit = match &target {
        Some(x) => x.same(old),
        None => false,
    };
    if !hit {
        return LinkRewriteAction::Keep;
    }
    let tv = chars_of(t);
    match crate::links::Link::classify(t) {
        LinkKind::Absolute => rewrite_to(&absolute_link_exec(new, &tv)),
        LinkKind::Relative => rewrite_to(&relative_link_exec(from, new, &tv)),
        _ => LinkRewriteAction::Keep,
    }
}

/// [`fm_retarget`] in exec form.
fn fm_retarget_exec(fm: &crate::document::Frontmatter, b: &Bundle, from: &ConceptId, old: &ConceptId, new: &ConceptId) -> (r: Option<crate::document::Frontmatter>)
    requires
        from.wf(),
        new.wf(),
    ensures
        match r {
            Some(f) => fm_retarget(fm@, from@, b@.concepts, old@, new@) == Some(f@),
            None => fm_retarget(fm@, from@, b@.concepts, old@, new@) is None,
        },
{
    let items = match fm.get("sources") {
        Some(crate::yaml::Value::Sequence(items)) => items,
        _ => {
            return None;
        },
    };
    let ghost iv = crate::yaml::vviews(items@, items@.len() as int);
    let ghost want = iv.map_values(|it: ValueView| item_retargeted(it, from@, b@.concepts, old@, new@));
    proof {
        crate::yaml::lemma_vviews_len(items@, items@.len() as int);
    }
    let mut out: Vec<crate::yaml::Value> = Vec::new();
    let mut any = false;
    let mut k: usize = 0;
    while k < items.len()
        invariant
            k <= items.len(),
            from.wf(),
            new.wf(),
            iv == crate::yaml::vviews(items@, items@.len() as int),
            iv.len() == items@.len(),
            want == iv.map_values(|it: ValueView| item_retargeted(it, from@, b@.concepts, old@, new@)),
            out@.len() == k,
            crate::yaml::vviews(out@, k as int) == want.take(k as int),
            any == any_retargeted(iv, from@, b@.concepts, old@, new@, k as int),
        decreases items.len() - k,
    {
        let it = &items[k];
        proof {
            crate::yaml::lemma_vviews_at(items@, k as int);
        }
        let mut next: Option<crate::yaml::Value> = None;
        match it {
            crate::yaml::Value::Mapping(m) => match m.get("resource") {
                Some(crate::yaml::Value::Text(res)) => {
                    let tv = chars_of(res.as_str());
                    let target = b.resolve_link(from, res.as_str());
                    let hit = match &target {
                        Some(x) => x.same(old),
                        None => false,
                    };
                    if hit {
                        let nr: Option<Vec<char>> = match crate::links::Link::classify(res.as_str()) {
                            LinkKind::Absolute => Some(absolute_link_exec(new, &Vec::new())),
                            LinkKind::Relative => Some(chars_of(crate::paths::compute_relative_path(from, new).as_str())),
                            _ => None,
                        };
                        proof {
                            assert(anchor_of(Seq::<char>::empty()) =~= Seq::<char>::empty());
                        }
                        match nr {
                            Some(v) => {
                                let mut m2 = m.deep_clone();
                                m2.insert("resource", crate::yaml::Value::Text(string_of(&v)));
                                proof {
                                    assert(absolute_link(new@) + Seq::<char>::empty() =~= absolute_link(new@));
                                }
                                next = Some(crate::yaml::Value::Mapping(m2));
                            },
                            None => {},
                        }
                    }
                },
                _ => {},
            },
            _ => {},
        }
        let ghost ivk = iv[k as int];
        let v = match next {
            Some(x) => {
                proof {
                    assert(resource_retarget(ivk, from@, b@.concepts, old@, new@) == Some(crate::yaml::vview(x)));
                }
                any = true;
                x
            },
            None => {
                proof {
                    assert(resource_retarget(ivk, from@, b@.concepts, old@, new@) is None);
                }
                it.deep_clone()
            },
        };
        proof {
            assert(crate::yaml::vview(v) == want[k as int]);
            crate::yaml::lemma_vviews_push(out@, v);
            assert(want.take(k + 1) =~= want.take(k as int).push(want[k as int]));
        }
        out.push(v);
        k += 1;
    }
    if !any {
        return None;
    }
    let mut f = fm.deep_clone();
    let n = out.len();
    proof {
        assert(want.take(n as int) =~= want);
    }
    f.set("sources", crate::yaml::Value::Sequence(out));
    Some(f)
}

// ---------------------------------------------------------------------
// Removing a concept
// ---------------------------------------------------------------------

/// Options for removing a concept.
#[derive(Debug)]
pub struct RemoveOptions {
    /// Plan nothing.
    pub dry_run: bool,
    /// Remove even when other concepts link to it.
    pub force: bool,
    /// Point every inbound link at this concept instead.
    pub redirect_to: Option<ConceptId>,
    /// Turn inbound links into plain text.
    pub unlink: bool,
    /// Regenerate `index.md` listings afterwards.
    pub update_index: bool,
    /// Record the removal in `log.md`.
    pub update_log: bool,
    /// Author named in the log entry.
    pub author: Option<String>,
}

impl Default for RemoveOptions {
    fn default() -> (r: RemoveOptions)
        ensures
            !r.dry_run && !r.force && r.redirect_to is None && !r.unlink && r.update_index && r.update_log && r.author is None,
    {
        RemoveOptions {
            dry_run: false,
            force: false,
            redirect_to: None,
            unlink: false,
            update_index: true,
            update_log: true,
            author: None,
        }
    }
}

/// What a removal did.
#[derive(Debug)]
pub struct RemoveReport {
    /// The concept removed.
    pub target: ConceptId,
    /// The file removed.
    pub removed_path: String,
    /// Where inbound links were redirected, if they were.
    pub redirected_to: Option<ConceptId>,
    /// Links pointed at the redirect target.
    pub redirected_count: usize,
    /// Links turned into plain text.
    pub unlinked_count: usize,
    /// The files removed or written.
    pub affected_files: Vec<String>,
    /// Whether this was a dry run.
    pub dry_run: bool,
}

/// The id of an optional concept id.
pub open spec fn opt_id_view(o: Option<ConceptId>) -> Option<Seq<Seq<char>>> {
    match o {
        Some(i) => Some(i@),
        None => None,
    }
}

/// The action on a link with target `t`, written in concept `from`, when
/// `old` is removed: redirected to `redirect` when given, else turned into
/// text when `unlink`, for links that resolve to `old`.
pub open spec fn remove_act(
    t: Seq<char>,
    from: Seq<Seq<char>>,
    cs: Seq<ConceptView>,
    old: Seq<Seq<char>>,
    redirect: Option<Seq<Seq<char>>>,
    unlink: bool,
) -> ActView {
    match redirect {
        Some(r) => retarget_act(t, from, cs, old, r),
        None => if unlink && resolves_to(t, from, cs) == Some(old) {
            ActView::Unlink
        } else {
            ActView::Keep
        },
    }
}

/// The actions on the links of concept `c` when `old` is removed.
pub open spec fn remove_acts(c: ConceptView, cs: Seq<ConceptView>, old: Seq<Seq<char>>, redirect: Option<Seq<Seq<char>>>, unlink: bool) -> Seq<ActView> {
    links_in(c.body).map_values(|s: (Seq<char>, Seq<char>)| remove_act(cleaned(s.1), c.id, cs, old, redirect, unlink))
}

/// The concepts among the first `n` other than `old` and `skip` that a
/// removal changes: links rewritten, or (when redirecting) source
/// references pointed at the redirect target.
pub open spec fn removal_changes(
    cs: Seq<ConceptView>,
    old: Seq<Seq<char>>,
    skip: Seq<Seq<char>>,
    redirect: Option<Seq<Seq<char>>>,
    unlink: bool,
    n: int,
) -> Seq<ChangeView>
    decreases n,
{
    if n <= 0 {
        seq![]
    } else {
        let p = removal_changes(cs, old, skip, redirect, unlink, n - 1);
        let c = cs[n - 1];
        let acts = remove_acts(c, cs, old, redirect, unlink);
        let k = changed_count(acts, acts.len() as int);
        let f = match redirect {
            Some(r) => fm_retarget(c.fm, c.id, cs, old, r),
            None => None,
        };
        if c.id != old && c.id != skip && (k > 0 || f is Some) {
            p.push(
                ChangeView {
                    pos: n - 1,
                    fm: match f {
                        Some(x) => x,
                        None => c.fm,
                    },
                    body: if k > 0 {
                        rewritten(c.body, acts)
                    } else {
                        c.body
                    },
                    count: k,
                },
            )
        } else {
            p
        }
    }
}

/// The log entry of a removal.
pub open spec fn remove_message(old: Seq<Seq<char>>, redirect: Option<Seq<Seq<char>>>, unlink: bool, count: int) -> Seq<char> {
    match redirect {
        Some(r) => "Removed concept `"@ + join_with(old, "/"@) + "` (redirected "@ + crate::text::decimal(count as nat)
            + " inbound links to `"@ + join_with(r, "/"@) + "`)."@,
        None => if unlink {
            "Removed concept `"@ + join_with(old, "/"@) + "` (unlinked "@ + crate::text::decimal(count as nat) + " inbound links)."@
        } else {
            "Removed concept `"@ + join_with(old, "/"@) + "`."@
        },
    }
}

fn remove_message_exec(old: &ConceptId, redirect: &Option<ConceptId>, unlink: bool, count: usize) -> (r: String)
    ensures
        r@ == remove_message(old@, opt_id_view(*redirect), unlink, count as int),
{
    let mut m: Vec<char> = Vec::new();
    push_str(&mut m, "Removed concept `");
    push_str(&mut m, old.to_string().as_str());
    match redirect {
        Some(r) => {
            push_str(&mut m, "` (redirected ");
            extend_all(&mut m, &crate::text::decimal_exec(count as u64));
            push_str(&mut m, " inbound links to `");
            push_str(&mut m, r.to_string().as_str());
            push_str(&mut m, "`).");
        },
        None => {
            if unlink {
                push_str(&mut m, "` (unlinked ");
                extend_all(&mut m, &crate::text::decimal_exec(count as u64));
                push_str(&mut m, " inbound links).");
            } else {
                push_str(&mut m, "`.");
            }
        },
    }
    proof {
        assert(m@ =~= remove_message(old@, opt_id_view(*redirect), unlink, count as int));
    }
    string_of(&m)
}

/// [`remove_acts`] in exec form.
fn remove_acts_exec(b: &Bundle, c: &crate::bundle::Concept, old: &ConceptId, redirect: &Option<ConceptId>, unlink: bool) -> (r: Vec<LinkRewriteAction>)
    requires
        c.id.wf(),
        redirect matches Some(x) ==> x.wf(),
    ensures
        act_views(r@) == remove_acts(c@, b@.concepts, old@, opt_id_view(*redirect), unlink),
        r@.len() == links_in(c@.body).len(),
{
    let body = c.document.body.as_str();
    let ghost want = remove_acts(c@, b@.concepts, old@, opt_id_view(*redirect), unlink);
    let links = crate::markdown::markdown_links(body);
    let ghost sv = links_in(body@);
    let mut acts: Vec<LinkRewriteAction> = Vec::new();
    let mut k: usize = 0;
    while k < links.len()
        invariant
            k <= links.len(),
            c.id.wf(),
            redirect matches Some(x) ==> x.wf(),
            sv == links_in(body@),
            body@ == c@.body,
            want == remove_acts(c@, b@.concepts, old@, opt_id_view(*redirect), unlink),
            links@.len() == sv.len(),
            forall|j: int| 0 <= j < links@.len() ==> link_of_site(#[trigger] links@[j].0, links@[j].1@, sv[j]),
            act_views(acts@) == want.take(k as int),
        decreases links.len() - k,
    {
        let l = &links[k].0;
        proof {
            assert(link_of_site(links@[k as int].0, links@[k as int].1@, sv[k as int]));
        }
        let t = l.target.as_str();
        let a = match redirect {
            Some(r) => retarget_act_exec(b, t, &c.id, old, r),
            None => {
                if unlink {
                    let target = b.resolve_link(&c.id, t);
                    let hit = match &target {
                        Some(x) => x.same(old),
                        None => false,
                    };
                    if hit { LinkRewriteAction::Unlink } else { LinkRewriteAction::Keep }
                } else {
                    LinkRewriteAction::Keep
                }
            },
        };
        proof {
            assert(a@ == want[k as int]);
        }
        let ghost before = act_views(acts@);
        acts.push(a);
        proof {
            assert(act_views(acts@) =~= before.push(a@));
            assert(want.take(k + 1) =~= want.take(k as int).push(a@));
        }
        k += 1;
    }
    proof {
        assert(want.take(k as int) =~= want);
        assert(act_views(acts@).len() == acts@.len());
    }
    acts
}

/// The plan of a removal: the file removed, then each changed concept.
pub open spec fn remove_edits(root: Seq<char>, cs: Seq<ConceptView>, old: Seq<Seq<char>>, changes: Seq<ChangeView>) -> Seq<EditView> {
    seq![EditView::Remove(path_of(root, old))] + change_edits(root, cs, changes)
}

/// The ids of `s` other than `x`, in order.
pub open spec fn other_ids(s: Seq<Seq<Seq<char>>>, x: Seq<Seq<char>>) -> Seq<Seq<Seq<char>>>
    decreases s.len(),
{
    if s.len() == 0 {
        seq![]
    } else if s.last() == x {
        other_ids(s.drop_last(), x)
    } else {
        other_ids(s.drop_last(), x).push(s.last())
    }
}

/// The concepts that link to `t`, other than `t` itself.
pub open spec fn inbound_others(cs: Seq<ConceptView>, t: Seq<Seq<char>>) -> Seq<Seq<Seq<char>>> {
    other_ids(crate::bundle::backlinks_upto(cs, t, cs.len() as int), t)
}

/// The ids of `v` other than `target`, in order.
fn others_than(v: &Vec<ConceptId>, target: &ConceptId) -> (r: Vec<ConceptId>)
    ensures
        crate::bundle::id_views(r@) == other_ids(crate::bundle::id_views(v@), target@),
{
    let ghost all = crate::bundle::id_views(v@);
    let mut out: Vec<ConceptId> = Vec::new();
    let mut i: usize = 0;
    while i < v.len()
        invariant
            i <= v.len(),
            all == crate::bundle::id_views(v@),
            crate::bundle::id_views(out@) == other_ids(all.take(i as int), target@),
        decreases v.len() - i,
    {
        proof {
            assert(all.take(i + 1).drop_last() =~= all.take(i as int));
            assert(all.take(i + 1).last() == v@[i as int]@);
        }
        if !v[i].same(target) {
            let c = v[i].clone();
            out.push(c);
            proof {
                assert(crate::bundle::id_views(out@) =~= other_ids(all.take(i as int), target@).push(v@[i as int]@));
            }
        }
        i += 1;
    }
    proof {
        assert(all.take(v.len() as int) =~= all);
    }
    out
}

/// Removes a concept. When other concepts link to it, the removal is
/// refused unless `force`, `redirect_to` or `unlink` is given; with
/// `redirect_to` every link to it (and every `sources` reference to it)
/// is pointed at the new concept, with `unlink` every link to it becomes
/// plain text.
pub fn remove_concept(bundle: &Bundle, target: &ConceptId, options: &RemoveOptions) -> (r: Result<(RemoveReport, Plan), RefactorError>)
    requires
        options.redirect_to matches Some(x) ==> x.wf(),
    ensures
        ({
            let cs = bundle@.concepts;
            let old = target@;
            let inbound = inbound_others(cs, old);
            let redirect = opt_id_view(options.redirect_to);
            if !has_id(cs, old) {
                r matches Err(RefactorError::ConceptNotFound(e)) && e@ == old
            } else if inbound.len() > 0 && !options.force && redirect is None && !options.unlink {
                r matches Err(RefactorError::HasInboundLinks { target: t, inbound_count, inbound_concepts }) && t@ == old
                    && inbound_count == inbound.len() && crate::bundle::id_views(inbound_concepts@) == inbound
            } else {
                let changes = if redirect is Some || options.unlink {
                    removal_changes(cs, old, old, redirect, options.unlink, cs.len() as int)
                } else {
                    Seq::<ChangeView>::empty()
                };
                let count = sat(total_links(changes));
                r matches Ok((rep, plan)) && {
                    &&& rep.target@ == old
                    &&& rep.removed_path@ == path_of(bundle@.root, old)
                    &&& opt_id_view(rep.redirected_to) == redirect
                    &&& rep.redirected_count == (if redirect is Some { count } else { 0 })
                    &&& rep.unlinked_count == (if redirect is None { count } else { 0 })
                    &&& rep.dry_run == options.dry_run
                    &&& crate::concept_id::texts(rep.affected_files@) == seq![path_of(bundle@.root, old)] + change_view_paths(bundle@.root, cs, changes)
                    &&& edit_views(plan.edits@) == if options.dry_run {
                        Seq::<EditView>::empty()
                    } else {
                        remove_edits(bundle@.root, cs, old, changes)
                    }
                    &&& match plan.log {
                        Some(note) => !options.dry_run && options.update_log && note.kind@ == "Update"@
                            && note.message@ == remove_message(old, redirect, options.unlink, count),
                        None => options.dry_run || !options.update_log,
                    }
                    &&& plan.update_index == (!options.dry_run && options.update_index)
                }
            }
        }),
{
    if !bundle.contains(target) {
        return Err(RefactorError::ConceptNotFound(target.clone()));
    }
    let linking = bundle.backlinks(target);
    let inbound = others_than(&linking, target);
    proof {
        assert(crate::bundle::id_views(inbound@).len() == inbound@.len());
    }
    if inbound.len() > 0 && !options.force && options.redirect_to.is_none() && !options.unlink {
        return Err(RefactorError::HasInboundLinks { target: target.clone(), inbound_count: inbound.len(), inbound_concepts: inbound });
    }
    let cs = bundle.concepts();
    let ghost gcs = bundle@.concepts;
    let ghost redirect = opt_id_view(options.redirect_to);
    let root = bundle.root();
    let target_path = target.to_path(root);
    let mut affected: Vec<String> = Vec::new();
    affected.push(target_path.clone());
    let mut edits: Vec<FileEdit> = Vec::new();
    if !options.dry_run {
        edits.push(FileEdit::Remove { path: target_path.clone() });
    }
    let ghost head = seq![EditView::Remove(path_of(bundle@.root, target@))];
    proof {
        assert(crate::concept_id::texts(affected@) =~= seq![path_of(bundle@.root, target@)]);
        if !options.dry_run {
            assert(edit_views(edits@) =~= head);
        } else {
            assert(edit_views(edits@) =~= Seq::<EditView>::empty());
        }
    }
    let mut count: usize = 0;
    if options.redirect_to.is_some() || options.unlink {
        let mut j: usize = 0;
        while j < cs.len()
            invariant
                j <= cs.len(),
                concept_views(cs@) == gcs,
                gcs == bundle@.concepts,
                ids_ok(gcs),
                root@ == bundle@.root,
                redirect == opt_id_view(options.redirect_to),
                options.redirect_to matches Some(x) ==> x.wf(),
                count as int == sat(total_links(removal_changes(gcs, target@, target@, redirect, options.unlink, j as int))),
                crate::concept_id::texts(affected@) == seq![path_of(bundle@.root, target@)] + change_view_paths(
                    bundle@.root,
                    gcs,
                    removal_changes(gcs, target@, target@, redirect, options.unlink, j as int),
                ),
                edit_views(edits@) == if options.dry_run {
                    Seq::<EditView>::empty()
                } else {
                    head + change_edits(bundle@.root, gcs, removal_changes(gcs, target@, target@, redirect, options.unlink, j as int))
                },
            decreases cs.len() - j,
        {
            let other = &cs[j];
            proof {
                assert(gcs[j as int] == other@);
                assert(valid_segments(gcs[j as int].id));
            }
            let ghost prev = removal_changes(gcs, target@, target@, redirect, options.unlink, j as int);
            if !other.id.same(target) {
                let acts = remove_acts_exec(bundle, other, target, &options.redirect_to, options.unlink);
                let (nb, k) = crate::markdown::apply_link_actions(other.document.body.as_str(), &acts);
                let f = match &options.redirect_to {
                    Some(r) => fm_retarget_exec(&other.document.frontmatter, bundle, &other.id, target, r),
                    None => None,
                };
                if k > 0 || f.is_some() {
                    let new_fm = match f {
                        Some(x) => x,
                        None => other.document.frontmatter.deep_clone(),
                    };
                    let new_body = if k > 0 { nb } else { other.document.body.clone() };
                    let ghost e = ChangeView { pos: j as int, fm: new_fm@, body: new_body@, count: k as int };
                    proof {
                        lemma_total_links_push(prev, e);
                        assert(removal_changes(gcs, target@, target@, redirect, options.unlink, j + 1) == prev.push(e));
                    }
                    count = if count <= usize::MAX - k { count + k } else { usize::MAX };
                    let p = other.id.to_path(root);
                    let ghost old_aff = crate::concept_id::texts(affected@);
                    let ghost old_edits = edit_views(edits@);
                    affected.push(p.clone());
                    proof {
                        assert(crate::concept_id::texts(affected@) =~= old_aff.push(p@));
                        assert(change_view_paths(bundle@.root, gcs, prev.push(e)) =~= change_view_paths(bundle@.root, gcs, prev).push(p@));
                    }
                    if !options.dry_run {
                        let ed = FileEdit::Write { path: p, document: Document::new(new_fm, new_body) };
                        edits.push(ed);
                        proof {
                            assert(edit_views(edits@) =~= old_edits.push(ed@));
                            assert(change_edits(bundle@.root, gcs, prev.push(e)) =~= change_edits(bundle@.root, gcs, prev).push(ed@));
                        }
                    }
                } else {
                    proof {
                        assert(removal_changes(gcs, target@, target@, redirect, options.unlink, j + 1) == prev);
                    }
                }
            } else {
                proof {
                    assert(removal_changes(gcs, target@, target@, redirect, options.unlink, j + 1) == prev);
                }
            }
            j += 1;
        }
    } else {
        proof {
            assert(change_view_paths(bundle@.root, gcs, Seq::<ChangeView>::empty()) =~= Seq::<Seq<char>>::empty());
            assert(change_edits(bundle@.root, gcs, Seq::<ChangeView>::empty()) =~= Seq::<EditView>::empty());
            assert(crate::concept_id::texts(affected@) =~= seq![path_of(bundle@.root, target@)] + Seq::<Seq<char>>::empty());
            assert(head + Seq::<EditView>::empty() =~= head);
        }
    }
    let redirected_count = if options.redirect_to.is_some() { count } else { 0 };
    let unlinked_count = if options.redirect_to.is_none() { count } else { 0 };
    let log = if !options.dry_run && options.update_log {
        let msg = remove_message_exec(target, &options.redirect_to, options.unlink, count);
        Some(LogNote { kind: string_of(&chars_of("Update")), message: msg })
    } else {
        None
    };
    let redirected_to = match &options.redirect_to {
        Some(x) => Some(x.clone()),
        None => None,
    };
    let report = RemoveReport {
        target: target.clone(),
        removed_path: target_path,
        redirected_to,
        redirected_count,
        unlinked_count,
        affected_files: affected,
        dry_run: options.dry_run,
    };
    Ok((report, Plan { edits, log, update_index: !options.dry_run && options.update_index }))
}


// ---------------------------------------------------------------------
// Moving a concept
// ---------------------------------------------------------------------

/// Options for moving or renaming a concept.
#[derive(Debug)]
pub struct MoveOptions {
    /// Plan nothing.
    pub dry_run: bool,
    /// Overwrite the destination when a concept is there.
    pub force: bool,
    /// Regenerate `index.md` listings afterwards.
    pub update_index: bool,
    /// Record the move in `log.md`.
    pub update_log: bool,
    /// Author named in the log entry.
    pub author: Option<String>,
}

impl Default for MoveOptions {
    fn default() -> (r: MoveOptions)
        ensures
            !r.dry_run && !r.force && r.update_index && r.update_log && r.author is None,
    {
        MoveOptions { dry_run: false, force: false, update_index: true, update_log: true, author: None }
    }
}

/// What a move did.
#[derive(Debug)]
pub struct MoveReport {
    /// The old id.
    pub source: ConceptId,
    /// The new id.
    pub target: ConceptId,
    /// The old file.
    pub source_path: String,
    /// The new file.
    pub target_path: String,
    /// Links from other concepts pointed at the new place.
    pub rewritten_incoming_links: usize,
    /// Relative links of the moved concept rebased.
    pub rebased_outgoing_links: usize,
    /// Frontmatter paths of the moved concept rebased.
    pub rebased_frontmatter_paths: usize,
    /// The files written or removed.
    pub affected_files: Vec<String>,
    /// Whether this was a dry run.
    pub dry_run: bool,
}

/// The action on a relative link with target `t` of a concept that moves
/// from `source` to `target`: a link to a concept is made relative to the
/// new place, a link to any other file is rebased onto the new directory.
pub open spec fn move_out_act(t: Seq<char>, source: Seq<Seq<char>>, target: Seq<Seq<char>>, cs: Seq<ConceptView>) -> ActView {
    if kind_of(t) is Relative {
        match resolves_to(t, source, cs) {
            Some(d) => ActView::Rewrite(crate::paths::relative_link(target, d) + anchor_of(t)),
            None => ActView::Rewrite(crate::paths::rebased(source.drop_last(), target.drop_last(), t)),
        }
    } else {
        ActView::Keep
    }
}

/// The actions on the links of a concept that moves from `source` to `target`.
pub open spec fn move_out_acts(body: Seq<char>, source: Seq<Seq<char>>, target: Seq<Seq<char>>, cs: Seq<ConceptView>) -> Seq<ActView> {
    links_in(body).map_values(|s: (Seq<char>, Seq<char>)| move_out_act(cleaned(s.1), source, target, cs))
}

/// A mapping whose `resource` is a relative path, with it rebased from
/// directory `od` to `nd`.
pub open spec fn resource_rebased(v: ValueView, od: Seq<Seq<char>>, nd: Seq<Seq<char>>) -> Option<ValueView> {
    match v {
        ValueView::Pairs(m) => match crate::yaml::lookup(m, "resource"@) {
            Some(ValueView::Str(res)) => if kind_of(res) is Relative {
                Some(ValueView::Pairs(crate::yaml::set_entry(m, "resource"@, ValueView::Str(crate::paths::rebased(od, nd, res)))))
            } else {
                None
            },
            _ => None,
        },
        _ => None,
    }
}

/// The frontmatter with a relative `computation` path rebased.
pub open spec fn rebased_computation(fm: Seq<(ValueView, ValueView)>, od: Seq<Seq<char>>, nd: Seq<Seq<char>>) -> Option<Seq<(ValueView, ValueView)>> {
    match crate::yaml::lookup(fm, "computation"@) {
        Some(ValueView::Str(c)) => if kind_of(c) is Relative {
            Some(crate::yaml::set_entry(fm, "computation"@, ValueView::Str(crate::paths::rebased(od, nd, c))))
        } else {
            None
        },
        _ => None,
    }
}

/// The frontmatter with the relative `resource` of the mapping under `key` rebased.
pub open spec fn rebased_field(fm: Seq<(ValueView, ValueView)>, key: Seq<char>, od: Seq<Seq<char>>, nd: Seq<Seq<char>>) -> Option<Seq<(ValueView, ValueView)>> {
    match crate::yaml::lookup(fm, key) {
        Some(v) => match resource_rebased(v, od, nd) {
            Some(v2) => Some(crate::yaml::set_entry(fm, key, v2)),
            None => None,
        },
        None => None,
    }
}

/// An item after [`resource_rebased`].
pub open spec fn item_rebased(v: ValueView, od: Seq<Seq<char>>, nd: Seq<Seq<char>>) -> ValueView {
    match resource_rebased(v, od, nd) {
        Some(x) => x,
        None => v,
    }
}

/// How many of the first `n` items have a relative `resource`.
pub open spec fn rebased_items(items: Seq<ValueView>, od: Seq<Seq<char>>, nd: Seq<Seq<char>>, n: int) -> int
    decreases n,
{
    if n <= 0 {
        0
    } else {
        rebased_items(items, od, nd, n - 1) + if resource_rebased(items[n - 1], od, nd) is Some {
            1int
        } else {
            0int
        }
    }
}

/// The frontmatter with the relative `resource` of every `sources` entry rebased.
pub open spec fn rebased_sources(fm: Seq<(ValueView, ValueView)>, od: Seq<Seq<char>>, nd: Seq<Seq<char>>) -> Option<(Seq<(ValueView, ValueView)>, int)> {
    match crate::yaml::lookup(fm, "sources"@) {
        Some(ValueView::List(items)) => Some(
            (
                crate::yaml::set_entry(fm, "sources"@, ValueView::List(items.map_values(|v: ValueView| item_rebased(v, od, nd)))),
                rebased_items(items, od, nd, items.len() as int),
            ),
        ),
        _ => None,
    }
}

/// A frontmatter step's result, or the frontmatter unchanged.
pub open spec fn or_same(fm: Seq<(ValueView, ValueView)>, o: Option<Seq<(ValueView, ValueView)>>) -> Seq<(ValueView, ValueView)> {
    match o {
        Some(x) => x,
        None => fm,
    }
}

/// The frontmatter of a concept moved from directory `od` to `nd`, with
/// the number of paths rebased: `computation`, `executor.resource`,
/// `attester.resource` and each `sources[].resource`, when relative.
pub open spec fn moved_fm(fm: Seq<(ValueView, ValueView)>, od: Seq<Seq<char>>, nd: Seq<Seq<char>>) -> (Seq<(ValueView, ValueView)>, int) {
    let c = rebased_computation(fm, od, nd);
    let f1 = or_same(fm, c);
    let e = rebased_field(f1, "executor"@, od, nd);
    let f2 = or_same(f1, e);
    let a = rebased_field(f2, "attester"@, od, nd);
    let f3 = or_same(f2, a);
    let n = (if c is Some { 1int } else { 0int }) + (if e is Some { 1int } else { 0int }) + (if a is Some { 1int } else { 0int });
    match rebased_sources(f3, od, nd) {
        Some((f4, k)) => (f4, n + k),
        None => (f3, n),
    }
}

/// [`resource_rebased`] in exec form, on a value.
fn resource_rebased_exec(v: &crate::yaml::Value, od: &Vec<String>, nd: &Vec<String>) -> (r: Option<crate::yaml::Value>)
    ensures
        match r {
            Some(x) => resource_rebased(crate::yaml::vview(*v), crate::concept_id::texts(od@), crate::concept_id::texts(nd@)) == Some(crate::yaml::vview(x)),
            None => resource_rebased(crate::yaml::vview(*v), crate::concept_id::texts(od@), crate::concept_id::texts(nd@)) is None,
        },
{
    match v {
        crate::yaml::Value::Mapping(m) => match m.get("resource") {
            Some(crate::yaml::Value::Text(res)) => {
                match crate::links::Link::classify(res.as_str()) {
                    LinkKind::Relative => {
                        let nr = crate::paths::rebase_relative_path(od, nd, res.as_str());
                        let mut m2 = m.deep_clone();
                        m2.insert("resource", crate::yaml::Value::Text(nr));
                        Some(crate::yaml::Value::Mapping(m2))
                    },
                    _ => None,
                }
            },
            _ => None,
        },
        _ => None,
    }
}

/// [`rebased_field`] in exec form.
fn rebase_field_exec(fm: &mut crate::document::Frontmatter, key: &str, od: &Vec<String>, nd: &Vec<String>) -> (r: bool)
    ensures
        r == rebased_field(old(fm)@, key@, crate::concept_id::texts(od@), crate::concept_id::texts(nd@)) is Some,
        final(fm)@ == or_same(old(fm)@, rebased_field(old(fm)@, key@, crate::concept_id::texts(od@), crate::concept_id::texts(nd@))),
{
    let next = match fm.get(key) {
        Some(v) => resource_rebased_exec(v, od, nd),
        None => None,
    };
    match next {
        Some(x) => {
            fm.set(key, x);
            true
        },
        None => false,
    }
}

/// [`moved_fm`] in exec form.
fn moved_fm_exec(fm: &crate::document::Frontmatter, od: &Vec<String>, nd: &Vec<String>) -> (r: (crate::document::Frontmatter, usize))
    ensures
        moved_fm(fm@, crate::concept_id::texts(od@), crate::concept_id::texts(nd@)).0 == r.0@,
        sat(moved_fm(fm@, crate::concept_id::texts(od@), crate::concept_id::texts(nd@)).1) == r.1 as int,
{
    let ghost odv = crate::concept_id::texts(od@);
    let ghost ndv = crate::concept_id::texts(nd@);
    let mut f = fm.deep_clone();
    let mut n: usize = 0;
    let comp = match f.get("computation") {
        Some(crate::yaml::Value::Text(c)) => match crate::links::Link::classify(c.as_str()) {
            LinkKind::Relative => Some(crate::paths::rebase_relative_path(od, nd, c.as_str())),
            _ => None,
        },
        _ => None,
    };
    match comp {
        Some(c) => {
            f.set("computation", crate::yaml::Value::Text(c));
            n = n + 1;
        },
        None => {},
    }
    proof {
        assert(f@ == or_same(fm@, rebased_computation(fm@, odv, ndv)));
    }
    if rebase_field_exec(&mut f, "executor", od, nd) {
        n = n + 1;
    }
    if rebase_field_exec(&mut f, "attester", od, nd) {
        n = n + 1;
    }
    let ghost f3 = f@;
    let items_opt = match f.get("sources") {
        Some(crate::yaml::Value::Sequence(items)) => {
            let ghost iv = crate::yaml::vviews(items@, items@.len() as int);
            proof {
                crate::yaml::lemma_vviews_len(items@, items@.len() as int);
            }
            let mut out: Vec<crate::yaml::Value> = Vec::new();
            let mut k: usize = 0;
            let mut cnt: usize = 0;
            while k < items.len()
                invariant
                    k <= items.len(),
                    iv == crate::yaml::vviews(items@, items@.len() as int),
                    iv.len() == items@.len(),
                    odv == crate::concept_id::texts(od@),
                    ndv == crate::concept_id::texts(nd@),
                    out@.len() == k,
                    crate::yaml::vviews(out@, k as int) == iv.map_values(|v: ValueView| item_rebased(v, odv, ndv)).take(k as int),
                    cnt == rebased_items(iv, odv, ndv, k as int),
                    cnt <= k,
                decreases items.len() - k,
            {
                proof {
                    crate::yaml::lemma_vviews_at(items@, k as int);
                }
                let it = &items[k];
                let rr = resource_rebased_exec(it, od, nd);
                proof {
                    assert(iv[k as int] == crate::yaml::vview(*it));
                }
                let v = match rr {
                    Some(x) => {
                        proof {
                            assert(resource_rebased(iv[k as int], odv, ndv) == Some(crate::yaml::vview(x)));
                        }
                        cnt = cnt + 1;
                        x
                    },
                    None => {
                        proof {
                            assert(resource_rebased(iv[k as int], odv, ndv) is None);
                        }
                        it.deep_clone()
                    },
                };
                proof {
                    assert(crate::yaml::vview(v) == item_rebased(iv[k as int], odv, ndv));
                    crate::yaml::lemma_vviews_push(out@, v);
                    let w = iv.map_values(|v: ValueView| item_rebased(v, odv, ndv));
                    assert(w.take(k + 1) =~= w.take(k as int).push(w[k as int]));
                }
                out.push(v);
                k += 1;
            }
            proof {
                let w = iv.map_values(|v: ValueView| item_rebased(v, odv, ndv));
                assert(w.take(k as int) =~= w);
            }
            Some((out, cnt))
        },
        _ => None,
    };
    match items_opt {
        Some((out, cnt)) => {
            f.set("sources", crate::yaml::Value::Sequence(out));
            n = if n <= usize::MAX - cnt { n + cnt } else { usize::MAX };
        },
        None => {},
    }
    (f, n)
}

/// [`move_out_acts`] in exec form.
fn move_out_acts_exec(b: &Bundle, body: &str, source: &ConceptId, target: &ConceptId) -> (r: Vec<LinkRewriteAction>)
    requires
        source.wf(),
        target.wf(),
    ensures
        act_views(r@) == move_out_acts(body@, source@, target@, b@.concepts),
        r@.len() == links_in(body@).len(),
{
    let ghost want = move_out_acts(body@, source@, target@, b@.concepts);
    let links = crate::markdown::markdown_links(body);
    let ghost sv = links_in(body@);
    let sd = source.dir();
    let td = target.dir();
    let mut acts: Vec<LinkRewriteAction> = Vec::new();
    let mut k: usize = 0;
    while k < links.len()
        invariant
            k <= links.len(),
            source.wf(),
            target.wf(),
            sv == links_in(body@),
            crate::concept_id::texts(sd@) == source@.drop_last(),
            crate::concept_id::texts(td@) == target@.drop_last(),
            want == move_out_acts(body@, source@, target@, b@.concepts),
            links@.len() == sv.len(),
            forall|j: int| 0 <= j < links@.len() ==> link_of_site(#[trigger] links@[j].0, links@[j].1@, sv[j]),
            act_views(acts@) == want.take(k as int),
        decreases links.len() - k,
    {
        let l = &links[k].0;
        proof {
            assert(link_of_site(links@[k as int].0, links@[k as int].1@, sv[k as int]));
        }
        let t = l.target.as_str();
        let a = match l.kind {
            LinkKind::Relative => match b.resolve_link(source, t) {
                Some(d) => rewrite_to(&relative_link_exec(target, &d, &chars_of(t))),
                None => rewrite_to(&chars_of(crate::paths::rebase_relative_path(&sd, &td, t).as_str())),
            },
            _ => LinkRewriteAction::Keep,
        };
        proof {
            assert(a@ == want[k as int]);
        }
        let ghost before = act_views(acts@);
        acts.push(a);
        proof {
            assert(act_views(acts@) =~= before.push(a@));
            assert(want.take(k + 1) =~= want.take(k as int).push(a@));
        }
        k += 1;
    }
    proof {
        assert(want.take(k as int) =~= want);
        assert(act_views(acts@).len() == acts@.len());
    }
    acts
}

/// The log entry of a move.
pub open spec fn move_message(source: Seq<Seq<char>>, target: Seq<Seq<char>>, incoming: int, outgoing: int, author: Option<Seq<char>>) -> Seq<char> {
    "Renamed concept `"@ + join_with(source, "/"@) + "` to `"@ + join_with(target, "/"@) + "` (rewrote "@
        + crate::text::decimal(incoming as nat) + " incoming links, rebased "@ + crate::text::decimal(outgoing as nat)
        + " outgoing links)"@ + by_suffix(author) + "."@
}

fn move_message_exec(source: &ConceptId, target: &ConceptId, incoming: usize, outgoing: usize, author: &Option<String>) -> (r: String)
    ensures
        r@ == move_message(source@, target@, incoming as int, outgoing as int, opt_chars(*author)),
{
    let mut m: Vec<char> = Vec::new();
    push_str(&mut m, "Renamed concept `");
    push_str(&mut m, source.to_string().as_str());
    push_str(&mut m, "` to `");
    push_str(&mut m, target.to_string().as_str());
    push_str(&mut m, "` (rewrote ");
    extend_all(&mut m, &crate::text::decimal_exec(incoming as u64));
    push_str(&mut m, " incoming links, rebased ");
    extend_all(&mut m, &crate::text::decimal_exec(outgoing as u64));
    push_str(&mut m, " outgoing links)");
    push_by_suffix(&mut m, author);
    push_str(&mut m, ".");
    proof {
        assert(m@ =~= move_message(source@, target@, incoming as int, outgoing as int, opt_chars(*author)));
    }
    string_of(&m)
}

/// The changed concepts other than `from_id` and `skip` when every link and
/// source reference to `old` is pointed at `new`, computed concept by
/// concept; with the paths, edits and count collected.
fn retarget_all(
    bundle: &Bundle,
    from_id: &ConceptId,
    new: &ConceptId,
    skip: &ConceptId,
    dry_run: bool,
    affected: &mut Vec<String>,
    edits: &mut Vec<FileEdit>,
) -> (count: usize)
    requires
        new.wf(),
    ensures
        count as int == sat(total_links(removal_changes(bundle@.concepts, from_id@, skip@, Some(new@), false, bundle@.concepts.len() as int))),
        crate::concept_id::texts(final(affected)@) == crate::concept_id::texts(old(affected)@) + change_view_paths(
            bundle@.root,
            bundle@.concepts,
            removal_changes(bundle@.concepts, from_id@, skip@, Some(new@), false, bundle@.concepts.len() as int),
        ),
        edit_views(final(edits)@) == edit_views(old(edits)@) + if dry_run {
            Seq::<EditView>::empty()
        } else {
            change_edits(bundle@.root, bundle@.concepts, removal_changes(bundle@.concepts, from_id@, skip@, Some(new@), false, bundle@.concepts.len() as int))
        },
{
    let cs = bundle.concepts();
    let ghost gcs = bundle@.concepts;
    let ghost redirect = Some(new@);
    let ghost aff0 = crate::concept_id::texts(affected@);
    let ghost ed0 = edit_views(edits@);
    let root = bundle.root();
    let redirect_to = Some(new.clone());
    let mut count: usize = 0;
    let mut j: usize = 0;
    proof {
        assert(aff0 + change_view_paths(bundle@.root, gcs, Seq::<ChangeView>::empty()) =~= aff0);
        assert(ed0 + change_edits(bundle@.root, gcs, Seq::<ChangeView>::empty()) =~= ed0);
        assert(ed0 + Seq::<EditView>::empty() =~= ed0);
    }
    while j < cs.len()
        invariant
            j <= cs.len(),
            concept_views(cs@) == gcs,
            gcs == bundle@.concepts,
            ids_ok(gcs),
            root@ == bundle@.root,
            new.wf(),
            redirect == Some(new@),
            opt_id_view(redirect_to) == redirect,
            redirect_to matches Some(x) ==> x.wf(),
            count as int == sat(total_links(removal_changes(gcs, from_id@, skip@, redirect, false, j as int))),
            crate::concept_id::texts(affected@) == aff0 + change_view_paths(bundle@.root, gcs, removal_changes(gcs, from_id@, skip@, redirect, false, j as int)),
            edit_views(edits@) == ed0 + if dry_run {
                Seq::<EditView>::empty()
            } else {
                change_edits(bundle@.root, gcs, removal_changes(gcs, from_id@, skip@, redirect, false, j as int))
            },
        decreases cs.len() - j,
    {
        let other = &cs[j];
        proof {
            assert(gcs[j as int] == other@);
            assert(valid_segments(gcs[j as int].id));
        }
        let ghost prev = removal_changes(gcs, from_id@, skip@, redirect, false, j as int);
        if !other.id.same(from_id) && !other.id.same(skip) {
            let acts = remove_acts_exec(bundle, other, from_id, &redirect_to, false);
            let (nb, k) = crate::markdown::apply_link_actions(other.document.body.as_str(), &acts);
            let f = fm_retarget_exec(&other.document.frontmatter, bundle, &other.id, from_id, new);
            if k > 0 || f.is_some() {
                let new_fm = match f {
                    Some(x) => x,
                    None => other.document.frontmatter.deep_clone(),
                };
                let new_body = if k > 0 { nb } else { other.document.body.clone() };
                let ghost e = ChangeView { pos: j as int, fm: new_fm@, body: new_body@, count: k as int };
                proof {
                    lemma_total_links_push(prev, e);
                    assert(removal_changes(gcs, from_id@, skip@, redirect, false, j + 1) == prev.push(e));
                }
                count = if count <= usize::MAX - k { count + k } else { usize::MAX };
                let p = other.id.to_path(root);
                let ghost old_aff = crate::concept_id::texts(affected@);
                let ghost old_edits = edit_views(edits@);
                affected.push(p.clone());
                proof {
                    assert(crate::concept_id::texts(affected@) =~= old_aff.push(p@));
                    assert(change_view_paths(bundle@.root, gcs, prev.push(e)) =~= change_view_paths(bundle@.root, gcs, prev).push(p@));
                }
                if !dry_run {
                    let ed = FileEdit::Write { path: p, document: Document::new(new_fm, new_body) };
                    edits.push(ed);
                    proof {
                        assert(edit_views(edits@) =~= old_edits.push(ed@));
                        assert(change_edits(bundle@.root, gcs, prev.push(e)) =~= change_edits(bundle@.root, gcs, prev).push(ed@));
                    }
                }
            } else {
                proof {
                    assert(removal_changes(gcs, from_id@, skip@, redirect, false, j + 1) == prev);
                }
            }
        } else {
            proof {
                assert(removal_changes(gcs, from_id@, skip@, redirect, false, j + 1) == prev);
            }
        }
        j += 1;
    }
    count
}

/// The plan of a move: the moved document at its new path, the old file
/// removed, then each concept whose links changed.
pub open spec fn move_edits(
    root: Seq<char>,
    cs: Seq<ConceptView>,
    source: Seq<Seq<char>>,
    target: Seq<Seq<char>>,
    fm: Seq<(ValueView, ValueView)>,
    body: Seq<char>,
    changes: Seq<ChangeView>,
) -> Seq<EditView> {
    seq![EditView::Write(path_of(root, target), fm, body), EditView::Remove(path_of(root, source))] + change_edits(root, cs, changes)
}

/// Moves or renames a concept: its relative links and frontmatter paths
/// are rebased onto its new directory, and every link and source
/// reference to it from other concepts is pointed at the new id.
pub fn move_concept(bundle: &Bundle, source: &ConceptId, target: &ConceptId, options: &MoveOptions) -> (r: Result<(MoveReport, Plan), RefactorError>)
    requires
        target.wf(),
    ensures
        ({
            let cs = bundle@.concepts;
            if source@ == target@ {
                r matches Err(RefactorError::SameSourceAndTarget(e)) && e@ == source@
            } else if !has_id(cs, source@) {
                r matches Err(RefactorError::ConceptNotFound(e)) && e@ == source@
            } else if !options.force && has_id(cs, target@) {
                r matches Err(RefactorError::ConceptAlreadyExists(e)) && e@ == target@
            } else {
                let c = cs[position_of(cs, source@)];
                let acts = move_out_acts(c.body, source@, target@, cs);
                let body = rewritten(c.body, acts);
                let outgoing = changed_count(acts, acts.len() as int);
                let fm = moved_fm(c.fm, source@.drop_last(), target@.drop_last());
                let changes = removal_changes(cs, source@, source@, Some(target@), false, cs.len() as int);
                let incoming = sat(total_links(changes));
                r matches Ok((rep, plan)) && {
                    &&& rep.source@ == source@
                    &&& rep.target@ == target@
                    &&& rep.source_path@ == path_of(bundle@.root, source@)
                    &&& rep.target_path@ == path_of(bundle@.root, target@)
                    &&& rep.rewritten_incoming_links == incoming
                    &&& rep.rebased_outgoing_links == outgoing
                    &&& rep.rebased_frontmatter_paths == sat(fm.1)
                    &&& rep.dry_run == options.dry_run
                    &&& crate::concept_id::texts(rep.affected_files@) == change_view_paths(bundle@.root, cs, changes) + seq![
                        path_of(bundle@.root, source@),
                        path_of(bundle@.root, target@),
                    ]
                    &&& edit_views(plan.edits@) == if options.dry_run {
                        Seq::<EditView>::empty()
                    } else {
                        move_edits(bundle@.root, cs, source@, target@, fm.0, body, changes)
                    }
                    &&& match plan.log {
                        Some(note) => !options.dry_run && options.update_log && note.kind@ == "Update"@
                            && note.message@ == move_message(source@, target@, incoming, outgoing, opt_chars(options.author)),
                        None => options.dry_run || !options.update_log,
                    }
                    &&& plan.update_index == (!options.dry_run && options.update_index)
                }
            }
        }),
{
    if source.same(target) {
        return Err(RefactorError::SameSourceAndTarget(source.clone()));
    }
    let concept = match bundle.get(source) {
        Some(c) => c,
        None => {
            return Err(RefactorError::ConceptNotFound(source.clone()));
        },
    };
    if !options.force && bundle.contains(target) {
        return Err(RefactorError::ConceptAlreadyExists(target.clone()));
    }
    let root = bundle.root();
    let source_path = source.to_path(root);
    let target_path = target.to_path(root);
    let acts = move_out_acts_exec(bundle, concept.document.body.as_str(), source, target);
    let (body, outgoing) = crate::markdown::apply_link_actions(concept.document.body.as_str(), &acts);
    let (fm, fm_count) = moved_fm_exec(&concept.document.frontmatter, &source.dir(), &target.dir());
    let mut affected: Vec<String> = Vec::new();
    let mut edits: Vec<FileEdit> = Vec::new();
    if !options.dry_run {
        edits.push(FileEdit::Write { path: target_path.clone(), document: Document::new(fm, body) });
        edits.push(FileEdit::Remove { path: source_path.clone() });
    }
    let ghost ed0 = edit_views(edits@);
    let incoming = retarget_all(bundle, source, target, source, options.dry_run, &mut affected, &mut edits);
    let ghost aff1 = crate::concept_id::texts(affected@);
    affected.push(source_path.clone());
    affected.push(target_path.clone());
    proof {
        assert(crate::concept_id::texts(affected@) =~= aff1 + seq![source_path@, target_path@]);
        assert(crate::concept_id::texts(Seq::<String>::empty()) =~= Seq::<Seq<char>>::empty());
        assert(Seq::<Seq<char>>::empty() + change_view_paths(
            bundle@.root,
            bundle@.concepts,
            removal_changes(bundle@.concepts, source@, source@, Some(target@), false, bundle@.concepts.len() as int),
        ) =~= change_view_paths(
            bundle@.root,
            bundle@.concepts,
            removal_changes(bundle@.concepts, source@, source@, Some(target@), false, bundle@.concepts.len() as int),
        ));
        if options.dry_run {
            assert(edit_views(edits@) =~= Seq::<EditView>::empty());
        }
    }
    let log = if !options.dry_run && options.update_log {
        let msg = move_message_exec(source, target, incoming, outgoing, &options.author);
        Some(LogNote { kind: string_of(&chars_of("Update")), message: msg })
    } else {
        None
    };
    let report = MoveReport {
        source: source.clone(),
        target: target.clone(),
        source_path,
        target_path,
        rewritten_incoming_links: incoming,
        rebased_outgoing_links: outgoing,
        rebased_frontmatter_paths: fm_count,
        affected_files: affected,
        dry_run: options.dry_run,
    };
    Ok((report, Plan { edits, log, update_index: !options.dry_run && options.update_index }))
}


// ---------------------------------------------------------------------
// Merging two concepts
// ---------------------------------------------------------------------

/// Options for merging one concept into another.
#[derive(Debug)]
pub struct MergeOptions {
    /// The heading under which the merged content goes (default: `## `
    /// and the source's title).
    pub heading: Option<String>,
    /// Merge despite non-fatal warnings.
    pub force: bool,
    /// Plan nothing.
    pub dry_run: bool,
    /// Regenerate `index.md` listings afterwards.
    pub update_index: bool,
    /// Record the merge in `log.md`.
    pub update_log: bool,
    /// Author named in the log entry.
    pub author: Option<String>,
}

impl Default for MergeOptions {
    fn default() -> (r: MergeOptions)
        ensures
            r.heading is None && !r.force && !r.dry_run && r.update_index && r.update_log && r.author is None,
    {
        MergeOptions { heading: None, force: false, dry_run: false, update_index: true, update_log: true, author: None }
    }
}

/// What a merge did.
#[derive(Debug)]
pub struct MergeReport {
    /// The concept merged and removed.
    pub source: ConceptId,
    /// The concept that received its content.
    pub target: ConceptId,
    /// The file removed.
    pub removed_path: String,
    /// The file updated.
    pub updated_path: String,
    /// Links from other concepts pointed at the target.
    pub rewritten_links_count: usize,
    /// Sources added to the target.
    pub merged_sources_count: usize,
    /// The files removed or written.
    pub affected_files: Vec<String>,
    /// Whether this was a dry run.
    pub dry_run: bool,
}

/// The action on a relative link of the source's body when it moves into
/// the target: a link to the target itself is kept, a link to another
/// concept is made relative to the target, any other path is rebased.
pub open spec fn merge_out_act(t: Seq<char>, source: Seq<Seq<char>>, target: Seq<Seq<char>>, cs: Seq<ConceptView>) -> ActView {
    if kind_of(t) is Relative {
        match resolves_to(t, source, cs) {
            Some(d) => if d == target {
                ActView::Keep
            } else {
                ActView::Rewrite(crate::paths::relative_link(target, d) + anchor_of(t))
            },
            None => ActView::Rewrite(crate::paths::rebased(source.drop_last(), target.drop_last(), t)),
        }
    } else {
        ActView::Keep
    }
}

/// The actions on the links of the source's body in a merge.
pub open spec fn merge_out_acts(body: Seq<char>, source: Seq<Seq<char>>, target: Seq<Seq<char>>, cs: Seq<ConceptView>) -> Seq<ActView> {
    links_in(body).map_values(|s: (Seq<char>, Seq<char>)| merge_out_act(cleaned(s.1), source, target, cs))
}

/// `s` from `i` on with every occurrence of `p` replaced by `r`, left to
/// right (`str::replace` for a non-empty pattern).
pub open spec fn replace_from(s: Seq<char>, p: Seq<char>, r: Seq<char>, i: int) -> Seq<char>
    decreases s.len() - i,
{
    if i < 0 || i >= s.len() || p.len() == 0 {
        if 0 <= i < s.len() {
            s.subrange(i, s.len() as int)
        } else {
            seq![]
        }
    } else if crate::text::occurs_at(s, i, p) {
        r + replace_from(s, p, r, i + p.len())
    } else {
        seq![s[i]] + replace_from(s, p, r, i + 1)
    }
}

/// `s` with every occurrence of `p` replaced by `r`.
pub open spec fn replace_all(s: Seq<char>, p: Seq<char>, r: Seq<char>) -> Seq<char> {
    replace_from(s, p, r, 0)
}

/// [`replace_all`] in exec form.
fn replace_all_exec(s: &[char], p: &[char], r: &[char]) -> (out: Vec<char>)
    requires
        p.len() > 0,
    ensures
        out@ == replace_all(s@, p@, r@),
{
    let mut out: Vec<char> = Vec::new();
    let mut i: usize = 0;
    while i < s.len()
        invariant
            i <= s.len(),
            p.len() > 0,
            out@ + replace_from(s@, p@, r@, i as int) == replace_from(s@, p@, r@, 0),
        decreases s.len() - i,
    {
        let ghost g = out@;
        if crate::text::matches_at(s, i, p) {
            extend_all(&mut out, r);
            proof {
                assert(g + replace_from(s@, p@, r@, i as int) =~= out@ + replace_from(s@, p@, r@, i + p.len()));
            }
            i = i + p.len();
        } else {
            out.push(s[i]);
            proof {
                assert(g + replace_from(s@, p@, r@, i as int) =~= out@ + replace_from(s@, p@, r@, i + 1));
            }
            i = i + 1;
        }
    }
    proof {
        assert(out@ + replace_from(s@, p@, r@, i as int) =~= out@);
    }
    out
}

/// A footnote reference `[^label]`.
pub open spec fn fn_ref(label: Seq<char>) -> Seq<char> {
    "[^"@ + label + "]"@
}

/// A footnote definition marker `[^label]:`.
pub open spec fn fn_def(label: Seq<char>) -> Seq<char> {
    "[^"@ + label + "]:"@
}

/// Sources merged so far: the target's list, the ids in use, the source
/// body (with references to renamed ids rewritten) and how many were added.
pub struct MergeAcc {
    pub list: Seq<crate::provenance::SourceView>,
    pub ids: Seq<Seq<char>>,
    pub body: Seq<char>,
    pub count: int,
}

/// Whether a list holds a source with this id and resource.
pub open spec fn has_identical(list: Seq<crate::provenance::SourceView>, id: Seq<char>, res: Option<Seq<char>>) -> bool {
    exists|k: int| 0 <= k < list.len() && (#[trigger] list[k]).0 == Some(id) && list[k].1 == res
}

/// One source of the merged concept joining the target's list: a source
/// with an unused id (or none) is added; one whose id is in use is
/// dropped when the list already has it with the same resource, else added
/// under the id `prefix_id`, with the body's footnotes renamed to match.
pub open spec fn merge_step(a: MergeAcc, s: crate::provenance::SourceView, prefix: Seq<char>) -> MergeAcc {
    match s.0 {
        Some(id) => if a.ids.contains(id) {
            if has_identical(a.list, id, s.1) {
                a
            } else {
                let nid = prefix + "_"@ + id;
                MergeAcc {
                    list: a.list.push((Some(nid), s.1, s.2, s.3)),
                    ids: a.ids.push(nid),
                    body: replace_all(replace_all(a.body, fn_ref(id), fn_ref(nid)), fn_def(id), fn_def(nid)),
                    count: a.count + 1,
                }
            }
        } else {
            MergeAcc { list: a.list.push(s), ids: a.ids.push(id), body: a.body, count: a.count + 1 }
        },
        None => MergeAcc { list: a.list.push(s), ids: a.ids, body: a.body, count: a.count + 1 },
    }
}

/// The first `n` sources merged.
pub open spec fn merge_sources(a0: MergeAcc, srcs: Seq<crate::provenance::SourceView>, prefix: Seq<char>, n: int) -> MergeAcc
    decreases n,
{
    if n <= 0 {
        a0
    } else {
        merge_step(merge_sources(a0, srcs, prefix, n - 1), srcs[n - 1], prefix)
    }
}

/// The ids of the first `n` sources that have one.
pub open spec fn present_ids(list: Seq<crate::provenance::SourceView>, n: int) -> Seq<Seq<char>>
    decreases n,
{
    if n <= 0 {
        seq![]
    } else {
        match list[n - 1].0 {
            Some(id) => present_ids(list, n - 1).push(id),
            None => present_ids(list, n - 1),
        }
    }
}

/// The footnote labels a body defines.
pub open spec fn def_labels(body: Seq<char>) -> Seq<Seq<char>> {
    let d = crate::footnotes::defs_upto(crate::markdown::code_free(body), crate::markdown::code_free(body).len() as int);
    d.map_values(|x: (Seq<char>, Seq<char>, int)| x.0)
}

/// A verification event as its `by` and `at` texts.
pub type EventView = (Option<Seq<char>>, Option<Seq<char>>);

/// The target's events followed by each event of the source it lacks.
pub open spec fn merge_events(acc: Seq<EventView>, src: Seq<EventView>, n: int) -> Seq<EventView>
    decreases n,
{
    if n <= 0 {
        acc
    } else {
        let p = merge_events(acc, src, n - 1);
        if p.contains(src[n - 1]) {
            p
        } else {
            p.push(src[n - 1])
        }
    }
}

/// An event written back as a `verified` entry.
pub open spec fn event_value(e: EventView) -> ValueView {
    ValueView::Pairs(crate::provenance::opt_entry("by"@, e.0) + crate::provenance::opt_entry("at"@, e.1))
}

/// The first line of a text (`str::lines().next()`, or empty).
pub open spec fn first_line(s: Seq<char>) -> Seq<char> {
    let e = crate::text::next_nl(s, 0);
    if e < s.len() {
        crate::text::strip_cr(s.subrange(0, e))
    } else {
        s
    }
}

/// The source body as appended to the target: trimmed, without a leading
/// `# Title` line.
pub open spec fn appended_body(b: Seq<char>) -> Seq<char> {
    let t = trim(b);
    if t.len() > 0 && t[0] == '#' {
        let rest = t.subrange(1, t.len() as int);
        let fl = first_line(rest);
        if fl.len() > 0 && fl[0] == '#' {
            t
        } else {
            crate::text::trim_start(rest.subrange(fl.len() as int, rest.len() as int))
        }
    } else {
        t
    }
}

/// The heading the source's content goes under.
pub open spec fn merge_heading(heading: Option<Seq<char>>, src: ConceptView) -> Seq<char> {
    match heading {
        Some(h) => h,
        None => "## "@ + match crate::document::field_text(src.fm, "title"@) {
            Some(t) => t,
            None => src.id.last(),
        },
    }
}

/// The target's new body.
pub open spec fn merged_body(target_body: Seq<char>, heading: Seq<char>, appended: Seq<char>) -> Seq<char> {
    crate::text::trim_end(target_body) + "\n\n"@ + heading + "\n\n"@ + appended + "\n"@
}

/// The target's new frontmatter: the merged `sources` and `verified`
/// lists, each set when non-empty.
pub open spec fn merged_fm(fm: Seq<(ValueView, ValueView)>, list: Seq<crate::provenance::SourceView>, events: Seq<EventView>) -> Seq<(ValueView, ValueView)> {
    let f1 = if list.len() > 0 {
        crate::yaml::set_entry(fm, "sources"@, ValueView::List(list.map_values(|x: crate::provenance::SourceView| crate::provenance::source_value(x))))
    } else {
        fm
    };
    if events.len() > 0 {
        crate::yaml::set_entry(f1, "verified"@, ValueView::List(events.map_values(|e: EventView| event_value(e))))
    } else {
        f1
    }
}

/// [`merge_out_acts`] in exec form.
fn merge_out_acts_exec(b: &Bundle, body: &str, source: &ConceptId, target: &ConceptId) -> (r: Vec<LinkRewriteAction>)
    requires
        source.wf(),
        target.wf(),
    ensures
        act_views(r@) == merge_out_acts(body@, source@, target@, b@.concepts),
        r@.len() == links_in(body@).len(),
{
    let ghost want = merge_out_acts(body@, source@, target@, b@.concepts);
    let links = crate::markdown::markdown_links(body);
    let ghost sv = links_in(body@);
    let sd = source.dir();
    let td = target.dir();
    let mut acts: Vec<LinkRewriteAction> = Vec::new();
    let mut k: usize = 0;
    while k < links.len()
        invariant
            k <= links.len(),
            source.wf(),
            target.wf(),
            sv == links_in(body@),
            crate::concept_id::texts(sd@) == source@.drop_last(),
            crate::concept_id::texts(td@) == target@.drop_last(),
            want == merge_out_acts(body@, source@, target@, b@.concepts),
            links@.len() == sv.len(),
            forall|j: int| 0 <= j < links@.len() ==> link_of_site(#[trigger] links@[j].0, links@[j].1@, sv[j]),
            act_views(acts@) == want.take(k as int),
        decreases links.len() - k,
    {
        let l = &links[k].0;
        proof {
            assert(link_of_site(links@[k as int].0, links@[k as int].1@, sv[k as int]));
        }
        let t = l.target.as_str();
        let a = match l.kind {
            LinkKind::Relative => match b.resolve_link(source, t) {
                Some(d) => if d.same(target) {
                    LinkRewriteAction::Keep
                } else {
                    rewrite_to(&relative_link_exec(target, &d, &chars_of(t)))
                },
                None => rewrite_to(&chars_of(crate::paths::rebase_relative_path(&sd, &td, t).as_str())),
            },
            _ => LinkRewriteAction::Keep,
        };
        proof {
            assert(a@ == want[k as int]);
        }
        let ghost before = act_views(acts@);
        acts.push(a);
        proof {
            assert(act_views(acts@) =~= before.push(a@));
            assert(want.take(k + 1) =~= want.take(k as int).push(a@));
        }
        k += 1;
    }
    proof {
        assert(want.take(k as int) =~= want);
        assert(act_views(acts@).len() == acts@.len());
    }
    acts
}

fn holds_chars(ids: &Vec<Vec<char>>, x: &[char]) -> (r: bool)
    ensures
        r == views(ids@).contains(x@),
{
    let mut i: usize = 0;
    while i < ids.len()
        invariant
            i <= ids.len(),
            forall|k: int| 0 <= k < i ==> (#[trigger] views(ids@)[k]) != x@,
        decreases ids.len() - i,
    {
        if crate::paths::same_chars(&ids[i], x) {
            proof {
                assert(views(ids@)[i as int] == x@);
            }
            return true;
        }
        i += 1;
    }
    false
}

fn opt_chars_eq(a: &Option<String>, b: &Option<String>) -> (r: bool)
    ensures
        r == (crate::document::opt_text(*a) == crate::document::opt_text(*b)),
{
    match (a, b) {
        (Some(x), Some(y)) => crate::text::str_eq(x.as_str(), y.as_str()),
        (None, None) => true,
        _ => false,
    }
}

fn has_identical_exec(list: &Vec<crate::provenance::Source>, id: &[char], res: &Option<String>) -> (r: bool)
    ensures
        r == has_identical(crate::provenance::source_views(list@), id@, crate::document::opt_text(*res)),
{
    let ghost lv = crate::provenance::source_views(list@);
    let mut i: usize = 0;
    while i < list.len()
        invariant
            i <= list.len(),
            lv == crate::provenance::source_views(list@),
            forall|k: int| 0 <= k < i ==> !((#[trigger] lv[k]).0 == Some(id@) && lv[k].1 == crate::document::opt_text(*res)),
        decreases list.len() - i,
    {
        let s = &list[i];
        let same_id = match &s.id {
            Some(x) => crate::paths::same_chars(&chars_of(x.as_str()), id),
            None => false,
        };
        if same_id && opt_chars_eq(&s.resource, res) {
            proof {
                assert(lv[i as int].0 == Some(id@) && lv[i as int].1 == crate::document::opt_text(*res));
            }
            return true;
        }
        i += 1;
    }
    false
}

fn clone_opt(o: &Option<String>) -> (r: Option<String>)
    ensures
        crate::document::opt_text(r) == crate::document::opt_text(*o),
{
    match o {
        Some(x) => Some(x.clone()),
        None => None,
    }
}

fn clone_source(s: &crate::provenance::Source) -> (r: crate::provenance::Source)
    ensures
        r@ == s@,
{
    crate::provenance::Source { id: clone_opt(&s.id), resource: clone_opt(&s.resource), title: clone_opt(&s.title), author: clone_opt(&s.author) }
}

fn fn_marker(label: &[char], def: bool) -> (r: Vec<char>)
    ensures
        r@ == if def { fn_def(label@) } else { fn_ref(label@) },
        r@.len() > 0,
{
    let mut v: Vec<char> = Vec::new();
    push_str(&mut v, "[^");
    extend_all(&mut v, label);
    if def {
        push_str(&mut v, "]:");
    } else {
        push_str(&mut v, "]");
    }
    proof {
        reveal_strlit("[^");
    }
    v
}

/// The merged sources of `srcs` onto the target's list.
fn merge_sources_exec(
    list: &mut Vec<crate::provenance::Source>,
    ids: &mut Vec<Vec<char>>,
    body: &mut Vec<char>,
    srcs: &Vec<crate::provenance::Source>,
    prefix: &str,
) -> (count: usize)
    ensures
        ({
            let a0 = MergeAcc { list: crate::provenance::source_views(old(list)@), ids: views(old(ids)@), body: old(body)@, count: 0 };
            let m = merge_sources(a0, crate::provenance::source_views(srcs@), prefix@, srcs@.len() as int);
            &&& crate::provenance::source_views(final(list)@) == m.list
            &&& views(final(ids)@) == m.ids
            &&& final(body)@ == m.body
            &&& count == m.count
        }),
{
    let ghost a0 = MergeAcc { list: crate::provenance::source_views(list@), ids: views(ids@), body: body@, count: 0 };
    let ghost sv = crate::provenance::source_views(srcs@);
    let mut count: usize = 0;
    let n = srcs.len();
    let mut i: usize = 0;
    while i < n
        invariant
            i <= n,
            n == srcs@.len(),
            sv == crate::provenance::source_views(srcs@),
            count as int == merge_sources(a0, sv, prefix@, i as int).count,
            count <= i,
            crate::provenance::source_views(list@) == merge_sources(a0, sv, prefix@, i as int).list,
            views(ids@) == merge_sources(a0, sv, prefix@, i as int).ids,
            body@ == merge_sources(a0, sv, prefix@, i as int).body,
        decreases n - i,
    {
        let src = clone_source(&srcs[i]);
        let ghost s = sv[i as int];
        let ghost a = merge_sources(a0, sv, prefix@, i as int);
        proof {
            assert(src@ == s);
            assert(merge_sources(a0, sv, prefix@, i + 1) == merge_step(a, s, prefix@));
        }
        match &src.id {
            Some(orig) => {
                let oid = chars_of(orig.as_str());
                if holds_chars(ids, &oid) {
                    if !has_identical_exec(list, &oid, &src.resource) {
                        let mut nid = chars_of(prefix);
                        nid.push('_');
                        extend_all(&mut nid, &oid);
                        proof {
                            reveal_strlit("_");
                            assert(nid@ =~= prefix@ + "_"@ + oid@);
                        }
                        let b1 = replace_all_exec(body, &fn_marker(&oid, false), &fn_marker(&nid, false));
                        let b2 = replace_all_exec(&b1, &fn_marker(&oid, true), &fn_marker(&nid, true));
                        *body = b2;
                        let ns = crate::provenance::Source {
                            id: Some(string_of(&nid)),
                            resource: src.resource,
                            title: src.title,
                            author: src.author,
                        };
                        let ghost lb = crate::provenance::source_views(list@);
                        list.push(ns);
                        proof {
                            assert(crate::provenance::source_views(list@) =~= lb.push(ns@));
                        }
                        let ghost ib = views(ids@);
                        ids.push(nid);
                        proof {
                            assert(views(ids@) =~= ib.push(prefix@ + "_"@ + oid@));
                        }
                        count += 1;
                    }
                } else {
                    let ghost lb = crate::provenance::source_views(list@);
                    let ghost ib = views(ids@);
                    ids.push(oid);
                    proof {
                        assert(views(ids@) =~= ib.push(orig@));
                    }
                    list.push(src);
                    proof {
                        assert(crate::provenance::source_views(list@) =~= lb.push(s));
                    }
                    count += 1;
                }
            },
            None => {
                let ghost lb = crate::provenance::source_views(list@);
                list.push(src);
                proof {
                    assert(crate::provenance::source_views(list@) =~= lb.push(s));
                }
                count += 1;
            },
        }
        i += 1;
    }
    count
}


/// The views of a list of events.
pub open spec fn ev_views(v: Seq<(Option<String>, Option<String>)>) -> Seq<EventView> {
    v.map_values(|e: (Option<String>, Option<String>)| (crate::document::opt_text(e.0), crate::document::opt_text(e.1)))
}

/// The `verified` events of a frontmatter as texts.
fn events_in(fm: &crate::document::Frontmatter) -> (r: Vec<(Option<String>, Option<String>)>)
    ensures
        ev_views(r@) == crate::document::verified_of(fm@),
{
    let vs = fm.verified();
    let ghost want = crate::document::verified_of(fm@);
    let mut out: Vec<(Option<String>, Option<String>)> = Vec::new();
    let mut k: usize = 0;
    while k < vs.len()
        invariant
            k <= vs.len(),
            want == crate::document::verified_of(fm@),
            vs@.len() == want.len(),
            forall|j: int| 0 <= j < vs@.len() ==> crate::trust::by_at_match(#[trigger] vs@[j].by, vs@[j].at, want[j]),
            ev_views(out@) == want.take(k as int),
        decreases vs.len() - k,
    {
        let v = &vs[k];
        proof {
            assert(crate::trust::by_at_match(vs@[k as int].by, vs@[k as int].at, want[k as int]));
        }
        let by = match &v.by {
            Some(a) => Some(a.text.clone()),
            None => None,
        };
        let at = match &v.at {
            Some(f) => Some(f.raw.clone()),
            None => None,
        };
        let e = (by, at);
        let ghost before = ev_views(out@);
        out.push(e);
        proof {
            assert(ev_views(out@) =~= before.push(want[k as int]));
            assert(want.take(k + 1) =~= want.take(k as int).push(want[k as int]));
        }
        k += 1;
    }
    proof {
        assert(want.take(k as int) =~= want);
    }
    out
}

/// [`merge_events`] in exec form.
fn merge_events_exec(acc: &mut Vec<(Option<String>, Option<String>)>, src: &Vec<(Option<String>, Option<String>)>)
    ensures
        ev_views(final(acc)@) == merge_events(ev_views(old(acc)@), ev_views(src@), src@.len() as int),
{
    let ghost a0 = ev_views(acc@);
    let ghost sv = ev_views(src@);
    let mut i: usize = 0;
    while i < src.len()
        invariant
            i <= src.len(),
            sv == ev_views(src@),
            ev_views(acc@) == merge_events(a0, sv, i as int),
        decreases src.len() - i,
    {
        let e = &src[i];
        let ghost av = ev_views(acc@);
        let mut found = false;
        let mut j: usize = 0;
        while j < acc.len()
            invariant
                j <= acc.len(),
                av == ev_views(acc@),
                sv == ev_views(src@),
                i < src.len(),
                *e == src@[i as int],
                found ==> av.contains(sv[i as int]),
                !found ==> forall|q: int| 0 <= q < j ==> av[q] != sv[i as int],
            decreases acc.len() - j,
        {
            let ghost aj = av[j as int];
            let ghost si = sv[i as int];
            proof {
                assert(aj == (crate::document::opt_text(acc@[j as int].0), crate::document::opt_text(acc@[j as int].1)));
                assert(si == (crate::document::opt_text(src@[i as int].0), crate::document::opt_text(src@[i as int].1)));
            }
            let s0 = opt_chars_eq(&acc[j].0, &e.0);
            let s1 = opt_chars_eq(&acc[j].1, &e.1);
            let same = s0 && s1;
            proof {
                assert(e.0 == src@[i as int].0 && e.1 == src@[i as int].1);
                assert(s0 == (aj.0 == si.0));
                assert(s1 == (aj.1 == si.1));
                assert(same == (aj == si));
            }
            if !found && same {
                found = true;
            }
            j += 1;
        }
        if !found {
            let c = (clone_opt(&e.0), clone_opt(&e.1));
            acc.push(c);
            proof {
                assert(ev_views(acc@) =~= av.push(sv[i as int]));
            }
        }
        i += 1;
    }
}

/// An event as a `verified` entry.
fn event_value_exec(e: &(Option<String>, Option<String>)) -> (r: crate::yaml::Value)
    ensures
        crate::yaml::vview(r) == event_value((crate::document::opt_text(e.0), crate::document::opt_text(e.1))),
{
    let mut m = crate::yaml::Mapping::new();
    proof {
        assert(m@ =~= Seq::<(ValueView, ValueView)>::empty());
    }
    crate::provenance::push_text_entry(&mut m, "by", &e.0);
    proof {
        reveal_strlit("by");
        reveal_strlit("at");
        assert("by"@[1] != "at"@[1]);
        assert(forall|k: int| 0 <= k < m@.len() ==> (#[trigger] m@[k]).0 == ValueView::Str("by"@));
    }
    crate::provenance::push_text_entry(&mut m, "at", &e.1);
    proof {
        assert(m@ =~= crate::provenance::opt_entry("by"@, crate::document::opt_text(e.0)) + crate::provenance::opt_entry(
            "at"@,
            crate::document::opt_text(e.1),
        ));
    }
    crate::yaml::Value::Mapping(m)
}

/// The target's new frontmatter (see [`merged_fm`]).
fn merged_fm_exec(
    fm: &crate::document::Frontmatter,
    list: &Vec<crate::provenance::Source>,
    events: &Vec<(Option<String>, Option<String>)>,
) -> (r: crate::document::Frontmatter)
    ensures
        r@ == merged_fm(fm@, crate::provenance::source_views(list@), ev_views(events@)),
{
    let mut f = fm.deep_clone();
    if list.len() > 0 {
        let ghost want = crate::provenance::source_views(list@).map_values(
            |x: crate::provenance::SourceView| crate::provenance::source_value(x),
        );
        let mut vals: Vec<crate::yaml::Value> = Vec::new();
        let mut k: usize = 0;
        while k < list.len()
            invariant
                k <= list.len(),
                want == crate::provenance::source_views(list@).map_values(
                    |x: crate::provenance::SourceView| crate::provenance::source_value(x),
                ),
                vals@.len() == k,
                crate::yaml::vviews(vals@, k as int) == want.take(k as int),
            decreases list.len() - k,
        {
            let v = list[k].to_yaml_value();
            proof {
                crate::yaml::lemma_vviews_push(vals@, v);
                assert(want.take(k + 1) =~= want.take(k as int).push(want[k as int]));
            }
            vals.push(v);
            k += 1;
        }
        proof {
            assert(want.take(k as int) =~= want);
        }
        f.set("sources", crate::yaml::Value::Sequence(vals));
    }
    if events.len() > 0 {
        let ghost want = ev_views(events@).map_values(|e: EventView| event_value(e));
        let mut vals: Vec<crate::yaml::Value> = Vec::new();
        let mut k: usize = 0;
        while k < events.len()
            invariant
                k <= events.len(),
                want == ev_views(events@).map_values(|e: EventView| event_value(e)),
                vals@.len() == k,
                crate::yaml::vviews(vals@, k as int) == want.take(k as int),
            decreases events.len() - k,
        {
            let v = event_value_exec(&events[k]);
            proof {
                crate::yaml::lemma_vviews_push(vals@, v);
                assert(want.take(k + 1) =~= want.take(k as int).push(want[k as int]));
            }
            vals.push(v);
            k += 1;
        }
        proof {
            assert(want.take(k as int) =~= want);
        }
        f.set("verified", crate::yaml::Value::Sequence(vals));
    }
    f
}

/// [`appended_body`] in exec form.
fn appended_body_exec(b: &[char]) -> (r: Vec<char>)
    ensures
        r@ == appended_body(b@),
{
    let t = crate::markdown::trimmed(b);
    if t.len() > 0 && t[0] == '#' {
        let mut rest: Vec<char> = Vec::new();
        extend_range(&mut rest, &t, 1, t.len());
        let e = crate::document::next_nl_exec(&rest, 0);
        let mut fl: Vec<char> = Vec::new();
        if e < rest.len() {
            let mut end = e;
            if end > 0 && rest[end - 1] == '\r' {
                end = end - 1;
            }
            extend_range(&mut fl, &rest, 0, end);
            proof {
                let raw = rest@.subrange(0, e as int);
                assert(crate::text::strip_cr(raw) =~= fl@);
            }
        } else {
            extend_all(&mut fl, &rest);
        }
        proof {
            assert(fl@ == first_line(rest@));
        }
        if fl.len() > 0 && fl[0] == '#' {
            t
        } else {
            let a = crate::text::skip_ws_exec(&rest, fl.len(), rest.len());
            let mut out: Vec<char> = Vec::new();
            extend_range(&mut out, &rest, a, rest.len());
            proof {
                let x = rest@.subrange(fl@.len() as int, rest@.len() as int);
                crate::text::lemma_skip_ws_shift(rest@, fl@.len() as int, rest@.len() as int, fl@.len() as int);
                assert(crate::text::trim_start(x) =~= out@);
            }
            out
        }
    } else {
        t
    }
}

/// [`merged_body`] in exec form.
fn merged_body_exec(target_body: &[char], heading: &[char], appended: &[char]) -> (r: Vec<char>)
    ensures
        r@ == merged_body(target_body@, heading@, appended@),
{
    let e = crate::text::skip_ws_back_exec(target_body, 0, target_body.len());
    let mut out: Vec<char> = Vec::new();
    extend_range(&mut out, target_body, 0, e);
    push_str(&mut out, "\n\n");
    extend_all(&mut out, heading);
    push_str(&mut out, "\n\n");
    extend_all(&mut out, appended);
    push_str(&mut out, "\n");
    proof {
        assert(out@ =~= merged_body(target_body@, heading@, appended@));
    }
    out
}


/// The log entry of a merge.
pub open spec fn merge_message(source: Seq<Seq<char>>, target: Seq<Seq<char>>, count: int, author: Option<Seq<char>>) -> Seq<char> {
    "Merged concept `"@ + join_with(source, "/"@) + "` into `"@ + join_with(target, "/"@) + "` (rewrote "@
        + crate::text::decimal(count as nat) + " inbound links)"@ + by_suffix(author) + "."@
}

fn merge_message_exec(source: &ConceptId, target: &ConceptId, count: usize, author: &Option<String>) -> (r: String)
    ensures
        r@ == merge_message(source@, target@, count as int, opt_chars(*author)),
{
    let mut m: Vec<char> = Vec::new();
    push_str(&mut m, "Merged concept `");
    push_str(&mut m, source.to_string().as_str());
    push_str(&mut m, "` into `");
    push_str(&mut m, target.to_string().as_str());
    push_str(&mut m, "` (rewrote ");
    extend_all(&mut m, &crate::text::decimal_exec(count as u64));
    push_str(&mut m, " inbound links)");
    push_by_suffix(&mut m, author);
    push_str(&mut m, ".");
    proof {
        assert(m@ =~= merge_message(source@, target@, count as int, opt_chars(*author)));
    }
    string_of(&m)
}

/// The ids in use in the target before merging: its sources' ids, then
/// its footnote labels.
fn initial_ids(list: &Vec<crate::provenance::Source>, body: &str) -> (r: Vec<Vec<char>>)
    ensures
        views(r@) == present_ids(crate::provenance::source_views(list@), list@.len() as int) + def_labels(body@),
{
    let ghost lv = crate::provenance::source_views(list@);
    let mut out: Vec<Vec<char>> = Vec::new();
    let mut k: usize = 0;
    while k < list.len()
        invariant
            k <= list.len(),
            lv == crate::provenance::source_views(list@),
            views(out@) == present_ids(lv, k as int),
        decreases list.len() - k,
    {
        let ghost before = views(out@);
        match &list[k].id {
            Some(x) => {
                out.push(chars_of(x.as_str()));
                proof {
                    assert(views(out@) =~= before.push(lv[k as int].0->0));
                }
            },
            None => {},
        }
        k += 1;
    }
    let defs = crate::footnotes::extract_definitions(body);
    let ghost dv = defs@.map_values(|f: crate::footnotes::FootnoteDef| (f.label@, f.text@, f.line as int));
    let ghost base = views(out@);
    let mut j: usize = 0;
    while j < defs.len()
        invariant
            j <= defs.len(),
            dv == defs@.map_values(|f: crate::footnotes::FootnoteDef| (f.label@, f.text@, f.line as int)),
            dv == crate::footnotes::defs_upto(crate::markdown::code_free(body@), crate::markdown::code_free(body@).len() as int),
            views(out@) == base + def_labels(body@).take(j as int),
        decreases defs.len() - j,
    {
        let ghost before = views(out@);
        out.push(chars_of(defs[j].label.as_str()));
        proof {
            assert(def_labels(body@)[j as int] == defs@[j as int].label@);
            assert(def_labels(body@).take(j + 1) =~= def_labels(body@).take(j as int).push(defs@[j as int].label@));
            assert(views(out@) =~= before.push(defs@[j as int].label@));
        }
        j += 1;
    }
    proof {
        assert(def_labels(body@).take(j as int) =~= def_labels(body@));
    }
    out
}

/// The plan of a merge: the target rewritten, the source removed, then
/// each concept whose links changed.
pub open spec fn merge_edits(
    root: Seq<char>,
    cs: Seq<ConceptView>,
    source: Seq<Seq<char>>,
    target: Seq<Seq<char>>,
    fm: Seq<(ValueView, ValueView)>,
    body: Seq<char>,
    changes: Seq<ChangeView>,
) -> Seq<EditView> {
    seq![EditView::Write(path_of(root, target), fm, body), EditView::Remove(path_of(root, source))] + change_edits(root, cs, changes)
}

/// Merges concept `source` into concept `target` and removes `source`:
/// its body goes under a heading at the end of the target's (links
/// rebased onto the target's directory), its sources and verification
/// events join the target's (a source whose id the target already uses is
/// renamed `name_id`, unless it is the same resource), and every link and
/// source reference to it from other concepts is pointed at the target.
pub fn merge_concepts(bundle: &Bundle, source: &ConceptId, target: &ConceptId, options: &MergeOptions) -> (r: Result<(MergeReport, Plan), RefactorError>)
    ensures
        ({
            let cs = bundle@.concepts;
            if source@ == target@ {
                r matches Err(RefactorError::SameSourceAndTarget(e)) && e@ == source@
            } else if !has_id(cs, source@) {
                r matches Err(RefactorError::ConceptNotFound(e)) && e@ == source@
            } else if !has_id(cs, target@) {
                r matches Err(RefactorError::ConceptNotFound(e)) && e@ == target@
            } else {
                let sc = cs[position_of(cs, source@)];
                let tc = cs[position_of(cs, target@)];
                let acts = merge_out_acts(sc.body, source@, target@, cs);
                let list0 = crate::provenance::frontmatter_sources(tc.fm);
                let a0 = MergeAcc {
                    list: list0,
                    ids: present_ids(list0, list0.len() as int) + def_labels(tc.body),
                    body: rewritten(sc.body, acts),
                    count: 0,
                };
                let srcs = crate::provenance::frontmatter_sources(sc.fm);
                let m = merge_sources(a0, srcs, source@.last(), srcs.len() as int);
                let sev = crate::document::verified_of(sc.fm);
                let events = merge_events(crate::document::verified_of(tc.fm), sev, sev.len() as int);
                let fm = merged_fm(tc.fm, m.list, events);
                let body = merged_body(tc.body, merge_heading(opt_chars(options.heading), sc), appended_body(m.body));
                let changes = removal_changes(cs, source@, target@, Some(target@), false, cs.len() as int);
                let count = sat(total_links(changes));
                r matches Ok((rep, plan)) && {
                    &&& rep.source@ == source@
                    &&& rep.target@ == target@
                    &&& rep.removed_path@ == path_of(bundle@.root, source@)
                    &&& rep.updated_path@ == path_of(bundle@.root, target@)
                    &&& rep.rewritten_links_count == count
                    &&& rep.merged_sources_count == m.count
                    &&& rep.dry_run == options.dry_run
                    &&& crate::concept_id::texts(rep.affected_files@) == seq![
                        path_of(bundle@.root, source@),
                        path_of(bundle@.root, target@),
                    ] + change_view_paths(bundle@.root, cs, changes)
                    &&& edit_views(plan.edits@) == if options.dry_run {
                        Seq::<EditView>::empty()
                    } else {
                        merge_edits(bundle@.root, cs, source@, target@, fm, body, changes)
                    }
                    &&& match plan.log {
                        Some(note) => !options.dry_run && options.update_log && note.kind@ == "Update"@
                            && note.message@ == merge_message(source@, target@, count, opt_chars(options.author)),
                        None => options.dry_run || !options.update_log,
                    }
                    &&& plan.update_index == (!options.dry_run && options.update_index)
                }
            }
        }),
{
    if source.same(target) {
        return Err(RefactorError::SameSourceAndTarget(source.clone()));
    }
    let sc = match bundle.get(source) {
        Some(c) => c,
        None => {
            return Err(RefactorError::ConceptNotFound(source.clone()));
        },
    };
    let tc = match bundle.get(target) {
        Some(c) => c,
        None => {
            return Err(RefactorError::ConceptNotFound(target.clone()));
        },
    };
    let sid = &sc.id;
    let tid = &tc.id;
    let root = bundle.root();
    let source_path = source.to_path(root);
    let target_path = target.to_path(root);
    let acts = merge_out_acts_exec(bundle, sc.document.body.as_str(), sid, tid);
    let (rb, _) = crate::markdown::apply_link_actions(sc.document.body.as_str(), &acts);
    let mut list = crate::provenance::sources_in(&tc.document.frontmatter);
    let mut ids = initial_ids(&list, tc.document.body.as_str());
    let mut body = chars_of(rb.as_str());
    let srcs = crate::provenance::sources_in(&sc.document.frontmatter);
    let merged_count = merge_sources_exec(&mut list, &mut ids, &mut body, &srcs, sid.name());
    let mut events = events_in(&tc.document.frontmatter);
    let sev = events_in(&sc.document.frontmatter);
    merge_events_exec(&mut events, &sev);
    let fm = merged_fm_exec(&tc.document.frontmatter, &list, &events);
    let heading: Vec<char> = match &options.heading {
        Some(h) => chars_of(h.as_str()),
        None => {
            let mut v: Vec<char> = Vec::new();
            push_str(&mut v, "## ");
            match sc.document.frontmatter.title() {
                Some(t) => push_str(&mut v, t.as_str()),
                None => push_str(&mut v, sid.name()),
            }
            v
        },
    };
    proof {
        assert(heading@ == merge_heading(opt_chars(options.heading), sc@));
    }
    let appended = appended_body_exec(&body);
    let new_body = merged_body_exec(&chars_of(tc.document.body.as_str()), &heading, &appended);
    let mut affected: Vec<String> = Vec::new();
    affected.push(source_path.clone());
    affected.push(target_path.clone());
    let mut edits: Vec<FileEdit> = Vec::new();
    if !options.dry_run {
        edits.push(FileEdit::Write { path: target_path.clone(), document: Document::new(fm, string_of(&new_body)) });
        edits.push(FileEdit::Remove { path: source_path.clone() });
    }
    let count = retarget_all(bundle, source, tid, target, options.dry_run, &mut affected, &mut edits);
    proof {
        assert(crate::concept_id::texts(seq![source_path, target_path]) =~= seq![source_path@, target_path@]);
        if options.dry_run {
            assert(Seq::<EditView>::empty() + Seq::<EditView>::empty() =~= Seq::<EditView>::empty());
        }
    }
    let log = if !options.dry_run && options.update_log {
        let msg = merge_message_exec(source, target, count, &options.author);
        Some(LogNote { kind: string_of(&chars_of("Update")), message: msg })
    } else {
        None
    };
    let report = MergeReport {
        source: source.clone(),
        target: target.clone(),
        removed_path: source_path,
        updated_path: target_path,
        rewritten_links_count: count,
        merged_sources_count: merged_count,
        affected_files: affected,
        dry_run: options.dry_run,
    };
    Ok((report, Plan { edits, log, update_index: !options.dry_run && options.update_index }))
}


// ---------------------------------------------------------------------
// Splitting a section out into a new concept
// ---------------------------------------------------------------------

/// Options for splitting a section into a new concept.
#[derive(Debug)]
pub struct SplitOptions {
    /// The section to extract (`"Pricing Model"` or `"## Pricing Model"`).
    pub section: String,
    /// The new concept's title (default: the section's heading text).
    pub title: Option<String>,
    /// The new concept's type (default: `Concept`).
    pub type_: Option<String>,
    /// The text of the link left in the source (default: the title).
    pub link_text: Option<String>,
    /// Overwrite the destination when a concept is there.
    pub force: bool,
    /// Plan nothing.
    pub dry_run: bool,
    /// Regenerate `index.md` listings afterwards.
    pub update_index: bool,
    /// Record the split in `log.md`.
    pub update_log: bool,
    /// Author named in the generated frontmatter and the log entry.
    pub author: Option<String>,
}

impl Default for SplitOptions {
    fn default() -> (r: SplitOptions)
        ensures
            r.section@.len() == 0 && r.title is None && r.type_ is None && r.link_text is None && !r.force && !r.dry_run
                && r.update_index && r.update_log && r.author is None,
    {
        SplitOptions::new(String::new())
    }
}

impl SplitOptions {
    /// Split options for the given section, otherwise the defaults.
    pub fn new(section: String) -> (r: SplitOptions)
        ensures
            r.section == section && r.title is None && r.type_ is None && r.link_text is None && !r.force && !r.dry_run
                && r.update_index && r.update_log && r.author is None,
    {
        SplitOptions {
            section,
            title: None,
            type_: None,
            link_text: None,
            force: false,
            dry_run: false,
            update_index: true,
            update_log: true,
            author: None,
        }
    }
}

/// What a split did.
#[derive(Debug)]
pub struct SplitReport {
    /// The concept split.
    pub source: ConceptId,
    /// The new concept.
    pub target: ConceptId,
    /// The section asked for.
    pub section: String,
    /// The new concept's title.
    pub target_title: String,
    /// The new concept's file.
    pub target_path: String,
    /// Lines moved into the new concept.
    pub extracted_lines_count: usize,
    /// Sources copied to the new concept.
    pub moved_sources_count: usize,
    /// The files written.
    pub affected_files: Vec<String>,
    /// Whether this was a dry run.
    pub dry_run: bool,
}

/// The first heading outside code at or after line `i` that names section
/// `y`: its line, level (number of `#`s) and text.
pub open spec fn find_section(ls: Seq<Seq<char>>, y: Seq<char>, i: int) -> Option<(int, int, Seq<char>)>
    decreases ls.len() - i,
{
    if i < 0 || i >= ls.len() {
        None
    } else {
        match hash_title(ls[i]) {
            Some(h) if !code_at(ls, i) && section_matches(h.1, y) => Some((i, h.0, h.1)),
            _ => find_section(ls, y, i + 1),
        }
    }
}

/// The first line at or after `i` that is a heading outside code of
/// level at most `level`, or the number of lines.
pub open spec fn section_end(ls: Seq<Seq<char>>, level: int, i: int) -> int
    decreases ls.len() - i,
{
    if i < 0 || i >= ls.len() {
        ls.len() as int
    } else {
        match hash_title(ls[i]) {
            Some(h) if !code_at(ls, i) && h.0 <= level => i,
            _ => section_end(ls, level, i + 1),
        }
    }
}

/// A section cut out of a body: the heading's text, the lines under it,
/// and the body with them replaced by a link to the new concept.
pub open spec fn extracted_section(
    body: Seq<char>,
    query: Seq<char>,
    source: Seq<Seq<char>>,
    target: Seq<Seq<char>>,
    link_text: Option<Seq<char>>,
) -> Option<(Seq<char>, Seq<Seq<char>>, Seq<char>)> {
    let ls = lines(body);
    match find_section(ls, heading_text(query), 0) {
        None => None,
        Some((start, level, title)) => {
            let end = section_end(ls, level, start + 1);
            let lt = match link_text {
                Some(t) => t,
                None => title,
            };
            let replacement = ls[start] + "\n\nSee ["@ + lt + "]("@ + crate::paths::relative_link(source, target) + ").\n"@;
            Some((title, ls.subrange(start + 1, end), join_like(ls.subrange(0, start) + seq![replacement] + ls.subrange(end, ls.len() as int), body)))
        },
    }
}

/// The footnote labels a text refers to.
pub open spec fn ref_labels(text: Seq<char>) -> Seq<Seq<char>> {
    let r = crate::footnotes::refs_upto(crate::markdown::code_free(text), crate::markdown::code_free(text).len() as int);
    r.map_values(|x: (Seq<char>, int)| x.0)
}

/// The definitions among the first `n` whose label is in `labels`.
pub open spec fn defs_in(defs: Seq<(Seq<char>, Seq<char>, int)>, labels: Seq<Seq<char>>, n: int) -> Seq<(Seq<char>, Seq<char>, int)>
    decreases n,
{
    if n <= 0 {
        seq![]
    } else if labels.contains(defs[n - 1].0) {
        defs_in(defs, labels, n - 1).push(defs[n - 1])
    } else {
        defs_in(defs, labels, n - 1)
    }
}

/// The id a source is cited by (empty when it has none).
pub open spec fn cite_id(s: crate::provenance::SourceView) -> Seq<char> {
    match s.0 {
        Some(i) => i,
        None => Seq::<char>::empty(),
    }
}

/// The sources among the first `n` cited by a label in `labels`.
pub open spec fn sources_cited(srcs: Seq<crate::provenance::SourceView>, labels: Seq<Seq<char>>, n: int) -> Seq<crate::provenance::SourceView>
    decreases n,
{
    if n <= 0 {
        seq![]
    } else if labels.contains(cite_id(srcs[n - 1])) {
        sources_cited(srcs, labels, n - 1).push(srcs[n - 1])
    } else {
        sources_cited(srcs, labels, n - 1)
    }
}

/// The text a `status` field reads as.
pub open spec fn status_text(v: Option<Seq<char>>) -> Seq<char> {
    match v {
        None => "stable"@,
        Some(x) => {
            let t = trim(x);
            if t == "draft"@ {
                "draft"@
            } else if t == "stable"@ || t.len() == 0 {
                "stable"@
            } else if t == "deprecated"@ {
                "deprecated"@
            } else {
                t
            }
        },
    }
}

/// The new concept's frontmatter: type, title, status, `generated`, and
/// the sources its text cites when there are any.
pub open spec fn split_fm(
    type_: Seq<char>,
    title: Seq<char>,
    status: Seq<char>,
    author: Seq<char>,
    at: Seq<char>,
    srcs: Seq<crate::provenance::SourceView>,
) -> Seq<(ValueView, ValueView)> {
    seq![
        (ValueView::Str("type"@), ValueView::Str(type_)),
        (ValueView::Str("title"@), ValueView::Str(title)),
        (ValueView::Str("status"@), ValueView::Str(status)),
        (ValueView::Str("generated"@), ValueView::Pairs(seq![(ValueView::Str("by"@), ValueView::Str(author)), (ValueView::Str("at"@), ValueView::Str(at))])),
    ] + if srcs.len() > 0 {
        seq![(ValueView::Str("sources"@), ValueView::List(srcs.map_values(|x: crate::provenance::SourceView| crate::provenance::source_value(x))))]
    } else {
        Seq::<(ValueView, ValueView)>::empty()
    }
}

/// The definition lines `[^label]: text` of a list of definitions.
pub open spec fn def_lines(defs: Seq<(Seq<char>, Seq<char>, int)>) -> Seq<char>
    decreases defs.len(),
{
    if defs.len() == 0 {
        seq![]
    } else {
        def_lines(defs.drop_last()) + "[^"@ + defs.last().0 + "]: "@ + defs.last().1 + "\n"@
    }
}

/// The new concept's body.
pub open spec fn split_body(title: Seq<char>, extracted: Seq<char>, defs: Seq<(Seq<char>, Seq<char>, int)>) -> Seq<char> {
    "# "@ + title + "\n\n"@ + trim(extracted) + "\n"@ + if defs.len() > 0 {
        "\n"@ + def_lines(defs)
    } else {
        Seq::<char>::empty()
    }
}

/// The source's new frontmatter: its `sources` narrowed to those still cited.
pub open spec fn split_source_fm(fm: Seq<(ValueView, ValueView)>, kept: Seq<crate::provenance::SourceView>) -> Seq<(ValueView, ValueView)> {
    if kept.len() == 0 {
        crate::yaml::remove_entry(fm, "sources"@)
    } else {
        crate::yaml::set_entry(fm, "sources"@, ValueView::List(kept.map_values(|x: crate::provenance::SourceView| crate::provenance::source_value(x))))
    }
}

/// The log entry of a split.
pub open spec fn split_message(section: Seq<char>, source: Seq<Seq<char>>, target: Seq<Seq<char>>, author: Option<Seq<char>>) -> Seq<char> {
    "Extracted section `"@ + section + "` from `"@ + join_with(source, "/"@) + "` into new concept `"@ + join_with(target, "/"@) + "`"@
        + by_suffix(author) + "."@
}

/// What a split of `source` into `target` gives, with `author` named as
/// the new concept's generator when the options name none and `at` as the
/// time it was generated.
pub open spec fn split_outcome(
    bundle: crate::bundle::BundleView,
    source: Seq<Seq<char>>,
    target: Seq<Seq<char>>,
    options: &SplitOptions,
    author: Seq<char>,
    at: Seq<char>,
    r: Result<(SplitReport, Plan), RefactorError>,
) -> bool {
    let cs = bundle.concepts;
    if source == target {
        r matches Err(RefactorError::SameSourceAndTarget(e)) && e@ == source
    } else if !has_id(cs, source) {
        r matches Err(RefactorError::ConceptNotFound(e)) && e@ == source
    } else if !options.force && has_id(cs, target) {
        r matches Err(RefactorError::ConceptAlreadyExists(e)) && e@ == target
    } else {
        let c = cs[position_of(cs, source)];
        let lt = match opt_chars(options.link_text) {
            Some(t) => Some(t),
            None => opt_chars(options.title),
        };
        match extracted_section(c.body, options.section@, source, target, lt) {
            None => r matches Err(RefactorError::SectionNotFound { concept, section }) && concept@ == source && section@ == options.section@,
            Some((heading, extracted, new_body)) => {
                let title = match opt_chars(options.title) {
                    Some(t) => t,
                    None => heading,
                };
                let text = join_with(extracted, "\n"@);
                let xl = ref_labels(text);
                let rl = ref_labels(new_body);
                let all_defs = crate::footnotes::defs_upto(crate::markdown::code_free(c.body), crate::markdown::code_free(c.body).len() as int);
                let defs = defs_in(all_defs, xl, all_defs.len() as int);
                let srcs = crate::provenance::frontmatter_sources(c.fm);
                let moved = sources_cited(srcs, xl, srcs.len() as int);
                let kept = sources_cited(srcs, rl, srcs.len() as int);
                let type_ = match opt_chars(options.type_) {
                    Some(t) => t,
                    None => "Concept"@,
                };
                let by = match opt_chars(options.author) {
                    Some(a) => a,
                    None => author,
                };
                let tfm = split_fm(type_, title, status_text(crate::document::field_text(c.fm, "status"@)), by, at, moved);
                let tbody = split_body(title, text, defs);
                r matches Ok((rep, plan)) && {
                    &&& rep.source@ == source
                    &&& rep.target@ == target
                    &&& rep.section@ == options.section@
                    &&& rep.target_title@ == title
                    &&& rep.target_path@ == path_of(bundle.root, target)
                    &&& rep.extracted_lines_count == extracted.len()
                    &&& rep.moved_sources_count == moved.len()
                    &&& rep.dry_run == options.dry_run
                    &&& crate::concept_id::texts(rep.affected_files@) == seq![path_of(bundle.root, source), path_of(bundle.root, target)]
                    &&& edit_views(plan.edits@) == if options.dry_run {
                        Seq::<EditView>::empty()
                    } else {
                        seq![
                            EditView::Write(path_of(bundle.root, target), tfm, tbody),
                            EditView::Write(path_of(bundle.root, source), split_source_fm(c.fm, kept), new_body),
                        ]
                    }
                    &&& match plan.log {
                        Some(note) => !options.dry_run && options.update_log && note.kind@ == "Creation"@
                            && note.message@ == split_message(options.section@, source, target, opt_chars(options.author)),
                        None => options.dry_run || !options.update_log,
                    }
                    &&& plan.update_index == (!options.dry_run && options.update_index)
                }
            },
        }
    }
}


/// [`extracted_section`] in exec form.
fn extract_section_exec(
    body: &[char],
    query: &str,
    source: &ConceptId,
    target: &ConceptId,
    link_text: &Option<String>,
) -> (r: Option<(Vec<char>, Vec<Vec<char>>, Vec<char>)>)
    requires
        source.wf(),
        target.wf(),
    ensures
        match r {
            Some((t, x, nb)) => extracted_section(body@, query@, source@, target@, opt_chars(*link_text)) == Some((t@, views(x@), nb@)),
            None => extracted_section(body@, query@, source@, target@, opt_chars(*link_text)) is None,
        },
{
    let ls = crate::text::split_lines(body);
    let ghost gl = views(ls@);
    let y = crate::markdown::heading_text_exec(&chars_of(query));
    let y_slug = slug_chars(&y);
    let mut fence: Option<char> = None;
    let mut i: usize = 0;
    let mut found: Option<(usize, usize, Vec<char>)> = None;
    while i < ls.len() && found.is_none()
        invariant
            i <= ls.len(),
            gl == views(ls@),
            gl == lines(body@),
            y_slug@ == slug_of(y@),
            fence == fence_before(gl, i as int),
            found is None ==> find_section(gl, y@, 0) == find_section(gl, y@, i as int),
            found matches Some((st, lv, t)) ==> find_section(gl, y@, 0) == Some((st as int, lv as int, t@)) && st < ls.len()
                && i == st + 1,
        decreases ls.len() - i,
    {
        let line = &ls[i];
        proof {
            assert(gl[i as int] == line@);
        }
        let code = fence.is_some() || crate::markdown::next_fence(None, line).is_some();
        proof {
            assert(code == code_at(gl, i as int));
        }
        if !code {
            match hash_title_exec(line) {
                Some((n, t)) => {
                    if section_matches_exec(&t, &y, &y_slug) {
                        proof {
                            assert(find_section(gl, y@, i as int) == Some((i as int, n as int, t@)));
                        }
                        found = Some((i, n, t));
                    } else {
                        proof {
                            assert(find_section(gl, y@, i as int) == find_section(gl, y@, i + 1));
                        }
                    }
                },
                None => {
                    proof {
                        assert(find_section(gl, y@, i as int) == find_section(gl, y@, i + 1));
                    }
                },
            }
        } else {
            proof {
                assert(find_section(gl, y@, i as int) == find_section(gl, y@, i + 1));
            }
        }
        fence = crate::markdown::next_fence(fence, line);
        i += 1;
    }
    let (start, level, title) = match found {
        Some(f) => f,
        None => {
            proof {
                assert(find_section(gl, y@, i as int) is None);
            }
            return None;
        },
    };
    let mut end = ls.len();
    let mut j = start + 1;
    while j < ls.len() && end == ls.len()
        invariant
            start < j <= ls.len(),
            end <= ls.len(),
            gl == views(ls@),
            fence == fence_before(gl, j as int),
            end == ls.len() ==> section_end(gl, level as int, start + 1) == section_end(gl, level as int, j as int),
            end < ls.len() ==> section_end(gl, level as int, start + 1) == end && start < end,
        decreases ls.len() - j,
    {
        let line = &ls[j];
        proof {
            assert(gl[j as int] == line@);
        }
        let code = fence.is_some() || crate::markdown::next_fence(None, line).is_some();
        proof {
            assert(code == code_at(gl, j as int));
        }
        let mut stop = false;
        if !code {
            match hash_title_exec(line) {
                Some((n, _)) => {
                    if n <= level {
                        stop = true;
                    }
                },
                None => {},
            }
        }
        if stop {
            proof {
                assert(section_end(gl, level as int, j as int) == j);
            }
            end = j;
        } else {
            proof {
                assert(section_end(gl, level as int, j as int) == section_end(gl, level as int, j + 1));
            }
        }
        fence = crate::markdown::next_fence(fence, line);
        j += 1;
    }
    proof {
        if end == ls.len() {
            assert(section_end(gl, level as int, j as int) == ls.len());
        }
        assert(section_end(gl, level as int, start + 1) == end);
    }
    let mut extracted: Vec<Vec<char>> = Vec::new();
    let mut k = start + 1;
    while k < end
        invariant
            start < k <= end <= ls.len(),
            gl == views(ls@),
            views(extracted@) == gl.subrange(start + 1, k as int),
        decreases end - k,
    {
        let mut c: Vec<char> = Vec::new();
        extend_all(&mut c, &ls[k]);
        let ghost before = views(extracted@);
        extracted.push(c);
        proof {
            assert(c@ == gl[k as int]);
            assert(views(extracted@) =~= before.push(c@));
            assert(views(extracted@) =~= gl.subrange(start + 1, k + 1));
        }
        k += 1;
    }
    let mut rep: Vec<char> = Vec::new();
    extend_all(&mut rep, &ls[start]);
    push_str(&mut rep, "\n\nSee [");
    match link_text {
        Some(t) => push_str(&mut rep, t.as_str()),
        None => extend_all(&mut rep, &title),
    }
    push_str(&mut rep, "](");
    push_str(&mut rep, crate::paths::compute_relative_path(source, target).as_str());
    push_str(&mut rep, ").\n");
    let mut remaining: Vec<Vec<char>> = Vec::new();
    let mut q: usize = 0;
    while q < start
        invariant
            q <= start < ls.len(),
            gl == views(ls@),
            views(remaining@) == gl.subrange(0, q as int),
        decreases start - q,
    {
        let mut c: Vec<char> = Vec::new();
        extend_all(&mut c, &ls[q]);
        let ghost before = views(remaining@);
        remaining.push(c);
        proof {
            assert(c@ == gl[q as int]);
            assert(views(remaining@) =~= before.push(c@));
            assert(views(remaining@) =~= gl.subrange(0, q + 1));
        }
        q += 1;
    }
    let ghost rv = rep@;
    remaining.push(rep);
    proof {
        assert(views(remaining@) =~= gl.subrange(0, start as int) + seq![rv]);
    }
    let mut q2 = end;
    while q2 < ls.len()
        invariant
            start < end <= q2 <= ls.len(),
            gl == views(ls@),
            views(remaining@) == gl.subrange(0, start as int) + seq![rv] + gl.subrange(end as int, q2 as int),
        decreases ls.len() - q2,
    {
        let mut c: Vec<char> = Vec::new();
        extend_all(&mut c, &ls[q2]);
        let ghost before = views(remaining@);
        remaining.push(c);
        proof {
            assert(c@ == gl[q2 as int]);
            assert(views(remaining@) =~= before.push(c@));
            assert(views(remaining@) =~= gl.subrange(0, start as int) + seq![rv] + gl.subrange(end as int, q2 + 1));
        }
        q2 += 1;
    }
    let nb = join_like_exec(&remaining, body);
    proof {
        let lt = match opt_chars(*link_text) {
            Some(t) => t,
            None => title@,
        };
        assert(rv =~= gl[start as int] + "\n\nSee ["@ + lt + "]("@ + crate::paths::relative_link(source@, target@) + ").\n"@);
        assert(gl.subrange(end as int, q2 as int) =~= gl.subrange(end as int, gl.len() as int));
    }
    Some((title, extracted, nb))
}

/// [`ref_labels`] in exec form.
fn ref_labels_exec(text: &str) -> (r: Vec<Vec<char>>)
    ensures
        views(r@) == ref_labels(text@),
{
    let refs = crate::footnotes::extract_refs(text);
    let ghost want = ref_labels(text@);
    let ghost rv = refs@.map_values(|f: crate::footnotes::FootnoteRef| (f.label@, f.line as int));
    let mut out: Vec<Vec<char>> = Vec::new();
    let mut k: usize = 0;
    while k < refs.len()
        invariant
            k <= refs.len(),
            rv == refs@.map_values(|f: crate::footnotes::FootnoteRef| (f.label@, f.line as int)),
            rv == crate::footnotes::refs_upto(crate::markdown::code_free(text@), crate::markdown::code_free(text@).len() as int),
            want == ref_labels(text@),
            views(out@) == want.take(k as int),
        decreases refs.len() - k,
    {
        let ghost before = views(out@);
        out.push(chars_of(refs[k].label.as_str()));
        proof {
            assert(want[k as int] == refs@[k as int].label@);
            assert(views(out@) =~= before.push(want[k as int]));
            assert(want.take(k + 1) =~= want.take(k as int).push(want[k as int]));
        }
        k += 1;
    }
    proof {
        assert(want.take(k as int) =~= want);
    }
    out
}

/// The definitions of a body whose label is in `labels`, in order.
fn defs_in_exec(defs: &Vec<crate::footnotes::FootnoteDef>, labels: &Vec<Vec<char>>) -> (r: Vec<crate::footnotes::FootnoteDef>)
    ensures
        r@.map_values(|f: crate::footnotes::FootnoteDef| (f.label@, f.text@, f.line as int)) == defs_in(
            defs@.map_values(|f: crate::footnotes::FootnoteDef| (f.label@, f.text@, f.line as int)),
            views(labels@),
            defs@.len() as int,
        ),
{
    let ghost dv = defs@.map_values(|f: crate::footnotes::FootnoteDef| (f.label@, f.text@, f.line as int));
    let mut out: Vec<crate::footnotes::FootnoteDef> = Vec::new();
    let mut k: usize = 0;
    while k < defs.len()
        invariant
            k <= defs.len(),
            dv == defs@.map_values(|f: crate::footnotes::FootnoteDef| (f.label@, f.text@, f.line as int)),
            out@.map_values(|f: crate::footnotes::FootnoteDef| (f.label@, f.text@, f.line as int)) == defs_in(dv, views(labels@), k as int),
        decreases defs.len() - k,
    {
        let d = &defs[k];
        if holds_chars(labels, &chars_of(d.label.as_str())) {
            let c = crate::footnotes::FootnoteDef { label: d.label.clone(), text: d.text.clone(), line: d.line };
            let ghost before = out@.map_values(|f: crate::footnotes::FootnoteDef| (f.label@, f.text@, f.line as int));
            out.push(c);
            proof {
                assert(out@.map_values(|f: crate::footnotes::FootnoteDef| (f.label@, f.text@, f.line as int)) =~= before.push(dv[k as int]));
            }
        }
        k += 1;
    }
    out
}

/// The sources cited by a label in `labels`, in order.
fn sources_cited_exec(srcs: &Vec<crate::provenance::Source>, labels: &Vec<Vec<char>>) -> (r: Vec<crate::provenance::Source>)
    ensures
        crate::provenance::source_views(r@) == sources_cited(crate::provenance::source_views(srcs@), views(labels@), srcs@.len() as int),
{
    let ghost sv = crate::provenance::source_views(srcs@);
    let mut out: Vec<crate::provenance::Source> = Vec::new();
    let mut k: usize = 0;
    while k < srcs.len()
        invariant
            k <= srcs.len(),
            sv == crate::provenance::source_views(srcs@),
            crate::provenance::source_views(out@) == sources_cited(sv, views(labels@), k as int),
        decreases srcs.len() - k,
    {
        let s = &srcs[k];
        let id: Vec<char> = match &s.id {
            Some(x) => chars_of(x.as_str()),
            None => Vec::new(),
        };
        proof {
            assert(id@ == cite_id(sv[k as int]));
        }
        if holds_chars(labels, &id) {
            let c = clone_source(s);
            let ghost before = crate::provenance::source_views(out@);
            out.push(c);
            proof {
                assert(crate::provenance::source_views(out@) =~= before.push(sv[k as int]));
            }
        }
        k += 1;
    }
    out
}

/// A list of sources as a `sources` value.
fn sources_value(list: &Vec<crate::provenance::Source>) -> (r: crate::yaml::Value)
    ensures
        crate::yaml::vview(r) == ValueView::List(crate::provenance::source_views(list@).map_values(
            |x: crate::provenance::SourceView| crate::provenance::source_value(x),
        )),
{
    let ghost want = crate::provenance::source_views(list@).map_values(
        |x: crate::provenance::SourceView| crate::provenance::source_value(x),
    );
    let mut vals: Vec<crate::yaml::Value> = Vec::new();
    let mut k: usize = 0;
    while k < list.len()
        invariant
            k <= list.len(),
            want == crate::provenance::source_views(list@).map_values(
                |x: crate::provenance::SourceView| crate::provenance::source_value(x),
            ),
            vals@.len() == k,
            crate::yaml::vviews(vals@, k as int) == want.take(k as int),
        decreases list.len() - k,
    {
        let v = list[k].to_yaml_value();
        proof {
            crate::yaml::lemma_vviews_push(vals@, v);
            assert(want.take(k + 1) =~= want.take(k as int).push(want[k as int]));
        }
        vals.push(v);
        k += 1;
    }
    proof {
        assert(want.take(k as int) =~= want);
    }
    crate::yaml::Value::Sequence(vals)
}

/// Appends `key: text` to a frontmatter with no entry under that key.
fn push_fm_text(f: &mut crate::document::Frontmatter, key: &str, v: &[char])
    requires
        forall|k: int| 0 <= k < old(f)@.len() ==> (#[trigger] old(f)@[k]).0 != ValueView::Str(key@),
    ensures
        final(f)@ == old(f)@.push((ValueView::Str(key@), ValueView::Str(v@))),
{
    proof {
        crate::provenance::lemma_key_absent(f@, key@, 0);
    }
    f.set(key, crate::yaml::Value::Text(string_of(v)));
}

/// [`split_fm`] in exec form.
fn split_fm_exec(type_: &[char], title: &[char], status: &[char], author: &[char], at: &[char], srcs: &Vec<crate::provenance::Source>) -> (r: crate::document::Frontmatter)
    ensures
        r@ == split_fm(type_@, title@, status@, author@, at@, crate::provenance::source_views(srcs@)),
{
    let mut f = crate::document::Frontmatter::new();
    proof {
        reveal_strlit("type");
        reveal_strlit("title");
        reveal_strlit("status");
        reveal_strlit("generated");
        reveal_strlit("sources");
        reveal_strlit("by");
        reveal_strlit("at");
    }
    proof {
        assert(f@ =~= Seq::<(ValueView, ValueView)>::empty());
    }
    push_fm_text(&mut f, "type", type_);
    proof {
        assert("type"@.len() != "title"@.len());
        assert(forall|k: int| 0 <= k < f@.len() ==> (#[trigger] f@[k]).0 == ValueView::Str("type"@));
    }
    push_fm_text(&mut f, "title", title);
    proof {
        assert("type"@.len() != "status"@.len() && "title"@.len() != "status"@.len());
        assert(forall|k: int| 0 <= k < f@.len() ==> (#[trigger] f@[k]).0 == ValueView::Str("type"@) || f@[k].0 == ValueView::Str("title"@));
    }
    push_fm_text(&mut f, "status", status);
    proof {
        assert("type"@.len() != "generated"@.len() && "title"@.len() != "generated"@.len() && "status"@.len() != "generated"@.len());
        assert("type"@.len() != "sources"@.len() && "title"@.len() != "sources"@.len() && "status"@.len() != "sources"@.len()
            && "generated"@.len() != "sources"@.len());
        assert(forall|k: int| 0 <= k < f@.len() ==> (#[trigger] f@[k]).0 == ValueView::Str("type"@) || f@[k].0 == ValueView::Str("title"@)
            || f@[k].0 == ValueView::Str("status"@));
    }
    let mut g = crate::yaml::Mapping::new();
    g.insert("by", crate::yaml::Value::Text(string_of(author)));
    proof {
        assert("by"@[1] != "at"@[1]);
        crate::provenance::lemma_key_absent(g@, "at"@, 0);
    }
    g.insert("at", crate::yaml::Value::Text(string_of(at)));
    proof {
        assert(g@ =~= seq![(ValueView::Str("by"@), ValueView::Str(author@)), (ValueView::Str("at"@), ValueView::Str(at@))]);
        crate::provenance::lemma_key_absent(f@, "generated"@, 0);
    }
    let ghost f3 = f@;
    f.set("generated", crate::yaml::Value::Mapping(g));
    proof {
        assert(f@ =~= seq![
            (ValueView::Str("type"@), ValueView::Str(type_@)),
            (ValueView::Str("title"@), ValueView::Str(title@)),
            (ValueView::Str("status"@), ValueView::Str(status@)),
            (ValueView::Str("generated"@), ValueView::Pairs(seq![(ValueView::Str("by"@), ValueView::Str(author@)), (ValueView::Str("at"@), ValueView::Str(at@))])),
        ]);
    }
    if srcs.len() > 0 {
        proof {
            crate::provenance::lemma_key_absent(f@, "sources"@, 0);
        }
        f.set("sources", sources_value(srcs));
    }
    proof {
        assert(f@ =~= split_fm(type_@, title@, status@, author@, at@, crate::provenance::source_views(srcs@)));
    }
    f
}

/// [`split_body`] in exec form.
fn split_body_exec(title: &[char], extracted: &[char], defs: &Vec<crate::footnotes::FootnoteDef>) -> (r: Vec<char>)
    ensures
        r@ == split_body(title@, extracted@, defs@.map_values(|f: crate::footnotes::FootnoteDef| (f.label@, f.text@, f.line as int))),
{
    let ghost dv = defs@.map_values(|f: crate::footnotes::FootnoteDef| (f.label@, f.text@, f.line as int));
    let mut out: Vec<char> = Vec::new();
    push_str(&mut out, "# ");
    extend_all(&mut out, title);
    push_str(&mut out, "\n\n");
    extend_all(&mut out, &crate::markdown::trimmed(extracted));
    push_str(&mut out, "\n");
    let ghost head = out@;
    if defs.len() > 0 {
        push_str(&mut out, "\n");
        let ghost head2 = out@;
        let mut k: usize = 0;
        while k < defs.len()
            invariant
                k <= defs.len(),
                dv == defs@.map_values(|f: crate::footnotes::FootnoteDef| (f.label@, f.text@, f.line as int)),
                out@ == head2 + def_lines(dv.take(k as int)),
            decreases defs.len() - k,
        {
            push_str(&mut out, "[^");
            push_str(&mut out, defs[k].label.as_str());
            push_str(&mut out, "]: ");
            push_str(&mut out, defs[k].text.as_str());
            push_str(&mut out, "\n");
            proof {
                assert(dv.take(k + 1).drop_last() =~= dv.take(k as int));
                assert(out@ =~= head2 + def_lines(dv.take(k + 1)));
            }
            k += 1;
        }
        proof {
            assert(dv.take(k as int) =~= dv);
        }
    }
    proof {
        assert(out@ =~= split_body(title@, extracted@, dv));
    }
    out
}

fn split_message_exec(section: &str, source: &ConceptId, target: &ConceptId, author: &Option<String>) -> (r: String)
    ensures
        r@ == split_message(section@, source@, target@, opt_chars(*author)),
{
    let mut m: Vec<char> = Vec::new();
    push_str(&mut m, "Extracted section `");
    push_str(&mut m, section);
    push_str(&mut m, "` from `");
    push_str(&mut m, source.to_string().as_str());
    push_str(&mut m, "` into new concept `");
    push_str(&mut m, target.to_string().as_str());
    push_str(&mut m, "`");
    push_by_suffix(&mut m, author);
    push_str(&mut m, ".");
    proof {
        assert(m@ =~= split_message(section@, source@, target@, opt_chars(*author)));
    }
    string_of(&m)
}

/// Splits a section out of concept `source` into a new concept `target`,
/// generated by `fallback_author` (unless the options name an author) at
/// the time `at`: the section's lines become the new concept's body under
/// its title, the footnote definitions and sources they cite go with them,
/// and the section in the source is replaced by a link to the new concept.
pub fn split_concept_at(
    bundle: &Bundle,
    source: &ConceptId,
    target: &ConceptId,
    options: &SplitOptions,
    fallback_author: &str,
    at: &str,
) -> (r: Result<(SplitReport, Plan), RefactorError>)
    requires
        target.wf(),
    ensures
        split_outcome(bundle@, source@, target@, options, fallback_author@, at@, r),
{
    if source.same(target) {
        return Err(RefactorError::SameSourceAndTarget(source.clone()));
    }
    let c = match bundle.get(source) {
        Some(c) => c,
        None => {
            return Err(RefactorError::ConceptNotFound(source.clone()));
        },
    };
    if !options.force && bundle.contains(target) {
        return Err(RefactorError::ConceptAlreadyExists(target.clone()));
    }
    let root = bundle.root();
    let source_path = source.to_path(root);
    let target_path = target.to_path(root);
    let lt: Option<String> = match &options.link_text {
        Some(t) => Some(t.clone()),
        None => clone_opt(&options.title),
    };
    let body = chars_of(c.document.body.as_str());
    let (heading, extracted, new_body) = match extract_section_exec(&body, options.section.as_str(), &c.id, target, &lt) {
        Some(x) => x,
        None => {
            return Err(RefactorError::SectionNotFound { concept: source.clone(), section: options.section.clone() });
        },
    };
    let title: Vec<char> = match &options.title {
        Some(t) => chars_of(t.as_str()),
        None => heading,
    };
    let nl = chars_of("\n");
    let text = crate::text::join_lines(&extracted, &nl);
    let text_s = string_of(&text);
    let new_body_s = string_of(&new_body);
    let xl = ref_labels_exec(text_s.as_str());
    let rl = ref_labels_exec(new_body_s.as_str());
    let all_defs = crate::footnotes::extract_definitions(c.document.body.as_str());
    let defs = defs_in_exec(&all_defs, &xl);
    let srcs = crate::provenance::sources_in(&c.document.frontmatter);
    let moved = sources_cited_exec(&srcs, &xl);
    let kept = sources_cited_exec(&srcs, &rl);
    let type_: Vec<char> = match &options.type_ {
        Some(t) => chars_of(t.as_str()),
        None => chars_of("Concept"),
    };
    let by: Vec<char> = match &options.author {
        Some(a) => chars_of(a.as_str()),
        None => chars_of(fallback_author),
    };
    let status = c.document.frontmatter.status();
    let status_s = chars_of(status.as_str());
    proof {
        reveal_strlit("draft");
        reveal_strlit("stable");
        reveal_strlit("deprecated");
        assert(status_s@ == status_text(crate::document::field_text(c@.fm, "status"@)));
    }
    let tfm = split_fm_exec(&type_, &title, &status_s, &by, &chars_of(at), &moved);
    let tbody = split_body_exec(&title, &text, &defs);
    let mut affected: Vec<String> = Vec::new();
    affected.push(source_path.clone());
    affected.push(target_path.clone());
    let mut edits: Vec<FileEdit> = Vec::new();
    if !options.dry_run {
        let mut sfm = c.document.frontmatter.deep_clone();
        if kept.len() == 0 {
            sfm.remove("sources");
        } else {
            sfm.set("sources", sources_value(&kept));
        }
        edits.push(FileEdit::Write { path: target_path.clone(), document: Document::new(tfm, string_of(&tbody)) });
        edits.push(FileEdit::Write { path: source_path.clone(), document: Document::new(sfm, new_body_s) });
    }
    let log = if !options.dry_run && options.update_log {
        let msg = split_message_exec(options.section.as_str(), source, target, &options.author);
        Some(LogNote { kind: string_of(&chars_of("Creation")), message: msg })
    } else {
        None
    };
    proof {
        assert(crate::concept_id::texts(affected@) =~= seq![source_path@, target_path@]);
        if !options.dry_run {
            assert(edit_views(edits@) =~= seq![edits@[0]@, edits@[1]@]);
        } else {
            assert(edit_views(edits@) =~= Seq::<EditView>::empty());
        }
    }
    let report = SplitReport {
        source: source.clone(),
        target: target.clone(),
        section: options.section.clone(),
        target_title: string_of(&title),
        target_path,
        extracted_lines_count: extracted.len(),
        moved_sources_count: moved.len(),
        affected_files: affected,
        dry_run: options.dry_run,
    };
    Ok((report, Plan { edits, log, update_index: !options.dry_run && options.update_index }))
}

/// [`split_concept_at`] at the current time.
pub fn split_concept(bundle: &Bundle, source: &ConceptId, target: &ConceptId, options: &SplitOptions, fallback_author: &str) -> (r: Result<(SplitReport, Plan), RefactorError>)
    requires
        target.wf(),
    ensures
        exists|at: Seq<char>| #[trigger] split_outcome(bundle@, source@, target@, options, fallback_author@, at, r)
            && crate::scaffold::is_timestamp(at),
{
    let now = crate::scaffold::current_iso_timestamp();
    split_concept_at(bundle, source, target, options, fallback_author, now.as_str())
}

} // verus!
