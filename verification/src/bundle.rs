//! A loaded OKF bundle: the markdown concepts of a directory tree, with the
//! cross-link graph their bodies form and the derivation graph their
//! `sources` form.
//!
//! Loading is permissive: a file whose frontmatter cannot be parsed, or
//! whose path names no valid concept id, is recorded in the bundle's parse
//! errors instead of stopping the load, and a link to a concept that does
//! not exist is kept as a broken link. The reserved `index.md` and `log.md`
//! files are recorded, not parsed as concepts. The files themselves are read
//! by the caller and handed over as `(bundle-relative path, text)` entries.
use vstd::prelude::*;
use crate::computation::{contract_of, AttestedComputation, ContractView};
use crate::concept_id::{path_segments, texts, under_root, valid_segments, ConceptId, ConceptIdError};
use crate::date::{Date, DateTime};
use crate::document::{doc_spec, field_text, opt_text, Document, DocumentError, DocumentErrorView};
use crate::provenance::{frontmatter_sources, source_views, Source};
use crate::text::{chars_of, str_eq, string_of};
use crate::trust::{Status, TrustTier};
use crate::yaml::{lookup, ValueView};

verus! {

broadcast use vstd::string::group_string_axioms;

/// A concept as sequences: id, file path, frontmatter, body.
pub struct ConceptView {
    pub id: Seq<Seq<char>>,
    pub path: Seq<char>,
    pub fm: Seq<(ValueView, ValueView)>,
    pub body: Seq<char>,
}

/// A single concept within a bundle (one markdown document).
#[derive(Debug)]
pub struct Concept {
    /// The concept's id (its path minus `.md`).
    pub id: ConceptId,
    /// The file's path.
    pub path: String,
    /// The parsed document.
    pub document: Document,
}

/// Whether a frontmatter's `type` is `Attested Computation`.
pub open spec fn is_attested(fm: Seq<(ValueView, ValueView)>) -> bool {
    field_text(fm, "type"@) == Some("Attested Computation"@)
}

/// The title shown for a concept: its `title`, else the last segment of its
/// id.
pub open spec fn display_title_of(c: ConceptView) -> Seq<char> {
    match field_text(c.fm, "title"@) {
        Some(t) => t,
        None => c.id.last(),
    }
}

impl Concept {
    /// The concept as sequences.
    pub open spec fn view(&self) -> ConceptView {
        ConceptView {
            id: self.id@,
            path: self.path@,
            fm: self.document.frontmatter@,
            body: self.document.body@,
        }
    }

    /// The concept's `type`.
    pub fn type_(&self) -> (r: Option<String>)
        ensures
            opt_text(r) == field_text(self@.fm, "type"@),
    {
        self.document.frontmatter.type_()
    }

    /// The concept's `title`, falling back to the final segment of its id.
    pub fn display_title(&self) -> (r: String)
        requires
            self.id.wf(),
        ensures
            r@ == display_title_of(self@),
    {
        match self.document.frontmatter.title() {
            Some(t) => t,
            None => self.id.name().to_string(),
        }
    }

    /// The trust tier derived from `verified`.
    pub fn trust_tier(&self) -> (r: TrustTier)
        ensures
            exists|evs: Seq<crate::trust::Verification>| evs.len() == crate::document::verified_of(self@.fm).len()
                && (forall|k: int| 0 <= k < evs.len() ==> crate::trust::by_at_match(#[trigger] evs[k].by, evs[k].at, crate::document::verified_of(self@.fm)[k]))
                && r == crate::trust::tier_of(evs),
    {
        self.document.frontmatter.trust_tier()
    }

    /// The lifecycle `status`; absent means stable.
    pub fn status(&self) -> (r: Status)
        ensures
            crate::trust::status_matches(r, field_text(self@.fm, "status"@)),
    {
        self.document.frontmatter.status()
    }

    /// Whether this concept is stale at `now`: `now >= stale_after`.
    pub fn is_stale_at(&self, now: DateTime) -> (r: bool)
        requires
            crate::date::well_formed(now),
        ensures
            r == crate::document::stale_field(field_text(self@.fm, "stale_after"@), now),
    {
        self.document.frontmatter.is_stale_at(now)
    }

    /// Whether `today >= stale_after`, judged at midnight UTC.
    pub fn is_stale_on(&self, today: Date) -> (r: bool)
        requires
            crate::date::well_formed(crate::date::midnight_utc(today)),
        ensures
            r == crate::document::stale_field(field_text(self@.fm, "stale_after"@), crate::date::midnight_utc(today)),
    {
        self.document.frontmatter.is_stale_on(today)
    }

    /// The `sources` this concept derives from.
    pub fn sources(&self) -> (r: Vec<Source>)
        ensures
            source_views(r@) == frontmatter_sources(self@.fm),
    {
        crate::provenance::sources_in(&self.document.frontmatter)
    }

    /// The Attested Computation contract, when this concept is one.
    pub fn attested_computation(&self) -> (r: Option<AttestedComputation>)
        ensures
            match r {
                Some(c) => is_attested(self@.fm) && c@ == contract_of(self@.fm, self@.body),
                None => !is_attested(self@.fm),
            },
    {
        if self.document.frontmatter.is_attested_computation() {
            Some(AttestedComputation::from_parts(&self.document.frontmatter, self.document.body.as_str()))
        } else {
            None
        }
    }
}


// ---------------------------------------------------------------------------
// Loading.
// ---------------------------------------------------------------------------

/// The index just past the last `/` before `j`, or 0.
pub open spec fn last_slash_end(p: Seq<char>, j: int) -> int
    decreases j,
{
    if j <= 0 || j > p.len() {
        0
    } else if p[j - 1] == '/' {
        j
    } else {
        last_slash_end(p, j - 1)
    }
}

/// The file name of a path: what follows its last `/`.
pub open spec fn file_name(p: Seq<char>) -> Seq<char> {
    p.subrange(last_slash_end(p, p.len() as int), p.len() as int)
}

/// Why a file was not loaded as a concept.
#[derive(Debug)]
pub enum LoadError {
    /// The document could not be parsed.
    Document(DocumentError),
    /// The path names no valid concept id.
    Path(ConceptIdError),
    /// An earlier file already gave a concept this id.
    DuplicateId,
}

/// A load error as sequences.
pub enum LoadErrorView {
    Document(DocumentErrorView),
    Path(crate::concept_id::ConceptIdErrorView),
    DuplicateId,
}

impl LoadError {
    /// The error as sequences.
    pub open spec fn view(&self) -> LoadErrorView {
        match self {
            LoadError::Document(e) => LoadErrorView::Document(e@),
            LoadError::Path(e) => LoadErrorView::Path(e@),
            LoadError::DuplicateId => LoadErrorView::DuplicateId,
        }
    }
}

/// What one file contributes to a bundle.
pub enum Outcome {
    /// Not a markdown file (or handed over without its text).
    Skip,
    /// A reserved `index.md`.
    Index,
    /// A reserved `log.md`.
    Log,
    /// A concept: its id, frontmatter and body.
    Concept(Seq<Seq<char>>, Seq<(ValueView, ValueView)>, Seq<char>),
    /// A markdown file that is no concept.
    Error(LoadErrorView),
}

/// What the file at bundle-relative path `rel` with text `text` contributes:
/// `index.md` and `log.md` are reserved; another markdown file is parsed,
/// and its path minus `.md` must be a valid concept id.
pub open spec fn outcome(rel: Seq<char>, text: Option<Seq<char>>) -> Outcome {
    let name = file_name(rel);
    if name == "index.md"@ {
        Outcome::Index
    } else if name == "log.md"@ {
        Outcome::Log
    } else if !crate::concept_id::is_md_name(name) {
        Outcome::Skip
    } else {
        match text {
            None => Outcome::Skip,
            Some(t) => match doc_spec(t) {
                Err(e) => Outcome::Error(LoadErrorView::Document(e)),
                Ok((fm, body)) => match path_segments(rel) {
                    Some(segs) => if valid_segments(segs) {
                        Outcome::Concept(segs, fm, body)
                    } else {
                        Outcome::Error(LoadErrorView::Path(crate::concept_id::path_error(""@, rel)))
                    },
                    None => Outcome::Error(LoadErrorView::Path(crate::concept_id::path_error(""@, rel))),
                },
            },
        }
    }
}

/// Whether a concept among `cs` has this id.
pub open spec fn has_id(cs: Seq<ConceptView>, id: Seq<Seq<char>>) -> bool {
    exists|k: int| 0 <= k < cs.len() && (#[trigger] cs[k]).id == id
}

/// What loading a list of files gives.
pub struct LoadView {
    pub concepts: Seq<ConceptView>,
    pub index_files: Seq<Seq<char>>,
    pub log_files: Seq<Seq<char>>,
    pub errors: Seq<(Seq<char>, LoadErrorView)>,
}

/// The result of loading the first `n` files, in order: each file's
/// [`outcome`], its path placed under the root; a concept whose id an
/// earlier one already has is an error.
pub open spec fn loaded(root: Seq<char>, es: Seq<(Seq<char>, Option<Seq<char>>)>, n: int) -> LoadView
    decreases n,
{
    if n <= 0 {
        LoadView { concepts: seq![], index_files: seq![], log_files: seq![], errors: seq![] }
    } else {
        load_step(root, es[n - 1].0, es[n - 1].1, loaded(root, es, n - 1))
    }
}

/// What adding one file to a partial load gives.
pub open spec fn load_step(root: Seq<char>, rel: Seq<char>, text: Option<Seq<char>>, p: LoadView) -> LoadView {
    let full = under_root(root, rel);
    match outcome(rel, text) {
        Outcome::Skip => p,
        Outcome::Index => LoadView { index_files: p.index_files.push(full), ..p },
        Outcome::Log => LoadView { log_files: p.log_files.push(full), ..p },
        Outcome::Error(e) => LoadView { errors: p.errors.push((full, e)), ..p },
        Outcome::Concept(id, fm, body) => if has_id(p.concepts, id) {
            LoadView { errors: p.errors.push((full, LoadErrorView::DuplicateId)), ..p }
        } else {
            LoadView { concepts: p.concepts.push(ConceptView { id, path: full, fm, body }), ..p }
        },
    }
}

/// The first root `index.md` at or after `i`, or the length.
pub open spec fn root_index(es: Seq<(Seq<char>, Option<Seq<char>>)>, i: int) -> int
    decreases es.len() - i,
{
    if i < 0 || i >= es.len() {
        es.len() as int
    } else if es[i].0 == "index.md"@ {
        i
    } else {
        root_index(es, i + 1)
    }
}

/// The `okf_version` string the root `index.md` declares, if it parses and
/// declares one.
pub open spec fn declared_version(es: Seq<(Seq<char>, Option<Seq<char>>)>) -> Option<Seq<char>> {
    let i = root_index(es, 0);
    if i >= es.len() {
        None
    } else {
        match es[i].1 {
            None => None,
            Some(t) => match doc_spec(t) {
                Ok((fm, _)) => match lookup(fm, "okf_version"@) {
                    Some(ValueView::Str(v)) => Some(v),
                    _ => None,
                },
                Err(_) => None,
            },
        }
    }
}

/// A bundle as sequences.
pub struct BundleView {
    pub root: Seq<char>,
    pub files: Seq<Seq<char>>,
    pub concepts: Seq<ConceptView>,
    pub index_files: Seq<Seq<char>>,
    pub log_files: Seq<Seq<char>>,
    pub errors: Seq<(Seq<char>, LoadErrorView)>,
    pub okf_version: Option<Seq<char>>,
}

/// The files handed to [`Bundle::load`] as sequences.
pub open spec fn entry_views(es: Seq<(String, Option<String>)>) -> Seq<(Seq<char>, Option<Seq<char>>)> {
    es.map_values(|e: (String, Option<String>)| (e.0@, opt_text(e.1)))
}

/// The bundle that loading `es` under `root` gives.
pub open spec fn bundle_of(root: Seq<char>, es: Seq<(Seq<char>, Option<Seq<char>>)>) -> BundleView {
    let l = loaded(root, es, es.len() as int);
    BundleView {
        root,
        files: es.map_values(|e: (Seq<char>, Option<Seq<char>>)| e.0),
        concepts: l.concepts,
        index_files: l.index_files,
        log_files: l.log_files,
        errors: l.errors,
        okf_version: declared_version(es),
    }
}

/// Every id is valid and no two concepts share one.
pub open spec fn ids_ok(cs: Seq<ConceptView>) -> bool {
    &&& forall|k: int| 0 <= k < cs.len() ==> valid_segments(#[trigger] cs[k].id)
    &&& forall|j: int, k: int| 0 <= j < cs.len() && 0 <= k < cs.len() && j != k ==> (#[trigger] cs[j]).id != (#[trigger] cs[k]).id
}

/// The views of a list of concepts.
pub open spec fn concept_views(cs: Seq<Concept>) -> Seq<ConceptView> {
    cs.map_values(|c: Concept| c@)
}

/// A loaded OKF bundle.
#[derive(Debug)]
pub struct Bundle {
    root: String,
    files: Vec<String>,
    concepts: Vec<Concept>,
    index_files: Vec<String>,
    log_files: Vec<String>,
    parse_errors: Vec<(String, LoadError)>,
    okf_version: Option<String>,
}

/// The views of a list of path and error pairs.
pub open spec fn error_views(v: Seq<(String, LoadError)>) -> Seq<(Seq<char>, LoadErrorView)> {
    v.map_values(|e: (String, LoadError)| (e.0@, e.1@))
}

impl Bundle {
    /// The bundle as sequences.
    pub closed spec fn view(&self) -> BundleView {
        BundleView {
            root: self.root@,
            files: texts(self.files@),
            concepts: concept_views(self.concepts@),
            index_files: texts(self.index_files@),
            log_files: texts(self.log_files@),
            errors: error_views(self.parse_errors@),
            okf_version: opt_text(self.okf_version),
        }
    }

    #[verifier::type_invariant]
    closed spec fn inv(&self) -> bool {
        ids_ok(concept_views(self.concepts@))
    }
}

/// `rel` placed under `root`, as a `String`.
pub(crate) fn join_root(root: &str, rel: &str) -> (r: String)
    ensures
        r@ == under_root(root@, rel@),
{
    let rv = chars_of(root);
    let mut out: Vec<char> = Vec::new();
    crate::text::extend_all(&mut out, &rv);
    if rv.len() > 0 && rv[rv.len() - 1] != '/' {
        out.push('/');
    }
    crate::text::extend_all(&mut out, &chars_of(rel));
    proof {
        reveal_strlit("/");
        assert(out@ =~= under_root(root@, rel@));
    }
    string_of(&out)
}

/// The file name of a path, in exec form.
pub(crate) fn file_name_exec(p: &[char]) -> (r: Vec<char>)
    ensures
        r@ == file_name(p@),
{
    let mut j = p.len();
    while j > 0 && p[j - 1] != '/'
        invariant
            j <= p.len(),
            last_slash_end(p@, j as int) == last_slash_end(p@, p@.len() as int),
        decreases j,
    {
        j -= 1;
    }
    let mut out: Vec<char> = Vec::new();
    crate::text::extend_range(&mut out, p, j, p.len());
    out
}

/// Whether a concept among `cs` has this id, in exec form.
fn find_concept(cs: &Vec<Concept>, id: &ConceptId) -> (r: Option<usize>)
    ensures
        match r {
            Some(k) => k < cs.len() && cs@[k as int]@.id == id@,
            None => !has_id(concept_views(cs@), id@),
        },
{
    let mut k: usize = 0;
    while k < cs.len()
        invariant
            k <= cs.len(),
            forall|j: int| 0 <= j < k ==> (#[trigger] cs@[j])@.id != id@,
        decreases cs.len() - k,
    {
        if cs[k].id.same(id) {
            return Some(k);
        }
        k += 1;
    }
    proof {
        if has_id(concept_views(cs@), id@) {
            let j = choose|j: int| 0 <= j < concept_views(cs@).len() && (#[trigger] concept_views(cs@)[j]).id == id@;
            assert(concept_views(cs@)[j] == cs@[j]@);
        }
    }
    None
}


/// [`crate::concept_id::is_md_name`] in exec form.
fn is_md_exec(name: &[char]) -> (r: bool)
    ensures
        r == crate::concept_id::is_md_name(name@),
{
    let n = name.len();
    proof {
        reveal_strlit(".md");
    }
    if n <= 3 {
        return false;
    }
    let r = name[n - 3] == '.' && name[n - 2] == 'm' && name[n - 1] == 'd';
    proof {
        let tail = name@.subrange(n - 3, n as int);
        assert(tail[0] == name@[n - 3] && tail[1] == name@[n - 2] && tail[2] == name@[n - 1]);
        if r {
            assert(tail =~= ".md"@);
        } else {
            assert(tail != ".md"@) by {
                if tail == ".md"@ {
                    assert(".md"@[0] == '.' && ".md"@[1] == 'm' && ".md"@[2] == 'd');
                }
            }
        }
    }
    r
}

/// Whether a text is short enough to parse.
pub open spec fn text_fits(o: Option<String>) -> bool {
    match o {
        Some(t) => t@.len() <= usize::MAX / 8,
        None => true,
    }
}

/// Whether every text handed over is short enough to parse.
pub open spec fn texts_fit(es: Seq<(String, Option<String>)>) -> bool {
    forall|k: int| 0 <= k < es.len() ==> text_fits(#[trigger] es[k].1)
}

/// The `okf_version` the root `index.md` declares (see [`declared_version`]).
fn version_from(entries: &Vec<(String, Option<String>)>) -> (r: Option<String>)
    requires
        texts_fit(entries@),
    ensures
        opt_text(r) == declared_version(entry_views(entries@)),
{
    let ghost es = entry_views(entries@);
    let mut i: usize = 0;
    while i < entries.len()
        invariant
            i <= entries.len(),
            es == entry_views(entries@),
            root_index(es, i as int) == root_index(es, 0),
            texts_fit(entries@),
        decreases entries.len() - i,
    {
        if str_eq(entries[i].0.as_str(), "index.md") {
            proof {
                assert(es[i as int].0 == "index.md"@);
            }
            proof {
                assert(text_fits(entries@[i as int].1));
            }
            return match &entries[i].1 {
                None => None,
                Some(t) => match Document::parse(t.as_str()) {
                    Err(_) => None,
                    Ok(doc) => match doc.frontmatter.get("okf_version") {
                        Some(v) => match v.as_str() {
                            Some(x) => Some(x.to_string()),
                            None => None,
                        },
                        None => None,
                    },
                },
            };
        }
        proof {
            assert(es[i as int].0 == entries@[i as int].0@);
        }
        i += 1;
    }
    None
}


/// Adds one file to a partial load (see [`load_step`]).
#[verifier::rlimit(50)]
fn add_file(
    root: &str,
    rel: &str,
    text: &Option<String>,
    index_name: &Vec<char>,
    log_name: &Vec<char>,
    concepts: &mut Vec<Concept>,
    index_files: &mut Vec<String>,
    log_files: &mut Vec<String>,
    errors: &mut Vec<(String, LoadError)>,
)
    requires
        text_fits(*text),
        index_name@ == "index.md"@,
        log_name@ == "log.md"@,
        ids_ok(concept_views(old(concepts)@)),
    ensures
        ids_ok(concept_views(final(concepts)@)),
        load_step(root@, rel@, opt_text(*text), LoadView {
            concepts: concept_views(old(concepts)@),
            index_files: texts(old(index_files)@),
            log_files: texts(old(log_files)@),
            errors: error_views(old(errors)@),
        }) == (LoadView {
            concepts: concept_views(final(concepts)@),
            index_files: texts(final(index_files)@),
            log_files: texts(final(log_files)@),
            errors: error_views(final(errors)@),
        }),
{
    let full = join_root(root, rel);
    let rv = chars_of(rel);
    let name = file_name_exec(&rv);
    let ghost p0 = LoadView {
        concepts: concept_views(concepts@),
        index_files: texts(index_files@),
        log_files: texts(log_files@),
        errors: error_views(errors@),
    };
    if crate::paths::same_chars(&name, &index_name) {
        let ghost before = texts(index_files@);
        index_files.push(full);
        proof {
            assert(texts(index_files@) =~= before.push(under_root(root@, rel@)));
        }
    } else if crate::paths::same_chars(&name, &log_name) {
        let ghost before = texts(log_files@);
        log_files.push(full);
        proof {
            assert(texts(log_files@) =~= before.push(under_root(root@, rel@)));
        }
    } else if is_md_exec(&name) {
        proof {
            reveal_strlit("");
            assert(""@.len() == 0);
            assert(crate::concept_id::root_prefix(""@) =~= ""@);
            assert(rel@.subrange(0, 0) =~= ""@);
            assert(crate::text::has_prefix(rel@, ""@));
            assert(rel@.subrange(0, rel@.len() as int) =~= rel@);
            assert(crate::concept_id::path_under(""@, rel@) == Some(rel@));
        }
        match text {
            None => {},
            Some(t) => match Document::parse(t.as_str()) {
                Err(e) => {
                    let ghost before = error_views(errors@);
                    let ghost ev = LoadErrorView::Document(e@);
                    errors.push((full, LoadError::Document(e)));
                    proof {
                        assert(error_views(errors@) =~= before.push((under_root(root@, rel@), ev)));
                    }
                },
                Ok(doc) => match ConceptId::from_path("", rel) {
                    Err(e) => {
                        let ghost before = error_views(errors@);
                        let ghost ev = e@;
                        errors.push((full, LoadError::Path(e)));
                        proof {
                            assert(error_views(errors@) =~= before.push((under_root(root@, rel@), LoadErrorView::Path(ev))));
                        }
                    },
                    Ok(id) => {
                        match find_concept(&concepts, &id) {
                            Some(k) => {
                                proof {
                                    assert(p0.concepts[k as int] == concepts@[k as int]@);
                                    assert(has_id(p0.concepts, id@));
                                }
                                let ghost before = error_views(errors@);
                                errors.push((full, LoadError::DuplicateId));
                                proof {
                                    assert(outcome(rel@, opt_text(*text)) == Outcome::Concept(id@, doc.frontmatter@, doc.body@));
                                    assert(error_views(errors@) =~= before.push((under_root(root@, rel@), LoadErrorView::DuplicateId)));
                                }
                            },
                            None => {
                                let ghost before = concept_views(concepts@);
                                let c = Concept { id, path: full, document: doc };
                                concepts.push(c);
                                proof {
                                    assert(outcome(rel@, opt_text(*text)) == Outcome::Concept(id@, c@.fm, c@.body));
                                    assert(!has_id(p0.concepts, id@));
                                    assert(c@ == ConceptView { id: id@, path: under_root(root@, rel@), fm: c@.fm, body: c@.body });
                                    assert(load_step(root@, rel@, opt_text(*text), p0).concepts =~= concept_views(concepts@));
                                    assert(concept_views(concepts@) =~= before.push(c@));
                                    let cs = concept_views(concepts@);
                                    assert forall|j: int, k: int| 0 <= j < cs.len() && 0 <= k < cs.len() && j != k implies (#[trigger] cs[j]).id != (#[trigger] cs[k]).id by {
                                        if j == cs.len() - 1 {
                                            assert(before[k] == cs[k]);
                                        } else if k == cs.len() - 1 {
                                            assert(before[j] == cs[j]);
                                        } else {
                                            assert(before[j] == cs[j] && before[k] == cs[k]);
                                        }
                                    }
                                    assert forall|k: int| 0 <= k < cs.len() implies valid_segments(#[trigger] cs[k].id) by {
                                        if k < cs.len() - 1 {
                                            assert(before[k] == cs[k]);
                                        }
                                    }
                                }
                            },
                        }
                    },
                },
            },
        }
    }
}

/// Whether path `a` sorts before path `b`: compared component by component
/// (the pieces between `/`), each by code point, a path that runs out first
/// sorting first (the order of `Path`).
pub open spec fn path_before(a: Seq<char>, b: Seq<char>) -> bool {
    crate::search::ids_lt(crate::concept_id::split_slash(a), crate::concept_id::split_slash(b))
}

/// Where a stable insertion puts `x` into `s`: after every entry whose path
/// `x`'s does not sort before.
pub open spec fn entry_slot(s: Seq<(Seq<char>, Option<Seq<char>>)>, x: (Seq<char>, Option<Seq<char>>), k: int) -> int
    decreases s.len() - k,
{
    if k < 0 || k >= s.len() {
        s.len() as int
    } else if path_before(x.0, s[k].0) {
        k
    } else {
        entry_slot(s, x, k + 1)
    }
}

/// The entries sorted by path, stably (equal paths keep their order).
pub open spec fn by_path(xs: Seq<(Seq<char>, Option<Seq<char>>)>) -> Seq<(Seq<char>, Option<Seq<char>>)>
    decreases xs.len(),
{
    if xs.len() == 0 {
        seq![]
    } else {
        let s = by_path(xs.drop_last());
        s.insert(entry_slot(s, xs.last(), 0), xs.last())
    }
}

proof fn lemma_entry_slot_bounds(s: Seq<(Seq<char>, Option<Seq<char>>)>, x: (Seq<char>, Option<Seq<char>>), k: int)
    requires
        0 <= k <= s.len(),
    ensures
        k <= entry_slot(s, x, k) <= s.len(),
    decreases s.len() - k,
{
    if k < s.len() && !path_before(x.0, s[k].0) {
        lemma_entry_slot_bounds(s, x, k + 1);
    }
}

proof fn lemma_by_path_len(xs: Seq<(Seq<char>, Option<Seq<char>>)>)
    ensures
        by_path(xs).len() == xs.len(),
    decreases xs.len(),
{
    if xs.len() > 0 {
        lemma_by_path_len(xs.drop_last());
        lemma_entry_slot_bounds(by_path(xs.drop_last()), xs.last(), 0);
    }
}

/// [`path_before`] in exec form.
pub(crate) fn path_less(a: &str, b: &str) -> (r: bool)
    ensures
        r == path_before(a@, b@),
{
    let x = crate::paths::split_slash_exec(&chars_of(a));
    let y = crate::paths::split_slash_exec(&chars_of(b));
    let ghost p = crate::text::views(x@);
    let ghost q = crate::text::views(y@);
    let mut i: usize = 0;
    proof {
        assert(p.subrange(0, p.len() as int) =~= p);
        assert(q.subrange(0, q.len() as int) =~= q);
    }
    loop
        invariant
            i <= x.len(),
            i <= y.len(),
            p == crate::text::views(x@),
            q == crate::text::views(y@),
            p == crate::concept_id::split_slash(a@),
            q == crate::concept_id::split_slash(b@),
            crate::search::ids_lt(p.subrange(i as int, p.len() as int), q.subrange(i as int, q.len() as int))
                == path_before(a@, b@),
        decreases x.len() - i,
    {
        let ghost u = p.subrange(i as int, p.len() as int);
        let ghost w = q.subrange(i as int, q.len() as int);
        if i == y.len() {
            return false;
        }
        if i == x.len() {
            return true;
        }
        proof {
            assert(u[0] == x@[i as int]@);
            assert(w[0] == y@[i as int]@);
        }
        if !crate::paths::same_chars(&x[i], &y[i]) {
            return crate::search::chars_less(&x[i], &y[i]);
        }
        proof {
            assert(u.drop_first() =~= p.subrange(i + 1, p.len() as int));
            assert(w.drop_first() =~= q.subrange(i + 1, q.len() as int));
        }
        i += 1;
    }
}

/// The entries sorted by path (see [`by_path`]).
pub(crate) fn sort_by_path(entries: Vec<(String, Option<String>)>) -> (r: Vec<(String, Option<String>)>)
    ensures
        entry_views(r@) == by_path(entry_views(entries@)),
        forall|k: int| 0 <= k < r@.len() ==> exists|j: int| 0 <= j < entries@.len() && #[trigger] r@[k] == entries@[j],
{
    let ghost orig = entries@;
    let ghost ov = entry_views(orig);
    let n = entries.len();
    let mut rest = entries;
    let mut out: Vec<(String, Option<String>)> = Vec::new();
    let mut taken: usize = 0;
    while rest.len() > 0
        invariant
            orig.len() == n,
            taken + rest@.len() == orig.len(),
            rest@ == orig.skip(taken as int),
            ov == entry_views(orig),
            entry_views(out@) == by_path(ov.take(taken as int)),
            forall|k: int| 0 <= k < out@.len() ==> exists|j: int| 0 <= j < orig.len() && #[trigger] out@[k] == orig[j],
        decreases rest@.len(),
    {
        let h = rest.remove(0);
        proof {
            assert(h == orig[taken as int]);
            assert(rest@ =~= orig.skip(taken + 1));
        }
        let ghost sv = entry_views(out@);
        let ghost hv = (h.0@, opt_text(h.1));
        let mut p: usize = 0;
        while p < out.len() && !path_less(h.0.as_str(), out[p].0.as_str())
            invariant
                p <= out.len(),
                sv == entry_views(out@),
                hv == (h.0@, opt_text(h.1)),
                entry_slot(sv, hv, p as int) == entry_slot(sv, hv, 0),
            decreases out.len() - p,
        {
            proof {
                assert(sv[p as int].0 == out@[p as int].0@);
            }
            p += 1;
        }
        proof {
            if p < out.len() {
                assert(sv[p as int].0 == out@[p as int].0@);
            }
        }
        let ghost before = out@;
        out.insert(p, h);
        proof {
            assert(entry_views(out@) =~= sv.insert(p as int, hv));
            let t = ov.take(taken + 1);
            assert(t.drop_last() =~= ov.take(taken as int));
            assert(t.last() == hv);
            assert forall|k: int| 0 <= k < out@.len() implies exists|j: int| 0 <= j < orig.len() && #[trigger] out@[k] == orig[j] by {
                if k == p {
                    assert(out@[k] == orig[taken as int]);
                } else if k < p {
                    assert(out@[k] == before[k]);
                } else {
                    assert(out@[k] == before[k - 1]);
                }
            }
        }
        taken += 1;
    }
    proof {
        assert(ov.take(orig.len() as int) =~= ov);
    }
    out
}

impl Bundle {
    /// Loads a bundle from its files: `entries` holds every file of the tree
    /// as `(path relative to the root, text)`, the text given for markdown
    /// files; they are taken in path order (see [`by_path`] and
    /// [`bundle_of`]), whatever order they are handed in.
    pub fn load(root: &str, entries: Vec<(String, Option<String>)>) -> (r: Bundle)
        requires
            texts_fit(entries@),
        ensures
            r@ == bundle_of(root@, by_path(entry_views(entries@))),
    {
        let ghost given = entries@;
        let entries = sort_by_path(entries);
        proof {
            assert forall|k: int| 0 <= k < entries@.len() implies text_fits(#[trigger] entries@[k].1) by {
                let j = choose|j: int| 0 <= j < given.len() && entries@[k] == given[j];
                assert(text_fits(given[j].1));
            }
        }
        let ghost es = entry_views(entries@);
        let mut files: Vec<String> = Vec::new();
        let mut concepts: Vec<Concept> = Vec::new();
        let mut index_files: Vec<String> = Vec::new();
        let mut log_files: Vec<String> = Vec::new();
        let mut errors: Vec<(String, LoadError)> = Vec::new();
        let index_name = chars_of("index.md");
        let log_name = chars_of("log.md");
        let mut i: usize = 0;
        while i < entries.len()
            invariant
                i <= entries.len(),
                es == entry_views(entries@),
                index_name@ == "index.md"@,
                log_name@ == "log.md"@,
                texts_fit(entries@),
                texts(files@) == es.take(i as int).map_values(|e: (Seq<char>, Option<Seq<char>>)| e.0),
                concept_views(concepts@) == loaded(root@, es, i as int).concepts,
                texts(index_files@) == loaded(root@, es, i as int).index_files,
                texts(log_files@) == loaded(root@, es, i as int).log_files,
                error_views(errors@) == loaded(root@, es, i as int).errors,
                ids_ok(concept_views(concepts@)),
            decreases entries.len() - i,
        {
            let rel = entries[i].0.as_str();
            let ghost prev = loaded(root@, es, i as int);
            proof {
                assert(es[i as int].0 == rel@);
                assert(es[i as int].1 == opt_text(entries@[i as int].1));
                assert(es.take(i + 1).map_values(|e: (Seq<char>, Option<Seq<char>>)| e.0)
                    =~= es.take(i as int).map_values(|e: (Seq<char>, Option<Seq<char>>)| e.0).push(rel@));
            }
            let ghost old_files = texts(files@);
            files.push(rel.to_string());
            proof {
                assert(texts(files@) =~= old_files.push(rel@));
            }
            proof {
                assert(text_fits(entries@[i as int].1));
            }
            add_file(root, rel, &entries[i].1, &index_name, &log_name, &mut concepts, &mut index_files, &mut log_files, &mut errors);
            i += 1;
        }
        proof {
            assert(es.take(entries.len() as int) =~= es);
        }
        let okf_version = version_from(&entries);
        Bundle {
            root: root.to_string(),
            files,
            concepts,
            index_files,
            log_files,
            parse_errors: errors,
            okf_version,
        }
    }
}


/// Loading never gives two concepts one id, and every concept's id is valid.
pub proof fn lemma_loaded_ids_ok(root: Seq<char>, es: Seq<(Seq<char>, Option<Seq<char>>)>, n: int)
    ensures
        ids_ok(loaded(root, es, n).concepts),
    decreases n,
{
    if n > 0 {
        lemma_loaded_ids_ok(root, es, n - 1);
        let p = loaded(root, es, n - 1);
        let cs = loaded(root, es, n).concepts;
        match outcome(es[n - 1].0, es[n - 1].1) {
            Outcome::Concept(id, fm, body) => {
                if !has_id(p.concepts, id) {
                    assert forall|j: int, k: int| 0 <= j < cs.len() && 0 <= k < cs.len() && j != k implies (#[trigger] cs[j]).id != (#[trigger] cs[k]).id by {
                        if j == cs.len() - 1 {
                            assert(p.concepts[k] == cs[k]);
                        } else if k == cs.len() - 1 {
                            assert(p.concepts[j] == cs[j]);
                        } else {
                            assert(p.concepts[j] == cs[j] && p.concepts[k] == cs[k]);
                        }
                    }
                    assert forall|k: int| 0 <= k < cs.len() implies valid_segments(#[trigger] cs[k].id) by {
                        if k < cs.len() - 1 {
                            assert(p.concepts[k] == cs[k]);
                        }
                    }
                }
            },
            _ => {},
        }
    }
}

// ---------------------------------------------------------------------------
// Lookups.
// ---------------------------------------------------------------------------

/// The position of the concept with this id, if any.
/// The resolved outbound links of the concept `id` among `cs`; none for an
/// id no concept has.
pub open spec fn links_of(cs: Seq<ConceptView>, id: Seq<Seq<char>>) -> Seq<LinkView> {
    if has_id(cs, id) {
        concept_links(cs[position_of(cs, id)], cs)
    } else {
        seq![]
    }
}

/// The concepts the concept `id` derives from, in `sources` order; none for
/// an id no concept has.
pub open spec fn derived_of(cs: Seq<ConceptView>, id: Seq<Seq<char>>) -> Seq<Seq<Seq<char>>> {
    if has_id(cs, id) {
        derived_upto(resolved_sources(cs[position_of(cs, id)], cs), resolved_sources(cs[position_of(cs, id)], cs).len() as int)
    } else {
        seq![]
    }
}

pub open spec fn position_of(cs: Seq<ConceptView>, id: Seq<Seq<char>>) -> int {
    choose|k: int| 0 <= k < cs.len() && (#[trigger] cs[k]).id == id
}

impl Bundle {
    /// The bundle's root directory.
    pub fn root(&self) -> (r: &str)
        ensures
            r@ == self@.root,
    {
        self.root.as_str()
    }

    /// All successfully parsed concepts, in load order.
    pub fn concepts(&self) -> (r: &Vec<Concept>)
        ensures
            concept_views(r@) == self@.concepts,
            ids_ok(self@.concepts),
    {
        proof {
            use_type_invariant(self);
        }
        &self.concepts
    }

    /// Number of concepts.
    pub fn len(&self) -> (r: usize)
        ensures
            r == self@.concepts.len(),
    {
        self.concepts.len()
    }

    /// `true` if the bundle has no concepts.
    pub fn is_empty(&self) -> (r: bool)
        ensures
            r == (self@.concepts.len() == 0),
    {
        self.concepts.len() == 0
    }

    /// Looks up a concept by id.
    pub fn get(&self, id: &ConceptId) -> (r: Option<&Concept>)
        ensures
            match r {
                Some(c) => has_id(self@.concepts, id@) && c@ == self@.concepts[position_of(self@.concepts, id@)]
                    && c.id.wf(),
                None => !has_id(self@.concepts, id@),
            },
    {
        proof {
            use_type_invariant(self);
        }
        match find_concept(&self.concepts, id) {
            Some(k) => {
                proof {
                    let cs = self@.concepts;
                    assert(cs[k as int] == self.concepts@[k as int]@);
                    assert(has_id(cs, id@));
                    let j = position_of(cs, id@);
                    assert(cs[j].id == id@);
                    assert(j == k);
                    assert(valid_segments(cs[k as int].id));
                }
                Some(&self.concepts[k])
            },
            None => None,
        }
    }

    /// `true` if a concept with this id exists.
    pub fn contains(&self, id: &ConceptId) -> (r: bool)
        ensures
            r == has_id(self@.concepts, id@),
    {
        match find_concept(&self.concepts, id) {
            Some(k) => {
                proof {
                    assert(self@.concepts[k as int] == self.concepts@[k as int]@);
                }
                true
            },
            None => false,
        }
    }

    /// Paths of all `index.md` files found.
    pub fn index_files(&self) -> (r: &Vec<String>)
        ensures
            texts(r@) == self@.index_files,
    {
        &self.index_files
    }

    /// Paths of all `log.md` files found.
    pub fn log_files(&self) -> (r: &Vec<String>)
        ensures
            texts(r@) == self@.log_files,
    {
        &self.log_files
    }

    /// Files that were not loaded as concepts, with why.
    pub fn parse_errors(&self) -> (r: &Vec<(String, LoadError)>)
        ensures
            error_views(r@) == self@.errors,
    {
        &self.parse_errors
    }

    /// The `okf_version` the bundle-root `index.md` declares, if any. It is
    /// reported, never enforced.
    pub fn okf_version(&self) -> (r: Option<&str>)
        ensures
            match r {
                Some(v) => self@.okf_version == Some(v@),
                None => self@.okf_version is None,
            },
    {
        match &self.okf_version {
            Some(v) => Some(v.as_str()),
            None => None,
        }
    }
}


// ---------------------------------------------------------------------------
// The cross-link graph.
// ---------------------------------------------------------------------------

/// An ASCII hex digit.
pub open spec fn is_hex(c: char) -> bool {
    ('0' <= c && c <= '9') || ('a' <= c && c <= 'f') || ('A' <= c && c <= 'F')
}

/// Whether `s[i..i+3]` is a `%XX` escape of an ASCII character.
pub open spec fn ascii_escape_at(s: Seq<char>, i: int) -> bool {
    &&& 0 <= i && i + 2 < s.len()
    &&& s[i] == '%'
    &&& is_hex(s[i + 1])
    &&& is_hex(s[i + 2])
    &&& crate::yaml_scalar::hex_digit(s[i + 1]) < 8
}

/// `s[i..]` with its `%XX` escapes of ASCII characters decoded.
pub open spec fn pct_from(s: Seq<char>, i: int) -> Seq<char>
    decreases s.len() - i,
{
    if i < 0 || i >= s.len() {
        seq![]
    } else if ascii_escape_at(s, i) {
        seq![(crate::yaml_scalar::hex_digit(s[i + 1]) * 16 + crate::yaml_scalar::hex_digit(s[i + 2])) as char]
            + pct_from(s, i + 3)
    } else {
        seq![s[i]] + pct_from(s, i + 1)
    }
}

/// The value of a hex digit, in exec form.
fn hex_value_exec(c: char) -> (r: u32)
    requires
        is_hex(c),
    ensures
        r == crate::yaml_scalar::hex_digit(c),
        r < 16,
{
    if '0' <= c && c <= '9' {
        (c as u32) - ('0' as u32)
    } else if 'a' <= c && c <= 'f' {
        (c as u32) - ('a' as u32) + 10
    } else {
        (c as u32) - ('A' as u32) + 10
    }
}

/// `pct_from(s, 0)` in exec form.
fn pct_decode_exec(s: &[char]) -> (r: Vec<char>)
    ensures
        r@ == pct_from(s@, 0),
{
    let mut out: Vec<char> = Vec::new();
    let mut i: usize = 0;
    while i < s.len()
        invariant
            i <= s.len(),
            out@ + pct_from(s@, i as int) == pct_from(s@, 0),
        decreases s.len() - i,
    {
        let ghost before = out@;
        if s.len() - i > 2 && s[i] == '%' && is_hex_exec(s[i + 1]) && is_hex_exec(s[i + 2])
            && hex_value_exec(s[i + 1]) < 8 {
            let v: u32 = hex_value_exec(s[i + 1]) * 16 + hex_value_exec(s[i + 2]);
            let c = char_of_ascii(v);
            out.push(c);
            proof {
                assert(ascii_escape_at(s@, i as int));
                assert(before + pct_from(s@, i as int) =~= out@ + pct_from(s@, i + 3));
            }
            i += 3;
        } else {
            out.push(s[i]);
            proof {
                assert(!ascii_escape_at(s@, i as int));
                assert(before + pct_from(s@, i as int) =~= out@ + pct_from(s@, i + 1));
            }
            i += 1;
        }
    }
    proof {
        assert(out@ + pct_from(s@, i as int) =~= out@);
    }
    out
}

/// Whether a character is an ASCII hex digit, in exec form.
fn is_hex_exec(c: char) -> (r: bool)
    ensures
        r == is_hex(c),
{
    ('0' <= c && c <= '9') || ('a' <= c && c <= 'f') || ('A' <= c && c <= 'F')
}

/// The ASCII character with code `v`.
fn char_of_ascii(v: u32) -> (c: char)
    requires
        v < 128,
    ensures
        c == (v as int) as char,
{
    let b: u8 = v as u8;
    b as char
}

/// The concept id one reading of a link path names: the path resolved
/// against `from_dir` (or the root when it is bundle-absolute), its last
/// segment read by [`id_name`]; `None` when that is no valid id.
pub open spec fn reading_id(r: Seq<char>, absolute: bool, from_dir: Seq<Seq<char>>) -> Option<Seq<Seq<char>>> {
    let segs = crate::paths::resolve(if absolute { seq![] } else { from_dir }, crate::paths::split_slash(r));
    if segs.len() == 0 {
        None
    } else {
        match id_name(segs.last()) {
            None => None,
            Some(n) => {
                let id = segs.drop_last().push(n);
                if valid_segments(id) { Some(id) } else { None }
            },
        }
    }
}

/// The concept name a file name in a link stands for: `name.md` names
/// `name`, and a name without any `.` names itself; a file with another
/// extension names no concept.
pub open spec fn id_name(s: Seq<char>) -> Option<Seq<char>> {
    if crate::concept_id::is_md_name(s) {
        Some(s.subrange(0, s.len() - 3))
    } else if !s.contains('.') {
        Some(s)
    } else {
        None
    }
}

/// An optional value as a sequence of at most one.
pub open spec fn opt_seq<A>(o: Option<A>) -> Seq<A> {
    match o {
        Some(a) => seq![a],
        None => seq![],
    }
}

/// The concept ids a link target may name from a concept in `from_dir`:
/// nothing unless it is a bundle-absolute or relative path; otherwise the
/// path before any `#` read literally, then read with its `%XX` escapes
/// decoded when that differs.
pub open spec fn link_candidates(target: Seq<char>, from_dir: Seq<Seq<char>>) -> Seq<Seq<Seq<char>>> {
    let k = crate::links::kind_of(target);
    if !(k is Absolute || k is Relative) {
        seq![]
    } else {
        let p = target.subrange(0, crate::paths::first_index(target, '#', 0));
        let d = pct_from(p, 0);
        let a = opt_seq(reading_id(p, k is Absolute, from_dir));
        if d == p { a } else { a + opt_seq(reading_id(d, k is Absolute, from_dir)) }
    }
}

/// The first candidate at or after `i` that names a concept, or the length.
pub open spec fn first_existing(cands: Seq<Seq<Seq<char>>>, cs: Seq<ConceptView>, i: int) -> int
    decreases cands.len() - i,
{
    if i < 0 || i >= cands.len() {
        cands.len() as int
    } else if has_id(cs, cands[i]) {
        i
    } else {
        first_existing(cands, cs, i + 1)
    }
}

/// The target a link resolves to: the first candidate that names a concept,
/// else the first candidate (a broken link), else none.
pub open spec fn pick_target(cands: Seq<Seq<Seq<char>>>, cs: Seq<ConceptView>) -> Option<Seq<Seq<char>>> {
    let i = first_existing(cands, cs, 0);
    if i < cands.len() {
        Some(cands[i])
    } else if cands.len() > 0 {
        Some(cands[0])
    } else {
        None
    }
}

proof fn lemma_first_existing_bounds(cands: Seq<Seq<Seq<char>>>, cs: Seq<ConceptView>, i: int)
    requires
        0 <= i,
    ensures
        i <= first_existing(cands, cs, i) <= cands.len() || (i > cands.len() && first_existing(cands, cs, i) == cands.len()),
    decreases cands.len() - i,
{
    if i < cands.len() && !has_id(cs, cands[i]) {
        lemma_first_existing_bounds(cands, cs, i + 1);
    }
}

/// Whatever a link resolves to is a valid id.
proof fn lemma_pick_valid(target: Seq<char>, from_dir: Seq<Seq<char>>, cs: Seq<ConceptView>)
    ensures
        pick_target(link_candidates(target, from_dir), cs) matches Some(id) ==> valid_segments(id),
{
    let cands = link_candidates(target, from_dir);
    let k = crate::links::kind_of(target);
    if k is Absolute || k is Relative {
        let p = target.subrange(0, crate::paths::first_index(target, '#', 0));
        let d = pct_from(p, 0);
        let a = opt_seq(reading_id(p, k is Absolute, from_dir));
        let b = opt_seq(reading_id(d, k is Absolute, from_dir));
        assert forall|i: int| 0 <= i < a.len() implies valid_segments(#[trigger] a[i]) by {}
        assert forall|i: int| 0 <= i < b.len() implies valid_segments(#[trigger] b[i]) by {}
        assert forall|i: int| 0 <= i < cands.len() implies valid_segments(#[trigger] cands[i]) by {
            if d != p && i >= a.len() {
                assert(cands[i] == b[i - a.len()]);
            }
        }
    }
    lemma_first_existing_bounds(cands, cs, 0);
}

/// A resolved link as sequences.
pub struct LinkView {
    pub target: Seq<Seq<char>>,
    pub exists: bool,
    pub text: Seq<char>,
    pub raw: Seq<char>,
}

/// The resolved links among the first `n` link sites of a body.
pub open spec fn links_upto(sites: Seq<(Seq<char>, Seq<char>)>, from_dir: Seq<Seq<char>>, cs: Seq<ConceptView>, n: int) -> Seq<LinkView>
    decreases n,
{
    if n <= 0 {
        seq![]
    } else {
        let prev = links_upto(sites, from_dir, cs, n - 1);
        let t = crate::markdown::cleaned(sites[n - 1].1);
        match pick_target(link_candidates(t, from_dir), cs) {
            Some(id) => prev.push(LinkView { target: id, exists: has_id(cs, id), text: sites[n - 1].0, raw: t }),
            None => prev,
        }
    }
}

/// The resolved outbound links of a concept among `cs`.
pub open spec fn concept_links(c: ConceptView, cs: Seq<ConceptView>) -> Seq<LinkView> {
    let sites = crate::markdown::links_in(c.body);
    links_upto(sites, c.id.drop_last(), cs, sites.len() as int)
}

/// A cross-link from one concept to another, after resolution.
#[derive(Debug)]
pub struct ResolvedLink {
    /// The concept the link points at.
    pub target: ConceptId,
    /// Whether the target concept exists in the bundle.
    pub exists: bool,
    /// The link text.
    pub text: String,
    /// The link target as written (cleaned of angle brackets and title).
    pub raw: String,
}

impl ResolvedLink {
    /// The link as sequences.
    pub open spec fn view(&self) -> LinkView {
        LinkView { target: self.target@, exists: self.exists, text: self.text@, raw: self.raw@ }
    }
}

/// The views of a list of resolved links.
pub open spec fn link_views(v: Seq<ResolvedLink>) -> Seq<LinkView> {
    v.map_values(|l: ResolvedLink| l@)
}

/// The ids of a list of concept ids.
pub open spec fn id_views(v: Seq<ConceptId>) -> Seq<Seq<Seq<char>>> {
    v.map_values(|i: ConceptId| i@)
}

/// Copies of the character vectors of `v`.
fn copy_all(v: &Vec<Vec<char>>) -> (r: Vec<Vec<char>>)
    ensures
        crate::text::views(r@) == crate::text::views(v@),
{
    let mut out: Vec<Vec<char>> = Vec::new();
    let mut i: usize = 0;
    while i < v.len()
        invariant
            i <= v.len(),
            crate::text::views(out@) == crate::text::views(v@).take(i as int),
        decreases v.len() - i,
    {
        let mut c: Vec<char> = Vec::new();
        crate::text::extend_all(&mut c, &v[i]);
        let ghost before = crate::text::views(out@);
        out.push(c);
        proof {
            assert(crate::text::views(out@) =~= before.push(c@));
            assert(crate::text::views(v@).take(i + 1) =~= crate::text::views(v@).take(i as int).push(v@[i as int]@));
        }
        i += 1;
    }
    proof {
        assert(crate::text::views(v@).take(v.len() as int) =~= crate::text::views(v@));
    }
    out
}

/// [`reading_id`] in exec form.
fn reading_id_exec(r: &[char], absolute: bool, from_dir: &Vec<Vec<char>>) -> (res: Option<ConceptId>)
    ensures
        match res {
            Some(id) => reading_id(r@, absolute, crate::text::views(from_dir@)) == Some(id@),
            None => reading_id(r@, absolute, crate::text::views(from_dir@)) is None,
        },
{
    let segs = crate::paths::split_slash_exec(r);
    let base: Vec<Vec<char>> = if absolute { Vec::new() } else { copy_all(from_dir) };
    proof {
        if absolute {
            assert(crate::text::views(base@) =~= Seq::<Seq<char>>::empty());
        }
    }
    let res = crate::paths::resolve_exec(base, &segs);
    let ghost rv = crate::text::views(res@);
    proof {
        assert(rv.len() == res@.len());
    }
    let n = res.len();
    if n == 0 {
        return None;
    }
    proof {
        assert(rv.last() == res@[n - 1]@);
    }
    let md = is_md_exec(&res[n - 1]);
    if !md && crate::syntax::contains_char(&res[n - 1], '.') {
        return None;
    }
    let mut out: Vec<String> = Vec::new();
    let mut k: usize = 0;
    while k + 1 < n
        invariant
            n == res.len(),
            n >= 1,
            k <= n - 1,
            rv == crate::text::views(res@),
            texts(out@) == rv.take(k as int),
        decreases n - k,
    {
        let piece = string_of(&res[k]);
        let ghost before = texts(out@);
        out.push(piece);
        proof {
            assert(texts(out@) =~= before.push(piece@));
            assert(rv.take(k + 1) =~= rv.take(k as int).push(rv[k as int]));
        }
        k += 1;
    }
    let last = &res[n - 1];
    let stem = if md { crate::text::string_of_range(last, 0, last.len() - 3) } else { string_of(last) };
    let ghost before = texts(out@);
    out.push(stem);
    proof {
        assert(texts(out@) =~= before.push(stem@));
        assert(rv.take(k as int) =~= rv.drop_last());
        assert(id_name(rv.last()) == Some(stem@));
        assert(texts(out@) =~= rv.drop_last().push(stem@));
    }
    match ConceptId::new(out) {
        Ok(id) => Some(id),
        Err(_) => None,
    }
}

/// [`link_candidates`] in exec form.
fn link_candidates_exec(target: &str, from_dir: &Vec<Vec<char>>) -> (r: Vec<ConceptId>)
    ensures
        id_views(r@) == link_candidates(target@, crate::text::views(from_dir@)),
{
    let mut out: Vec<ConceptId> = Vec::new();
    let kind = crate::links::Link::classify(target);
    let absolute = match kind {
        crate::links::LinkKind::Absolute => true,
        _ => false,
    };
    match kind {
        crate::links::LinkKind::Absolute => {},
        crate::links::LinkKind::Relative => {},
        _ => {
            proof {
                assert(id_views(out@) =~= Seq::<Seq<Seq<char>>>::empty());
            }
            return out;
        },
    }
    let t = chars_of(target);
    let mut h: usize = 0;
    while h < t.len() && t[h] != '#'
        invariant
            h <= t.len(),
            crate::paths::first_index(t@, '#', h as int) == crate::paths::first_index(t@, '#', 0),
        decreases t.len() - h,
    {
        h += 1;
    }
    let mut p: Vec<char> = Vec::new();
    crate::text::extend_range(&mut p, &t, 0, h);
    let d = pct_decode_exec(&p);
    match reading_id_exec(&p, absolute, from_dir) {
        Some(id) => {
            out.push(id);
        },
        None => {},
    }
    let ghost a = id_views(out@);
    proof {
        assert(a =~= opt_seq(reading_id(p@, absolute, crate::text::views(from_dir@))));
    }
    if !crate::paths::same_chars(&d, &p) {
        match reading_id_exec(&d, absolute, from_dir) {
            Some(id) => {
                out.push(id);
                proof {
                    assert(id_views(out@) =~= a.push(id@));
                }
            },
            None => {},
        }
        proof {
            assert(id_views(out@) =~= a + opt_seq(reading_id(d@, absolute, crate::text::views(from_dir@))));
        }
    }
    out
}


/// [`pick_target`] in exec form, with whether the target exists.
fn pick_exec(cs: &Vec<Concept>, cands: &Vec<ConceptId>) -> (r: Option<(ConceptId, bool)>)
    ensures
        match r {
            Some((id, e)) => pick_target(id_views(cands@), concept_views(cs@)) == Some(id@)
                && e == has_id(concept_views(cs@), id@),
            None => pick_target(id_views(cands@), concept_views(cs@)) is None,
        },
{
    let ghost cv = concept_views(cs@);
    let ghost ids = id_views(cands@);
    let mut i: usize = 0;
    while i < cands.len()
        invariant
            i <= cands.len(),
            cv == concept_views(cs@),
            ids == id_views(cands@),
            first_existing(ids, cv, i as int) == first_existing(ids, cv, 0),
            forall|j: int| 0 <= j < i ==> !has_id(cv, #[trigger] ids[j]),
        decreases cands.len() - i,
    {
        match find_concept(cs, &cands[i]) {
            Some(k) => {
                proof {
                    assert(cv[k as int] == cs@[k as int]@);
                    assert(has_id(cv, ids[i as int]));
                }
                return Some((cands[i].clone(), true));
            },
            None => {},
        }
        i += 1;
    }
    if cands.len() > 0 {
        proof {
            assert(!has_id(cv, ids[0]));
        }
        Some((cands[0].clone(), false))
    } else {
        None
    }
}

/// The resolved outbound links of the `k`-th concept.
fn concept_links_exec(cs: &Vec<Concept>, k: usize) -> (r: Vec<ResolvedLink>)
    requires
        k < cs.len(),
        ids_ok(concept_views(cs@)),
    ensures
        link_views(r@) == concept_links(concept_views(cs@)[k as int], concept_views(cs@)),
{
    let ghost cv = concept_views(cs@);
    let c = &cs[k];
    proof {
        assert(cv[k as int] == c@);
        assert(valid_segments(cv[k as int].id));
    }
    let sites = crate::markdown::markdown_links(c.document.body.as_str());
    let ghost sv = crate::markdown::links_in(c.document.body@);
    let dir = crate::paths::chars_of_all(&c.id.dir());
    let mut out: Vec<ResolvedLink> = Vec::new();
    let mut j: usize = 0;
    while j < sites.len()
        invariant
            j <= sites.len(),
            cv == concept_views(cs@),
            sv == crate::markdown::links_in(c.document.body@),
            sites@.len() == sv.len(),
            forall|q: int| 0 <= q < sites@.len() ==> crate::markdown::link_of_site(#[trigger] sites@[q].0, sites@[q].1@, sv[q]),
            crate::text::views(dir@) == c@.id.drop_last(),
            link_views(out@) == links_upto(sv, c@.id.drop_last(), cv, j as int),
        decreases sites.len() - j,
    {
        let l = &sites[j].0;
        proof {
            assert(crate::markdown::link_of_site(sites@[j as int].0, sites@[j as int].1@, sv[j as int]));
        }
        let cands = link_candidates_exec(l.target.as_str(), &dir);
        match pick_exec(cs, &cands) {
            Some((id, e)) => {
                let link = ResolvedLink { target: id, exists: e, text: l.text.clone(), raw: l.target.clone() };
                let ghost before = link_views(out@);
                out.push(link);
                proof {
                    assert(link_views(out@) =~= before.push(link@));
                }
            },
            None => {},
        }
        j += 1;
    }
    out
}

/// Whether a link list holds a link to the existing concept `t`.
pub open spec fn cites(links: Seq<LinkView>, t: Seq<Seq<char>>) -> bool {
    exists|j: int| 0 <= j < links.len() && (#[trigger] links[j]).exists && links[j].target == t
}

/// The ids of the first `n` concepts that link to `t`, in order.
pub open spec fn backlinks_upto(cs: Seq<ConceptView>, t: Seq<Seq<char>>, n: int) -> Seq<Seq<Seq<char>>>
    decreases n,
{
    if n <= 0 {
        seq![]
    } else if cites(concept_links(cs[n - 1], cs), t) {
        backlinks_upto(cs, t, n - 1).push(cs[n - 1].id)
    } else {
        backlinks_upto(cs, t, n - 1)
    }
}

/// The broken links among the first `m` of one concept's links, as
/// `(source, raw target)`.
pub open spec fn broken_in(id: Seq<Seq<char>>, links: Seq<LinkView>, m: int) -> Seq<(Seq<Seq<char>>, Seq<char>)>
    decreases m,
{
    if m <= 0 {
        seq![]
    } else if !links[m - 1].exists {
        broken_in(id, links, m - 1).push((id, links[m - 1].raw))
    } else {
        broken_in(id, links, m - 1)
    }
}

/// The broken links of the first `n` concepts, concept by concept.
pub open spec fn broken_upto(cs: Seq<ConceptView>, n: int) -> Seq<(Seq<Seq<char>>, Seq<char>)>
    decreases n,
{
    if n <= 0 {
        seq![]
    } else {
        let l = concept_links(cs[n - 1], cs);
        broken_upto(cs, n - 1) + broken_in(cs[n - 1].id, l, l.len() as int)
    }
}

/// Whether a resolved link points at the existing concept `t`.
fn links_to(links: &Vec<ResolvedLink>, t: &ConceptId) -> (r: bool)
    ensures
        r == cites(link_views(links@), t@),
{
    let ghost lv = link_views(links@);
    let mut j: usize = 0;
    while j < links.len()
        invariant
            j <= links.len(),
            lv == link_views(links@),
            forall|q: int| 0 <= q < j ==> !((#[trigger] lv[q]).exists && lv[q].target == t@),
        decreases links.len() - j,
    {
        if links[j].exists && links[j].target.same(t) {
            proof {
                assert(lv[j as int].exists && lv[j as int].target == t@);
            }
            return true;
        }
        j += 1;
    }
    false
}

impl Bundle {
    /// The resolved outbound cross-links of a concept, in body order; none
    /// for an id that names no concept.
    pub fn links_from(&self, id: &ConceptId) -> (r: Vec<ResolvedLink>)
        ensures
            link_views(r@) == links_of(self@.concepts, id@),
    {
        proof {
            use_type_invariant(self);
        }
        match find_concept(&self.concepts, id) {
            Some(k) => {
                proof {
                    let cs = self@.concepts;
                    assert(cs[k as int] == self.concepts@[k as int]@);
                    assert(has_id(cs, id@));
                    let j = position_of(cs, id@);
                    assert(cs[j].id == id@);
                    assert(j == k);
                }
                concept_links_exec(&self.concepts, k)
            },
            None => {
                let out: Vec<ResolvedLink> = Vec::new();
                proof {
                    assert(link_views(out@) =~= Seq::<LinkView>::empty());
                }
                out
            },
        }
    }

    /// The concept a link target written in concept `from` resolves to: the
    /// first reading of the path that names a loaded concept, else the first
    /// reading (a broken link), else `None` (external links, anchors, paths
    /// that name no valid id).
    pub fn resolve_link(&self, from: &ConceptId, target: &str) -> (r: Option<ConceptId>)
        requires
            from.wf(),
        ensures
            opt_id(r) == pick_target(link_candidates(target@, from@.drop_last()), self@.concepts),
            r matches Some(id) ==> id.wf(),
    {
        let dir = crate::paths::chars_of_all(&from.dir());
        let cands = link_candidates_exec(target, &dir);
        match pick_exec(&self.concepts, &cands) {
            Some((id, _)) => {
                proof {
                    assert(valid_segments(id@)) by {
                        lemma_pick_valid(target@, from@.drop_last(), self@.concepts);
                    }
                }
                Some(id)
            },
            None => None,
        }
    }

    /// The ids of the concepts that link to the given concept, in load order.
    pub fn backlinks(&self, id: &ConceptId) -> (r: Vec<ConceptId>)
        ensures
            id_views(r@) == backlinks_upto(self@.concepts, id@, self@.concepts.len() as int),
    {
        proof {
            use_type_invariant(self);
        }
        let ghost cv = self@.concepts;
        let mut out: Vec<ConceptId> = Vec::new();
        let mut k: usize = 0;
        while k < self.concepts.len()
            invariant
                k <= self.concepts.len(),
                cv == concept_views(self.concepts@),
                ids_ok(cv),
                id_views(out@) == backlinks_upto(cv, id@, k as int),
            decreases self.concepts.len() - k,
        {
            let links = concept_links_exec(&self.concepts, k);
            if links_to(&links, id) {
                let c = self.concepts[k].id.clone();
                let ghost before = id_views(out@);
                out.push(c);
                proof {
                    assert(cv[k as int] == self.concepts@[k as int]@);
                    assert(id_views(out@) =~= before.push(c@));
                }
            }
            k += 1;
        }
        out
    }

    /// Every broken internal link, as `(source, raw target)` pairs, concept
    /// by concept in load order.
    pub fn broken_links(&self) -> (r: Vec<(ConceptId, String)>)
        ensures
            r@.map_values(|p: (ConceptId, String)| (p.0@, p.1@)) == broken_upto(self@.concepts, self@.concepts.len() as int),
    {
        proof {
            use_type_invariant(self);
        }
        let ghost cv = self@.concepts;
        let mut out: Vec<(ConceptId, String)> = Vec::new();
        let mut k: usize = 0;
        while k < self.concepts.len()
            invariant
                k <= self.concepts.len(),
                cv == concept_views(self.concepts@),
                ids_ok(cv),
                out@.map_values(|p: (ConceptId, String)| (p.0@, p.1@)) == broken_upto(cv, k as int),
            decreases self.concepts.len() - k,
        {
            let links = concept_links_exec(&self.concepts, k);
            let ghost lv = link_views(links@);
            let ghost base = out@.map_values(|p: (ConceptId, String)| (p.0@, p.1@));
            let mut j: usize = 0;
            while j < links.len()
                invariant
                    j <= links.len(),
                    k < self.concepts.len(),
                    cv == concept_views(self.concepts@),
                    lv == link_views(links@),
                    out@.map_values(|p: (ConceptId, String)| (p.0@, p.1@)) == base + broken_in(cv[k as int].id, lv, j as int),
                decreases links.len() - j,
            {
                if !links[j].exists {
                    let c = self.concepts[k].id.clone();
                    let raw = links[j].raw.clone();
                    let ghost before = out@.map_values(|p: (ConceptId, String)| (p.0@, p.1@));
                    out.push((c, raw));
                    proof {
                        assert(cv[k as int] == self.concepts@[k as int]@);
                        assert(out@.map_values(|p: (ConceptId, String)| (p.0@, p.1@)) =~= before.push((c@, raw@)));
                        assert(lv[j as int] == links@[j as int]@);
                    }
                } else {
                    proof {
                        assert(lv[j as int] == links@[j as int]@);
                    }
                }
                j += 1;
            }
            k += 1;
        }
        out
    }
}


// ---------------------------------------------------------------------------
// The derivation graph.
// ---------------------------------------------------------------------------

/// The concept a candidate path names: the path minus `.md` when that is a
/// concept, else the path itself read as an id when that is one.
pub open spec fn candidate_concept(cand: Seq<char>, cs: Seq<ConceptView>) -> Option<Seq<Seq<char>>> {
    let a = path_segments(cand);
    let b = crate::concept_id::split_slash(cand);
    if a is Some && has_id(cs, a->0) {
        a
    } else if has_id(cs, b) {
        Some(b)
    } else {
        None
    }
}

/// The first concept that a candidate from `i` on names.
pub open spec fn resolve_ref(cands: Seq<Seq<char>>, cs: Seq<ConceptView>, i: int) -> Option<Seq<Seq<char>>>
    decreases cands.len() - i,
{
    if i < 0 || i >= cands.len() {
        None
    } else {
        match candidate_concept(cands[i], cs) {
            Some(t) => Some(t),
            None => resolve_ref(cands, cs, i + 1),
        }
    }
}

/// The other concept of the bundle that a source's `resource` names, if any.
pub open spec fn source_target(src: crate::provenance::SourceView, c: ConceptView, cs: Seq<ConceptView>) -> Option<Seq<Seq<char>>> {
    match src.1 {
        None => None,
        Some(raw) => match resolve_ref(crate::links::path_candidates(raw, c.id.drop_last()), cs, 0) {
            Some(t) => if t == c.id { None } else { Some(t) },
            None => None,
        },
    }
}

/// A concept's `sources`, each with the concept it names.
pub open spec fn resolved_sources(c: ConceptView, cs: Seq<ConceptView>) -> Seq<(crate::provenance::SourceView, Option<Seq<Seq<char>>>)> {
    frontmatter_sources(c.fm).map_values(|src: crate::provenance::SourceView| (src, source_target(src, c, cs)))
}

/// The concepts named among the first `n` resolved sources, in order.
pub open spec fn derived_upto(rs: Seq<(crate::provenance::SourceView, Option<Seq<Seq<char>>>)>, n: int) -> Seq<Seq<Seq<char>>>
    decreases n,
{
    if n <= 0 {
        seq![]
    } else {
        match rs[n - 1].1 {
            Some(t) => derived_upto(rs, n - 1).push(t),
            None => derived_upto(rs, n - 1),
        }
    }
}

/// Whether a concept's resolved sources name `t`.
pub open spec fn derives_from(c: ConceptView, cs: Seq<ConceptView>, t: Seq<Seq<char>>) -> bool {
    exists|j: int| 0 <= j < resolved_sources(c, cs).len() && (#[trigger] resolved_sources(c, cs)[j]).1 == Some(t)
}

/// The ids of the first `n` concepts that cite `t` as a source, in order.
pub open spec fn derives_upto(cs: Seq<ConceptView>, t: Seq<Seq<char>>, n: int) -> Seq<Seq<Seq<char>>>
    decreases n,
{
    if n <= 0 {
        seq![]
    } else if derives_from(cs[n - 1], cs, t) {
        derives_upto(cs, t, n - 1).push(cs[n - 1].id)
    } else {
        derives_upto(cs, t, n - 1)
    }
}

/// A `sources` entry resolved against the bundle.
#[derive(Debug)]
pub struct ResolvedSource {
    /// The entry as written in frontmatter.
    pub source: Source,
    /// The other concept of the bundle the entry's `resource` names.
    pub concept: Option<ConceptId>,
}

/// An optional id as sequences.
pub open spec fn opt_id(o: Option<ConceptId>) -> Option<Seq<Seq<char>>> {
    match o {
        Some(i) => Some(i@),
        None => None,
    }
}

impl ResolvedSource {
    /// The entry as sequences.
    pub open spec fn view(&self) -> (crate::provenance::SourceView, Option<Seq<Seq<char>>>) {
        (self.source@, opt_id(self.concept))
    }
}

/// The views of a list of resolved sources.
pub open spec fn resolved_views(v: Seq<ResolvedSource>) -> Seq<(crate::provenance::SourceView, Option<Seq<Seq<char>>>)> {
    v.map_values(|r: ResolvedSource| r@)
}

/// [`candidate_concept`] in exec form.
fn candidate_concept_exec(cs: &Vec<Concept>, cand: &str) -> (r: Option<ConceptId>)
    requires
        ids_ok(concept_views(cs@)),
    ensures
        opt_id(r) == candidate_concept(cand@, concept_views(cs@)),
{
    let ghost cv = concept_views(cs@);
    proof {
        reveal_strlit("");
        assert(""@.len() == 0);
        assert(crate::concept_id::root_prefix(""@) =~= ""@);
        assert(cand@.subrange(0, 0) =~= ""@);
        assert(cand@.subrange(0, cand@.len() as int) =~= cand@);
        assert(crate::concept_id::path_under(""@, cand@) == Some(cand@));
    }
    let mut found_a = false;
    match ConceptId::from_path("", cand) {
        Ok(a) => {
            match find_concept(cs, &a) {
                Some(k) => {
                    proof {
                        assert(cv[k as int] == cs@[k as int]@);
                    }
                    return Some(a);
                },
                None => {},
            }
        },
        Err(_) => {
            proof {
                let a = path_segments(cand@);
                if a is Some && has_id(cv, a->0) {
                    let k = choose|k: int| 0 <= k < cv.len() && (#[trigger] cv[k]).id == a->0;
                    assert(valid_segments(cv[k].id));
                }
            }
        },
    }
    match ConceptId::parse(cand) {
        Ok(b) => match find_concept(cs, &b) {
            Some(k) => {
                proof {
                    assert(cv[k as int] == cs@[k as int]@);
                }
                Some(b)
            },
            None => None,
        },
        Err(_) => {
            proof {
                let b = crate::concept_id::split_slash(cand@);
                if has_id(cv, b) {
                    let k = choose|k: int| 0 <= k < cv.len() && (#[trigger] cv[k]).id == b;
                    assert(valid_segments(cv[k].id));
                }
            }
            None
        },
    }
}

/// The resolved `sources` of the `k`-th concept.
fn concept_sources_exec(cs: &Vec<Concept>, k: usize) -> (r: Vec<ResolvedSource>)
    requires
        k < cs.len(),
        ids_ok(concept_views(cs@)),
    ensures
        resolved_views(r@) == resolved_sources(concept_views(cs@)[k as int], concept_views(cs@)),
{
    let ghost cv = concept_views(cs@);
    let c = &cs[k];
    proof {
        assert(cv[k as int] == c@);
        assert(valid_segments(cv[k as int].id));
    }
    let srcs = c.sources();
    let ghost sv = source_views(srcs@);
    let mut out: Vec<ResolvedSource> = Vec::new();
    let mut srcs = srcs;
    let ghost all = srcs@;
    let n = srcs.len();
    while srcs.len() > 0
        invariant
            srcs@.len() + out@.len() == n,
            n == all.len(),
            srcs@ == all.subrange(out@.len() as int, n as int),
            sv == source_views(all),
            sv == frontmatter_sources(c@.fm),
            cv == concept_views(cs@),
            ids_ok(cv),
            k < cs.len(),
            c@ == cv[k as int],
            valid_segments(c@.id),
            resolved_views(out@) == resolved_sources(cv[k as int], cv).take(out@.len() as int),
            resolved_sources(cv[k as int], cv).len() == n,
        decreases srcs.len(),
    {
        let ghost j: int = out@.len() as int;
        let src = srcs.remove(0);
        proof {
            assert(src == all[j]);
            assert(sv[j] == src@);
            assert(srcs@ =~= all.subrange(j + 1, n as int));
        }
        let target = match &src.resource {
            None => None,
            Some(raw) => {
                let cands = crate::links::field_path_candidates(raw.as_str(), &c.id);
                let t = resolve_ref_exec(cs, &cands);
                match t {
                    Some(t) => if t.same(&c.id) { None } else { Some(t) },
                    None => None,
                }
            },
        };
        proof {
            assert(frontmatter_sources(cv[k as int].fm) == sv);
            assert(resolved_sources(cv[k as int], cv)[j] == (sv[j], source_target(sv[j], cv[k as int], cv)));
            assert(opt_id(target) == source_target(sv[j], cv[k as int], cv));
        }
        let r = ResolvedSource { source: src, concept: target };
        let ghost before = resolved_views(out@);
        out.push(r);
        proof {
            assert(resolved_views(out@) =~= before.push(r@));
            assert(resolved_sources(cv[k as int], cv).take(j + 1) =~= resolved_sources(cv[k as int], cv).take(j).push(resolved_sources(cv[k as int], cv)[j]));
        }
    }
    proof {
        assert(resolved_sources(cv[k as int], cv).take(n as int) =~= resolved_sources(cv[k as int], cv));
    }
    out
}

/// [`resolve_ref`] in exec form.
fn resolve_ref_exec(cs: &Vec<Concept>, cands: &Vec<String>) -> (r: Option<ConceptId>)
    requires
        ids_ok(concept_views(cs@)),
    ensures
        opt_id(r) == resolve_ref(texts(cands@), concept_views(cs@), 0),
{
    let ghost cv = concept_views(cs@);
    let mut i: usize = 0;
    while i < cands.len()
        invariant
            i <= cands.len(),
            cv == concept_views(cs@),
            ids_ok(cv),
            resolve_ref(texts(cands@), cv, i as int) == resolve_ref(texts(cands@), cv, 0),
        decreases cands.len() - i,
    {
        proof {
            assert(texts(cands@)[i as int] == cands@[i as int]@);
        }
        match candidate_concept_exec(cs, cands[i].as_str()) {
            Some(t) => {
                return Some(t);
            },
            None => {},
        }
        i += 1;
    }
    None
}


/// Whether a resolved source list names `t`, in exec form.
fn names_concept(rs: &Vec<ResolvedSource>, t: &ConceptId) -> (r: bool)
    ensures
        r == (exists|j: int| 0 <= j < rs@.len() && (#[trigger] resolved_views(rs@)[j]).1 == Some(t@)),
{
    let ghost rv = resolved_views(rs@);
    let mut j: usize = 0;
    while j < rs.len()
        invariant
            j <= rs.len(),
            rv == resolved_views(rs@),
            forall|q: int| 0 <= q < j ==> (#[trigger] rv[q]).1 != Some(t@),
        decreases rs.len() - j,
    {
        match &rs[j].concept {
            Some(c) => {
                if c.same(t) {
                    proof {
                        assert(rv[j as int].1 == Some(t@));
                    }
                    return true;
                }
            },
            None => {},
        }
        proof {
            assert(rv[j as int] == rs@[j as int]@);
        }
        j += 1;
    }
    false
}

impl Bundle {
    /// A concept's `sources` entries, each resolved against the bundle; none
    /// for an id that names no concept.
    pub fn sources_of(&self, id: &ConceptId) -> (r: Vec<ResolvedSource>)
        ensures
            resolved_views(r@) == (if has_id(self@.concepts, id@) {
                resolved_sources(self@.concepts[position_of(self@.concepts, id@)], self@.concepts)
            } else {
                seq![]
            }),
    {
        proof {
            use_type_invariant(self);
        }
        match find_concept(&self.concepts, id) {
            Some(k) => {
                proof {
                    let cs = self@.concepts;
                    assert(cs[k as int] == self.concepts@[k as int]@);
                    assert(has_id(cs, id@));
                    let j = position_of(cs, id@);
                    assert(cs[j].id == id@);
                    assert(j == k);
                }
                concept_sources_exec(&self.concepts, k)
            },
            None => {
                let out: Vec<ResolvedSource> = Vec::new();
                proof {
                    assert(resolved_views(out@) =~= Seq::<(crate::provenance::SourceView, Option<Seq<Seq<char>>>)>::empty());
                }
                out
            },
        }
    }

    /// The concepts this one derives from: the `sources` entries that name
    /// another concept of the bundle, in order.
    pub fn derived_from(&self, id: &ConceptId) -> (r: Vec<ConceptId>)
        ensures
            id_views(r@) == derived_of(self@.concepts, id@),
    {
        let rs = self.sources_of(id);
        let ghost rv = resolved_views(rs@);
        let mut out: Vec<ConceptId> = Vec::new();
        let mut j: usize = 0;
        while j < rs.len()
            invariant
                j <= rs.len(),
                rv == resolved_views(rs@),
                id_views(out@) == derived_upto(rv, j as int),
            decreases rs.len() - j,
        {
            proof {
                assert(rv[j as int] == rs@[j as int]@);
            }
            match &rs[j].concept {
                Some(c) => {
                    let t = c.clone();
                    let ghost before = id_views(out@);
                    out.push(t);
                    proof {
                        assert(id_views(out@) =~= before.push(t@));
                    }
                },
                None => {},
            }
            j += 1;
        }
        proof {
            if !has_id(self@.concepts, id@) {
                assert(rv.len() == 0);
            }
        }
        out
    }

    /// The concepts that cite this one as a source, in load order.
    pub fn derives(&self, id: &ConceptId) -> (r: Vec<ConceptId>)
        ensures
            id_views(r@) == derives_upto(self@.concepts, id@, self@.concepts.len() as int),
    {
        proof {
            use_type_invariant(self);
        }
        let ghost cv = self@.concepts;
        let mut out: Vec<ConceptId> = Vec::new();
        let mut k: usize = 0;
        while k < self.concepts.len()
            invariant
                k <= self.concepts.len(),
                cv == concept_views(self.concepts@),
                ids_ok(cv),
                id_views(out@) == derives_upto(cv, id@, k as int),
            decreases self.concepts.len() - k,
        {
            let rs = concept_sources_exec(&self.concepts, k);
            if names_concept(&rs, id) {
                let c = self.concepts[k].id.clone();
                let ghost before = id_views(out@);
                out.push(c);
                proof {
                    assert(cv[k as int] == self.concepts@[k as int]@);
                    assert(id_views(out@) =~= before.push(c@));
                }
            }
            k += 1;
        }
        out
    }
}

/// The concepts among the first `n` whose frontmatter satisfies `keep`.
pub open spec fn filter_concepts(cs: Seq<ConceptView>, keep: spec_fn(ConceptView) -> bool, n: int) -> Seq<ConceptView>
    decreases n,
{
    if n <= 0 {
        seq![]
    } else if keep(cs[n - 1]) {
        filter_concepts(cs, keep, n - 1).push(cs[n - 1])
    } else {
        filter_concepts(cs, keep, n - 1)
    }
}

/// The views of a list of concept references.
pub open spec fn concept_ref_views(v: Seq<&Concept>) -> Seq<ConceptView> {
    v.map_values(|c: &Concept| c@)
}

impl Bundle {
    /// Every concept whose `type` is exactly `type_`, in load order.
    pub fn concepts_of_type(&self, type_: &str) -> (r: Vec<&Concept>)
        ensures
            concept_ref_views(r@) == filter_concepts(
                self@.concepts,
                |c: ConceptView| field_text(c.fm, "type"@) == Some(type_@),
                self@.concepts.len() as int,
            ),
    {
        let ghost keep = |c: ConceptView| field_text(c.fm, "type"@) == Some(type_@);
        let ghost cv = self@.concepts;
        let mut out: Vec<&Concept> = Vec::new();
        let mut k: usize = 0;
        while k < self.concepts.len()
            invariant
                k <= self.concepts.len(),
                cv == concept_views(self.concepts@),
                keep == (|c: ConceptView| field_text(c.fm, "type"@) == Some(type_@)),
                concept_ref_views(out@) == filter_concepts(cv, keep, k as int),
            decreases self.concepts.len() - k,
        {
            let c = &self.concepts[k];
            proof {
                assert(cv[k as int] == c@);
            }
            let matches = match c.type_() {
                Some(t) => str_eq(t.as_str(), type_),
                None => false,
            };
            if matches {
                let ghost before = concept_ref_views(out@);
                out.push(c);
                proof {
                    assert(concept_ref_views(out@) =~= before.push(c@));
                }
            }
            k += 1;
        }
        out
    }

    /// Every `Attested Computation` concept, in load order.
    pub fn attested_computations(&self) -> (r: Vec<&Concept>)
        ensures
            concept_ref_views(r@) == filter_concepts(
                self@.concepts,
                |c: ConceptView| field_text(c.fm, "type"@) == Some("Attested Computation"@),
                self@.concepts.len() as int,
            ),
    {
        self.concepts_of_type(crate::computation::ATTESTED_COMPUTATION_TYPE)
    }

    /// Every concept that is stale at `now`: `now >= stale_after`.
    pub fn stale_at(&self, now: DateTime) -> (r: Vec<&Concept>)
        requires
            crate::date::well_formed(now),
        ensures
            concept_ref_views(r@) == filter_concepts(
                self@.concepts,
                |c: ConceptView| crate::document::stale_field(field_text(c.fm, "stale_after"@), now),
                self@.concepts.len() as int,
            ),
    {
        let ghost keep = |c: ConceptView| crate::document::stale_field(field_text(c.fm, "stale_after"@), now);
        let ghost cv = self@.concepts;
        let mut out: Vec<&Concept> = Vec::new();
        let mut k: usize = 0;
        while k < self.concepts.len()
            invariant
                k <= self.concepts.len(),
                crate::date::well_formed(now),
                cv == concept_views(self.concepts@),
                keep == (|c: ConceptView| crate::document::stale_field(field_text(c.fm, "stale_after"@), now)),
                concept_ref_views(out@) == filter_concepts(cv, keep, k as int),
            decreases self.concepts.len() - k,
        {
            let c = &self.concepts[k];
            proof {
                assert(cv[k as int] == c@);
            }
            if c.is_stale_at(now) {
                let ghost before = concept_ref_views(out@);
                out.push(c);
                proof {
                    assert(concept_ref_views(out@) =~= before.push(c@));
                }
            }
            k += 1;
        }
        out
    }

    /// Every concept that is stale on `today`, judged at midnight UTC.
    pub fn stale_on(&self, today: Date) -> (r: Vec<&Concept>)
        requires
            crate::date::well_formed(crate::date::midnight_utc(today)),
        ensures
            concept_ref_views(r@) == filter_concepts(
                self@.concepts,
                |c: ConceptView| crate::document::stale_field(field_text(c.fm, "stale_after"@), crate::date::midnight_utc(today)),
                self@.concepts.len() as int,
            ),
    {
        self.stale_at(today.to_utc_datetime())
    }

    /// Resolves a path-valued frontmatter field to a file of the bundle: the
    /// first of [`crate::links::field_path_candidates`] that is one of the
    /// bundle's files, placed under the root.
    pub fn resolve_path_field(&self, from: &ConceptId, raw: &str) -> (r: Option<String>)
        requires
            from.wf(),
        ensures
            match r {
                Some(p) => exists|i: int| 0 <= i < crate::links::path_candidates(raw@, from@.drop_last()).len()
                    && self@.files.contains(#[trigger] crate::links::path_candidates(raw@, from@.drop_last())[i])
                    && p@ == under_root(self@.root, crate::links::path_candidates(raw@, from@.drop_last())[i])
                    && (forall|q: int| 0 <= q < i ==> !self@.files.contains(#[trigger] crate::links::path_candidates(raw@, from@.drop_last())[q])),
                None => forall|i: int| 0 <= i < crate::links::path_candidates(raw@, from@.drop_last()).len()
                    ==> !self@.files.contains(#[trigger] crate::links::path_candidates(raw@, from@.drop_last())[i]),
            },
    {
        let cands = crate::links::field_path_candidates(raw, from);
        let ghost cv = texts(cands@);
        let ghost files = self@.files;
        let mut i: usize = 0;
        while i < cands.len()
            invariant
                i <= cands.len(),
                cv == texts(cands@),
                files == texts(self.files@),
                forall|q: int| 0 <= q < i ==> !files.contains(#[trigger] cv[q]),
                cv == crate::links::path_candidates(raw@, from@.drop_last()),
                files == self@.files,
            decreases cands.len() - i,
        {
            let mut f: usize = 0;
            while f < self.files.len()
                invariant
                    f <= self.files.len(),
                    i < cands.len(),
                    cv == texts(cands@),
                    files == texts(self.files@),
                    forall|q: int| 0 <= q < f ==> files[q] != cv[i as int],
                    forall|q: int| 0 <= q < i ==> !files.contains(#[trigger] cv[q]),
                    cv == crate::links::path_candidates(raw@, from@.drop_last()),
                    files == self@.files,
                decreases self.files.len() - f,
            {
                if str_eq(self.files[f].as_str(), cands[i].as_str()) {
                    proof {
                        assert(files[f as int] == self.files@[f as int]@);
                        assert(cv[i as int] == cands@[i as int]@);
                        assert(files[f as int] == cv[i as int]);
                        assert(files.contains(cv[i as int]));
                        assert(self@.files.contains(crate::links::path_candidates(raw@, from@.drop_last())[i as int]));
                    }
                    return Some(join_root(self.root.as_str(), cands[i].as_str()));
                }
                proof {
                    assert(files[f as int] == self.files@[f as int]@);
                    assert(cv[i as int] == cands@[i as int]@);
                }
                f += 1;
            }
            proof {
                assert(!files.contains(cv[i as int]));
            }
            i += 1;
        }
        None
    }
}


// ---------------------------------------------------------------------------
// The tag view.
// ---------------------------------------------------------------------------

/// The `(tag, concept)` pairs of the first `n` concepts: each concept's
/// `tags` in order, with its id.
pub open spec fn tag_events(cs: Seq<ConceptView>, n: int) -> Seq<(Seq<char>, Seq<Seq<char>>)>
    decreases n,
{
    if n <= 0 {
        seq![]
    } else {
        tag_events(cs, n - 1) + crate::document::tags_of(cs[n - 1].fm).map_values(
            |t: Seq<char>| (t, cs[n - 1].id),
        )
    }
}

/// The concepts of the first `m` pairs that carry tag `t`, in order (once
/// per listing).
pub open spec fn grouped(ev: Seq<(Seq<char>, Seq<Seq<char>>)>, t: Seq<char>, m: int) -> Seq<Seq<Seq<char>>>
    decreases m,
{
    if m <= 0 {
        seq![]
    } else if ev[m - 1].0 == t {
        grouped(ev, t, m - 1).push(ev[m - 1].1)
    } else {
        grouped(ev, t, m - 1)
    }
}

/// Whether `r` is the tag index of the pairs `ev`: its tags strictly
/// ascending, each with the concepts that carry it (at least one), and every
/// tag of `ev` among them.
pub open spec fn tag_index(r: Seq<(Seq<char>, Seq<Seq<Seq<char>>>)>, ev: Seq<(Seq<char>, Seq<Seq<char>>)>) -> bool {
    &&& forall|i: int, j: int| 0 <= i < j < r.len() ==> crate::search::chars_lt(#[trigger] r[i].0, #[trigger] r[j].0)
    &&& forall|i: int| 0 <= i < r.len() ==> (#[trigger] r[i]).1 == grouped(ev, r[i].0, ev.len() as int) && r[i].1.len() > 0
    &&& forall|e: int| 0 <= e < ev.len() ==> exists|i: int| 0 <= i < r.len() && (#[trigger] r[i]).0 == (#[trigger] ev[e]).0
}

/// The view of a tag index.
pub open spec fn tag_views(v: Seq<(String, Vec<ConceptId>)>) -> Seq<(Seq<char>, Seq<Seq<Seq<char>>>)> {
    v.map_values(|p: (String, Vec<ConceptId>)| (p.0@, id_views(p.1@)))
}

proof fn lemma_grouped_prefix(a: Seq<(Seq<char>, Seq<Seq<char>>)>, b: Seq<(Seq<char>, Seq<Seq<char>>)>, t: Seq<char>, m: int)
    requires
        0 <= m <= a.len(),
        m <= b.len(),
        forall|k: int| 0 <= k < m ==> a[k] == b[k],
    ensures
        grouped(a, t, m) == grouped(b, t, m),
    decreases m,
{
    if m > 0 {
        lemma_grouped_prefix(a, b, t, m - 1);
    }
}

proof fn lemma_grouped_absent(ev: Seq<(Seq<char>, Seq<Seq<char>>)>, t: Seq<char>, m: int)
    requires
        0 <= m <= ev.len(),
        forall|k: int| 0 <= k < m ==> (#[trigger] ev[k]).0 != t,
    ensures
        grouped(ev, t, m) == Seq::<Seq<Seq<char>>>::empty(),
    decreases m,
{
    if m > 0 {
        lemma_grouped_absent(ev, t, m - 1);
    }
}

proof fn lemma_grouped_push(ev: Seq<(Seq<char>, Seq<Seq<char>>)>, x: (Seq<char>, Seq<Seq<char>>), t: Seq<char>)
    ensures
        grouped(ev.push(x), t, ev.len() + 1int) == (if x.0 == t {
            grouped(ev, t, ev.len() as int).push(x.1)
        } else {
            grouped(ev, t, ev.len() as int)
        }),
{
    lemma_grouped_prefix(ev.push(x), ev, t, ev.len() as int);
}

/// Adds the pair `(t, id)` to a tag index.
fn insert_tag(r: &mut Vec<(String, Vec<ConceptId>)>, t: String, id: &ConceptId, Ghost(ev): Ghost<Seq<(Seq<char>, Seq<Seq<char>>)>>)
    requires
        tag_index(tag_views(old(r)@), ev),
    ensures
        tag_index(tag_views(final(r)@), ev.push((t@, id@))),
{
    let ghost rv = tag_views(r@);
    let ghost ev2 = ev.push((t@, id@));
    let tv = chars_of(t.as_str());
    let mut p: usize = 0;
    while p < r.len() && crate::search::chars_less(&chars_of(r[p].0.as_str()), &tv)
        invariant
            p <= r.len(),
            rv == tag_views(r@),
            tv@ == t@,
            forall|q: int| 0 <= q < p ==> crate::search::chars_lt(#[trigger] rv[q].0, t@),
        decreases r.len() - p,
    {
        proof {
            assert(rv[p as int].0 == r@[p as int].0@);
        }
        p += 1;
    }
    proof {
        if p < r.len() {
            assert(rv[p as int].0 == r@[p as int].0@);
        }
    }
    if p < r.len() && str_eq(r[p].0.as_str(), t.as_str()) {
        let (k, mut ids) = r.remove(p);
        let ghost before_ids = id_views(ids@);
        ids.push(id.clone());
        proof {
            assert(rv[p as int].0 == k@);
            assert(rv[p as int].1 == before_ids);
        }
        r.insert(p, (k, ids));
        proof {
            let nv = tag_views(r@);
            assert(nv.len() == rv.len());
            assert forall|i: int| 0 <= i < nv.len() && i != p implies #[trigger] nv[i] == rv[i] by {
                assert(nv[i] == (r@[i].0@, id_views(r@[i].1@)));
            }
            assert(nv[p as int].0 == t@);
            assert(nv[p as int].1 =~= before_ids.push(id@));
            assert forall|i: int| 0 <= i < nv.len() implies (#[trigger] nv[i]).1 == grouped(ev2, nv[i].0, ev2.len() as int) && nv[i].1.len() > 0 by {
                lemma_grouped_push(ev, (t@, id@), nv[i].0);
                if i != p {
                    assert(nv[i] == rv[i]);
                    if rv[i].0 == t@ {
                        if i < p {
                            assert(crate::search::chars_lt(rv[i].0, rv[p as int].0));
                        } else {
                            assert(crate::search::chars_lt(rv[p as int].0, rv[i].0));
                        }
                        crate::search::lemma_chars_lt_irrefl(t@);
                    }
                }
            }
            assert forall|i: int, j: int| 0 <= i < j < nv.len() implies crate::search::chars_lt(#[trigger] nv[i].0, #[trigger] nv[j].0) by {
                assert(nv[i].0 == rv[i].0 && nv[j].0 == rv[j].0);
            }
            assert forall|e: int| 0 <= e < ev2.len() implies exists|i: int| 0 <= i < nv.len() && (#[trigger] nv[i]).0 == (#[trigger] ev2[e]).0 by {
                if e < ev.len() {
                    assert(ev2[e] == ev[e]);
                    let i = choose|i: int| 0 <= i < rv.len() && (#[trigger] rv[i]).0 == (#[trigger] ev[e]).0;
                    assert(nv[i].0 == rv[i].0);
                } else {
                    assert(nv[p as int].0 == ev2[e].0);
                }
            }
        }
    } else {
        proof {
            assert forall|q: int| p <= q < rv.len() implies crate::search::chars_lt(t@, #[trigger] rv[q].0) by {
                assert(rv[p as int].0 != t@);
                crate::search::lemma_chars_lt_total(rv[p as int].0, t@);
                if q > p {
                    crate::search::lemma_chars_lt_trans(t@, rv[p as int].0, rv[q].0);
                }
            }
            assert forall|q: int| 0 <= q < rv.len() implies (#[trigger] rv[q]).0 != t@ by {
                crate::search::lemma_chars_lt_irrefl(t@);
                if q < p {
                    assert(crate::search::chars_lt(rv[q].0, t@));
                } else {
                    assert(crate::search::chars_lt(t@, rv[q].0));
                }
            }
            assert forall|k: int| 0 <= k < ev.len() implies (#[trigger] ev[k]).0 != t@ by {
                let i = choose|i: int| 0 <= i < rv.len() && (#[trigger] rv[i]).0 == (#[trigger] ev[k]).0;
                assert(rv[i].0 != t@);
            }
            lemma_grouped_absent(ev, t@, ev.len() as int);
        }
        let mut ids: Vec<ConceptId> = Vec::new();
        ids.push(id.clone());
        let ghost ids_v = id_views(ids@);
        r.insert(p, (t, ids));
        proof {
            let nv = tag_views(r@);
            assert(nv.len() == rv.len() + 1);
            assert forall|i: int| 0 <= i < p implies #[trigger] nv[i] == rv[i] by {
                assert(nv[i] == (r@[i].0@, id_views(r@[i].1@)));
            }
            assert forall|i: int| p < i < nv.len() implies #[trigger] nv[i] == rv[i - 1] by {
                assert(nv[i] == (r@[i].0@, id_views(r@[i].1@)));
            }
            assert(nv[p as int].0 == t@);
            assert(ids_v =~= seq![id@]);
            assert(nv[p as int].1 == ids_v);
            assert forall|i: int, j: int| 0 <= i < j < nv.len() implies crate::search::chars_lt(#[trigger] nv[i].0, #[trigger] nv[j].0) by {
                if j < p {
                    assert(nv[i] == rv[i] && nv[j] == rv[j]);
                } else if j == p {
                    assert(nv[i] == rv[i]);
                } else if i < p {
                    assert(nv[i] == rv[i] && nv[j] == rv[j - 1]);
                } else if i == p {
                    assert(nv[j] == rv[j - 1]);
                } else {
                    assert(nv[i] == rv[i - 1] && nv[j] == rv[j - 1]);
                }
            }
            assert forall|i: int| 0 <= i < nv.len() implies (#[trigger] nv[i]).1 == grouped(ev2, nv[i].0, ev2.len() as int) && nv[i].1.len() > 0 by {
                lemma_grouped_push(ev, (t@, id@), nv[i].0);
                if i < p {
                    assert(nv[i] == rv[i]);
                } else if i > p {
                    assert(nv[i] == rv[i - 1]);
                } else {
                    assert(grouped(ev2, t@, ev2.len() as int) =~= seq![id@]);
                }
            }
            assert forall|e: int| 0 <= e < ev2.len() implies exists|i: int| 0 <= i < nv.len() && (#[trigger] nv[i]).0 == (#[trigger] ev2[e]).0 by {
                if e < ev.len() {
                    assert(ev2[e] == ev[e]);
                    let i = choose|i: int| 0 <= i < rv.len() && (#[trigger] rv[i]).0 == (#[trigger] ev[e]).0;
                    if i < p {
                        assert(nv[i].0 == rv[i].0);
                    } else {
                        assert(nv[i + 1].0 == rv[i].0);
                    }
                } else {
                    assert(nv[p as int].0 == ev2[e].0);
                }
            }
        }
    }
}


/// The pairs of the first `j` tags of one concept.
pub open spec fn tag_pairs(tags: Seq<Seq<char>>, id: Seq<Seq<char>>, j: int) -> Seq<(Seq<char>, Seq<Seq<char>>)> {
    tags.take(j).map_values(|t: Seq<char>| (t, id))
}

impl Bundle {
    /// The tag index synthesized from the concepts' `tags`: each tag once,
    /// in ascending order, with the concepts that list it in load order (see
    /// [`tag_index`]).
    pub fn tags(&self) -> (r: Vec<(String, Vec<ConceptId>)>)
        ensures
            tag_index(tag_views(r@), tag_events(self@.concepts, self@.concepts.len() as int)),
    {
        let ghost cv = self@.concepts;
        let mut r: Vec<(String, Vec<ConceptId>)> = Vec::new();
        proof {
            assert(tag_views(r@) =~= Seq::<(Seq<char>, Seq<Seq<Seq<char>>>)>::empty());
            assert(tag_events(cv, 0) =~= Seq::<(Seq<char>, Seq<Seq<char>>)>::empty());
        }
        let mut k: usize = 0;
        while k < self.concepts.len()
            invariant
                k <= self.concepts.len(),
                cv == concept_views(self.concepts@),
                tag_index(tag_views(r@), tag_events(cv, k as int)),
            decreases self.concepts.len() - k,
        {
            let c = &self.concepts[k];
            proof {
                assert(cv[k as int] == c@);
            }
            let tags = c.document.frontmatter.tags();
            let ghost tv = texts(tags@);
            let ghost base = tag_events(cv, k as int);
            let mut j: usize = 0;
            while j < tags.len()
                invariant
                    j <= tags.len(),
                    k < self.concepts.len(),
                    cv == concept_views(self.concepts@),
                    cv[k as int] == c@,
                    tv == texts(tags@),
                    tv == crate::document::tags_of(c@.fm),
                    base == tag_events(cv, k as int),
                    tag_index(tag_views(r@), base + tag_pairs(tv, c@.id, j as int)),
                decreases tags.len() - j,
            {
                let t = tags[j].clone();
                let ghost ev = base + tag_pairs(tv, c@.id, j as int);
                insert_tag(&mut r, t, &c.id, Ghost(ev));
                proof {
                    assert(tv[j as int] == t@);
                    assert(ev.push((t@, c.id@)) =~= base + tag_pairs(tv, c@.id, j + 1));
                }
                j += 1;
            }
            proof {
                assert(tv.take(tags.len() as int) =~= tv);
                assert(tag_events(cv, k + 1) =~= base + tag_pairs(tv, c@.id, tags.len() as int));
            }
            k += 1;
        }
        r
    }
}


// ---------------------------------------------------------------------------
// Laws of the two graphs.
// ---------------------------------------------------------------------------

proof fn lemma_derived_upto_contains(rs: Seq<(crate::provenance::SourceView, Option<Seq<Seq<char>>>)>, t: Seq<Seq<char>>, n: int)
    requires
        0 <= n <= rs.len(),
    ensures
        derived_upto(rs, n).contains(t) <==> exists|j: int| 0 <= j < n && (#[trigger] rs[j]).1 == Some(t),
    decreases n,
{
    if n > 0 {
        lemma_derived_upto_contains(rs, t, n - 1);
        let p = derived_upto(rs, n - 1);
        match rs[n - 1].1 {
            Some(x) => {
                assert(derived_upto(rs, n) == p.push(x));
                if p.push(x).contains(t) && !p.contains(t) {
                    let i = choose|i: int| 0 <= i < p.push(x).len() && p.push(x)[i] == t;
                    assert(i == p.len());
                }
                if p.contains(t) {
                    let i = choose|i: int| 0 <= i < p.len() && p[i] == t;
                    assert(p.push(x)[i] == t);
                }
                if x == t {
                    assert(p.push(x)[p.len() as int] == t);
                }
            },
            None => {},
        }
    }
}

proof fn lemma_ids_upto_contains(cs: Seq<ConceptView>, s: Seq<Seq<char>>, keep: spec_fn(ConceptView) -> bool, out: Seq<Seq<Seq<char>>>, n: int)
    requires
        0 <= n <= cs.len(),
        out == ids_upto(cs, keep, n),
    ensures
        out.contains(s) <==> exists|k: int| 0 <= k < n && (#[trigger] cs[k]).id == s && keep(cs[k]),
    decreases n,
{
    if n > 0 {
        let p = ids_upto(cs, keep, n - 1);
        lemma_ids_upto_contains(cs, s, keep, p, n - 1);
        if keep(cs[n - 1]) {
            let x = cs[n - 1].id;
            if p.push(x).contains(s) && !p.contains(s) {
                let i = choose|i: int| 0 <= i < p.push(x).len() && p.push(x)[i] == s;
                assert(i == p.len());
            }
            if p.contains(s) {
                let i = choose|i: int| 0 <= i < p.len() && p[i] == s;
                assert(p.push(x)[i] == s);
            }
            if x == s {
                assert(p.push(x)[p.len() as int] == s);
            }
        }
    }
}

/// The ids of the first `n` concepts that satisfy `keep`, in order.
pub open spec fn ids_upto(cs: Seq<ConceptView>, keep: spec_fn(ConceptView) -> bool, n: int) -> Seq<Seq<Seq<char>>>
    decreases n,
{
    if n <= 0 {
        seq![]
    } else if keep(cs[n - 1]) {
        ids_upto(cs, keep, n - 1).push(cs[n - 1].id)
    } else {
        ids_upto(cs, keep, n - 1)
    }
}

proof fn lemma_derives_is_ids_upto(cs: Seq<ConceptView>, t: Seq<Seq<char>>, n: int)
    ensures
        derives_upto(cs, t, n) == ids_upto(cs, |c: ConceptView| derives_from(c, cs, t), n),
    decreases n,
{
    if n > 0 {
        lemma_derives_is_ids_upto(cs, t, n - 1);
    }
}

proof fn lemma_backlinks_is_ids_upto(cs: Seq<ConceptView>, t: Seq<Seq<char>>, n: int)
    ensures
        backlinks_upto(cs, t, n) == ids_upto(cs, |c: ConceptView| cites(concept_links(c, cs), t), n),
    decreases n,
{
    if n > 0 {
        lemma_backlinks_is_ids_upto(cs, t, n - 1);
    }
}

/// `derives` is the reverse of `derived_from`: concept `t` is among the
/// concepts `s` derives from exactly when `s` is among the concepts that
/// cite `t`.
pub proof fn lemma_derivation_is_symmetric(cs: Seq<ConceptView>, s: Seq<Seq<char>>, t: Seq<Seq<char>>)
    requires
        ids_ok(cs),
        has_id(cs, s),
    ensures
        derived_upto(
            resolved_sources(cs[position_of(cs, s)], cs),
            resolved_sources(cs[position_of(cs, s)], cs).len() as int,
        ).contains(t) <==> derives_upto(cs, t, cs.len() as int).contains(s),
{
    let k = position_of(cs, s);
    let rs = resolved_sources(cs[k], cs);
    lemma_derived_upto_contains(rs, t, rs.len() as int);
    lemma_derives_is_ids_upto(cs, t, cs.len() as int);
    let keep = |c: ConceptView| derives_from(c, cs, t);
    lemma_ids_upto_contains(cs, s, keep, derives_upto(cs, t, cs.len() as int), cs.len() as int);
    if derives_upto(cs, t, cs.len() as int).contains(s) {
        let q = choose|q: int| 0 <= q < cs.len() && (#[trigger] cs[q]).id == s && keep(cs[q]);
        assert(q == k);
        assert(derives_from(cs[k], cs, t));
    }
    if exists|j: int| 0 <= j < rs.len() && (#[trigger] rs[j]).1 == Some(t) {
        assert(derives_from(cs[k], cs, t));
        assert(keep(cs[k]));
    }
}

/// Backlinks are the reverse of links: concept `s` is among the backlinks
/// of `t` exactly when one of `s`'s outbound links is a link to the existing
/// concept `t`.
pub proof fn lemma_backlinks_reverse_links(cs: Seq<ConceptView>, s: Seq<Seq<char>>, t: Seq<Seq<char>>)
    requires
        ids_ok(cs),
        has_id(cs, s),
    ensures
        backlinks_upto(cs, t, cs.len() as int).contains(s)
            <==> cites(concept_links(cs[position_of(cs, s)], cs), t),
{
    let k = position_of(cs, s);
    lemma_backlinks_is_ids_upto(cs, t, cs.len() as int);
    let keep = |c: ConceptView| cites(concept_links(c, cs), t);
    lemma_ids_upto_contains(cs, s, keep, backlinks_upto(cs, t, cs.len() as int), cs.len() as int);
    if backlinks_upto(cs, t, cs.len() as int).contains(s) {
        let q = choose|q: int| 0 <= q < cs.len() && (#[trigger] cs[q]).id == s && keep(cs[q]);
        assert(q == k);
    }
    if cites(concept_links(cs[k], cs), t) {
        assert(keep(cs[k]));
    }
}

proof fn lemma_ids_upto_no_duplicates(cs: Seq<ConceptView>, keep: spec_fn(ConceptView) -> bool, n: int)
    requires
        ids_ok(cs),
        0 <= n <= cs.len(),
    ensures
        ids_upto(cs, keep, n).no_duplicates(),
    decreases n,
{
    if n > 0 {
        lemma_ids_upto_no_duplicates(cs, keep, n - 1);
        let p = ids_upto(cs, keep, n - 1);
        if keep(cs[n - 1]) {
            let x = cs[n - 1].id;
            lemma_ids_upto_contains(cs, x, keep, p, n - 1);
            if p.contains(x) {
                let k = choose|k: int| 0 <= k < n - 1 && (#[trigger] cs[k]).id == x && keep(cs[k]);
                assert(cs[k].id != cs[n - 1].id);
            }
            let q = p.push(x);
            assert forall|i: int, j: int| 0 <= i < q.len() && 0 <= j < q.len() && i != j implies q[i] != q[j] by {
                if j == p.len() {
                    assert(q[i] == p[i]);
                    if p[i] == x {
                        assert(p.contains(x));
                    }
                } else if i == p.len() {
                    assert(q[j] == p[j]);
                    if p[j] == x {
                        assert(p.contains(x));
                    }
                } else {
                    assert(q[i] == p[i] && q[j] == p[j]);
                }
            }
        }
    }
}

/// Each concept that links to `t` is listed once among its backlinks.
pub proof fn lemma_backlinks_once_each(cs: Seq<ConceptView>, t: Seq<Seq<char>>)
    requires
        ids_ok(cs),
    ensures
        backlinks_upto(cs, t, cs.len() as int).no_duplicates(),
{
    lemma_backlinks_is_ids_upto(cs, t, cs.len() as int);
    lemma_ids_upto_no_duplicates(cs, |c: ConceptView| cites(concept_links(c, cs), t), cs.len() as int);
}

/// Each concept that cites `t` as a source is listed once among the concepts
/// derived from `t`, and `t` itself never is: a concept's reference to
/// itself names no source concept.
pub proof fn lemma_derives_once_each_without_self(cs: Seq<ConceptView>, t: Seq<Seq<char>>)
    requires
        ids_ok(cs),
    ensures
        derives_upto(cs, t, cs.len() as int).no_duplicates(),
        !derives_upto(cs, t, cs.len() as int).contains(t),
{
    let keep = |c: ConceptView| derives_from(c, cs, t);
    lemma_derives_is_ids_upto(cs, t, cs.len() as int);
    lemma_ids_upto_no_duplicates(cs, keep, cs.len() as int);
    lemma_ids_upto_contains(cs, t, keep, derives_upto(cs, t, cs.len() as int), cs.len() as int);
    if derives_upto(cs, t, cs.len() as int).contains(t) {
        let k = choose|k: int| 0 <= k < cs.len() && (#[trigger] cs[k]).id == t && keep(cs[k]);
        let rs = resolved_sources(cs[k], cs);
        let j = choose|j: int| 0 <= j < rs.len() && (#[trigger] rs[j]).1 == Some(t);
        let src = frontmatter_sources(cs[k].fm)[j];
        assert(rs[j] == (src, source_target(src, cs[k], cs)));
    }
}

/// Every link of a concept of the bundle is kept, broken ones too: a link's
/// `exists` holds exactly when its target names a concept of the bundle.
pub proof fn lemma_links_keep_broken_ones(cs: Seq<ConceptView>, s: Seq<Seq<char>>)
    requires
        ids_ok(cs),
    ensures
        has_id(cs, s) ==> forall|j: int| 0 <= j < concept_links(cs[position_of(cs, s)], cs).len()
            ==> (#[trigger] concept_links(cs[position_of(cs, s)], cs)[j]).exists
                == has_id(cs, concept_links(cs[position_of(cs, s)], cs)[j].target),
{
    if has_id(cs, s) {
        let c = cs[position_of(cs, s)];
        assert forall|j: int| 0 <= j < concept_links(c, cs).len() implies (#[trigger] concept_links(c, cs)[j]).exists
            == has_id(cs, concept_links(c, cs)[j].target) by {
            lemma_link_exists_iff_target_loaded(cs, c, j);
        }
    }
}

/// Backlinks and links are two readings of one relation: a concept `a` is
/// among the backlinks of `t` exactly when one of `a`'s resolved links is an
/// existing link to `t`; and each concept is listed there at most once.
pub proof fn lemma_backlinks_are_existing_links_reversed(cs: Seq<ConceptView>, a: Seq<Seq<char>>, t: Seq<Seq<char>>)
    requires
        ids_ok(cs),
    ensures
        backlinks_upto(cs, t, cs.len() as int).contains(a) <==> exists|j: int|
            0 <= j < links_of(cs, a).len() && (#[trigger] links_of(cs, a)[j]).target == t && links_of(cs, a)[j].exists,
        backlinks_upto(cs, t, cs.len() as int).no_duplicates(),
{
    lemma_backlinks_once_each(cs, t);
    if has_id(cs, a) {
        lemma_backlinks_reverse_links(cs, a, t);
        let ls = links_of(cs, a);
        if cites(ls, t) {
            let j = choose|j: int| 0 <= j < ls.len() && (#[trigger] ls[j]).exists && ls[j].target == t;
            assert(ls[j].target == t && ls[j].exists);
        }
        if exists|j: int| 0 <= j < ls.len() && (#[trigger] ls[j]).target == t && ls[j].exists {
            let j = choose|j: int| 0 <= j < ls.len() && (#[trigger] ls[j]).target == t && ls[j].exists;
            assert(ls[j].exists && ls[j].target == t);
            assert(cites(ls, t));
        }
    } else {
        lemma_backlinks_is_ids_upto(cs, t, cs.len() as int);
        let keep = |c: ConceptView| cites(concept_links(c, cs), t);
        lemma_ids_upto_contains(cs, a, keep, backlinks_upto(cs, t, cs.len() as int), cs.len() as int);
        if backlinks_upto(cs, t, cs.len() as int).contains(a) {
            let q = choose|q: int| 0 <= q < cs.len() && (#[trigger] cs[q]).id == a && keep(cs[q]);
            assert(has_id(cs, a));
        }
    }
}

/// `derives` is `derived_from` reversed: a concept `a` is among the concepts
/// derived from `t` exactly when `t` is among those `a` derives from; each is
/// listed once, and `t` never derives from itself.
pub proof fn lemma_derives_is_derived_from_reversed(cs: Seq<ConceptView>, a: Seq<Seq<char>>, t: Seq<Seq<char>>)
    requires
        ids_ok(cs),
    ensures
        derives_upto(cs, t, cs.len() as int).contains(a) <==> derived_of(cs, a).contains(t),
        derives_upto(cs, t, cs.len() as int).no_duplicates(),
        !derives_upto(cs, t, cs.len() as int).contains(t),
{
    lemma_derives_once_each_without_self(cs, t);
    if has_id(cs, a) {
        lemma_derivation_is_symmetric(cs, a, t);
    } else {
        lemma_derives_is_ids_upto(cs, t, cs.len() as int);
        let keep = |c: ConceptView| derives_from(c, cs, t);
        lemma_ids_upto_contains(cs, a, keep, derives_upto(cs, t, cs.len() as int), cs.len() as int);
        if derives_upto(cs, t, cs.len() as int).contains(a) {
            let q = choose|q: int| 0 <= q < cs.len() && (#[trigger] cs[q]).id == a && keep(cs[q]);
            assert(has_id(cs, a));
        }
        assert(!derived_of(cs, a).contains(t));
    }
}

/// A link is broken exactly when its target names no concept of the bundle.
pub proof fn lemma_link_exists_iff_target_loaded(cs: Seq<ConceptView>, c: ConceptView, j: int)
    requires
        0 <= j < concept_links(c, cs).len(),
    ensures
        concept_links(c, cs)[j].exists == has_id(cs, concept_links(c, cs)[j].target),
{
    let sites = crate::markdown::links_in(c.body);
    lemma_links_upto_exists(sites, c.id.drop_last(), cs, sites.len() as int, j);
}

proof fn lemma_links_upto_exists(sites: Seq<(Seq<char>, Seq<char>)>, from_dir: Seq<Seq<char>>, cs: Seq<ConceptView>, n: int, j: int)
    requires
        0 <= j < links_upto(sites, from_dir, cs, n).len(),
    ensures
        links_upto(sites, from_dir, cs, n)[j].exists == has_id(cs, links_upto(sites, from_dir, cs, n)[j].target),
    decreases n,
{
    if n > 0 {
        let prev = links_upto(sites, from_dir, cs, n - 1);
        if j < prev.len() {
            lemma_links_upto_exists(sites, from_dir, cs, n - 1, j);
        }
    }
}

/// Every entry of the sorted list is one of the given entries.
pub proof fn lemma_by_path_member(xs: Seq<(Seq<char>, Option<Seq<char>>)>, k: int)
    requires
        0 <= k < by_path(xs).len(),
    ensures
        exists|j: int| 0 <= j < xs.len() && by_path(xs)[k] == #[trigger] xs[j],
    decreases xs.len(),
{
    if xs.len() > 0 {
        let p = xs.drop_last();
        let sp = by_path(p);
        lemma_by_path_len(p);
        lemma_entry_slot_bounds(sp, xs.last(), 0);
        let slot = entry_slot(sp, xs.last(), 0);
        let r = sp.insert(slot, xs.last());
        assert(by_path(xs) == r);
        if k == slot {
            assert(r[k] == xs[xs.len() - 1]);
        } else {
            let k2 = if k < slot { k } else { k - 1 };
            assert(r[k] == sp[k2]);
            lemma_by_path_member(p, k2);
            let j = choose|j: int| 0 <= j < p.len() && sp[k2] == #[trigger] p[j];
            assert(p[j] == xs[j]);
        }
    }
}

} // verus!
