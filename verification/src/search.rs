//! The omnisearch index and the shared query syntax.
//!
//! A query is whitespace-separated terms: `#tag`, `type:x`, `tier:x`,
//! `status:x`, `is:stale` and `is:broken` become filters, everything else is
//! fuzzy text scored by [`fuzzy_match`](crate::fuzzy::fuzzy_match). Hits are
//! ranked by score, best first, then by concept id, keeping index order
//! between equal keys.
use vstd::prelude::*;
use crate::concept_id::ConceptId;
use crate::fuzzy::{clamp_i32, fuzzy_match, fuzzy_spec, idx_view};
use crate::text::{chars_of, eq_ignore_ascii_case, eq_ignore_case, has_prefix, is_whitespace, is_ws, join_with, string_of, string_of_range, views};
use crate::trust::{status_name, tier_from_name, Status, TrustTier};

verus! {

broadcast use vstd::string::group_string_axioms;

/// One concept's searchable representation.
#[derive(Clone, Debug)]
pub struct SearchEntry {
    /// The concept id.
    pub id: ConceptId,
    /// Display title.
    pub title: String,
    /// One-line description (may be empty).
    pub description: String,
    /// Frontmatter tags.
    pub tags: Vec<String>,
    /// Body headings, for heading-level hits.
    pub headings: Vec<String>,
    /// The concept `type`.
    pub type_: String,
    /// Trust tier, for `tier:` filters.
    pub tier: TrustTier,
    /// Lifecycle status, for `status:` filters.
    pub status: Status,
    /// Whether the concept is stale today, for `is:stale`.
    pub stale: bool,
    /// Whether the concept has broken outgoing links, for `is:broken`.
    pub broken: bool,
}

/// A structured filter parsed from the query syntax.
#[derive(Clone, Debug, PartialEq, Eq)]
pub enum Filter {
    /// `#tag`
    Tag(String),
    /// `type:Policy`
    Type(String),
    /// `tier:unverified`
    Tier(TrustTier),
    /// `status:draft`
    Status(String),
    /// `is:stale`
    Stale,
    /// `is:broken`
    Broken,
}

/// A filter with its texts as character sequences.
pub enum FilterView {
    Tag(Seq<char>),
    Type(Seq<char>),
    Tier(TrustTier),
    Status(Seq<char>),
    Stale,
    Broken,
}

impl Filter {
    /// The filter with its texts as character sequences.
    pub open spec fn view(&self) -> FilterView {
        match self {
            Filter::Tag(s) => FilterView::Tag(s@),
            Filter::Type(s) => FilterView::Type(s@),
            Filter::Tier(t) => FilterView::Tier(*t),
            Filter::Status(s) => FilterView::Status(s@),
            Filter::Stale => FilterView::Stale,
            Filter::Broken => FilterView::Broken,
        }
    }
}

/// A parsed query: free text plus zero or more filters.
#[derive(Clone, Debug, Default)]
pub struct Query {
    /// The fuzzy free-text part.
    pub text: String,
    /// The structured filters.
    pub filters: Vec<Filter>,
}

/// `str::split_whitespace` as a scan over the first `n` characters: the words
/// finished so far and the word in progress.
pub open spec fn words_scan(s: Seq<char>, n: int) -> (Seq<Seq<char>>, Seq<char>)
    decreases n,
{
    if n <= 0 {
        (seq![], seq![])
    } else {
        let (done, cur) = words_scan(s, n - 1);
        if is_ws(s[n - 1]) {
            if cur.len() > 0 {
                (done.push(cur), seq![])
            } else {
                (done, seq![])
            }
        } else {
            (done, cur.push(s[n - 1]))
        }
    }
}

/// The whitespace-separated words of `s` (`str::split_whitespace`).
pub open spec fn words(s: Seq<char>) -> Seq<Seq<char>> {
    let (done, cur) = words_scan(s, s.len() as int);
    if cur.len() > 0 {
        done.push(cur)
    } else {
        done
    }
}

/// The filter a query term spells, if any.
pub open spec fn term_filter(t: Seq<char>) -> Option<FilterView> {
    if has_prefix(t, "#"@) {
        if t.len() > 1 {
            Some(FilterView::Tag(t.subrange(1, t.len() as int)))
        } else {
            None
        }
    } else if has_prefix(t, "type:"@) {
        Some(FilterView::Type(t.subrange(5, t.len() as int)))
    } else if has_prefix(t, "tier:"@) {
        match tier_from_name(t.subrange(5, t.len() as int)) {
            Some(x) => Some(FilterView::Tier(x)),
            None => None,
        }
    } else if has_prefix(t, "status:"@) {
        Some(FilterView::Status(t.subrange(7, t.len() as int)))
    } else if t == "is:stale"@ {
        Some(FilterView::Stale)
    } else if t == "is:broken"@ {
        Some(FilterView::Broken)
    } else {
        None
    }
}

/// The free-text terms and the filters among the first `i` words.
pub open spec fn split_terms(ws: Seq<Seq<char>>, i: int) -> (Seq<Seq<char>>, Seq<FilterView>)
    decreases i,
{
    if i <= 0 {
        (seq![], seq![])
    } else {
        let (texts, filters) = split_terms(ws, i - 1);
        match term_filter(ws[i - 1]) {
            Some(f) => (texts, filters.push(f)),
            None => (texts.push(ws[i - 1]), filters),
        }
    }
}

/// The free text of a raw query: its non-filter words joined by spaces.
pub open spec fn query_text(raw: Seq<char>) -> Seq<char> {
    join_with(split_terms(words(raw), words(raw).len() as int).0, " "@)
}

/// The filters of a raw query, in order.
pub open spec fn query_filters(raw: Seq<char>) -> Seq<FilterView> {
    split_terms(words(raw), words(raw).len() as int).1
}

/// The views of a list of filters.
pub open spec fn filter_views(v: Seq<Filter>) -> Seq<FilterView> {
    v.map_values(|f: Filter| f@)
}

/// Splits text into its whitespace-separated words.
pub fn split_words(s: &[char]) -> (r: Vec<Vec<char>>)
    ensures
        views(r@) == words(s@),
{
    let mut done: Vec<Vec<char>> = Vec::new();
    let mut cur: Vec<char> = Vec::new();
    let mut i: usize = 0;
    while i < s.len()
        invariant
            i <= s.len(),
            (views(done@), cur@) == words_scan(s@, i as int),
        decreases s.len() - i,
    {
        if is_whitespace(s[i]) {
            if cur.len() > 0 {
                let ghost before = views(done@);
                let w = cur;
                cur = Vec::new();
                done.push(w);
                proof {
                    assert(views(done@) =~= before.push(w@));
                }
            } else {
                cur = Vec::new();
            }
        } else {
            cur.push(s[i]);
        }
        i += 1;
    }
    if cur.len() > 0 {
        let ghost before = views(done@);
        let w = cur;
        done.push(w);
        proof {
            assert(views(done@) =~= before.push(w@));
        }
    }
    done
}

fn starts_with_text(v: &[char], w: &str) -> (r: bool)
    ensures
        r == has_prefix(v@, w@),
{
    let wv = chars_of(w);
    let r = crate::text::matches_at(v, 0, &wv);
    proof {
        if r {
            assert(v@.subrange(0, wv@.len() as int) == wv@);
        }
    }
    r
}

fn equals_text(v: &[char], w: &str) -> (r: bool)
    ensures
        r == (v@ == w@),
{
    let s = string_of(v);
    crate::text::str_eq(s.as_str(), w)
}

/// The filter a query term spells, if any.
fn filter_of_term(t: &[char]) -> (r: Option<Filter>)
    ensures
        match r {
            Some(f) => term_filter(t@) == Some(f@),
            None => term_filter(t@) is None,
        },
{
    proof {
        reveal_strlit("#");
        reveal_strlit("type:");
        reveal_strlit("tier:");
        reveal_strlit("status:");
    }
    if starts_with_text(t, "#") {
        if t.len() > 1 {
            Some(Filter::Tag(string_of_range(t, 1, t.len())))
        } else {
            None
        }
    } else if starts_with_text(t, "type:") {
        Some(Filter::Type(string_of_range(t, 5, t.len())))
    } else if starts_with_text(t, "tier:") {
        let name = string_of_range(t, 5, t.len());
        match TrustTier::parse_name(name.as_str()) {
            Ok(x) => Some(Filter::Tier(x)),
            Err(_) => None,
        }
    } else if starts_with_text(t, "status:") {
        Some(Filter::Status(string_of_range(t, 7, t.len())))
    } else if equals_text(t, "is:stale") {
        Some(Filter::Stale)
    } else if equals_text(t, "is:broken") {
        Some(Filter::Broken)
    } else {
        None
    }
}

/// The ASCII-case-insensitive match of a tag filter against an entry's tags.
pub open spec fn has_tag(tags: Seq<String>, tag: Seq<char>) -> bool {
    exists|k: int| 0 <= k < tags.len() && eq_ignore_case(#[trigger] tags[k]@, tag)
}

/// Whether an entry passes one filter.
pub open spec fn passes(f: FilterView, e: SearchEntry) -> bool {
    match f {
        FilterView::Tag(tag) => has_tag(e.tags@, tag),
        FilterView::Type(t) => eq_ignore_case(e.type_@, t),
        FilterView::Tier(tier) => e.tier == tier,
        FilterView::Status(s) => eq_ignore_case(status_name(e.status), s),
        FilterView::Stale => e.stale,
        FilterView::Broken => e.broken,
    }
}

/// Whether an entry passes every filter.
pub open spec fn passes_all(fs: Seq<FilterView>, e: SearchEntry) -> bool {
    forall|k: int| 0 <= k < fs.len() ==> passes(#[trigger] fs[k], e)
}

fn text_eq_ci(a: &str, b: &str) -> (r: bool)
    ensures
        r == eq_ignore_case(a@, b@),
{
    eq_ignore_ascii_case(&chars_of(a), &chars_of(b))
}

fn passes_one(f: &Filter, e: &SearchEntry) -> (r: bool)
    ensures
        r == passes(f@, *e),
{
    match f {
        Filter::Tag(tag) => {
            let mut k: usize = 0;
            while k < e.tags.len()
                invariant
                    k <= e.tags.len(),
                    passes(f@, *e) == has_tag(e.tags@, tag@),
                    forall|j: int| 0 <= j < k ==> !eq_ignore_case(#[trigger] e.tags@[j]@, tag@),
                decreases e.tags.len() - k,
            {
                if text_eq_ci(e.tags[k].as_str(), tag.as_str()) {
                    proof {
                        assert(eq_ignore_case(e.tags@[k as int]@, tag@));
                        assert(has_tag(e.tags@, tag@));
                    }
                    return true;
                }
                k += 1;
            }
            false
        },
        Filter::Type(t) => text_eq_ci(e.type_.as_str(), t.as_str()),
        Filter::Tier(tier) => e.tier == *tier,
        Filter::Status(s) => text_eq_ci(e.status.as_str(), s.as_str()),
        Filter::Stale => e.stale,
        Filter::Broken => e.broken,
    }
}

impl Query {
    /// Parses the query syntax: whitespace-separated terms, where `#x`,
    /// `type:x`, `tier:x` (with a valid tier), `status:x`, `is:stale` and
    /// `is:broken` become filters and every other term joins the fuzzy text.
    pub fn parse(raw: &str) -> (r: Query)
        ensures
            r.text@ == query_text(raw@),
            filter_views(r.filters@) == query_filters(raw@),
    {
        let ws = split_words(&chars_of(raw));
        let ghost gw = views(ws@);
        let mut texts: Vec<Vec<char>> = Vec::new();
        let mut filters: Vec<Filter> = Vec::new();
        let mut i: usize = 0;
        while i < ws.len()
            invariant
                i <= ws.len(),
                gw == views(ws@),
                gw == words(raw@),
                (views(texts@), filter_views(filters@)) == split_terms(gw, i as int),
            decreases ws.len() - i,
        {
            let w = &ws[i];
            proof {
                assert(gw[i as int] == w@);
            }
            match filter_of_term(w) {
                Some(f) => {
                    let ghost before = filter_views(filters@);
                    filters.push(f);
                    proof {
                        assert(filter_views(filters@) =~= before.push(f@));
                    }
                },
                None => {
                    let ghost before = views(texts@);
                    let mut c: Vec<char> = Vec::new();
                    crate::text::extend_all(&mut c, w);
                    texts.push(c);
                    proof {
                        assert(views(texts@) =~= before.push(w@));
                    }
                },
            }
            i += 1;
        }
        let sp = chars_of(" ");
        let joined = crate::text::join_lines(&texts, &sp);
        Query { text: string_of(&joined), filters }
    }

    /// Whether an entry passes every filter.
    pub fn matches_filters(&self, entry: &SearchEntry) -> (r: bool)
        ensures
            r == passes_all(filter_views(self.filters@), *entry),
    {
        let mut k: usize = 0;
        while k < self.filters.len()
            invariant
                k <= self.filters.len(),
                forall|j: int| 0 <= j < k ==> passes(#[trigger] filter_views(self.filters@)[j], *entry),
            decreases self.filters.len() - k,
        {
            proof {
                assert(filter_views(self.filters@)[k as int] == self.filters@[k as int]@);
            }
            if !passes_one(&self.filters[k], entry) {
                return false;
            }
            k += 1;
        }
        true
    }
}


/// The precomputed omnisearch index over a snapshot's concepts.
#[derive(Clone, Debug, Default)]
pub struct SearchIndex {
    /// One entry per concept, in bundle order.
    pub entries: Vec<SearchEntry>,
}

/// A single omnisearch result.
#[derive(Clone, Debug)]
pub struct SearchHit {
    /// The concept the hit points at.
    pub id: ConceptId,
    /// The heading within the concept, when the hit is heading-level.
    pub heading: Option<String>,
    /// Fuzzy score (higher is better).
    pub score: i32,
    /// Char indices of the query match within [`SearchHit::label`].
    pub indices: Vec<usize>,
    /// The text the match was scored against.
    pub label: String,
}

/// A hit as `(id, heading, score, label)`.
pub type HitView = (Seq<Seq<char>>, Option<Seq<char>>, int, Seq<char>);

/// The optional text of an optional string.
pub open spec fn opt_text(o: Option<String>) -> Option<Seq<char>> {
    match o {
        Some(s) => Some(s@),
        None => None,
    }
}

impl SearchHit {
    /// The hit as `(id, heading, score, label)`.
    pub open spec fn view(&self) -> HitView {
        (self.id@, opt_text(self.heading), self.score as int, self.label@)
    }
}

/// The views of a list of hits.
pub open spec fn hit_views(v: Seq<SearchHit>) -> Seq<HitView> {
    v.map_values(|h: SearchHit| h@)
}

/// Code-point lexicographic order on texts (the order of `str`).
pub open spec fn chars_lt(a: Seq<char>, b: Seq<char>) -> bool
    decreases a.len(),
{
    if b.len() == 0 {
        false
    } else if a.len() == 0 {
        true
    } else if a[0] != b[0] {
        a[0] < b[0]
    } else {
        chars_lt(a.drop_first(), b.drop_first())
    }
}

/// Segment-wise lexicographic order on concept ids (the order of `ConceptId`).
pub open spec fn ids_lt(a: Seq<Seq<char>>, b: Seq<Seq<char>>) -> bool
    decreases a.len(),
{
    if b.len() == 0 {
        false
    } else if a.len() == 0 {
        true
    } else if a[0] != b[0] {
        chars_lt(a[0], b[0])
    } else {
        ids_lt(a.drop_first(), b.drop_first())
    }
}

/// Whether hit `a` ranks before hit `b`: a higher score, or an equal score
/// and a smaller id.
pub open spec fn hit_before(a: HitView, b: HitView) -> bool {
    a.2 > b.2 || (a.2 == b.2 && ids_lt(a.0, b.0))
}

pub proof fn lemma_chars_lt_irrefl(a: Seq<char>)
    ensures
        !chars_lt(a, a),
    decreases a.len(),
{
    if a.len() > 0 {
        lemma_chars_lt_irrefl(a.drop_first());
    }
}

/// Two different texts are ordered one way or the other.
pub proof fn lemma_chars_lt_total(a: Seq<char>, b: Seq<char>)
    requires
        a != b,
    ensures
        chars_lt(a, b) || chars_lt(b, a),
    decreases a.len(),
{
    if a.len() > 0 && b.len() > 0 && a[0] == b[0] {
        assert(a.drop_first() != b.drop_first()) by {
            if a.drop_first() == b.drop_first() {
                assert(a.drop_first().len() == b.drop_first().len());
                assert(a =~= b) by {
                    assert forall|k: int| 0 <= k < a.len() implies a[k] == b[k] by {
                        if k > 0 {
                            assert(a[k] == a.drop_first()[k - 1]);
                            assert(b[k] == b.drop_first()[k - 1]);
                        }
                    }
                }
            }
        }
        lemma_chars_lt_total(a.drop_first(), b.drop_first());
    } else if a.len() == 0 && b.len() == 0 {
        assert(a =~= b);
    }
}

pub proof fn lemma_chars_lt_trans(a: Seq<char>, b: Seq<char>, c: Seq<char>)
    requires
        chars_lt(a, b),
        chars_lt(b, c),
    ensures
        chars_lt(a, c),
    decreases a.len(),
{
    if a.len() > 0 && b.len() > 0 && c.len() > 0 {
        if a[0] == b[0] && b[0] == c[0] {
            lemma_chars_lt_trans(a.drop_first(), b.drop_first(), c.drop_first());
        }
    }
}

proof fn lemma_ids_lt_irrefl(a: Seq<Seq<char>>)
    ensures
        !ids_lt(a, a),
    decreases a.len(),
{
    if a.len() > 0 {
        lemma_ids_lt_irrefl(a.drop_first());
    }
}

proof fn lemma_ids_lt_trans(a: Seq<Seq<char>>, b: Seq<Seq<char>>, c: Seq<Seq<char>>)
    requires
        ids_lt(a, b),
        ids_lt(b, c),
    ensures
        ids_lt(a, c),
    decreases a.len(),
{
    if a.len() > 0 && b.len() > 0 && c.len() > 0 {
        if a[0] == b[0] && b[0] == c[0] {
            lemma_ids_lt_trans(a.drop_first(), b.drop_first(), c.drop_first());
        } else if a[0] != b[0] && b[0] != c[0] {
            lemma_chars_lt_trans(a[0], b[0], c[0]);
            if a[0] == c[0] {
                lemma_chars_lt_irrefl(a[0]);
            }
        }
    }
}

proof fn lemma_hit_before_trans(a: HitView, b: HitView, c: HitView)
    requires
        hit_before(a, b),
        hit_before(b, c),
    ensures
        hit_before(a, c),
{
    if a.2 == b.2 && b.2 == c.2 {
        lemma_ids_lt_trans(a.0, b.0, c.0);
    }
}

pub fn chars_less(a: &[char], b: &[char]) -> (r: bool)
    ensures
        r == chars_lt(a@, b@),
{
    let mut i: usize = 0;
    proof {
        assert(a@.subrange(0, a@.len() as int) =~= a@);
        assert(b@.subrange(0, b@.len() as int) =~= b@);
    }
    while i < a.len() && i < b.len() && a[i] == b[i]
        invariant
            i <= a.len(),
            i <= b.len(),
            chars_lt(a@.subrange(i as int, a@.len() as int), b@.subrange(i as int, b@.len() as int)) == chars_lt(a@, b@),
        decreases a.len() - i,
    {
        proof {
            let x = a@.subrange(i as int, a@.len() as int);
            let y = b@.subrange(i as int, b@.len() as int);
            assert(x.drop_first() =~= a@.subrange(i + 1, a@.len() as int));
            assert(y.drop_first() =~= b@.subrange(i + 1, b@.len() as int));
        }
        i += 1;
    }
    proof {
        let x = a@.subrange(i as int, a@.len() as int);
        let y = b@.subrange(i as int, b@.len() as int);
        if i < a.len() && i < b.len() {
            assert(x[0] == a@[i as int] && y[0] == b@[i as int]);
        }
    }
    if i == b.len() {
        false
    } else if i == a.len() {
        true
    } else {
        a[i] < b[i]
    }
}

fn id_less(a: &ConceptId, b: &ConceptId) -> (r: bool)
    ensures
        r == ids_lt(a@, b@),
{
    let x = a.segments();
    let y = b.segments();
    let mut i: usize = 0;
    proof {
        assert(a@.subrange(0, a@.len() as int) =~= a@);
        assert(b@.subrange(0, b@.len() as int) =~= b@);
    }
    loop
        invariant
            i <= x.len(),
            i <= y.len(),
            crate::concept_id::texts(x@) == a@,
            crate::concept_id::texts(y@) == b@,
            ids_lt(a@.subrange(i as int, a@.len() as int), b@.subrange(i as int, b@.len() as int)) == ids_lt(a@, b@),
        decreases x.len() - i,
    {
        let ghost p = a@.subrange(i as int, a@.len() as int);
        let ghost q = b@.subrange(i as int, b@.len() as int);
        if i == y.len() {
            return false;
        }
        if i == x.len() {
            return true;
        }
        let u = chars_of(x[i].as_str());
        let v = chars_of(y[i].as_str());
        proof {
            assert(p[0] == a@[i as int] && a@[i as int] == x@[i as int]@);
            assert(q[0] == b@[i as int] && b@[i as int] == y@[i as int]@);
        }
        if !crate::text::str_eq(x[i].as_str(), y[i].as_str()) {
            return chars_less(&u, &v);
        }
        proof {
            assert(p.drop_first() =~= a@.subrange(i + 1, a@.len() as int));
            assert(q.drop_first() =~= b@.subrange(i + 1, b@.len() as int));
        }
        i += 1;
    }
}

fn ranks_before(a: &SearchHit, b: &SearchHit) -> (r: bool)
    ensures
        r == hit_before(a@, b@),
{
    a.score > b.score || (a.score == b.score && id_less(&a.id, &b.id))
}

/// Where a stable insertion puts `x` into `s`: after every element it does
/// not rank before.
pub open spec fn insert_pos(s: Seq<HitView>, x: HitView, k: int) -> int
    decreases s.len() - k,
{
    if k >= s.len() {
        s.len() as int
    } else if hit_before(x, s[k]) {
        k
    } else {
        insert_pos(s, x, k + 1)
    }
}

/// Hits ranked best first, equal keys in their original order (a stable
/// sort by descending score, then ascending id).
pub open spec fn ranked(xs: Seq<HitView>) -> Seq<HitView>
    decreases xs.len(),
{
    if xs.len() == 0 {
        seq![]
    } else {
        let s = ranked(xs.drop_last());
        s.insert(insert_pos(s, xs.last(), 0), xs.last())
    }
}

/// No element ranks before an earlier one.
pub open spec fn is_ranked(s: Seq<HitView>) -> bool {
    forall|i: int, j: int| 0 <= i < j < s.len() ==> !hit_before(#[trigger] s[j], #[trigger] s[i])
}

proof fn lemma_insert_pos(s: Seq<HitView>, x: HitView, k: int)
    requires
        0 <= k <= s.len(),
    ensures
        k <= insert_pos(s, x, k) <= s.len(),
        forall|i: int| k <= i < insert_pos(s, x, k) ==> !hit_before(x, #[trigger] s[i]),
        insert_pos(s, x, k) < s.len() ==> hit_before(x, s[insert_pos(s, x, k)]),
    decreases s.len() - k,
{
    if k < s.len() && !hit_before(x, s[k]) {
        lemma_insert_pos(s, x, k + 1);
    }
}

proof fn lemma_insert_keeps_ranked(s: Seq<HitView>, x: HitView)
    requires
        is_ranked(s),
    ensures
        is_ranked(s.insert(insert_pos(s, x, 0), x)),
{
    lemma_insert_pos(s, x, 0);
    let p = insert_pos(s, x, 0);
    let t = s.insert(p, x);
    assert forall|i: int, j: int| 0 <= i < j < t.len() implies !hit_before(#[trigger] t[j], #[trigger] t[i]) by {
        if j < p {
            assert(t[i] == s[i] && t[j] == s[j]);
        } else if j == p {
            assert(t[i] == s[i] && t[j] == x);
        } else if i == p {
            assert(t[i] == x && t[j] == s[j - 1]);
            if hit_before(s[j - 1], x) {
                lemma_hit_before_trans(s[j - 1], x, s[p]);
                if j - 1 > p {
                    assert(!hit_before(s[j - 1], s[p]));
                } else {
                    lemma_ids_lt_irrefl(s[p].0);
                }
            }
        } else if i < p {
            assert(t[i] == s[i] && t[j] == s[j - 1]);
        } else {
            assert(t[i] == s[i - 1] && t[j] == s[j - 1]);
        }
    }
}

/// Ranking orders hits best first and only rearranges them.
pub proof fn lemma_ranked_is_sorted_permutation(xs: Seq<HitView>)
    ensures
        is_ranked(ranked(xs)),
        ranked(xs).to_multiset() == xs.to_multiset(),
        ranked(xs).len() == xs.len(),
    decreases xs.len(),
{
    broadcast use vstd::seq_lib::to_multiset_insert, vstd::seq_lib::to_multiset_build;

    if xs.len() > 0 {
        lemma_ranked_is_sorted_permutation(xs.drop_last());
        let s = ranked(xs.drop_last());
        lemma_insert_keeps_ranked(s, xs.last());
        lemma_insert_pos(s, xs.last(), 0);
        assert(xs.drop_last().push(xs.last()) =~= xs);
        vstd::seq_lib::to_multiset_insert(s, insert_pos(s, xs.last(), 0), xs.last());
        vstd::seq_lib::to_multiset_build(xs.drop_last(), xs.last());
    } else {
        assert(xs =~= Seq::<HitView>::empty());
        assert(ranked(xs) =~= Seq::<HitView>::empty());
    }
}

/// Sorts hits into rank order (see [`ranked`]) and keeps the first `limit`.
fn rank_hits(hits: Vec<SearchHit>, limit: usize) -> (r: Vec<SearchHit>)
    ensures
        hit_views(r@) == ranked(hit_views(hits@)).take(if limit < hits@.len() { limit as int } else { hits@.len() as int }),
        forall|k: int| 0 <= k < r@.len() ==> exists|j: int| 0 <= j < hits@.len() && #[trigger] r@[k] == hits@[j],
{
    let ghost orig = hits@;
    let n = hits.len();
    let mut rest = hits;
    let mut out: Vec<SearchHit> = Vec::new();
    let mut taken: usize = 0;
    while rest.len() > 0
        invariant
            orig.len() == n,
            taken + rest@.len() == orig.len(),
            rest@ == orig.skip(taken as int),
            hit_views(out@) == ranked(hit_views(orig).take(taken as int)),
            out@.len() == taken,
            forall|k: int| 0 <= k < out@.len() ==> exists|j: int| 0 <= j < orig.len() && #[trigger] out@[k] == orig[j],
        decreases rest@.len(),
    {
        let h = rest.remove(0);
        proof {
            assert(h == orig[taken as int]);
            assert(rest@ =~= orig.skip(taken + 1));
            lemma_ranked_is_sorted_permutation(hit_views(orig).take(taken as int));
        }
        let ghost s = hit_views(out@);
        let mut p: usize = 0;
        while p < out.len() && !ranks_before(&h, &out[p])
            invariant
                p <= out.len(),
                s == hit_views(out@),
                insert_pos(s, h@, p as int) == insert_pos(s, h@, 0),
            decreases out.len() - p,
        {
            p += 1;
        }
        let ghost old_out = out@;
        out.insert(p, h);
        proof {
            let xs = hit_views(orig).take(taken + 1);
            assert(xs.drop_last() =~= hit_views(orig).take(taken as int));
            assert(xs.last() == h@);
            assert(hit_views(out@) =~= s.insert(p as int, h@));
            assert forall|k: int| 0 <= k < out@.len() implies exists|j: int| 0 <= j < orig.len() && #[trigger] out@[k] == orig[j] by {
                if k < p {
                    assert(out@[k] == old_out[k]);
                } else if k == p {
                    assert(out@[k] == orig[taken as int]);
                } else {
                    assert(out@[k] == old_out[k - 1]);
                }
            }
        }
        taken += 1;
    }
    proof {
        assert(hit_views(orig).take(taken as int) =~= hit_views(orig));
        lemma_ranked_is_sorted_permutation(hit_views(orig));
    }
    let ghost full = out@;
    out.truncate(limit);
    proof {
        assert(hit_views(out@) =~= hit_views(full).take(if limit < orig.len() { limit as int } else { orig.len() as int }));
        assert forall|k: int| 0 <= k < out@.len() implies exists|j: int| 0 <= j < orig.len() && #[trigger] out@[k] == orig[j] by {
            assert(out@[k] == full[k]);
        }
    }
    out
}


/// The score [`fuzzy_match`] gives `q` against `h`, or `None` when it gives
/// no match (see [`fuzzy_spec`]).
pub open spec fn match_score(q: Seq<char>, h: Seq<char>) -> Option<int> {
    match fuzzy_spec(q, h) {
        Some((s, _)) => Some(s),
        None => None,
    }
}

/// Whether `a` is the alignment [`fuzzy_match`] reports for `q` in `h`.
pub open spec fn reported_alignment(q: Seq<char>, h: Seq<char>, a: Seq<int>) -> bool {
    fuzzy_spec(q, h) matches Some((_, b)) && b == a
}

/// Fuzzy-matches `q` against `h`, with the score named by [`match_score`] and
/// the indices the alignment that score belongs to.
fn scored(q: &str, h: &str) -> (r: Option<(i32, Vec<usize>)>)
    ensures
        match r {
            Some((s, v)) => match_score(q@, h@) == Some(s as int) && reported_alignment(q@, h@, idx_view(v@)),
            None => match_score(q@, h@) is None,
        },
{
    fuzzy_match(q, h)
}

/// The texts a concept-level hit is scored against: id, title, description,
/// then each tag.
pub open spec fn concept_hays(e: SearchEntry) -> Seq<Seq<char>> {
    seq![join_with(e.id@, "/"@), e.title@, e.description@] + crate::concept_id::texts(e.tags@)
}

/// The best score among the first `n` texts and the first text reaching it.
pub open spec fn best_of(q: Seq<char>, hays: Seq<Seq<char>>, n: int) -> Option<(int, Seq<char>)>
    decreases n,
{
    if n <= 0 {
        None
    } else {
        let b = best_of(q, hays, n - 1);
        match match_score(q, hays[n - 1]) {
            Some(s) => if (match b {
                Some((bs, _)) => s > bs,
                None => true,
            }) {
                Some((s, hays[n - 1]))
            } else {
                b
            },
            None => b,
        }
    }
}

/// Heading-level rows for the first `n` headings, each scored one below its
/// match so the concept row leads.
pub open spec fn heading_rows(id: Seq<Seq<char>>, q: Seq<char>, hs: Seq<Seq<char>>, n: int) -> Seq<HitView>
    decreases n,
{
    if n <= 0 {
        seq![]
    } else {
        let p = heading_rows(id, q, hs, n - 1);
        match match_score(q, hs[n - 1]) {
            Some(s) => p.push((id, Some(hs[n - 1]), clamp_i32(s - 1), hs[n - 1])),
            None => p,
        }
    }
}

/// The rows one entry contributes for free text `q`: with no text a single
/// row labelled by the id; otherwise its best concept-level match, if any,
/// then its heading matches.
pub open spec fn entry_rows(e: SearchEntry, q: Seq<char>) -> Seq<HitView> {
    if q.len() == 0 {
        seq![(e.id@, None, 0, join_with(e.id@, "/"@))]
    } else {
        let best = best_of(q, concept_hays(e), concept_hays(e).len() as int);
        let concept: Seq<HitView> = match best {
            Some((s, h)) => seq![(e.id@, None, s, h)],
            None => seq![],
        };
        concept + heading_rows(e.id@, q, crate::concept_id::texts(e.headings@), e.headings@.len() as int)
    }
}

/// The rows of the first `n` entries that pass the filters, in index order.
pub open spec fn index_rows(es: Seq<SearchEntry>, fs: Seq<FilterView>, q: Seq<char>, n: int) -> Seq<HitView>
    decreases n,
{
    if n <= 0 {
        seq![]
    } else {
        index_rows(es, fs, q, n - 1) + if passes_all(fs, es[n - 1]) {
            entry_rows(es[n - 1], q)
        } else {
            seq![]
        }
    }
}

/// The hits a raw query yields over the entries, before ranking.
pub open spec fn query_rows(es: Seq<SearchEntry>, raw: Seq<char>) -> Seq<HitView> {
    index_rows(es, query_filters(raw), query_text(raw), es.len() as int)
}

/// Whether a hit's indices are the alignment its match reports: the query
/// text aligned in the hit's label, scored as the match was.
pub open spec fn hit_aligned(q: Seq<char>, h: SearchHit) -> bool {
    reported_alignment(q, h.label@, idx_view(h.indices@))
}

fn entry_hits(e: &SearchEntry, q: &String, out: &mut Vec<SearchHit>)
    ensures
        hit_views(final(out)@) == hit_views(old(out)@) + entry_rows(*e, q@),
        forall|k: int| 0 <= k < old(out)@.len() ==> #[trigger] final(out)@[k] == old(out)@[k],
        forall|k: int| old(out)@.len() <= k < final(out)@.len() ==> hit_aligned(q@, #[trigger] final(out)@[k]),
{
    let ghost start = out@;
    if chars_of(q.as_str()).len() == 0 {
        let label = e.id.to_string();
        let h = SearchHit { id: e.id.clone(), heading: None, score: 0, indices: Vec::new(), label };
        out.push(h);
        proof {
            assert(q@.len() == 0);
            assert(hit_views(out@) =~= hit_views(start) + entry_rows(*e, q@));
            assert(crate::fuzzy::non_ws(q@) =~= Seq::<char>::empty());
            assert(idx_view(h.indices@) =~= Seq::<int>::empty());
            assert(hit_aligned(q@, h));
            assert(out@[start.len() as int] == h);
        }
        return;
    }
    proof {
        assert(q@.len() > 0);
    }
    let id_text = e.id.to_string();
    let mut hays: Vec<String> = Vec::new();
    hays.push(id_text);
    hays.push(e.title.clone());
    hays.push(e.description.clone());
    let mut t: usize = 0;
    while t < e.tags.len()
        invariant
            t <= e.tags.len(),
            crate::concept_id::texts(hays@) == concept_hays(*e).take(3 + t),
        decreases e.tags.len() - t,
    {
        let ghost before = crate::concept_id::texts(hays@);
        hays.push(e.tags[t].clone());
        proof {
            assert(crate::concept_id::texts(hays@) =~= before.push(e.tags@[t as int]@));
            assert(concept_hays(*e).take(3 + t + 1) =~= concept_hays(*e).take(3 + t).push(e.tags@[t as int]@));
        }
        t += 1;
    }
    proof {
        assert(concept_hays(*e).take(3 + t) =~= concept_hays(*e));
    }
    let ghost hv = crate::concept_id::texts(hays@);
    let mut best: Option<SearchHit> = None;
    let mut k: usize = 0;
    while k < hays.len()
        invariant
            k <= hays.len(),
            hv == crate::concept_id::texts(hays@),
            hv == concept_hays(*e),
            q@.len() > 0,
            match best_of(q@, hv, k as int) {
                Some((s, h)) => best matches Some(b) && b@ == (e.id@, None::<Seq<char>>, s, h) && hit_aligned(q@, b),
                None => best is None,
            },
        decreases hays.len() - k,
    {
        proof {
            assert(hv[k as int] == hays@[k as int]@);
        }
        let ghost before = best;
        match scored(q.as_str(), hays[k].as_str()) {
            Some((s, idx)) => {
                let better = match &best {
                    None => true,
                    Some(b) => s > b.score,
                };
                if better {
                    let nb = SearchHit { id: e.id.clone(), heading: None, score: s, indices: idx, label: hays[k].clone() };
                    proof {
                        assert(nb@ == (e.id@, None::<Seq<char>>, s as int, hv[k as int]));
                        assert(hit_aligned(q@, nb));
                    }
                    best = Some(nb);
                }
            },
            None => {},
        }
        proof {
            assert(best_of(q@, hv, k + 1) == (match match_score(q@, hv[k as int]) {
                Some(s) => if (match best_of(q@, hv, k as int) {
                    Some((bs, _)) => s > bs,
                    None => true,
                }) {
                    Some((s, hv[k as int]))
                } else {
                    best_of(q@, hv, k as int)
                },
                None => best_of(q@, hv, k as int),
            }));
        }
        k += 1;
    }
    match best {
        Some(b) => {
            out.push(b);
        },
        None => {},
    }
    let ghost mid = out@;
    proof {
        let concept: Seq<HitView> = match best_of(q@, hv, hv.len() as int) {
            Some((s, h)) => seq![(e.id@, None, s, h)],
            None => seq![],
        };
        assert(hit_views(mid) =~= hit_views(start) + concept);
    }
    let hs = &e.headings;
    let mut j: usize = 0;
    while j < hs.len()
        invariant
            j <= hs.len(),
            mid.len() <= out@.len(),
            forall|k: int| 0 <= k < mid.len() ==> #[trigger] out@[k] == mid[k],
            hit_views(out@) == hit_views(mid) + heading_rows(e.id@, q@, crate::concept_id::texts(hs@), j as int),
            forall|k: int| start.len() <= k < out@.len() ==> hit_aligned(q@, #[trigger] out@[k]),
            forall|k: int| 0 <= k < start.len() ==> #[trigger] out@[k] == start[k],
            start.len() <= mid.len(),
            q@.len() > 0,
        decreases hs.len() - j,
    {
        proof {
            assert(crate::concept_id::texts(hs@)[j as int] == hs@[j as int]@);
        }
        match scored(q.as_str(), hs[j].as_str()) {
            Some((s, idx)) => {
                let h = SearchHit { id: e.id.clone(), heading: Some(hs[j].clone()), score: if s > i32::MIN { s - 1 } else { s }, indices: idx, label: hs[j].clone() };
                let ghost before = out@;
                proof {
                    assert(hit_aligned(q@, h));
                }
                out.push(h);
                proof {
                    assert(hit_views(out@) =~= hit_views(before).push(h@));
                    assert(out@[before.len() as int] == h);
                }
            },
            None => {},
        }
        j += 1;
    }
}

impl SearchIndex {
    /// Runs a query over the index, returning at most `limit` hits, best
    /// first (by score, then id, then index order). An empty free-text query
    /// returns every entry passing the filters, with score 0, in index order.
    pub fn search(&self, raw_query: &str, limit: usize) -> (r: Vec<SearchHit>)
        ensures
            hit_views(r@) == (if query_text(raw_query@).len() == 0 {
                query_rows(self.entries@, raw_query@)
            } else {
                ranked(query_rows(self.entries@, raw_query@))
            }).take(
                if limit < query_rows(self.entries@, raw_query@).len() {
                    limit as int
                } else {
                    query_rows(self.entries@, raw_query@).len() as int
                },
            ),
            forall|k: int| 0 <= k < r@.len() ==> hit_aligned(query_text(raw_query@), #[trigger] r@[k]),
    {
        let query = Query::parse(raw_query);
        let mut hits: Vec<SearchHit> = Vec::new();
        let mut i: usize = 0;
        while i < self.entries.len()
            invariant
                i <= self.entries.len(),
                query.text@ == query_text(raw_query@),
                filter_views(query.filters@) == query_filters(raw_query@),
                hit_views(hits@) == index_rows(self.entries@, query_filters(raw_query@), query.text@, i as int),
                forall|k: int| 0 <= k < hits@.len() ==> hit_aligned(query.text@, #[trigger] hits@[k]),
            decreases self.entries.len() - i,
        {
            let e = &self.entries[i];
            if query.matches_filters(e) {
                entry_hits(e, &query.text, &mut hits);
            }
            i += 1;
        }
        let ghost all = hits@;
        if chars_of(query.text.as_str()).len() == 0 {
            let mut r = hits;
            r.truncate(limit);
            proof {
                assert(hit_views(r@) =~= hit_views(all).take(
                    if limit < all.len() { limit as int } else { all.len() as int },
                ));
                assert forall|k: int| 0 <= k < r@.len() implies hit_aligned(query_text(raw_query@), #[trigger] r@[k]) by {
                    assert(r@[k] == all[k]);
                }
            }
            return r;
        }
        proof {
            lemma_ranked_is_sorted_permutation(hit_views(all));
        }
        let r = rank_hits(hits, limit);
        proof {
            assert forall|k: int| 0 <= k < r@.len() implies hit_aligned(query_text(raw_query@), #[trigger] r@[k]) by {
                let j = choose|j: int| 0 <= j < all.len() && r@[k] == all[j];
                assert(hit_aligned(query.text@, all[j]));
            }
        }
        r
    }
}

/// A `#tag` filter passes an entry that carries the tag, ignoring ASCII
/// case, wherever the tag stands among the entry's tags.
pub proof fn lemma_tag_filter_finds_any_tag(e: SearchEntry, tag: Seq<char>, k: int)
    requires
        0 <= k < e.tags@.len(),
        eq_ignore_case(e.tags@[k]@, tag),
    ensures
        passes(FilterView::Tag(tag), e),
{
    assert(eq_ignore_case(e.tags@[k]@, tag));
}

/// A `#tag` filter passes only entries that carry the tag.
pub proof fn lemma_tag_filter_needs_tag(e: SearchEntry, tag: Seq<char>)
    requires
        passes(FilterView::Tag(tag), e),
    ensures
        exists|k: int| 0 <= k < e.tags@.len() && eq_ignore_case(#[trigger] e.tags@[k]@, tag),
{
}

/// Whether an entry passes a `#tag` filter depends only on which tags it
/// carries, not on their order.
pub proof fn lemma_tag_filter_order_free(e: SearchEntry, f: SearchEntry, tag: Seq<char>)
    requires
        forall|i: int| 0 <= i < e.tags@.len() ==> exists|j: int| 0 <= j < f.tags@.len() && #[trigger] e.tags@[i]@ == #[trigger] f.tags@[j]@,
        forall|j: int| 0 <= j < f.tags@.len() ==> exists|i: int| 0 <= i < e.tags@.len() && #[trigger] e.tags@[i]@ == #[trigger] f.tags@[j]@,
    ensures
        passes(FilterView::Tag(tag), e) == passes(FilterView::Tag(tag), f),
{
    if passes(FilterView::Tag(tag), e) {
        let k = choose|k: int| 0 <= k < e.tags@.len() && eq_ignore_case(#[trigger] e.tags@[k]@, tag);
        let j = choose|j: int| 0 <= j < f.tags@.len() && e.tags@[k]@ == f.tags@[j]@;
        lemma_tag_filter_finds_any_tag(f, tag, j);
    }
    if passes(FilterView::Tag(tag), f) {
        let k = choose|k: int| 0 <= k < f.tags@.len() && eq_ignore_case(#[trigger] f.tags@[k]@, tag);
        let i = choose|i: int| 0 <= i < e.tags@.len() && e.tags@[i]@ == f.tags@[k]@;
        lemma_tag_filter_finds_any_tag(e, tag, i);
    }
}

} // verus!
