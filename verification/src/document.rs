//! A concept document: YAML frontmatter between `---` lines, then a markdown
//! body.
//!
//! A document whose first line is `---` (trailing whitespace and a `\r`
//! allowed) opens frontmatter, which runs to the next such line; the body is
//! everything after that closing line. A document without the opening line
//! has empty frontmatter and is all body.
use vstd::prelude::*;
use crate::date::{Date, DateTime};
use crate::text::{chars_of, next_nl, strip_cr, string_of, trim_end};
use crate::trust::{
    by_at_match, events_of, is_stale_at, status_matches, tier_of, DateTimeField, Status,
    TrustTier, Verification,
};
use crate::yaml::{display_of, lookup, vview, Mapping, Value, ValueView, YamlError};

verus! {

broadcast use vstd::string::group_string_axioms;

/// Why a document could not be read.
#[derive(Debug, PartialEq, Eq)]
pub enum DocumentError {
    /// A `---` opening line without a closing one.
    UnterminatedFrontmatter,
    /// The frontmatter is not valid YAML.
    InvalidFrontmatter(YamlError),
    /// The frontmatter is YAML but not a mapping.
    NotAMapping,
}

/// Whether `s[a..b]` is a `---` line.
pub open spec fn fence_line(s: Seq<char>, a: int, b: int) -> bool {
    trim_end(strip_cr(s.subrange(a, b))) == "---"@
}

/// The start of the first `---` line at or after `i`.
pub open spec fn closing_from(s: Seq<char>, i: int) -> Option<int>
    decreases s.len() - i,
{
    if i < 0 || i >= s.len() {
        None
    } else {
        let e = next_nl(s, i);
        if fence_line(s, i, e) {
            Some(i)
        } else if e >= s.len() {
            None
        } else {
            proof {
                crate::text::lemma_next_nl_bounds(s, i);
            }
            closing_from(s, e + 1)
        }
    }
}

/// Where a document's parts lie: `None` without frontmatter; `Some(None)`
/// when the frontmatter is not closed; otherwise the start and end of the
/// YAML text and the start of the body.
pub open spec fn doc_layout(s: Seq<char>) -> Option<Option<(int, int, int)>> {
    let e0 = next_nl(s, 0);
    if !fence_line(s, 0, e0) {
        None
    } else if e0 >= s.len() {
        Some(None)
    } else {
        match closing_from(s, e0 + 1) {
            None => Some(None),
            Some(c) => {
                let ce = next_nl(s, c);
                Some(Some((e0 + 1, c, if ce >= s.len() { s.len() as int } else { ce + 1 })))
            },
        }
    }
}

/// What reading a document gives: the frontmatter entries and the body, or
/// the error.
pub open spec fn doc_spec(s: Seq<char>) -> Result<(Seq<(ValueView, ValueView)>, Seq<char>), DocumentErrorView> {
    match doc_layout(s) {
        None => Ok((seq![], s)),
        Some(None) => Err(DocumentErrorView::Unterminated),
        Some(Some((ys, ye, bs))) => match crate::yaml_block::parse_spec(s.subrange(ys, ye)) {
            Err((l, m)) => Err(DocumentErrorView::Yaml(l, m)),
            Ok(ValueView::Null) => Ok((seq![], s.subrange(bs, s.len() as int))),
            Ok(ValueView::Pairs(es)) => Ok((es, s.subrange(bs, s.len() as int))),
            Ok(_) => Err(DocumentErrorView::NotAMapping),
        },
    }
}

/// A document error with its texts as sequences.
pub enum DocumentErrorView {
    Unterminated,
    Yaml(int, Seq<char>),
    NotAMapping,
}

impl DocumentError {
    /// The error with its texts as sequences.
    pub open spec fn view(&self) -> DocumentErrorView {
        match self {
            DocumentError::UnterminatedFrontmatter => DocumentErrorView::Unterminated,
            DocumentError::InvalidFrontmatter(e) => DocumentErrorView::Yaml(e.line as int, e.message@),
            DocumentError::NotAMapping => DocumentErrorView::NotAMapping,
        }
    }
}

/// A concept's frontmatter: an ordered mapping with typed accessors for the
/// well-known OKF fields.
#[derive(Debug)]
pub struct Frontmatter {
    map: Mapping,
}

/// A parsed concept document.
#[derive(Debug)]
pub struct Document {
    /// The frontmatter.
    pub frontmatter: Frontmatter,
    /// The markdown body.
    pub body: String,
}

pub(crate) fn next_nl_exec(s: &[char], i: usize) -> (r: usize)
    requires
        i <= s.len(),
    ensures
        r == next_nl(s@, i as int),
        i <= r <= s.len(),
{
    let mut k = i;
    while k < s.len() && s[k] != '\n'
        invariant
            i <= k <= s.len(),
            next_nl(s@, k as int) == next_nl(s@, i as int),
        decreases s.len() - k,
    {
        k += 1;
    }
    k
}

fn fence_line_exec(s: &[char], a: usize, b: usize) -> (r: bool)
    requires
        a <= b <= s.len(),
    ensures
        r == fence_line(s@, a as int, b as int),
{
    let mut e = b;
    if e > a && s[e - 1] == '\r' {
        e -= 1;
    }
    proof {
        let l = s@.subrange(a as int, b as int);
        assert(strip_cr(l) =~= s@.subrange(a as int, e as int));
    }
    let t = crate::text::skip_ws_back_exec(s, a, e);
    proof {
        crate::text::lemma_skip_ws_back_shift(s@, a as int, e as int, e as int);
        let l = s@.subrange(a as int, e as int);
        assert(l.subrange(0, t - a) =~= s@.subrange(a as int, t as int));
        reveal_strlit("---");
    }
    let r = t - a == 3 && s[a] == '-' && s[a + 1] == '-' && s[a + 2] == '-';
    proof {
        let x = s@.subrange(a as int, t as int);
        if t - a == 3 {
            assert(x[0] == s@[a as int] && x[1] == s@[a + 1] && x[2] == s@[a + 2]);
            if r {
                assert(x =~= "---"@);
            }
        }
    }
    r
}

impl Frontmatter {
    /// The entries as views.
    pub closed spec fn view(&self) -> Seq<(ValueView, ValueView)> {
        self.map@
    }

    /// Empty frontmatter.
    pub fn new() -> (r: Frontmatter)
        ensures
            r@.len() == 0,
    {
        Frontmatter { map: Mapping::new() }
    }

    /// Wraps a mapping.
    pub fn from_mapping(map: Mapping) -> (r: Frontmatter)
        ensures
            r@ == map@,
    {
        Frontmatter { map }
    }

    /// The underlying mapping.
    pub fn as_mapping(&self) -> (r: &Mapping)
        ensures
            r@ == self@,
    {
        &self.map
    }

    /// `true` when there are no keys.
    pub fn is_empty(&self) -> (r: bool)
        ensures
            r == (self@.len() == 0),
    {
        self.map.is_empty()
    }

    /// The raw value of a key.
    pub fn get(&self, key: &str) -> (r: Option<&Value>)
        ensures
            match r {
                Some(v) => lookup(self@, key@) == Some(vview(*v)),
                None => lookup(self@, key@) is None,
            },
    {
        self.map.get(key)
    }

    /// The display text of a scalar key (a string as is; a boolean, an
    /// integer or a float as text); `None` for an absent key or a collection.
    pub fn display_str(&self, key: &str) -> (r: Option<String>)
        ensures
            match r {
                Some(t) => field_text(self@, key@) == Some(t@),
                None => field_text(self@, key@) is None,
            },
    {
        match self.map.get(key) {
            Some(v) => v.as_display_string(),
            None => None,
        }
    }

    /// The required `type`.
    pub fn type_(&self) -> (r: Option<String>)
        ensures
            opt_text(r) == field_text(self@, "type"@),
    {
        self.display_str("type")
    }

    /// The optional `title`.
    pub fn title(&self) -> (r: Option<String>)
        ensures
            opt_text(r) == field_text(self@, "title"@),
    {
        self.display_str("title")
    }

    /// The optional one-line `description`.
    pub fn description(&self) -> (r: Option<String>)
        ensures
            opt_text(r) == field_text(self@, "description"@),
    {
        self.display_str("description")
    }

    /// The optional `resource` URI.
    pub fn resource(&self) -> (r: Option<String>)
        ensures
            opt_text(r) == field_text(self@, "resource"@),
    {
        self.display_str("resource")
    }

    /// The `runtime` of an Attested Computation.
    pub fn runtime(&self) -> (r: Option<String>)
        ensures
            opt_text(r) == field_text(self@, "runtime"@),
    {
        self.display_str("runtime")
    }

    /// The `computation` path of an Attested Computation.
    pub fn computation(&self) -> (r: Option<String>)
        ensures
            opt_text(r) == field_text(self@, "computation"@),
    {
        self.display_str("computation")
    }

    /// The `tags`: each scalar element's display text; empty when `tags` is
    /// absent or not a sequence.
    pub fn tags(&self) -> (r: Vec<String>)
        ensures
            crate::concept_id::texts(r@) == tags_of(self@),
    {
        let mut out: Vec<String> = Vec::new();
        match self.map.get("tags") {
            Some(Value::Sequence(items)) => {
                let ghost iv = crate::yaml::vviews(items@, items@.len() as int);
                proof {
                    crate::yaml::lemma_vviews_len(items@, items@.len() as int);
                }
                let mut i: usize = 0;
                while i < items.len()
                    invariant
                        i <= items.len(),
                        iv == crate::yaml::vviews(items@, items@.len() as int),
                        iv.len() == items@.len(),
                        crate::concept_id::texts(out@) == displays_upto(iv, i as int),
                    decreases items.len() - i,
                {
                    proof {
                        crate::yaml::lemma_vviews_at(items@, i as int);
                    }
                    match items[i].as_display_string() {
                        Some(t) => {
                            let ghost before = crate::concept_id::texts(out@);
                            out.push(t);
                            proof {
                                assert(crate::concept_id::texts(out@) =~= before.push(t@));
                            }
                        },
                        None => {},
                    }
                    i += 1;
                }
            },
            _ => {},
        }
        out
    }

    /// The lifecycle `status`; absent is stable.
    pub fn status(&self) -> (r: Status)
        ensures
            status_matches(r, field_text(self@, "status"@)),
    {
        match self.display_str("status") {
            Some(t) => Status::parse(Some(t.as_str())),
            None => Status::parse(None),
        }
    }

    /// The `stale_after` timestamp, kept as written beside its parse.
    pub fn stale_after(&self) -> (r: Option<DateTimeField>)
        ensures
            match r {
                Some(f) => field_text(self@, "stale_after"@) == Some(f.raw@) && f.datetime == crate::date::parse_spec(f.raw@),
                None => field_text(self@, "stale_after"@) is None,
            },
    {
        match self.display_str("stale_after") {
            Some(t) => Some(DateTimeField::new(t)),
            None => None,
        }
    }

    /// Whether the concept is stale at `now`: `now` has reached a usable
    /// `stale_after` (one with a time of day and an explicit offset).
    pub fn is_stale_at(&self, now: DateTime) -> (r: bool)
        requires
            crate::date::well_formed(now),
        ensures
            r == stale_field(field_text(self@, "stale_after"@), now),
    {
        match self.stale_after() {
            None => false,
            Some(f) => {
                if !f.is_valid() {
                    return false;
                }
                proof {
                    crate::date::lemma_parse_well_formed(f.raw@);
                }
                is_stale_at(f.datetime, now)
            },
        }
    }

    /// Whether the concept is stale on `today`, judged at midnight UTC.
    pub fn is_stale_on(&self, today: Date) -> (r: bool)
        requires
            crate::date::well_formed(crate::date::midnight_utc(today)),
        ensures
            r == stale_field(field_text(self@, "stale_after"@), crate::date::midnight_utc(today)),
    {
        self.is_stale_at(today.to_utc_datetime())
    }

    /// `true` when `type` is `Attested Computation`.
    pub fn is_attested_computation(&self) -> (r: bool)
        ensures
            r == (field_text(self@, "type"@) == Some("Attested Computation"@)),
    {
        match self.type_() {
            Some(t) => crate::text::str_eq(t.as_str(), "Attested Computation"),
            None => false,
        }
    }

    /// The `verified` events.
    pub fn verified(&self) -> (r: Vec<Verification>)
        ensures
            r@.len() == verified_of(self@).len(),
            forall|k: int| 0 <= k < r@.len() ==> by_at_match(#[trigger] r@[k].by, r@[k].at, verified_of(self@)[k]),
    {
        match self.map.get("verified") {
            Some(v) => Verification::list_from_value(v),
            None => Vec::new(),
        }
    }

    /// The trust tier derived from `verified`.
    pub fn trust_tier(&self) -> (r: TrustTier)
        ensures
            exists|evs: Seq<Verification>| evs.len() == verified_of(self@).len()
                && (forall|k: int| 0 <= k < evs.len() ==> by_at_match(#[trigger] evs[k].by, evs[k].at, verified_of(self@)[k]))
                && r == tier_of(evs),
    {
        let evs = self.verified();
        let r = TrustTier::derive(&evs);
        proof {
            assert(evs@.len() == verified_of(self@).len());
        }
        r
    }
}

/// The optional text of an optional string.
pub open spec fn opt_text(o: Option<String>) -> Option<Seq<char>> {
    match o {
        Some(s) => Some(s@),
        None => None,
    }
}

/// The display text of a frontmatter key (see [`Frontmatter::display_str`]).
pub open spec fn field_text(fm: Seq<(ValueView, ValueView)>, key: Seq<char>) -> Option<Seq<char>> {
    match lookup(fm, key) {
        Some(v) => display_of(v),
        None => None,
    }
}

/// The display texts of the scalar items among the first `n`.
pub open spec fn displays_upto(items: Seq<ValueView>, n: int) -> Seq<Seq<char>>
    decreases n,
{
    if n <= 0 {
        seq![]
    } else {
        let p = displays_upto(items, n - 1);
        match display_of(items[n - 1]) {
            Some(t) => p.push(t),
            None => p,
        }
    }
}

/// The tags of a frontmatter.
pub open spec fn tags_of(fm: Seq<(ValueView, ValueView)>) -> Seq<Seq<char>> {
    match lookup(fm, "tags"@) {
        Some(ValueView::List(items)) => displays_upto(items, items.len() as int),
        _ => seq![],
    }
}

/// The `verified` events of a frontmatter.
pub open spec fn verified_of(fm: Seq<(ValueView, ValueView)>) -> Seq<(Option<Seq<char>>, Option<Seq<char>>)> {
    match lookup(fm, "verified"@) {
        Some(v) => events_of(v),
        None => seq![],
    }
}

/// Whether a `stale_after` text makes a concept stale at `now`.
pub open spec fn stale_field(t: Option<Seq<char>>, now: DateTime) -> bool {
    match t {
        None => false,
        Some(raw) => crate::trust::stale_rule(crate::date::parse_spec(raw), now),
    }
}

fn layout_exec(s: &[char]) -> (r: Option<Option<(usize, usize, usize)>>)
    ensures
        match r {
            None => doc_layout(s@) is None,
            Some(None) => doc_layout(s@) == Some(None::<(int, int, int)>),
            Some(Some((a, b, c))) => doc_layout(s@) == Some(Some((a as int, b as int, c as int))) && a <= b <= c <= s.len(),
        },
{
    let e0 = next_nl_exec(s, 0);
    if !fence_line_exec(s, 0, e0) {
        return None;
    }
    if e0 >= s.len() {
        return Some(None);
    }
    let mut i = e0 + 1;
    loop
        invariant
            e0 < i <= s.len(),
            e0 == next_nl(s@, 0),
            fence_line(s@, 0, e0 as int),
            closing_from(s@, i as int) == closing_from(s@, e0 + 1),
        decreases s.len() - i,
    {
        if i >= s.len() {
            return Some(None);
        }
        let e = next_nl_exec(s, i);
        if fence_line_exec(s, i, e) {
            let ce = next_nl_exec(s, i);
            let bs = if ce >= s.len() {
                s.len()
            } else {
                ce + 1
            };
            return Some(Some((e0 + 1, i, bs)));
        }
        if e >= s.len() {
            return Some(None);
        }
        i = e + 1;
    }
}

impl Document {
    /// Parses a document (see [`doc_spec`]).
    pub fn parse(text: &str) -> (r: Result<Document, DocumentError>)
        requires
            text@.len() <= usize::MAX / 8,
        ensures
            match r {
                Ok(d) => doc_spec(text@) == Ok::<(Seq<(ValueView, ValueView)>, Seq<char>), DocumentErrorView>((d.frontmatter@, d.body@)),
                Err(e) => doc_spec(text@) == Err::<(Seq<(ValueView, ValueView)>, Seq<char>), DocumentErrorView>(e@),
            },
    {
        let s = chars_of(text);
        match layout_exec(&s) {
            None => {
                let fm = Frontmatter::new();
                proof {
                    assert(fm@ =~= Seq::<(ValueView, ValueView)>::empty());
                }
                Ok(Document { frontmatter: fm, body: string_of(&s) })
            },
            Some(None) => Err(DocumentError::UnterminatedFrontmatter),
            Some(Some((ys, ye, bs))) => {
                let yaml = crate::text::string_of_range(&s, ys, ye);
                let body = crate::text::string_of_range(&s, bs, s.len());
                match Value::parse(yaml.as_str()) {
                    Err(e) => Err(DocumentError::InvalidFrontmatter(e)),
                    Ok(Value::Null) => {
                        let fm = Frontmatter::new();
                        proof {
                            assert(fm@ =~= Seq::<(ValueView, ValueView)>::empty());
                        }
                        Ok(Document { frontmatter: fm, body })
                    },
                    Ok(Value::Mapping(m)) => Ok(Document { frontmatter: Frontmatter { map: m }, body }),
                    Ok(_) => Err(DocumentError::NotAMapping),
                }
            },
        }
    }
}


/// The keys frontmatter is conventionally laid out in: identity first, then
/// lifecycle, trust and provenance.
pub open spec fn preferred_keys() -> Seq<Seq<char>> {
    seq!["type"@, "resource"@, "title"@, "description"@, "tags"@, "status"@, "generated"@,
        "verified"@, "stale_after"@, "sources"@, "usage_window"@]
}

/// The position of a key in [`preferred_keys`], or -1.
pub open spec fn preferred_rank(k: ValueView) -> int {
    match k {
        ValueView::Str(s) => {
            if exists|i: int| 0 <= i < 11 && preferred_keys()[i] == s {
                choose|i: int| 0 <= i < 11 && preferred_keys()[i] == s
            } else {
                -1
            }
        },
        _ => -1,
    }
}

/// The entries of the preferred keys among the first `n`, in that order,
/// each with the value `lookup` finds.
pub open spec fn preferred_part(fm: Seq<(ValueView, ValueView)>, n: int) -> Seq<(ValueView, ValueView)>
    decreases n,
{
    if n <= 0 {
        seq![]
    } else {
        let p = preferred_part(fm, n - 1);
        match lookup(fm, preferred_keys()[n - 1]) {
            Some(v) => p.push((ValueView::Str(preferred_keys()[n - 1]), v)),
            None => p,
        }
    }
}

/// The first `n` entries whose key is not a preferred key, in order.
pub open spec fn other_part(fm: Seq<(ValueView, ValueView)>, n: int) -> Seq<(ValueView, ValueView)>
    decreases n,
{
    if n <= 0 {
        seq![]
    } else if preferred_rank(fm[n - 1].0) < 0 {
        other_part(fm, n - 1).push(fm[n - 1])
    } else {
        other_part(fm, n - 1)
    }
}

/// The frontmatter laid out in [`preferred_keys`] order, every other entry
/// after them in its current order.
pub open spec fn reordered(fm: Seq<(ValueView, ValueView)>) -> Seq<(ValueView, ValueView)> {
    preferred_part(fm, 11) + other_part(fm, fm.len() as int)
}

/// Whether two preferred keys appear out of the preferred order.
pub open spec fn out_of_order(fm: Seq<(ValueView, ValueView)>) -> bool {
    exists|i: int, j: int| 0 <= i < j < fm.len() && #[trigger] preferred_rank(fm[j].0) >= 0
        && preferred_rank(fm[j].0) < #[trigger] preferred_rank(fm[i].0)
}

/// The preferred keys as strings.
fn preferred_key_list() -> (r: Vec<&'static str>)
    ensures
        r@.len() == 11,
        forall|i: int| 0 <= i < 11 ==> (#[trigger] r@[i])@ == preferred_keys()[i],
{
    let v = vec!["type", "resource", "title", "description", "tags", "status", "generated",
        "verified", "stale_after", "sources", "usage_window"];
    proof {
        reveal_strlit("type");
        reveal_strlit("resource");
        reveal_strlit("title");
        reveal_strlit("description");
        reveal_strlit("tags");
        reveal_strlit("status");
        reveal_strlit("generated");
        reveal_strlit("verified");
        reveal_strlit("stale_after");
        reveal_strlit("sources");
        reveal_strlit("usage_window");
    }
    v
}

proof fn lemma_preferred_distinct()
    ensures
        forall|i: int, j: int| 0 <= i < 11 && 0 <= j < 11 && i != j ==> preferred_keys()[i] != preferred_keys()[j],
{
    reveal_strlit("type");
    reveal_strlit("resource");
    reveal_strlit("title");
    reveal_strlit("description");
    reveal_strlit("tags");
    reveal_strlit("status");
    reveal_strlit("generated");
    reveal_strlit("verified");
    reveal_strlit("stale_after");
    reveal_strlit("sources");
    reveal_strlit("usage_window");
    assert forall|i: int, j: int| 0 <= i < 11 && 0 <= j < 11 && i != j implies preferred_keys()[i] != preferred_keys()[j] by {
        let a = preferred_keys()[i];
        let b = preferred_keys()[j];
        if a == b {
            assert(a.len() == b.len());
            assert(a[0] == b[0]);
            assert(a[a.len() - 1] == b[b.len() - 1]);
            assert(a[1] == b[1]);
        }
    }
}

/// The preferred rank of a key, in exec form.
fn rank_exec(k: &Value, keys: &Vec<&'static str>) -> (r: i64)
    requires
        keys@.len() == 11,
        forall|i: int| 0 <= i < 11 ==> (#[trigger] keys@[i])@ == preferred_keys()[i],
    ensures
        r == preferred_rank(vview(*k)),
{
    proof {
        lemma_preferred_distinct();
    }
    match k {
        Value::Text(s) => {
            let mut i: usize = 0;
            while i < 11
                invariant
                    i <= 11,
                    keys@.len() == 11,
                    forall|q: int| 0 <= q < 11 ==> (#[trigger] keys@[q])@ == preferred_keys()[q],
                    forall|q: int| 0 <= q < i ==> preferred_keys()[q] != s@,
                    *k == Value::Text(*s),
                decreases 11 - i,
            {
                if crate::text::str_eq(keys[i], s.as_str()) {
                    proof {
                        lemma_preferred_distinct();
                        assert(preferred_keys()[i as int] == s@);
                        assert(exists|q: int| 0 <= q < 11 && preferred_keys()[q] == s@);
                        let c = choose|q: int| 0 <= q < 11 && preferred_keys()[q] == s@;
                        assert(c == i);
                        assert(vview(*k) == ValueView::Str(s@));
                        assert(preferred_rank(vview(*k)) == c);
                    }
                    return i as i64;
                }
                i += 1;
            }
            -1
        },
        _ => -1,
    }
}

impl Frontmatter {
    /// Sets `key` to `value` (see [`crate::yaml::set_entry`]).
    pub fn set(&mut self, key: &str, value: Value)
        ensures
            final(self)@ == crate::yaml::set_entry(old(self)@, key@, vview(value)),
    {
        self.map.insert(key, value);
    }

    /// Removes `key`, returning its value if it was present.
    pub fn remove(&mut self, key: &str) -> (r: Option<Value>)
        ensures
            final(self)@ == crate::yaml::remove_entry(old(self)@, key@),
            match r {
                Some(v) => lookup(old(self)@, key@) == Some(vview(v)),
                None => lookup(old(self)@, key@) is None,
            },
    {
        self.map.remove(key)
    }

    /// Whether two preferred keys are out of the preferred order.
    pub fn key_order_needs_fix(&self) -> (r: bool)
        ensures
            r == out_of_order(self@),
    {
        let keys = preferred_key_list();
        let ghost fm = self@;
        proof {
            crate::yaml::lemma_pviews_len(self.map.entries@, self.map.entries@.len() as int);
        }
        let mut max: i64 = -1;
        let mut i: usize = 0;
        while i < self.map.entries.len()
            invariant
                i <= self.map.entries.len(),
                fm == self@,
                fm.len() == self.map.entries@.len(),
                keys@.len() == 11,
                forall|q: int| 0 <= q < 11 ==> (#[trigger] keys@[q])@ == preferred_keys()[q],
                -1 <= max < 11,
                forall|a: int| 0 <= a < i ==> #[trigger] preferred_rank(fm[a].0) <= max,
                max >= 0 ==> exists|a: int| 0 <= a < i && #[trigger] preferred_rank(fm[a].0) == max,
                !(exists|a: int, b: int| 0 <= a < b < i && #[trigger] preferred_rank(fm[b].0) >= 0
                    && preferred_rank(fm[b].0) < #[trigger] preferred_rank(fm[a].0)),
            decreases self.map.entries.len() - i,
        {
            proof {
                crate::yaml::lemma_pviews_at(self.map.entries@, i as int);
            }
            let r = rank_exec(&self.map.entries[i].0, &keys);
            if r >= 0 && r < max {
                proof {
                    let a = choose|a: int| 0 <= a < i && #[trigger] preferred_rank(fm[a].0) == max;
                    assert(preferred_rank(fm[i as int].0) < preferred_rank(fm[a].0));
                }
                return true;
            }
            let ghost old_max = max;
            if r > max {
                max = r;
            }
            proof {
                if r > old_max {
                    assert(preferred_rank(fm[i as int].0) == max);
                } else if max >= 0 {
                    let a = choose|a: int| 0 <= a < i && #[trigger] preferred_rank(fm[a].0) == max;
                    assert(preferred_rank(fm[a].0) == max);
                }
                assert forall|a: int, b: int| 0 <= a < b < i + 1 && #[trigger] preferred_rank(fm[b].0) >= 0
                    implies !(preferred_rank(fm[b].0) < #[trigger] preferred_rank(fm[a].0)) by {
                    if b == i {
                        assert(preferred_rank(fm[a].0) <= max);
                    }
                }
            }
            i += 1;
        }
        false
    }

    /// Lays the keys out in [`preferred_keys`] order, every other entry after
    /// them in its current order (see [`reordered`]). A second entry with a
    /// preferred key is dropped.
    pub fn reorder_preferred(&mut self)
        ensures
            final(self)@ == reordered(old(self)@),
    {
        let keys = preferred_key_list();
        let ghost fm = self@;
        let mut out: Vec<(Value, Value)> = Vec::new();
        let mut i: usize = 0;
        while i < 11
            invariant
                i <= 11,
                fm == self@,
                keys@.len() == 11,
                forall|q: int| 0 <= q < 11 ==> (#[trigger] keys@[q])@ == preferred_keys()[q],
                crate::yaml::pviews(out@, out@.len() as int) == preferred_part(fm, i as int),
            decreases 11 - i,
        {
            match self.map.get(keys[i]) {
                Some(v) => {
                    let c = v.deep_clone();
                    let k = Value::Text(keys[i].to_string());
                    proof {
                        crate::yaml::lemma_pviews_push(out@, (k, c));
                    }
                    out.push((k, c));
                },
                None => {},
            }
            i += 1;
        }
        proof {
            crate::yaml::lemma_pviews_len(self.map.entries@, self.map.entries@.len() as int);
        }
        let ghost base = crate::yaml::pviews(out@, out@.len() as int);
        let mut j: usize = 0;
        while j < self.map.entries.len()
            invariant
                j <= self.map.entries.len(),
                fm == self@,
                fm.len() == self.map.entries@.len(),
                keys@.len() == 11,
                forall|q: int| 0 <= q < 11 ==> (#[trigger] keys@[q])@ == preferred_keys()[q],
                base == preferred_part(fm, 11),
                crate::yaml::pviews(out@, out@.len() as int) == base + other_part(fm, j as int),
            decreases self.map.entries.len() - j,
        {
            proof {
                crate::yaml::lemma_pviews_at(self.map.entries@, j as int);
            }
            let r = rank_exec(&self.map.entries[j].0, &keys);
            if r < 0 {
                let k = self.map.entries[j].0.deep_clone();
                let v = self.map.entries[j].1.deep_clone();
                proof {
                    crate::yaml::lemma_pviews_push(out@, (k, v));
                }
                out.push((k, v));
            }
            j += 1;
        }
        self.map = Mapping { entries: out };
    }
}


impl Frontmatter {
    /// A copy of the frontmatter.
    pub fn deep_clone(&self) -> (r: Frontmatter)
        ensures
            r@ == self@,
    {
        Frontmatter { map: self.map.deep_clone() }
    }
}

impl Frontmatter {
    /// The `generated` block, when it is a mapping.
    pub fn generated(&self) -> (r: Option<crate::trust::Generated>)
        ensures
            match r {
                Some(g) => lookup(self@, "generated"@) matches Some(v) && crate::trust::event_of(v) matches Some(t)
                    && crate::trust::by_at_match(g.by, g.at, t),
                None => !(lookup(self@, "generated"@) matches Some(v) && crate::trust::event_of(v) is Some),
            },
    {
        match self.map.get("generated") {
            Some(v) => crate::trust::Generated::from_value(v),
            None => None,
        }
    }

    /// The `sources` entries (see [`crate::provenance::frontmatter_sources`]).
    pub fn sources(&self) -> (r: Vec<crate::provenance::Source>)
        ensures
            crate::provenance::source_views(r@) == crate::provenance::frontmatter_sources(self@),
    {
        crate::provenance::sources_in(self)
    }

    /// The frontmatter as YAML text (see [`crate::emit::mapping_text`]).
    pub closed spec fn yaml_text(&self) -> Seq<char> {
        crate::emit::mapping_text(self.map)
    }

    /// Writes the frontmatter as block-style YAML.
    pub fn to_yaml(&self) -> (r: String)
        ensures
            r@ == self.yaml_text(),
    {
        crate::text::string_of(&crate::emit::mapping_to_text(&self.map))
    }
}

/// A document as text: the frontmatter between `---` lines, then the body.
pub open spec fn document_text(yaml: Seq<char>, body: Seq<char>) -> Seq<char> {
    "---\n"@ + yaml + "---\n"@ + body
}

impl Document {
    /// The document as text (see [`document_text`]).
    pub fn serialize(&self) -> (r: String)
        ensures
            r@ == document_text(self.frontmatter.yaml_text(), self.body@),
    {
        let mut out = chars_of("---\n");
        crate::text::extend_all(&mut out, &crate::emit::mapping_to_text(&self.frontmatter.map));
        crate::text::extend_all(&mut out, &chars_of("---\n"));
        crate::text::extend_all(&mut out, &chars_of(self.body.as_str()));
        crate::text::string_of(&out)
    }

    /// A document from its parts.
    pub fn new(frontmatter: Frontmatter, body: String) -> (r: Document)
        ensures
            r.frontmatter@ == frontmatter@,
            r.body@ == body@,
    {
        Document { frontmatter, body }
    }
}

/// Writing a document and reading the text back gives the same frontmatter
/// entries and body, when the entries are ones the emitter writes and reads
/// back (see [`crate::round_trip::writable_entries`]): scalar keys, and
/// scalar, sequence or mapping values.
pub proof fn lemma_document_round_trip(d: Document)
    requires
        crate::round_trip::writable_entries(d.frontmatter@),
    ensures
        doc_spec(document_text(d.frontmatter.yaml_text(), d.body@)) == Ok::<
            (Seq<(ValueView, ValueView)>, Seq<char>),
            DocumentErrorView,
        >((d.frontmatter@, d.body@)),
{
    crate::round_trip::lemma_document_text_round_trip(d.frontmatter.map, d.body@);
}

/// Reading a text, writing what was read and reading that again gives what
/// the first reading gave (the document `d` being what the first reading
/// gave, as [`Document::parse`] states).
pub proof fn lemma_reread(text: Seq<char>, d: Document)
    requires
        doc_spec(text) == Ok::<(Seq<(ValueView, ValueView)>, Seq<char>), DocumentErrorView>((d.frontmatter@, d.body@)),
    ensures
        doc_spec(document_text(d.frontmatter.yaml_text(), d.body@)) == doc_spec(text),
{
    crate::round_trip::lemma_read_frontmatter_writable(text);
    lemma_document_round_trip(d);
}

} // verus!
