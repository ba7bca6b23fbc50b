//! Trust and lifecycle frontmatter: `generated`, `verified`, `status`, and
//! `stale_after`.
//!
//! All four keys are optional and their absence is meaningful: a concept
//! with no trust frontmatter is [`TrustTier::Unverified`] and
//! `status: stable`. The trust tier is derived from `verified`, never stored
//! ([`TrustTier::derive`]).
use vstd::prelude::*;
use vstd::string::StrSliceExecFns;
use crate::date::{instant, midnight_utc, not_after, parse_spec, well_formed, Date, DateTime};
use crate::text::{chars_of, has_prefix, str_eq, trim, trim_bounds};
use crate::yaml::{display_of, lookup, vview, Mapping, Value, ValueView};

verus! {

broadcast use vstd::string::group_string_axioms;

/// What kind of actor an identity string names.
#[derive(Clone, Copy, Debug, PartialEq, Eq, Structural)]
pub enum ActorKind {
    /// `human:<id>`
    Human,
    /// `process:<id>`
    Process,
    /// `<producer>/<version>`
    Agent,
    /// Anything else.
    Other,
}

/// The kind an identity string names.
pub open spec fn actor_kind_of(s: Seq<char>) -> ActorKind {
    if has_prefix(s, "human:"@) {
        ActorKind::Human
    } else if has_prefix(s, "process:"@) {
        ActorKind::Process
    } else if s.contains('/') {
        ActorKind::Agent
    } else {
        ActorKind::Other
    }
}

/// The lowercase name of an actor kind.
pub open spec fn actor_kind_name(k: ActorKind) -> Seq<char> {
    match k {
        ActorKind::Human => "human"@,
        ActorKind::Process => "process"@,
        ActorKind::Agent => "agent"@,
        ActorKind::Other => "other"@,
    }
}

/// The actor kind a lowercase name spells.
pub open spec fn actor_kind_from_name(s: Seq<char>) -> Option<ActorKind> {
    if s == "human"@ {
        Some(ActorKind::Human)
    } else if s == "process"@ {
        Some(ActorKind::Process)
    } else if s == "agent"@ {
        Some(ActorKind::Agent)
    } else if s == "other"@ {
        Some(ActorKind::Other)
    } else {
        None
    }
}

/// A string that names no actor kind.
#[derive(Clone, Debug, PartialEq, Eq)]
pub struct ParseActorKindError(pub String);

impl ActorKind {
    /// The lowercase name.
    pub fn as_str(&self) -> (r: &'static str)
        ensures
            r@ == actor_kind_name(*self),
    {
        match self {
            ActorKind::Human => "human",
            ActorKind::Process => "process",
            ActorKind::Agent => "agent",
            ActorKind::Other => "other",
        }
    }

    /// The lowercase name as an owned string.
    pub fn to_string(&self) -> (r: String)
        ensures
            r@ == actor_kind_name(*self),
    {
        self.as_str().to_string()
    }

    /// Parses a lowercase kind name.
    pub fn parse_name(s: &str) -> (r: Result<ActorKind, ParseActorKindError>)
        ensures
            match r {
                Ok(k) => actor_kind_from_name(s@) == Some(k),
                Err(e) => actor_kind_from_name(s@) is None && e.0@ == s@,
            },
    {
        if str_eq(s, "human") {
            Ok(ActorKind::Human)
        } else if str_eq(s, "process") {
            Ok(ActorKind::Process)
        } else if str_eq(s, "agent") {
            Ok(ActorKind::Agent)
        } else if str_eq(s, "other") {
            Ok(ActorKind::Other)
        } else {
            Err(ParseActorKindError(s.to_string()))
        }
    }
}

impl std::str::FromStr for ActorKind {
    type Err = ParseActorKindError;

    fn from_str(s: &str) -> Result<ActorKind, ParseActorKindError> {
        ActorKind::parse_name(s)
    }
}

/// An identity string: `human:<id>`, `process:<id>`, or `<producer>/<version>`.
#[derive(Clone, Debug, PartialEq, Eq)]
pub struct Actor {
    pub text: String,
}

fn starts_with_word(v: &[char], w: &str) -> (r: bool)
    ensures
        r == has_prefix(v@, w@),
{
    let wv = chars_of(w);
    let r = crate::text::matches_at(v, 0, &wv);
    proof {
        if r {
            assert(v@.subrange(0, wv@.len() as int) == wv@);
        }
    }
    r
}

impl Actor {
    /// Reads an identity string as written.
    pub fn parse(s: String) -> (r: Actor)
        ensures
            r.text@ == s@,
    {
        Actor { text: s }
    }

    /// The identity string.
    pub fn as_str(&self) -> (r: &str)
        ensures
            r@ == self.text@,
    {
        self.text.as_str()
    }

    /// The kind of actor.
    pub fn kind(&self) -> (r: ActorKind)
        ensures
            r == actor_kind_of(self.text@),
    {
        let v = chars_of(self.text.as_str());
        if starts_with_word(&v, "human:") {
            ActorKind::Human
        } else if starts_with_word(&v, "process:") {
            ActorKind::Process
        } else if crate::syntax::contains_char(&v, '/') {
            ActorKind::Agent
        } else {
            ActorKind::Other
        }
    }

    /// The producer of an agent actor: the text before the first `/` of
    /// `<producer>/<version>`; `None` for any other kind.
    pub fn producer(&self) -> (r: Option<&str>)
        ensures
            match r {
                Some(p) => actor_kind_of(self.text@) is Agent && p@ == self.text@.subrange(0, crate::paths::first_index(self.text@, '/', 0)),
                None => !(actor_kind_of(self.text@) is Agent),
            },
    {
        match self.kind() {
            ActorKind::Agent => {
                let v = chars_of(self.text.as_str());
                let i = crate::markdown::first_index_exec(&v, '/', 0);
                Some(self.text.as_str().substring_char(0, i))
            },
            _ => None,
        }
    }

    /// Whether this is a `human:` actor.
    pub fn is_human(&self) -> (r: bool)
        ensures
            r == has_prefix(self.text@, "human:"@),
    {
        let v = chars_of(self.text.as_str());
        starts_with_word(&v, "human:")
    }
}

impl From<String> for Actor {
    fn from(s: String) -> (r: Actor) {
        Actor { text: s }
    }
}

impl vstd::std_specs::convert::FromSpecImpl<String> for Actor {
    open spec fn obeys_from_spec() -> bool {
        true
    }

    open spec fn from_spec(s: String) -> Actor {
        Actor { text: s }
    }
}

impl std::str::FromStr for Actor {
    type Err = std::convert::Infallible;

    fn from_str(s: &str) -> Result<Actor, std::convert::Infallible> {
        Ok(Actor::parse(s.to_string()))
    }
}

/// A timestamp kept as written beside its parse.
#[derive(Clone, Debug, PartialEq, Eq)]
pub struct DateTimeField {
    /// The scalar as written.
    pub raw: String,
    /// Its parse, when it parses.
    pub datetime: Option<DateTime>,
}

/// A usable trust timestamp: it parses, carries a time of day and an explicit offset.
pub open spec fn usable_time(f: DateTimeField) -> bool {
    (f.datetime matches Some(dt) && dt.has_time && dt.offset_minutes is Some)
}

impl DateTimeField {
    /// Keeps `raw` and its parse.
    pub fn new(raw: String) -> (r: DateTimeField)
        ensures
            r.raw@ == raw@,
            r.datetime == parse_spec(raw@),
    {
        let dt = DateTime::parse(raw.as_str());
        DateTimeField { raw, datetime: dt }
    }

    /// Whether the timestamp parses and has a time of day and an explicit UTC offset.
    pub fn is_valid(&self) -> (r: bool)
        ensures
            r == usable_time(*self),
    {
        match self.datetime {
            Some(dt) => dt.has_time && dt.offset_minutes.is_some(),
            None => false,
        }
    }
}

/// How the current content was produced: `generated: { by, at }`.
#[derive(Clone, Debug, PartialEq, Eq)]
pub struct Generated {
    /// The producing actor.
    pub by: Option<Actor>,
    /// When the content last meaningfully changed.
    pub at: Option<DateTimeField>,
}

/// A single verification event: `{ by, at }`.
#[derive(Clone, Debug, PartialEq, Eq)]
pub struct Verification {
    /// The verifying actor.
    pub by: Option<Actor>,
    /// When the verification happened.
    pub at: Option<DateTimeField>,
}

/// A verification event with a non-blank actor and a usable timestamp.
pub open spec fn valid_event(v: Verification) -> bool {
    &&& (v.by matches Some(a) && trim(a.text@).len() > 0)
    &&& (v.at matches Some(f) && usable_time(f))
}

/// The instant of a valid event.
pub open spec fn event_instant(v: Verification) -> int {
    instant(v.at->0.datetime->0)
}

impl Verification {
    /// `true` when this event has the required actor and a parseable timestamp
    /// that includes a time of day and an explicit UTC offset.
    pub fn is_valid(&self) -> (r: bool)
        ensures
            r == valid_event(*self),
    {
        let actor_ok = match &self.by {
            Some(a) => {
                let v = chars_of(a.text.as_str());
                let (x, y) = trim_bounds(&v, 0, v.len());
                proof {
                    assert(v@.subrange(0, v@.len() as int) =~= v@);
                }
                x < y
            },
            None => false,
        };
        let time_ok = match &self.at {
            Some(f) => f.is_valid(),
            None => false,
        };
        actor_ok && time_ok
    }
}

/// Parsed timestamps are well formed; a field's parse is one.
pub open spec fn field_parsed(f: DateTimeField) -> bool {
    f.datetime matches Some(dt) ==> well_formed(dt)
}

/// Every event's timestamp (if any) came from [`DateTime::parse`].
pub open spec fn events_parsed(events: Seq<Verification>) -> bool {
    forall|k: int| 0 <= k < events.len() ==> ((#[trigger] events[k]).at matches Some(f) ==> field_parsed(f))
}

/// Returns the position of the verification with the latest usable `at`:
/// among valid events, the last one whose instant is maximal (as
/// `Iterator::max_by_key` picks). `None` when no event is valid.
pub fn latest_verification(events: &[Verification]) -> (r: Option<usize>)
    requires
        events_parsed(events@),
    ensures
        r is None <==> forall|k: int| 0 <= k < events.len() ==> !valid_event(#[trigger] events@[k]),
        r matches Some(i) ==> {
            &&& i < events.len()
            &&& valid_event(events@[i as int])
            &&& forall|k: int| 0 <= k < events.len() && valid_event(#[trigger] events@[k]) ==> event_instant(events@[k]) <= event_instant(events@[i as int])
            &&& forall|k: int| i < k < events.len() && valid_event(#[trigger] events@[k]) ==> event_instant(events@[k]) < event_instant(events@[i as int])
        },
{
    let mut best: Option<usize> = None;
    let mut k: usize = 0;
    while k < events.len()
        invariant
            k <= events.len(),
            events_parsed(events@),
            best is None ==> forall|t: int| 0 <= t < k ==> !valid_event(#[trigger] events@[t]),
            best matches Some(i) ==> {
                &&& i < k
                &&& valid_event(events@[i as int])
                &&& forall|t: int| 0 <= t < k && valid_event(#[trigger] events@[t]) ==> event_instant(events@[t]) <= event_instant(events@[i as int])
                &&& forall|t: int| i < t < k && valid_event(#[trigger] events@[t]) ==> event_instant(events@[t]) < event_instant(events@[i as int])
            },
        decreases events.len() - k,
    {
        if events[k].is_valid() {
            let cand = events[k].at.as_ref().unwrap().datetime.unwrap();
            proof {
                assert(field_parsed(events@[k as int].at->0));
            }
            match best {
                None => {
                    best = Some(k);
                },
                Some(i) => {
                    let cur = events[i].at.as_ref().unwrap().datetime.unwrap();
                    proof {
                        assert(field_parsed(events@[i as int].at->0));
                    }
                    if not_after(&cur, &cand) {
                        best = Some(k);
                    }
                },
            }
        }
        k += 1;
    }
    best
}

/// A concept's trust tier, derived from `verified`. Ordered by increasing trust.
#[derive(Clone, Copy, Debug, PartialEq, Eq, PartialOrd, Ord, Hash, Structural)]
pub enum TrustTier {
    /// No valid `verified` event.
    Unverified,
    /// Verified by non-`human:` actors only.
    MachineConfirmed,
    /// Verified by at least one `human:<id>` actor.
    HumanReviewed,
}

/// The tier a list of events earns.
pub open spec fn tier_of(events: Seq<Verification>) -> TrustTier {
    if forall|k: int| 0 <= k < events.len() ==> !valid_event(#[trigger] events[k]) {
        TrustTier::Unverified
    } else if exists|k: int| 0 <= k < events.len() && valid_event(#[trigger] events[k]) && has_prefix(events[k].by->0.text@, "human:"@) {
        TrustTier::HumanReviewed
    } else {
        TrustTier::MachineConfirmed
    }
}

/// The rank of a tier (its position in the trust order).
pub open spec fn tier_rank(t: TrustTier) -> int {
    match t {
        TrustTier::Unverified => 0,
        TrustTier::MachineConfirmed => 1,
        TrustTier::HumanReviewed => 2,
    }
}

/// The canonical name of a tier.
pub open spec fn tier_name(t: TrustTier) -> Seq<char> {
    match t {
        TrustTier::Unverified => "unverified"@,
        TrustTier::MachineConfirmed => "machine-confirmed"@,
        TrustTier::HumanReviewed => "human-reviewed"@,
    }
}

/// The tier a name spells, accepting `_` for `-`.
pub open spec fn tier_from_name(s: Seq<char>) -> Option<TrustTier> {
    if s == "unverified"@ {
        Some(TrustTier::Unverified)
    } else if s == "machine-confirmed"@ || s == "machine_confirmed"@ {
        Some(TrustTier::MachineConfirmed)
    } else if s == "human-reviewed"@ || s == "human_reviewed"@ {
        Some(TrustTier::HumanReviewed)
    } else {
        None
    }
}

/// A string that names no trust tier.
#[derive(Clone, Debug, PartialEq, Eq)]
pub struct ParseTrustTierError(pub String);

impl TrustTier {
    /// Derives the tier from a concept's verification events: unverified
    /// without a valid event, human-reviewed when a valid event is by a
    /// `human:` actor, machine-confirmed otherwise.
    pub fn derive(events: &[Verification]) -> (r: TrustTier)
        ensures
            r == tier_of(events@),
    {
        let mut any_valid = false;
        let mut any_human = false;
        let mut k: usize = 0;
        while k < events.len()
            invariant
                k <= events.len(),
                any_valid == exists|t: int| 0 <= t < k && valid_event(#[trigger] events@[t]),
                any_human == exists|t: int| 0 <= t < k && valid_event(#[trigger] events@[t]) && has_prefix(events@[t].by->0.text@, "human:"@),
            decreases events.len() - k,
        {
            if events[k].is_valid() {
                any_valid = true;
                if events[k].by.as_ref().unwrap().is_human() {
                    any_human = true;
                }
            }
            proof {
                assert(valid_event(events@[k as int]) ==> (exists|t: int| 0 <= t < k + 1 && valid_event(#[trigger] events@[t])));
            }
            k += 1;
        }
        if !any_valid {
            TrustTier::Unverified
        } else if any_human {
            TrustTier::HumanReviewed
        } else {
            TrustTier::MachineConfirmed
        }
    }

    /// The canonical name.
    pub fn as_str(&self) -> (r: &'static str)
        ensures
            r@ == tier_name(*self),
    {
        match self {
            TrustTier::Unverified => "unverified",
            TrustTier::MachineConfirmed => "machine-confirmed",
            TrustTier::HumanReviewed => "human-reviewed",
        }
    }

    /// The canonical name as an owned string.
    pub fn to_string(&self) -> (r: String)
        ensures
            r@ == tier_name(*self),
    {
        self.as_str().to_string()
    }

    /// Parses a tier name (`machine-confirmed` or `machine_confirmed`, ...).
    pub fn parse_name(s: &str) -> (r: Result<TrustTier, ParseTrustTierError>)
        ensures
            match r {
                Ok(t) => tier_from_name(s@) == Some(t),
                Err(e) => tier_from_name(s@) is None && e.0@ == s@,
            },
    {
        if str_eq(s, "unverified") {
            Ok(TrustTier::Unverified)
        } else if str_eq(s, "machine-confirmed") || str_eq(s, "machine_confirmed") {
            Ok(TrustTier::MachineConfirmed)
        } else if str_eq(s, "human-reviewed") || str_eq(s, "human_reviewed") {
            Ok(TrustTier::HumanReviewed)
        } else {
            Err(ParseTrustTierError(s.to_string()))
        }
    }

    /// The lower of two tiers compares by rank.
    pub fn at_most(&self, other: &TrustTier) -> (r: bool)
        ensures
            r == (tier_rank(*self) <= tier_rank(*other)),
    {
        let a: u8 = match self {
            TrustTier::Unverified => 0,
            TrustTier::MachineConfirmed => 1,
            TrustTier::HumanReviewed => 2,
        };
        let b: u8 = match other {
            TrustTier::Unverified => 0,
            TrustTier::MachineConfirmed => 1,
            TrustTier::HumanReviewed => 2,
        };
        a <= b
    }
}

impl Default for TrustTier {
    fn default() -> (r: TrustTier)
        ensures
            r == TrustTier::Unverified,
    {
        TrustTier::Unverified
    }
}

impl std::str::FromStr for TrustTier {
    type Err = ParseTrustTierError;

    fn from_str(s: &str) -> Result<TrustTier, ParseTrustTierError> {
        TrustTier::parse_name(s)
    }
}

/// A concept's lifecycle `status`. An absent key means [`Status::Stable`].
#[derive(Clone, Debug, PartialEq, Eq)]
pub enum Status {
    /// Not yet reviewed; possibly incomplete.
    Draft,
    /// The default: ready for consumption.
    Stable,
    /// Kept for links and history; no longer current.
    Deprecated,
    /// A producer-defined value outside the three the spec names.
    Other(String),
}

/// The status a scalar names: its trimmed text decides, and an absent or
/// blank value is stable.
pub open spec fn status_matches(r: Status, value: Option<Seq<char>>) -> bool {
    match value {
        None => r is Stable,
        Some(v) => {
            let t = trim(v);
            if t == "draft"@ {
                r is Draft
            } else if t == "stable"@ || t.len() == 0 {
                r is Stable
            } else if t == "deprecated"@ {
                r is Deprecated
            } else {
                (r matches Status::Other(s) && s@ == t)
            }
        },
    }
}

/// The name of a status: its value as written for [`Status::Other`].
pub open spec fn status_name(s: Status) -> Seq<char> {
    match s {
        Status::Draft => "draft"@,
        Status::Stable => "stable"@,
        Status::Deprecated => "deprecated"@,
        Status::Other(x) => x@,
    }
}

impl Status {
    /// Parses a `status` scalar. `None` (an absent key) is [`Status::Stable`].
    pub fn parse(value: Option<&str>) -> (r: Status)
        ensures
            status_matches(r, match value { Some(v) => Some(v@), None => None }),
    {
        match value {
            None => Status::Stable,
            Some(v) => {
                let c = chars_of(v);
                let (a, b) = trim_bounds(&c, 0, c.len());
                proof {
                    assert(c@.subrange(0, c@.len() as int) =~= c@);
                }
                let t = crate::text::string_of_range(&c, a, b);
                if str_eq(t.as_str(), "draft") {
                    Status::Draft
                } else if str_eq(t.as_str(), "stable") || a == b {
                    Status::Stable
                } else if str_eq(t.as_str(), "deprecated") {
                    Status::Deprecated
                } else {
                    Status::Other(t)
                }
            },
        }
    }

    /// `true` for one of the three values the spec defines.
    pub fn is_known(&self) -> (r: bool)
        ensures
            r == !(*self is Other),
    {
        !matches!(self, Status::Other(_))
    }

    /// `true` for [`Status::Deprecated`].
    pub fn is_deprecated(&self) -> (r: bool)
        ensures
            r == (*self is Deprecated),
    {
        matches!(self, Status::Deprecated)
    }

    /// The status name.
    pub fn as_str(&self) -> (r: &str)
        ensures
            r@ == status_name(*self),
    {
        match self {
            Status::Draft => "draft",
            Status::Stable => "stable",
            Status::Deprecated => "deprecated",
            Status::Other(s) => s.as_str(),
        }
    }

    /// The status name as an owned string.
    pub fn to_string(&self) -> (r: String)
        ensures
            r@ == status_name(*self),
    {
        self.as_str().to_string()
    }
}

impl Default for Status {
    fn default() -> (r: Status)
        ensures
            r is Stable,
    {
        Status::Stable
    }
}

impl std::str::FromStr for Status {
    type Err = std::convert::Infallible;

    fn from_str(s: &str) -> Result<Status, std::convert::Infallible> {
        Ok(Status::parse(Some(s)))
    }
}

/// The staleness rule: stale once `now` reaches a `stale_after` that has a
/// time of day and an explicit offset; anything else is never stale.
pub open spec fn stale_rule(stale_after: Option<DateTime>, now: DateTime) -> bool {
    (stale_after matches Some(dt) && dt.offset_minutes is Some && dt.has_time && instant(dt) <= instant(now))
}

/// Whether a concept with this `stale_after` timestamp is stale at `now`.
pub fn is_stale_at(stale_after: Option<DateTime>, now: DateTime) -> (r: bool)
    requires
        stale_after matches Some(dt) ==> well_formed(dt),
        well_formed(now),
    ensures
        r == stale_rule(stale_after, now),
{
    match stale_after {
        Some(dt) => dt.offset_minutes.is_some() && dt.has_time && not_after(&dt, &now),
        None => false,
    }
}

/// Whether a concept with this `stale_after` timestamp is stale on `today`,
/// read at midnight UTC.
pub fn is_stale_on(stale_after: Option<DateTime>, today: Date) -> (r: bool)
    requires
        stale_after matches Some(dt) ==> well_formed(dt),
        well_formed(midnight_utc(today)),
    ensures
        r == stale_rule(stale_after, midnight_utc(today)),
{
    is_stale_at(stale_after, today.to_utc_datetime())
}

/// Staleness is monotone: once stale, a concept stays stale at every later instant.
pub proof fn lemma_stale_monotone(stale_after: Option<DateTime>, t1: DateTime, t2: DateTime)
    requires
        stale_rule(stale_after, t1),
        instant(t1) <= instant(t2),
    ensures
        stale_rule(stale_after, t2),
{
}

/// An optional value's display text.
pub open spec fn opt_display(o: Option<ValueView>) -> Option<Seq<char>> {
    match o {
        Some(x) => display_of(x),
        None => None,
    }
}

/// The `(by, at)` texts of a `{ by, at }` mapping; `None` for anything else.
pub open spec fn event_of(v: ValueView) -> Option<(Option<Seq<char>>, Option<Seq<char>>)> {
    match v {
        ValueView::Pairs(es) => Some((opt_display(lookup(es, "by"@)), opt_display(lookup(es, "at"@)))),
        _ => None,
    }
}

/// The events among the first `n` items: each mapping item, in order.
pub open spec fn events_upto(items: Seq<ValueView>, n: int) -> Seq<(Option<Seq<char>>, Option<Seq<char>>)>
    decreases n,
{
    if n <= 0 {
        seq![]
    } else {
        let p = events_upto(items, n - 1);
        match event_of(items[n - 1]) {
            Some(e) => p.push(e),
            None => p,
        }
    }
}

/// The events a `verified` value lists: a sequence's mapping items, a bare
/// mapping as one event, nothing otherwise.
pub open spec fn events_of(v: ValueView) -> Seq<(Option<Seq<char>>, Option<Seq<char>>)> {
    match v {
        ValueView::List(items) => events_upto(items, items.len() as int),
        ValueView::Pairs(_) => seq![event_of(v)->0],
        _ => seq![],
    }
}

/// Whether an actor and a timestamp field hold the texts `t`.
pub open spec fn by_at_match(by: Option<Actor>, at: Option<DateTimeField>, t: (Option<Seq<char>>, Option<Seq<char>>)) -> bool {
    &&& match by {
        Some(a) => t.0 == Some(a.text@),
        None => t.0 is None,
    }
    &&& match at {
        Some(f) => t.1 == Some(f.raw@) && f.datetime == parse_spec(f.raw@),
        None => t.1 is None,
    }
}

/// Reads the `by` and `at` texts of a mapping.
fn read_by_at(m: &Mapping) -> (r: (Option<Actor>, Option<DateTimeField>))
    ensures
        by_at_match(r.0, r.1, (opt_display(lookup(m@, "by"@)), opt_display(lookup(m@, "at"@)))),
{
    let by = match m.get("by") {
        Some(v) => match v.as_display_string() {
            Some(t) => Some(Actor::parse(t)),
            None => None,
        },
        None => None,
    };
    let at = match m.get("at") {
        Some(v) => match v.as_display_string() {
            Some(t) => Some(DateTimeField::new(t)),
            None => None,
        },
        None => None,
    };
    (by, at)
}

impl Generated {
    /// Reads a `generated` value; `None` when it is not a mapping.
    pub fn from_value(value: &Value) -> (r: Option<Generated>)
        ensures
            match r {
                Some(g) => event_of(vview(*value)) matches Some(t) && by_at_match(g.by, g.at, t),
                None => event_of(vview(*value)) is None,
            },
    {
        match value.as_mapping() {
            None => None,
            Some(m) => {
                let (by, at) = read_by_at(m);
                Some(Generated { by, at })
            },
        }
    }
}

impl Verification {
    /// Reads one `{ by, at }` mapping; `None` when it is not a mapping.
    pub fn from_value(value: &Value) -> (r: Option<Verification>)
        ensures
            match r {
                Some(g) => event_of(vview(*value)) matches Some(t) && by_at_match(g.by, g.at, t),
                None => event_of(vview(*value)) is None,
            },
    {
        match value.as_mapping() {
            None => None,
            Some(m) => {
                let (by, at) = read_by_at(m);
                Some(Verification { by, at })
            },
        }
    }

    /// Reads a whole `verified` value: a bare `{ by, at }` mapping is a
    /// one-element list, and any other non-sequence shape is empty.
    pub fn list_from_value(value: &Value) -> (r: Vec<Verification>)
        ensures
            r@.len() == events_of(vview(*value)).len(),
            forall|k: int| 0 <= k < r@.len() ==> by_at_match(#[trigger] r@[k].by, r@[k].at, events_of(vview(*value))[k]),
    {
        let mut out: Vec<Verification> = Vec::new();
        match value {
            Value::Sequence(items) => {
                let ghost iv = crate::yaml::vviews(items@, items@.len() as int);
                proof {
                    crate::yaml::lemma_vviews_len(items@, items@.len() as int);
                }
                let mut i: usize = 0;
                while i < items.len()
                    invariant
                        i <= items.len(),
                        iv == crate::yaml::vviews(items@, items@.len() as int),
                        iv.len() == items@.len(),
                        out@.len() == events_upto(iv, i as int).len(),
                        forall|k: int| 0 <= k < out@.len() ==> by_at_match(#[trigger] out@[k].by, out@[k].at, events_upto(iv, i as int)[k]),
                    decreases items.len() - i,
                {
                    proof {
                        crate::yaml::lemma_vviews_at(items@, i as int);
                    }
                    match Verification::from_value(&items[i]) {
                        Some(v) => {
                            out.push(v);
                        },
                        None => {},
                    }
                    i += 1;
                }
            },
            Value::Mapping(_) => {
                match Verification::from_value(value) {
                    Some(v) => {
                        out.push(v);
                    },
                    None => {},
                }
            },
            _ => {},
        }
        out
    }
}

/// A valid event by a `human:` actor makes the tier human-reviewed,
/// wherever it stands among the events.
pub proof fn lemma_human_event_reviews(events: Seq<Verification>, k: int)
    requires
        0 <= k < events.len(),
        valid_event(events[k]),
        has_prefix(events[k].by->0.text@, "human:"@),
    ensures
        tier_of(events) == TrustTier::HumanReviewed,
{
    assert(valid_event(events[k]));
}

/// A valid event makes the tier at least machine-confirmed, wherever it
/// stands; with no valid event the tier is unverified.
pub proof fn lemma_valid_event_confirms(events: Seq<Verification>, k: int)
    requires
        0 <= k < events.len(),
        valid_event(events[k]),
    ensures
        tier_of(events) != TrustTier::Unverified,
        tier_rank(tier_of(events)) >= 1,
{
    assert(valid_event(events[k]));
}

/// The tier depends only on which events there are, not on their order:
/// two lists holding the same events earn the same tier.
pub proof fn lemma_tier_order_free(a: Seq<Verification>, b: Seq<Verification>)
    requires
        forall|i: int| 0 <= i < a.len() ==> exists|j: int| 0 <= j < b.len() && #[trigger] a[i] == #[trigger] b[j],
        forall|j: int| 0 <= j < b.len() ==> exists|i: int| 0 <= i < a.len() && #[trigger] a[i] == #[trigger] b[j],
    ensures
        tier_of(a) == tier_of(b),
{
    if exists|k: int| 0 <= k < a.len() && valid_event(#[trigger] a[k]) && has_prefix(a[k].by->0.text@, "human:"@) {
        let k = choose|k: int| 0 <= k < a.len() && valid_event(#[trigger] a[k]) && has_prefix(a[k].by->0.text@, "human:"@);
        let j = choose|j: int| 0 <= j < b.len() && a[k] == b[j];
        lemma_human_event_reviews(a, k);
        lemma_human_event_reviews(b, j);
    } else if exists|k: int| 0 <= k < b.len() && valid_event(#[trigger] b[k]) && has_prefix(b[k].by->0.text@, "human:"@) {
        let k = choose|k: int| 0 <= k < b.len() && valid_event(#[trigger] b[k]) && has_prefix(b[k].by->0.text@, "human:"@);
        let i = choose|i: int| 0 <= i < a.len() && a[i] == b[k];
        assert(valid_event(a[i]) && has_prefix(a[i].by->0.text@, "human:"@));
    } else if exists|k: int| 0 <= k < a.len() && valid_event(#[trigger] a[k]) {
        let k = choose|k: int| 0 <= k < a.len() && valid_event(#[trigger] a[k]);
        let j = choose|j: int| 0 <= j < b.len() && a[k] == b[j];
        assert(valid_event(b[j]));
    } else if exists|k: int| 0 <= k < b.len() && valid_event(#[trigger] b[k]) {
        let k = choose|k: int| 0 <= k < b.len() && valid_event(#[trigger] b[k]);
        let i = choose|i: int| 0 <= i < a.len() && a[i] == b[k];
        assert(valid_event(a[i]));
    }
}

/// What a tier says about the events: human-reviewed only with a valid
/// `human:` event, machine-confirmed only with a valid event and no valid
/// `human:` one, unverified only without a valid event.
pub proof fn lemma_tier_witness(events: Seq<Verification>)
    ensures
        tier_of(events) == TrustTier::HumanReviewed ==> exists|k: int| 0 <= k < events.len() && valid_event(#[trigger] events[k])
            && has_prefix(events[k].by->0.text@, "human:"@),
        tier_of(events) == TrustTier::MachineConfirmed ==> (exists|k: int| 0 <= k < events.len() && valid_event(#[trigger] events[k]))
            && forall|k: int| 0 <= k < events.len() && valid_event(#[trigger] events[k]) ==> !has_prefix(events[k].by->0.text@, "human:"@),
        tier_of(events) == TrustTier::Unverified ==> forall|k: int| 0 <= k < events.len() ==> !valid_event(#[trigger] events[k]),
{
}

/// Each of the three status names the spec defines reads as its own
/// status, however it is padded with whitespace.
pub proof fn lemma_status_names(r: Status, v: Seq<char>)
    requires
        status_matches(r, Some(v)),
    ensures
        trim(v) == "stable"@ ==> r is Stable,
        trim(v) == "draft"@ ==> r is Draft,
        trim(v) == "deprecated"@ ==> r is Deprecated,
        r is Other ==> trim(v).len() > 0 && r->Other_0@ == trim(v),
{
    reveal_strlit("stable");
    reveal_strlit("draft");
    reveal_strlit("deprecated");
    assert("stable"@.len() == 6 && "draft"@.len() == 5 && "deprecated"@.len() == 10);
    let t = trim(v);
    if t == "stable"@ || t == "deprecated"@ {
        assert(t != "draft"@);
    }
}

/// Reading a known status's name gives that status back.
pub proof fn lemma_status_name_round_trip(s: Status, r: Status)
    requires
        !(s is Other),
        status_matches(r, Some(status_name(s))),
    ensures
        r == s,
{
    reveal_strlit("stable");
    reveal_strlit("draft");
    reveal_strlit("deprecated");
    let n = status_name(s);
    assert(n.len() > 0 && !crate::text::is_ws(n[0]) && !crate::text::is_ws(n.last()));
    assert(crate::text::skip_ws(n, 0, n.len() as int) == 0);
    assert(trim_start_id(n));
    assert(crate::text::skip_ws_back(n, 0, n.len() as int) == n.len());
    assert(trim(n) =~= n);
}

spec fn trim_start_id(n: Seq<char>) -> bool {
    crate::text::trim_start(n) =~= n
}

} // verus!
