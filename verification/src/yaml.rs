//! The YAML subset OKF frontmatter is written in: block mappings and
//! sequences, flow collections (`[a, b]`, `{a: 1}`), plain, single- and
//! double-quoted scalars, literal (`|`) and folded (`>`) block scalars, `#`
//! comments, and the core scalar types null, bool, int, float and string.
//!
//! Anchors, aliases, tags and multiple documents are not supported. A float
//! scalar is kept as the text it was written as ([`Value::Float`]); its
//! numeric value is whatever `f64` parsing of that text gives. Timestamps
//! stay strings.
use vstd::prelude::*;
use crate::text::{chars_of, str_eq};

verus! {

broadcast use vstd::string::group_string_axioms;

/// A parsed YAML value.
#[derive(Debug)]
pub enum Value {
    /// `null`, `~`, or an empty value.
    Null,
    /// `true` / `false`.
    Bool(bool),
    /// An integer scalar.
    Int(i64),
    /// A floating-point scalar, as written.
    Float(String),
    /// A string scalar.
    Text(String),
    /// A sequence (`[...]` or block `- ...`).
    Sequence(Vec<Value>),
    /// A mapping (`{...}` or block `key: value`).
    Mapping(Mapping),
}

/// An ordered YAML mapping: entries in source order, keys kept as values.
#[derive(Debug)]
pub struct Mapping {
    pub entries: Vec<(Value, Value)>,
}

/// A YAML value with its texts as character sequences.
pub enum ValueView {
    Null,
    Bool(bool),
    Int(int),
    Float(Seq<char>),
    Str(Seq<char>),
    List(Seq<ValueView>),
    Pairs(Seq<(ValueView, ValueView)>),
}

/// The view of a value.
pub open spec fn vview(v: Value) -> ValueView
    decreases v, 0int,
{
    match v {
        Value::Null => ValueView::Null,
        Value::Bool(b) => ValueView::Bool(b),
        Value::Int(i) => ValueView::Int(i as int),
        Value::Float(s) => ValueView::Float(s@),
        Value::Text(s) => ValueView::Str(s@),
        Value::Sequence(xs) => ValueView::List(vviews(xs@, xs@.len() as int)),
        Value::Mapping(m) => ValueView::Pairs(pviews(m.entries@, m.entries@.len() as int)),
    }
}

/// The views of the first `n` values.
pub open spec fn vviews(xs: Seq<Value>, n: int) -> Seq<ValueView>
    decreases xs, n,
{
    if n <= 0 || n > xs.len() {
        seq![]
    } else {
        vviews(xs, n - 1).push(vview(xs[n - 1]))
    }
}

/// The views of the first `n` entries.
pub open spec fn pviews(xs: Seq<(Value, Value)>, n: int) -> Seq<(ValueView, ValueView)>
    decreases xs, n,
{
    if n <= 0 || n > xs.len() {
        seq![]
    } else {
        pviews(xs, n - 1).push((vview(xs[n - 1].0), vview(xs[n - 1].1)))
    }
}

pub proof fn lemma_vviews_push(xs: Seq<Value>, x: Value)
    ensures
        vviews(xs.push(x), xs.len() + 1int) == vviews(xs, xs.len() as int).push(vview(x)),
        vviews(xs, xs.len() as int).len() == xs.len(),
{
    lemma_vviews_prefix(xs.push(x), xs, xs.len() as int);
    lemma_vviews_len(xs, xs.len() as int);
}

pub proof fn lemma_vviews_len(xs: Seq<Value>, n: int)
    requires
        0 <= n <= xs.len(),
    ensures
        vviews(xs, n).len() == n,
    decreases n,
{
    if n > 0 {
        lemma_vviews_len(xs, n - 1);
    }
}

proof fn lemma_vviews_prefix(a: Seq<Value>, b: Seq<Value>, n: int)
    requires
        0 <= n <= b.len(),
        n <= a.len(),
        forall|k: int| 0 <= k < n ==> a[k] == b[k],
    ensures
        vviews(a, n) == vviews(b, n),
    decreases n,
{
    if n > 0 {
        lemma_vviews_prefix(a, b, n - 1);
    }
}

pub proof fn lemma_pviews_push(xs: Seq<(Value, Value)>, x: (Value, Value))
    ensures
        pviews(xs.push(x), xs.len() + 1int) == pviews(xs, xs.len() as int).push((vview(x.0), vview(x.1))),
        pviews(xs, xs.len() as int).len() == xs.len(),
{
    lemma_pviews_prefix(xs.push(x), xs, xs.len() as int);
    lemma_pviews_len(xs, xs.len() as int);
}

pub proof fn lemma_pviews_len(xs: Seq<(Value, Value)>, n: int)
    requires
        0 <= n <= xs.len(),
    ensures
        pviews(xs, n).len() == n,
    decreases n,
{
    if n > 0 {
        lemma_pviews_len(xs, n - 1);
    }
}

proof fn lemma_pviews_prefix(a: Seq<(Value, Value)>, b: Seq<(Value, Value)>, n: int)
    requires
        0 <= n <= b.len(),
        n <= a.len(),
        forall|k: int| 0 <= k < n ==> a[k] == b[k],
    ensures
        pviews(a, n) == pviews(b, n),
    decreases n,
{
    if n > 0 {
        lemma_pviews_prefix(a, b, n - 1);
    }
}

/// An error produced while parsing YAML.
#[derive(Clone, Debug, PartialEq, Eq)]
pub struct YamlError {
    /// 1-based source line where the problem was detected (0 if not known).
    pub line: usize,
    /// Human-readable description.
    pub message: String,
}

/// How a YAML error reads: `YAML error at line N: message`, or
/// `YAML error: message` when the line is not known.
pub open spec fn yaml_error_text(line: int, message: Seq<char>) -> Seq<char> {
    if line > 0 {
        "YAML error at line "@ + crate::text::decimal(line as nat) + ": "@ + message
    } else {
        "YAML error: "@ + message
    }
}

impl YamlError {
    /// The error as text.
    pub fn to_string(&self) -> (r: String)
        ensures
            r@ == yaml_error_text(self.line as int, self.message@),
    {
        let mut out: Vec<char> = Vec::new();
        if self.line > 0 {
            out = chars_of("YAML error at line ");
            crate::text::extend_all(&mut out, &crate::text::decimal_exec(self.line as u64));
            crate::text::extend_all(&mut out, &chars_of(": "));
        } else {
            out = chars_of("YAML error: ");
        }
        crate::text::extend_all(&mut out, &chars_of(self.message.as_str()));
        crate::text::string_of(&out)
    }
}

/// The value of the first entry whose key is the string `key`.
pub open spec fn lookup(entries: Seq<(ValueView, ValueView)>, key: Seq<char>) -> Option<ValueView>
    decreases entries.len(),
{
    if entries.len() == 0 {
        None
    } else if entries[0].0 == ValueView::Str(key) {
        Some(entries[0].1)
    } else {
        lookup(entries.drop_first(), key)
    }
}

impl Mapping {
    /// The entries as views.
    pub open spec fn view(&self) -> Seq<(ValueView, ValueView)> {
        pviews(self.entries@, self.entries@.len() as int)
    }

    /// An empty mapping.
    pub fn new() -> (r: Mapping)
        ensures
            r@.len() == 0,
    {
        Mapping { entries: Vec::new() }
    }

    /// Number of entries.
    pub fn len(&self) -> (r: usize)
        ensures
            r == self@.len(),
    {
        proof {
            lemma_pviews_len(self.entries@, self.entries@.len() as int);
        }
        self.entries.len()
    }

    /// `true` when there are no entries.
    pub fn is_empty(&self) -> (r: bool)
        ensures
            r == (self@.len() == 0),
    {
        proof {
            lemma_pviews_len(self.entries@, self.entries@.len() as int);
        }
        self.entries.len() == 0
    }

    /// The value of the first entry whose key is the string `key`.
    pub fn get(&self, key: &str) -> (r: Option<&Value>)
        ensures
            match r {
                Some(v) => lookup(self@, key@) == Some(vview(*v)),
                None => lookup(self@, key@) is None,
            },
    {
        let mut i: usize = 0;
        proof {
            lemma_pviews_len(self.entries@, self.entries@.len() as int);
            assert(self@.subrange(0, self@.len() as int) =~= self@);
        }
        while i < self.entries.len()
            invariant
                i <= self.entries.len(),
                self@.len() == self.entries@.len(),
                lookup(self@.subrange(i as int, self@.len() as int), key@) == lookup(self@, key@),
            decreases self.entries.len() - i,
        {
            let ghost rest = self@.subrange(i as int, self@.len() as int);
            proof {
                lemma_pviews_at(self.entries@, i as int);
                assert(rest[0] == self@[i as int]);
                assert(rest.drop_first() =~= self@.subrange(i + 1, self@.len() as int));
            }
            let k = &self.entries[i].0;
            let hit = match k {
                Value::Text(s) => str_eq(s.as_str(), key),
                _ => false,
            };
            if hit {
                return Some(&self.entries[i].1);
            }
            i += 1;
        }
        None
    }

    /// Whether some entry has the string key `key`.
    pub fn contains_key(&self, key: &str) -> (r: bool)
        ensures
            r == (lookup(self@, key@) is Some),
    {
        self.get(key).is_some()
    }
}

pub proof fn lemma_pviews_at(xs: Seq<(Value, Value)>, i: int)
    requires
        0 <= i < xs.len(),
    ensures
        pviews(xs, xs.len() as int)[i] == (vview(xs[i].0), vview(xs[i].1)),
{
    lemma_pviews_at_n(xs, xs.len() as int, i);
}

proof fn lemma_pviews_at_n(xs: Seq<(Value, Value)>, n: int, i: int)
    requires
        0 <= i < n <= xs.len(),
    ensures
        pviews(xs, n)[i] == (vview(xs[i].0), vview(xs[i].1)),
        pviews(xs, n).len() == n,
    decreases n,
{
    lemma_pviews_len(xs, n);
    if i < n - 1 {
        lemma_pviews_at_n(xs, n - 1, i);
    }
}

pub proof fn lemma_vviews_at(xs: Seq<Value>, i: int)
    requires
        0 <= i < xs.len(),
    ensures
        vviews(xs, xs.len() as int)[i] == vview(xs[i]),
{
    lemma_vviews_at_n(xs, xs.len() as int, i);
}

proof fn lemma_vviews_at_n(xs: Seq<Value>, n: int, i: int)
    requires
        0 <= i < n <= xs.len(),
    ensures
        vviews(xs, n)[i] == vview(xs[i]),
        vviews(xs, n).len() == n,
    decreases n,
{
    lemma_vviews_len(xs, n);
    if i < n - 1 {
        lemma_vviews_at_n(xs, n - 1, i);
    }
}

/// The numeral of an integer.
pub open spec fn int_text(i: int) -> Seq<char> {
    if i < 0 {
        seq!['-'] + crate::text::decimal((-i) as nat)
    } else {
        crate::text::decimal(i as nat)
    }
}

/// A scalar as display text: a string as is, a boolean as `true`/`false`,
/// an integer as its numeral, a float as written; `None` for null and
/// collections.
pub open spec fn display_of(v: ValueView) -> Option<Seq<char>> {
    match v {
        ValueView::Str(s) => Some(s),
        ValueView::Bool(b) => Some(if b { "true"@ } else { "false"@ }),
        ValueView::Int(i) => Some(int_text(i)),
        ValueView::Float(s) => Some(s),
        _ => None,
    }
}

/// Whether a value is "empty": null, false, zero, or an empty string,
/// sequence or mapping.
pub open spec fn empty_value(v: ValueView) -> bool {
    match v {
        ValueView::Null => true,
        ValueView::Bool(b) => !b,
        ValueView::Int(i) => i == 0,
        ValueView::Str(s) => s.len() == 0,
        ValueView::List(s) => s.len() == 0,
        ValueView::Pairs(s) => s.len() == 0,
        ValueView::Float(_) => false,
    }
}

impl Mapping {
    /// The string keys, in order.
    pub fn keys(&self) -> (r: Vec<&str>)
        ensures
            r@.map_values(|k: &str| k@) == string_keys(self@, self@.len() as int),
    {
        proof {
            lemma_pviews_len(self.entries@, self.entries@.len() as int);
        }
        let mut out: Vec<&str> = Vec::new();
        let mut i: usize = 0;
        while i < self.entries.len()
            invariant
                i <= self.entries.len(),
                self@.len() == self.entries@.len(),
                out@.map_values(|k: &str| k@) == string_keys(self@, i as int),
            decreases self.entries.len() - i,
        {
            proof {
                lemma_pviews_at(self.entries@, i as int);
            }
            match self.entries[i].0.as_str() {
                Some(k) => {
                    let ghost before = out@.map_values(|k: &str| k@);
                    out.push(k);
                    proof {
                        assert(out@.map_values(|k: &str| k@) =~= before.push(k@));
                    }
                },
                None => {},
            }
            i += 1;
        }
        out
    }
}

/// The string keys among the first `n` entries.
pub open spec fn string_keys(entries: Seq<(ValueView, ValueView)>, n: int) -> Seq<Seq<char>>
    decreases n,
{
    if n <= 0 {
        seq![]
    } else {
        match entries[n - 1].0 {
            ValueView::Str(k) => string_keys(entries, n - 1).push(k),
            _ => string_keys(entries, n - 1),
        }
    }
}

impl Value {
    /// The string contents of a string value.
    pub fn as_str(&self) -> (r: Option<&str>)
        ensures
            match r {
                Some(s) => vview(*self) == ValueView::Str(s@),
                None => !(vview(*self) is Str),
            },
    {
        match self {
            Value::Text(s) => Some(s.as_str()),
            _ => None,
        }
    }

    /// The boolean of a boolean value.
    pub fn as_bool(&self) -> (r: Option<bool>)
        ensures
            match r {
                Some(b) => vview(*self) == ValueView::Bool(b),
                None => !(vview(*self) is Bool),
            },
    {
        match self {
            Value::Bool(b) => Some(*b),
            _ => None,
        }
    }

    /// The integer of an integer value.
    pub fn as_int(&self) -> (r: Option<i64>)
        ensures
            match r {
                Some(i) => vview(*self) == ValueView::Int(i as int),
                None => !(vview(*self) is Int),
            },
    {
        match self {
            Value::Int(i) => Some(*i),
            _ => None,
        }
    }

    /// The elements of a sequence value.
    pub fn as_sequence(&self) -> (r: Option<&Vec<Value>>)
        ensures
            match r {
                Some(v) => vview(*self) == ValueView::List(vviews(v@, v@.len() as int)),
                None => !(vview(*self) is List),
            },
    {
        match self {
            Value::Sequence(v) => Some(v),
            _ => None,
        }
    }

    /// The mapping of a mapping value.
    pub fn as_mapping(&self) -> (r: Option<&Mapping>)
        ensures
            match r {
                Some(m) => vview(*self) == ValueView::Pairs(m@),
                None => !(vview(*self) is Pairs),
            },
    {
        match self {
            Value::Mapping(m) => Some(m),
            _ => None,
        }
    }

    /// `true` for null, `false`, `0`, and an empty string, sequence or mapping.
    pub fn is_empty_value(&self) -> (r: bool)
        ensures
            r == empty_value(vview(*self)),
    {
        match self {
            Value::Null => true,
            Value::Bool(b) => !*b,
            Value::Int(i) => *i == 0,
            Value::Text(s) => chars_of(s.as_str()).len() == 0,
            Value::Sequence(v) => {
                proof {
                    lemma_vviews_len(v@, v@.len() as int);
                }
                v.len() == 0
            },
            Value::Mapping(m) => m.is_empty(),
            Value::Float(_) => false,
        }
    }
}

impl Value {
    /// A scalar as display text (see [`display_of`]).
    pub fn as_display_string(&self) -> (r: Option<String>)
        ensures
            match r {
                Some(t) => display_of(vview(*self)) == Some(t@),
                None => display_of(vview(*self)) is None,
            },
    {
        match self {
            Value::Text(s) => Some(s.clone()),
            Value::Bool(b) => Some(if *b {
                "true".to_string()
            } else {
                "false".to_string()
            }),
            Value::Int(i) => {
                let mut out: Vec<char> = Vec::new();
                if *i < 0 {
                    out.push('-');
                    let m: u64 = if *i == -0x8000_0000_0000_0000i64 {
                        0x8000_0000_0000_0000u64
                    } else {
                        (-*i) as u64
                    };
                    crate::text::extend_all(&mut out, &crate::text::decimal_exec(m));
                    proof {
                        assert(out@ =~= seq!['-'] + crate::text::decimal((-(*i as int)) as nat));
                    }
                } else {
                    out = crate::text::decimal_exec(*i as u64);
                }
                Some(crate::text::string_of(&out))
            },
            Value::Float(s) => Some(s.clone()),
            _ => None,
        }
    }
}


impl Value {
    /// A copy of the value.
    pub fn deep_clone(&self) -> (r: Value)
        ensures
            vview(r) == vview(*self),
        decreases self,
    {
        match self {
            Value::Null => Value::Null,
            Value::Bool(b) => Value::Bool(*b),
            Value::Int(i) => Value::Int(*i),
            Value::Float(s) => Value::Float(s.clone()),
            Value::Text(s) => Value::Text(s.clone()),
            Value::Sequence(xs) => {
                let mut out: Vec<Value> = Vec::new();
                let mut i: usize = 0;
                while i < xs.len()
                    invariant
                        i <= xs.len(),
                        vviews(out@, out@.len() as int) == vviews(xs@, i as int),
                        out@.len() == i,
                        *self == Value::Sequence(*xs),
                    decreases xs.len() - i,
                {
                    proof {
                        assert(decreases_to!(*self => (*self)->Sequence_0));
                        assert((*self)->Sequence_0 == *xs);
                        assert(decreases_to!(xs => xs@));
                        assert(decreases_to!(xs@ => xs@[i as int]));
                    }
                    let c = xs[i].deep_clone();
                    proof {
                        lemma_vviews_push(out@, c);
                    }
                    out.push(c);
                    i += 1;
                }
                proof {
                    lemma_vviews_len(out@, out@.len() as int);
                }
                Value::Sequence(out)
            },
            Value::Mapping(m) => {
                let mut out: Vec<(Value, Value)> = Vec::new();
                let mut i: usize = 0;
                while i < m.entries.len()
                    invariant
                        i <= m.entries.len(),
                        pviews(out@, out@.len() as int) == pviews(m.entries@, i as int),
                        out@.len() == i,
                        *self == Value::Mapping(*m),
                    decreases m.entries.len() - i,
                {
                    proof {
                        assert(decreases_to!(*self => (*self)->Mapping_0));
                        assert((*self)->Mapping_0 == *m);
                        assert(decreases_to!(m => m.entries));
                        assert(decreases_to!(m.entries => m.entries@));
                        assert(decreases_to!(m.entries@ => m.entries@[i as int]));
                        assert(decreases_to!(m.entries@[i as int] => m.entries@[i as int].0));
                        assert(decreases_to!(m.entries@[i as int] => m.entries@[i as int].1));
                    }
                    let k = m.entries[i].0.deep_clone();
                    let v = m.entries[i].1.deep_clone();
                    proof {
                        lemma_pviews_push(out@, (k, v));
                    }
                    out.push((k, v));
                    i += 1;
                }
                Value::Mapping(Mapping { entries: out })
            },
        }
    }
}

/// The first index at or after `i` whose key is the string `key`, or the
/// length.
pub open spec fn key_index(entries: Seq<(ValueView, ValueView)>, key: Seq<char>, i: int) -> int
    decreases entries.len() - i,
{
    if i < 0 || i >= entries.len() {
        entries.len() as int
    } else if entries[i].0 == ValueView::Str(key) {
        i
    } else {
        key_index(entries, key, i + 1)
    }
}

/// The entries with `key` set to `v`: the first entry with that key takes
/// the value in place, else a new entry is appended.
pub open spec fn set_entry(entries: Seq<(ValueView, ValueView)>, key: Seq<char>, v: ValueView) -> Seq<(ValueView, ValueView)> {
    let k = key_index(entries, key, 0);
    if k < entries.len() {
        entries.update(k, (entries[k].0, v))
    } else {
        entries.push((ValueView::Str(key), v))
    }
}

/// The entries without the first entry whose key is `key`.
pub open spec fn remove_entry(entries: Seq<(ValueView, ValueView)>, key: Seq<char>) -> Seq<(ValueView, ValueView)> {
    let k = key_index(entries, key, 0);
    if k < entries.len() {
        entries.remove(k)
    } else {
        entries
    }
}

pub proof fn lemma_key_index_bounds(entries: Seq<(ValueView, ValueView)>, key: Seq<char>, i: int)
    requires
        0 <= i <= entries.len(),
    ensures
        i <= key_index(entries, key, i) <= entries.len(),
        key_index(entries, key, i) < entries.len() ==> entries[key_index(entries, key, i)].0 == ValueView::Str(key),
        forall|j: int| i <= j < key_index(entries, key, i) ==> (#[trigger] entries[j]).0 != ValueView::Str(key),
    decreases entries.len() - i,
{
    if i < entries.len() && entries[i].0 != ValueView::Str(key) {
        lemma_key_index_bounds(entries, key, i + 1);
    }
}

/// The view of a list of entries is their views, element by element.
proof fn lemma_pviews_ext(xs: Seq<(Value, Value)>)
    ensures
        pviews(xs, xs.len() as int).len() == xs.len(),
        forall|i: int| 0 <= i < xs.len() ==> #[trigger] pviews(xs, xs.len() as int)[i] == (vview(xs[i].0), vview(xs[i].1)),
{
    lemma_pviews_len(xs, xs.len() as int);
    assert forall|i: int| 0 <= i < xs.len() implies #[trigger] pviews(xs, xs.len() as int)[i] == (vview(xs[i].0), vview(xs[i].1)) by {
        lemma_pviews_at(xs, i);
    }
}

/// The index of the first entry whose key is the string `key`, or the length.
fn key_index_exec(entries: &Vec<(Value, Value)>, key: &str) -> (r: usize)
    ensures
        r == key_index(pviews(entries@, entries@.len() as int), key@, 0),
{
    let ghost ev = pviews(entries@, entries@.len() as int);
    proof {
        lemma_pviews_ext(entries@);
    }
    let mut i: usize = 0;
    while i < entries.len()
        invariant
            i <= entries.len(),
            ev == pviews(entries@, entries@.len() as int),
            ev.len() == entries@.len(),
            forall|j: int| 0 <= j < entries@.len() ==> #[trigger] ev[j] == (vview(entries@[j].0), vview(entries@[j].1)),
            key_index(ev, key@, i as int) == key_index(ev, key@, 0),
        decreases entries.len() - i,
    {
        let hit = match &entries[i].0 {
            Value::Text(s) => str_eq(s.as_str(), key),
            _ => false,
        };
        proof {
            assert(ev[i as int].0 == vview(entries@[i as int].0));
        }
        if hit {
            return i;
        }
        i += 1;
    }
    i
}

impl Mapping {
    /// Sets `key` to `value` (see [`set_entry`]).
    pub fn insert(&mut self, key: &str, value: Value)
        ensures
            final(self)@ == set_entry(old(self)@, key@, vview(value)),
    {
        let ghost before = self@;
        let ghost vv = vview(value);
        proof {
            lemma_pviews_ext(self.entries@);
        }
        let k = key_index_exec(&self.entries, key);
        if k < self.entries.len() {
            let (kv, _) = self.entries.remove(k);
            self.entries.insert(k, (kv, value));
            proof {
                lemma_pviews_ext(self.entries@);
                assert(self@ =~= before.update(k as int, (before[k as int].0, vv)));
            }
        } else {
            self.entries.push((Value::Text(key.to_string()), value));
            proof {
                lemma_pviews_ext(self.entries@);
                assert(self@ =~= before.push((ValueView::Str(key@), vv)));
            }
        }
    }

    /// Removes the first entry whose key is `key`, returning its value.
    pub fn remove(&mut self, key: &str) -> (r: Option<Value>)
        ensures
            final(self)@ == remove_entry(old(self)@, key@),
            match r {
                Some(v) => lookup(old(self)@, key@) == Some(vview(v)),
                None => lookup(old(self)@, key@) is None,
            },
    {
        let ghost before = self@;
        proof {
            lemma_pviews_ext(self.entries@);
            lemma_key_index_bounds(before, key@, 0);
            lemma_lookup_key_index(before, key@, 0);
            assert(before.subrange(0, before.len() as int) =~= before);
        }
        let k = key_index_exec(&self.entries, key);
        if k < self.entries.len() {
            let (_, v) = self.entries.remove(k);
            proof {
                lemma_pviews_ext(self.entries@);
                assert(self@ =~= before.remove(k as int));
            }
            Some(v)
        } else {
            None
        }
    }
}

/// `lookup` finds the entry `key_index` finds.
pub proof fn lemma_lookup_key_index(entries: Seq<(ValueView, ValueView)>, key: Seq<char>, i: int)
    requires
        0 <= i <= entries.len(),
    ensures
        lookup(entries.subrange(i, entries.len() as int), key) == (if key_index(entries, key, i) < entries.len() {
            Some(entries[key_index(entries, key, i)].1)
        } else {
            None::<ValueView>
        }),
    decreases entries.len() - i,
{
    let rest = entries.subrange(i, entries.len() as int);
    if i < entries.len() {
        assert(rest[0] == entries[i]);
        assert(rest.drop_first() =~= entries.subrange(i + 1, entries.len() as int));
        if entries[i].0 != ValueView::Str(key) {
            lemma_lookup_key_index(entries, key, i + 1);
        }
    } else {
        assert(rest.len() == 0);
    }
}


impl Mapping {
    /// A copy of the mapping.
    pub fn deep_clone(&self) -> (r: Mapping)
        ensures
            r@ == self@,
    {
        let mut out: Vec<(Value, Value)> = Vec::new();
        let mut i: usize = 0;
        while i < self.entries.len()
            invariant
                i <= self.entries.len(),
                pviews(out@, out@.len() as int) == pviews(self.entries@, i as int),
                out@.len() == i,
            decreases self.entries.len() - i,
        {
            let k = self.entries[i].0.deep_clone();
            let v = self.entries[i].1.deep_clone();
            proof {
                lemma_pviews_push(out@, (k, v));
            }
            out.push((k, v));
            i += 1;
        }
        Mapping { entries: out }
    }
}

} // verus!
