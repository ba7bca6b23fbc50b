//! Writing YAML values back as block-style text, for frontmatter.
//!
//! Mappings become `key: value` lines, sequences `- item` lines, nested
//! two spaces deeper. A string is written plain when it cannot be read as
//! anything else, otherwise in double quotes with `\`, `"`, newline,
//! carriage return and tab escaped. Empty collections are written `{}` and
//! `[]`.
use vstd::prelude::*;
use crate::text::{chars_of, extend_all, is_digit, is_ws, lower_all};
use crate::yaml::{Mapping, Value, ValueView};
use crate::yaml_scalar::plain_value;

verus! {

broadcast use vstd::string::group_string_axioms;

/// A character that starts YAML syntax when it leads a plain scalar.
pub open spec fn is_indicator(c: char) -> bool {
    c == '-' || c == '?' || c == ':' || c == ',' || c == '[' || c == ']' || c == '{' || c == '}' || c == '#'
        || c == '&' || c == '*' || c == '!' || c == '|' || c == '>' || c == '\'' || c == '"' || c == '%'
        || c == '@' || c == '`'
}

/// Whether `a` is directly followed by `b` somewhere in `s`.
pub open spec fn has_pair(s: Seq<char>, a: char, b: char) -> bool {
    exists|i: int| 0 <= i && i + 1 < s.len() && #[trigger] s[i] == a && s[i + 1] == b
}

/// Words a plain scalar would be read as null or a boolean.
pub open spec fn reserved_word(s: Seq<char>) -> bool {
    let l = lower_all(s);
    l == "null"@ || l == "true"@ || l == "false"@ || l == "yes"@ || l == "no"@ || l == "on"@ || l == "off"@ || l == "~"@
}

/// Characters a plain scalar may not hold anywhere: quotes, flow brackets
/// and line or tab breaks.
pub open spec fn breaks_plain(c: char) -> bool {
    c == '"' || c == '\'' || c == '[' || c == ']' || c == '{' || c == '}' || c == '\n' || c == '\r' || c == '\t'
}

/// Text that stays one token on a `key: value` line: no surrounding
/// whitespace, none of [`breaks_plain`], no `: `, no ` #`, no final `:`.
pub open spec fn plain_safe(s: Seq<char>) -> bool {
    &&& s.len() > 0
    &&& !is_ws(s[0]) && !is_ws(s.last())
    &&& forall|i: int| 0 <= i < s.len() ==> !breaks_plain(#[trigger] s[i])
    &&& !has_pair(s, ':', ' ') && !has_pair(s, ' ', '#') && s.last() != ':'
}

/// Whether a string can be written without quotes and read back as the
/// same string.
pub open spec fn plain_ok(s: Seq<char>) -> bool {
    &&& plain_safe(s)
    &&& !is_indicator(s[0]) && !is_digit(s[0])
    &&& !(s.len() > 1 && (s[0] == '+' || s[0] == '.') && is_digit(s[1]))
    &&& !reserved_word(s)
    &&& plain_value(s) == ValueView::Str(s)
}

/// A character inside double quotes.
pub open spec fn escape_char(c: char) -> Seq<char> {
    if c == '"' {
        seq!['\\', '"']
    } else if c == '\\' {
        seq!['\\', '\\']
    } else if c == '\n' {
        seq!['\\', 'n']
    } else if c == '\r' {
        seq!['\\', 'r']
    } else if c == '\t' {
        seq!['\\', 't']
    } else {
        seq![c]
    }
}

/// Every character escaped.
pub open spec fn escape_all(s: Seq<char>) -> Seq<char>
    decreases s.len(),
{
    if s.len() == 0 {
        seq![]
    } else {
        escape_all(s.drop_last()) + escape_char(s.last())
    }
}

/// A string as a scalar: plain when it may be, else double-quoted.
pub open spec fn scalar_text(s: Seq<char>) -> Seq<char> {
    if plain_ok(s) {
        s
    } else {
        seq!['"'] + escape_all(s) + seq!['"']
    }
}

/// An integer in decimal.
pub open spec fn int_text(i: int) -> Seq<char> {
    if i < 0 {
        seq!['-'] + crate::text::decimal((-i) as nat)
    } else {
        crate::text::decimal(i as nat)
    }
}

/// The one-line form of a scalar or an empty collection; `None` for a
/// non-empty collection.
pub open spec fn inline_value(v: Value) -> Option<Seq<char>> {
    match v {
        Value::Null => Some("null"@),
        Value::Bool(b) => Some(if b { "true"@ } else { "false"@ }),
        Value::Int(i) => Some(int_text(i as int)),
        Value::Float(s) => Some(s@),
        Value::Text(s) => Some(scalar_text(s@)),
        Value::Sequence(xs) => if xs@.len() == 0 {
            Some("[]"@)
        } else {
            None
        },
        Value::Mapping(m) => if m.entries@.len() == 0 {
            Some("{}"@)
        } else {
            None
        },
    }
}

/// A key as text.
pub open spec fn key_text(k: Value) -> Seq<char> {
    match inline_value(k) {
        Some(t) => t,
        None => "null"@,
    }
}

/// An entry `key: value` on a line starting with `lead`; a non-empty
/// collection goes on the following lines, indented by `pad` plus two
/// spaces.
pub open spec fn emit_entry(k: Value, v: Value, lead: Seq<char>, pad: Seq<char>) -> Seq<char>
    decreases v, 1int,
{
    match inline_value(v) {
        Some(t) => lead + key_text(k) + ": "@ + t + "\n"@,
        None => lead + key_text(k) + ":\n"@ + emit_block(v, pad + "  "@),
    }
}

/// A non-empty collection as lines indented by `pad`.
pub open spec fn emit_block(v: Value, pad: Seq<char>) -> Seq<char>
    decreases v, 0int,
{
    match v {
        Value::Mapping(m) => emit_range(m.entries@, pad, 0, m.entries@.len() as int),
        Value::Sequence(xs) => emit_items(xs@, pad, xs@.len() as int),
        _ => seq![],
    }
}

/// Entries `lo..n` of a mapping, each on lines indented by `pad`.
pub open spec fn emit_range(es: Seq<(Value, Value)>, pad: Seq<char>, lo: int, n: int) -> Seq<char>
    decreases es, n,
{
    if n <= lo || n > es.len() || lo < 0 {
        seq![]
    } else {
        emit_range(es, pad, lo, n - 1) + emit_entry(es[n - 1].0, es[n - 1].1, pad, pad)
    }
}

/// The first `n` items of a sequence as `- item` lines indented by `pad`.
pub open spec fn emit_items(xs: Seq<Value>, pad: Seq<char>, n: int) -> Seq<char>
    decreases xs, n,
{
    if n <= 0 || n > xs.len() {
        seq![]
    } else {
        emit_items(xs, pad, n - 1) + emit_item(xs[n - 1], pad)
    }
}

/// One sequence item: a mapping starts on the dash line with its first
/// entry, the others follow two spaces deeper.
pub open spec fn emit_item(x: Value, pad: Seq<char>) -> Seq<char>
    decreases x, 1int,
{
    match inline_value(x) {
        Some(t) => pad + "- "@ + t + "\n"@,
        None => match x {
            Value::Mapping(m) => emit_entry(m.entries@[0].0, m.entries@[0].1, pad + "- "@, pad + "  "@) + emit_range(
                m.entries@,
                pad + "  "@,
                1,
                m.entries@.len() as int,
            ),
            Value::Sequence(ys) => pad + "-\n"@ + emit_items(ys@, pad + "  "@, ys@.len() as int),
            _ => seq![],
        },
    }
}

/// The YAML text of a mapping's entries.
pub open spec fn mapping_text(m: Mapping) -> Seq<char> {
    emit_range(m.entries@, seq![], 0, m.entries@.len() as int)
}

fn push_str(out: &mut Vec<char>, s: &str)
    ensures
        final(out)@ == old(out)@ + s@,
{
    let v = chars_of(s);
    extend_all(out, &v);
}

fn is_indicator_exec(c: char) -> (r: bool)
    ensures
        r == is_indicator(c),
{
    c == '-' || c == '?' || c == ':' || c == ',' || c == '[' || c == ']' || c == '{' || c == '}' || c == '#'
        || c == '&' || c == '*' || c == '!' || c == '|' || c == '>' || c == '\'' || c == '"' || c == '%'
        || c == '@' || c == '`'
}

fn has_pair_exec(s: &[char], a: char, b: char) -> (r: bool)
    ensures
        r == has_pair(s@, a, b),
{
    let mut i: usize = 0;
    while i < s.len() && i + 1 < s.len()
        invariant
            i <= s.len(),
            forall|j: int| 0 <= j < i && j + 1 < s.len() ==> !(#[trigger] s@[j] == a && s@[j + 1] == b),
        decreases s.len() - i,
    {
        if s[i] == a && s[i + 1] == b {
            return true;
        }
        i += 1;
    }
    false
}

fn lower_eq(s: &[char], w: &str) -> (r: bool)
    ensures
        r == (lower_all(s@) == w@),
{
    let mut l: Vec<char> = Vec::new();
    let mut i: usize = 0;
    while i < s.len()
        invariant
            i <= s.len(),
            l@ == lower_all(s@.take(i as int)),
        decreases s.len() - i,
    {
        l.push(crate::text::to_ascii_lower(s[i]));
        proof {
            assert(lower_all(s@.take(i + 1)) =~= lower_all(s@.take(i as int)).push(crate::text::ascii_lower(s@[i as int])));
        }
        i += 1;
    }
    proof {
        assert(s@.take(i as int) =~= s@);
    }
    crate::paths::same_chars(&l, &chars_of(w))
}

/// Whether a string may be written plain.
fn plain_ok_exec(s: &[char]) -> (r: bool)
    ensures
        r == plain_ok(s@),
{
    if s.len() == 0 {
        return false;
    }
    let first = s[0];
    let last = s[s.len() - 1];
    if crate::text::is_whitespace(first) || crate::text::is_whitespace(last) {
        return false;
    }
    if is_indicator_exec(first) || ('0' <= first && first <= '9') {
        return false;
    }
    if s.len() > 1 && (first == '+' || first == '.') && '0' <= s[1] && s[1] <= '9' {
        return false;
    }
    let mut k: usize = 0;
    while k < s.len()
        invariant
            k <= s.len(),
            forall|j: int| 0 <= j < k ==> !breaks_plain(#[trigger] s@[j]),
        decreases s.len() - k,
    {
        let c = s[k];
        if c == '"' || c == '\'' || c == '[' || c == ']' || c == '{' || c == '}' || c == '\n' || c == '\r' || c == '\t' {
            return false;
        }
        k += 1;
    }
    if has_pair_exec(s, ':', ' ') || has_pair_exec(s, ' ', '#') || last == ':' {
        return false;
    }
    let reserved = lower_eq(s, "null") || lower_eq(s, "true") || lower_eq(s, "false") || lower_eq(s, "yes")
        || lower_eq(s, "no") || lower_eq(s, "on") || lower_eq(s, "off") || lower_eq(s, "~");
    if reserved {
        return false;
    }
    match crate::yaml_scalar::interpret_plain(s) {
        Value::Text(_) => true,
        _ => false,
    }
}

/// Appends a string as a scalar.
fn push_scalar(out: &mut Vec<char>, s: &str)
    ensures
        final(out)@ == old(out)@ + scalar_text(s@),
{
    let v = chars_of(s);
    if plain_ok_exec(&v) {
        extend_all(out, &v);
        return;
    }
    let ghost start = out@;
    out.push('"');
    let mut i: usize = 0;
    while i < v.len()
        invariant
            i <= v.len(),
            out@ == start + seq!['"'] + escape_all(v@.take(i as int)),
        decreases v.len() - i,
    {
        let c = v[i];
        if c == '"' {
            out.push('\\');
            out.push('"');
        } else if c == '\\' {
            out.push('\\');
            out.push('\\');
        } else if c == '\n' {
            out.push('\\');
            out.push('n');
        } else if c == '\r' {
            out.push('\\');
            out.push('r');
        } else if c == '\t' {
            out.push('\\');
            out.push('t');
        } else {
            out.push(c);
        }
        proof {
            assert(v@.take(i + 1).drop_last() =~= v@.take(i as int));
            assert(out@ =~= start + seq!['"'] + escape_all(v@.take(i + 1)));
        }
        i += 1;
    }
    out.push('"');
    proof {
        assert(v@.take(i as int) =~= v@);
    }
}

/// Appends an integer in decimal.
fn push_int(out: &mut Vec<char>, i: i64)
    ensures
        final(out)@ == old(out)@ + int_text(i as int),
{
    if i < 0 {
        out.push('-');
        let m: u64 = if i == i64::MIN { 9223372036854775808u64 } else { (-i) as u64 };
        extend_all(out, &crate::text::decimal_exec(m));
    } else {
        extend_all(out, &crate::text::decimal_exec(i as u64));
    }
}

/// Appends the one-line form of a value, when it has one.
fn push_inline(out: &mut Vec<char>, v: &Value) -> (r: bool)
    ensures
        r == inline_value(*v) is Some,
        r ==> final(out)@ == old(out)@ + inline_value(*v)->0,
        !r ==> final(out)@ == old(out)@,
{
    match v {
        Value::Null => {
            push_str(out, "null");
            true
        },
        Value::Bool(b) => {
            if *b {
                push_str(out, "true");
            } else {
                push_str(out, "false");
            }
            true
        },
        Value::Int(i) => {
            push_int(out, *i);
            true
        },
        Value::Float(s) => {
            push_str(out, s.as_str());
            true
        },
        Value::Text(s) => {
            push_scalar(out, s.as_str());
            true
        },
        Value::Sequence(xs) => {
            if xs.len() == 0 {
                push_str(out, "[]");
                true
            } else {
                false
            }
        },
        Value::Mapping(m) => {
            if m.entries.len() == 0 {
                push_str(out, "{}");
                true
            } else {
                false
            }
        },
    }
}

/// Appends a key.
fn push_key(out: &mut Vec<char>, k: &Value)
    ensures
        final(out)@ == old(out)@ + key_text(*k),
{
    if !push_inline(out, k) {
        push_str(out, "null");
    }
}

/// Appends [`emit_entry`].
fn push_entry(out: &mut Vec<char>, k: &Value, v: &Value, lead: &Vec<char>, pad: &Vec<char>)
    ensures
        final(out)@ == old(out)@ + emit_entry(*k, *v, lead@, pad@),
    decreases *v, 1int,
{
    extend_all(out, lead);
    push_key(out, k);
    let ghost mid = out@;
    let mut tail: Vec<char> = Vec::new();
    if push_inline(&mut tail, v) {
        push_str(out, ": ");
        extend_all(out, &tail);
        push_str(out, "\n");
        proof {
            assert(out@ =~= old(out)@ + emit_entry(*k, *v, lead@, pad@));
        }
    } else {
        push_str(out, ":\n");
        let mut p2: Vec<char> = Vec::new();
        extend_all(&mut p2, pad);
        push_str(&mut p2, "  ");
        push_block(out, v, &p2);
        proof {
            assert(out@ =~= old(out)@ + emit_entry(*k, *v, lead@, pad@));
        }
    }
}

/// Appends [`emit_block`].
fn push_block(out: &mut Vec<char>, v: &Value, pad: &Vec<char>)
    ensures
        final(out)@ == old(out)@ + emit_block(*v, pad@),
    decreases *v, 0int,
{
    match v {
        Value::Mapping(m) => {
            let ghost start = out@;
            let mut i: usize = 0;
            while i < m.entries.len()
                invariant
                    i <= m.entries.len(),
                    *v == Value::Mapping(*m),
                    out@ == start + emit_range(m.entries@, pad@, 0, i as int),
                decreases m.entries.len() - i,
            {
                proof {
                    assert(decreases_to!(*v => (*v)->Mapping_0));
                    assert((*v)->Mapping_0 == *m);
                    assert(decreases_to!(m => m.entries));
                    assert(decreases_to!(m.entries => m.entries@));
                    assert(decreases_to!(m.entries@ => m.entries@[i as int]));
                    assert(decreases_to!(m.entries@[i as int] => m.entries@[i as int].1));
                }
                push_entry(out, &m.entries[i].0, &m.entries[i].1, pad, pad);
                proof {
                    assert(out@ =~= start + emit_range(m.entries@, pad@, 0, i + 1));
                }
                i += 1;
            }
        },
        Value::Sequence(xs) => {
            let ghost start = out@;
            let mut i: usize = 0;
            while i < xs.len()
                invariant
                    i <= xs.len(),
                    *v == Value::Sequence(*xs),
                    out@ == start + emit_items(xs@, pad@, i as int),
                decreases xs.len() - i,
            {
                proof {
                    assert(decreases_to!(*v => (*v)->Sequence_0));
                    assert((*v)->Sequence_0 == *xs);
                    assert(decreases_to!(xs => xs@));
                    assert(decreases_to!(xs@ => xs@[i as int]));
                }
                push_item(out, &xs[i], pad);
                proof {
                    assert(out@ =~= start + emit_items(xs@, pad@, i + 1));
                }
                i += 1;
            }
        },
        _ => {
            proof {
                assert(out@ =~= old(out)@ + emit_block(*v, pad@));
            }
        },
    }
}

/// Appends [`emit_item`].
fn push_item(out: &mut Vec<char>, x: &Value, pad: &Vec<char>)
    ensures
        final(out)@ == old(out)@ + emit_item(*x, pad@),
    decreases *x, 1int,
{
    let mut tail: Vec<char> = Vec::new();
    if push_inline(&mut tail, x) {
        extend_all(out, pad);
        push_str(out, "- ");
        extend_all(out, &tail);
        push_str(out, "\n");
        proof {
            assert(out@ =~= old(out)@ + emit_item(*x, pad@));
        }
        return;
    }
    let mut p2: Vec<char> = Vec::new();
    extend_all(&mut p2, pad);
    push_str(&mut p2, "  ");
    match x {
        Value::Mapping(m) => {
            let mut lead: Vec<char> = Vec::new();
            extend_all(&mut lead, pad);
            push_str(&mut lead, "- ");
            proof {
                assert(decreases_to!(*x => (*x)->Mapping_0));
                assert((*x)->Mapping_0 == *m);
                assert(decreases_to!(m => m.entries));
                assert(decreases_to!(m.entries => m.entries@));
                assert(decreases_to!(m.entries@ => m.entries@[0]));
                assert(decreases_to!(m.entries@[0] => m.entries@[0].1));
            }
            push_entry(out, &m.entries[0].0, &m.entries[0].1, &lead, &p2);
            let ghost start = out@;
            let mut i: usize = 1;
            while i < m.entries.len()
                invariant
                    1 <= i <= m.entries.len(),
                    *x == Value::Mapping(*m),
                    out@ == start + emit_range(m.entries@, p2@, 1, i as int),
                decreases m.entries.len() - i,
            {
                proof {
                    assert(decreases_to!(*x => (*x)->Mapping_0));
                    assert((*x)->Mapping_0 == *m);
                    assert(decreases_to!(m => m.entries));
                    assert(decreases_to!(m.entries => m.entries@));
                    assert(decreases_to!(m.entries@ => m.entries@[i as int]));
                    assert(decreases_to!(m.entries@[i as int] => m.entries@[i as int].1));
                }
                push_entry(out, &m.entries[i].0, &m.entries[i].1, &p2, &p2);
                proof {
                    assert(out@ =~= start + emit_range(m.entries@, p2@, 1, i + 1));
                }
                i += 1;
            }
            proof {
                assert(out@ =~= old(out)@ + emit_item(*x, pad@));
            }
        },
        Value::Sequence(ys) => {
            extend_all(out, pad);
            push_str(out, "-\n");
            proof {
                assert(decreases_to!(*x => (*x)->Sequence_0));
                assert((*x)->Sequence_0 == *ys);
            }
            push_block(out, x, &p2);
            proof {
                assert(out@ =~= old(out)@ + emit_item(*x, pad@));
            }
        },
        _ => {},
    }
}

/// The YAML text of a mapping (see [`mapping_text`]).
pub fn mapping_to_text(m: &Mapping) -> (r: Vec<char>)
    ensures
        r@ == mapping_text(*m),
{
    let mut out: Vec<char> = Vec::new();
    let pad: Vec<char> = Vec::new();
    let mut i: usize = 0;
    while i < m.entries.len()
        invariant
            i <= m.entries.len(),
            pad@ == Seq::<char>::empty(),
            out@ == emit_range(m.entries@, pad@, 0, i as int),
        decreases m.entries.len() - i,
    {
        push_entry(&mut out, &m.entries[i].0, &m.entries[i].1, &pad, &pad);
        proof {
            assert(out@ =~= emit_range(m.entries@, pad@, 0, i + 1));
        }
        i += 1;
    }
    out
}

} // verus!
