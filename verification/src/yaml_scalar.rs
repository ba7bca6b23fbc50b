//! The line- and scalar-level pieces of the YAML reader: indentation, the
//! `key: value` split, comments, quoted scalars, and the typing of plain
//! scalars.
use vstd::prelude::*;
use crate::date::digits_value;
use crate::text::{
    chars_of, extend_range, is_whitespace, is_ws, run_len, run_len_exec, skip_ws, skip_ws_exec,
    string_of, trim, trim_bounds, trim_end, trim_start,
};
use crate::yaml::{Value, ValueView};

verus! {

broadcast use vstd::string::group_string_axioms;

/// Leading-space count, or `None` when a tab comes before the first
/// non-space character.
pub open spec fn indent_of(line: Seq<char>) -> Option<int> {
    let n = run_len(line, 0, ' ');
    if n < line.len() && line[n] == '\t' {
        None
    } else {
        Some(n)
    }
}

/// `indent_of` in exec form.
pub fn indent_exec(line: &[char]) -> (r: Option<usize>)
    ensures
        match r {
            Some(n) => indent_of(line@) == Some(n as int) && n <= line.len(),
            None => indent_of(line@) is None,
        },
{
    let n = run_len_exec(line, 0, ' ');
    if n < line.len() && line[n] == '\t' {
        None
    } else {
        Some(n)
    }
}

/// A blank line or a comment line.
pub open spec fn blank_or_comment(line: Seq<char>) -> bool {
    let t = trim_start(line);
    t.len() == 0 || t[0] == '#'
}

/// `blank_or_comment` in exec form.
pub fn blank_or_comment_exec(line: &[char]) -> (r: bool)
    ensures
        r == blank_or_comment(line@),
{
    let a = skip_ws_exec(line, 0, line.len());
    proof {
        assert(trim_start(line@) =~= line@.subrange(a as int, line@.len() as int));
    }
    a == line.len() || line[a] == '#'
}

/// The value part after a `key:`: absent when empty or a comment.
pub open spec fn rest_value(r: Seq<char>) -> Option<Seq<char>> {
    if r.len() == 0 || r[0] == '#' {
        None
    } else {
        Some(r)
    }
}

/// The scan that finds a line's `key: value` split: the first top-level `:`
/// (outside quotes and flow brackets) followed by a space, a tab or the end,
/// unless a `#` after whitespace starts a comment first.
pub open spec fn kv_scan(s: Seq<char>, i: int, quote: Option<char>, depth: nat) -> Option<(Seq<char>, Option<Seq<char>>)>
    decreases s.len() - i,
{
    if i < 0 || i >= s.len() {
        None
    } else {
        let c = s[i];
        match quote {
            Some(q) => if q == '"' && c == '\\' {
                if i + 2 > s.len() {
                    None
                } else {
                    kv_scan(s, i + 2, quote, depth)
                }
            } else if c == q {
                if q == '\'' && i + 1 < s.len() && s[i + 1] == '\'' {
                    kv_scan(s, i + 2, quote, depth)
                } else {
                    kv_scan(s, i + 1, None, depth)
                }
            } else {
                kv_scan(s, i + 1, quote, depth)
            },
            None => if c == '\'' || c == '"' {
                kv_scan(s, i + 1, Some(c), depth)
            } else if c == '[' || c == '{' {
                kv_scan(s, i + 1, None, depth + 1)
            } else if c == ']' || c == '}' {
                kv_scan(s, i + 1, None, if depth > 0 { (depth - 1) as nat } else { 0 })
            } else if c == '#' && depth == 0 && i > 0 && (s[i - 1] == ' ' || s[i - 1] == '\t') {
                None
            } else if c == ':' && depth == 0 && (i + 1 >= s.len() || s[i + 1] == ' ' || s[i + 1] == '\t') {
                Some((trim(s.subrange(0, i)), rest_value(trim(s.subrange(i + 1, s.len() as int)))))
            } else {
                kv_scan(s, i + 1, None, depth)
            },
        }
    }
}

/// Splits a (left-trimmed) line into its key and optional value.
pub open spec fn split_kv(s: Seq<char>) -> Option<(Seq<char>, Option<Seq<char>>)> {
    kv_scan(s, 0, None, 0)
}

fn trimmed_range(s: &[char], lo: usize, hi: usize) -> (r: Vec<char>)
    requires
        lo <= hi <= s.len(),
    ensures
        r@ == trim(s@.subrange(lo as int, hi as int)),
{
    let (a, b) = trim_bounds(s, lo, hi);
    let mut out: Vec<char> = Vec::new();
    extend_range(&mut out, s, a, b);
    out
}

/// `split_kv` in exec form.
pub fn split_key_value(s: &[char]) -> (r: Option<(Vec<char>, Option<Vec<char>>)>)
    ensures
        match r {
            Some((k, v)) => split_kv(s@) == Some((k@, match v {
                Some(x) => Some(x@),
                None => None,
            })),
            None => split_kv(s@) is None,
        },
        r matches Some((_, Some(x))) ==> x@.len() > 0,
{
    let mut i: usize = 0;
    let mut quote: Option<char> = None;
    let mut depth: usize = 0;
    while i < s.len()
        invariant
            depth <= i,
            kv_scan(s@, i as int, quote, depth as nat) == split_kv(s@),
        decreases s.len() - i,
    {
        let c = s[i];
        match quote {
            Some(q) => {
                if q == '"' && c == '\\' {
                    if i + 1 >= s.len() {
                        return None;
                    }
                    i += 2;
                } else if c == q {
                    if q == '\'' && i + 1 < s.len() && s[i + 1] == '\'' {
                        i += 2;
                    } else {
                        quote = None;
                        i += 1;
                    }
                } else {
                    i += 1;
                }
            },
            None => {
                if c == '\'' || c == '"' {
                    quote = Some(c);
                    i += 1;
                } else if c == '[' || c == '{' {
                    depth += 1;
                    i += 1;
                } else if c == ']' || c == '}' {
                    if depth > 0 {
                        depth -= 1;
                    }
                    i += 1;
                } else if c == '#' && depth == 0 && i > 0 && (s[i - 1] == ' ' || s[i - 1] == '\t') {
                    return None;
                } else if c == ':' && depth == 0 && (i + 1 >= s.len() || s[i + 1] == ' ' || s[i + 1]
                    == '\t') {
                    let key = trimmed_range(s, 0, i);
                    let rest = trimmed_range(s, i + 1, s.len());
                    if rest.len() == 0 || rest[0] == '#' {
                        return Some((key, None));
                    } else {
                        return Some((key, Some(rest)));
                    }
                } else {
                    i += 1;
                }
            },
        }
    }
    None
}

/// The index of a trailing ` #` comment in a plain scalar, or the length.
pub open spec fn comment_at(s: Seq<char>, i: int) -> int
    decreases s.len() - i,
{
    if i < 0 || i >= s.len() {
        s.len() as int
    } else if i > 0 && s[i] == '#' && (s[i - 1] == ' ' || s[i - 1] == '\t') {
        i
    } else {
        comment_at(s, i + 1)
    }
}

/// A plain scalar without its trailing comment and trailing whitespace.
pub open spec fn strip_comment(s: Seq<char>) -> Seq<char> {
    trim_end(s.subrange(0, comment_at(s, 0)))
}

fn strip_comment_exec(s: &[char]) -> (r: Vec<char>)
    ensures
        r@ == strip_comment(s@),
{
    let mut i: usize = 0;
    while i < s.len() && !(i > 0 && s[i] == '#' && (s[i - 1] == ' ' || s[i - 1] == '\t'))
        invariant
            i <= s.len(),
            comment_at(s@, i as int) == comment_at(s@, 0),
        decreases s.len() - i,
    {
        i += 1;
    }
    let b = crate::text::skip_ws_back_exec(s, 0, i);
    let mut out: Vec<char> = Vec::new();
    extend_range(&mut out, s, 0, b);
    proof {
        let p = s@.subrange(0, i as int);
        assert(p.subrange(0, b as int) =~= s@.subrange(0, b as int));
        crate::text::lemma_skip_ws_back_shift(s@, 0, i as int, i as int);
        assert(s@.subrange(0, i as int).subrange(0, i as int) =~= p);
    }
    out
}

/// An ASCII decimal digit.
pub open spec fn is_dec(c: char) -> bool {
    '0' <= c && c <= '9'
}

/// `s` without one leading sign.
pub open spec fn unsigned(s: Seq<char>) -> Seq<char> {
    if s.len() > 0 && (s[0] == '+' || s[0] == '-') {
        s.drop_first()
    } else {
        s
    }
}

/// `[-+]?(0|[1-9][0-9]*)`: a decimal integer with no redundant leading zero.
pub open spec fn canonical_int(s: Seq<char>) -> bool {
    let d = unsigned(s);
    &&& d.len() > 0
    &&& forall|k: int| 0 <= k < d.len() ==> is_dec(#[trigger] d[k])
    &&& (d.len() == 1 || d[0] != '0')
}

/// The integer a canonical integer text denotes.
pub open spec fn int_value(s: Seq<char>) -> int {
    let d = unsigned(s);
    let m = digits_value(d, 0, d.len() as int);
    if s.len() > 0 && s[0] == '-' {
        -m
    } else {
        m
    }
}

/// The length of the run of decimal digits at `i`.
pub open spec fn digit_run(s: Seq<char>, i: int) -> int
    decreases s.len() - i,
{
    if 0 <= i < s.len() && is_dec(s[i]) {
        1 + digit_run(s, i + 1)
    } else {
        0
    }
}

/// A decimal float as `f64::from_str` reads one with a `.`: digits, `.`,
/// digits (at least one digit in all), then optionally `e`/`E`, a sign and
/// at least one digit; an optional sign in front.
pub open spec fn float_syntax(s: Seq<char>) -> bool {
    let b = unsigned(s);
    let a = digit_run(b, 0);
    a < b.len() && b[a] == '.' && {
        let f = digit_run(b, a + 1);
        let e = a + 1 + f;
        &&& a + f >= 1
        &&& (e == b.len() || ((b[e] == 'e' || b[e] == 'E') && {
            let t = if e + 1 < b.len() && (b[e + 1] == '+' || b[e + 1] == '-') {
                e + 2
            } else {
                e + 1
            };
            let g = digit_run(b, t);
            g >= 1 && t + g == b.len()
        }))
    }
}

/// The YAML names of null, booleans, infinities and NaN.
pub open spec fn special_plain(s: Seq<char>) -> Option<ValueView> {
    if s == ""@ || s == "~"@ || s == "null"@ || s == "Null"@ || s == "NULL"@ {
        Some(ValueView::Null)
    } else if s == "true"@ || s == "True"@ || s == "TRUE"@ {
        Some(ValueView::Bool(true))
    } else if s == "false"@ || s == "False"@ || s == "FALSE"@ {
        Some(ValueView::Bool(false))
    } else if s == ".inf"@ || s == ".Inf"@ || s == ".INF"@ || s == "+.inf"@ || s == "-.inf"@ || s
        == "-.Inf"@ || s == "-.INF"@ || s == ".nan"@ || s == ".NaN"@ || s == ".NAN"@ {
        Some(ValueView::Float(s))
    } else {
        None
    }
}

/// How a plain (unquoted) scalar is typed: null, bool, special floats, an
/// `i64` with no redundant leading zero, a float with a `.` and a digit, or
/// else a string.
pub open spec fn plain_value(s: Seq<char>) -> ValueView {
    match special_plain(s) {
        Some(v) => v,
        None => if canonical_int(s) && -0x8000_0000_0000_0000 <= int_value(s) <= 0x7fff_ffff_ffff_ffff {
            ValueView::Int(int_value(s))
        } else if s.contains('.') && (exists|k: int| 0 <= k < s.len() && is_dec(#[trigger] s[k]))
            && float_syntax(s) {
            ValueView::Float(s)
        } else {
            ValueView::Str(s)
        },
    }
}

fn text_is(v: &[char], w: &str) -> (r: bool)
    ensures
        r == (v@ == w@),
{
    let s = string_of(v);
    crate::text::str_eq(s.as_str(), w)
}

fn special_plain_exec(s: &[char]) -> (r: Option<Value>)
    ensures
        match r {
            Some(v) => special_plain(s@) == Some(crate::yaml::vview(v)),
            None => special_plain(s@) is None,
        },
{
    if text_is(s, "") || text_is(s, "~") || text_is(s, "null") || text_is(s, "Null") || text_is(s, "NULL") {
        Some(Value::Null)
    } else if text_is(s, "true") || text_is(s, "True") || text_is(s, "TRUE") {
        Some(Value::Bool(true))
    } else if text_is(s, "false") || text_is(s, "False") || text_is(s, "FALSE") {
        Some(Value::Bool(false))
    } else if text_is(s, ".inf") || text_is(s, ".Inf") || text_is(s, ".INF") || text_is(s, "+.inf")
        || text_is(s, "-.inf") || text_is(s, "-.Inf") || text_is(s, "-.INF") || text_is(s, ".nan")
        || text_is(s, ".NaN") || text_is(s, ".NAN") {
        Some(Value::Float(string_of(s)))
    } else {
        None
    }
}

fn digit_run_exec(s: &[char], i: usize) -> (r: usize)
    requires
        i <= s.len(),
    ensures
        r == digit_run(s@, i as int),
        i + r <= s.len(),
{
    let mut k = i;
    while k < s.len() && '0' <= s[k] && s[k] <= '9'
        invariant
            i <= k <= s.len(),
            digit_run(s@, i as int) == (k - i) + digit_run(s@, k as int),
        decreases s.len() - k,
    {
        k += 1;
    }
    k - i
}

fn float_syntax_exec(s: &[char]) -> (r: bool)
    ensures
        r == float_syntax(s@),
{
    let mut b: Vec<char> = Vec::new();
    if s.len() > 0 && (s[0] == '+' || s[0] == '-') {
        extend_range(&mut b, s, 1, s.len());
        proof {
            assert(b@ =~= s@.drop_first());
        }
    } else {
        crate::text::extend_all(&mut b, s);
    }
    let a = digit_run_exec(&b, 0);
    if !(a < b.len() && b[a] == '.') {
        return false;
    }
    let f = digit_run_exec(&b, a + 1);
    let e = a + 1 + f;
    if a + f < 1 {
        return false;
    }
    if e == b.len() {
        return true;
    }
    if !(b[e] == 'e' || b[e] == 'E') {
        return false;
    }
    let t = if e + 1 < b.len() && (b[e + 1] == '+' || b[e + 1] == '-') {
        e + 2
    } else {
        e + 1
    };
    let g = digit_run_exec(&b, t);
    g >= 1 && t + g == b.len()
}

proof fn lemma_digits_value_bound(s: Seq<char>, i: int, j: int)
    requires
        0 <= i <= j <= s.len(),
        forall|k: int| i <= k < j ==> is_dec(#[trigger] s[k]),
    ensures
        0 <= digits_value(s, i, j),
    decreases j - i,
{
    if j > i {
        lemma_digits_value_bound(s, i, j - 1);
    }
}

/// The value of a run of decimal digits, or `None` once it passes `limit`.
fn digits_upto(d: &[char], limit: u64) -> (r: Option<u64>)
    requires
        limit >= 9,
        forall|k: int| 0 <= k < d.len() ==> is_dec(#[trigger] d@[k]),
    ensures
        match r {
            Some(v) => v == digits_value(d@, 0, d.len() as int) && v <= limit,
            None => digits_value(d@, 0, d.len() as int) > limit,
        },
{
    let mut v: u64 = 0;
    let mut i: usize = 0;
    while i < d.len()
        invariant
            i <= d.len(),
            forall|k: int| 0 <= k < d.len() ==> is_dec(#[trigger] d@[k]),
            limit >= 9,
            v == digits_value(d@, 0, i as int),
            v <= limit,
        decreases d.len() - i,
    {
        let dig = (d[i] as u32 - '0' as u32) as u64;
        if v > (limit - dig) / 10 {
            proof {
                assert(v * 10 + dig > limit) by (nonlinear_arith)
                    requires
                        v > (limit - dig) / 10,
                        dig <= 9,
                        dig <= limit || true,
                ;
                lemma_monotone_digits(d@, i as int + 1, d.len() as int);
            }
            return None;
        }
        proof {
            assert(v * 10 + dig <= limit) by (nonlinear_arith)
                requires
                    v <= (limit - dig) / 10,
                    dig <= 9,
            ;
        }
        v = v * 10 + dig;
        i += 1;
    }
    Some(v)
}

proof fn lemma_monotone_digits(s: Seq<char>, i: int, j: int)
    requires
        0 <= i <= j <= s.len(),
        forall|k: int| 0 <= k < s.len() ==> is_dec(#[trigger] s[k]),
    ensures
        digits_value(s, 0, i) <= digits_value(s, 0, j),
    decreases j - i,
{
    if j > i {
        lemma_monotone_digits(s, i, j - 1);
        lemma_digits_value_bound(s, 0, j - 1);
        assert(digits_value(s, 0, j) == digits_value(s, 0, j - 1) * 10 + (s[j - 1] as int - '0' as int));
    }
}

/// Types a plain scalar (see [`plain_value`]).
pub fn interpret_plain(s: &[char]) -> (r: Value)
    ensures
        crate::yaml::vview(r) == plain_value(s@),
{
    match special_plain_exec(s) {
        Some(v) => return v,
        None => {},
    }
    let neg = s.len() > 0 && s[0] == '-';
    let mut d: Vec<char> = Vec::new();
    if s.len() > 0 && (s[0] == '+' || s[0] == '-') {
        extend_range(&mut d, s, 1, s.len());
        proof {
            assert(d@ =~= s@.drop_first());
        }
    } else {
        crate::text::extend_all(&mut d, s);
    }
    let mut all = d.len() > 0;
    let mut k: usize = 0;
    while k < d.len()
        invariant
            k <= d.len(),
            all == (d.len() > 0 && forall|j: int| 0 <= j < k ==> is_dec(#[trigger] d@[j])),
        decreases d.len() - k,
    {
        if !('0' <= d[k] && d[k] <= '9') {
            all = false;
        }
        k += 1;
    }
    if all && (d.len() == 1 || d[0] != '0') {
        let limit: u64 = if neg { 0x8000_0000_0000_0000 } else { 0x7fff_ffff_ffff_ffff };
        match digits_upto(&d, limit) {
            Some(m) => {
                if neg {
                    let r: i64 = if m == 0x8000_0000_0000_0000 {
                        -0x8000_0000_0000_0000i64
                    } else {
                        -(m as i64)
                    };
                    return Value::Int(r);
                } else {
                    return Value::Int(m as i64);
                }
            },
            None => {},
        }
    }
    proof {
        assert(!(canonical_int(s@) && -0x8000_0000_0000_0000 <= int_value(s@) <= 0x7fff_ffff_ffff_ffff)) by {
            if canonical_int(s@) {
                assert(all);
                lemma_digits_value_bound(d@, 0, d.len() as int);
            }
        }
    }
    let has_dot = crate::syntax::contains_char(s, '.');
    let mut has_digit = false;
    let mut j: usize = 0;
    while j < s.len()
        invariant
            j <= s.len(),
            has_digit == exists|t: int| 0 <= t < j && is_dec(#[trigger] s@[t]),
        decreases s.len() - j,
    {
        if '0' <= s[j] && s[j] <= '9' {
            has_digit = true;
        }
        j += 1;
    }
    if has_dot && has_digit && float_syntax_exec(s) {
        Value::Float(string_of(s))
    } else {
        Value::Text(string_of(s))
    }
}

/// The message when something other than whitespace or a comment follows a
/// closing quote.
pub open spec fn tail_message(name: Seq<char>) -> Seq<char> {
    "unexpected content after closing "@ + name + " quote"@
}

/// `Err(message)` when something other than whitespace or a `#` comment
/// follows index `j`.
pub open spec fn tail_check(s: Seq<char>, j: int, name: Seq<char>) -> Option<Seq<char>> {
    let k = skip_ws(s, j, s.len() as int);
    if k >= s.len() || s[k] == '#' {
        None
    } else {
        Some(tail_message(name))
    }
}

fn tail_check_exec(s: &[char], j: usize, name: &str) -> (r: Option<String>)
    requires
        j <= s.len(),
    ensures
        match r {
            Some(m) => tail_check(s@, j as int, name@) == Some(m@),
            None => tail_check(s@, j as int, name@) is None,
        },
{
    let k = skip_ws_exec(s, j, s.len());
    if k >= s.len() || s[k] == '#' {
        None
    } else {
        let mut m: Vec<char> = chars_of("unexpected content after closing ");
        crate::text::extend_all(&mut m, &chars_of(name));
        crate::text::extend_all(&mut m, &chars_of(" quote"));
        Some(string_of(&m))
    }
}

/// Whether `c` is an ASCII hex digit.
pub open spec fn is_hex(c: char) -> bool {
    ('0' <= c && c <= '9') || ('a' <= c && c <= 'f') || ('A' <= c && c <= 'F')
}

/// The value of a hex digit.
pub open spec fn hex_digit(c: char) -> int {
    if '0' <= c && c <= '9' {
        c as int - '0' as int
    } else if 'a' <= c && c <= 'f' {
        c as int - 'a' as int + 10
    } else {
        c as int - 'A' as int + 10
    }
}

/// The value of the hex digits `h[i..j]`.
pub open spec fn hex_value(h: Seq<char>, i: int, j: int) -> int
    decreases j - i,
{
    if j <= i {
        0
    } else {
        hex_value(h, i, j - 1) * 16 + hex_digit(h[j - 1])
    }
}

/// `u32::from_str_radix(h, 16)` on four characters: an optional `+` and
/// hex digits.
pub open spec fn hex4(h: Seq<char>) -> Option<int> {
    let lo: int = if h[0] == '+' { 1 } else { 0 };
    if forall|k: int| lo <= k < 4 ==> is_hex(#[trigger] h[k]) {
        Some(hex_value(h, lo, 4))
    } else {
        None
    }
}

/// A Unicode scalar value.
pub open spec fn scalar_value(cp: int) -> bool {
    (0 <= cp < 0xD800) || (0xE000 <= cp <= 0x10FFFF)
}

/// `char::from_u32` for a scalar value.
#[verifier::external_body]
fn char_from_scalar(cp: u32) -> (c: char)
    requires
        scalar_value(cp as int),
    ensures
        c as u32 == cp,
{
    char::from_u32(cp).unwrap()
}

/// Decoding a double-quoted scalar from index `i` with `out` decoded so far.
pub open spec fn dq_scan(s: Seq<char>, i: int, out: Seq<char>) -> Result<Seq<char>, Seq<char>>
    decreases s.len() - i,
{
    if i < 0 || i >= s.len() {
        Err("unterminated double-quoted string"@)
    } else if s[i] == '"' {
        match tail_check(s, i + 1, "double-quoted"@) {
            Some(m) => Err(m),
            None => Ok(out),
        }
    } else if s[i] == '\\' {
        if i + 1 >= s.len() {
            Err("dangling escape in double-quoted string"@)
        } else {
            let e = s[i + 1];
            if e == 'n' {
                dq_scan(s, i + 2, out.push('\n'))
            } else if e == 't' {
                dq_scan(s, i + 2, out.push('\t'))
            } else if e == 'r' {
                dq_scan(s, i + 2, out.push('\r'))
            } else if e == '"' {
                dq_scan(s, i + 2, out.push('"'))
            } else if e == '\\' {
                dq_scan(s, i + 2, out.push('\\'))
            } else if e == '/' {
                dq_scan(s, i + 2, out.push('/'))
            } else if e == '0' {
                dq_scan(s, i + 2, out.push('\0'))
            } else if e == 'b' {
                dq_scan(s, i + 2, out.push('\u{0008}'))
            } else if e == 'f' {
                dq_scan(s, i + 2, out.push('\u{000C}'))
            } else if e == 'u' {
                if i + 6 > s.len() {
                    Err("truncated Unicode escape in double-quoted string"@)
                } else {
                    match hex4(s.subrange(i + 2, i + 6)) {
                        None => Err("malformed Unicode escape in double-quoted string"@),
                        Some(cp) => if scalar_value(cp) {
                            dq_scan(s, i + 6, out.push(cp as char))
                        } else {
                            Err("invalid Unicode scalar value in double-quoted string"@)
                        },
                    }
                }
            } else {
                Err("unknown escape sequence \\"@ + seq![e] + " in double-quoted string"@)
            }
        }
    } else {
        dq_scan(s, i + 1, out.push(s[i]))
    }
}

fn hex4_exec(s: &[char], i: usize) -> (r: Option<u32>)
    requires
        i + 4 <= s.len(),
    ensures
        match r {
            Some(v) => hex4(s@.subrange(i as int, i + 4)) == Some(v as int),
            None => hex4(s@.subrange(i as int, i + 4)) is None,
        },
{
    let ghost h = s@.subrange(i as int, i + 4);
    let lo: usize = if s[i] == '+' { 1 } else { 0 };
    let mut v: u32 = 0;
    let mut k: usize = lo;
    while k < 4
        invariant
            lo <= k <= 4,
            i + 4 <= s.len(),
            h == s@.subrange(i as int, i + 4),
            lo == (if h[0] == '+' { 1int } else { 0int }),
            forall|t: int| lo <= t < k ==> is_hex(#[trigger] h[t]),
            v == hex_value(h, lo as int, k as int),
            v < 0x10000,
            hex_value(h, lo as int, k as int) < pow16(k - lo),
        decreases 4 - k,
    {
        let c = s[i + k];
        proof {
            assert(h[k as int] == c);
        }
        let dv: u32 = if '0' <= c && c <= '9' {
            c as u32 - '0' as u32
        } else if 'a' <= c && c <= 'f' {
            c as u32 - 'a' as u32 + 10
        } else if 'A' <= c && c <= 'F' {
            c as u32 - 'A' as u32 + 10
        } else {
            return None;
        };
        proof {
            assert(pow16(k + 1 - lo) == pow16(k - lo) * 16);
            assert(v * 16 + dv < pow16(k + 1 - lo)) by (nonlinear_arith)
                requires
                    v < pow16(k - lo),
                    dv < 16,
                    pow16(k + 1 - lo) == pow16(k - lo) * 16,
            ;
            assert(pow16(k + 1 - lo) <= 0x10000) by {
                assert(k + 1 - lo <= 4);
                lemma_pow16_le4(k + 1 - lo);
            }
        }
        v = v * 16 + dv;
        k += 1;
    }
    Some(v)
}

/// `16` to the `n`.
pub open spec fn pow16(n: int) -> int
    decreases n,
{
    if n <= 0 {
        1
    } else {
        16 * pow16(n - 1)
    }
}

proof fn lemma_pow16_le4(n: int)
    requires
        0 <= n <= 4,
    ensures
        pow16(n) <= 0x10000,
{
    reveal_with_fuel(pow16, 5);
}

/// Decodes a double-quoted scalar (`s` starts with `"`): escapes are
/// resolved, and only whitespace or a comment may follow the closing quote.
pub fn parse_double_quoted(s: &[char]) -> (r: Result<String, String>)
    ensures
        match r {
            Ok(t) => dq_scan(s@, 1, seq![]) == Ok::<Seq<char>, Seq<char>>(t@),
            Err(m) => dq_scan(s@, 1, seq![]) == Err::<Seq<char>, Seq<char>>(m@),
        },
{
    let mut out: Vec<char> = Vec::new();
    let mut i: usize = 1;
    while i < s.len()
        invariant
            1 <= i,
            dq_scan(s@, i as int, out@) == dq_scan(s@, 1, seq![]),
        decreases s.len() - i,
    {
        let c = s[i];
        if c == '"' {
            return match tail_check_exec(s, i + 1, "double-quoted") {
                Some(m) => Err(m),
                None => Ok(string_of(&out)),
            };
        }
        if c == '\\' {
            if i + 1 >= s.len() {
                return Err("dangling escape in double-quoted string".to_string());
            }
            let e = s[i + 1];
            let decoded: char = if e == 'n' {
                '\n'
            } else if e == 't' {
                '\t'
            } else if e == 'r' {
                '\r'
            } else if e == '"' {
                '"'
            } else if e == '\\' {
                '\\'
            } else if e == '/' {
                '/'
            } else if e == '0' {
                '\0'
            } else if e == 'b' {
                '\u{0008}'
            } else if e == 'f' {
                '\u{000C}'
            } else if e == 'u' {
                if s.len() < 6 || i > s.len() - 6 {
                    return Err("truncated Unicode escape in double-quoted string".to_string());
                }
                match hex4_exec(s, i + 2) {
                    None => {
                        return Err("malformed Unicode escape in double-quoted string".to_string());
                    },
                    Some(cp) => {
                        if cp < 0xD800 || (0xE000 <= cp && cp <= 0x10FFFF) {
                            let ch = char_from_scalar(cp);
                            out.push(ch);
                            i += 6;
                            continue;
                        } else {
                            return Err("invalid Unicode scalar value in double-quoted string".to_string());
                        }
                    },
                }
            } else {
                let mut m: Vec<char> = chars_of("unknown escape sequence \\");
                m.push(e);
                crate::text::extend_all(&mut m, &chars_of(" in double-quoted string"));
                proof {
                    assert(m@ =~= "unknown escape sequence \\"@ + seq![e] + " in double-quoted string"@);
                }
                return Err(string_of(&m));
            };
            out.push(decoded);
            i += 2;
            continue;
        }
        out.push(c);
        i += 1;
    }
    Err("unterminated double-quoted string".to_string())
}

/// Decoding a single-quoted scalar from index `i` with `out` decoded so far.
pub open spec fn sq_scan(s: Seq<char>, i: int, out: Seq<char>) -> Result<Seq<char>, Seq<char>>
    decreases s.len() - i,
{
    if i < 0 || i >= s.len() {
        Err("unterminated single-quoted string"@)
    } else if s[i] == '\'' {
        if i + 1 < s.len() && s[i + 1] == '\'' {
            sq_scan(s, i + 2, out.push('\''))
        } else {
            match tail_check(s, i + 1, "single-quoted"@) {
                Some(m) => Err(m),
                None => Ok(out),
            }
        }
    } else {
        sq_scan(s, i + 1, out.push(s[i]))
    }
}

/// Decodes a single-quoted scalar (`s` starts with `'`): `''` is a quote.
pub fn parse_single_quoted(s: &[char]) -> (r: Result<String, String>)
    ensures
        match r {
            Ok(t) => sq_scan(s@, 1, seq![]) == Ok::<Seq<char>, Seq<char>>(t@),
            Err(m) => sq_scan(s@, 1, seq![]) == Err::<Seq<char>, Seq<char>>(m@),
        },
{
    let mut out: Vec<char> = Vec::new();
    let mut i: usize = 1;
    while i < s.len()
        invariant
            1 <= i,
            sq_scan(s@, i as int, out@) == sq_scan(s@, 1, seq![]),
        decreases s.len() - i,
    {
        let c = s[i];
        if c == '\'' {
            if i + 1 < s.len() && s[i + 1] == '\'' {
                out.push('\'');
                i += 2;
                continue;
            }
            return match tail_check_exec(s, i + 1, "single-quoted") {
                Some(m) => Err(m),
                None => Ok(string_of(&out)),
            };
        }
        out.push(c);
        i += 1;
    }
    Err("unterminated single-quoted string".to_string())
}

/// How a scalar token is read: blank is null, quoted forms are decoded, and
/// a plain scalar loses its trailing comment and is typed by [`plain_value`].
/// An error carries its message.
pub open spec fn scalar_spec(token: Seq<char>) -> Result<ValueView, Seq<char>> {
    let t = trim(token);
    if t.len() == 0 {
        Ok(ValueView::Null)
    } else if t[0] == '"' {
        match dq_scan(t, 1, seq![]) {
            Ok(x) => Ok(ValueView::Str(x)),
            Err(m) => Err(m),
        }
    } else if t[0] == '\'' {
        match sq_scan(t, 1, seq![]) {
            Ok(x) => Ok(ValueView::Str(x)),
            Err(m) => Err(m),
        }
    } else {
        Ok(plain_value(strip_comment(t)))
    }
}

/// Reads a scalar token (see [`scalar_spec`]).
pub fn parse_scalar(token: &[char]) -> (r: Result<Value, String>)
    ensures
        match r {
            Ok(v) => scalar_spec(token@) == Ok::<ValueView, Seq<char>>(crate::yaml::vview(v)),
            Err(m) => scalar_spec(token@) == Err::<ValueView, Seq<char>>(m@),
        },
{
    let (a, b) = trim_bounds(token, 0, token.len());
    let mut t: Vec<char> = Vec::new();
    extend_range(&mut t, token, a, b);
    proof {
        assert(token@.subrange(0, token@.len() as int) =~= token@);
    }
    if t.len() == 0 {
        Ok(Value::Null)
    } else if t[0] == '"' {
        match parse_double_quoted(&t) {
            Ok(x) => Ok(Value::Text(x)),
            Err(m) => Err(m),
        }
    } else if t[0] == '\'' {
        match parse_single_quoted(&t) {
            Ok(x) => Ok(Value::Text(x)),
            Err(m) => Err(m),
        }
    } else {
        Ok(interpret_plain(&strip_comment_exec(&t)))
    }
}

/// Whether the closing `quote` appears in `s` at or after `i`, honouring
/// `''` and `\"` escapes.
pub open spec fn closes_quote(s: Seq<char>, quote: char, i: int) -> bool
    decreases s.len() - i,
{
    if i < 0 || i >= s.len() {
        false
    } else if quote == '"' && s[i] == '\\' {
        if i + 2 > s.len() {
            false
        } else {
            closes_quote(s, quote, i + 2)
        }
    } else if s[i] == quote {
        if quote == '\'' && i + 1 < s.len() && s[i + 1] == '\'' {
            closes_quote(s, quote, i + 2)
        } else {
            true
        }
    } else {
        closes_quote(s, quote, i + 1)
    }
}

/// `closes_quote` in exec form.
pub fn closes_quote_exec(s: &[char], quote: char, from: usize) -> (r: bool)
    ensures
        r == closes_quote(s@, quote, from as int),
{
    let mut i = from;
    while i < s.len()
        invariant
            from <= i,
            closes_quote(s@, quote, i as int) == closes_quote(s@, quote, from as int),
        decreases s.len() - i,
    {
        let c = s[i];
        if quote == '"' && c == '\\' {
            if i + 1 >= s.len() {
                return false;
            }
            i += 2;
            continue;
        }
        if c == quote {
            if quote == '\'' && i + 1 < s.len() && s[i + 1] == '\'' {
                i += 2;
                continue;
            }
            return true;
        }
        i += 1;
    }
    false
}

/// The quote a scalar opens without closing, if any.
pub open spec fn unclosed_quote(s: Seq<char>) -> Option<char> {
    if s.len() > 0 && (s[0] == '\'' || s[0] == '"') && !closes_quote(s, s[0], 1) {
        Some(s[0])
    } else {
        None
    }
}

/// Whether a trimmed line opens a node of its own: a comment, a sequence
/// item, or a mapping entry.
pub open spec fn starts_new_node(c: Seq<char>) -> bool {
    (c.len() > 0 && c[0] == '#') || c == "-"@ || crate::text::has_prefix(c, "- "@) || split_kv(c) is Some
}

/// Whether a line's content from the indentation on is a sequence item.
pub open spec fn is_item(c: Seq<char>) -> bool {
    c == "-"@ || crate::text::has_prefix(c, "- "@)
}

/// `is_item` in exec form.
pub fn is_item_exec(c: &[char]) -> (r: bool)
    ensures
        r == is_item(c@),
{
    proof {
        reveal_strlit("-");
        reveal_strlit("- ");
    }
    let r = (c.len() == 1 && c[0] == '-') || (c.len() >= 2 && c[0] == '-' && c[1] == ' ');
    proof {
        assert("-"@ =~= seq!['-']);
        assert("- "@ =~= seq!['-', ' ']);
        if c.len() >= 2 {
            assert(c@.subrange(0, 2) =~= seq![c@[0], c@[1]]);
            if c@ == "-"@ {
                assert(c@.len() == 1);
            }
        }
        if c.len() == 1 {
            assert(c@ =~= seq![c@[0]]);
        }
        if c.len() == 0 {
            assert(c@ != "-"@);
        }
    }
    r
}

/// `starts_new_node` in exec form.
pub fn starts_new_node_exec(c: &[char]) -> (r: bool)
    ensures
        r == starts_new_node(c@),
{
    (c.len() > 0 && c[0] == '#') || is_item_exec(c) || split_key_value(c).is_some()
}

/// Folds block lines: runs of non-empty lines join with single spaces, and
/// each empty line becomes a newline.
pub open spec fn fold_scan(ls: Seq<Seq<char>>, n: int) -> (Seq<char>, bool)
    decreases n,
{
    if n <= 0 {
        (seq![], false)
    } else {
        let (out, prev) = fold_scan(ls, n - 1);
        let l = ls[n - 1];
        if l.len() == 0 {
            (out.push('\n'), false)
        } else {
            ((if prev { out.push(' ') } else { out }) + l, true)
        }
    }
}

/// `fold_scan` over all lines.
pub fn fold_lines(ls: &Vec<Vec<char>>) -> (r: Vec<char>)
    ensures
        r@ == fold_scan(crate::text::views(ls@), ls@.len() as int).0,
{
    let ghost v = crate::text::views(ls@);
    let mut out: Vec<char> = Vec::new();
    let mut prev = false;
    let mut i: usize = 0;
    while i < ls.len()
        invariant
            i <= ls.len(),
            v == crate::text::views(ls@),
            (out@, prev) == fold_scan(v, i as int),
        decreases ls.len() - i,
    {
        proof {
            assert(v[i as int] == ls@[i as int]@);
        }
        if ls[i].len() == 0 {
            out.push('\n');
            prev = false;
        } else {
            if prev {
                out.push(' ');
            }
            crate::text::extend_all(&mut out, &ls[i]);
            prev = true;
        }
        i += 1;
    }
    out
}

} // verus!
