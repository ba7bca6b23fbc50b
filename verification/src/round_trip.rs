//! Reading back what was written. Frontmatter that [`crate::emit`] writes
//! parses to the entries it was written from ([`lemma_mapping_round_trip`]),
//! and a document written from frontmatter and a body reads back as the same
//! frontmatter and body ([`lemma_document_text_round_trip`]), for every
//! mapping whose entries are [`writable_entries`]: scalar keys, and values
//! that are scalars, sequences or mappings of such values, a float being one
//! whose text reads back as that float. Whatever the reader gives is such
//! a value ([`lemma_parse_writable`], [`lemma_read_frontmatter_writable`]),
//! so reading, writing and reading again gives what the first reading gave
//! (see [`crate::document::lemma_reread`]).
//!
//! The proof goes through a model of the emitted lines ([`entry_lines`] and
//! the functions beside it): the text's lines are the model's lines, and the
//! block reader, given those lines, reads each entry, item and nested
//! collection back.
use vstd::prelude::*;
use crate::date::digits_value;
use crate::emit::{
    breaks_plain, emit_block, emit_entry, emit_range, escape_all, escape_char, has_pair, inline_value, int_text,
    key_text, mapping_text, plain_ok, plain_safe, scalar_text,
};
use crate::text::{
    decimal, digit_char, is_ws, lines, lines_scan, skip_ws, skip_ws_back, strip_cr, trim, trim_end,
    trim_start,
};
use crate::yaml::{Mapping, Value, ValueView, pviews, vview, vviews};
use crate::yaml_scalar::{
    canonical_int, comment_at, dq_scan, int_value, is_dec, is_item, kv_scan, plain_value,
    scalar_spec, special_plain, split_kv, tail_check, unsigned,
};

verus! {

broadcast use vstd::string::group_string_axioms;

proof fn lemma_lines_scan_shift(x: Seq<char>, y: Seq<char>, st: int, i: int)
    requires
        0 <= st <= i,
    ensures
        lines_scan(x + y, x.len() + st, x.len() + i) == lines_scan(y, st, i),
    decreases y.len() - i,
{
    let s = x + y;
    if i >= y.len() {
        if st < y.len() {
            assert(s.subrange(x.len() + st, s.len() as int) =~= y.subrange(st, y.len() as int));
        }
    } else {
        assert(s[x.len() + i] == y[i]);
        if y[i] == '\n' {
            assert(s.subrange(x.len() + st, x.len() + i) =~= y.subrange(st, i));
            lemma_lines_scan_shift(x, y, i + 1, i + 1);
        } else {
            lemma_lines_scan_shift(x, y, st, i + 1);
        }
    }
}

proof fn lemma_lines_scan_split(x: Seq<char>, y: Seq<char>, st: int, i: int)
    requires
        0 <= st <= i <= x.len(),
        x.len() > 0 ==> x.last() == '\n',
        i == x.len() ==> st == x.len(),
    ensures
        lines_scan(x + y, st, i) == lines_scan(x, st, i) + lines_scan(x + y, x.len() as int, x.len() as int),
    decreases x.len() - i,
{
    let s = x + y;
    if i == x.len() {
        assert(lines_scan(x, st, i) =~= Seq::<Seq<char>>::empty());
        assert(lines_scan(x, st, i) + lines_scan(s, x.len() as int, x.len() as int) =~= lines_scan(
            s,
            x.len() as int,
            x.len() as int,
        ));
    } else {
        assert(s[i] == x[i]);
        if x[i] == '\n' {
            assert(s.subrange(st, i) =~= x.subrange(st, i));
            lemma_lines_scan_split(x, y, i + 1, i + 1);
            let h = seq![strip_cr(x.subrange(st, i))];
            assert(h + (lines_scan(x, i + 1, i + 1) + lines_scan(s, x.len() as int, x.len() as int)) =~= (h
                + lines_scan(x, i + 1, i + 1)) + lines_scan(s, x.len() as int, x.len() as int));
        } else {
            lemma_lines_scan_split(x, y, st, i + 1);
        }
    }
}

/// Splitting text after a line break splits its lines.
pub proof fn lemma_lines_append(x: Seq<char>, y: Seq<char>)
    requires
        x.len() > 0 ==> x.last() == '\n',
    ensures
        lines(x + y) == lines(x) + lines(y),
{
    lemma_lines_scan_split(x, y, 0, 0);
    lemma_lines_scan_shift(x, y, 0, 0);
    assert(x.len() + 0 == x.len());
}

/// A character sequence with no line break or carriage return.
pub open spec fn one_line(t: Seq<char>) -> bool {
    forall|k: int| 0 <= k < t.len() ==> #[trigger] t[k] != '\n' && t[k] != '\r'
}

proof fn lemma_lines_scan_line(s: Seq<char>, n: int, i: int)
    requires
        0 <= i <= n,
        n + 1 == s.len(),
        s[n] == '\n',
        forall|k: int| 0 <= k < n ==> #[trigger] s[k] != '\n',
    ensures
        lines_scan(s, 0, i) == seq![strip_cr(s.subrange(0, n))],
    decreases n - i,
{
    if i < n {
        lemma_lines_scan_line(s, n, i + 1);
    } else {
        assert(lines_scan(s, n + 1, n + 1) =~= Seq::<Seq<char>>::empty());
        assert(seq![strip_cr(s.subrange(0, n))] + lines_scan(s, n + 1, n + 1) =~= seq![strip_cr(s.subrange(0, n))]);
    }
}

/// A line and its line break are one line.
pub proof fn lemma_lines_one(l: Seq<char>)
    requires
        one_line(l),
    ensures
        lines(l + "\n"@) == seq![l],
{
    reveal_strlit("\n");
    let s = l + "\n"@;
    assert forall|k: int| 0 <= k < l.len() implies #[trigger] s[k] != '\n' by {
        assert(s[k] == l[k]);
    }
    lemma_lines_scan_line(s, l.len() as int, 0);
    assert(s.subrange(0, l.len() as int) =~= l);
}

/// Text without surrounding whitespace is its own trim.
pub proof fn lemma_trim_id(s: Seq<char>)
    requires
        s.len() > 0,
        !is_ws(s[0]),
        !is_ws(s.last()),
    ensures
        trim(s) == s,
        trim_start(s) == s,
{
    assert(skip_ws(s, 0, s.len() as int) == 0);
    assert(trim_start(s) =~= s);
    assert(skip_ws_back(s, 0, s.len() as int) == s.len());
    assert(trim_end(s) =~= s);
}

proof fn lemma_digits_value_push(d: Seq<char>, c: char, k: int)
    requires
        0 <= k <= d.len(),
    ensures
        digits_value(d.push(c), 0, k) == digits_value(d, 0, k),
    decreases k,
{
    if k > 0 {
        lemma_digits_value_push(d, c, k - 1);
    }
}

/// A decimal numeral is a canonical run of digits denoting its number.
pub proof fn lemma_decimal(n: nat)
    ensures
        decimal(n).len() > 0,
        forall|k: int| 0 <= k < decimal(n).len() ==> is_dec(#[trigger] decimal(n)[k]),
        decimal(n).len() == 1 || decimal(n)[0] != '0',
        digits_value(decimal(n), 0, decimal(n).len() as int) == n,
    decreases n,
{
    let d = decimal(n);
    if n < 10 {
        assert(digit_char(n as int) as int == '0' as int + n);
        assert(digits_value(d, 0, 0) == 0);
        assert(digits_value(d, 0, 1) == digits_value(d, 0, 0) * 10 + (d[0] as int - '0' as int));
    } else {
        lemma_decimal(n / 10);
        let p = decimal(n / 10);
        let c = digit_char((n % 10) as int);
        assert(c as int == '0' as int + n % 10);
        assert(d == p.push(c));
        lemma_digits_value_push(p, c, p.len() as int);
        assert(d.len() == p.len() + 1);
        assert(d[p.len() as int] == c);
        assert(digits_value(d, 0, d.len() as int) == digits_value(d, 0, p.len() as int) * 10 + (c as int - '0' as int));
        assert((n / 10) * 10 + n % 10 == n);
        assert forall|k: int| 0 <= k < d.len() implies is_dec(#[trigger] d[k]) by {
            if k < p.len() {
                assert(d[k] == p[k]);
            }
        }
        assert(d[0] == p[0]);
        if p.len() == 1 {
            assert(p[0] != '0') by {
                if n / 10 >= 10 {
                    lemma_decimal(n / 100);
                    assert(p.len() > 1);
                }
                assert(p == seq![digit_char((n / 10) as int)]);
                assert(digit_char((n / 10) as int) as int == '0' as int + n / 10);
            }
        }
    }
}

/// Scanning a plain token for its `key: value` split passes over it to the
/// `: ` that follows it.
proof fn lemma_kv_scan_plain(kt: Seq<char>, t: Seq<char>, i: int)
    requires
        plain_safe(kt),
        0 <= i <= kt.len(),
    ensures
        kv_scan(kt + seq![':'] + t, i, None, 0) == kv_scan(kt + seq![':'] + t, kt.len() as int, None, 0),
    decreases kt.len() - i,
{
    let s = kt + seq![':'] + t;
    if i < kt.len() {
        assert(s[i] == kt[i]);
        assert(!breaks_plain(kt[i]));
        if i > 0 {
            assert(s[i - 1] == kt[i - 1]);
            assert(!breaks_plain(kt[i - 1]));
            if kt[i] == '#' && kt[i - 1] == ' ' {
                assert(has_pair(kt, ' ', '#'));
            }
        }
        if kt[i] == ':' {
            if i + 1 < kt.len() {
                assert(s[i + 1] == kt[i + 1]);
                assert(!breaks_plain(kt[i + 1]));
                if kt[i + 1] == ' ' {
                    assert(has_pair(kt, ':', ' '));
                }
            } else {
                assert(s[i + 1] == ':');
            }
        }
        lemma_kv_scan_plain(kt, t, i + 1);
    }
}

/// A space and a token trim to the token.
proof fn lemma_trim_spaced(t: Seq<char>)
    requires
        t.len() > 0,
        !is_ws(t[0]),
        !is_ws(t.last()),
    ensures
        trim(seq![' '] + t) == t,
        trim_start(seq![' '] + t) == t,
{
    let x = seq![' '] + t;
    assert(x[0] == ' ');
    assert(x[1] == t[0]);
    assert(skip_ws(x, 1, x.len() as int) == 1);
    assert(skip_ws(x, 0, x.len() as int) == 1);
    assert(trim_start(x) =~= t);
    lemma_trim_id(t);
}

/// A token's line `token: value` splits at the `: ` after the token.
proof fn lemma_split_at_sep(kt: Seq<char>, t: Seq<char>)
    requires
        kv_scan(kt + seq![':'] + (seq![' '] + t), 0, None, 0) == kv_scan(kt + seq![':'] + (seq![' '] + t), kt.len() as int, None, 0),
        kt.len() > 0,
        !is_ws(kt[0]),
        !is_ws(kt.last()),
        t.len() > 0,
        !is_ws(t[0]),
        !is_ws(t.last()),
        t[0] != '#',
    ensures
        split_kv(kt + ": "@ + t) == Some((kt, Some(t))),
{
    reveal_strlit(": ");
    let s = kt + ": "@ + t;
    assert(s =~= kt + seq![':'] + (seq![' '] + t));
    let n = kt.len() as int;
    assert(s[n] == ':');
    assert(s[n + 1] == ' ');
    assert(s.subrange(0, n) =~= kt);
    assert(s.subrange(n + 1, s.len() as int) =~= seq![' '] + t);
    lemma_trim_id(kt);
    lemma_trim_spaced(t);
}

/// The units of an escaped text: a backslash and a code, or one ordinary
/// character.
proof fn lemma_escape_char(c: char)
    ensures
        (c == '"' || c == '\\' || c == '\n' || c == '\r' || c == '\t') ==> escape_char(c).len() == 2
            && escape_char(c)[0] == '\\',
        !(c == '"' || c == '\\' || c == '\n' || c == '\r' || c == '\t') ==> escape_char(c) == seq![c],
{
}

/// Escaped text holds no line break or carriage return.
proof fn lemma_escape_one_line(x: Seq<char>)
    ensures
        one_line(escape_all(x)),
    decreases x.len(),
{
    if x.len() > 0 {
        lemma_escape_one_line(x.drop_last());
        let e = escape_all(x.drop_last());
        let u = escape_char(x.last());
        assert(escape_all(x) == e + u);
        assert forall|k: int| 0 <= k < escape_all(x).len() implies #[trigger] escape_all(x)[k] != '\n'
            && escape_all(x)[k] != '\r' by {
            if k >= e.len() {
                assert(escape_all(x)[k] == u[k - e.len()]);
            } else {
                assert(escape_all(x)[k] == e[k]);
            }
        }
    }
}

/// Inside double quotes, the scan for `key: value` passes over escaped text.
proof fn lemma_kv_scan_escaped(s: Seq<char>, a: int, x: Seq<char>)
    requires
        0 <= a,
        a + escape_all(x).len() <= s.len(),
        s.subrange(a, a + escape_all(x).len()) == escape_all(x),
    ensures
        kv_scan(s, a, Some('"'), 0) == kv_scan(s, a + escape_all(x).len(), Some('"'), 0),
    decreases x.len(),
{
    if x.len() > 0 {
        let x1 = x.drop_last();
        let c = x.last();
        let e1 = escape_all(x1);
        let u = escape_char(c);
        assert(escape_all(x) == e1 + u);
        assert(s.subrange(a, a + e1.len()) =~= e1) by {
            assert forall|k: int| 0 <= k < e1.len() implies s.subrange(a, a + e1.len())[k] == e1[k] by {
                assert(s.subrange(a, a + escape_all(x).len())[k] == escape_all(x)[k]);
            }
        }
        lemma_kv_scan_escaped(s, a, x1);
        let b = a + e1.len();
        lemma_escape_char(c);
        assert(s[b] == u[0]) by {
            assert(s.subrange(a, a + escape_all(x).len())[e1.len() as int] == escape_all(x)[e1.len() as int]);
        }
    }
}

/// Escaped text between double quotes decodes to the text.
proof fn lemma_dq_scan_escaped(s: Seq<char>, a: int, x: Seq<char>, out: Seq<char>)
    requires
        0 <= a,
        a + escape_all(x).len() <= s.len(),
        s.subrange(a, a + escape_all(x).len()) == escape_all(x),
    ensures
        dq_scan(s, a, out) == dq_scan(s, a + escape_all(x).len(), out + x),
    decreases x.len(),
{
    if x.len() == 0 {
        assert(out + x =~= out);
    } else {
        let x1 = x.drop_last();
        let c = x.last();
        let e1 = escape_all(x1);
        let u = escape_char(c);
        assert(escape_all(x) == e1 + u);
        assert(s.subrange(a, a + e1.len()) =~= e1) by {
            assert forall|k: int| 0 <= k < e1.len() implies s.subrange(a, a + e1.len())[k] == e1[k] by {
                assert(s.subrange(a, a + escape_all(x).len())[k] == escape_all(x)[k]);
            }
        }
        lemma_dq_scan_escaped(s, a, x1, out);
        let b = a + e1.len();
        lemma_escape_char(c);
        assert(s[b] == u[0]) by {
            assert(s.subrange(a, a + escape_all(x).len())[e1.len() as int] == escape_all(x)[e1.len() as int]);
        }
        if u.len() == 2 {
            assert(s[b + 1] == u[1]) by {
                assert(s.subrange(a, a + escape_all(x).len())[e1.len() + 1int] == escape_all(x)[e1.len() + 1int]);
            }
        }
        assert((out + x1).push(c) =~= out + x);
    }
}

/// A float as written that reads back as the same float.
pub open spec fn float_token(s: Seq<char>) -> bool {
    &&& plain_safe(s)
    &&& s[0] != '#' && s[0] != '|' && s[0] != '>'
    &&& !is_item(s)
    &&& plain_value(s) == ValueView::Float(s)
}

/// A key the emitter writes on its line and reads back as itself: any
/// scalar (a float as [`float_token`] allows).
pub open spec fn key_ok(k: ValueView) -> bool {
    match k {
        ValueView::Float(s) => float_token(s),
        ValueView::List(_) => false,
        ValueView::Pairs(_) => false,
        _ => true,
    }
}

/// A value the emitter writes on its key's line and reads back as itself:
/// a scalar or an empty collection.
pub open spec fn inline_ok(v: ValueView) -> bool {
    match v {
        ValueView::Float(s) => float_token(s),
        ValueView::List(xs) => xs.len() == 0,
        ValueView::Pairs(es) => es.len() == 0,
        _ => true,
    }
}

/// A token that keeps a `key: value` line a mapping entry: one line, no
/// surrounding whitespace, and no start that reads as a comment, a block
/// scalar or a sequence item.
pub open spec fn line_token(t: Seq<char>) -> bool {
    &&& t.len() > 0 && !is_ws(t[0]) && !is_ws(t.last()) && one_line(t)
    &&& t[0] != '#' && t[0] != '|' && t[0] != '>'
    &&& !(t.len() > 1 && t[0] == '-' && t[1] == ' ')
}

proof fn lemma_comment_free(s: Seq<char>, i: int)
    requires
        plain_safe(s),
        0 <= i,
    ensures
        comment_at(s, i) == s.len(),
    decreases s.len() - i,
{
    if i < s.len() {
        if i > 0 && s[i] == '#' && (s[i - 1] == ' ' || s[i - 1] == '\t') {
            assert(!breaks_plain(s[i - 1]));
            assert(has_pair(s, ' ', '#'));
        }
        lemma_comment_free(s, i + 1);
    }
}

/// A plain-safe token is read as its plain value.
proof fn lemma_plain_read(s: Seq<char>)
    requires
        plain_safe(s),
    ensures
        scalar_spec(s) == Ok::<ValueView, Seq<char>>(plain_value(s)),
        one_line(s),
{
    lemma_trim_id(s);
    lemma_comment_free(s, 0);
    assert(s.subrange(0, s.len() as int) =~= s);
    assert(!breaks_plain(s[0]));
    assert forall|k: int| 0 <= k < s.len() implies #[trigger] s[k] != '\n' && s[k] != '\r' by {
        assert(!breaks_plain(s[k]));
    }
}

/// `null`, `true` and `false` as tokens.
proof fn lemma_word(w: Seq<char>)
    requires
        w == "null"@ || w == "true"@ || w == "false"@,
    ensures
        plain_safe(w),
        line_token(w),
        scalar_spec(w) == Ok::<ValueView, Seq<char>>(plain_value(w)),
        plain_value(w) == (if w == "null"@ {
            ValueView::Null
        } else {
            ValueView::Bool(w == "true"@)
        }),
{
    reveal_strlit("");
    reveal_strlit("~");
    reveal_strlit("null");
    reveal_strlit("Null");
    reveal_strlit("NULL");
    reveal_strlit("true");
    reveal_strlit("True");
    reveal_strlit("TRUE");
    reveal_strlit("false");
    reveal_strlit("False");
    reveal_strlit("FALSE");
    reveal_strlit(".inf");
    reveal_strlit(".Inf");
    reveal_strlit(".INF");
    reveal_strlit("+.inf");
    reveal_strlit("-.inf");
    reveal_strlit("-.Inf");
    reveal_strlit("-.INF");
    reveal_strlit(".nan");
    reveal_strlit(".NaN");
    reveal_strlit(".NAN");
    assert("null"@ =~= seq!['n', 'u', 'l', 'l']);
    assert("true"@ =~= seq!['t', 'r', 'u', 'e']);
    assert("false"@ =~= seq!['f', 'a', 'l', 's', 'e']);
    assert forall|i: int| 0 <= i < w.len() implies 'a' <= #[trigger] w[i] <= 'z' by {
        if i == 0 {
        } else if i == 1 {
        } else if i == 2 {
        } else if i == 3 {
        } else {
        }
    }
    assert forall|i: int| 0 <= i < w.len() implies !breaks_plain(#[trigger] w[i]) by {
        assert('a' <= w[i] <= 'z');
    }
    assert(!has_pair(w, ':', ' '));
    assert(!has_pair(w, ' ', '#'));
    assert(w.last() == w[w.len() - 1]);
    lemma_plain_read(w);
}

/// An integer's decimal text as a token.
proof fn lemma_int_token(i: int)
    requires
        -0x8000_0000_0000_0000 <= i <= 0x7fff_ffff_ffff_ffff,
    ensures
        plain_safe(int_text(i)),
        line_token(int_text(i)),
        scalar_spec(int_text(i)) == Ok::<ValueView, Seq<char>>(ValueView::Int(i)),
{
    let t = int_text(i);
    let d = decimal(if i < 0 { (-i) as nat } else { i as nat });
    lemma_decimal(if i < 0 { (-i) as nat } else { i as nat });
    if i < 0 {
        assert(t == seq!['-'] + d);
        assert(unsigned(t) =~= d);
        assert forall|k: int| 0 <= k < t.len() implies is_dec(#[trigger] t[k]) || (k == 0 && t[k] == '-') by {
            if k > 0 {
                assert(t[k] == d[k - 1]);
            }
        }
        assert(t[1] == d[0]);
    } else {
        assert(t == d);
        assert(unsigned(t) == d);
    }
    assert forall|k: int| 0 <= k < t.len() implies !breaks_plain(#[trigger] t[k]) && t[k] != ':' && t[k] != '#'
        && t[k] != ' ' by {
        if i < 0 && k > 0 {
            assert(t[k] == d[k - 1]);
        }
    }
    assert(t.last() == t[t.len() - 1]);
    assert(is_dec(t.last())) by {
        if i < 0 {
            assert(t[t.len() - 1] == d[d.len() - 1]);
        }
    }
    assert(!has_pair(t, ':', ' '));
    assert(!has_pair(t, ' ', '#'));
    lemma_plain_read(t);
    reveal_strlit("");
    reveal_strlit("~");
    reveal_strlit("null");
    reveal_strlit("Null");
    reveal_strlit("NULL");
    reveal_strlit("true");
    reveal_strlit("True");
    reveal_strlit("TRUE");
    reveal_strlit("false");
    reveal_strlit("False");
    reveal_strlit("FALSE");
    reveal_strlit(".inf");
    reveal_strlit(".Inf");
    reveal_strlit(".INF");
    reveal_strlit("+.inf");
    reveal_strlit("-.inf");
    reveal_strlit("-.Inf");
    reveal_strlit("-.INF");
    reveal_strlit(".nan");
    reveal_strlit(".NaN");
    reveal_strlit(".NAN");
    assert forall|k: int| 0 <= k < t.len() implies is_dec(#[trigger] t[k]) || (k == 0 && t[k] == '-') by {
        if i < 0 && k > 0 {
            assert(t[k] == d[k - 1]);
        }
    }
    assert(t.len() > 1 ==> is_dec(t[1]));
    assert(t != "~"@) by {
        if t == "~"@ {
            assert(t[0] == "~"@[0]);
        }
    }
    assert(t != "null"@) by {
        if t == "null"@ {
            assert(t[0] == "null"@[0]);
            assert(t[1] == "null"@[1]);
        }
    }
    assert(t != "Null"@) by {
        if t == "Null"@ {
            assert(t[0] == "Null"@[0]);
            assert(t[1] == "Null"@[1]);
        }
    }
    assert(t != "NULL"@) by {
        if t == "NULL"@ {
            assert(t[0] == "NULL"@[0]);
            assert(t[1] == "NULL"@[1]);
        }
    }
    assert(t != "true"@) by {
        if t == "true"@ {
            assert(t[0] == "true"@[0]);
            assert(t[1] == "true"@[1]);
        }
    }
    assert(t != "True"@) by {
        if t == "True"@ {
            assert(t[0] == "True"@[0]);
            assert(t[1] == "True"@[1]);
        }
    }
    assert(t != "TRUE"@) by {
        if t == "TRUE"@ {
            assert(t[0] == "TRUE"@[0]);
            assert(t[1] == "TRUE"@[1]);
        }
    }
    assert(t != "false"@) by {
        if t == "false"@ {
            assert(t[0] == "false"@[0]);
            assert(t[1] == "false"@[1]);
        }
    }
    assert(t != "False"@) by {
        if t == "False"@ {
            assert(t[0] == "False"@[0]);
            assert(t[1] == "False"@[1]);
        }
    }
    assert(t != "FALSE"@) by {
        if t == "FALSE"@ {
            assert(t[0] == "FALSE"@[0]);
            assert(t[1] == "FALSE"@[1]);
        }
    }
    assert(t != ".inf"@) by {
        if t == ".inf"@ {
            assert(t[0] == ".inf"@[0]);
            assert(t[1] == ".inf"@[1]);
        }
    }
    assert(t != ".Inf"@) by {
        if t == ".Inf"@ {
            assert(t[0] == ".Inf"@[0]);
            assert(t[1] == ".Inf"@[1]);
        }
    }
    assert(t != ".INF"@) by {
        if t == ".INF"@ {
            assert(t[0] == ".INF"@[0]);
            assert(t[1] == ".INF"@[1]);
        }
    }
    assert(t != "+.inf"@) by {
        if t == "+.inf"@ {
            assert(t[0] == "+.inf"@[0]);
            assert(t[1] == "+.inf"@[1]);
        }
    }
    assert(t != "-.inf"@) by {
        if t == "-.inf"@ {
            assert(t[0] == "-.inf"@[0]);
            assert(t[1] == "-.inf"@[1]);
        }
    }
    assert(t != "-.Inf"@) by {
        if t == "-.Inf"@ {
            assert(t[0] == "-.Inf"@[0]);
            assert(t[1] == "-.Inf"@[1]);
        }
    }
    assert(t != "-.INF"@) by {
        if t == "-.INF"@ {
            assert(t[0] == "-.INF"@[0]);
            assert(t[1] == "-.INF"@[1]);
        }
    }
    assert(t != ".nan"@) by {
        if t == ".nan"@ {
            assert(t[0] == ".nan"@[0]);
            assert(t[1] == ".nan"@[1]);
        }
    }
    assert(t != ".NaN"@) by {
        if t == ".NaN"@ {
            assert(t[0] == ".NaN"@[0]);
            assert(t[1] == ".NaN"@[1]);
        }
    }
    assert(t != ".NAN"@) by {
        if t == ".NAN"@ {
            assert(t[0] == ".NAN"@[0]);
            assert(t[1] == ".NAN"@[1]);
        }
    }
    assert(special_plain(t) is None);
    assert(canonical_int(t));
    assert(int_value(t) == i);
}

proof fn lemma_float_token(s: Seq<char>)
    requires
        float_token(s),
    ensures
        line_token(s),
        scalar_spec(s) == Ok::<ValueView, Seq<char>>(ValueView::Float(s)),
{
    lemma_plain_read(s);
    reveal_strlit("- ");
    reveal_strlit("-");
    if s.len() > 1 && s[0] == '-' && s[1] == ' ' {
        assert(s.subrange(0, 2) =~= "- "@);
        assert(is_item(s));
    }
}

/// A double-quoted token reads back as its text, and the `key: value` scan
/// passes over it.
proof fn lemma_quoted(x: Seq<char>, u: Seq<char>)
    ensures
        line_token(seq!['"'] + escape_all(x) + seq!['"']),
        scalar_spec(seq!['"'] + escape_all(x) + seq!['"']) == Ok::<ValueView, Seq<char>>(ValueView::Str(x)),
        kv_scan(seq!['"'] + escape_all(x) + seq!['"'] + seq![':'] + u, 0, None, 0) == kv_scan(
            seq!['"'] + escape_all(x) + seq!['"'] + seq![':'] + u,
            escape_all(x).len() + 2int,
            None,
            0,
        ),
{
    let e = escape_all(x);
    let t = seq!['"'] + e + seq!['"'];
    let n = e.len() as int;
    lemma_escape_one_line(x);
    assert(t[0] == '"');
    assert(t.last() == '"');
    assert(t[n + 1] == '"');
    assert forall|k: int| 0 <= k < t.len() implies #[trigger] t[k] != '\n' && t[k] != '\r' by {
        if 0 < k <= n {
            assert(t[k] == e[k - 1]);
        }
    }
    lemma_trim_id(t);
    assert(t.subrange(1, 1 + n) =~= e);
    lemma_dq_scan_escaped(t, 1, x, seq![]);
    assert(seq![] + x =~= x);
    assert(skip_ws(t, n + 2, t.len() as int) == n + 2);
    assert(tail_check(t, n + 2, "double-quoted"@) is None);
    let s = t + seq![':'] + u;
    assert(s[0] == '"');
    assert(s.subrange(1, 1 + n) =~= e);
    lemma_kv_scan_escaped(s, 1, x);
    assert(s[n + 1] == '"');
}

/// A string's token (see [`scalar_text`]) reads back as the string.
proof fn lemma_text_token(x: Seq<char>, u: Seq<char>)
    ensures
        line_token(scalar_text(x)),
        scalar_spec(scalar_text(x)) == Ok::<ValueView, Seq<char>>(ValueView::Str(x)),
        kv_scan(scalar_text(x) + seq![':'] + u, 0, None, 0) == kv_scan(scalar_text(x) + seq![':'] + u, scalar_text(x).len() as int, None, 0),
{
    if plain_ok(x) {
        lemma_plain_read(x);
        lemma_kv_scan_plain(x, u, 0);
    } else {
        lemma_quoted(x, u);
    }
}

/// A scalar key's token reads back as the key, and its line splits after it.
proof fn lemma_key_token(k: Value, u: Seq<char>)
    requires
        key_ok(vview(k)),
    ensures
        line_token(key_text(k)),
        scalar_spec(key_text(k)) == Ok::<ValueView, Seq<char>>(vview(k)),
        kv_scan(key_text(k) + seq![':'] + u, 0, None, 0) == kv_scan(key_text(k) + seq![':'] + u, key_text(k).len() as int, None, 0),
{
    match k {
        Value::Null => {
            lemma_word("null"@);
            lemma_kv_scan_plain("null"@, u, 0);
            assert(key_text(k) == "null"@);
            assert(plain_value("null"@) == ValueView::Null);
            assert(scalar_spec("null"@) == Ok::<ValueView, Seq<char>>(ValueView::Null));
            assert(vview(k) == ValueView::Null);
            assert(scalar_spec(key_text(k)) == Ok::<ValueView, Seq<char>>(vview(k)));
        },
        Value::Bool(b) => {
            reveal_strlit("null");
            reveal_strlit("true");
            reveal_strlit("false");
            assert("false"@.len() == 5 && "true"@.len() == 4 && "null"@.len() == 4);
            assert("true"@[0] != "null"@[0]);
            let w = if b { "true"@ } else { "false"@ };
            lemma_word(w);
            lemma_kv_scan_plain(w, u, 0);
            assert(scalar_spec(key_text(k)) == Ok::<ValueView, Seq<char>>(vview(k)));
        },
        Value::Int(i) => {
            lemma_int_token(i as int);
            lemma_kv_scan_plain(int_text(i as int), u, 0);
            assert(scalar_spec(key_text(k)) == Ok::<ValueView, Seq<char>>(vview(k)));
        },
        Value::Float(s) => {
            lemma_float_token(s@);
            lemma_kv_scan_plain(s@, u, 0);
            assert(scalar_spec(key_text(k)) == Ok::<ValueView, Seq<char>>(vview(k)));
        },
        Value::Text(s) => {
            lemma_text_token(s@, u);
            assert(scalar_spec(key_text(k)) == Ok::<ValueView, Seq<char>>(vview(k)));
        },
        _ => {},
    }
}

/// A value written on its key's line reads back as the value.
proof fn lemma_value_token(v: Value, line: int)
    requires
        inline_ok(vview(v)),
    ensures
        inline_value(v) is Some,
        line_token(inline_value(v)->0),
        (inline_value(v)->0[0] == '[' || inline_value(v)->0[0] == '{') ==> crate::yaml_flow::inline_value(
            inline_value(v)->0,
            line,
        ) == Ok::<ValueView, (int, Seq<char>)>(vview(v)),
        !(inline_value(v)->0[0] == '[' || inline_value(v)->0[0] == '{') ==> scalar_spec(inline_value(v)->0)
            == Ok::<ValueView, Seq<char>>(vview(v)),
{
    reveal_strlit("[]");
    reveal_strlit("{}");
    match v {
        Value::Null => {
            lemma_word("null"@);
            assert(inline_value(v)->0 == "null"@);
            assert(plain_value("null"@) == ValueView::Null);
        },
        Value::Bool(b) => {
            reveal_strlit("null");
            reveal_strlit("true");
            reveal_strlit("false");
            assert("false"@.len() == 5 && "true"@.len() == 4 && "null"@.len() == 4);
            assert("true"@[0] != "null"@[0]);
            let w = if b { "true"@ } else { "false"@ };
            lemma_word(w);
        },
        Value::Int(i) => {
            lemma_int_token(i as int);
        },
        Value::Float(s) => {
            lemma_float_token(s@);
        },
        Value::Text(s) => {
            lemma_text_token(s@, seq![]);
        },
        Value::Sequence(xs) => {
            let t = "[]"@;
            assert(t.len() == 2 && t[0] == '[' && t[1] == ']');
            lemma_trim_id(t);
            assert(skip_ws(t, 0, 2) == 0);
            assert(skip_ws(t, 1, 2) == 1);
            assert(skip_ws(t, 2, 2) == 2);
            assert(crate::yaml_flow::seq_items(t, 1) == Ok::<(Seq<ValueView>, nat), Seq<char>>((seq![], 1nat)));
            assert(crate::yaml_flow::flow_value(t, 0) == Ok::<(ValueView, nat), Seq<char>>((ValueView::List(seq![]), 2nat)));
            assert(vview(v) == ValueView::List(seq![]));
            assert(t.last() == ']');
        },
        Value::Mapping(m) => {
            let t = "{}"@;
            assert(t.len() == 2 && t[0] == '{' && t[1] == '}');
            lemma_trim_id(t);
            assert(skip_ws(t, 0, 2) == 0);
            assert(skip_ws(t, 1, 2) == 1);
            assert(skip_ws(t, 2, 2) == 2);
            assert(crate::yaml_flow::map_items(t, 1) == Ok::<(Seq<(ValueView, ValueView)>, nat), Seq<char>>((seq![], 1nat)));
            assert(crate::yaml_flow::flow_value(t, 0) == Ok::<(ValueView, nat), Seq<char>>((ValueView::Pairs(seq![]), 2nat)));
            assert(vview(v) == ValueView::Pairs(seq![]));
            assert(t.last() == '}');
        },
    }
}

/// The line an entry is written on, without its line break.
pub open spec fn entry_line(e: (Value, Value)) -> Seq<char> {
    key_text(e.0) + ": "@ + inline_value(e.1)->0
}

/// What the block reader sees of an entry's line.
proof fn lemma_entry_line(e: (Value, Value), line: int)
    requires
        key_ok(vview(e.0)),
        inline_ok(vview(e.1)),
    ensures
        entry_line(e).len() > 0,
        one_line(entry_line(e)),
        trim(entry_line(e)) == entry_line(e),
        trim_start(entry_line(e)) == entry_line(e),
        !crate::yaml_scalar::blank_or_comment(entry_line(e)),
        crate::yaml_scalar::indent_of(entry_line(e)) == Some(0int),
        crate::yaml_block::content_at(entry_line(e), 0) == entry_line(e),
        !is_item(entry_line(e)),
        split_kv(entry_line(e)) == Some((key_text(e.0), Some(inline_value(e.1)->0))),
        scalar_spec(key_text(e.0)) == Ok::<ValueView, Seq<char>>(vview(e.0)),
        line_token(inline_value(e.1)->0),
{
    reveal_strlit(": ");
    reveal_strlit("-");
    reveal_strlit("- ");
    let kt = key_text(e.0);
    lemma_value_token(e.1, line);
    let t = inline_value(e.1)->0;
    lemma_key_token(e.0, seq![' '] + t);
    let l = entry_line(e);
    let n = kt.len() as int;
    assert(l[0] == kt[0]);
    assert(l.last() == t.last());
    assert(l[n] == ':' && l[n + 1] == ' ');
    assert forall|k: int| 0 <= k < l.len() implies #[trigger] l[k] != '\n' && l[k] != '\r' by {
        if k < n {
            assert(l[k] == kt[k]);
        } else if k >= n + 2 {
            assert(l[k] == t[k - n - 2]);
        }
    }
    lemma_trim_id(l);
    assert(crate::text::run_len(l, 0, ' ') == 0);
    assert(l.subrange(0, l.len() as int) =~= l);
    if has_prefix_dash(l) {
        assert(l.subrange(0, 2) == "- "@);
        assert(l[0] == '-' && l[1] == ' ');
        if n > 1 {
            assert(l[1] == kt[1]);
        }
    }
    assert(l != "-"@);
    lemma_split_at_sep(kt, t);
}

spec fn has_prefix_dash(l: Seq<char>) -> bool {
    crate::text::has_prefix(l, "- "@)
}

proof fn lemma_sub_of(s: Seq<char>, a: int, y: Seq<char>, off: int, z: Seq<char>)
    requires
        0 <= a,
        a + y.len() <= s.len(),
        s.subrange(a, a + y.len()) == y,
        0 <= off,
        off + z.len() <= y.len(),
        y.subrange(off, off + z.len()) == z,
    ensures
        s.subrange(a + off, a + off + z.len()) == z,
{
    assert forall|k: int| 0 <= k < z.len() implies s.subrange(a + off, a + off + z.len())[k] == z[k] by {
        assert(s.subrange(a, a + y.len())[off + k] == y[off + k]);
        assert(y.subrange(off, off + z.len())[k] == y[off + k]);
    }
    assert(s.subrange(a + off, a + off + z.len()) =~= z);
}

/// A `---` line at `c`.
proof fn lemma_fence_at(s: Seq<char>, c: int)
    requires
        0 <= c,
        c + 4 <= s.len(),
        s.subrange(c, c + 4) == "---\n"@,
    ensures
        crate::text::next_nl(s, c) == c + 3,
        crate::document::fence_line(s, c, c + 3),
{
    reveal_strlit("---\n");
    reveal_strlit("---");
    assert(s[c] == s.subrange(c, c + 4)[0]);
    assert(s[c + 1] == s.subrange(c, c + 4)[1]);
    assert(s[c + 2] == s.subrange(c, c + 4)[2]);
    assert(s[c + 3] == s.subrange(c, c + 4)[3]);
    assert(s[c] == '-' && s[c + 1] == '-' && s[c + 2] == '-' && s[c + 3] == '\n');
    assert(crate::text::next_nl(s, c + 3) == c + 3);
    assert(crate::text::next_nl(s, c + 2) == c + 3);
    assert(crate::text::next_nl(s, c + 1) == c + 3);
    assert(s.subrange(c, c + 3) =~= "---"@);
    lemma_trim_id("---"@);
    assert(strip_cr("---"@) == "---"@);
}

/// Values the emitter writes and reads back as themselves: scalars (a
/// float as [`float_token`] allows), and sequences and mappings of such
/// values, a mapping's keys being scalars (see [`key_ok`]).
pub open spec fn writable(v: ValueView) -> bool
    decreases v, 0int,
{
    match v {
        ValueView::Float(s) => float_token(s),
        ValueView::List(xs) => writable_items(xs, xs.len() as int),
        ValueView::Pairs(es) => writable_pairs(es, es.len() as int),
        _ => true,
    }
}

/// Whether the first `n` items are writable.
pub open spec fn writable_items(xs: Seq<ValueView>, n: int) -> bool
    decreases xs, n,
{
    if n <= 0 || n > xs.len() {
        true
    } else {
        writable_items(xs, n - 1) && writable(xs[n - 1])
    }
}

/// Whether the first `n` entries have scalar keys and writable values.
pub open spec fn writable_pairs(es: Seq<(ValueView, ValueView)>, n: int) -> bool
    decreases es, n,
{
    if n <= 0 || n > es.len() {
        true
    } else {
        writable_pairs(es, n - 1) && key_ok(es[n - 1].0) && writable(es[n - 1].1)
    }
}

proof fn lemma_writable_items_at(xs: Seq<ValueView>, n: int, j: int)
    requires
        0 <= j < n <= xs.len(),
        writable_items(xs, n),
    ensures
        writable(xs[j]),
    decreases n,
{
    if j < n - 1 {
        lemma_writable_items_at(xs, n - 1, j);
    }
}

proof fn lemma_writable_pairs_at(es: Seq<(ValueView, ValueView)>, n: int, j: int)
    requires
        0 <= j < n <= es.len(),
        writable_pairs(es, n),
    ensures
        key_ok(es[j].0),
        writable(es[j].1),
    decreases n,
{
    if j < n - 1 {
        lemma_writable_pairs_at(es, n - 1, j);
    }
}

/// Mapping entries the emitter writes and reads back as themselves.
pub open spec fn writable_entries(es: Seq<(ValueView, ValueView)>) -> bool {
    writable(ValueView::Pairs(es))
}

/// Whether `pad` is all spaces.
pub open spec fn is_spaces(pad: Seq<char>) -> bool {
    forall|k: int| 0 <= k < pad.len() ==> #[trigger] pad[k] == ' '
}

/// The lines of an entry (see [`emit_entry`]).
pub open spec fn entry_lines(k: Value, v: Value, lead: Seq<char>, pad: Seq<char>) -> Seq<Seq<char>>
    decreases v, 1int,
{
    match inline_value(v) {
        Some(t) => seq![lead + key_text(k) + ": "@ + t],
        None => seq![lead + key_text(k) + ":"@] + block_lines(v, pad + "  "@),
    }
}

/// The lines of a non-empty collection (see [`crate::emit::emit_block`]).
pub open spec fn block_lines(v: Value, pad: Seq<char>) -> Seq<Seq<char>>
    decreases v, 0int,
{
    match v {
        Value::Mapping(m) => range_lines(m.entries@, pad, 0, m.entries@.len() as int),
        Value::Sequence(xs) => items_lines(xs@, pad, 0, xs@.len() as int),
        _ => seq![],
    }
}

/// The lines of entries `lo..n` (see [`emit_range`]).
pub open spec fn range_lines(es: Seq<(Value, Value)>, pad: Seq<char>, lo: int, n: int) -> Seq<Seq<char>>
    decreases es, n,
{
    if n <= lo || n > es.len() || lo < 0 {
        seq![]
    } else {
        range_lines(es, pad, lo, n - 1) + entry_lines(es[n - 1].0, es[n - 1].1, pad, pad)
    }
}

/// The lines of items `lo..n` (see [`crate::emit::emit_items`]).
pub open spec fn items_lines(xs: Seq<Value>, pad: Seq<char>, lo: int, n: int) -> Seq<Seq<char>>
    decreases xs, n,
{
    if n <= lo || n > xs.len() || lo < 0 {
        seq![]
    } else {
        items_lines(xs, pad, lo, n - 1) + item_lines(xs[n - 1], pad)
    }
}

/// The lines of one item (see [`crate::emit::emit_item`]).
pub open spec fn item_lines(x: Value, pad: Seq<char>) -> Seq<Seq<char>>
    decreases x, 1int,
{
    match inline_value(x) {
        Some(t) => seq![pad + "- "@ + t],
        None => match x {
            Value::Mapping(m) => entry_lines(m.entries@[0].0, m.entries@[0].1, pad + "- "@, pad + "  "@) + range_lines(
                m.entries@,
                pad + "  "@,
                1,
                m.entries@.len() as int,
            ),
            Value::Sequence(ys) => seq![pad + "-"@] + items_lines(ys@, pad + "  "@, 0, ys@.len() as int),
            _ => seq![],
        },
    }
}

proof fn lemma_one_line_concat(a: Seq<char>, b: Seq<char>)
    requires
        one_line(a),
        one_line(b),
    ensures
        one_line(a + b),
{
    assert forall|k: int| 0 <= k < (a + b).len() implies #[trigger] (a + b)[k] != '\n' && (a + b)[k] != '\r' by {
        if k < a.len() {
            assert((a + b)[k] == a[k]);
        } else {
            assert((a + b)[k] == b[k - a.len()]);
        }
    }
}

proof fn lemma_one_line_lit()
    ensures
        one_line(": "@),
        one_line(":"@),
        one_line("- "@),
        one_line("-"@),
        one_line("  "@),
{
    reveal_strlit(": ");
    reveal_strlit(":");
    reveal_strlit("- ");
    reveal_strlit("-");
    reveal_strlit("  ");
    assert forall|k: int| 0 <= k < ": "@.len() implies #[trigger] ": "@[k] != '\n' && ": "@[k] != '\r' by {
        assert(k == 0 || k == 1);
    }
    assert forall|k: int| 0 <= k < "- "@.len() implies #[trigger] "- "@[k] != '\n' && "- "@[k] != '\r' by {
        assert(k == 0 || k == 1);
    }
    assert forall|k: int| 0 <= k < "  "@.len() implies #[trigger] "  "@[k] != '\n' && "  "@[k] != '\r' by {
        assert(k == 0 || k == 1);
    }
}

/// A writable value with a one-line form is inline-ok.
proof fn lemma_inline_of_writable(v: Value)
    requires
        writable(vview(v)),
        inline_value(v) is Some,
    ensures
        inline_ok(vview(v)),
{
    match v {
        Value::Sequence(xs) => {
            assert(vviews(xs@, 0) =~= Seq::<ValueView>::empty());
        },
        Value::Mapping(m) => {
            assert(pviews(m.entries@, 0) =~= Seq::<(ValueView, ValueView)>::empty());
        },
        _ => {},
    }
}

/// The entries of a writable mapping are writable.
proof fn lemma_writable_entries(m: Mapping)
    requires
        writable(vview(Value::Mapping(m))),
    ensures
        forall|j: int| 0 <= j < m.entries@.len() ==> key_ok(vview(#[trigger] m.entries@[j].0)) && writable(vview(m.entries@[j].1)),
{
    let es = m.entries@;
    crate::yaml::lemma_pviews_len(es, es.len() as int);
    assert forall|j: int| 0 <= j < es.len() implies key_ok(vview(#[trigger] es[j].0)) && writable(vview(es[j].1)) by {
        crate::yaml::lemma_pviews_at(es, j);
        let es_v = pviews(es, es.len() as int);
        assert(vview(Value::Mapping(m)) == ValueView::Pairs(es_v));
        lemma_writable_pairs_at(es_v, es_v.len() as int, j);
    }
}

/// The items of a writable sequence are writable.
proof fn lemma_writable_items(xs: Vec<Value>)
    requires
        writable(vview(Value::Sequence(xs))),
    ensures
        forall|j: int| 0 <= j < xs@.len() ==> writable(vview(#[trigger] xs@[j])),
{
    crate::yaml::lemma_vviews_len(xs@, xs@.len() as int);
    assert forall|j: int| 0 <= j < xs@.len() implies writable(vview(#[trigger] xs@[j])) by {
        crate::yaml::lemma_vviews_at(xs@, j);
        let vs = vviews(xs@, xs@.len() as int);
        assert(vview(Value::Sequence(xs)) == ValueView::List(vs));
        lemma_writable_items_at(vs, vs.len() as int, j);
    }
}

proof fn lemma_text_entry(k: Value, v: Value, lead: Seq<char>, pad: Seq<char>)
    requires
        key_ok(vview(k)),
        writable(vview(v)),
        one_line(lead),
        one_line(pad),
    ensures
        lines(emit_entry(k, v, lead, pad)) == entry_lines(k, v, lead, pad),
        emit_entry(k, v, lead, pad).len() > 0,
        emit_entry(k, v, lead, pad).last() == '\n',
    decreases v, 1int,
{
    reveal_strlit("\n");
    lemma_one_line_lit();
    lemma_key_token(k, seq![]);
    let kt = key_text(k);
    lemma_one_line_concat(lead, kt);
    match inline_value(v) {
        Some(t) => {
            lemma_inline_of_writable(v);
            lemma_value_token(v, 0);
            lemma_one_line_concat(lead + kt, ": "@);
            lemma_one_line_concat(lead + kt + ": "@, t);
            lemma_lines_one(lead + kt + ": "@ + t);
        },
        None => {
            let l = lead + kt + ":"@;
            reveal_strlit(":\n");
            reveal_strlit(":");
            assert(":\n"@ =~= ":"@ + "\n"@);
            lemma_one_line_concat(lead + kt, ":"@);
            lemma_one_line_concat(pad, "  "@);
            lemma_text_block(v, pad + "  "@);
            lemma_lines_one(l);
            lemma_lines_append(l + "\n"@, emit_block(v, pad + "  "@));
            assert(emit_entry(k, v, lead, pad) =~= (l + "\n"@) + emit_block(v, pad + "  "@));
        },
    }
}

proof fn lemma_text_block(v: Value, pad: Seq<char>)
    requires
        writable(vview(v)),
        inline_value(v) is None,
        one_line(pad),
    ensures
        lines(emit_block(v, pad)) == block_lines(v, pad),
        emit_block(v, pad).len() > 0,
        emit_block(v, pad).last() == '\n',
    decreases v, 0int,
{
    match v {
        Value::Mapping(m) => {
            lemma_writable_entries(m);
            lemma_text_range(m.entries@, pad, 0, m.entries@.len() as int);
        },
        Value::Sequence(xs) => {
            lemma_writable_items(xs);
            lemma_text_items(xs@, pad, xs@.len() as int);
        },
        _ => {},
    }
}

proof fn lemma_text_range(es: Seq<(Value, Value)>, pad: Seq<char>, lo: int, n: int)
    requires
        0 <= lo <= n <= es.len(),
        forall|j: int| lo <= j < n ==> key_ok(vview(#[trigger] es[j].0)) && writable(vview(es[j].1)),
        one_line(pad),
    ensures
        lines(emit_range(es, pad, lo, n)) == range_lines(es, pad, lo, n),
        n > lo ==> emit_range(es, pad, lo, n).len() > 0 && emit_range(es, pad, lo, n).last() == '\n',
    decreases es, n,
{
    if n > lo {
        lemma_text_range(es, pad, lo, n - 1);
        lemma_text_entry(es[n - 1].0, es[n - 1].1, pad, pad);
        lemma_lines_append(emit_range(es, pad, lo, n - 1), emit_entry(es[n - 1].0, es[n - 1].1, pad, pad));
    } else {
        assert(lines(Seq::<char>::empty()) =~= Seq::<Seq<char>>::empty());
    }
}

proof fn lemma_text_items(xs: Seq<Value>, pad: Seq<char>, n: int)
    requires
        0 <= n <= xs.len(),
        forall|j: int| 0 <= j < n ==> writable(vview(#[trigger] xs[j])),
        one_line(pad),
    ensures
        lines(crate::emit::emit_items(xs, pad, n)) == items_lines(xs, pad, 0, n),
        n > 0 ==> crate::emit::emit_items(xs, pad, n).len() > 0 && crate::emit::emit_items(xs, pad, n).last() == '\n',
    decreases xs, n,
{
    if n > 0 {
        lemma_text_items(xs, pad, n - 1);
        lemma_text_item(xs[n - 1], pad);
        lemma_lines_append(crate::emit::emit_items(xs, pad, n - 1), crate::emit::emit_item(xs[n - 1], pad));
    } else {
        assert(lines(Seq::<char>::empty()) =~= Seq::<Seq<char>>::empty());
    }
}

proof fn lemma_text_item(x: Value, pad: Seq<char>)
    requires
        writable(vview(x)),
        one_line(pad),
    ensures
        lines(crate::emit::emit_item(x, pad)) == item_lines(x, pad),
        crate::emit::emit_item(x, pad).len() > 0,
        crate::emit::emit_item(x, pad).last() == '\n',
    decreases x, 1int,
{
    reveal_strlit("\n");
    lemma_one_line_lit();
    lemma_one_line_concat(pad, "- "@);
    lemma_one_line_concat(pad, "  "@);
    match inline_value(x) {
        Some(t) => {
            lemma_inline_of_writable(x);
            lemma_value_token(x, 0);
            lemma_one_line_concat(pad + "- "@, t);
            lemma_lines_one(pad + "- "@ + t);
        },
        None => match x {
            Value::Mapping(m) => {
                lemma_writable_entries(m);
                let es = m.entries@;
                lemma_text_entry(es[0].0, es[0].1, pad + "- "@, pad + "  "@);
                lemma_text_range(es, pad + "  "@, 1, es.len() as int);
                lemma_lines_append(emit_entry(es[0].0, es[0].1, pad + "- "@, pad + "  "@), emit_range(es, pad + "  "@, 1, es.len() as int));
            },
            Value::Sequence(ys) => {
                lemma_writable_items(ys);
                lemma_one_line_concat(pad, "-"@);
                let l = pad + "-"@;
                reveal_strlit("-\n");
                reveal_strlit("-");
                assert("-\n"@ =~= "-"@ + "\n"@);
                lemma_lines_one(l);
                lemma_text_items(ys@, pad + "  "@, ys@.len() as int);
                lemma_lines_append(l + "\n"@, crate::emit::emit_items(ys@, pad + "  "@, ys@.len() as int));
                assert(crate::emit::emit_item(x, pad) =~= (l + "\n"@) + crate::emit::emit_items(ys@, pad + "  "@, ys@.len() as int));
            },
            _ => {},
        },
    }
}

/// Lines `l` stand in `ls` from line `p` on.
pub open spec fn lines_at(ls: Seq<Seq<char>>, p: int, l: Seq<Seq<char>>) -> bool {
    0 <= p && p + l.len() <= ls.len() && ls.subrange(p, p + l.len() as int) == l
}

/// Line `i` ends a block indented by at least `d`: there is none, or it is
/// a content line indented less.
pub open spec fn stop_at(ls: Seq<Seq<char>>, i: int, d: int) -> bool {
    i >= ls.len() || (!crate::yaml_scalar::blank_or_comment(ls[i]) && trim(ls[i]).len() > 0
        && (crate::yaml_scalar::indent_of(ls[i]) matches Some(j) && j < d))
}

/// What an entry's first line holds after its lead.
pub open spec fn entry_content(k: Value, v: Value) -> Seq<char> {
    match inline_value(v) {
        Some(t) => key_text(k) + ": "@ + t,
        None => key_text(k) + ":"@,
    }
}

/// What an item's first line holds after its indentation.
pub open spec fn item_content(x: Value) -> Seq<char> {
    match inline_value(x) {
        Some(t) => "- "@ + t,
        None => match x {
            Value::Mapping(m) => "- "@ + entry_content(m.entries@[0].0, m.entries@[0].1),
            _ => "-"@,
        },
    }
}

proof fn lemma_lines_at_split(ls: Seq<Seq<char>>, p: int, a: Seq<Seq<char>>, b: Seq<Seq<char>>)
    requires
        lines_at(ls, p, a + b),
    ensures
        lines_at(ls, p, a),
        lines_at(ls, p + a.len(), b),
        a.len() > 0 ==> ls[p] == a[0],
        b.len() > 0 ==> ls[p + a.len()] == b[0],
{
    assert(ls.subrange(p, p + a.len() as int) =~= a) by {
        assert forall|k: int| 0 <= k < a.len() implies ls.subrange(p, p + a.len() as int)[k] == a[k] by {
            assert(ls.subrange(p, p + (a + b).len() as int)[k] == (a + b)[k]);
        }
    }
    assert(ls.subrange(p + a.len(), p + a.len() + b.len() as int) =~= b) by {
        assert forall|k: int| 0 <= k < b.len() implies ls.subrange(p + a.len(), p + a.len() + b.len() as int)[k] == b[k] by {
            assert(ls.subrange(p, p + (a + b).len() as int)[a.len() + k] == (a + b)[a.len() + k]);
        }
    }
    if a.len() > 0 {
        assert(ls.subrange(p, p + a.len() as int)[0] == a[0]);
    }
    if b.len() > 0 {
        assert(ls.subrange(p + a.len(), p + a.len() + b.len() as int)[0] == b[0]);
    }
}

proof fn lemma_run_spaces(pad: Seq<char>, c: Seq<char>, i: int)
    requires
        is_spaces(pad),
        c.len() > 0,
        c[0] != ' ',
        0 <= i <= pad.len(),
    ensures
        crate::text::run_len(pad + c, i, ' ') == pad.len() - i,
        skip_ws(pad + c, i, (pad + c).len() as int) == pad.len() + skip_ws(c, 0, c.len() as int),
    decreases pad.len() - i,
{
    let s = pad + c;
    if i < pad.len() {
        assert(s[i] == ' ');
        lemma_run_spaces(pad, c, i + 1);
    } else {
        assert(s[i] == c[0]);
        lemma_skip_shift(pad, c, 0);
    }
}

proof fn lemma_skip_shift(pad: Seq<char>, c: Seq<char>, j: int)
    requires
        0 <= j <= c.len(),
    ensures
        skip_ws(pad + c, pad.len() + j, (pad + c).len() as int) == pad.len() + skip_ws(c, j, c.len() as int),
    decreases c.len() - j,
{
    if j < c.len() {
        assert((pad + c)[pad.len() + j] == c[j]);
        lemma_skip_shift(pad, c, j + 1);
    }
}

/// A content line: indentation `pad`, then `c`.
proof fn lemma_padded(pad: Seq<char>, c: Seq<char>)
    requires
        is_spaces(pad),
        c.len() > 0,
        !is_ws(c[0]),
        !is_ws(c.last()),
        c[0] != '#',
    ensures
        crate::yaml_scalar::indent_of(pad + c) == Some(pad.len() as int),
        crate::yaml_block::content_at(pad + c, pad.len() as int) == c,
        !crate::yaml_scalar::blank_or_comment(pad + c),
        trim(pad + c).len() > 0,
        trim_start(c) == c,
{
    let s = pad + c;
    lemma_run_spaces(pad, c, 0);
    assert(s[pad.len() as int] == c[0]);
    assert(s.subrange(pad.len() as int, s.len() as int) =~= c);
    lemma_trim_id(c);
    assert(skip_ws(c, 0, c.len() as int) == 0);
    assert(trim_start(s) =~= c);
}

/// The first of entries `lo..n` comes first.
proof fn lemma_range_split(es: Seq<(Value, Value)>, pad: Seq<char>, lo: int, n: int)
    requires
        0 <= lo < n <= es.len(),
    ensures
        range_lines(es, pad, lo, n) == entry_lines(es[lo].0, es[lo].1, pad, pad) + range_lines(es, pad, lo + 1, n),
    decreases n,
{
    if n == lo + 1 {
        assert(range_lines(es, pad, lo, lo) =~= Seq::<Seq<char>>::empty());
        assert(range_lines(es, pad, lo + 1, n) =~= Seq::<Seq<char>>::empty());
        assert(range_lines(es, pad, lo, n) =~= entry_lines(es[lo].0, es[lo].1, pad, pad) + range_lines(es, pad, lo + 1, n));
    } else {
        lemma_range_split(es, pad, lo, n - 1);
        let e = entry_lines(es[n - 1].0, es[n - 1].1, pad, pad);
        assert(range_lines(es, pad, lo, n) =~= entry_lines(es[lo].0, es[lo].1, pad, pad) + range_lines(es, pad, lo + 1, n));
    }
}

/// The first of items `lo..n` comes first.
proof fn lemma_items_split(xs: Seq<Value>, pad: Seq<char>, lo: int, n: int)
    requires
        0 <= lo < n <= xs.len(),
    ensures
        items_lines(xs, pad, lo, n) == item_lines(xs[lo], pad) + items_lines(xs, pad, lo + 1, n),
    decreases n,
{
    if n == lo + 1 {
        assert(items_lines(xs, pad, lo, lo) =~= Seq::<Seq<char>>::empty());
        assert(items_lines(xs, pad, lo + 1, n) =~= Seq::<Seq<char>>::empty());
        assert(items_lines(xs, pad, lo, n) =~= item_lines(xs[lo], pad) + items_lines(xs, pad, lo + 1, n));
    } else {
        lemma_items_split(xs, pad, lo, n - 1);
        assert(items_lines(xs, pad, lo, n) =~= item_lines(xs[lo], pad) + items_lines(xs, pad, lo + 1, n));
    }
}

/// Facts about an entry's content.
proof fn lemma_entry_content(k: Value, v: Value)
    requires
        key_ok(vview(k)),
        writable(vview(v)),
    ensures
        entry_content(k, v).len() > 0,
        !is_ws(entry_content(k, v)[0]),
        !is_ws(entry_content(k, v).last()),
        entry_content(k, v)[0] != '#',
        entry_content(k, v)[0] != '|' && entry_content(k, v)[0] != '>',
        entry_content(k, v)[0] != '-' || entry_content(k, v).len() < 2 || entry_content(k, v)[1] != ' ',
        !is_item(entry_content(k, v)),
        split_kv(entry_content(k, v)) == Some((key_text(k), match inline_value(v) {
            Some(t) => Some(t),
            None => None::<Seq<char>>,
        })),
        scalar_spec(key_text(k)) == Ok::<ValueView, Seq<char>>(vview(k)),
{
    reveal_strlit(": ");
    reveal_strlit(":");
    reveal_strlit("-");
    reveal_strlit("- ");
    let kt = key_text(k);
    let c = entry_content(k, v);
    let n = kt.len() as int;
    match inline_value(v) {
        Some(t) => {
            lemma_inline_of_writable(v);
            lemma_key_token(k, seq![]);
            lemma_entry_line((k, v), 0);
            assert(c == entry_line((k, v)));
            lemma_value_token(v, 0);
            assert(c.last() == t.last());
            assert(c[0] == kt[0]);
        },
        None => {
            lemma_key_token(k, seq![]);
            assert(c =~= kt + seq![':'] + seq![]);
            assert(c[n] == ':');
            assert(c.last() == ':');
            assert(c[0] == kt[0]);
            if n > 1 {
                assert(c[1] == kt[1]);
            }
            assert(c.subrange(0, n) =~= kt);
            lemma_trim_id(kt);
            assert(c.subrange(n + 1, c.len() as int) =~= Seq::<char>::empty());
            assert(trim(Seq::<char>::empty()) =~= Seq::<char>::empty());
            assert(!(c.len() >= 2 && c[0] == '-' && c[1] == ' '));
            if c.len() >= 2 && c.subrange(0, 2) == "- "@ {
                assert(c.subrange(0, 2)[0] == c[0]);
                assert(c.subrange(0, 2)[1] == c[1]);
            }
            assert(c != "-"@) by {
                if c == "-"@ {
                    assert(c.len() == 1);
                    assert(c[0] == ':');
                }
            }
        },
    }
}

/// A token on a line of its own is not a `key: value` line.
proof fn lemma_kv_scan_token(t: Seq<char>, i: int)
    requires
        plain_safe(t),
        0 <= i <= t.len(),
    ensures
        kv_scan(t, i, None, 0) is None,
    decreases t.len() - i,
{
    if i < t.len() {
        assert(!breaks_plain(t[i]));
        if i > 0 {
            assert(!breaks_plain(t[i - 1]));
            if t[i] == '#' && t[i - 1] == ' ' {
                assert(has_pair(t, ' ', '#'));
            }
        }
        if t[i] == ':' {
            if i + 1 < t.len() {
                assert(!breaks_plain(t[i + 1]));
                if t[i + 1] == ' ' {
                    assert(has_pair(t, ':', ' '));
                }
            } else {
                assert(t.last() == t[i]);
            }
        }
        lemma_kv_scan_token(t, i + 1);
    }
}

/// An inline item's token does not read as a `key: value` line.
proof fn lemma_item_token(x: Value)
    requires
        writable(vview(x)),
        inline_value(x) is Some,
    ensures
        split_kv(inline_value(x)->0) is None,
{
    reveal_strlit("[]");
    reveal_strlit("{}");
    reveal_strlit("null");
    reveal_strlit("true");
    reveal_strlit("false");
    lemma_inline_of_writable(x);
    let t = inline_value(x)->0;
    match x {
        Value::Null => {
            lemma_word("null"@);
            lemma_kv_scan_token(t, 0);
        },
        Value::Bool(b) => {
            assert("false"@.len() == 5 && "true"@.len() == 4 && "null"@.len() == 4);
            assert("true"@[0] != "null"@[0]);
            let w = if b { "true"@ } else { "false"@ };
            lemma_word(w);
            lemma_kv_scan_token(t, 0);
        },
        Value::Int(i) => {
            lemma_int_token(i as int);
            lemma_kv_scan_token(t, 0);
        },
        Value::Float(f) => {
            lemma_kv_scan_token(t, 0);
        },
        Value::Text(st) => {
            if plain_ok(st@) {
                lemma_kv_scan_token(t, 0);
            } else {
                let e = escape_all(st@);
                let n = e.len() as int;
                assert(t == seq!['"'] + e + seq!['"']);
                assert(t.subrange(1, 1 + n) =~= e);
                lemma_kv_scan_escaped(t, 1, st@);
                assert(t[n + 1] == '"');
                assert(t[0] == '"');
                assert(kv_scan(t, n + 2, None, 0) is None);
                assert(kv_scan(t, n + 1, Some('"'), 0) is None);
            }
        },
        Value::Sequence(xs) => {
            assert(t[0] == '[' && t[1] == ']' && t.len() == 2);
            assert(kv_scan(t, 2, None, 0) is None);
            assert(kv_scan(t, 1, None, 1) is None);
        },
        Value::Mapping(m) => {
            assert(t[0] == '{' && t[1] == '}' && t.len() == 2);
            assert(kv_scan(t, 2, None, 0) is None);
            assert(kv_scan(t, 1, None, 1) is None);
        },
    }
}

/// Line `p` is a content line indented by `d`.
pub open spec fn starts_at(ls: Seq<Seq<char>>, p: int, d: int) -> bool {
    0 <= p < ls.len() && !crate::yaml_scalar::blank_or_comment(ls[p]) && trim(ls[p]).len() > 0
        && crate::yaml_scalar::indent_of(ls[p]) == Some(d)
}

/// The lines an entry's value takes after the entry's line.
pub open spec fn entry_block(v: Value, pad2: Seq<char>) -> Seq<Seq<char>> {
    if inline_value(v) is Some {
        seq![]
    } else {
        block_lines(v, pad2)
    }
}

proof fn lemma_entry_lines_shape(k: Value, v: Value, lead: Seq<char>, pad: Seq<char>)
    ensures
        entry_lines(k, v, lead, pad) == seq![lead + entry_content(k, v)] + entry_block(v, pad + "  "@),
{
    match inline_value(v) {
        Some(t) => {
            assert(lead + key_text(k) + ": "@ + t =~= lead + entry_content(k, v));
            assert(entry_lines(k, v, lead, pad) =~= seq![lead + entry_content(k, v)] + entry_block(v, pad + "  "@));
        },
        None => {
            assert(lead + key_text(k) + ":"@ =~= lead + entry_content(k, v));
        },
    }
}

proof fn lemma_spaces_two(pad: Seq<char>)
    requires
        is_spaces(pad),
    ensures
        is_spaces(pad + "  "@),
        (pad + "  "@).len() == pad.len() + 2,
{
    reveal_strlit("  ");
    assert forall|k: int| 0 <= k < (pad + "  "@).len() implies #[trigger] (pad + "  "@)[k] == ' ' by {
        if k >= pad.len() {
            assert(k - pad.len() == 0 || k - pad.len() == 1);
        }
    }
}

/// Reading an entry line at column `pad2.len() - 2`, the lines of its value
/// (if a collection) following, indented by `pad2`.
#[verifier::spinoff_prover]
proof fn lemma_parse_entry(k: Value, v: Value, pad2: Seq<char>, ls: Seq<Seq<char>>, q: int)
    requires
        key_ok(vview(k)),
        writable(vview(v)),
        is_spaces(pad2),
        pad2.len() >= 2,
        0 <= q < ls.len(),
        lines_at(ls, q + 1, entry_block(v, pad2)),
        stop_at(ls, q + 1 + entry_block(v, pad2).len(), pad2.len() - 1),
    ensures
        crate::yaml_block::entry(ls, q, pad2.len() - 2, entry_content(k, v)) == Ok::<Option<((ValueView, ValueView), nat)>, (int, Seq<char>)>(
            Some(((vview(k), vview(v)), entry_block(v, pad2).len()))),
    decreases v, 2int,
{
    lemma_entry_content(k, v);
    let c = entry_content(k, v);
    let d = pad2.len() - 2;
    lemma_trim_id(c);
    match inline_value(v) {
        Some(t) => {
            lemma_inline_of_writable(v);
            lemma_value_token(v, q);
            assert(crate::yaml_block::scalar_lines(ls, q + 1, t, crate::yaml_scalar::unclosed_quote(t), d + 1) == Ok::<(Seq<char>, nat), (int, Seq<char>)>((t, 0nat)));
            assert(crate::yaml_block::read_scalar(ls, q + 1, t, d + 1, q) == Ok::<(ValueView, nat), (int, Seq<char>)>((vview(v), 0nat)));
        },
        None => {
            lemma_parse_block(v, pad2, ls, q + 1);
            assert(crate::yaml_block::skip_blank(ls, q + 1) == q + 1);
            assert(crate::yaml_block::nested(ls, q + 1, d) == Ok::<(ValueView, nat), (int, Seq<char>)>((vview(v), block_lines(v, pad2).len())));
        },
    }
}

/// Reading a non-empty collection's lines, indented by `pad`.
#[verifier::spinoff_prover]
proof fn lemma_parse_block(v: Value, pad: Seq<char>, ls: Seq<Seq<char>>, p: int)
    requires
        writable(vview(v)),
        inline_value(v) is None,
        is_spaces(pad),
        lines_at(ls, p, block_lines(v, pad)),
        stop_at(ls, p + block_lines(v, pad).len(), pad.len() as int),
    ensures
        crate::yaml_block::node(ls, p, pad.len() as int) == Ok::<(ValueView, nat), (int, Seq<char>)>((vview(v), block_lines(v, pad).len())),
        starts_at(ls, p, pad.len() as int),
    decreases v, 1int,
{
    let d = pad.len() as int;
    match v {
        Value::Mapping(m) => {
            let es = m.entries@;
            let n = es.len() as int;
            lemma_writable_entries(m);
            lemma_parse_range(es, pad, 0, n, ls, p);
            crate::yaml::lemma_pviews_len(es, n);
            assert(pviews(es, n).subrange(0, n) =~= pviews(es, n));
        },
        Value::Sequence(xs) => {
            let n = xs@.len() as int;
            lemma_writable_items(xs);
            lemma_parse_items(xs@, pad, 0, n, ls, p);
            crate::yaml::lemma_vviews_len(xs@, n);
            assert(vviews(xs@, n).subrange(0, n) =~= vviews(xs@, n));
        },
        _ => {},
    }
}

/// Reading entries `lo..n` as a block mapping indented by `pad`.
#[verifier::spinoff_prover]
proof fn lemma_parse_range(es: Seq<(Value, Value)>, pad: Seq<char>, lo: int, n: int, ls: Seq<Seq<char>>, p: int)
    requires
        is_spaces(pad),
        0 <= lo <= n,
        n == es.len(),
        forall|j: int| lo <= j < n ==> key_ok(vview(#[trigger] es[j].0)) && writable(vview(es[j].1)),
        lines_at(ls, p, range_lines(es, pad, lo, n)),
        stop_at(ls, p + range_lines(es, pad, lo, n).len(), pad.len() as int),
    ensures
        crate::yaml_block::mapping(ls, p, pad.len() as int, None) == Ok::<(Seq<(ValueView, ValueView)>, nat), (int, Seq<char>)>(
            (pviews(es, n).subrange(lo, n), range_lines(es, pad, lo, n).len())),
        lo < n ==> starts_at(ls, p, pad.len() as int),
        lo < n ==> !is_item(trim_start(crate::yaml_block::content_at(ls[p], pad.len() as int))),
        lo < n ==> split_kv(trim_start(crate::yaml_block::content_at(ls[p], pad.len() as int))) is Some,
    decreases es, n - lo,
{
    let d = pad.len() as int;
    crate::yaml::lemma_pviews_len(es, n);
    if lo == n {
        assert(range_lines(es, pad, lo, n) =~= Seq::<Seq<char>>::empty());
        assert(pviews(es, n).subrange(lo, n) =~= Seq::<(ValueView, ValueView)>::empty());
        if p < ls.len() {
            assert(crate::yaml_block::skip_blank(ls, p) == p);
        }
    } else {
        let k = es[lo].0;
        let v = es[lo].1;
        lemma_range_split(es, pad, lo, n);
        let e = entry_lines(k, v, pad, pad);
        let rest = range_lines(es, pad, lo + 1, n);
        lemma_lines_at_split(ls, p, e, rest);
        lemma_entry_lines_shape(k, v, pad, pad);
        let c = entry_content(k, v);
        let eb = entry_block(v, pad + "  "@);
        lemma_lines_at_split(ls, p, seq![pad + c], eb);
        lemma_entry_content(k, v);
        lemma_padded(pad, c);
        lemma_spaces_two(pad);
        lemma_parse_range(es, pad, lo + 1, n, ls, p + e.len());
        lemma_parse_entry(k, v, pad + "  "@, ls, p);
        assert(ls[p] == pad + c);
        assert(crate::yaml_block::skip_blank(ls, p) == p);
        assert(crate::yaml_block::content_at(ls[p], d) == c);
        crate::yaml::lemma_pviews_at(es, lo);
        assert(seq![(vview(k), vview(v))] + pviews(es, n).subrange(lo + 1, n) =~= pviews(es, n).subrange(lo, n));
    }
}

/// Reading items `lo..n` as a block sequence indented by `pad`.
#[verifier::spinoff_prover]
proof fn lemma_parse_items(xs: Seq<Value>, pad: Seq<char>, lo: int, n: int, ls: Seq<Seq<char>>, p: int)
    requires
        is_spaces(pad),
        0 <= lo <= n,
        n == xs.len(),
        forall|j: int| lo <= j < n ==> writable(vview(#[trigger] xs[j])),
        lines_at(ls, p, items_lines(xs, pad, lo, n)),
        stop_at(ls, p + items_lines(xs, pad, lo, n).len(), pad.len() as int),
    ensures
        crate::yaml_block::sequence(ls, p, pad.len() as int) == Ok::<(Seq<ValueView>, nat), (int, Seq<char>)>(
            (vviews(xs, n).subrange(lo, n), items_lines(xs, pad, lo, n).len())),
        lo < n ==> starts_at(ls, p, pad.len() as int),
        lo < n ==> is_item(trim_start(crate::yaml_block::content_at(ls[p], pad.len() as int))),
    decreases xs, n - lo,
{
    let d = pad.len() as int;
    crate::yaml::lemma_vviews_len(xs, n);
    if lo == n {
        assert(items_lines(xs, pad, lo, n) =~= Seq::<Seq<char>>::empty());
        assert(vviews(xs, n).subrange(lo, n) =~= Seq::<ValueView>::empty());
        if p < ls.len() {
            assert(crate::yaml_block::skip_blank(ls, p) == p);
        }
    } else {
        let x = xs[lo];
        lemma_items_split(xs, pad, lo, n);
        let it = item_lines(x, pad);
        let rest = items_lines(xs, pad, lo + 1, n);
        lemma_lines_at_split(ls, p, it, rest);
        lemma_parse_items(xs, pad, lo + 1, n, ls, p + it.len());
        lemma_parse_item(x, pad, ls, p);
        let c = item_content(x);
        assert(ls[p] == pad + c);
        assert(crate::yaml_block::skip_blank(ls, p) == p);
        crate::yaml::lemma_vviews_at(xs, lo);
        assert(seq![vview(x)] + vviews(xs, n).subrange(lo + 1, n) =~= vviews(xs, n).subrange(lo, n));
    }
}

/// Reading one item's lines, indented by `pad`.
proof fn lemma_parse_item(x: Value, pad: Seq<char>, ls: Seq<Seq<char>>, q: int)
    requires
        writable(vview(x)),
        is_spaces(pad),
        lines_at(ls, q, item_lines(x, pad)),
        stop_at(ls, q + item_lines(x, pad).len(), pad.len() + 1int),
    ensures
        item_lines(x, pad).len() >= 1,
        item_lines(x, pad)[0] == pad + item_content(x),
        starts_at(ls, q, pad.len() as int),
        crate::yaml_block::content_at(ls[q], pad.len() as int) == item_content(x),
        trim_start(item_content(x)) == item_content(x),
        is_item(item_content(x)),
        crate::yaml_block::seq_item(ls, q, pad.len() as int, item_content(x)) == Ok::<(ValueView, nat), (int, Seq<char>)>(
            (vview(x), (item_lines(x, pad).len() - 1) as nat)),
    decreases x, 3int,
{
    if inline_value(x) is Some {
        lemma_parse_item_inline(x, pad, ls, q);
    } else if x is Mapping {
        lemma_parse_item_map(x, pad, ls, q);
    } else {
        lemma_parse_item_seq(x, pad, ls, q);
    }
}

/// Reading an item written on its dash line.
#[verifier::spinoff_prover]
#[verifier::rlimit(40)]
proof fn lemma_parse_item_inline(x: Value, pad: Seq<char>, ls: Seq<Seq<char>>, q: int)
    requires
        writable(vview(x)),
        inline_value(x) is Some,
        is_spaces(pad),
        lines_at(ls, q, item_lines(x, pad)),
        stop_at(ls, q + item_lines(x, pad).len(), pad.len() + 1int),
    ensures
        item_lines(x, pad).len() >= 1,
        item_lines(x, pad)[0] == pad + item_content(x),
        starts_at(ls, q, pad.len() as int),
        crate::yaml_block::content_at(ls[q], pad.len() as int) == item_content(x),
        trim_start(item_content(x)) == item_content(x),
        is_item(item_content(x)),
        crate::yaml_block::seq_item(ls, q, pad.len() as int, item_content(x)) == Ok::<(ValueView, nat), (int, Seq<char>)>(
            (vview(x), (item_lines(x, pad).len() - 1) as nat)),
{
    reveal_strlit("- ");
    reveal_strlit("-");
    let d = pad.len() as int;
    let il = item_lines(x, pad);
    let c = item_content(x);
    let t = inline_value(x)->0;
    lemma_inline_of_writable(x);
    lemma_value_token(x, q);
    lemma_item_token(x);
    assert(pad + "- "@ + t =~= pad + c);
    assert(il == seq![pad + c]);
    assert(c[0] == '-');
    assert(c.last() == t.last());
    lemma_padded(pad, c);
    assert(il[0] == ls[q]) by {
        lemma_lines_at_split(ls, q, il, seq![]);
        assert(il + seq![] =~= il);
    }
    assert(c.subrange(0, 2) =~= "- "@);
    assert(c.subrange(1, c.len() as int) =~= seq![' '] + t);
    lemma_trim_spaced(t);
    assert(crate::yaml_block::scalar_lines(ls, q + 1, t, crate::yaml_scalar::unclosed_quote(t), d + 1) == Ok::<(Seq<char>, nat), (int, Seq<char>)>((t, 0nat)));
    assert(crate::yaml_block::read_scalar(ls, q + 1, t, d + 1, q) == Ok::<(ValueView, nat), (int, Seq<char>)>((vview(x), 0nat)));
}

/// Reading an item that is a non-empty sequence: a lone dash, its items
/// below it.
#[verifier::spinoff_prover]
#[verifier::rlimit(40)]
proof fn lemma_parse_item_seq(x: Value, pad: Seq<char>, ls: Seq<Seq<char>>, q: int)
    requires
        writable(vview(x)),
        inline_value(x) is None,
        x is Sequence,
        is_spaces(pad),
        lines_at(ls, q, item_lines(x, pad)),
        stop_at(ls, q + item_lines(x, pad).len(), pad.len() + 1int),
    ensures
        item_lines(x, pad).len() >= 1,
        item_lines(x, pad)[0] == pad + item_content(x),
        starts_at(ls, q, pad.len() as int),
        crate::yaml_block::content_at(ls[q], pad.len() as int) == item_content(x),
        trim_start(item_content(x)) == item_content(x),
        is_item(item_content(x)),
        crate::yaml_block::seq_item(ls, q, pad.len() as int, item_content(x)) == Ok::<(ValueView, nat), (int, Seq<char>)>(
            (vview(x), (item_lines(x, pad).len() - 1) as nat)),
    decreases x, 2int,
{
    reveal_strlit("- ");
    reveal_strlit("-");
    reveal_strlit("  ");
    let d = pad.len() as int;
    let il = item_lines(x, pad);
    let c = item_content(x);
    let p2 = pad + "  "@;
    lemma_spaces_two(pad);
    let bl = block_lines(x, p2);
    assert(il == seq![pad + "-"@] + bl);
    lemma_lines_at_split(ls, q, seq![pad + "-"@], bl);
    assert(c == "-"@);
    assert(c.len() == 1 && c[0] == '-');
    lemma_padded(pad, c);
    lemma_parse_block(x, p2, ls, q + 1);
    assert(c.subrange(1, 1) =~= Seq::<char>::empty());
    assert(trim_start(Seq::<char>::empty()) =~= Seq::<char>::empty());
    assert(crate::yaml_block::skip_blank(ls, q + 1) == q + 1);
}

/// Reading an item that is a non-empty mapping: its first entry on the
/// dash line, the others below it.
#[verifier::spinoff_prover]
#[verifier::rlimit(40)]
proof fn lemma_parse_item_map(x: Value, pad: Seq<char>, ls: Seq<Seq<char>>, q: int)
    requires
        writable(vview(x)),
        x is Mapping,
        inline_value(x) is None,
        is_spaces(pad),
        lines_at(ls, q, item_lines(x, pad)),
        stop_at(ls, q + item_lines(x, pad).len(), pad.len() + 1int),
    ensures
        item_lines(x, pad).len() >= 1,
        item_lines(x, pad)[0] == pad + item_content(x),
        starts_at(ls, q, pad.len() as int),
        crate::yaml_block::content_at(ls[q], pad.len() as int) == item_content(x),
        trim_start(item_content(x)) == item_content(x),
        is_item(item_content(x)),
        crate::yaml_block::seq_item(ls, q, pad.len() as int, item_content(x)) == Ok::<(ValueView, nat), (int, Seq<char>)>(
            (vview(x), (item_lines(x, pad).len() - 1) as nat)),
    decreases x, 2int,
{
    reveal_strlit("- ");
    reveal_strlit("-");
    reveal_strlit("  ");
    let d = pad.len() as int;
    let il = item_lines(x, pad);
    let c = item_content(x);
    let m = x->Mapping_0;
    let es = m.entries@;
    let n = es.len() as int;
    lemma_writable_entries(m);
    crate::yaml::lemma_pviews_len(es, n);
    let k0 = es[0].0;
    let v0 = es[0].1;
    let c0 = entry_content(k0, v0);
    let p2 = pad + "  "@;
    lemma_spaces_two(pad);
    lemma_spaces_two(p2);
    let e0 = entry_lines(k0, v0, pad + "- "@, p2);
    let rest = range_lines(es, p2, 1, n);
    assert(il == e0 + rest);
    lemma_entry_lines_shape(k0, v0, pad + "- "@, p2);
    let eb = entry_block(v0, p2 + "  "@);
    lemma_lines_at_split(ls, q, e0, rest);
    lemma_lines_at_split(ls, q, seq![pad + "- "@ + c0], eb);
    assert(pad + "- "@ + c0 =~= pad + c);
    lemma_entry_content(k0, v0);
    assert(c[0] == '-');
    assert(c.last() == c0.last());
    lemma_padded(pad, c);
    lemma_parse_range(es, p2, 1, n, ls, q + e0.len());
    lemma_parse_entry(k0, v0, p2 + "  "@, ls, q);
    assert(c.subrange(0, 2) =~= "- "@);
    let dash_rest = c.subrange(1, c.len() as int);
    assert(dash_rest =~= seq![' '] + c0);
    lemma_trim_spaced(c0);
    assert(dash_rest.subrange(0, dash_rest.len() - c0.len()) =~= seq![' ']);
    assert(crate::text::byte_len(seq![' ']) == 1) by {
        assert(seq![' '].drop_last() =~= Seq::<char>::empty());
        assert(crate::text::byte_len(Seq::<char>::empty()) == 0);
        assert(seq![' '].last() == ' ');
        assert((' ' as u32) == 32);
        assert(crate::text::utf8_len(' ') == 1);
    }
    assert(crate::yaml_block::leading_ws_bytes(dash_rest) == 1);
    lemma_trim_id(c0);
    assert(!crate::yaml_scalar::blank_or_comment(c0));
    crate::yaml::lemma_pviews_at(es, 0);
    assert(seq![(vview(k0), vview(v0))] + pviews(es, n).subrange(1, n) =~= pviews(es, n));
    assert(crate::yaml_block::mapping(ls, q, d + 2, Some(c0)) == Ok::<(Seq<(ValueView, ValueView)>, nat), (int, Seq<char>)>(
        (pviews(es, n), il.len())));
}

/// No line is a `---` line.
pub open spec fn no_fence(ls: Seq<Seq<char>>) -> bool {
    forall|i: int| 0 <= i < ls.len() ==> trim_end(#[trigger] ls[i]) != "---"@
}

proof fn lemma_no_fence_concat(a: Seq<Seq<char>>, b: Seq<Seq<char>>)
    requires
        no_fence(a),
        no_fence(b),
    ensures
        no_fence(a + b),
{
    assert forall|i: int| 0 <= i < (a + b).len() implies trim_end(#[trigger] (a + b)[i]) != "---"@ by {
        if i < a.len() {
            assert((a + b)[i] == a[i]);
        } else {
            assert((a + b)[i] == b[i - a.len()]);
        }
    }
}

/// A line that ends in a non-space and differs from `-` at one of its first
/// three places is not a `---` line.
proof fn lemma_not_fence(l: Seq<char>, i: int)
    requires
        l.len() > 0,
        !is_ws(l.last()),
        0 <= i < 3,
        l.len() != 3 || l[i] != '-',
    ensures
        trim_end(l) != "---"@,
        no_fence(seq![l]),
{
    reveal_strlit("---");
    assert(skip_ws_back(l, 0, l.len() as int) == l.len());
    assert(trim_end(l) =~= l);
    if l == "---"@ {
        assert(l[i] == "---"@[i]);
    }
    assert forall|j: int| 0 <= j < seq![l].len() implies trim_end(#[trigger] seq![l][j]) != "---"@ by {
        assert(seq![l][j] == l);
    }
}

proof fn lemma_fence_free_entry(k: Value, v: Value, lead: Seq<char>, pad: Seq<char>)
    requires
        key_ok(vview(k)),
        writable(vview(v)),
        is_spaces(pad),
    ensures
        no_fence(entry_lines(k, v, lead, pad)),
    decreases v, 1int,
{
    reveal_strlit(": ");
    reveal_strlit(":");
    lemma_key_token(k, seq![]);
    let kt = key_text(k);
    let j: int = (lead.len() + kt.len()) as int;
    match inline_value(v) {
        Some(t) => {
            lemma_inline_of_writable(v);
            lemma_value_token(v, 0);
            let l = lead + kt + ": "@ + t;
            assert(l[j] == ':');
            assert(l.last() == t.last());
            lemma_not_fence(l, if j < 3 { j } else { 0 });
        },
        None => {
            let l = lead + kt + ":"@;
            assert(l.last() == ':');
            assert(l[l.len() - 1] == ':');
            lemma_not_fence(l, 2);
            lemma_spaces_two(pad);
            lemma_fence_free_block(v, pad + "  "@);
            lemma_no_fence_concat(seq![l], block_lines(v, pad + "  "@));
        },
    }
}

proof fn lemma_fence_free_block(v: Value, pad: Seq<char>)
    requires
        writable(vview(v)),
        is_spaces(pad),
    ensures
        no_fence(block_lines(v, pad)),
    decreases v, 0int,
{
    match v {
        Value::Mapping(m) => {
            lemma_writable_entries(m);
            lemma_fence_free_range(m.entries@, pad, 0, m.entries@.len() as int);
        },
        Value::Sequence(xs) => {
            lemma_writable_items(xs);
            lemma_fence_free_items(xs@, pad, 0, xs@.len() as int);
        },
        _ => {},
    }
}

proof fn lemma_fence_free_range(es: Seq<(Value, Value)>, pad: Seq<char>, lo: int, n: int)
    requires
        0 <= lo <= n <= es.len(),
        forall|j: int| lo <= j < n ==> key_ok(vview(#[trigger] es[j].0)) && writable(vview(es[j].1)),
        is_spaces(pad),
    ensures
        no_fence(range_lines(es, pad, lo, n)),
    decreases es, n,
{
    if n > lo {
        lemma_fence_free_range(es, pad, lo, n - 1);
        lemma_fence_free_entry(es[n - 1].0, es[n - 1].1, pad, pad);
        lemma_no_fence_concat(range_lines(es, pad, lo, n - 1), entry_lines(es[n - 1].0, es[n - 1].1, pad, pad));
    }
}

proof fn lemma_fence_free_items(xs: Seq<Value>, pad: Seq<char>, lo: int, n: int)
    requires
        0 <= lo <= n <= xs.len(),
        forall|j: int| lo <= j < n ==> writable(vview(#[trigger] xs[j])),
        is_spaces(pad),
    ensures
        no_fence(items_lines(xs, pad, lo, n)),
    decreases xs, n,
{
    if n > lo {
        lemma_fence_free_items(xs, pad, lo, n - 1);
        lemma_fence_free_item(xs[n - 1], pad);
        lemma_no_fence_concat(items_lines(xs, pad, lo, n - 1), item_lines(xs[n - 1], pad));
    }
}

proof fn lemma_fence_free_item(x: Value, pad: Seq<char>)
    requires
        writable(vview(x)),
        is_spaces(pad),
    ensures
        no_fence(item_lines(x, pad)),
    decreases x, 1int,
{
    reveal_strlit("- ");
    reveal_strlit("-");
    lemma_spaces_two(pad);
    match inline_value(x) {
        Some(t) => {
            lemma_inline_of_writable(x);
            lemma_value_token(x, 0);
            let l = pad + "- "@ + t;
            let j: int = pad.len() + 1int;
            assert(l[j] == ' ');
            assert(l.last() == t.last());
            lemma_not_fence(l, if j < 3 { j } else { 0 });
        },
        None => match x {
            Value::Mapping(m) => {
                lemma_writable_entries(m);
                let es = m.entries@;
                lemma_fence_free_entry(es[0].0, es[0].1, pad + "- "@, pad + "  "@);
                lemma_fence_free_range(es, pad + "  "@, 1, es.len() as int);
                lemma_no_fence_concat(entry_lines(es[0].0, es[0].1, pad + "- "@, pad + "  "@), range_lines(es, pad + "  "@, 1, es.len() as int));
            },
            Value::Sequence(ys) => {
                lemma_writable_items(ys);
                let l = pad + "-"@;
                assert(l.last() == '-');
                if l.len() == 3 {
                    assert(l[0] == pad[0]);
                }
                lemma_not_fence(l, 0);
                lemma_fence_free_items(ys@, pad + "  "@, 0, ys@.len() as int);
                lemma_no_fence_concat(seq![l], items_lines(ys@, pad + "  "@, 0, ys@.len() as int));
            },
            _ => {},
        },
    }
}

/// A line and its break, not a `---` line, do not close frontmatter.
proof fn lemma_closing_step(s: Seq<char>, a: int, l: Seq<char>)
    requires
        0 <= a,
        a + l.len() + 1 <= s.len(),
        s.subrange(a, a + l.len() + 1) == l + "\n"@,
        forall|k: int| 0 <= k < l.len() ==> #[trigger] l[k] != '\n',
        trim_end(strip_cr(l)) != "---"@,
    ensures
        crate::document::closing_from(s, a) == crate::document::closing_from(s, a + l.len() + 1),
{
    reveal_strlit("\n");
    let e = a + l.len();
    crate::text::lemma_next_nl_bounds(s, a);
    assert(s[e] == '\n') by {
        assert(s.subrange(a, a + l.len() + 1)[l.len() as int] == '\n');
    }
    assert forall|k: int| a <= k < e implies #[trigger] s[k] != '\n' by {
        assert(s.subrange(a, a + l.len() + 1)[k - a] == l[k - a]);
    }
    let nn = crate::text::next_nl(s, a);
    if nn < e {
        assert(s[nn] != '\n');
    }
    assert(nn == e);
    assert(s.subrange(a, e) =~= l);
}

/// Text none of whose lines is `---` does not close frontmatter.
proof fn lemma_closing_text(s: Seq<char>, a: int, y: Seq<char>)
    requires
        0 <= a,
        a + y.len() <= s.len(),
        s.subrange(a, a + y.len()) == y,
        y.len() > 0 ==> y.last() == '\n',
        no_fence(lines(y)),
    ensures
        crate::document::closing_from(s, a) == crate::document::closing_from(s, a + y.len()),
    decreases y.len(),
{
    if y.len() > 0 {
        reveal_strlit("\n");
        crate::text::lemma_next_nl_bounds(y, 0);
        let e = crate::text::next_nl(y, 0);
        if e == y.len() {
            assert(y[y.len() - 1] != '\n');
        }
        let l = y.subrange(0, e);
        let r = y.subrange(e + 1, y.len() as int);
        let ln = l + "\n"@;
        assert(y =~= ln + r);
        assert forall|k: int| 0 <= k < l.len() implies #[trigger] ln[k] != '\n' by {
            assert(ln[k] == y[k]);
        }
        assert forall|k: int| 0 <= k < l.len() implies #[trigger] l[k] != '\n' by {
            assert(l[k] == y[k]);
        }
        lemma_lines_scan_line(ln, l.len() as int, 0);
        assert(ln.subrange(0, l.len() as int) =~= l);
        lemma_lines_append(ln, r);
        assert(lines(y) == seq![strip_cr(l)] + lines(r));
        assert(trim_end(strip_cr(l)) != "---"@) by {
            assert(lines(y)[0] == strip_cr(l));
        }
        assert forall|i: int| 0 <= i < lines(r).len() implies trim_end(#[trigger] lines(r)[i]) != "---"@ by {
            assert(lines(y)[i + 1] == lines(r)[i]);
        }
        if r.len() > 0 {
            assert(r.last() == y.last());
        }
        assert(y.subrange(0, ln.len() as int) =~= ln);
        assert(y.subrange(ln.len() as int, ln.len() + r.len() as int) =~= r);
        lemma_sub_of(s, a, y, 0, ln);
        lemma_sub_of(s, a, y, ln.len() as int, r);
        lemma_closing_step(s, a, l);
        lemma_closing_text(s, a + e + 1, r);
    }
}

/// A mapping of writable entries, written by the emitter, reads back as the
/// same entries; with no entries the text is empty and reads as null.
pub proof fn lemma_mapping_round_trip(m: Mapping)
    requires
        writable_entries(m@),
    ensures
        crate::yaml_block::parse_spec(mapping_text(m)) == (if m@.len() == 0 {
            Ok::<ValueView, (int, Seq<char>)>(ValueView::Null)
        } else {
            Ok::<ValueView, (int, Seq<char>)>(ValueView::Pairs(m@))
        }),
        no_fence(lines(mapping_text(m))),
        mapping_text(m).len() > 0 ==> mapping_text(m).last() == '\n',
{
    let es = m.entries@;
    let n = es.len() as int;
    crate::yaml::lemma_pviews_len(es, n);
    assert(vview(Value::Mapping(m)) == ValueView::Pairs(m@));
    lemma_writable_entries(m);
    assert(is_spaces(Seq::<char>::empty()));
    assert(one_line(Seq::<char>::empty()));
    lemma_text_range(es, seq![], 0, n);
    lemma_fence_free_range(es, seq![], 0, n);
    let ls = lines(mapping_text(m));
    assert(ls == range_lines(es, seq![], 0, n));
    if n > 0 {
        assert(ls.subrange(0, ls.len() as int) =~= ls);
        lemma_parse_range(es, seq![], 0, n, ls, 0);
        assert(crate::yaml_block::skip_blank(ls, 0) == 0);
        assert(pviews(es, n).subrange(0, n) =~= pviews(es, n));
        assert(crate::yaml_block::node(ls, 0, 0) == Ok::<(ValueView, nat), (int, Seq<char>)>((ValueView::Pairs(m@), ls.len())));
        assert(crate::yaml_block::skip_blank(ls, ls.len() as int) == ls.len());
    } else {
        assert(mapping_text(m) =~= Seq::<char>::empty());
        assert(lines(Seq::<char>::empty()) =~= Seq::<Seq<char>>::empty());
    }
}

/// A document written from writable frontmatter entries and any body reads
/// back as those entries and that body.
pub proof fn lemma_document_text_round_trip(m: Mapping, body: Seq<char>)
    requires
        writable_entries(m@),
    ensures
        crate::document::doc_spec(crate::document::document_text(mapping_text(m), body)) == Ok::<
            (Seq<(ValueView, ValueView)>, Seq<char>),
            crate::document::DocumentErrorView,
        >((m@, body)),
{
    let y = mapping_text(m);
    let f = "---\n"@;
    reveal_strlit("---\n");
    let s = crate::document::document_text(y, body);
    lemma_mapping_round_trip(m);
    assert(s == f + y + f + body);
    assert(s.subrange(4, 4int + y.len()) =~= y);
    lemma_closing_text(s, 4, y);
    let c = 4int + y.len();
    assert(s.subrange(0, 4) =~= f);
    assert(s.subrange(c, c + 4) =~= f);
    lemma_fence_at(s, 0);
    lemma_fence_at(s, c);
    assert(crate::document::closing_from(s, c) == Some(c));
    assert(crate::document::doc_layout(s) == Some(Some((4int, c, c + 4))));
    assert(s.subrange(c + 4, s.len() as int) =~= body);
    if m@.len() == 0 {
        assert(m@ =~= Seq::<(ValueView, ValueView)>::empty());
    }
}

/// A character a float's text may hold.
spec fn safe_char(c: char) -> bool {
    ('a' <= c <= 'z') || ('A' <= c <= 'Z') || is_dec(c) || c == '.' || c == '+' || c == '-'
}

proof fn lemma_safe_chars(x: Seq<char>)
    requires
        x.len() > 0,
        forall|k: int| 0 <= k < x.len() ==> safe_char(#[trigger] x[k]),
        !(x.len() > 1 && x[0] == '-' && x[1] == ' '),
        x != "-"@,
    ensures
        float_token_syntax(x),
{
    reveal_strlit("- ");
    reveal_strlit("-");
    assert forall|k: int| 0 <= k < x.len() implies !breaks_plain(#[trigger] x[k]) by {
        assert(safe_char(x[k]));
    }
    assert(safe_char(x[0]));
    assert(safe_char(x[x.len() - 1]));
    assert(x.last() == x[x.len() - 1]);
    if has_pair(x, ':', ' ') {
        let i = choose|i: int| 0 <= i && i + 1 < x.len() && #[trigger] x[i] == ':' && x[i + 1] == ' ';
        assert(safe_char(x[i]));
    }
    if has_pair(x, ' ', '#') {
        let i = choose|i: int| 0 <= i && i + 1 < x.len() && #[trigger] x[i] == ' ' && x[i + 1] == '#';
        assert(safe_char(x[i]));
    }
    if x.len() >= 2 && x.subrange(0, 2) == "- "@ {
        assert(x.subrange(0, 2)[1] == x[1]);
        assert(safe_char(x[1]));
    }
}

/// The text conditions of [`float_token`].
spec fn float_token_syntax(s: Seq<char>) -> bool {
    &&& plain_safe(s)
    &&& s[0] != '#' && s[0] != '|' && s[0] != '>'
    &&& !is_item(s)
}

proof fn lemma_digit_run(s: Seq<char>, i: int)
    requires
        0 <= i,
    ensures
        crate::yaml_scalar::digit_run(s, i) >= 0,
        i < s.len() ==> i + crate::yaml_scalar::digit_run(s, i) <= s.len(),
        forall|k: int| i <= k < i + crate::yaml_scalar::digit_run(s, i) ==> is_dec(#[trigger] s[k]),
    decreases s.len() - i,
{
    if 0 <= i < s.len() && is_dec(s[i]) {
        lemma_digit_run(s, i + 1);
    }
}

/// A plain text read as a float is a float token.
proof fn lemma_float_read(x: Seq<char>)
    requires
        plain_value(x) == ValueView::Float(x),
    ensures
        float_token(x),
{
    reveal_strlit("-");
    reveal_strlit(".inf");
    reveal_strlit(".Inf");
    reveal_strlit(".INF");
    reveal_strlit("+.inf");
    reveal_strlit("-.inf");
    reveal_strlit("-.Inf");
    reveal_strlit("-.INF");
    reveal_strlit(".nan");
    reveal_strlit(".NaN");
    reveal_strlit(".NAN");
    reveal_strlit("");
    reveal_strlit("~");
    reveal_strlit("null");
    reveal_strlit("Null");
    reveal_strlit("NULL");
    reveal_strlit("true");
    reveal_strlit("True");
    reveal_strlit("TRUE");
    reveal_strlit("false");
    reveal_strlit("False");
    reveal_strlit("FALSE");
    if special_plain(x) is Some {
    if x == ".inf"@ {
        assert(x.len() == 4);
        assert forall|k: int| 0 <= k < x.len() implies safe_char(#[trigger] x[k]) by {
            if k == 0 {
            } else if k == 1 {
            } else if k == 2 {
            } else if k == 3 {
            }
        }
    }
    if x == ".Inf"@ {
        assert(x.len() == 4);
        assert forall|k: int| 0 <= k < x.len() implies safe_char(#[trigger] x[k]) by {
            if k == 0 {
            } else if k == 1 {
            } else if k == 2 {
            } else if k == 3 {
            }
        }
    }
    if x == ".INF"@ {
        assert(x.len() == 4);
        assert forall|k: int| 0 <= k < x.len() implies safe_char(#[trigger] x[k]) by {
            if k == 0 {
            } else if k == 1 {
            } else if k == 2 {
            } else if k == 3 {
            }
        }
    }
    if x == "+.inf"@ {
        assert(x.len() == 5);
        assert forall|k: int| 0 <= k < x.len() implies safe_char(#[trigger] x[k]) by {
            if k == 0 {
            } else if k == 1 {
            } else if k == 2 {
            } else if k == 3 {
            } else if k == 4 {
            }
        }
    }
    if x == "-.inf"@ {
        assert(x.len() == 5);
        assert forall|k: int| 0 <= k < x.len() implies safe_char(#[trigger] x[k]) by {
            if k == 0 {
            } else if k == 1 {
            } else if k == 2 {
            } else if k == 3 {
            } else if k == 4 {
            }
        }
    }
    if x == "-.Inf"@ {
        assert(x.len() == 5);
        assert forall|k: int| 0 <= k < x.len() implies safe_char(#[trigger] x[k]) by {
            if k == 0 {
            } else if k == 1 {
            } else if k == 2 {
            } else if k == 3 {
            } else if k == 4 {
            }
        }
    }
    if x == "-.INF"@ {
        assert(x.len() == 5);
        assert forall|k: int| 0 <= k < x.len() implies safe_char(#[trigger] x[k]) by {
            if k == 0 {
            } else if k == 1 {
            } else if k == 2 {
            } else if k == 3 {
            } else if k == 4 {
            }
        }
    }
    if x == ".nan"@ {
        assert(x.len() == 4);
        assert forall|k: int| 0 <= k < x.len() implies safe_char(#[trigger] x[k]) by {
            if k == 0 {
            } else if k == 1 {
            } else if k == 2 {
            } else if k == 3 {
            }
        }
    }
    if x == ".NaN"@ {
        assert(x.len() == 4);
        assert forall|k: int| 0 <= k < x.len() implies safe_char(#[trigger] x[k]) by {
            if k == 0 {
            } else if k == 1 {
            } else if k == 2 {
            } else if k == 3 {
            }
        }
    }
    if x == ".NAN"@ {
        assert(x.len() == 4);
        assert forall|k: int| 0 <= k < x.len() implies safe_char(#[trigger] x[k]) by {
            if k == 0 {
            } else if k == 1 {
            } else if k == 2 {
            } else if k == 3 {
            }
        }
    }
        assert(x.len() >= 4);
        assert(x != "-"@);
        lemma_safe_chars(x);
    } else {
        let b = unsigned(x);
        let a = crate::yaml_scalar::digit_run(b, 0);
        lemma_digit_run(b, 0);
        let f = crate::yaml_scalar::digit_run(b, a + 1);
        lemma_digit_run(b, a + 1);
        let e = a + 1 + f;
        assert forall|k: int| 0 <= k < b.len() implies safe_char(#[trigger] b[k]) by {
            if k < a {
            } else if k == a {
            } else if k < e {
            } else if k == e {
            } else {
                let t = if e + 1 < b.len() && (b[e + 1] == '+' || b[e + 1] == '-') {
                    e + 2
                } else {
                    e + 1
                };
                lemma_digit_run(b, t);
                if k >= t {
                    assert(is_dec(b[k]));
                }
            }
        }
        if x.len() > 0 && (x[0] == '+' || x[0] == '-') {
            assert(b == x.drop_first());
            assert forall|k: int| 0 <= k < x.len() implies safe_char(#[trigger] x[k]) by {
                if k > 0 {
                    assert(x[k] == b[k - 1]);
                }
            }
            assert(x[1] == b[0]);
            assert(safe_char(b[0]));
        } else {
            assert(b == x);
        }
        assert(x != "-"@) by {
            if x == "-"@ {
                assert(x.len() == 1 && x[0] == '-');
                assert(b.len() == 0);
            }
        }
        lemma_safe_chars(x);
    }
}

proof fn lemma_items_of(vs: Seq<ValueView>, n: int)
    requires
        0 <= n <= vs.len(),
        forall|j: int| 0 <= j < n ==> writable(#[trigger] vs[j]),
    ensures
        writable_items(vs, n),
    decreases n,
{
    if n > 0 {
        lemma_items_of(vs, n - 1);
    }
}

proof fn lemma_pairs_of(es: Seq<(ValueView, ValueView)>, n: int)
    requires
        0 <= n <= es.len(),
        forall|j: int| 0 <= j < n ==> key_ok(#[trigger] es[j].0) && writable(es[j].1),
    ensures
        writable_pairs(es, n),
    decreases n,
{
    if n > 0 {
        lemma_pairs_of(es, n - 1);
    }
}

/// All items writable.
spec fn all_writable(vs: Seq<ValueView>) -> bool {
    forall|j: int| 0 <= j < vs.len() ==> writable(#[trigger] vs[j])
}

/// All entries with scalar keys and writable values.
spec fn all_pairs(es: Seq<(ValueView, ValueView)>) -> bool {
    forall|j: int| 0 <= j < es.len() ==> key_ok(#[trigger] es[j].0) && writable(es[j].1)
}

proof fn lemma_all_writable_cons(v: ValueView, vs: Seq<ValueView>)
    requires
        writable(v),
        all_writable(vs),
    ensures
        all_writable(seq![v] + vs),
{
    assert forall|j: int| 0 <= j < (seq![v] + vs).len() implies writable(#[trigger] (seq![v] + vs)[j]) by {
        if j > 0 {
            assert((seq![v] + vs)[j] == vs[j - 1]);
        }
    }
}

proof fn lemma_all_pairs_cons(e: (ValueView, ValueView), es: Seq<(ValueView, ValueView)>)
    requires
        key_ok(e.0),
        writable(e.1),
        all_pairs(es),
    ensures
        all_pairs(seq![e] + es),
{
    assert forall|j: int| 0 <= j < (seq![e] + es).len() implies key_ok(#[trigger] (seq![e] + es)[j].0) && writable(
        (seq![e] + es)[j].1,
    ) by {
        if j > 0 {
            assert((seq![e] + es)[j] == es[j - 1]);
        }
    }
}

proof fn lemma_items_writable(vs: Seq<ValueView>)
    requires
        all_writable(vs),
    ensures
        writable(ValueView::List(vs)),
{
    lemma_items_of(vs, vs.len() as int);
}

proof fn lemma_pairs_writable(es: Seq<(ValueView, ValueView)>)
    requires
        all_pairs(es),
    ensures
        writable(ValueView::Pairs(es)),
{
    lemma_pairs_of(es, es.len() as int);
}

/// A plain scalar's value is a scalar that reads back.
proof fn lemma_plain_read_ok(x: Seq<char>)
    ensures
        key_ok(plain_value(x)),
        writable(plain_value(x)),
{
    if plain_value(x) is Float {
        lemma_float_read(x);
    }
}

/// A scalar token's value is a scalar that reads back.
proof fn lemma_scalar_read_ok(token: Seq<char>)
    ensures
        scalar_spec(token) is Ok ==> key_ok(scalar_spec(token)->Ok_0) && writable(scalar_spec(token)->Ok_0),
{
    let t = trim(token);
    if t.len() > 0 && t[0] != '"' && t[0] != '\'' {
        lemma_plain_read_ok(crate::yaml_scalar::strip_comment(t));
    }
}

proof fn lemma_flow_scalar_ok(cs: Seq<char>, p: int)
    ensures
        crate::yaml_flow::flow_scalar(cs, p) is Ok ==> key_ok(crate::yaml_flow::flow_scalar(cs, p)->Ok_0.0) && writable(
            crate::yaml_flow::flow_scalar(cs, p)->Ok_0.0,
        ),
{
    let q = skip_ws(cs, p, cs.len() as int);
    if q < cs.len() && !(cs[q] == '"' || cs[q] == '\'') {
        let j = crate::yaml_flow::plain_end(cs, q);
        lemma_plain_read_ok(trim(cs.subrange(q, j)));
    }
}

proof fn lemma_flow_value_ok(cs: Seq<char>, p: int)
    ensures
        crate::yaml_flow::flow_value(cs, p) is Ok ==> writable(crate::yaml_flow::flow_value(cs, p)->Ok_0.0),
    decreases crate::yaml_flow::rem(cs.len() as int, p), 1nat,
{
    let q = skip_ws(cs, p, cs.len() as int);
    if 0 <= p <= cs.len() && q < cs.len() {
        crate::text::lemma_skip_ws_bounds(cs, p, cs.len() as int);
        if cs[q] == '[' {
            lemma_seq_items_ok(cs, q + 1);
            if crate::yaml_flow::seq_items(cs, q + 1) is Ok {
                lemma_items_writable(crate::yaml_flow::seq_items(cs, q + 1)->Ok_0.0);
            }
        } else if cs[q] == '{' {
            lemma_map_items_ok(cs, q + 1);
            if crate::yaml_flow::map_items(cs, q + 1) is Ok {
                lemma_pairs_writable(crate::yaml_flow::map_items(cs, q + 1)->Ok_0.0);
            }
        } else {
            lemma_flow_scalar_ok(cs, q);
        }
    }
}

proof fn lemma_seq_items_ok(cs: Seq<char>, p: int)
    ensures
        crate::yaml_flow::seq_items(cs, p) is Ok ==> all_writable(crate::yaml_flow::seq_items(cs, p)->Ok_0.0),
    decreases crate::yaml_flow::rem(cs.len() as int, p), 2nat,
{
    let q = skip_ws(cs, p, cs.len() as int);
    if 0 <= p <= cs.len() && q < cs.len() && cs[q] != ']' {
        crate::text::lemma_skip_ws_bounds(cs, p, cs.len() as int);
        lemma_flow_value_ok(cs, q);
        match crate::yaml_flow::flow_value(cs, q) {
            Ok((v, c)) => {
                let r = q + c;
                let r2 = skip_ws(cs, r, cs.len() as int);
                if r2 < cs.len() && cs[r2] == ',' {
                    if r <= cs.len() {
                        crate::text::lemma_skip_ws_bounds(cs, r, cs.len() as int);
                    }
                    lemma_seq_items_ok(cs, r2 + 1);
                    if crate::yaml_flow::seq_items(cs, r2 + 1) is Ok {
                        lemma_all_writable_cons(v, crate::yaml_flow::seq_items(cs, r2 + 1)->Ok_0.0);
                    }
                } else {
                    lemma_all_writable_cons(v, seq![]);
                    assert(seq![v] + Seq::<ValueView>::empty() =~= seq![v]);
                }
            },
            Err(_) => {},
        }
    }
}

proof fn lemma_map_items_ok(cs: Seq<char>, p: int)
    ensures
        crate::yaml_flow::map_items(cs, p) is Ok ==> all_pairs(crate::yaml_flow::map_items(cs, p)->Ok_0.0),
    decreases crate::yaml_flow::rem(cs.len() as int, p), 2nat,
{
    let q = skip_ws(cs, p, cs.len() as int);
    if 0 <= p <= cs.len() && q < cs.len() && cs[q] != '}' {
        crate::text::lemma_skip_ws_bounds(cs, p, cs.len() as int);
        lemma_flow_scalar_ok(cs, q);
        match crate::yaml_flow::flow_scalar(cs, q) {
            Ok((k, c)) => {
                let r = skip_ws(cs, q + c, cs.len() as int);
                if q + c <= cs.len() {
                    crate::text::lemma_skip_ws_bounds(cs, q + c, cs.len() as int);
                }
                if r < cs.len() && cs[r] == ':' {
                    lemma_flow_value_ok(cs, r + 1);
                }
                let val: Result<(ValueView, int), Seq<char>> = if r < cs.len() && cs[r] == ':' {
                    match crate::yaml_flow::flow_value(cs, r + 1) {
                        Err(m) => Err(m),
                        Ok((v, c2)) => Ok((v, r + 1 + c2)),
                    }
                } else {
                    Ok((ValueView::Null, r))
                };
                match val {
                    Ok((v, after)) => {
                        let r3 = skip_ws(cs, after, cs.len() as int);
                        if r3 < cs.len() && cs[r3] == ',' {
                            if 0 <= after <= cs.len() {
                                crate::text::lemma_skip_ws_bounds(cs, after, cs.len() as int);
                            }
                            lemma_map_items_ok(cs, r3 + 1);
                            if crate::yaml_flow::map_items(cs, r3 + 1) is Ok {
                                lemma_all_pairs_cons((k, v), crate::yaml_flow::map_items(cs, r3 + 1)->Ok_0.0);
                            }
                        } else {
                            lemma_all_pairs_cons((k, v), seq![]);
                            assert(seq![(k, v)] + Seq::<(ValueView, ValueView)>::empty() =~= seq![(k, v)]);
                        }
                    },
                    Err(_) => {},
                }
            },
            Err(_) => {},
        }
    }
}

proof fn lemma_read_scalar_ok(ls: Seq<Seq<char>>, p: int, first: Seq<char>, min: int, line: int)
    ensures
        crate::yaml_block::read_scalar(ls, p, first, min, line) is Ok ==> writable(
            crate::yaml_block::read_scalar(ls, p, first, min, line)->Ok_0.0,
        ),
{
    if first.len() > 0 && (first[0] == '[' || first[0] == '{') {
        let t = trim(first);
        if t.len() > 0 && (t[0] == '[' || t[0] == '{') {
            lemma_flow_value_ok(t, 0);
        } else {
            lemma_scalar_read_ok(t);
        }
    } else {
        match crate::yaml_block::scalar_lines(ls, p, first, crate::yaml_scalar::unclosed_quote(first), min) {
            Ok((t, c)) => {
                lemma_scalar_read_ok(t);
            },
            Err(_) => {},
        }
    }
}

proof fn lemma_node_ok(ls: Seq<Seq<char>>, p: int, ind: int)
    ensures
        crate::yaml_block::node(ls, p, ind) is Ok ==> writable(crate::yaml_block::node(ls, p, ind)->Ok_0.0),
    decreases crate::yaml_flow::rem(ls.len() as int, p), 5nat,
{
    if 0 <= p < ls.len() {
        let trimmed = trim_start(crate::yaml_block::content_at(ls[p], ind));
        if is_item(trimmed) {
            lemma_sequence_ok(ls, p, ind);
            if crate::yaml_block::sequence(ls, p, ind) is Ok {
                lemma_items_writable(crate::yaml_block::sequence(ls, p, ind)->Ok_0.0);
            }
        } else if split_kv(trimmed) is Some {
            lemma_mapping_ok(ls, p, ind, None);
            if crate::yaml_block::mapping(ls, p, ind, None) is Ok {
                lemma_pairs_writable(crate::yaml_block::mapping(ls, p, ind, None)->Ok_0.0);
            }
        } else {
            lemma_read_scalar_ok(ls, p + 1, trimmed, ind, p);
        }
    }
}

proof fn lemma_nested_ok(ls: Seq<Seq<char>>, p: int, parent: int)
    ensures
        crate::yaml_block::nested(ls, p, parent) is Ok ==> writable(crate::yaml_block::nested(ls, p, parent)->Ok_0.0),
    decreases crate::yaml_flow::rem(ls.len() as int, p), 6nat,
{
    let q = crate::yaml_block::skip_blank(ls, p);
    if p >= 0 && q < ls.len() {
        crate::yaml_block::lemma_skip_blank(ls, p);
        match crate::yaml_scalar::indent_of(ls[q]) {
            Some(ii) => {
                if ii > parent {
                    lemma_node_ok(ls, q, ii);
                } else if ii == parent && is_item(crate::yaml_block::content_at(ls[q], ii)) {
                    lemma_sequence_ok(ls, q, ii);
                    if crate::yaml_block::sequence(ls, q, ii) is Ok {
                        lemma_items_writable(crate::yaml_block::sequence(ls, q, ii)->Ok_0.0);
                    }
                }
            },
            None => {},
        }
    }
}

proof fn lemma_entry_ok(ls: Seq<Seq<char>>, q: int, ind: int, content: Seq<char>)
    ensures
        crate::yaml_block::entry(ls, q, ind, content) is Ok && crate::yaml_block::entry(ls, q, ind, content)->Ok_0 is Some
            ==> key_ok(crate::yaml_block::entry(ls, q, ind, content)->Ok_0->Some_0.0.0) && writable(
            crate::yaml_block::entry(ls, q, ind, content)->Ok_0->Some_0.0.1,
        ),
    decreases crate::yaml_flow::rem(ls.len() as int, q), 0nat,
{
    let trimmed = trim_start(content);
    if 0 <= q < ls.len() && !is_item(trimmed) {
        match split_kv(trimmed) {
            Some((k, rest)) => {
                lemma_scalar_read_ok(k);
                match rest {
                    Some(r) => {
                        if !(r[0] == '|' || r[0] == '>') {
                            lemma_read_scalar_ok(ls, q + 1, r, ind + 1, q);
                        }
                    },
                    None => {
                        lemma_nested_ok(ls, q + 1, ind);
                    },
                }
            },
            None => {},
        }
    }
}

proof fn lemma_mapping_ok(ls: Seq<Seq<char>>, p: int, ind: int, ov: Option<Seq<char>>)
    ensures
        crate::yaml_block::mapping(ls, p, ind, ov) is Ok ==> all_pairs(crate::yaml_block::mapping(ls, p, ind, ov)->Ok_0.0),
    decreases crate::yaml_flow::rem(ls.len() as int, p), if ov is Some { 2nat } else { 1nat },
{
    if 0 <= p < ls.len() {
        if ov is Some && crate::yaml_scalar::blank_or_comment(ov->0) {
            lemma_mapping_ok(ls, p + 1, ind, None);
        } else {
            let q = if ov is Some { p } else { crate::yaml_block::skip_blank(ls, p) };
            crate::yaml_block::lemma_skip_blank(ls, p);
            if q < ls.len() {
                let ii = if ov is Some { Some(ind) } else { crate::yaml_scalar::indent_of(ls[q]) };
                match ii {
                    Some(i) => {
                        if i == ind {
                            let content = match ov {
                                Some(o) => o,
                                None => crate::yaml_block::content_at(ls[q], ind),
                            };
                            lemma_entry_ok(ls, q, ind, content);
                            match crate::yaml_block::entry(ls, q, ind, content) {
                                Ok(Some((kv, c))) => {
                                    lemma_mapping_ok(ls, q + 1 + c, ind, None);
                                    if crate::yaml_block::mapping(ls, q + 1 + c, ind, None) is Ok {
                                        lemma_all_pairs_cons(kv, crate::yaml_block::mapping(ls, q + 1 + c, ind, None)->Ok_0.0);
                                    }
                                },
                                _ => {},
                            }
                        }
                    },
                    None => {},
                }
            }
        }
    }
}

proof fn lemma_seq_item_ok(ls: Seq<Seq<char>>, q: int, ind: int, content: Seq<char>)
    ensures
        crate::yaml_block::seq_item(ls, q, ind, content) is Ok ==> writable(crate::yaml_block::seq_item(ls, q, ind, content)->Ok_0.0),
    decreases crate::yaml_flow::rem(ls.len() as int, q), 3nat,
{
    let dash_rest = content.subrange(1, content.len() as int);
    let item_text = trim_start(dash_rest);
    if 0 <= q < ls.len() && content.len() > 0 {
        if item_text.len() == 0 {
            lemma_nested_ok(ls, q + 1, ind);
        } else if item_text[0] == '|' || item_text[0] == '>' {
        } else if split_kv(item_text) is Some {
            let col = ind + 1 + crate::yaml_block::leading_ws_bytes(dash_rest);
            lemma_mapping_ok(ls, q, col, Some(item_text));
            if crate::yaml_block::mapping(ls, q, col, Some(item_text)) is Ok {
                lemma_pairs_writable(crate::yaml_block::mapping(ls, q, col, Some(item_text))->Ok_0.0);
            }
        } else {
            lemma_read_scalar_ok(ls, q + 1, item_text, ind + 1, q);
        }
    }
}

proof fn lemma_sequence_ok(ls: Seq<Seq<char>>, p: int, ind: int)
    ensures
        crate::yaml_block::sequence(ls, p, ind) is Ok ==> all_writable(crate::yaml_block::sequence(ls, p, ind)->Ok_0.0),
    decreases crate::yaml_flow::rem(ls.len() as int, p), 4nat,
{
    let q = crate::yaml_block::skip_blank(ls, p);
    if p >= 0 && q < ls.len() {
        crate::yaml_block::lemma_skip_blank(ls, p);
        match crate::yaml_scalar::indent_of(ls[q]) {
            Some(ii) => {
                if ii == ind {
                    let content = crate::yaml_block::content_at(ls[q], ind);
                    if is_item(content) {
                        lemma_seq_item_ok(ls, q, ind, content);
                        match crate::yaml_block::seq_item(ls, q, ind, content) {
                            Ok((v, c)) => {
                                lemma_sequence_ok(ls, q + 1 + c, ind);
                                if crate::yaml_block::sequence(ls, q + 1 + c, ind) is Ok {
                                    lemma_all_writable_cons(v, crate::yaml_block::sequence(ls, q + 1 + c, ind)->Ok_0.0);
                                }
                            },
                            Err(_) => {},
                        }
                    }
                }
            },
            None => {},
        }
    }
}

/// Whatever the YAML reader gives is writable: its keys are scalars and its
/// floats are kept as their text, which reads back as the same float.
pub proof fn lemma_parse_writable(text: Seq<char>)
    ensures
        crate::yaml_block::parse_spec(text) is Ok ==> writable(crate::yaml_block::parse_spec(text)->Ok_0),
{
    let ls = lines(text);
    let q = crate::yaml_block::skip_blank(ls, 0);
    crate::yaml_block::lemma_skip_blank(ls, 0);
    if q < ls.len() {
        match crate::yaml_scalar::indent_of(ls[q]) {
            Some(base) => {
                lemma_node_ok(ls, q, base);
            },
            None => {},
        }
    }
}

/// The frontmatter entries a document reading gives are writable.
pub proof fn lemma_read_frontmatter_writable(text: Seq<char>)
    ensures
        crate::document::doc_spec(text) is Ok ==> writable_entries(crate::document::doc_spec(text)->Ok_0.0),
{
    match crate::document::doc_layout(text) {
        Some(Some((ys, ye, bs))) => {
            lemma_parse_writable(text.subrange(ys, ye));
        },
        _ => {},
    }
}

} // verus!
