//! Flow collections: `[a, b]` and `{k: v}` on one line.
use vstd::prelude::*;
use crate::text::{is_ws, lemma_skip_ws_bounds, skip_ws, skip_ws_exec, string_of, trim, trim_bounds, extend_range};
use crate::yaml::{Mapping, Value, ValueView, vview, vviews, pviews};
use crate::yaml_scalar::{dq_scan, parse_double_quoted, parse_single_quoted, plain_value, interpret_plain, scalar_spec, parse_scalar, sq_scan};

verus! {

broadcast use vstd::string::group_string_axioms;

/// How far a position is from the end, or zero past it.
pub open spec fn rem(n: int, p: int) -> nat {
    if p < n {
        (n - p) as nat
    } else {
        0
    }
}

/// Whether the `:` at `i` separates a flow key from its value: it is last,
/// or followed by whitespace or a flow indicator.
pub open spec fn separator_colon(cs: Seq<char>, i: int) -> bool {
    i + 1 >= cs.len() || is_ws(cs[i + 1]) || cs[i + 1] == ',' || cs[i + 1] == '[' || cs[i + 1] == ']'
        || cs[i + 1] == '{' || cs[i + 1] == '}'
}

/// Where a plain flow scalar starting at `j` ends.
pub open spec fn plain_end(cs: Seq<char>, j: int) -> int
    decreases cs.len() - j,
{
    if j < 0 || j >= cs.len() {
        cs.len() as int
    } else if cs[j] == ',' || cs[j] == ']' || cs[j] == '}' || (cs[j] == ':' && separator_colon(cs, j)) {
        j
    } else {
        plain_end(cs, j + 1)
    }
}

/// Where a quoted flow scalar whose body starts at `j` ends (just past its
/// closing quote, or the end of the text).
pub open spec fn quoted_end(cs: Seq<char>, j: int, c: char) -> Result<int, Seq<char>>
    decreases cs.len() - j,
{
    if j < 0 || j >= cs.len() {
        Ok(cs.len() as int)
    } else if c == '"' && cs[j] == '\\' {
        if j + 1 >= cs.len() {
            Err("dangling escape in double-quoted string"@)
        } else {
            quoted_end(cs, j + 2, c)
        }
    } else if cs[j] == c {
        if c == '\'' && j + 1 < cs.len() && cs[j + 1] == '\'' {
            quoted_end(cs, j + 2, c)
        } else {
            Ok(j + 1)
        }
    } else {
        quoted_end(cs, j + 1, c)
    }
}

/// A flow scalar at `p`: the value and the characters read.
pub open spec fn flow_scalar(cs: Seq<char>, p: int) -> Result<(ValueView, nat), Seq<char>> {
    let q = skip_ws(cs, p, cs.len() as int);
    if q >= cs.len() {
        Err("expected scalar"@)
    } else if cs[q] == '"' || cs[q] == '\'' {
        match quoted_end(cs, q + 1, cs[q]) {
            Err(m) => Err(m),
            Ok(j) => {
                let raw = cs.subrange(q, j);
                let d = if cs[q] == '"' {
                    dq_scan(raw, 1, seq![])
                } else {
                    sq_scan(raw, 1, seq![])
                };
                match d {
                    Err(m) => Err(m),
                    Ok(x) => Ok((ValueView::Str(x), (j - p) as nat)),
                }
            },
        }
    } else {
        let j = plain_end(cs, q);
        Ok((plain_value(trim(cs.subrange(q, j))), (j - p) as nat))
    }
}

/// A flow value at `p`: a sequence, a mapping, a scalar, or null at the end.
pub open spec fn flow_value(cs: Seq<char>, p: int) -> Result<(ValueView, nat), Seq<char>>
    decreases rem(cs.len() as int, p), 1nat,
{
    let q = skip_ws(cs, p, cs.len() as int);
    if p < 0 || p > cs.len() {
        Err("expected scalar"@)
    } else if q >= cs.len() {
        Ok((ValueView::Null, (q - p) as nat))
    } else if cs[q] == '[' {
        proof {
            lemma_skip_ws_bounds(cs, p, cs.len() as int);
        }
        match seq_items(cs, q + 1) {
            Err(m) => Err(m),
            Ok((vs, c)) => Ok((ValueView::List(vs), (q + 1 + c - p) as nat)),
        }
    } else if cs[q] == '{' {
        proof {
            lemma_skip_ws_bounds(cs, p, cs.len() as int);
        }
        match map_items(cs, q + 1) {
            Err(m) => Err(m),
            Ok((es, c)) => Ok((ValueView::Pairs(es), (q + 1 + c - p) as nat)),
        }
    } else {
        match flow_scalar(cs, q) {
            Err(m) => Err(m),
            Ok((v, c)) => Ok((v, (q + c - p) as nat)),
        }
    }
}

/// The items of a flow sequence from `p` (after its `[`) through its `]`.
pub open spec fn seq_items(cs: Seq<char>, p: int) -> Result<(Seq<ValueView>, nat), Seq<char>>
    decreases rem(cs.len() as int, p), 2nat,
{
    let q = skip_ws(cs, p, cs.len() as int);
    if p < 0 || p > cs.len() || q >= cs.len() {
        Err("unterminated flow sequence"@)
    } else if cs[q] == ']' {
        Ok((seq![], (q + 1 - p) as nat))
    } else {
        proof {
            lemma_skip_ws_bounds(cs, p, cs.len() as int);
        }
        match flow_value(cs, q) {
            Err(m) => Err(m),
            Ok((v, c)) => {
                let r = q + c;
                let r2 = skip_ws(cs, r, cs.len() as int);
                if r2 < cs.len() && cs[r2] == ',' {
                    proof {
                        if r <= cs.len() {
                            lemma_skip_ws_bounds(cs, r, cs.len() as int);
                        }
                    }
                    match seq_items(cs, r2 + 1) {
                        Err(m) => Err(m),
                        Ok((vs, c2)) => Ok((seq![v] + vs, (r2 + 1 + c2 - p) as nat)),
                    }
                } else if r2 < cs.len() && cs[r2] == ']' {
                    Ok((seq![v], (r2 + 1 - p) as nat))
                } else {
                    Err("expected ',' or ']' in flow sequence"@)
                }
            },
        }
    }
}

/// The entries of a flow mapping from `p` (after its `{`) through its `}`.
/// A key with no `: value` maps to null.
pub open spec fn map_items(cs: Seq<char>, p: int) -> Result<(Seq<(ValueView, ValueView)>, nat), Seq<char>>
    decreases rem(cs.len() as int, p), 2nat,
{
    let q = skip_ws(cs, p, cs.len() as int);
    if p < 0 || p > cs.len() || q >= cs.len() {
        Err("unterminated flow mapping"@)
    } else if cs[q] == '}' {
        Ok((seq![], (q + 1 - p) as nat))
    } else {
        proof {
            lemma_skip_ws_bounds(cs, p, cs.len() as int);
        }
        match flow_scalar(cs, q) {
            Err(m) => Err(m),
            Ok((k, c)) => {
                let r = skip_ws(cs, q + c, cs.len() as int);
                proof {
                    if q + c <= cs.len() {
                        lemma_skip_ws_bounds(cs, q + c, cs.len() as int);
                    }
                }
                let val: Result<(ValueView, int), Seq<char>> = if r < cs.len() && cs[r] == ':' {
                    match flow_value(cs, r + 1) {
                        Err(m) => Err(m),
                        Ok((v, c2)) => Ok((v, r + 1 + c2)),
                    }
                } else {
                    Ok((ValueView::Null, r))
                };
                match val {
                    Err(m) => Err(m),
                    Ok((v, after)) => {
                        let r3 = skip_ws(cs, after, cs.len() as int);
                        if r3 < cs.len() && cs[r3] == ',' {
                            proof {
                                if 0 <= after <= cs.len() {
                                    lemma_skip_ws_bounds(cs, after, cs.len() as int);
                                }
                            }
                            match map_items(cs, r3 + 1) {
                                Err(m) => Err(m),
                                Ok((es, c3)) => Ok((seq![(k, v)] + es, (r3 + 1 + c3 - p) as nat)),
                            }
                        } else if r3 < cs.len() && cs[r3] == '}' {
                            Ok((seq![(k, v)], (r3 + 1 - p) as nat))
                        } else {
                            Err("expected ',' or '}' in flow mapping"@)
                        }
                    },
                }
            },
        }
    }
}


fn plain_end_exec(cs: &[char], j: usize) -> (r: usize)
    requires
        j <= cs.len(),
    ensures
        r == plain_end(cs@, j as int),
        j <= r <= cs.len(),
{
    let mut k = j;
    while k < cs.len()
        invariant
            j <= k <= cs.len(),
            plain_end(cs@, k as int) == plain_end(cs@, j as int),
        decreases cs.len() - k,
    {
        let c = cs[k];
        if c == ',' || c == ']' || c == '}' {
            return k;
        }
        if c == ':' {
            let sep = k + 1 >= cs.len() || crate::text::is_whitespace(cs[k + 1]) || cs[k + 1] == ','
                || cs[k + 1] == '[' || cs[k + 1] == ']' || cs[k + 1] == '{' || cs[k + 1] == '}';
            if sep {
                return k;
            }
        }
        k += 1;
    }
    k
}

fn quoted_end_exec(cs: &[char], j: usize, c: char) -> (r: Result<usize, String>)
    requires
        j <= cs.len(),
    ensures
        match r {
            Ok(e) => quoted_end(cs@, j as int, c) == Ok::<int, Seq<char>>(e as int) && j <= e <= cs.len(),
            Err(m) => quoted_end(cs@, j as int, c) == Err::<int, Seq<char>>(m@),
        },
{
    let mut k = j;
    while k < cs.len()
        invariant
            j <= k <= cs.len(),
            quoted_end(cs@, k as int, c) == quoted_end(cs@, j as int, c),
        decreases cs.len() - k,
    {
        let cur = cs[k];
        if c == '"' && cur == '\\' {
            if k + 1 >= cs.len() {
                return Err("dangling escape in double-quoted string".to_string());
            }
            k += 2;
            continue;
        }
        if cur == c {
            if c == '\'' && k + 1 < cs.len() && cs[k + 1] == '\'' {
                k += 2;
                continue;
            }
            return Ok(k + 1);
        }
        k += 1;
    }
    Ok(cs.len())
}

fn flow_scalar_exec(cs: &[char], p: usize) -> (r: Result<(Value, usize), String>)
    requires
        p <= cs.len(),
    ensures
        match r {
            Ok((v, c)) => flow_scalar(cs@, p as int) == Ok::<(ValueView, nat), Seq<char>>((vview(v), c as nat)) && p + c <= cs.len(),
            Err(m) => flow_scalar(cs@, p as int) == Err::<(ValueView, nat), Seq<char>>(m@),
        },
{
    let q = skip_ws_exec(cs, p, cs.len());
    if q >= cs.len() {
        return Err("expected scalar".to_string());
    }
    let c0 = cs[q];
    if c0 == '"' || c0 == '\'' {
        let j = match quoted_end_exec(cs, q + 1, c0) {
            Err(m) => return Err(m),
            Ok(j) => j,
        };
        let mut raw: Vec<char> = Vec::new();
        extend_range(&mut raw, cs, q, j);
        let d = if c0 == '"' {
            parse_double_quoted(&raw)
        } else {
            parse_single_quoted(&raw)
        };
        match d {
            Err(m) => Err(m),
            Ok(x) => Ok((Value::Text(x), j - p)),
        }
    } else {
        let j = plain_end_exec(cs, q);
        let (a, b) = trim_bounds(cs, q, j);
        let mut t: Vec<char> = Vec::new();
        extend_range(&mut t, cs, a, b);
        Ok((interpret_plain(&t), j - p))
    }
}

/// A flow value at `p` in exec form.
pub fn flow_value_exec(cs: &[char], p: usize) -> (r: Result<(Value, usize), String>)
    requires
        p <= cs.len(),
    ensures
        match r {
            Ok((v, c)) => flow_value(cs@, p as int) == Ok::<(ValueView, nat), Seq<char>>((vview(v), c as nat)) && p + c <= cs.len(),
            Err(m) => flow_value(cs@, p as int) == Err::<(ValueView, nat), Seq<char>>(m@),
        },
    decreases rem(cs.len() as int, p as int), 1nat,
{
    let q = skip_ws_exec(cs, p, cs.len());
    if q >= cs.len() {
        return Ok((Value::Null, q - p));
    }
    if cs[q] == '[' {
        match seq_items_exec(cs, q + 1) {
            Err(m) => Err(m),
            Ok((vs, c)) => Ok((Value::Sequence(vs), q + 1 + c - p)),
        }
    } else if cs[q] == '{' {
        match map_items_exec(cs, q + 1) {
            Err(m) => Err(m),
            Ok((es, c)) => Ok((Value::Mapping(Mapping { entries: es }), q + 1 + c - p)),
        }
    } else {
        match flow_scalar_exec(cs, q) {
            Err(m) => Err(m),
            Ok((v, c)) => {
                proof {
                    crate::text::lemma_skip_ws_bounds(cs@, q as int, cs@.len() as int);
                }
                Ok((v, q + c - p))
            },
        }
    }
}

/// `acc` in front of a sequence result, `off` characters earlier.
pub open spec fn front_items<E>(acc: Seq<ValueView>, off: int, r: Result<(Seq<ValueView>, nat), E>) -> Result<(Seq<ValueView>, nat), E> {
    match r {
        Ok((vs, c)) => Ok((acc + vs, (off + c) as nat)),
        Err(m) => Err(m),
    }
}

fn seq_items_exec(cs: &[char], p: usize) -> (r: Result<(Vec<Value>, usize), String>)
    requires
        p <= cs.len(),
    ensures
        match r {
            Ok((vs, c)) => seq_items(cs@, p as int) == Ok::<(Seq<ValueView>, nat), Seq<char>>((vviews(vs@, vs@.len() as int), c as nat)) && p + c <= cs.len(),
            Err(m) => seq_items(cs@, p as int) == Err::<(Seq<ValueView>, nat), Seq<char>>(m@),
        },
    decreases rem(cs.len() as int, p as int), 2nat,
{
    let mut acc: Vec<Value> = Vec::new();
    let mut cur = p;
    proof {
        assert(vviews(acc@, 0) =~= Seq::<ValueView>::empty());
        assert(Seq::<ValueView>::empty() + Seq::<ValueView>::empty() =~= Seq::<ValueView>::empty());
        match seq_items(cs@, p as int) {
            Ok((vs, c)) => {
                assert(Seq::<ValueView>::empty() + vs =~= vs);
            },
            Err(_) => {},
        }
    }
    loop
        invariant
            p <= cur <= cs.len(),
            seq_items(cs@, p as int) == front_items(vviews(acc@, acc@.len() as int), cur - p, seq_items(cs@, cur as int)),
        decreases cs.len() - cur,
    {
        let q = skip_ws_exec(cs, cur, cs.len());
        proof {
            crate::text::lemma_skip_ws_bounds(cs@, cur as int, cs@.len() as int);
        }
        if q >= cs.len() {
            return Err("unterminated flow sequence".to_string());
        }
        if cs[q] == ']' {
            proof {
                assert(vviews(acc@, acc@.len() as int) + Seq::<ValueView>::empty() =~= vviews(acc@, acc@.len() as int));
            }
            return Ok((acc, q + 1 - p));
        }
        let (v, c) = match flow_value_exec(cs, q) {
            Err(m) => return Err(m),
            Ok(x) => x,
        };
        let r2 = skip_ws_exec(cs, q + c, cs.len());
        proof {
            crate::text::lemma_skip_ws_bounds(cs@, q + c, cs@.len() as int);
        }
        if r2 < cs.len() && cs[r2] == ',' {
            let ghost before = acc@;
            let ghost vv = vview(v);
            acc.push(v);
            proof {
                crate::yaml::lemma_vviews_push(before, v);
                let tail = seq_items(cs@, r2 + 1);
                match tail {
                    Ok((vs, c2)) => {
                        assert(vviews(before, before.len() as int) + (seq![vv] + vs) =~= vviews(acc@, acc@.len() as int) + vs);
                    },
                    Err(_) => {},
                }
            }
            cur = r2 + 1;
        } else if r2 < cs.len() && cs[r2] == ']' {
            let ghost before = acc@;
            let ghost vv = vview(v);
            acc.push(v);
            proof {
                crate::yaml::lemma_vviews_push(before, v);
                assert(vviews(before, before.len() as int) + seq![vv] =~= vviews(acc@, acc@.len() as int));
            }
            return Ok((acc, r2 + 1 - p));
        } else {
            return Err("expected ',' or ']' in flow sequence".to_string());
        }
    }
}

/// `acc` in front of a mapping result, `off` characters earlier.
pub open spec fn front_entries<E>(acc: Seq<(ValueView, ValueView)>, off: int, r: Result<(Seq<(ValueView, ValueView)>, nat), E>) -> Result<(Seq<(ValueView, ValueView)>, nat), E> {
    match r {
        Ok((es, c)) => Ok((acc + es, (off + c) as nat)),
        Err(m) => Err(m),
    }
}

fn map_items_exec(cs: &[char], p: usize) -> (r: Result<(Vec<(Value, Value)>, usize), String>)
    requires
        p <= cs.len(),
    ensures
        match r {
            Ok((es, c)) => map_items(cs@, p as int) == Ok::<(Seq<(ValueView, ValueView)>, nat), Seq<char>>((pviews(es@, es@.len() as int), c as nat)) && p + c <= cs.len(),
            Err(m) => map_items(cs@, p as int) == Err::<(Seq<(ValueView, ValueView)>, nat), Seq<char>>(m@),
        },
    decreases rem(cs.len() as int, p as int), 2nat,
{
    let mut acc: Vec<(Value, Value)> = Vec::new();
    let mut cur = p;
    proof {
        assert(pviews(acc@, 0) =~= Seq::<(ValueView, ValueView)>::empty());
        match map_items(cs@, p as int) {
            Ok((es, c)) => {
                assert(Seq::<(ValueView, ValueView)>::empty() + es =~= es);
            },
            Err(_) => {},
        }
    }
    loop
        invariant
            p <= cur <= cs.len(),
            map_items(cs@, p as int) == front_entries(pviews(acc@, acc@.len() as int), cur - p, map_items(cs@, cur as int)),
        decreases cs.len() - cur,
    {
        let q = skip_ws_exec(cs, cur, cs.len());
        proof {
            crate::text::lemma_skip_ws_bounds(cs@, cur as int, cs@.len() as int);
        }
        if q >= cs.len() {
            return Err("unterminated flow mapping".to_string());
        }
        if cs[q] == '}' {
            proof {
                assert(pviews(acc@, acc@.len() as int) + Seq::<(ValueView, ValueView)>::empty() =~= pviews(acc@, acc@.len() as int));
            }
            return Ok((acc, q + 1 - p));
        }
        let (k, c) = match flow_scalar_exec(cs, q) {
            Err(m) => return Err(m),
            Ok(x) => x,
        };
        let r = skip_ws_exec(cs, q + c, cs.len());
        proof {
            crate::text::lemma_skip_ws_bounds(cs@, q + c, cs@.len() as int);
        }
        let (v, after) = if r < cs.len() && cs[r] == ':' {
            match flow_value_exec(cs, r + 1) {
                Err(m) => return Err(m),
                Ok((v, c2)) => (v, r + 1 + c2),
            }
        } else {
            (Value::Null, r)
        };
        let r3 = skip_ws_exec(cs, after, cs.len());
        proof {
            crate::text::lemma_skip_ws_bounds(cs@, after as int, cs@.len() as int);
        }
        if r3 < cs.len() && cs[r3] == ',' {
            let ghost before = acc@;
            let ghost kv = (vview(k), vview(v));
            let ghost entry = (k, v);
            acc.push((k, v));
            proof {
                crate::yaml::lemma_pviews_push(before, entry);
                match map_items(cs@, r3 + 1) {
                    Ok((es, c3)) => {
                        assert(pviews(before, before.len() as int) + (seq![kv] + es) =~= pviews(acc@, acc@.len() as int) + es);
                    },
                    Err(_) => {},
                }
            }
            cur = r3 + 1;
        } else if r3 < cs.len() && cs[r3] == '}' {
            let ghost before = acc@;
            let ghost kv = (vview(k), vview(v));
            let ghost entry = (k, v);
            acc.push((k, v));
            proof {
                crate::yaml::lemma_pviews_push(before, entry);
                assert(pviews(before, before.len() as int) + seq![kv] =~= pviews(acc@, acc@.len() as int));
            }
            return Ok((acc, r3 + 1 - p));
        } else {
            return Err("expected ',' or '}' in flow mapping".to_string());
        }
    }
}

/// How a single-line value is read: a flow collection (only a comment may
/// follow it) or a scalar. Errors carry the 1-based line `line + 1`.
pub open spec fn inline_value(s: Seq<char>, line: int) -> Result<ValueView, (int, Seq<char>)> {
    let t = trim(s);
    if t.len() > 0 && (t[0] == '[' || t[0] == '{') {
        match flow_value(t, 0) {
            Err(m) => Err((line + 1, m)),
            Ok((v, c)) => {
                let q = skip_ws(t, c as int, t.len() as int);
                if q < t.len() && t[q] != '#' {
                    Err((line + 1, "unexpected content after flow collection"@))
                } else {
                    Ok(v)
                }
            },
        }
    } else {
        match scalar_spec(t) {
            Ok(v) => Ok(v),
            Err(m) => Err((line + 1, m)),
        }
    }
}

/// Reads a single-line value (see [`inline_value`]).
pub fn parse_inline_value(s: &[char], line: usize) -> (r: Result<Value, (usize, String)>)
    requires
        line < usize::MAX,
    ensures
        match r {
            Ok(v) => inline_value(s@, line as int) == Ok::<ValueView, (int, Seq<char>)>(vview(v)),
            Err((l, m)) => inline_value(s@, line as int) == Err::<ValueView, (int, Seq<char>)>((l as int, m@)),
        },
{
    let (a, b) = trim_bounds(s, 0, s.len());
    let mut t: Vec<char> = Vec::new();
    extend_range(&mut t, s, a, b);
    proof {
        assert(s@.subrange(0, s@.len() as int) =~= s@);
    }
    if t.len() > 0 && (t[0] == '[' || t[0] == '{') {
        match flow_value_exec(&t, 0) {
            Err(m) => Err((line + 1, m)),
            Ok((v, c)) => {
                let q = skip_ws_exec(&t, c, t.len());
                if q < t.len() && t[q] != '#' {
                    Err((line + 1, "unexpected content after flow collection".to_string()))
                } else {
                    Ok(v)
                }
            },
        }
    } else {
        match parse_scalar(&t) {
            Ok(v) => Ok(v),
            Err(m) => Err((line + 1, m)),
        }
    }
}

} // verus!
