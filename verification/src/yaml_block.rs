//! Block structure: the indentation-driven mappings, sequences and
//! multi-line scalars of a YAML document, and [`parse`].
//!
//! Every reader takes the lines and a starting line and answers the value and
//! the number of lines it consumed. Errors carry a 1-based line number.
use vstd::prelude::*;
use crate::text::{byte_len, chars_of, extend_range, is_ws, join_with, lines, split_lines, trim, trim_start, utf8_len, views};
use crate::yaml::{Mapping, Value, ValueView, YamlError, pviews, vview, vviews};
use crate::yaml_flow::{inline_value, parse_inline_value, rem};
use crate::yaml_scalar::{
    blank_or_comment, blank_or_comment_exec, closes_quote, closes_quote_exec, fold_lines, fold_scan,
    indent_exec, indent_of, is_item, is_item_exec, parse_scalar, scalar_spec, split_key_value,
    split_kv, starts_new_node, starts_new_node_exec, unclosed_quote,
};

verus! {

broadcast use vstd::string::group_string_axioms;

/// A parse error: 1-based line and message.
pub type YErr = (int, Seq<char>);

/// The first line at or after `p` that is neither blank nor a comment.
pub open spec fn skip_blank(ls: Seq<Seq<char>>, p: int) -> int
    decreases ls.len() - p,
{
    if 0 <= p < ls.len() && blank_or_comment(ls[p]) {
        skip_blank(ls, p + 1)
    } else {
        p
    }
}

pub proof fn lemma_skip_blank(ls: Seq<Seq<char>>, p: int)
    requires
        0 <= p,
    ensures
        p <= skip_blank(ls, p),
        p <= ls.len() ==> skip_blank(ls, p) <= ls.len(),
        skip_blank(ls, p) < ls.len() ==> !blank_or_comment(ls[skip_blank(ls, p)]),
    decreases ls.len() - p,
{
    if 0 <= p < ls.len() && blank_or_comment(ls[p]) {
        lemma_skip_blank(ls, p + 1);
    }
}

fn skip_blank_exec(ls: &Vec<Vec<char>>, p: usize) -> (r: usize)
    ensures
        r as int == skip_blank(views(ls@), p as int),
        p <= r,
        p <= ls.len() ==> r <= ls.len(),
{
    let mut q = p;
    while q < ls.len() && blank_or_comment_exec(&ls[q])
        invariant
            p <= q,
            p <= ls.len() ==> q <= ls.len(),
            skip_blank(views(ls@), q as int) == skip_blank(views(ls@), p as int),
        decreases ls.len() - q,
    {
        proof {
            assert(views(ls@)[q as int] == ls@[q as int]@);
        }
        q += 1;
    }
    proof {
        if q < ls.len() {
            assert(views(ls@)[q as int] == ls@[q as int]@);
        }
    }
    q
}

/// The lines a multi-line plain or quoted scalar continues over, from `p`:
/// each is trimmed and joined with a space. Inside an open quote every
/// non-blank, indented-enough line belongs to the scalar.
pub open spec fn scalar_lines(ls: Seq<Seq<char>>, p: int, text: Seq<char>, oq: Option<char>, min: int) -> Result<(Seq<char>, nat), YErr>
    decreases ls.len() - p,
{
    if p < 0 || p >= ls.len() {
        Ok((text, 0))
    } else if trim(ls[p]).len() == 0 {
        Ok((text, 0))
    } else {
        match indent_of(ls[p]) {
            None => Err((p + 1, "tab character in indentation"@)),
            Some(ind) => if ind < min {
                Ok((text, 0))
            } else {
                let content = trim(ls[p]);
                if oq is None && starts_new_node(content) {
                    Ok((text, 0))
                } else {
                    let t2 = text + seq![' '] + content;
                    let oq2 = match oq {
                        Some(q) => if closes_quote(content, q, 0) {
                            None
                        } else {
                            oq
                        },
                        None => None,
                    };
                    match scalar_lines(ls, p + 1, t2, oq2, min) {
                        Ok((t, c)) => Ok((t, c + 1)),
                        Err(e) => Err(e),
                    }
                }
            },
        }
    }
}

/// A scalar that starts as `first` (on line `line`) and may continue from
/// line `p`; a flow collection stands alone.
pub open spec fn read_scalar(ls: Seq<Seq<char>>, p: int, first: Seq<char>, min: int, line: int) -> Result<(ValueView, nat), YErr> {
    if first.len() > 0 && (first[0] == '[' || first[0] == '{') {
        match inline_value(first, line) {
            Ok(v) => Ok((v, 0)),
            Err(e) => Err(e),
        }
    } else {
        match scalar_lines(ls, p, first, unclosed_quote(first), min) {
            Err(e) => Err(e),
            Ok((t, c)) => match scalar_spec(t) {
                Ok(v) => Ok((v, c)),
                Err(m) => Err((line + 1, m)),
            },
        }
    }
}

/// The character index at which `line`'s first `b` bytes end, scanning from
/// character `k` at byte `acc`; `None` when byte `b` falls inside a
/// character.
pub open spec fn cut_at(line: Seq<char>, k: int, acc: int, b: int) -> Option<int>
    decreases line.len() - k,
{
    if acc == b {
        Some(k)
    } else if acc > b || k < 0 || k >= line.len() {
        None
    } else {
        cut_at(line, k + 1, acc + utf8_len(line[k]), b)
    }
}

/// A block line without its first `bi` bytes: empty when it is shorter, an
/// error when byte `bi` is inside a character.
pub open spec fn strip_block(line: Seq<char>, bi: int) -> Option<Seq<char>> {
    if byte_len(line) >= bi {
        match cut_at(line, 0, 0, bi) {
            Some(k) => Some(line.subrange(k, line.len() as int)),
            None => None,
        }
    } else {
        Some(seq![])
    }
}

/// The body lines of a block scalar from `p`: blank lines become empty, and
/// the block ends at a line indented no deeper than `parent`. The block's
/// indentation is that of its first non-blank line.
pub open spec fn block_lines(ls: Seq<Seq<char>>, p: int, parent: int, bi: Option<int>) -> Result<(Seq<Seq<char>>, nat), YErr>
    decreases ls.len() - p,
{
    if p < 0 || p >= ls.len() {
        Ok((seq![], 0))
    } else if trim(ls[p]).len() == 0 {
        match block_lines(ls, p + 1, parent, bi) {
            Ok((b, c)) => Ok((seq![seq![]] + b, c + 1)),
            Err(e) => Err(e),
        }
    } else {
        match indent_of(ls[p]) {
            None => Err((p + 1, "tab in block scalar indentation"@)),
            Some(ind) => if ind <= parent {
                Ok((seq![], 0))
            } else {
                let b2 = match bi {
                    Some(b) => b,
                    None => ind,
                };
                match strip_block(ls[p], b2) {
                    None => Err((p + 1, "block scalar line is not aligned with the block's indentation"@)),
                    Some(st) => match block_lines(ls, p + 1, parent, Some(b2)) {
                        Ok((b, c)) => Ok((seq![st] + b, c + 1)),
                        Err(e) => Err(e),
                    },
                }
            },
        }
    }
}

/// The number of trailing empty lines.
pub open spec fn trailing_empty(b: Seq<Seq<char>>) -> int
    decreases b.len(),
{
    if b.len() > 0 && b.last().len() == 0 {
        1 + trailing_empty(b.drop_last())
    } else {
        0
    }
}

/// The first `+` or `-` of a block header after its style character.
pub open spec fn chomp_of(header: Seq<char>, i: int) -> Option<char>
    decreases header.len() - i,
{
    if i < 0 || i >= header.len() {
        None
    } else if header[i] == '+' || header[i] == '-' {
        Some(header[i])
    } else {
        chomp_of(header, i + 1)
    }
}

/// `n` newlines.
pub open spec fn newlines(n: int) -> Seq<char>
    decreases n,
{
    if n <= 0 {
        seq![]
    } else {
        newlines(n - 1).push('\n')
    }
}

/// The text of a block scalar from its body lines: `|` keeps line breaks,
/// `>` folds them; `-` strips the final newline, `+` keeps every trailing
/// blank line, and otherwise exactly one newline ends a non-empty block.
pub open spec fn block_text(body: Seq<Seq<char>>, header: Seq<char>) -> Seq<char> {
    let t = trailing_empty(body);
    let kept = body.subrange(0, body.len() - t);
    let text = if header[0] == '|' {
        join_with(kept, "\n"@)
    } else {
        fold_scan(kept, kept.len() as int).0
    };
    match chomp_of(header, 1) {
        Some(c) => if c == '-' {
            text
        } else {
            text.push('\n') + newlines(t)
        },
        None => if text.len() > 0 || t > 0 {
            text.push('\n')
        } else {
            text
        },
    }
}

/// A `|` or `>` block scalar whose header is `header`, body from line `p`.
pub open spec fn block_scalar(ls: Seq<Seq<char>>, p: int, parent: int, header: Seq<char>) -> Result<(ValueView, nat), YErr> {
    match block_lines(ls, p, parent, None) {
        Err(e) => Err(e),
        Ok((body, c)) => Ok((ValueView::Str(block_text(body, header)), c)),
    }
}

/// A line's content from column `ind` on.
pub open spec fn content_at(line: Seq<char>, ind: int) -> Seq<char> {
    if 0 <= ind <= line.len() {
        line.subrange(ind, line.len() as int)
    } else {
        seq![]
    }
}

/// The node at line `p` whose block items begin at column `ind`.
pub open spec fn node(ls: Seq<Seq<char>>, p: int, ind: int) -> Result<(ValueView, nat), YErr>
    decreases rem(ls.len() as int, p), 5nat,
{
    if p < 0 || p >= ls.len() {
        Ok((ValueView::Null, 0))
    } else {
        let trimmed = trim_start(content_at(ls[p], ind));
        if is_item(trimmed) {
            match sequence(ls, p, ind) {
                Ok((vs, c)) => Ok((ValueView::List(vs), c)),
                Err(e) => Err(e),
            }
        } else if split_kv(trimmed) is Some {
            match mapping(ls, p, ind, None) {
                Ok((es, c)) => Ok((ValueView::Pairs(es), c)),
                Err(e) => Err(e),
            }
        } else {
            match read_scalar(ls, p + 1, trimmed, ind, p) {
                Ok((v, c)) => Ok((v, c + 1)),
                Err(e) => Err(e),
            }
        }
    }
}

/// The block following a `key:` (or `-`) with nothing after it, from line
/// `p`: a deeper node, a sequence at the parent's column, or null.
pub open spec fn nested(ls: Seq<Seq<char>>, p: int, parent: int) -> Result<(ValueView, nat), YErr>
    decreases rem(ls.len() as int, p), 6nat,
{
    let q = skip_blank(ls, p);
    if p < 0 || q >= ls.len() {
        Ok((ValueView::Null, (q - p) as nat))
    } else {
        proof {
            lemma_skip_blank(ls, p);
        }
        match indent_of(ls[q]) {
            None => Err((q + 1, "tab character in indentation"@)),
            Some(ii) => if ii > parent {
                match node(ls, q, ii) {
                    Ok((v, c)) => Ok((v, (q - p + c) as nat)),
                    Err(e) => Err(e),
                }
            } else if ii == parent && is_item(content_at(ls[q], ii)) {
                match sequence(ls, q, ii) {
                    Ok((vs, c)) => Ok((ValueView::List(vs), (q - p + c) as nat)),
                    Err(e) => Err(e),
                }
            } else {
                Ok((ValueView::Null, (q - p) as nat))
            },
        }
    }
}

/// One mapping entry whose line `q` reads `content` from the mapping's
/// column: `None` when the line is a sequence item instead; otherwise the
/// key, the value, and the lines its value takes after line `q`.
pub open spec fn entry(ls: Seq<Seq<char>>, q: int, ind: int, content: Seq<char>) -> Result<Option<((ValueView, ValueView), nat)>, YErr>
    decreases rem(ls.len() as int, q), 0nat,
{
    let trimmed = trim_start(content);
    if q < 0 || q >= ls.len() || is_item(trimmed) {
        Ok(None)
    } else {
        match split_kv(trimmed) {
            None => Err((q + 1, "expected 'key: value' mapping entry"@)),
            Some((k, rest)) => match scalar_spec(k) {
                Err(m) => Err((q + 1, m)),
                Ok(key) => match (match rest {
                    Some(r) => if r[0] == '|' || r[0] == '>' {
                        block_scalar(ls, q + 1, ind, r)
                    } else {
                        read_scalar(ls, q + 1, r, ind + 1, q)
                    },
                    None => nested(ls, q + 1, ind),
                }) {
                    Err(e) => Err(e),
                    Ok((v, c)) => Ok(Some(((key, v), c))),
                },
            },
        }
    }
}

/// The entries of a block mapping at column `ind` from line `p`. `ov` stands
/// in for the content of line `p` when a sequence item (`- key: value`)
/// opens the mapping.
pub open spec fn mapping(ls: Seq<Seq<char>>, p: int, ind: int, ov: Option<Seq<char>>) -> Result<(Seq<(ValueView, ValueView)>, nat), YErr>
    decreases rem(ls.len() as int, p), if ov is Some { 2nat } else { 1nat },
{
    if p < 0 || p >= ls.len() {
        Ok((seq![], 0))
    } else if ov is Some && blank_or_comment(ov->0) {
        match mapping(ls, p + 1, ind, None) {
            Ok((es, c)) => Ok((es, c + 1)),
            Err(e) => Err(e),
        }
    } else {
        let q = if ov is Some { p } else { skip_blank(ls, p) };
        proof {
            lemma_skip_blank(ls, p);
        }
        if q >= ls.len() {
            Ok((seq![], (q - p) as nat))
        } else {
            let ii = if ov is Some { Some(ind) } else { indent_of(ls[q]) };
            match ii {
                None => Err((q + 1, "tab character in indentation"@)),
                Some(i) => if i < ind {
                    Ok((seq![], (q - p) as nat))
                } else if i > ind {
                    Err((q + 1, "unexpected indentation in mapping"@))
                } else {
                    let content = match ov {
                        Some(o) => o,
                        None => content_at(ls[q], ind),
                    };
                    match entry(ls, q, ind, content) {
                        Err(e) => Err(e),
                        Ok(None) => Ok((seq![], (q - p) as nat)),
                        Ok(Some((kv, c))) => match mapping(ls, q + 1 + c, ind, None) {
                            Ok((es, c2)) => Ok((seq![kv] + es, (q + 1 + c - p + c2) as nat)),
                            Err(e) => Err(e),
                        },
                    }
                },
            }
        }
    }
}

/// The bytes of leading whitespace in `s`.
pub open spec fn leading_ws_bytes(s: Seq<char>) -> int {
    byte_len(s.subrange(0, s.len() - trim_start(s).len())) as int
}

/// One sequence item on line `q` (`content` read from the sequence's
/// column, starting with `-`): its value and the lines it takes after
/// line `q`. A `- key: value` item opens a mapping at the column after the
/// dash and its whitespace.
pub open spec fn seq_item(ls: Seq<Seq<char>>, q: int, ind: int, content: Seq<char>) -> Result<(ValueView, nat), YErr>
    decreases rem(ls.len() as int, q), 3nat,
{
    let dash_rest = content.subrange(1, content.len() as int);
    let item_text = trim_start(dash_rest);
    if q < 0 || q >= ls.len() || content.len() == 0 {
        Ok((ValueView::Null, 0))
    } else if item_text.len() == 0 {
        nested(ls, q + 1, ind)
    } else if item_text[0] == '|' || item_text[0] == '>' {
        block_scalar(ls, q + 1, ind, item_text)
    } else if split_kv(item_text) is Some {
        match mapping(ls, q, ind + 1 + leading_ws_bytes(dash_rest), Some(item_text)) {
            Ok((es, c)) => if c == 0 {
                Err((q + 1, "unexpected indentation in sequence"@))
            } else {
                Ok((ValueView::Pairs(es), (c - 1) as nat))
            },
            Err(e) => Err(e),
        }
    } else {
        read_scalar(ls, q + 1, item_text, ind + 1, q)
    }
}

/// The items of a block sequence at column `ind` from line `p`.
pub open spec fn sequence(ls: Seq<Seq<char>>, p: int, ind: int) -> Result<(Seq<ValueView>, nat), YErr>
    decreases rem(ls.len() as int, p), 4nat,
{
    let q = skip_blank(ls, p);
    if p < 0 || q >= ls.len() {
        Ok((seq![], (q - p) as nat))
    } else {
        proof {
            lemma_skip_blank(ls, p);
        }
        match indent_of(ls[q]) {
            None => Err((q + 1, "tab character in indentation"@)),
            Some(ii) => if ii < ind {
                Ok((seq![], (q - p) as nat))
            } else if ii > ind {
                Err((q + 1, "unexpected indentation in sequence"@))
            } else {
                let content = content_at(ls[q], ind);
                if !is_item(content) {
                    Ok((seq![], (q - p) as nat))
                } else {
                    match seq_item(ls, q, ind, content) {
                        Err(e) => Err(e),
                        Ok((v, c)) => match sequence(ls, q + 1 + c, ind) {
                            Ok((vs, c2)) => Ok((seq![v] + vs, (q + 1 + c - p + c2) as nat)),
                            Err(e) => Err(e),
                        },
                    }
                }
            },
        }
    }
}

/// A YAML document: empty or comment-only text is null; otherwise one node
/// at the first content line's indentation, with nothing after it.
pub open spec fn parse_spec(text: Seq<char>) -> Result<ValueView, YErr> {
    let ls = lines(text);
    let q = skip_blank(ls, 0);
    if q >= ls.len() {
        Ok(ValueView::Null)
    } else {
        match indent_of(ls[q]) {
            None => Err((q + 1, "tab character in indentation"@)),
            Some(base) => match node(ls, q, base) {
                Err(e) => Err(e),
                Ok((v, c)) => {
                    let r = skip_blank(ls, q + c);
                    if r < ls.len() {
                        Err((r + 1, "unexpected trailing content"@))
                    } else {
                        Ok(v)
                    }
                },
            },
        }
    }
}


/// A result's consumed count shifted by `off`.
pub open spec fn shift<T>(r: Result<(T, nat), YErr>, off: int) -> Result<(T, nat), YErr> {
    match r {
        Ok((t, c)) => Ok((t, (off + c) as nat)),
        Err(e) => Err(e),
    }
}

/// An exec error as a spec error.
pub open spec fn err_view(e: (usize, String)) -> YErr {
    (e.0 as int, e.1@)
}

fn tab_error(q: usize) -> (r: (usize, String))
    requires
        q < usize::MAX,
    ensures
        err_view(r) == (q + 1, "tab character in indentation"@),
{
    (q + 1, "tab character in indentation".to_string())
}

fn trimmed_line(v: &[char]) -> (r: Vec<char>)
    ensures
        r@ == trim(v@),
{
    crate::markdown::trimmed(v)
}

fn scalar_lines_exec(ls: &Vec<Vec<char>>, p: usize, first: Vec<char>, oq_first: Option<char>, min: usize) -> (r: Result<(Vec<char>, usize), (usize, String)>)
    requires
        p <= ls.len(),
    ensures
        match r {
            Ok((t, c)) => scalar_lines(views(ls@), p as int, first@, oq_first, min as int) == Ok::<(Seq<char>, nat), YErr>((t@, c as nat)) && p + c <= ls.len(),
            Err(e) => scalar_lines(views(ls@), p as int, first@, oq_first, min as int) == Err::<(Seq<char>, nat), YErr>(err_view(e)),
        },
{
    let ghost lv = views(ls@);
    let mut text = first;
    let mut oq = oq_first;
    let mut q = p;
    while q < ls.len()
        invariant
            p <= q <= ls.len(),
            lv == views(ls@),
            scalar_lines(lv, p as int, first@, oq_first, min as int) == shift(scalar_lines(lv, q as int, text@, oq, min as int), q - p),
        decreases ls.len() - q,
    {
        let raw = &ls[q];
        proof {
            assert(lv[q as int] == raw@);
        }
        let t = trimmed_line(raw);
        if t.len() == 0 {
            return Ok((text, q - p));
        }
        let ind = match indent_exec(raw) {
            None => return Err(tab_error(q)),
            Some(i) => i,
        };
        if ind < min {
            return Ok((text, q - p));
        }
        if oq.is_none() && starts_new_node_exec(&t) {
            return Ok((text, q - p));
        }
        let ghost before = text@;
        text.push(' ');
        crate::text::extend_all(&mut text, &t);
        proof {
            assert(text@ =~= before + seq![' '] + t@);
        }
        match oq {
            Some(qc) => {
                if closes_quote_exec(&t, qc, 0) {
                    oq = None;
                }
            },
            None => {},
        }
        q += 1;
    }
    Ok((text, q - p))
}

fn read_scalar_exec(ls: &Vec<Vec<char>>, p: usize, first: &[char], min: usize, line: usize) -> (r: Result<(Value, usize), (usize, String)>)
    requires
        p <= ls.len(),
        line < usize::MAX,
    ensures
        match r {
            Ok((v, c)) => read_scalar(views(ls@), p as int, first@, min as int, line as int) == Ok::<(ValueView, nat), YErr>((vview(v), c as nat)) && p + c <= ls.len(),
            Err(e) => read_scalar(views(ls@), p as int, first@, min as int, line as int) == Err::<(ValueView, nat), YErr>(err_view(e)),
        },
{
    if first.len() > 0 && (first[0] == '[' || first[0] == '{') {
        return match parse_inline_value(first, line) {
            Ok(v) => Ok((v, 0)),
            Err(e) => Err(e),
        };
    }
    let oq: Option<char> = if first.len() > 0 && (first[0] == '\'' || first[0] == '"') && !closes_quote_exec(first, first[0], 1) {
        Some(first[0])
    } else {
        None
    };
    let mut start: Vec<char> = Vec::new();
    crate::text::extend_all(&mut start, first);
    match scalar_lines_exec(ls, p, start, oq, min) {
        Err(e) => Err(e),
        Ok((t, c)) => match parse_scalar(&t) {
            Ok(v) => Ok((v, c)),
            Err(m) => Err((line + 1, m)),
        },
    }
}

fn strip_block_exec(line: &[char], bi: usize) -> (r: Option<Vec<char>>)
    ensures
        match r {
            Some(v) => strip_block(line@, bi as int) == Some(v@),
            None => strip_block(line@, bi as int) is None,
        },
{
    let mut k: usize = 0;
    let mut acc: usize = 0;
    proof {
        assert(line@.subrange(0, 0) =~= Seq::<char>::empty());
    }
    while k < line.len() && acc < bi
        invariant
            k <= line.len(),
            acc == byte_len(line@.subrange(0, k as int)),
            acc <= bi,
            cut_at(line@, k as int, acc as int, bi as int) == cut_at(line@, 0, 0, bi as int),
        decreases line.len() - k,
    {
        let w = crate::text::utf8_len_exec(line[k]);
        proof {
            let pre = line@.subrange(0, k + 1);
            assert(pre.drop_last() =~= line@.subrange(0, k as int));
            assert(pre.last() == line@[k as int]);
        }
        if w > bi - acc {
            proof {
                assert(cut_at(line@, k + 1, acc + w, bi as int) is None);
                crate::text::lemma_byte_len_prefix_mono(line@, k + 1);
                assert(byte_len(line@) >= bi);
            }
            return None;
        }
        acc = acc + w;
        k += 1;
    }
    proof {
        crate::text::lemma_byte_len_prefix_mono(line@, k as int);
        if k == line.len() {
            assert(line@.subrange(0, k as int) =~= line@);
        }
    }
    if acc == bi {
        let mut out: Vec<char> = Vec::new();
        extend_range(&mut out, line, k, line.len());
        Some(out)
    } else {
        Some(Vec::new())
    }
}

/// `acc` in front of a block-lines result, `off` lines earlier.
pub open spec fn front_lines(acc: Seq<Seq<char>>, off: int, r: Result<(Seq<Seq<char>>, nat), YErr>) -> Result<(Seq<Seq<char>>, nat), YErr> {
    match r {
        Ok((b, c)) => Ok((acc + b, (off + c) as nat)),
        Err(e) => Err(e),
    }
}

fn block_lines_exec(ls: &Vec<Vec<char>>, p: usize, parent: usize) -> (r: Result<(Vec<Vec<char>>, usize), (usize, String)>)
    requires
        p <= ls.len(),
    ensures
        match r {
            Ok((b, c)) => block_lines(views(ls@), p as int, parent as int, None) == Ok::<(Seq<Seq<char>>, nat), YErr>((views(b@), c as nat)) && p + c <= ls.len(),
            Err(e) => block_lines(views(ls@), p as int, parent as int, None) == Err::<(Seq<Seq<char>>, nat), YErr>(err_view(e)),
        },
{
    let ghost lv = views(ls@);
    let mut acc: Vec<Vec<char>> = Vec::new();
    let mut bi: Option<usize> = None;
    let mut q = p;
    proof {
        match block_lines(lv, p as int, parent as int, None) {
            Ok((b, c)) => {
                assert(views(acc@) + b =~= b);
            },
            Err(_) => {},
        }
    }
    while q < ls.len()
        invariant
            p <= q <= ls.len(),
            lv == views(ls@),
            block_lines(lv, p as int, parent as int, None) == front_lines(views(acc@), q - p, block_lines(lv, q as int, parent as int, match bi {
                Some(b) => Some(b as int),
                None => None,
            })),
        decreases ls.len() - q,
    {
        let line = &ls[q];
        proof {
            assert(lv[q as int] == line@);
        }
        let ghost before = views(acc@);
        if trimmed_line(line).len() == 0 {
            acc.push(Vec::new());
            proof {
                assert(views(acc@) =~= before.push(seq![]));
                match block_lines(lv, q + 1, parent as int, match bi {
                    Some(b) => Some(b as int),
                    None => None,
                }) {
                    Ok((b, c)) => {
                        assert(before + (seq![seq![]] + b) =~= views(acc@) + b);
                    },
                    Err(_) => {},
                }
            }
            q += 1;
        } else {
            let ind = match indent_exec(line) {
                None => return Err((q + 1, "tab in block scalar indentation".to_string())),
                Some(i) => i,
            };
            if ind <= parent {
                proof {
                    assert(views(acc@) + Seq::<Seq<char>>::empty() =~= views(acc@));
                }
                return Ok((acc, q - p));
            }
            let b2 = match bi {
                Some(b) => b,
                None => ind,
            };
            match strip_block_exec(line, b2) {
                None => {
                    return Err((q + 1, "block scalar line is not aligned with the block's indentation".to_string()));
                },
                Some(st) => {
                    let ghost sv = st@;
                    acc.push(st);
                    proof {
                        assert(views(acc@) =~= before.push(sv));
                        match block_lines(lv, q + 1, parent as int, Some(b2 as int)) {
                            Ok((b, c)) => {
                                assert(before + (seq![sv] + b) =~= views(acc@) + b);
                            },
                            Err(_) => {},
                        }
                    }
                    bi = Some(b2);
                    q += 1;
                },
            }
        }
    }
    proof {
        assert(views(acc@) + Seq::<Seq<char>>::empty() =~= views(acc@));
    }
    Ok((acc, q - p))
}

fn block_text_exec(body: &Vec<Vec<char>>, header: &[char]) -> (r: Vec<char>)
    requires
        header.len() > 0,
    ensures
        r@ == block_text(views(body@), header@),
{
    let ghost bv = views(body@);
    let mut j = body.len();
    proof {
        assert(bv.subrange(0, j as int) =~= bv);
    }
    while j > 0 && body[j - 1].len() == 0
        invariant
            j <= body.len(),
            bv == views(body@),
            trailing_empty(bv) == (body.len() - j) + trailing_empty(bv.subrange(0, j as int)),
        decreases j,
    {
        proof {
            let sj = bv.subrange(0, j as int);
            assert(sj.last() == body@[j - 1]@);
            assert(sj.drop_last() =~= bv.subrange(0, j - 1));
        }
        j -= 1;
    }
    proof {
        let sj = bv.subrange(0, j as int);
        if j > 0 {
            assert(sj.last() == body@[j - 1]@);
        }
    }
    let t = body.len() - j;
    let mut kept: Vec<Vec<char>> = Vec::new();
    let mut k: usize = 0;
    while k < j
        invariant
            k <= j <= body.len(),
            bv == views(body@),
            views(kept@) == bv.subrange(0, k as int),
        decreases j - k,
    {
        let mut c: Vec<char> = Vec::new();
        crate::text::extend_all(&mut c, &body[k]);
        let ghost before = views(kept@);
        kept.push(c);
        proof {
            assert(views(kept@) =~= before.push(body@[k as int]@));
            assert(bv.subrange(0, k + 1) =~= bv.subrange(0, k as int).push(bv[k as int]));
        }
        k += 1;
    }
    let mut text: Vec<char> = if header[0] == '|' {
        let nl = chars_of("\n");
        crate::text::join_lines(&kept, &nl)
    } else {
        proof {
            assert(views(kept@).len() == kept@.len());
        }
        fold_lines(&kept)
    };
    let mut h: usize = 1;
    while h < header.len() && header[h] != '+' && header[h] != '-'
        invariant
            1 <= h <= header.len(),
            chomp_of(header@, h as int) == chomp_of(header@, 1),
        decreases header.len() - h,
    {
        h += 1;
    }
    if h < header.len() {
        if header[h] == '-' {
            return text;
        }
        let ghost base = text@;
        text.push('\n');
        let mut n: usize = 0;
        while n < t
            invariant
                n <= t,
                text@ == base.push('\n') + newlines(n as int),
            decreases t - n,
        {
            text.push('\n');
            n += 1;
            proof {
                assert(text@ =~= base.push('\n') + newlines(n as int));
            }
        }
        proof {
            assert(base.push('\n') + newlines(0) =~= base.push('\n'));
        }
        text
    } else {
        if text.len() > 0 || t > 0 {
            text.push('\n');
        }
        text
    }
}

fn block_scalar_exec(ls: &Vec<Vec<char>>, p: usize, parent: usize, header: &[char]) -> (r: Result<(Value, usize), (usize, String)>)
    requires
        p <= ls.len(),
        header.len() > 0,
    ensures
        match r {
            Ok((v, c)) => block_scalar(views(ls@), p as int, parent as int, header@) == Ok::<(ValueView, nat), YErr>((vview(v), c as nat)) && p + c <= ls.len(),
            Err(e) => block_scalar(views(ls@), p as int, parent as int, header@) == Err::<(ValueView, nat), YErr>(err_view(e)),
        },
{
    match block_lines_exec(ls, p, parent) {
        Err(e) => Err(e),
        Ok((body, c)) => {
            let t = block_text_exec(&body, header);
            Ok((Value::Text(crate::text::string_of(&t)), c))
        },
    }
}

/// The text of an optional line.
pub open spec fn ov_view(o: Option<Vec<char>>) -> Option<Seq<char>> {
    match o {
        Some(v) => Some(v@),
        None => None,
    }
}

/// Every line is short enough for column arithmetic.
pub open spec fn fits(ls: Seq<Seq<char>>) -> bool {
    forall|i: int| 0 <= i < ls.len() ==> (#[trigger] ls[i]).len() <= usize::MAX / 8
}

/// The characters of `line` from column `ind`.
fn content_exec(line: &[char], ind: usize) -> (r: Vec<char>)
    ensures
        r@ == content_at(line@, ind as int),
{
    let mut out: Vec<char> = Vec::new();
    if ind <= line.len() {
        extend_range(&mut out, line, ind, line.len());
    }
    out
}

fn trim_start_exec(v: &[char]) -> (r: Vec<char>)
    ensures
        r@ == trim_start(v@),
{
    let a = crate::text::skip_ws_exec(v, 0, v.len());
    let mut out: Vec<char> = Vec::new();
    extend_range(&mut out, v, a, v.len());
    out
}


fn node_exec(ls: &Vec<Vec<char>>, p: usize, ind: usize) -> (r: Result<(Value, usize), (usize, String)>)
    requires
        p <= ls.len(),
        fits(views(ls@)),
        ind <= usize::MAX / 2,
    ensures
        match r {
            Ok((v, c)) => node(views(ls@), p as int, ind as int) == Ok::<(ValueView, nat), YErr>((vview(v), c as nat)) && p + c <= ls.len(),
            Err(e) => node(views(ls@), p as int, ind as int) == Err::<(ValueView, nat), YErr>(err_view(e)),
        },
    decreases rem(ls.len() as int, p as int), 5nat,
{
    if p >= ls.len() {
        return Ok((Value::Null, 0));
    }
    proof {
        assert(views(ls@)[p as int] == ls@[p as int]@);
    }
    let trimmed = trim_start_exec(&content_exec(&ls[p], ind));
    if is_item_exec(&trimmed) {
        match sequence_exec(ls, p, ind) {
            Ok((vs, c)) => Ok((Value::Sequence(vs), c)),
            Err(e) => Err(e),
        }
    } else if split_key_value(&trimmed).is_some() {
        match mapping_exec(ls, p, ind, None) {
            Ok((es, c)) => Ok((Value::Mapping(Mapping { entries: es }), c)),
            Err(e) => Err(e),
        }
    } else {
        match read_scalar_exec(ls, p + 1, &trimmed, ind, p) {
            Ok((v, c)) => Ok((v, c + 1)),
            Err(e) => Err(e),
        }
    }
}

fn nested_exec(ls: &Vec<Vec<char>>, p: usize, parent: usize) -> (r: Result<(Value, usize), (usize, String)>)
    requires
        p <= ls.len(),
        fits(views(ls@)),
        parent <= usize::MAX / 2,
    ensures
        match r {
            Ok((v, c)) => nested(views(ls@), p as int, parent as int) == Ok::<(ValueView, nat), YErr>((vview(v), c as nat)) && p + c <= ls.len(),
            Err(e) => nested(views(ls@), p as int, parent as int) == Err::<(ValueView, nat), YErr>(err_view(e)),
        },
    decreases rem(ls.len() as int, p as int), 6nat,
{
    let q = skip_blank_exec(ls, p);
    if q >= ls.len() {
        return Ok((Value::Null, q - p));
    }
    proof {
        assert(views(ls@)[q as int] == ls@[q as int]@);
        lemma_skip_blank(views(ls@), p as int);
    }
    let ii = match indent_exec(&ls[q]) {
        None => return Err(tab_error(q)),
        Some(i) => i,
    };
    proof {
        assert(ls@[q as int]@.len() <= usize::MAX / 8);
    }
    if ii > parent {
        match node_exec(ls, q, ii) {
            Ok((v, c)) => Ok((v, q - p + c)),
            Err(e) => Err(e),
        }
    } else if ii == parent && is_item_exec(&content_exec(&ls[q], ii)) {
        match sequence_exec(ls, q, ii) {
            Ok((vs, c)) => Ok((Value::Sequence(vs), q - p + c)),
            Err(e) => Err(e),
        }
    } else {
        Ok((Value::Null, q - p))
    }
}

#[verifier::rlimit(80)]
fn entry_exec(ls: &Vec<Vec<char>>, q: usize, ind: usize, content: &[char]) -> (r: Result<Option<((Value, Value), usize)>, (usize, String)>)
    requires
        q < ls.len(),
        fits(views(ls@)),
        ind <= usize::MAX / 2,
    ensures
        match r {
            Ok(Some((kv, c))) => entry(views(ls@), q as int, ind as int, content@) == Ok::<Option<((ValueView, ValueView), nat)>, YErr>(Some(((vview(kv.0), vview(kv.1)), c as nat))) && q + 1 + c <= ls.len(),
            Ok(None) => entry(views(ls@), q as int, ind as int, content@) == Ok::<Option<((ValueView, ValueView), nat)>, YErr>(None),
            Err(e) => entry(views(ls@), q as int, ind as int, content@) == Err::<Option<((ValueView, ValueView), nat)>, YErr>(err_view(e)),
        },
    decreases rem(ls.len() as int, q as int), 0nat,
{
    let trimmed = trim_start_exec(content);
    if is_item_exec(&trimmed) {
        return Ok(None);
    }
    let (k, rest) = match split_key_value(&trimmed) {
        None => return Err((q + 1, "expected 'key: value' mapping entry".to_string())),
        Some(x) => x,
    };
    let key = match parse_scalar(&k) {
        Err(m) => return Err((q + 1, m)),
        Ok(key) => key,
    };
    let (v, c) = match rest {
        Some(r) => {
            if r[0] == '|' || r[0] == '>' {
                match block_scalar_exec(ls, q + 1, ind, &r) {
                    Err(e) => return Err(e),
                    Ok(x) => x,
                }
            } else {
                match read_scalar_exec(ls, q + 1, &r, ind + 1, q) {
                    Err(e) => return Err(e),
                    Ok(x) => x,
                }
            }
        },
        None => match nested_exec(ls, q + 1, ind) {
            Err(e) => return Err(e),
            Ok(x) => x,
        },
    };
    Ok(Some(((key, v), c)))
}

fn mapping_exec(ls: &Vec<Vec<char>>, p: usize, ind: usize, ov0: Option<Vec<char>>) -> (r: Result<(Vec<(Value, Value)>, usize), (usize, String)>)
    requires
        p <= ls.len(),
        fits(views(ls@)),
        ind <= usize::MAX / 2,
    ensures
        match r {
            Ok((es, c)) => mapping(views(ls@), p as int, ind as int, ov_view(ov0)) == Ok::<(Seq<(ValueView, ValueView)>, nat), YErr>((pviews(es@, es@.len() as int), c as nat)) && p + c <= ls.len(),
            Err(e) => mapping(views(ls@), p as int, ind as int, ov_view(ov0)) == Err::<(Seq<(ValueView, ValueView)>, nat), YErr>(err_view(e)),
        },
    decreases rem(ls.len() as int, p as int), 2nat,
{
    if p >= ls.len() {
        proof {
            assert(pviews(Seq::<(Value, Value)>::empty(), 0) =~= Seq::<(ValueView, ValueView)>::empty());
        }
        return Ok((Vec::new(), 0));
    }
    match ov0 {
        None => mapping_rest_exec(ls, p, ind),
        Some(o) => {
            if blank_or_comment_exec(&o) {
                return match mapping_rest_exec(ls, p + 1, ind) {
                    Ok((es, c)) => Ok((es, c + 1)),
                    Err(e) => Err(e),
                };
            }
            match entry_exec(ls, p, ind, &o) {
                Err(e) => Err(e),
                Ok(None) => {
                    proof {
                        assert(pviews(Seq::<(Value, Value)>::empty(), 0) =~= Seq::<(ValueView, ValueView)>::empty());
                    }
                    Ok((Vec::new(), 0))
                },
                Ok(Some((kv, c))) => {
                    match mapping_rest_exec(ls, p + 1 + c, ind) {
                        Err(e) => Err(e),
                        Ok((es, c2)) => {
                            let mut out: Vec<(Value, Value)> = Vec::new();
                            let ghost kvv = (vview(kv.0), vview(kv.1));
                            let ghost kvx = kv;
                            out.push(kv);
                            proof {
                                crate::yaml::lemma_pviews_push(Seq::<(Value, Value)>::empty(), kvx);
                                assert(pviews(Seq::<(Value, Value)>::empty(), 0) =~= Seq::<(ValueView, ValueView)>::empty());
                                assert(out@ =~= seq![kvx]);
                            }
                            let mut rest = es;
                            let ghost rv = pviews(rest@, rest@.len() as int);
                            let ghost ov = out@;
                            let ghost esv = rest@;
                            out.append(&mut rest);
                            proof {
                                lemma_pviews_concat(ov, rv, esv);
                                assert(pviews(out@, out@.len() as int) =~= seq![kvv] + rv);
                            }
                            Ok((out, 1 + c + c2))
                        },
                    }
                },
            }
        },
    }
}

#[verifier::rlimit(80)]
fn mapping_rest_exec(ls: &Vec<Vec<char>>, p: usize, ind: usize) -> (r: Result<(Vec<(Value, Value)>, usize), (usize, String)>)
    requires
        p <= ls.len(),
        fits(views(ls@)),
        ind <= usize::MAX / 2,
    ensures
        match r {
            Ok((es, c)) => mapping(views(ls@), p as int, ind as int, None) == Ok::<(Seq<(ValueView, ValueView)>, nat), YErr>((pviews(es@, es@.len() as int), c as nat)) && p + c <= ls.len(),
            Err(e) => mapping(views(ls@), p as int, ind as int, None) == Err::<(Seq<(ValueView, ValueView)>, nat), YErr>(err_view(e)),
        },
    decreases rem(ls.len() as int, p as int), 1nat,
{
    let ghost lv = views(ls@);
    let mut acc: Vec<(Value, Value)> = Vec::new();
    let mut cur = p;
    proof {
        assert(pviews(acc@, 0) =~= Seq::<(ValueView, ValueView)>::empty());
        match mapping(lv, p as int, ind as int, None) {
            Ok((es, c)) => {
                assert(Seq::<(ValueView, ValueView)>::empty() + es =~= es);
            },
            Err(_) => {},
        }
    }
    loop
        invariant
            p <= cur <= ls.len(),
            lv == views(ls@),
            fits(lv),
            ind <= usize::MAX / 2,
            mapping(lv, p as int, ind as int, None) == crate::yaml_flow::front_entries(pviews(acc@, acc@.len() as int), cur - p, mapping(lv, cur as int, ind as int, None)),
        decreases ls.len() - cur,
    {
        let q = skip_blank_exec(ls, cur);
        proof {
            lemma_skip_blank(lv, cur as int);
            assert(pviews(acc@, acc@.len() as int) + Seq::<(ValueView, ValueView)>::empty() =~= pviews(acc@, acc@.len() as int));
        }
        if q >= ls.len() {
            return Ok((acc, q - p));
        }
        proof {
            assert(lv[q as int] == ls@[q as int]@);
        }
        let ii = match indent_exec(&ls[q]) {
            None => return Err(tab_error(q)),
            Some(i) => i,
        };
        if ii < ind {
            return Ok((acc, q - p));
        }
        if ii > ind {
            return Err((q + 1, "unexpected indentation in mapping".to_string()));
        }
        let content = content_exec(&ls[q], ind);
        match entry_exec(ls, q, ind, &content) {
            Err(e) => return Err(e),
            Ok(None) => return Ok((acc, q - p)),
            Ok(Some((kv, c))) => {
                let ghost before = acc@;
                let ghost kvx = kv;
                let ghost kvv = (vview(kv.0), vview(kv.1));
                acc.push(kv);
                let after = q + 1 + c;
                proof {
                    crate::yaml::lemma_pviews_push(before, kvx);
                    match mapping(lv, after as int, ind as int, None) {
                        Ok((es, c2)) => {
                            assert(pviews(before, before.len() as int) + (seq![kvv] + es) =~= pviews(acc@, acc@.len() as int) + es);
                        },
                        Err(_) => {},
                    }
                }
                cur = after;
            },
        }
    }
}

proof fn lemma_pviews_concat(a: Seq<(Value, Value)>, av: Seq<(ValueView, ValueView)>, b: Seq<(Value, Value)>)
    requires
        av == pviews(b, b.len() as int),
    ensures
        pviews(a + b, (a + b).len() as int) == pviews(a, a.len() as int) + av,
    decreases b.len(),
{
    if b.len() == 0 {
        assert(a + b =~= a);
        assert(pviews(a, a.len() as int) + av =~= pviews(a, a.len() as int));
    } else {
        let b0 = b.drop_last();
        lemma_pviews_concat(a, pviews(b0, b0.len() as int), b0);
        assert(a + b =~= (a + b0).push(b.last()));
        assert(b =~= b0.push(b.last()));
        crate::yaml::lemma_pviews_push(a + b0, b.last());
        crate::yaml::lemma_pviews_push(b0, b.last());
        assert(pviews(a + b, (a + b).len() as int) =~= pviews(a, a.len() as int) + av);
    }
}

fn leading_ws_bytes_exec(s: &[char]) -> (r: usize)
    requires
        s.len() <= usize::MAX / 8,
    ensures
        r == leading_ws_bytes(s@),
        r <= 4 * crate::text::skip_ws(s@, 0, s@.len() as int),
{
    let a = crate::text::skip_ws_exec(s, 0, s.len());
    let mut total: usize = 0;
    let mut i: usize = 0;
    proof {
        assert(trim_start(s@).len() == s.len() - a);
        assert(s@.subrange(0, 0) =~= Seq::<char>::empty());
    }
    while i < a
        invariant
            i <= a <= s.len(),
            s.len() <= usize::MAX / 8,
            a == crate::text::skip_ws(s@, 0, s@.len() as int),
            total == byte_len(s@.subrange(0, i as int)),
            total <= 4 * i,
        decreases a - i,
    {
        let w = crate::text::utf8_len_exec(s[i]);
        proof {
            let pre = s@.subrange(0, i + 1);
            assert(pre.drop_last() =~= s@.subrange(0, i as int));
            assert(pre.last() == s@[i as int]);
        }
        total = total + w;
        i += 1;
    }
    total
}

fn seq_item_exec(ls: &Vec<Vec<char>>, q: usize, ind: usize, content: &[char]) -> (r: Result<(Value, usize), (usize, String)>)
    requires
        q < ls.len(),
        fits(views(ls@)),
        ind <= usize::MAX / 2,
        content.len() >= 1,
        ind + content.len() <= views(ls@)[q as int].len(),
    ensures
        match r {
            Ok((v, c)) => seq_item(views(ls@), q as int, ind as int, content@) == Ok::<(ValueView, nat), YErr>((vview(v), c as nat)) && q + 1 + c <= ls.len(),
            Err(e) => seq_item(views(ls@), q as int, ind as int, content@) == Err::<(ValueView, nat), YErr>(err_view(e)),
        },
    decreases rem(ls.len() as int, q as int), 3nat,
{
    let mut dash_rest: Vec<char> = Vec::new();
    extend_range(&mut dash_rest, content, 1, content.len());
    let item_text = trim_start_exec(&dash_rest);
    if item_text.len() == 0 {
        nested_exec(ls, q + 1, ind)
    } else if item_text[0] == '|' || item_text[0] == '>' {
        block_scalar_exec(ls, q + 1, ind, &item_text)
    } else if split_key_value(&item_text).is_some() {
        proof {
            assert(views(ls@)[q as int].len() <= usize::MAX / 8);
            crate::text::lemma_skip_ws_bounds(dash_rest@, 0, dash_rest@.len() as int);
        }
        let w = leading_ws_bytes_exec(&dash_rest);
        let off = ind + 1 + w;
        match mapping_exec(ls, q, off, Some(item_text)) {
            Err(e) => Err(e),
            Ok((es, c)) => {
                if c == 0 {
                    return Err((q + 1, "unexpected indentation in sequence".to_string()));
                }
                Ok((Value::Mapping(Mapping { entries: es }), c - 1))
            },
        }
    } else {
        read_scalar_exec(ls, q + 1, &item_text, ind + 1, q)
    }
}

#[verifier::rlimit(80)]
fn sequence_exec(ls: &Vec<Vec<char>>, p: usize, ind: usize) -> (r: Result<(Vec<Value>, usize), (usize, String)>)
    requires
        p <= ls.len(),
        fits(views(ls@)),
        ind <= usize::MAX / 2,
    ensures
        match r {
            Ok((vs, c)) => sequence(views(ls@), p as int, ind as int) == Ok::<(Seq<ValueView>, nat), YErr>((vviews(vs@, vs@.len() as int), c as nat)) && p + c <= ls.len(),
            Err(e) => sequence(views(ls@), p as int, ind as int) == Err::<(Seq<ValueView>, nat), YErr>(err_view(e)),
        },
    decreases rem(ls.len() as int, p as int), 4nat,
{
    let ghost lv = views(ls@);
    let mut acc: Vec<Value> = Vec::new();
    let mut cur = p;
    proof {
        assert(vviews(acc@, 0) =~= Seq::<ValueView>::empty());
        match sequence(lv, p as int, ind as int) {
            Ok((vs, c)) => {
                assert(Seq::<ValueView>::empty() + vs =~= vs);
            },
            Err(_) => {},
        }
    }
    loop
        invariant
            p <= cur <= ls.len(),
            lv == views(ls@),
            fits(lv),
            ind <= usize::MAX / 2,
            sequence(lv, p as int, ind as int) == crate::yaml_flow::front_items(vviews(acc@, acc@.len() as int), cur - p, sequence(lv, cur as int, ind as int)),
        decreases ls.len() - cur,
    {
        let q = skip_blank_exec(ls, cur);
        proof {
            lemma_skip_blank(lv, cur as int);
            assert(vviews(acc@, acc@.len() as int) + Seq::<ValueView>::empty() =~= vviews(acc@, acc@.len() as int));
        }
        if q >= ls.len() {
            return Ok((acc, q - p));
        }
        proof {
            assert(lv[q as int] == ls@[q as int]@);
        }
        let ii = match indent_exec(&ls[q]) {
            None => return Err(tab_error(q)),
            Some(i) => i,
        };
        if ii < ind {
            return Ok((acc, q - p));
        }
        if ii > ind {
            return Err((q + 1, "unexpected indentation in sequence".to_string()));
        }
        let content = content_exec(&ls[q], ind);
        if !is_item_exec(&content) {
            return Ok((acc, q - p));
        }
        proof {
            reveal_strlit("-");
            reveal_strlit("- ");
            assert(content@.len() >= 1);
        }
        let (v, c) = match seq_item_exec(ls, q, ind, &content) {
            Err(e) => return Err(e),
            Ok(x) => x,
        };
        let ghost before = acc@;
        let ghost vv = vview(v);
        acc.push(v);
        let after = q + 1 + c;
        proof {
            crate::yaml::lemma_vviews_push(before, v);
            match sequence(lv, after as int, ind as int) {
                Ok((vs, c2)) => {
                    assert(vviews(before, before.len() as int) + (seq![vv] + vs) =~= vviews(acc@, acc@.len() as int) + vs);
                },
                Err(_) => {},
            }
        }
        cur = after;
    }
}

impl Value {
    /// Parses a YAML document (see [`parse_spec`]). Empty or comment-only
    /// text is null.
    pub fn parse(text: &str) -> (r: Result<Value, YamlError>)
        requires
            text@.len() <= usize::MAX / 8,
        ensures
            match r {
                Ok(v) => parse_spec(text@) == Ok::<ValueView, YErr>(vview(v)),
                Err(e) => parse_spec(text@) == Err::<ValueView, YErr>((e.line as int, e.message@)),
            },
    {
        let cs = chars_of(text);
        let ls = split_lines(&cs);
        proof {
            crate::text::lemma_lines_scan_short(text@, 0, 0);
            assert(fits(views(ls@)));
        }
        let q = skip_blank_exec(&ls, 0);
        if q >= ls.len() {
            return Ok(Value::Null);
        }
        proof {
            assert(views(ls@)[q as int] == ls@[q as int]@);
        }
        let base = match indent_exec(&ls[q]) {
            None => return Err(YamlError { line: q + 1, message: "tab character in indentation".to_string() }),
            Some(b) => b,
        };
        match node_exec(&ls, q, base) {
            Err((l, m)) => Err(YamlError { line: l, message: m }),
            Ok((v, c)) => {
                let r = skip_blank_exec(&ls, q + c);
                if r < ls.len() {
                    Err(YamlError { line: r + 1, message: "unexpected trailing content".to_string() })
                } else {
                    Ok(v)
                }
            },
        }
    }
}

} // verus!
