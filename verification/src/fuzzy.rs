//! Fuzzy subsequence matching with a Smith-Waterman-style alignment score.
//!
//! A query matches a haystack when its non-whitespace characters occur in
//! the haystack in order (an *alignment*). Each aligned character scores
//! [`MATCH_SCORE`] plus a positional bonus (haystack start, after a
//! separator, at a camelCase boundary); consecutive characters earn
//! [`BONUS_CONSECUTIVE`], and a gap of `g` skipped characters costs
//! `-(g + 2)` (an affine start of 3 and 1 per further character).
//! [`fuzzy_match`] returns an alignment of maximal score.
use vstd::prelude::*;
use crate::text::{chars_of, is_whitespace, is_ws};

verus! {

/// Score of a matched character.
pub const MATCH_SCORE: i32 = 16;
/// Bonus after a separator or whitespace.
pub const BONUS_BOUNDARY: i32 = 16;
/// Bonus at a lowercase-to-uppercase transition.
pub const BONUS_CAMEL: i32 = 12;
/// Bonus for a character right after the previous match.
pub const BONUS_CONSECUTIVE: i32 = 8;
/// Bonus for matching the first haystack character.
pub const BONUS_FIRST_CHAR: i32 = 20;
/// Cost of opening a gap.
pub const PENALTY_GAP_START: i32 = -3;
/// Cost of each further character in a gap.
pub const PENALTY_GAP_EXTEND: i32 = -1;
/// Haystacks up to this length (in characters) have every alignment score
/// above [`NEG`], so there the table search finds an alignment of the
/// highest score.
pub const MAX_HAYSTACK: usize = 10_000_000;

/// Queries up to this length (in non-whitespace characters) keep every
/// table value within `i32`; a longer one gets its leftmost alignment.
pub const MAX_QUERY: usize = 40_000_000;

/// The "no alignment" sentinel, far below any reachable score.
pub const NEG: i32 = -536870912;

/// What `char::is_uppercase` answers for a character beyond ASCII (the
/// Unicode `Uppercase` property).
pub uninterp spec fn unicode_is_upper(c: char) -> bool;

/// Uppercase as `char::is_uppercase` decides it: the ASCII capitals among
/// ASCII characters, the Unicode property otherwise.
pub open spec fn char_is_upper(c: char) -> bool {
    if (c as u32) < 128 {
        'A' <= c && c <= 'Z'
    } else {
        unicode_is_upper(c)
    }
}

/// `char::is_uppercase`. Trusted: among ASCII it holds exactly of `A`-`Z`;
/// other characters go by the name [`unicode_is_upper`], whose values are
/// not stated.
#[verifier::external_body]
fn is_uppercase(c: char) -> (r: bool)
    ensures
        r == (if (c as u32) < 128 {
            'A' <= c && c <= 'Z'
        } else {
            unicode_is_upper(c)
        }),
{
    c.is_uppercase()
}

/// What `char::is_lowercase` answers for a character beyond ASCII (the
/// Unicode `Lowercase` property).
pub uninterp spec fn unicode_is_lower(c: char) -> bool;

/// Lowercase as `char::is_lowercase` decides it: the ASCII small letters
/// among ASCII characters, the Unicode property otherwise.
pub open spec fn char_is_lower(c: char) -> bool {
    if (c as u32) < 128 {
        'a' <= c && c <= 'z'
    } else {
        unicode_is_lower(c)
    }
}

/// `char::is_lowercase`. Trusted: among ASCII it holds exactly of `a`-`z`;
/// other characters go by the name [`unicode_is_lower`], whose values are
/// not stated.
#[verifier::external_body]
fn is_lowercase(c: char) -> (r: bool)
    ensures
        r == (if (c as u32) < 128 {
            'a' <= c && c <= 'z'
        } else {
            unicode_is_lower(c)
        }),
{
    c.is_lowercase()
}

/// What `char::to_lowercase` yields for a character beyond ASCII.
pub uninterp spec fn unicode_lowercase(c: char) -> Seq<char>;

/// The characters `char::to_lowercase` yields: an ASCII capital's small
/// letter, any other ASCII character itself, the Unicode mapping otherwise.
pub open spec fn char_lowercase(c: char) -> Seq<char> {
    if (c as u32) < 128 {
        if 'A' <= c && c <= 'Z' {
            seq![((c as u32) + 32) as char]
        } else {
            seq![c]
        }
    } else {
        unicode_lowercase(c)
    }
}

/// `char::to_lowercase`, collected. Trusted: an ASCII capital gives its small
/// letter and any other ASCII character itself; other characters go by the
/// name [`unicode_lowercase`], whose values are not stated.
#[verifier::external_body]
fn to_lowercase(c: char) -> (r: Vec<char>)
    ensures
        r@ == (if (c as u32) < 128 {
            if 'A' <= c && c <= 'Z' {
                seq![((c as u32) + 32) as char]
            } else {
                seq![c]
            }
        } else {
            unicode_lowercase(c)
        }),
{
    c.to_lowercase().collect()
}

/// Smart-case character equality: an uppercase query character must match
/// exactly, any other matches case-insensitively.
pub open spec fn q_eq(qc: char, hc: char) -> bool {
    if char_is_upper(qc) {
        qc == hc
    } else {
        char_lowercase(qc) == char_lowercase(hc)
    }
}

fn q_eq_exec(qc: char, hc: char) -> (r: bool)
    ensures
        r == q_eq(qc, hc),
{
    if is_uppercase(qc) {
        qc == hc
    } else {
        let a = to_lowercase(qc);
        let b = to_lowercase(hc);
        if a.len() != b.len() {
            proof {
                assert(a@.len() != b@.len());
            }
            return false;
        }
        let mut k: usize = 0;
        while k < a.len()
            invariant
                a.len() == b.len(),
                k <= a.len(),
                a@ == char_lowercase(qc),
                b@ == char_lowercase(hc),
                !char_is_upper(qc),
                forall|t: int| 0 <= t < k ==> a@[t] == b@[t],
            decreases a.len() - k,
        {
            if a[k] != b[k] {
                proof {
                    assert(a@[k as int] != b@[k as int]);
                }
                return false;
            }
            k += 1;
        }
        proof {
            assert(a@ =~= b@);
        }
        true
    }
}

/// Whether `c` separates words.
pub open spec fn is_separator(c: char) -> bool {
    c == '/' || c == '_' || c == '-' || c == '.' || c == ':' || is_ws(c)
}

/// The positional bonus for matching haystack character `j`.
pub open spec fn bonus(h: Seq<char>, j: int) -> int {
    if j == 0 {
        20
    } else if is_separator(h[j - 1]) {
        16
    } else if char_is_lower(h[j - 1]) && char_is_upper(h[j]) {
        12
    } else {
        0
    }
}

/// What joining a match at `j` to the previous match at `k` adds.
pub open spec fn link(k: int, j: int) -> int {
    if j == k + 1 {
        8
    } else {
        k - j - 1
    }
}

/// The score of the alignment `a` (haystack indices of the query characters).
pub open spec fn score(h: Seq<char>, a: Seq<int>) -> int
    decreases a.len(),
{
    if a.len() == 0 {
        0
    } else {
        score(h, a.drop_last()) + 16 + bonus(h, a.last()) + if a.len() >= 2 {
            link(a[a.len() - 2], a.last())
        } else {
            0
        }
    }
}

/// `a` aligns the first `n` query characters to increasing haystack positions.
pub open spec fn aligns(q: Seq<char>, h: Seq<char>, n: int, a: Seq<int>) -> bool {
    &&& a.len() == n
    &&& forall|k: int| 0 <= k < n ==> 0 <= #[trigger] a[k] < h.len() && q_eq(q[k], h[a[k]])
    &&& forall|k: int| 0 < k < n ==> #[trigger] a[k - 1] < a[k]
}

/// `a` aligns the whole query.
pub open spec fn is_alignment(q: Seq<char>, h: Seq<char>, a: Seq<int>) -> bool {
    aligns(q, h, q.len() as int, a)
}

/// The query's characters other than whitespace.
pub open spec fn non_ws(s: Seq<char>) -> Seq<char>
    decreases s.len(),
{
    if s.len() == 0 {
        seq![]
    } else if is_ws(s.last()) {
        non_ws(s.drop_last())
    } else {
        non_ws(s.drop_last()).push(s.last())
    }
}

/// The indices as integers.
pub open spec fn idx_view(v: Seq<usize>) -> Seq<int> {
    v.map_values(|x: usize| x as int)
}

/// The path of match positions recorded by the parent links `p`, ending at
/// query character `i` placed at haystack position `j`.
pub open spec fn trace(p: Seq<Seq<usize>>, i: int, j: int) -> Seq<int>
    decreases i,
{
    if i <= 0 {
        seq![j]
    } else {
        trace(p, i - 1, p[i][j] as int).push(j)
    }
}

proof fn lemma_score_bounds(h: Seq<char>, a: Seq<int>)
    requires
        a.len() >= 1,
        forall|k: int| 0 <= k < a.len() ==> 0 <= #[trigger] a[k],
        forall|k: int| 0 < k < a.len() ==> #[trigger] a[k - 1] < a[k],
    ensures
        score(h, a) >= 15 * a.len() - a.last(),
        score(h, a) <= 44 * a.len(),
    decreases a.len(),
{
    let b = a.drop_last();
    let j = a.last();
    assert(0 <= bonus(h, j) <= 20);
    if a.len() >= 2 {
        assert forall|k: int| 0 < k < b.len() implies #[trigger] b[k - 1] < b[k] by {
            assert(a[k - 1] < a[k]);
        }
        assert forall|k: int| 0 <= k < b.len() implies 0 <= #[trigger] b[k] by {
            assert(0 <= a[k]);
        }
        lemma_score_bounds(h, b);
        let k = a[a.len() - 2];
        assert(b.last() == k);
        assert(k < j);
        assert(score(h, a) == score(h, b) + 16 + bonus(h, j) + link(k, j));
        assert(link(k, j) >= k - j - 1);
        assert(link(k, j) <= 8);
    } else {
        assert(b.len() == 0);
        assert(score(h, b) == 0);
        assert(a[0] >= 0);
        assert(score(h, a) == score(h, b) + 16 + bonus(h, j));
    }
}

proof fn lemma_aligns_prefix(q: Seq<char>, h: Seq<char>, n: int, a: Seq<int>)
    requires
        n >= 1,
        aligns(q, h, n, a),
    ensures
        aligns(q, h, n - 1, a.drop_last()),
{
    let b = a.drop_last();
    assert forall|k: int| 0 <= k < n - 1 implies 0 <= #[trigger] b[k] < h.len() && q_eq(
        q[k],
        h[b[k]],
    ) by {
        assert(b[k] == a[k]);
    }
    assert forall|k: int| 0 < k < n - 1 implies #[trigger] b[k - 1] < b[k] by {
        assert(a[k - 1] < a[k]);
    }
}

/// `trace` only reads the parent rows up to its own row.
proof fn lemma_trace_prefix(p: Seq<Seq<usize>>, extra: Seq<usize>, i: int, j: int)
    requires
        i < p.len(),
    ensures
        trace(p.push(extra), i, j) == trace(p, i, j),
    decreases i,
{
    if i > 0 {
        assert(p.push(extra)[i] == p[i]);
        lemma_trace_prefix(p, extra, i - 1, p[i][j] as int);
    }
}

/// The row-`i` facts the search keeps: every stored value below `NEG`'s
/// sentinel is the best score of an alignment of the first `i + 1` query
/// characters ending at that column, witnessed by the parent links.
pub open spec fn cell_ok(
    q: Seq<char>,
    h: Seq<char>,
    p: Seq<Seq<usize>>,
    i: int,
    j: int,
    v: int,
) -> bool {
    &&& (forall|a: Seq<int>| aligns(q, h, i + 1, a) && a.last() == j ==> score(h, a) <= v)
    &&& v > NEG ==> {
        let t = trace(p, i, j);
        &&& aligns(q, h, i + 1, t)
        &&& t.last() == j
        &&& score(h, t) == v
    }
    &&& v == NEG || v > NEG
}

/// The mark of a cell without a parent (`usize::MAX`).
pub open spec fn no_par() -> int {
    usize::MAX as int
}

/// Cell `(i, j)` of the alignment table as the search fills it, row by row
/// and left to right: `(value, parent, gap value, gap column)`. The value is
/// the score of the best alignment of the first `i + 1` query characters
/// ending at haystack position `j` that the table keeps (values at or below
/// [`NEG`] are dropped), the parent is the previous character's position on
/// it; the gap pair is the running best of earlier cells of the row above,
/// already charged for the gap up to `j`. Ties go to the consecutive
/// predecessor, then to the earliest gapped one.
pub open spec fn cell(q: Seq<char>, h: Seq<char>, i: int, j: int) -> (int, int, int, int)
    decreases i, j,
{
    if i < 0 || j < 0 || j >= h.len() || i >= q.len() {
        (NEG as int, no_par(), NEG as int, no_par())
    } else if i == 0 {
        (if q_eq(q[0], h[j]) { 16 + bonus(h, j) } else { NEG as int }, no_par(), NEG as int, no_par())
    } else if j < i {
        (NEG as int, no_par(), NEG as int, no_par())
    } else {
        let bv0 = if j == i { NEG as int } else { cell(q, h, i, j - 1).2 };
        let bk0 = if j == i { no_par() } else { cell(q, h, i, j - 1).3 };
        let v1 = if bv0 > NEG { bv0 - 1 } else { bv0 };
        let up2 = cell(q, h, i - 1, j - 2).0;
        let take = j >= 2 && up2 > NEG && up2 - 3 > v1;
        let bv = if take { up2 - 3 } else { v1 };
        let bk = if take { j - 2 } else { bk0 };
        if !q_eq(q[i], h[j]) {
            (NEG as int, no_par(), bv, bk)
        } else {
            let up1 = cell(q, h, i - 1, j - 1).0;
            let consec = if up1 > NEG { up1 + 24 + bonus(h, j) } else { NEG as int };
            let gapped = if bv > NEG { bv + 16 + bonus(h, j) } else { NEG as int };
            if consec >= gapped {
                if consec > NEG {
                    (consec, j - 1, bv, bk)
                } else {
                    (NEG as int, no_par(), bv, bk)
                }
            } else {
                (gapped, bk, bv, bk)
            }
        }
    }
}

/// The leftmost column among the first `j` of the last row with the highest
/// kept value, with that value; [`no_par`] and [`NEG`] for none.
pub open spec fn best_col(q: Seq<char>, h: Seq<char>, j: int) -> (int, int)
    decreases j,
{
    if j <= 0 {
        (no_par(), NEG as int)
    } else {
        let prev = best_col(q, h, j - 1);
        let v = cell(q, h, q.len() - 1, j - 1).0;
        if v > prev.1 {
            (j - 1, v)
        } else {
            prev
        }
    }
}

/// The positions the parents of the table lead through, ending at query
/// character `i` placed at `j`.
pub open spec fn trace_cells(q: Seq<char>, h: Seq<char>, i: int, j: int) -> Seq<int>
    decreases i,
{
    if i <= 0 {
        seq![j]
    } else {
        trace_cells(q, h, i - 1, cell(q, h, i, j).1).push(j)
    }
}

/// What the search gives for the whitespace-free query `q`: the score and
/// positions traced back from the best column, `None` when no cell keeps a
/// value; an empty query matches with score 0.
pub open spec fn search_result(q: Seq<char>, h: Seq<char>) -> Option<(int, Seq<int>)> {
    if q.len() == 0 {
        Some((0, seq![]))
    } else if q.len() > h.len() {
        None
    } else {
        let b = best_col(q, h, h.len() as int);
        if b.0 == no_par() {
            None
        } else {
            Some((b.1, trace_cells(q, h, q.len() - 1, b.0)))
        }
    }
}

/// What [`fuzzy_match`] gives: [`search_result`] of the query's
/// non-whitespace characters, or for a query longer than [`MAX_QUERY`] the
/// leftmost alignment with its score capped to `i32`.
pub open spec fn fuzzy_spec(query: Seq<char>, h: Seq<char>) -> Option<(int, Seq<int>)> {
    let q = non_ws(query);
    if q.len() > MAX_QUERY {
        let g = greedy(q, h);
        if g.len() < q.len() {
            None
        } else {
            Some((clamp_i32(score(h, g)), g))
        }
    } else {
        search_result(q, h)
    }
}

/// The running gap pair of a row points at a kept cell of the row above, at
/// least two columns back.
proof fn lemma_gap_pair(q: Seq<char>, h: Seq<char>, i: int, j: int)
    requires
        1 <= i < q.len(),
        i <= j < h.len(),
    ensures
        cell(q, h, i, j).2 > NEG ==> 0 <= cell(q, h, i, j).3 <= j - 2 && cell(q, h, i - 1, cell(q, h, i, j).3).0 > NEG,
        cell(q, h, i, j).2 >= NEG,
    decreases j,
{
    if j > i {
        lemma_gap_pair(q, h, i, j - 1);
    }
}

/// A kept cell below row 0 has a kept parent to its left.
proof fn lemma_cell_parent(q: Seq<char>, h: Seq<char>, i: int, j: int)
    requires
        1 <= i < q.len(),
        0 <= j < h.len(),
        cell(q, h, i, j).0 > NEG,
    ensures
        0 <= cell(q, h, i, j).1 < j,
        cell(q, h, i - 1, cell(q, h, i, j).1).0 > NEG,
{
    lemma_gap_pair(q, h, i, j);
}

/// The trace from a kept cell runs through kept cells, one per row, each at
/// its successor's parent.
proof fn lemma_trace_cells(q: Seq<char>, h: Seq<char>, i: int, j: int)
    requires
        0 <= i < q.len(),
        0 <= j < h.len(),
        cell(q, h, i, j).0 > NEG,
    ensures
        trace_cells(q, h, i, j).len() == i + 1,
        trace_cells(q, h, i, j).last() == j,
        forall|t: int| 0 <= t <= i ==> 0 <= #[trigger] trace_cells(q, h, i, j)[t] < h.len()
            && cell(q, h, t, trace_cells(q, h, i, j)[t]).0 > NEG,
        forall|t: int| 1 <= t <= i ==> trace_cells(q, h, i, j)[t - 1] == cell(q, h, t, #[trigger] trace_cells(q, h, i, j)[t]).1,
    decreases i,
{
    if i > 0 {
        lemma_cell_parent(q, h, i, j);
        let k = cell(q, h, i, j).1;
        lemma_trace_cells(q, h, i - 1, k);
        let tp = trace_cells(q, h, i - 1, k);
        let t = trace_cells(q, h, i, j);
        assert(t == tp.push(j));
        assert forall|x: int| 0 <= x <= i implies 0 <= #[trigger] t[x] < h.len() && cell(q, h, x, t[x]).0 > NEG by {
            if x < i {
                assert(t[x] == tp[x]);
            }
        }
        assert forall|x: int| 1 <= x <= i implies t[x - 1] == cell(q, h, x, #[trigger] t[x]).1 by {
            if x < i {
                assert(t[x] == tp[x]);
                assert(t[x - 1] == tp[x - 1]);
            } else {
                assert(t[x - 1] == tp[i - 1]);
            }
        }
    }
}

/// Following stored parent links that agree with the table gives its trace.
proof fn lemma_trace_agrees(q: Seq<char>, h: Seq<char>, p: Seq<Seq<usize>>, i: int, j: int)
    requires
        0 <= i < q.len(),
        0 <= j < h.len(),
        cell(q, h, i, j).0 > NEG,
        p.len() > i,
        forall|r: int, k: int| 0 <= r <= i && 0 <= k < h.len() ==> #[trigger] p[r][k] as int == cell(q, h, r, k).1,
    ensures
        trace(p, i, j) == trace_cells(q, h, i, j),
    decreases i,
{
    if i > 0 {
        lemma_cell_parent(q, h, i, j);
        assert(p[i][j] as int == cell(q, h, i, j).1);
        lemma_trace_agrees(q, h, p, i - 1, cell(q, h, i, j).1);
    }
}

/// Fuzzy-matches `query` against `haystack`.
///
/// Case-insensitive by default; a query char written in uppercase must match
/// exactly (smart-case). Returns the score and the matched char indices, or
/// `None` when `query` is not a subsequence of `haystack`. The result is the
/// table search's (see [`fuzzy_spec`]); on a haystack of at most
/// [`MAX_HAYSTACK`] characters that is an alignment of the highest score.
pub fn fuzzy_match(query: &str, haystack: &str) -> (r: Option<(i32, Vec<usize>)>)
    ensures
        match r {
            Some((s, v)) => fuzzy_spec(query@, haystack@) == Some((s as int, idx_view(v@))),
            None => fuzzy_spec(query@, haystack@) is None,
        },
        non_ws(query@).len() == 0 ==> (r matches Some((s, v)) && s == 0 && v@.len() == 0),
        haystack@.len() <= MAX_HAYSTACK && non_ws(query@).len() <= MAX_QUERY ==> (r matches Some((s, _)) ==> s > NEG),
        non_ws(query@).len() > 0 && non_ws(query@).len() <= MAX_QUERY && haystack@.len() <= MAX_HAYSTACK ==> {
            &&& (r is None <==> !exists|a: Seq<int>| is_alignment(non_ws(query@), haystack@, a))
            &&& r matches Some((s, v)) ==> {
                &&& is_alignment(non_ws(query@), haystack@, idx_view(v@))
                &&& s == score(haystack@, idx_view(v@))
                &&& forall|a: Seq<int>| is_alignment(non_ws(query@), haystack@, a) ==> score(
                    haystack@,
                    a,
                ) <= s
            }
        },
{
    let qs = chars_of(query);
    let mut q: Vec<char> = Vec::new();
    let mut t: usize = 0;
    while t < qs.len()
        invariant
            t <= qs.len(),
            qs@ == query@,
            q@ == non_ws(qs@.subrange(0, t as int)),
        decreases qs.len() - t,
    {
        proof {
            assert(qs@.subrange(0, t + 1).drop_last() =~= qs@.subrange(0, t as int));
        }
        if !is_whitespace(qs[t]) {
            q.push(qs[t]);
        }
        t += 1;
    }
    proof {
        assert(qs@.subrange(0, qs@.len() as int) =~= qs@);
    }
    let h = chars_of(haystack);
    if q.len() == 0 {
        let none: Vec<usize> = Vec::new();
        proof {
            assert(idx_view(none@) =~= Seq::<int>::empty());
        }
        return Some((0, none));
    }
    if q.len() > MAX_QUERY {
        return leftmost_match(&q, &h);
    }
    if q.len() > h.len() {
        proof {
            assert forall|a: Seq<int>| is_alignment(q@, h@, a) implies false by {
                lemma_alignment_fits(q@, h@, q@.len() as int, a);
            }
        }
        return None;
    }
    let m = q.len();
    let n = h.len();
    let ghost sem = n <= MAX_HAYSTACK;
    // Positional bonuses.
    let mut bon: Vec<i32> = Vec::new();
    let mut j: usize = 0;
    while j < n
        invariant
            j <= n,
            n == h.len(),
            bon.len() == j,
            forall|k: int| 0 <= k < j ==> #[trigger] bon@[k] as int == bonus(h@, k),
        decreases n - j,
    {
        let b: i32 = if j == 0 {
            BONUS_FIRST_CHAR
        } else {
            let prev = h[j - 1];
            if prev == '/' || prev == '_' || prev == '-' || prev == '.' || prev == ':'
                || is_whitespace(prev) {
                BONUS_BOUNDARY
            } else if is_lowercase(prev) && is_uppercase(h[j]) {
                BONUS_CAMEL
            } else {
                0
            }
        };
        bon.push(b);
        j += 1;
    }
    let mut rows: Vec<Vec<i32>> = Vec::new();
    let mut pars: Vec<Vec<usize>> = Vec::new();
    // Row 0.
    let mut row0: Vec<i32> = Vec::new();
    let mut par0: Vec<usize> = Vec::new();
    j = 0;
    while j < n
        invariant
            j <= n,
            n == h.len(),
            m == q.len(),
            m >= 1,
            sem == (n <= MAX_HAYSTACK),
            bon.len() == n,
            forall|k: int| 0 <= k < n ==> #[trigger] bon@[k] as int == bonus(h@, k),
            row0.len() == j,
            par0.len() == j,
            sem ==> forall|k: int|
                0 <= k < j ==> cell_ok(q@, h@, seq![par0@], 0, k, #[trigger] row0@[k] as int),
            forall|k: int| 0 <= k < j ==> #[trigger] row0@[k] as int == cell(q@, h@, 0, k).0
                && par0@[k] as int == cell(q@, h@, 0, k).1,
            forall|k: int| 0 <= k < j ==> #[trigger] row0@[k] == NEG || (NEG < row0@[k] && row0@[k] <= 44),
        decreases n - j,
    {
        let ghost old_par0 = par0@;
        let matched = q_eq_exec(q[0], h[j]);
        let val: i32 = if matched { MATCH_SCORE + bon[j] } else { NEG };
        row0.push(val);
        par0.push(usize::MAX);
        proof {
            if sem {
                assert forall|k: int| 0 <= k < j + 1 implies cell_ok(
                    q@,
                    h@,
                    seq![par0@],
                    0,
                    k,
                    #[trigger] row0@[k] as int,
                ) by {
                    if k == j {
                        lemma_row0_cell(q@, h@, seq![par0@], k, val as int, bon@[k] as int);
                    } else {
                        lemma_cell_row0_any(q@, h@, seq![old_par0], seq![par0@], k, row0@[k] as int);
                    }
                }
            }
            assert(row0@[j as int] as int == cell(q@, h@, 0, j as int).0);
        }
        j += 1;
    }
    let ghost p0 = par0@;
    let ghost r0 = row0@;
    rows.push(row0);
    pars.push(par0);
    proof {
        assert(pars@.map_values(|v: Vec<usize>| v@) =~= seq![p0]);
        assert(rows@[0]@ == r0);
    }
    let mut i: usize = 1;
    while i < m
        invariant
            1 <= i <= m,
            m == q.len(),
            n == h.len(),
            m <= n,
            m <= MAX_QUERY,
            sem == (n <= MAX_HAYSTACK),
            bon.len() == n,
            forall|k: int| 0 <= k < n ==> #[trigger] bon@[k] as int == bonus(h@, k),
            rows.len() == i,
            pars.len() == i,
            forall|r: int| 0 <= r < i ==> #[trigger] rows@[r].len() == n,
            forall|r: int| 0 <= r < i ==> #[trigger] pars@[r].len() == n,
            sem ==> forall|r: int, k: int|
                0 <= r < i && 0 <= k < n ==> cell_ok(
                    q@,
                    h@,
                    pars@.map_values(|v: Vec<usize>| v@),
                    r,
                    k,
                    #[trigger] rows@[r]@[k] as int,
                ),
            forall|r: int, k: int|
                0 <= r < i && 0 <= k < n ==> #[trigger] rows@[r]@[k] as int == cell(q@, h@, r, k).0
                    && pars@[r]@[k] as int == cell(q@, h@, r, k).1,
            forall|r: int, k: int|
                0 <= r < i && 0 <= k < n ==> #[trigger] rows@[r]@[k] == NEG || (NEG < rows@[r]@[k] && rows@[r]@[k] <= 44 * (r + 1)),
            forall|r: int, k: int|
                0 <= r < i && 0 <= k < r ==> #[trigger] rows@[r]@[k] == NEG,
        decreases m - i,
    {
        let ghost pv = pars@.map_values(|v: Vec<usize>| v@);
        proof {
            assert forall|r: int| 0 <= r < i implies #[trigger] pv[r].len() == n by {
                assert(pars@[r].len() == n);
                assert(pv[r] == pars@[r]@);
            }
        }
        let prev = &rows[i - 1];
        proof {
            assert forall|k: int| 0 <= k < n implies #[trigger] prev@[k] as int == cell(q@, h@, i - 1, k).0
                && (prev@[k] == NEG || (NEG < prev@[k] && prev@[k] <= 44 * i)) by {
                assert(rows@[i - 1]@[k] == prev@[k]);
            }
        }
        let mut cur: Vec<i32> = Vec::new();
        let mut curp: Vec<usize> = Vec::new();
        j = 0;
        while j < i
            invariant
                j <= i,
                i < m,
                m <= n,
                n == h.len(),
                m == q.len(),
                cur.len() == j,
                curp.len() == j,
                forall|k: int| 0 <= k < j ==> #[trigger] cur@[k] == NEG,
                forall|k: int| 0 <= k < j ==> #[trigger] cur@[k] as int == cell(q@, h@, i as int, k).0
                    && curp@[k] as int == cell(q@, h@, i as int, k).1,
            decreases i - j,
        {
            cur.push(NEG);
            curp.push(usize::MAX);
            proof {
                assert(cur@[j as int] as int == cell(q@, h@, i as int, j as int).0);
            }
            j += 1;
        }
        proof {
            if sem {
                assert forall|k: int| 0 <= k < j implies cell_ok(
                    q@,
                    h@,
                    pv.push(curp@),
                    i as int,
                    k,
                    #[trigger] cur@[k] as int,
                ) by {
                    lemma_cell_unreachable(q@, h@, pv.push(curp@), i as int, k);
                }
            }
        }
        let mut best_prev: i32 = NEG;
        let mut best_prev_j: usize = usize::MAX;
        while j < n
            invariant
                1 <= i < m,
                i <= j <= n,
                m == q.len(),
                n == h.len(),
                m <= n,
                m <= MAX_QUERY,
                sem == (n <= MAX_HAYSTACK),
                bon.len() == n,
                forall|k: int| 0 <= k < n ==> #[trigger] bon@[k] as int == bonus(h@, k),
                pv == pars@.map_values(|v: Vec<usize>| v@),
                pv.len() == i,
                prev@ == rows@[i - 1]@,
                prev.len() == n,
                forall|r: int| 0 <= r < i ==> #[trigger] pv[r].len() == n,
                sem ==> forall|k: int|
                    0 <= k < n ==> cell_ok(q@, h@, pv, i - 1, k, #[trigger] prev@[k] as int),
                forall|k: int| 0 <= k < n ==> #[trigger] prev@[k] as int == cell(q@, h@, i - 1, k).0
                    && (prev@[k] == NEG || (NEG < prev@[k] && prev@[k] <= 44 * i)),
                forall|k: int| 0 <= k < i - 1 ==> #[trigger] prev@[k] == NEG,
                cur.len() == j,
                curp.len() == j,
                sem ==> forall|k: int|
                    0 <= k < j ==> cell_ok(
                        q@,
                        h@,
                        pv.push(curp@),
                        i as int,
                        k,
                        #[trigger] cur@[k] as int,
                    ),
                forall|k: int| 0 <= k < j ==> #[trigger] cur@[k] as int == cell(q@, h@, i as int, k).0
                    && curp@[k] as int == cell(q@, h@, i as int, k).1
                    && (cur@[k] == NEG || (NEG < cur@[k] && cur@[k] <= 44 * (i + 1))),
                forall|k: int| 0 <= k < i ==> #[trigger] cur@[k] == NEG,
                best_prev as int == (if j == i { NEG as int } else { cell(q@, h@, i as int, j - 1).2 }),
                best_prev_j as int == (if j == i { no_par() } else { cell(q@, h@, i as int, j - 1).3 }),
                best_prev <= 44 * i,
                sem ==> (best_prev == NEG ==> forall|k: int| 0 <= k <= j - 3 ==> #[trigger] prev@[k] == NEG),
                sem ==> (best_prev != NEG ==> {
                    &&& best_prev_j <= j - 3
                    &&& prev@[best_prev_j as int] > NEG
                    &&& best_prev == prev@[best_prev_j as int] + best_prev_j - j
                }),
                best_prev == NEG || best_prev > NEG,
                sem ==> forall|k: int|
                    0 <= k <= j - 3 && prev@[k] > NEG ==> #[trigger] prev@[k] + k - j <= best_prev,
            decreases n - j,
        {
            proof {
                if sem && best_prev != NEG {
                    lemma_cell_lower(q@, h@, pv, i - 1, best_prev_j as int, prev@[best_prev_j as int] as int);
                }
            }
            let ghost bp0 = best_prev;
            if best_prev > NEG {
                best_prev = best_prev + PENALTY_GAP_EXTEND;
            }
            if j >= 2 && prev[j - 2] > NEG {
                proof {
                    if sem {
                        lemma_cell_lower(q@, h@, pv, i - 1, j - 2, prev@[j - 2] as int);
                    }
                }
                let candidate = prev[j - 2] + PENALTY_GAP_START;
                if candidate > best_prev {
                    best_prev = candidate;
                    best_prev_j = j - 2;
                }
            }
            proof {
                if j >= 2 {
                    assert(prev@[j - 2] as int == cell(q@, h@, i - 1, j - 2).0);
                } else {
                    assert(cell(q@, h@, i - 1, j - 2).0 == NEG);
                }
                assert(best_prev as int == cell(q@, h@, i as int, j as int).2);
                assert(best_prev_j as int == cell(q@, h@, i as int, j as int).3);
            }
            // Now best_prev covers every k <= j - 2 at column j.
            let ghost cur_before = cur@;
            let ghost curp_before = curp@;
            if !q_eq_exec(q[i], h[j]) {
                cur.push(NEG);
                curp.push(usize::MAX);
                proof {
                    if sem {
                        lemma_cell_mismatch(q@, h@, pv.push(curp@), i as int, j as int);
                    }
                }
            } else {
                proof {
                    if sem {
                        if prev@[j - 1] > NEG {
                            lemma_cell_upper(q@, h@, pv, i - 1, j - 1, prev@[j - 1] as int);
                        }
                        if best_prev > NEG {
                            lemma_cell_upper(q@, h@, pv, i - 1, best_prev_j as int, prev@[best_prev_j as int] as int);
                        }
                    }
                    assert(prev@[j - 1] as int == cell(q@, h@, i - 1, j - 1).0);
                    assert(0 <= bon@[j as int] <= 20);
                }
                let consecutive: i32 = if prev[j - 1] > NEG {
                    prev[j - 1] + MATCH_SCORE + BONUS_CONSECUTIVE + bon[j]
                } else {
                    NEG
                };
                let gapped: i32 = if best_prev > NEG {
                    best_prev + MATCH_SCORE + bon[j]
                } else {
                    NEG
                };
                if consecutive >= gapped {
                    if consecutive > NEG {
                        cur.push(consecutive);
                        curp.push(j - 1);
                    } else {
                        cur.push(NEG);
                        curp.push(usize::MAX);
                    }
                } else {
                    cur.push(gapped);
                    curp.push(best_prev_j);
                }
                proof {
                    if sem {
                        lemma_cell_step(
                            q@,
                            h@,
                            pv,
                            curp@,
                            i as int,
                            j as int,
                            prev@,
                            cur@[j as int] as int,
                            consecutive as int,
                            gapped as int,
                            best_prev as int,
                            best_prev_j as int,
                            bon@[j as int] as int,
                        );
                    }
                }
            }
            proof {
                assert(cur@[j as int] as int == cell(q@, h@, i as int, j as int).0);
                assert(curp@[j as int] as int == cell(q@, h@, i as int, j as int).1);
                if sem {
                    assert forall|k: int| 0 <= k < j + 1 implies cell_ok(
                        q@,
                        h@,
                        pv.push(curp@),
                        i as int,
                        k,
                        #[trigger] cur@[k] as int,
                    ) by {
                        if k < j {
                            assert(cur@[k] == cur_before[k]);
                            lemma_cell_extend(q@, h@, pv, curp_before, curp@, i as int, k, cur@[k] as int);
                        }
                    }
                }
                assert forall|k: int| 0 <= k < j + 1 implies #[trigger] cur@[k] as int == cell(q@, h@, i as int, k).0
                    && curp@[k] as int == cell(q@, h@, i as int, k).1
                    && (cur@[k] == NEG || (NEG < cur@[k] && cur@[k] <= 44 * (i + 1))) by {
                    if k < j {
                        assert(cur@[k] == cur_before[k]);
                        assert(curp@[k] == curp_before[k]);
                    }
                }
            }
            j += 1;
        }
        proof {
            let pv2 = pv.push(curp@);
            assert(pars@.push(curp).map_values(|v: Vec<usize>| v@) =~= pv2);
            if sem {
                assert forall|r: int, k: int| 0 <= r < i && 0 <= k < n implies cell_ok(
                    q@,
                    h@,
                    pv2,
                    r,
                    k,
                    #[trigger] rows@[r]@[k] as int,
                ) by {
                    lemma_cell_grow(q@, h@, pv, curp@, r, k, rows@[r]@[k] as int);
                }
            }
        }
        let ghost rows_before = rows@;
        let ghost pars_before = pars@;
        rows.push(cur);
        pars.push(curp);
        proof {
            if sem {
                assert forall|r: int, k: int| 0 <= r < i + 1 && 0 <= k < n implies cell_ok(
                    q@,
                    h@,
                    pars@.map_values(|v: Vec<usize>| v@),
                    r,
                    k,
                    #[trigger] rows@[r]@[k] as int,
                ) by {
                    assert(pars@.map_values(|v: Vec<usize>| v@) =~= pv.push(curp@));
                }
            }
            assert forall|r: int, k: int| 0 <= r < i + 1 && 0 <= k < n implies #[trigger] rows@[r]@[k] as int == cell(q@, h@, r, k).0
                && pars@[r]@[k] as int == cell(q@, h@, r, k).1 by {
                if r < i {
                    assert(rows@[r] == rows_before[r]);
                    assert(pars@[r] == pars_before[r]);
                }
            }
            assert forall|r: int, k: int| 0 <= r < i + 1 && 0 <= k < n implies #[trigger] rows@[r]@[k] == NEG
                || (NEG < rows@[r]@[k] && rows@[r]@[k] <= 44 * (r + 1)) by {
                if r < i {
                    assert(rows@[r] == rows_before[r]);
                }
            }
            assert forall|r: int, k: int| 0 <= r < i + 1 && 0 <= k < r implies #[trigger] rows@[r]@[k] == NEG by {
                if r < i {
                    assert(rows@[r] == rows_before[r]);
                }
            }
        }
        i += 1;
    }
    // Best column of the last row.
    let ghost pv = pars@.map_values(|v: Vec<usize>| v@);
    proof {
        assert forall|r: int| 0 <= r < m implies #[trigger] pv[r].len() == n by {
            assert(pars@[r].len() == n);
            assert(pv[r] == pars@[r]@);
        }
    }
    let last = &rows[m - 1];
    let mut best_j: usize = usize::MAX;
    let mut best_score: i32 = NEG;
    j = 0;
    while j < n
        invariant
            j <= n,
            n == h.len(),
            m == q.len(),
            m >= 1,
            sem == (n <= MAX_HAYSTACK),
            last.len() == n,
            last@ == rows@[m - 1]@,
            sem ==> forall|k: int|
                0 <= k < n ==> cell_ok(q@, h@, pv, m - 1, k, #[trigger] last@[k] as int),
            forall|k: int| 0 <= k < n ==> #[trigger] last@[k] as int == cell(q@, h@, m - 1, k).0,
            (best_j as int, best_score as int) == best_col(q@, h@, j as int),
            best_j == usize::MAX ==> best_score == NEG && forall|k: int| 0 <= k < j ==> #[trigger] last@[k] <= NEG,
            best_j != usize::MAX ==> best_j < j && best_score == last@[best_j as int] && best_score > NEG,
            forall|k: int| 0 <= k < j ==> #[trigger] last@[k] <= best_score,
        decreases n - j,
    {
        proof {
            assert(rows@[m - 1]@[j as int] == last@[j as int]);
        }
        if last[j] > best_score {
            best_score = last[j];
            best_j = j;
        }
        j += 1;
    }
    if best_j == usize::MAX {
        proof {
            if sem {
                assert forall|a: Seq<int>| is_alignment(q@, h@, a) implies false by {
                    let k = a.last();
                    assert(0 <= k < n);
                    assert(cell_ok(q@, h@, pv, m - 1, k, last@[k] as int));
                    lemma_score_bounds(h@, a);
                }
            }
        }
        return None;
    }
    // Follow the parent links back.
    proof {
        assert(cell(q@, h@, m - 1, best_j as int).0 > NEG);
        lemma_trace_cells(q@, h@, m - 1, best_j as int);
        assert forall|r: int, k: int| 0 <= r <= m - 1 && 0 <= k < n implies #[trigger] pv[r][k] as int == cell(q@, h@, r, k).1 by {
            assert(pv[r] == pars@[r]@);
            assert(rows@[r]@[k] as int == cell(q@, h@, r, k).0);
        }
        lemma_trace_agrees(q@, h@, pv, m - 1, best_j as int);
    }
    let ghost path = trace_cells(q@, h@, m - 1, best_j as int);
    let mut indices: Vec<usize> = Vec::new();
    let mut k: usize = 0;
    while k < m
        invariant
            k <= m,
            indices.len() == k,
        decreases m - k,
    {
        indices.push(0);
        k += 1;
    }
    let mut cursor = best_j;
    let mut r: usize = m;
    proof {
        assert forall|t: int, c: int| 0 <= t < m && 0 <= c < n implies #[trigger] pars@[t]@[c] as int == cell(q@, h@, t, c).1 by {
            assert(rows@[t]@[c] as int == cell(q@, h@, t, c).0);
        }
    }
    while r > 0
        invariant
            r <= m,
            m == q.len(),
            n == h.len(),
            m >= 1,
            pars.len() == m,
            forall|t: int| 0 <= t < m ==> #[trigger] pars@[t].len() == n,
            forall|t: int, c: int| 0 <= t < m && 0 <= c < n ==> #[trigger] pars@[t]@[c] as int == cell(q@, h@, t, c).1,
            path == trace_cells(q@, h@, m - 1, best_j as int),
            path.len() == m,
            forall|t: int| 0 <= t < m ==> 0 <= #[trigger] path[t] < n,
            forall|t: int| 1 <= t < m ==> path[t - 1] == cell(q@, h@, t, #[trigger] path[t]).1,
            indices.len() == m,
            r > 0 ==> cursor as int == path[r - 1],
            forall|t: int| r <= t < m ==> #[trigger] indices@[t] as int == path[t],
        decreases r,
    {
        indices.set(r - 1, cursor);
        if r > 1 {
            proof {
                assert(0 <= path[r - 1] < n);
                assert(path[r - 2] == cell(q@, h@, r - 1, path[r - 1]).1);
                assert(pars@[r - 1].len() == n);
                assert(pars@[r - 1]@[path[r - 1]] as int == cell(q@, h@, r - 1, path[r - 1]).1);
            }
            cursor = pars[r - 1][cursor];
        }
        r -= 1;
    }
    proof {
        assert(idx_view(indices@) =~= path);
        assert(q@ == non_ws(query@));
        assert(h@ == haystack@);
        if sem {
            let tp = trace(pv, m - 1, best_j as int);
            assert(tp == path);
            assert(cell_ok(q@, h@, pv, m - 1, best_j as int, last@[best_j as int] as int));
            assert(is_alignment(q@, h@, idx_view(indices@)));
            assert(score(h@, path) == best_score);
            assert forall|a: Seq<int>| is_alignment(q@, h@, a) implies score(h@, a) <= best_score by {
                let kk = a.last();
                assert(a[m - 1] == kk);
                assert(0 <= kk < n);
                assert(cell_ok(q@, h@, pv, m - 1, kk, last@[kk] as int));
                assert(last@[kk] <= best_score);
            }
        }
    }
    Some((best_score, indices))
}

proof fn lemma_alignment_fits(q: Seq<char>, h: Seq<char>, n: int, a: Seq<int>)
    requires
        n >= 1,
        aligns(q, h, n, a),
    ensures
        a.last() >= n - 1,
        n <= h.len(),
    decreases n,
{
    assert(0 <= a[n - 1] < h.len());
    if n > 1 {
        lemma_aligns_prefix(q, h, n, a);
        lemma_alignment_fits(q, h, n - 1, a.drop_last());
        assert(a[n - 2] < a[n - 1]);
    } else {
        assert(a[0] >= 0);
    }
}

proof fn lemma_row0_cell(q: Seq<char>, h: Seq<char>, p: Seq<Seq<usize>>, k: int, v: int, b: int)
    requires
        0 <= k < h.len(),
        q.len() >= 1,
        b == bonus(h, k),
        v == (if q_eq(q[0], h[k]) { 16 + b } else { NEG as int }),
    ensures
        cell_ok(q, h, p, 0, k, v),
{
    assert forall|a: Seq<int>| aligns(q, h, 1, a) && a.last() == k implies score(h, a) <= v by {
        assert(a[0] == k);
        assert(q_eq(q[0], h[a[0]]));
        assert(a.drop_last() =~= Seq::<int>::empty());
        assert(score(h, a.drop_last()) == 0);
        assert(score(h, a) == 16 + bonus(h, k));
    }
    if v > NEG {
        let t = trace(p, 0, k);
        assert(t =~= seq![k]);
        assert(t.drop_last() =~= Seq::<int>::empty());
        assert(score(h, t.drop_last()) == 0);
        assert(score(h, t) == 16 + b);
        assert(t[0] == k);
    }
}

/// Row 0 never reads its parent links.
proof fn lemma_cell_row0_any(
    q: Seq<char>,
    h: Seq<char>,
    p1: Seq<Seq<usize>>,
    p2: Seq<Seq<usize>>,
    k: int,
    v: int,
)
    requires
        cell_ok(q, h, p1, 0, k, v),
    ensures
        cell_ok(q, h, p2, 0, k, v),
{
    assert(trace(p1, 0, k) == trace(p2, 0, k));
}

proof fn lemma_cell_unreachable(q: Seq<char>, h: Seq<char>, p: Seq<Seq<usize>>, i: int, k: int)
    requires
        0 <= k < i,
    ensures
        cell_ok(q, h, p, i, k, NEG as int),
{
    assert forall|a: Seq<int>| aligns(q, h, i + 1, a) && a.last() == k implies score(h, a)
        <= NEG by {
        lemma_alignment_fits(q, h, i + 1, a);
    }
}

proof fn lemma_cell_mismatch(q: Seq<char>, h: Seq<char>, p: Seq<Seq<usize>>, i: int, j: int)
    requires
        0 <= i < q.len(),
        0 <= j < h.len(),
        !q_eq(q[i], h[j]),
    ensures
        cell_ok(q, h, p, i, j, NEG as int),
{
    assert forall|a: Seq<int>| aligns(q, h, i + 1, a) && a.last() == j implies score(h, a)
        <= NEG by {
        assert(q_eq(q[i], h[a[i]]));
    }
}

proof fn lemma_cell_lower(q: Seq<char>, h: Seq<char>, p: Seq<Seq<usize>>, i: int, j: int, v: int)
    requires
        i >= 0,
        0 <= j < h.len(),
        v > NEG,
        cell_ok(q, h, p, i, j, v),
    ensures
        v >= 15 - j,
        v <= 44 * (i + 1),
{
    let t = trace(p, i, j);
    lemma_score_bounds(h, t);
}

proof fn lemma_cell_upper(q: Seq<char>, h: Seq<char>, p: Seq<Seq<usize>>, i: int, j: int, v: int)
    requires
        i >= 0,
        0 <= j < h.len(),
        v > NEG,
        cell_ok(q, h, p, i, j, v),
    ensures
        v >= 15 - j,
        v <= 44 * (i + 1),
{
    lemma_cell_lower(q, h, p, i, j, v);
}

/// A cell stays valid when a later parent row is appended.
proof fn lemma_cell_grow(
    q: Seq<char>,
    h: Seq<char>,
    p: Seq<Seq<usize>>,
    extra: Seq<usize>,
    r: int,
    k: int,
    v: int,
)
    requires
        0 <= r < p.len(),
        cell_ok(q, h, p, r, k, v),
    ensures
        cell_ok(q, h, p.push(extra), r, k, v),
{
    lemma_trace_prefix(p, extra, r, k);
}

/// A cell of the row in progress stays valid when the row grows.
proof fn lemma_cell_extend(
    q: Seq<char>,
    h: Seq<char>,
    p: Seq<Seq<usize>>,
    before: Seq<usize>,
    after: Seq<usize>,
    i: int,
    k: int,
    v: int,
)
    requires
        i == p.len(),
        i >= 1,
        0 <= k < before.len(),
        before.len() < after.len(),
        forall|t: int| 0 <= t < before.len() ==> #[trigger] after[t] == before[t],
        cell_ok(q, h, p.push(before), i, k, v),
    ensures
        cell_ok(q, h, p.push(after), i, k, v),
{
    assert(p.push(after)[i][k] == p.push(before)[i][k]);
    lemma_trace_prefix(p, before, i - 1, before[k] as int);
    lemma_trace_prefix(p, after, i - 1, after[k] as int);
}

/// One step of the trace.
proof fn lemma_trace_step(p: Seq<Seq<usize>>, i: int, j: int, r: int)
    requires
        1 <= r <= i,
    ensures
        trace(p, i, j)[r - 1] == p[r][trace(p, i, j)[r]] as int,
        trace(p, i, j).len() == i + 1,
    decreases i,
{
    lemma_trace_len(p, i, j);
    if r < i {
        lemma_trace_step(p, i - 1, p[i][j] as int, r);
        let t = trace(p, i - 1, p[i][j] as int);
        assert(trace(p, i, j) == t.push(j));
        assert(trace(p, i, j)[r - 1] == t[r - 1]);
        assert(trace(p, i, j)[r] == t[r]);
    } else {
        lemma_trace_len(p, i - 1, p[i][j] as int);
    }
}

proof fn lemma_trace_len(p: Seq<Seq<usize>>, i: int, j: int)
    ensures
        trace(p, i, j).len() == (if i <= 0 { 1 } else { i + 1 }),
        trace(p, i, j).last() == j,
    decreases i,
{
    if i > 0 {
        lemma_trace_len(p, i - 1, p[i][j] as int);
    }
}

/// The recurrence: the value stored at `(i, j)` is the best score of an
/// alignment of `i + 1` characters ending at `j`, and the parent link stored
/// there traces one.
proof fn lemma_cell_step(
    q: Seq<char>,
    h: Seq<char>,
    p: Seq<Seq<usize>>,
    row: Seq<usize>,
    i: int,
    j: int,
    prev: Seq<i32>,
    v: int,
    consecutive: int,
    gapped: int,
    best_prev: int,
    best_prev_j: int,
    b: int,
)
    requires
        1 <= i < q.len(),
        i <= j < h.len(),
        h.len() <= MAX_HAYSTACK,
        p.len() == i,
        row.len() == j + 1,
        prev.len() == h.len(),
        b == bonus(h, j),
        q_eq(q[i], h[j]),
        forall|k: int| 0 <= k < h.len() ==> cell_ok(q, h, p, i - 1, k, #[trigger] prev[k] as int),
        consecutive == (if prev[j - 1] > NEG { prev[j - 1] + 24 + b } else { NEG as int }),
        gapped == (if best_prev > NEG { best_prev + 16 + b } else { NEG as int }),
        best_prev == NEG ==> forall|k: int| 0 <= k <= j - 2 ==> #[trigger] prev[k] == NEG,
        best_prev != NEG ==> {
            &&& best_prev_j <= j - 2
            &&& 0 <= best_prev_j
            &&& prev[best_prev_j] > NEG
            &&& best_prev == prev[best_prev_j] + best_prev_j - j - 1
        },
        best_prev == NEG || best_prev > NEG,
        forall|k: int| 0 <= k <= j - 2 && prev[k] > NEG ==> #[trigger] prev[k] + k - j - 1 <= best_prev,
        consecutive >= gapped ==> (consecutive > NEG ==> v == consecutive && row[j] == j - 1)
            && (consecutive <= NEG ==> v == NEG),
        consecutive < gapped ==> v == gapped && row[j] == best_prev_j,
    ensures
        cell_ok(q, h, p.push(row), i, j, v),
{
    let p2 = p.push(row);
    assert(p2[i] == row);
    // Optimality.
    assert forall|a: Seq<int>| aligns(q, h, i + 1, a) && a.last() == j implies score(h, a)
        <= v by {
        let a2 = a.drop_last();
        lemma_aligns_prefix(q, h, i + 1, a);
        let k = a[i - 1];
        assert(a2.last() == k);
        assert(k < j);
        assert(0 <= k < h.len());
        assert(cell_ok(q, h, p, i - 1, k, prev[k] as int));
        lemma_score_bounds(h, a2);
        assert(score(h, a) == score(h, a2) + 16 + b + link(k, j));
        if k == j - 1 {
            assert(prev[k] > NEG);
        } else {
            assert(prev[k] > NEG);
            assert(prev[k] + k - j - 1 <= best_prev);
        }
    }
    // The witness.
    if v > NEG {
        let k = row[j] as int;
        let tp = trace(p, i - 1, k);
        lemma_trace_prefix(p, row, i - 1, k);
        assert(trace(p2, i, j) == trace(p2, i - 1, k).push(j));
        let t = tp.push(j);
        assert(trace(p2, i, j) == t);
        if consecutive >= gapped {
            assert(k == j - 1);
        } else {
            assert(k == best_prev_j);
        }
        assert(prev[k] > NEG);
        assert(cell_ok(q, h, p, i - 1, k, prev[k] as int));
        lemma_trace_len(p, i - 1, k);
        assert(t.drop_last() == tp);
        assert(t[i - 1] == k);
        assert forall|x: int| 0 <= x < i + 1 implies 0 <= #[trigger] t[x] < h.len() && q_eq(
            q[x],
            h[t[x]],
        ) by {
            if x < i {
                assert(t[x] == tp[x]);
            }
        }
        assert forall|x: int| 0 < x < i + 1 implies #[trigger] t[x - 1] < t[x] by {
            if x < i {
                assert(t[x] == tp[x]);
                assert(t[x - 1] == tp[x - 1]);
            }
        }
        assert(score(h, t) == score(h, tp) + 16 + b + link(k, j));
    }
}


/// The positions the leftmost alignment gives while scanning `h[..j]`:
/// each haystack character takes the next query character when it matches.
pub open spec fn greedy_upto(q: Seq<char>, h: Seq<char>, j: int) -> Seq<int>
    decreases j,
{
    if j <= 0 {
        seq![]
    } else {
        let p = greedy_upto(q, h, j - 1);
        if p.len() < q.len() && q_eq(q[p.len() as int], h[j - 1]) {
            p.push(j - 1)
        } else {
            p
        }
    }
}

/// The leftmost alignment of `q` in `h`, as far as it gets.
pub open spec fn greedy(q: Seq<char>, h: Seq<char>) -> Seq<int> {
    greedy_upto(q, h, h.len() as int)
}

/// `x` capped to the `i32` range.
pub open spec fn clamp_i32(x: int) -> int {
    if x < i32::MIN {
        i32::MIN as int
    } else if x > i32::MAX {
        i32::MAX as int
    } else {
        x
    }
}

/// The leftmost alignment of `q` in `h` with its score, capped to `i32`;
/// `None` when `q` does not align.
fn leftmost_match(q: &Vec<char>, h: &Vec<char>) -> (r: Option<(i32, Vec<usize>)>)
    requires
        q.len() > 0,
    ensures
        (r is None <==> !exists|a: Seq<int>| is_alignment(q@, h@, a)),
        (r is None <==> greedy(q@, h@).len() < q@.len()),
        r matches Some((s, v)) ==> {
            &&& idx_view(v@) == greedy(q@, h@)
            &&& is_alignment(q@, h@, greedy(q@, h@))
            &&& s == clamp_i32(score(h@, greedy(q@, h@)))
        },
{
    let mut pos: Vec<usize> = Vec::new();
    let mut j: usize = 0;
    while j < h.len()
        invariant
            j <= h.len(),
            idx_view(pos@) == greedy_upto(q@, h@, j as int),
            pos@.len() <= q@.len(),
            aligns(q@, h@, pos@.len() as int, idx_view(pos@)),
            pos@.len() > 0 ==> pos@.last() < j,
            forall|t: int, b: Seq<int>| #![trigger aligns(q@, h@, t, b)] pos@.len() < t <= q@.len() && aligns(q@, h@, t, b) ==> b[pos@.len() as int] >= j,
        decreases h.len() - j,
    {
        let k = pos.len();
        let ghost before = idx_view(pos@);
        if k < q.len() && q_eq_exec(q[k], h[j]) {
            pos.push(j);
            proof {
                assert(idx_view(pos@) =~= before.push(j as int));
                assert forall|t: int, b: Seq<int>| #![trigger aligns(q@, h@, t, b)] pos@.len() < t <= q@.len() && aligns(q@, h@, t, b) implies b[pos@.len() as int] >= j + 1 by {
                    assert(b[k as int] >= j);
                    assert(b[(k + 1) as int - 1] < b[(k + 1) as int]);
                }
            }
        } else {
            proof {
                assert forall|t: int, b: Seq<int>| #![trigger aligns(q@, h@, t, b)] pos@.len() < t <= q@.len() && aligns(q@, h@, t, b) implies b[pos@.len() as int] >= j + 1 by {
                    assert(b[k as int] >= j);
                    assert(q_eq(q@[k as int], h@[b[k as int]]));
                    if b[k as int] == j {
                        assert(q_eq(q@[k as int], h@[j as int]));
                    }
                }
            }
        }
        j += 1;
    }
    if pos.len() < q.len() {
        proof {
            assert forall|a: Seq<int>| !is_alignment(q@, h@, a) by {
                if is_alignment(q@, h@, a) {
                    assert(aligns(q@, h@, q@.len() as int, a));
                    assert(a[pos@.len() as int] >= h@.len());
                }
            }
        }
        return None;
    }
    let ghost g = idx_view(pos@);
    proof {
        assert(is_alignment(q@, h@, g));
        lemma_score_bounds(h@, g);
    }
    let mut acc: i128 = 0;
    let mut i: usize = 0;
    while i < pos.len()
        invariant
            i <= pos.len(),
            pos@.len() == q@.len(),
            g == idx_view(pos@),
            is_alignment(q@, h@, g),
            h@.len() <= usize::MAX,
            acc as int == score(h@, g.take(i as int)),
        decreases pos.len() - i,
    {
        let p = pos[i];
        let b: i128 = if p == 0 {
            20
        } else {
            let prev = h[p - 1];
            if prev == '/' || prev == '_' || prev == '-' || prev == '.' || prev == ':' || is_whitespace(prev) {
                16
            } else if is_lowercase(prev) && is_uppercase(h[p]) {
                12
            } else {
                0
            }
        };
        let l: i128 = if i == 0 {
            0
        } else if p == pos[i - 1] + 1 {
            8
        } else {
            pos[i - 1] as i128 - p as i128 - 1
        };
        proof {
            let t = g.take(i + 1);
            assert(t.drop_last() =~= g.take(i as int));
            assert(t.last() == p);
            if i > 0 {
                assert(t[t.len() - 2] == pos@[i - 1]);
            }
            assert(b as int == bonus(h@, p as int));
            if i > 0 {
                lemma_score_bounds(h@, g.take(i as int));
            }
        }
        acc = acc + 16 + b + l;
        i += 1;
    }
    proof {
        assert(g.take(i as int) =~= g);
    }
    let s: i32 = if acc < i32::MIN as i128 {
        i32::MIN
    } else if acc > i32::MAX as i128 {
        i32::MAX
    } else {
        acc as i32
    };
    Some((s, pos))
}

} // verus!
