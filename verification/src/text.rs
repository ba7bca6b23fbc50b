//! Character-level text utilities shared by the markdown and YAML logic.
//!
//! Text is handled as a sequence of Unicode scalar values (`Seq<char>`), the
//! view Verus gives `str` and `String`. The spec functions here mirror the
//! std operations the rest of the library is stated in: whitespace, trimming,
//! `str::lines`, and joining.
use vstd::prelude::*;

verus! {

broadcast use vstd::string::group_string_axioms;

/// `String::push` appends one character.
pub assume_specification[ String::push ](s: &mut String, ch: char)
    ensures
        final(s)@ == old(s)@.push(ch),
;

/// Unicode `White_Space`, the property `char::is_whitespace` tests.
pub open spec fn is_ws(c: char) -> bool {
    let u = c as u32;
    ||| (0x9 <= u && u <= 0xD)
    ||| u == 0x20
    ||| u == 0x85
    ||| u == 0xA0
    ||| u == 0x1680
    ||| (0x2000 <= u && u <= 0x200A)
    ||| u == 0x2028
    ||| u == 0x2029
    ||| u == 0x202F
    ||| u == 0x205F
    ||| u == 0x3000
}

/// Whether `c` is Unicode whitespace.
pub fn is_whitespace(c: char) -> (b: bool)
    ensures
        b == is_ws(c),
{
    let u = c as u32;
    (0x9 <= u && u <= 0xD) || u == 0x20 || u == 0x85 || u == 0xA0 || u == 0x1680 || (0x2000
        <= u && u <= 0x200A) || u == 0x2028 || u == 0x2029 || u == 0x202F || u == 0x205F || u
        == 0x3000
}

/// An ASCII decimal digit.
pub open spec fn is_digit(c: char) -> bool {
    '0' <= c && c <= '9'
}

/// ASCII lowercase mapping (`char::to_ascii_lowercase`).
pub open spec fn ascii_lower(c: char) -> char {
    if 'A' <= c && c <= 'Z' {
        ((c as u32) + 32) as char
    } else {
        c
    }
}

/// `char::to_ascii_lowercase`.
pub fn to_ascii_lower(c: char) -> (r: char)
    ensures
        r == ascii_lower(c),
{
    if 'A' <= c && c <= 'Z' {
        let u = (c as u32) + 32;
        assert(0x61 <= u <= 0x7a);
        char_from_ascii(u)
    } else {
        c
    }
}

/// The character of an ASCII code point.
fn char_from_ascii(u: u32) -> (c: char)
    requires
        u < 128,
    ensures
        c == u as char,
        c as u32 == u,
{
    let b = u as u8;
    b as char
}

/// Every character lowered with [`ascii_lower`].
pub open spec fn lower_all(s: Seq<char>) -> Seq<char> {
    s.map_values(|c: char| ascii_lower(c))
}

/// ASCII case-insensitive equality (`str::eq_ignore_ascii_case`).
pub open spec fn eq_ignore_case(a: Seq<char>, b: Seq<char>) -> bool {
    lower_all(a) == lower_all(b)
}

/// `str::eq_ignore_ascii_case` over character vectors.
pub fn eq_ignore_ascii_case(a: &[char], b: &[char]) -> (r: bool)
    ensures
        r == eq_ignore_case(a@, b@),
{
    if a.len() != b.len() {
        proof {
            assert(lower_all(a@).len() != lower_all(b@).len());
        }
        return false;
    }
    let mut i: usize = 0;
    while i < a.len()
        invariant
            a.len() == b.len(),
            i <= a.len(),
            forall|k: int| 0 <= k < i ==> ascii_lower(#[trigger] a@[k]) == ascii_lower(b@[k]),
        decreases a.len() - i,
    {
        if to_ascii_lower(a[i]) != to_ascii_lower(b[i]) {
            proof {
                assert(lower_all(a@)[i as int] != lower_all(b@)[i as int]);
            }
            return false;
        }
        i += 1;
    }
    proof {
        assert(lower_all(a@) =~= lower_all(b@));
    }
    true
}

/// Whether `p` is a prefix of `s`.
pub open spec fn has_prefix(s: Seq<char>, p: Seq<char>) -> bool {
    p.len() <= s.len() && s.subrange(0, p.len() as int) == p
}

/// Whether `p` occurs in `s` starting at index `i`.
pub open spec fn occurs_at(s: Seq<char>, i: int, p: Seq<char>) -> bool {
    0 <= i && i + p.len() <= s.len() && s.subrange(i, i + p.len()) == p
}

/// Whether `p` occurs in `s` at `i` (exec).
pub fn matches_at(s: &[char], i: usize, p: &[char]) -> (r: bool)
    ensures
        r == occurs_at(s@, i as int, p@),
{
    if i > s.len() || p.len() > s.len() - i {
        return false;
    }
    let mut k: usize = 0;
    while k < p.len()
        invariant
            i + p.len() <= s.len(),
            k <= p.len(),
            forall|j: int| 0 <= j < k ==> s@[i + j] == p@[j],
        decreases p.len() - k,
    {
        if s[i + k] != p[k] {
            proof {
                assert(s@.subrange(i as int, i + p.len())[k as int] != p@[k as int]);
            }
            return false;
        }
        k += 1;
    }
    proof {
        assert(s@.subrange(i as int, i + p.len()) =~= p@);
    }
    true
}

/// The index just past the run of whitespace starting at `i` (bounded by `hi`).
pub open spec fn skip_ws(s: Seq<char>, i: int, hi: int) -> int
    decreases hi - i,
{
    if i < hi && is_ws(s[i]) {
        skip_ws(s, i + 1, hi)
    } else {
        i
    }
}

/// The index at which the run of whitespace ending at `j` starts (bounded by `lo`).
pub open spec fn skip_ws_back(s: Seq<char>, lo: int, j: int) -> int
    decreases j - lo,
{
    if lo < j && is_ws(s[j - 1]) {
        skip_ws_back(s, lo, j - 1)
    } else {
        j
    }
}

/// `str::trim_start`.
pub open spec fn trim_start(s: Seq<char>) -> Seq<char> {
    s.subrange(skip_ws(s, 0, s.len() as int), s.len() as int)
}

/// `str::trim_end`.
pub open spec fn trim_end(s: Seq<char>) -> Seq<char> {
    s.subrange(0, skip_ws_back(s, 0, s.len() as int))
}

/// `str::trim`.
pub open spec fn trim(s: Seq<char>) -> Seq<char> {
    trim_end(trim_start(s))
}

pub proof fn lemma_skip_ws_bounds(s: Seq<char>, i: int, hi: int)
    requires
        0 <= i <= hi <= s.len(),
    ensures
        i <= skip_ws(s, i, hi) <= hi,
        forall|k: int| i <= k < skip_ws(s, i, hi) ==> is_ws(#[trigger] s[k]),
        skip_ws(s, i, hi) < hi ==> !is_ws(s[skip_ws(s, i, hi)]),
    decreases hi - i,
{
    if i < hi && is_ws(s[i]) {
        lemma_skip_ws_bounds(s, i + 1, hi);
    }
}

pub proof fn lemma_skip_ws_back_bounds(s: Seq<char>, lo: int, j: int)
    requires
        0 <= lo <= j <= s.len(),
    ensures
        lo <= skip_ws_back(s, lo, j) <= j,
        forall|k: int| skip_ws_back(s, lo, j) <= k < j ==> is_ws(#[trigger] s[k]),
        skip_ws_back(s, lo, j) > lo ==> !is_ws(s[skip_ws_back(s, lo, j) - 1]),
    decreases j - lo,
{
    if lo < j && is_ws(s[j - 1]) {
        lemma_skip_ws_back_bounds(s, lo, j - 1);
    }
}

/// First index in `[i, hi)` that is not whitespace, or `hi`.
pub fn skip_ws_exec(s: &[char], i: usize, hi: usize) -> (r: usize)
    requires
        i <= hi <= s.len(),
    ensures
        r == skip_ws(s@, i as int, hi as int),
        i <= r <= hi,
{
    let mut k = i;
    while k < hi && is_whitespace(s[k])
        invariant
            i <= k <= hi <= s.len(),
            skip_ws(s@, k as int, hi as int) == skip_ws(s@, i as int, hi as int),
        decreases hi - k,
    {
        k += 1;
    }
    k
}

/// Start of the whitespace run ending at `j`, not below `lo`.
pub fn skip_ws_back_exec(s: &[char], lo: usize, j: usize) -> (r: usize)
    requires
        lo <= j <= s.len(),
    ensures
        r == skip_ws_back(s@, lo as int, j as int),
        lo <= r <= j,
{
    let mut k = j;
    while k > lo && is_whitespace(s[k - 1])
        invariant
            lo <= k <= j <= s.len(),
            skip_ws_back(s@, lo as int, k as int) == skip_ws_back(s@, lo as int, j as int),
        decreases k - lo,
    {
        k -= 1;
    }
    k
}

/// Bounds `(start, end)` of `trim(s@.subrange(lo, hi))` inside `s`.
pub fn trim_bounds(s: &[char], lo: usize, hi: usize) -> (r: (usize, usize))
    requires
        lo <= hi <= s.len(),
    ensures
        lo <= r.0 <= r.1 <= hi,
        s@.subrange(r.0 as int, r.1 as int) == trim(s@.subrange(lo as int, hi as int)),
{
    let a = skip_ws_exec(s, lo, hi);
    let b = skip_ws_back_exec(s, a, hi);
    proof {
        let t = s@.subrange(lo as int, hi as int);
        lemma_skip_ws_shift(s@, lo as int, hi as int, lo as int);
        let ts = trim_start(t);
        assert(ts =~= s@.subrange(a as int, hi as int));
        lemma_skip_ws_back_shift(s@, a as int, hi as int, hi as int);
    }
    (a, b)
}

/// `skip_ws` on a subrange is `skip_ws` on the whole shifted by the start.
pub proof fn lemma_skip_ws_shift(s: Seq<char>, lo: int, hi: int, i: int)
    requires
        0 <= lo <= i <= hi <= s.len(),
    ensures
        skip_ws(s.subrange(lo, hi), i - lo, hi - lo) + lo == skip_ws(s, i, hi),
    decreases hi - i,
{
    if i < hi && is_ws(s[i]) {
        lemma_skip_ws_shift(s, lo, hi, i + 1);
    }
}

/// `skip_ws_back` on a subrange is `skip_ws_back` on the whole shifted by the start.
pub proof fn lemma_skip_ws_back_shift(s: Seq<char>, lo: int, hi: int, j: int)
    requires
        0 <= lo <= j <= hi <= s.len(),
    ensures
        skip_ws_back(s.subrange(lo, hi), 0, j - lo) + lo == skip_ws_back(s, lo, j),
    decreases j - lo,
{
    if lo < j && is_ws(s[j - 1]) {
        lemma_skip_ws_back_shift(s, lo, hi, j - 1);
    }
}

/// Index of the first `'\n'` at or after `i`, or the length.
pub open spec fn next_nl(s: Seq<char>, i: int) -> int
    decreases s.len() - i,
{
    if i >= s.len() {
        s.len() as int
    } else if s[i] == '\n' {
        i
    } else {
        next_nl(s, i + 1)
    }
}

pub proof fn lemma_next_nl_bounds(s: Seq<char>, i: int)
    requires
        0 <= i <= s.len(),
    ensures
        i <= next_nl(s, i) <= s.len(),
        next_nl(s, i) < s.len() ==> s[next_nl(s, i)] == '\n',
        forall|k: int| i <= k < next_nl(s, i) ==> #[trigger] s[k] != '\n',
    decreases s.len() - i,
{
    if i < s.len() && s[i] != '\n' {
        lemma_next_nl_bounds(s, i + 1);
    }
}

/// Drops one trailing `'\r'`.
pub open spec fn strip_cr(l: Seq<char>) -> Seq<char> {
    if l.len() > 0 && l.last() == '\r' {
        l.drop_last()
    } else {
        l
    }
}

/// `str::lines` as a scan: `start` is where the current line began and `i`
/// the next character to read. Lines split at `'\n'`, each losing a `'\r'`
/// that precedes its newline, with no empty line after a final newline.
pub open spec fn lines_scan(s: Seq<char>, start: int, i: int) -> Seq<Seq<char>>
    decreases s.len() - i,
{
    if i >= s.len() {
        if 0 <= start < s.len() {
            seq![s.subrange(start, s.len() as int)]
        } else {
            seq![]
        }
    } else if s[i] == '\n' {
        seq![strip_cr(s.subrange(start, i))] + lines_scan(s, i + 1, i + 1)
    } else {
        lines_scan(s, start, i + 1)
    }
}

/// `str::lines`.
pub open spec fn lines(s: Seq<char>) -> Seq<Seq<char>> {
    lines_scan(s, 0, 0)
}

/// No line is longer than the text.
pub proof fn lemma_lines_scan_short(s: Seq<char>, start: int, i: int)
    requires
        0 <= start <= i,
    ensures
        forall|k: int| 0 <= k < lines_scan(s, start, i).len() ==> (#[trigger] lines_scan(s, start, i)[k]).len() <= s.len(),
    decreases s.len() - i,
{
    if i >= s.len() {
        if 0 <= start < s.len() {
            let x = s.subrange(start, s.len() as int);
            assert(lines_scan(s, start, i) =~= seq![x]);
            assert forall|k: int| 0 <= k < lines_scan(s, start, i).len() implies (#[trigger] lines_scan(s, start, i)[k]).len() <= s.len() by {
                assert(lines_scan(s, start, i)[k] == x);
            }
        } else {
            assert(lines_scan(s, start, i).len() == 0);
        }
    } else if s[i] == '\n' {
        lemma_lines_scan_short(s, i + 1, i + 1);
        let head = strip_cr(s.subrange(start, i));
        let rest = lines_scan(s, i + 1, i + 1);
        assert(lines_scan(s, start, i) =~= seq![head] + rest);
        assert forall|k: int| 0 <= k < lines_scan(s, start, i).len() implies (#[trigger] lines_scan(s, start, i)[k]).len() <= s.len() by {
            if k > 0 {
                assert(lines_scan(s, start, i)[k] == rest[k - 1]);
            } else {
                assert(lines_scan(s, start, i)[k] == head);
            }
        }
    } else {
        lemma_lines_scan_short(s, start, i + 1);
        assert(lines_scan(s, start, i) == lines_scan(s, start, i + 1));
    }
}

/// The views of a vector of character vectors.
pub open spec fn views(v: Seq<Vec<char>>) -> Seq<Seq<char>> {
    v.map_values(|l: Vec<char>| l@)
}

/// Splits text into lines exactly as `str::lines` does.
pub fn split_lines(s: &[char]) -> (r: Vec<Vec<char>>)
    ensures
        views(r@) == lines(s@),
{
    let mut out: Vec<Vec<char>> = Vec::new();
    let mut cur: Vec<char> = Vec::new();
    let mut start: usize = 0;
    let mut i: usize = 0;
    while i < s.len()
        invariant
            start <= i <= s.len(),
            cur@ == s@.subrange(start as int, i as int),
            views(out@) + lines_scan(s@, start as int, i as int) == lines(s@),
        decreases s.len() - i,
    {
        if s[i] == '\n' {
            let line = strip_cr_exec(cur);
            proof {
                let ghost old_out = views(out@);
                assert(views(out@.push(line)) =~= old_out.push(line@));
                assert(old_out + lines_scan(s@, start as int, i as int) =~= old_out.push(line@)
                    + lines_scan(s@, i + 1, i + 1));
            }
            out.push(line);
            cur = Vec::new();
            start = i + 1;
        } else {
            cur.push(s[i]);
        }
        i += 1;
        proof {
            assert(cur@ =~= s@.subrange(start as int, i as int));
        }
    }
    proof {
        let ghost old_out = views(out@);
        if start < s.len() {
            assert(views(out@.push(cur)) =~= old_out.push(cur@));
            assert(old_out + lines_scan(s@, start as int, i as int) =~= old_out.push(cur@));
        } else {
            assert(old_out + lines_scan(s@, start as int, i as int) =~= old_out);
        }
    }
    if start < s.len() {
        out.push(cur);
    }
    out
}

fn strip_cr_exec(v: Vec<char>) -> (r: Vec<char>)
    ensures
        r@ == strip_cr(v@),
{
    let mut v = v;
    if v.len() > 0 && v[v.len() - 1] == '\r' {
        v.pop();
    }
    v
}

/// Pieces joined with `sep` between consecutive pieces (`[T]::join`).
pub open spec fn join_with(ls: Seq<Seq<char>>, sep: Seq<char>) -> Seq<char>
    decreases ls.len(),
{
    if ls.len() == 0 {
        seq![]
    } else if ls.len() == 1 {
        ls[0]
    } else {
        join_with(ls.drop_last(), sep) + sep + ls.last()
    }
}

/// Appends `src[lo..hi]` to `out`.
pub fn extend_range(out: &mut Vec<char>, src: &[char], lo: usize, hi: usize)
    requires
        lo <= hi <= src.len(),
    ensures
        final(out)@ == old(out)@ + src@.subrange(lo as int, hi as int),
{
    let ghost start = out@;
    let mut i = lo;
    while i < hi
        invariant
            lo <= i <= hi <= src.len(),
            out@ == start + src@.subrange(lo as int, i as int),
        decreases hi - i,
    {
        out.push(src[i]);
        i += 1;
        proof {
            assert(out@ =~= start + src@.subrange(lo as int, i as int));
        }
    }
}

/// Appends all of `src` to `out`.
pub fn extend_all(out: &mut Vec<char>, src: &[char])
    ensures
        final(out)@ == old(out)@ + src@,
{
    extend_range(out, src, 0, src.len());
    proof {
        assert(src@.subrange(0, src@.len() as int) =~= src@);
    }
}

/// Joins pieces with `sep` (`[T]::join`).
pub fn join_lines(ls: &Vec<Vec<char>>, sep: &[char]) -> (r: Vec<char>)
    ensures
        r@ == join_with(views(ls@), sep@),
{
    let mut out: Vec<char> = Vec::new();
    let mut i: usize = 0;
    while i < ls.len()
        invariant
            i <= ls.len(),
            out@ == join_with(views(ls@).take(i as int), sep@),
        decreases ls.len() - i,
    {
        proof {
            let t = views(ls@).take(i + 1);
            assert(t.drop_last() =~= views(ls@).take(i as int));
        }
        if i > 0 {
            extend_all(&mut out, sep);
        }
        extend_all(&mut out, &ls[i]);
        proof {
            let t = views(ls@).take(i + 1);
            if i == 0 {
                assert(out@ =~= t[0]);
            }
        }
        i += 1;
    }
    proof {
        assert(views(ls@).take(ls.len() as int) =~= views(ls@));
    }
    out
}

/// The characters of `s`, in order.
pub fn chars_of(s: &str) -> (v: Vec<char>)
    ensures
        v@ == s@,
{
    let mut v: Vec<char> = Vec::new();
    for c in it: s.chars()
        invariant
            v@ == it.history(),
    {
        v.push(c);
    }
    v
}

/// Whether two strings hold the same characters.
pub fn str_eq(a: &str, b: &str) -> (r: bool)
    ensures
        r == (a@ == b@),
{
    let x = chars_of(a);
    let y = chars_of(b);
    if x.len() != y.len() {
        return false;
    }
    let r = matches_at(&x, 0, &y);
    proof {
        if r {
            assert(x@ =~= x@.subrange(0, y@.len() as int));
        } else {
            assert(x@.subrange(0, y@.len() as int) =~= x@);
        }
    }
    r
}

/// A `String` holding `v[lo..hi]`.
pub fn string_of_range(v: &[char], lo: usize, hi: usize) -> (s: String)
    requires
        lo <= hi <= v.len(),
    ensures
        s@ == v@.subrange(lo as int, hi as int),
{
    let mut s = String::new();
    let mut i = lo;
    while i < hi
        invariant
            lo <= i <= hi <= v.len(),
            s@ == v@.subrange(lo as int, i as int),
        decreases hi - i,
    {
        s.push(v[i]);
        i += 1;
        proof {
            assert(s@ =~= v@.subrange(lo as int, i as int));
        }
    }
    s
}

/// A `String` holding all of `v`.
pub fn string_of(v: &[char]) -> (s: String)
    ensures
        s@ == v@,
{
    let s = string_of_range(v, 0, v.len());
    proof {
        assert(v@.subrange(0, v@.len() as int) =~= v@);
    }
    s
}


/// Bytes in the UTF-8 encoding of `c`.
pub open spec fn utf8_len(c: char) -> nat {
    let u = c as u32;
    if u < 0x80 {
        1
    } else if u < 0x800 {
        2
    } else if u < 0x10000 {
        3
    } else {
        4
    }
}

/// Bytes in the UTF-8 encoding of `s` (`str::len`).
pub open spec fn byte_len(s: Seq<char>) -> nat
    decreases s.len(),
{
    if s.len() == 0 {
        0
    } else {
        byte_len(s.drop_last()) + utf8_len(s.last())
    }
}

/// `utf8_len` in exec form (`char::len_utf8`).
pub fn utf8_len_exec(c: char) -> (r: usize)
    ensures
        r == utf8_len(c),
{
    let u = c as u32;
    if u < 0x80 {
        1
    } else if u < 0x800 {
        2
    } else if u < 0x10000 {
        3
    } else {
        4
    }
}

/// Whether the leading whitespace of `line` takes at most `limit` bytes.
pub fn indent_bytes_at_most(line: &[char], limit: usize) -> (r: bool)
    requires
        limit < 1000,
    ensures
        r == (byte_len(line@.subrange(0, skip_ws(line@, 0, line@.len() as int))) <= limit),
{
    let end = skip_ws_exec(line, 0, line.len());
    let mut total: usize = 0;
    let mut i: usize = 0;
    while i < end
        invariant
            i <= end <= line.len(),
            total == byte_len(line@.subrange(0, i as int)),
            total <= limit,
            limit < 1000,
            end == skip_ws(line@, 0, line@.len() as int),
        decreases end - i,
    {
        let w = utf8_len_exec(line[i]);
        proof {
            let p = line@.subrange(0, i + 1);
            assert(p.drop_last() =~= line@.subrange(0, i as int));
            assert(p.last() == line@[i as int]);
            assert(byte_len(p) == total + w);
        }
        if total + w > limit {
            proof {
                lemma_byte_len_prefix_mono(line@.subrange(0, end as int), i + 1);
                assert(line@.subrange(0, end as int).subrange(0, i + 1) =~= line@.subrange(
                    0,
                    i + 1,
                ));
            }
            return false;
        }
        total = total + w;
        i += 1;
    }
    proof {
        assert(line@.subrange(0, end as int) =~= line@.subrange(0, i as int));
    }
    true
}

/// `byte_len` of a prefix never exceeds that of the whole.
pub proof fn lemma_byte_len_prefix_mono(s: Seq<char>, i: int)
    requires
        0 <= i <= s.len(),
    ensures
        byte_len(s.subrange(0, i)) <= byte_len(s),
    decreases s.len() - i,
{
    if i < s.len() {
        lemma_byte_len_prefix_mono(s, i + 1);
        assert(s.subrange(0, i + 1).drop_last() =~= s.subrange(0, i));
    } else {
        assert(s.subrange(0, i) =~= s);
    }
}

/// The length of the run of `c` starting at `i`.
pub open spec fn run_len(s: Seq<char>, i: int, c: char) -> int
    decreases s.len() - i,
{
    if 0 <= i < s.len() && s[i] == c {
        1 + run_len(s, i + 1, c)
    } else {
        0
    }
}

pub proof fn lemma_run_len_bounds(s: Seq<char>, i: int, c: char)
    requires
        0 <= i <= s.len(),
    ensures
        0 <= run_len(s, i, c) <= s.len() - i,
        forall|k: int| i <= k < i + run_len(s, i, c) ==> #[trigger] s[k] == c,
        i + run_len(s, i, c) < s.len() ==> s[i + run_len(s, i, c)] != c,
    decreases s.len() - i,
{
    if i < s.len() && s[i] == c {
        lemma_run_len_bounds(s, i + 1, c);
    }
}

/// `run_len` in exec form.
pub fn run_len_exec(s: &[char], i: usize, c: char) -> (r: usize)
    requires
        i <= s.len(),
    ensures
        r == run_len(s@, i as int, c),
        i + r <= s.len(),
{
    let mut k = i;
    while k < s.len() && s[k] == c
        invariant
            i <= k <= s.len(),
            run_len(s@, i as int, c) == (k - i) + run_len(s@, k as int, c),
        decreases s.len() - k,
    {
        k += 1;
    }
    proof {
        lemma_run_len_bounds(s@, i as int, c);
    }
    k - i
}

/// The ASCII digit for `d < 10`.
pub open spec fn digit_char(d: int) -> char {
    ((('0' as u32) as int) + d) as char
}

/// The decimal numeral of `n`.
pub open spec fn decimal(n: nat) -> Seq<char>
    decreases n,
{
    if n < 10 {
        seq![digit_char(n as int)]
    } else {
        decimal(n / 10).push(digit_char((n % 10) as int))
    }
}

/// The decimal numeral of `n`.
pub fn decimal_exec(n: u64) -> (r: Vec<char>)
    ensures
        r@ == decimal(n as nat),
    decreases n,
{
    let d = (n % 10) as u32;
    let c = char_from_ascii(('0' as u32) + d);
    if n < 10 {
        let mut v: Vec<char> = Vec::new();
        v.push(c);
        proof {
            assert(v@ =~= seq![digit_char(n as int)]);
        }
        v
    } else {
        let mut v = decimal_exec(n / 10);
        v.push(c);
        v
    }
}

} // verus!
