//! The text of an `index.md` listing: entries grouped by concept type,
//! each a markdown link with a one-line description; and the description a
//! listing gives a subdirectory when no better one is known.

use vstd::prelude::*;
use crate::text::{chars_of, join_with, string_of, views};

verus! {

/// The titles that are not empty among the first `n` children, in order.
pub open spec fn titled(children: Seq<(String, String)>, n: int) -> Seq<Seq<char>>
    decreases n,
{
    if n <= 0 || n > children.len() {
        seq![]
    } else if children[n - 1].0@.len() > 0 {
        titled(children, n - 1).push(children[n - 1].0@)
    } else {
        titled(children, n - 1)
    }
}

/// The description [`default_synthesize`] gives: nothing for no children,
/// else how many there are and their titles (the empty ones left out).
pub open spec fn synthesized(children: Seq<(String, String)>) -> Seq<char> {
    if children.len() == 0 {
        seq![]
    } else {
        let t = titled(children, children.len() as int);
        let list = if t.len() == 0 { "no titled entries"@ } else { join_with(t, ", "@) };
        "Contains "@ + crate::text::decimal(children.len()) + " entries: "@ + list + "."@
    }
}

/// Describes a directory by its children's `(title, description)` pairs:
/// lists the titles.
pub fn default_synthesize(rel: &str, children: &[(String, String)]) -> (r: String)
    ensures
        r@ == synthesized(children@),
{
    if children.len() == 0 {
        return String::new();
    }
    let mut titles: Vec<Vec<char>> = Vec::new();
    let mut i: usize = 0;
    while i < children.len()
        invariant
            i <= children.len(),
            views(titles@) == titled(children@, i as int),
        decreases children.len() - i,
    {
        let t = chars_of(children[i].0.as_str());
        if t.len() > 0 {
            let ghost before = views(titles@);
            titles.push(t);
            proof {
                assert(views(titles@) =~= before.push(t@));
            }
        }
        i += 1;
    }
    let mut out = chars_of("Contains ");
    crate::text::extend_all(&mut out, &crate::text::decimal_exec(children.len() as u64));
    crate::text::extend_all(&mut out, &chars_of(" entries: "));
    if titles.len() == 0 {
        crate::text::extend_all(&mut out, &chars_of("no titled entries"));
    } else {
        crate::text::extend_all(&mut out, &crate::text::join_lines(&titles, &chars_of(", ")));
    }
    crate::text::extend_all(&mut out, &chars_of("."));
    string_of(&out)
}

/// A character escaped for index text: a line break becomes a space, a
/// markdown delimiter (`\\ [ ] < > &`) gets a backslash.
pub open spec fn escape_char(c: char) -> Seq<char> {
    if c == '\n' || c == '\r' {
        seq![' ']
    } else if c == '\\' || c == '[' || c == ']' || c == '<' || c == '>' || c == '&' {
        seq!['\\', c]
    } else {
        seq![c]
    }
}

/// Text escaped character by character (see [`escape_char`]).
pub open spec fn escaped(s: Seq<char>) -> Seq<char>
    decreases s.len(),
{
    if s.len() == 0 {
        seq![]
    } else {
        escaped(s.drop_last()) + escape_char(s.last())
    }
}

/// [`escaped`] in exec form.
fn escape_text(s: &str) -> (r: Vec<char>)
    ensures
        r@ == escaped(s@),
{
    let v = chars_of(s);
    let mut out: Vec<char> = Vec::new();
    let mut i: usize = 0;
    while i < v.len()
        invariant
            i <= v.len(),
            v@ == s@,
            out@ == escaped(v@.take(i as int)),
        decreases v.len() - i,
    {
        let c = v[i];
        let ghost before = out@;
        if c == '\n' || c == '\r' {
            out.push(' ');
        } else if c == '\\' || c == '[' || c == ']' || c == '<' || c == '>' || c == '&' {
            out.push('\\');
            out.push(c);
        } else {
            out.push(c);
        }
        proof {
            assert(v@.take(i + 1).drop_last() =~= v@.take(i as int));
            assert(out@ =~= before + escape_char(c));
        }
        i += 1;
    }
    proof {
        assert(v@.take(v.len() as int) =~= v@);
    }
    out
}

/// The UTF-8 bytes of a character.
pub open spec fn utf8_bytes(c: char) -> Seq<int> {
    let n = (c as u32) as int;
    if n < 0x80 {
        seq![n]
    } else if n < 0x800 {
        seq![0xC0 + n / 64, 0x80 + n % 64]
    } else if n < 0x10000 {
        seq![0xE0 + n / 4096, 0x80 + (n / 64) % 64, 0x80 + n % 64]
    } else {
        seq![0xF0 + n / 262144, 0x80 + (n / 4096) % 64, 0x80 + (n / 64) % 64, 0x80 + n % 64]
    }
}

/// Whether a byte stands for itself in a link: an ASCII letter or digit, or
/// one of `- . _ ~ /`.
pub open spec fn kept_byte(b: int) -> bool {
    (0x30 <= b <= 0x39) || (0x41 <= b <= 0x5A) || (0x61 <= b <= 0x7A) || b == 0x2D || b == 0x2E || b == 0x5F
        || b == 0x7E || b == 0x2F
}

/// An uppercase hexadecimal digit.
pub open spec fn hex_digit(d: int) -> char {
    if d < 10 {
        (0x30 + d) as char
    } else {
        (0x41 + d - 10) as char
    }
}

/// A byte in a link: itself, or `%` and its two hexadecimal digits.
pub open spec fn encoded_byte(b: int) -> Seq<char> {
    if kept_byte(b) {
        seq![b as char]
    } else {
        seq!['%', hex_digit(b / 16), hex_digit(b % 16)]
    }
}

/// The bytes `bs` in a link.
pub open spec fn encoded_bytes(bs: Seq<int>) -> Seq<char>
    decreases bs.len(),
{
    if bs.len() == 0 {
        seq![]
    } else {
        encoded_bytes(bs.drop_last()) + encoded_byte(bs.last())
    }
}

/// A link destination percent-encoded byte by byte: only the bytes of
/// [`kept_byte`] stand for themselves.
pub open spec fn encoded(s: Seq<char>) -> Seq<char>
    decreases s.len(),
{
    if s.len() == 0 {
        seq![]
    } else {
        encoded(s.drop_last()) + encoded_bytes(utf8_bytes(s.last()))
    }
}

proof fn lemma_encoded_bytes_push(bs: Seq<int>, b: int)
    ensures
        encoded_bytes(bs.push(b)) == encoded_bytes(bs) + encoded_byte(b),
        encoded_bytes(Seq::<int>::empty()) == Seq::<char>::empty(),
{
    assert(bs.push(b).drop_last() =~= bs);
}

/// [`hex_digit`] in exec form.
fn hex_char(d: u32) -> (r: char)
    requires
        d < 16,
    ensures
        r == hex_digit(d as int),
{
    if d < 10 {
        (0x30u8 + d as u8) as char
    } else {
        (0x41u8 + (d as u8 - 10)) as char
    }
}

/// Appends [`encoded_byte`] of `b`.
fn push_encoded_byte(out: &mut Vec<char>, b: u32)
    requires
        b < 256,
    ensures
        final(out)@ == old(out)@ + encoded_byte(b as int),
{
    let keep = (0x30 <= b && b <= 0x39) || (0x41 <= b && b <= 0x5A) || (0x61 <= b && b <= 0x7A) || b == 0x2D
        || b == 0x2E || b == 0x5F || b == 0x7E || b == 0x2F;
    if keep {
        out.push((b as u8) as char);
    } else {
        out.push('%');
        out.push(hex_char(b / 16));
        out.push(hex_char(b % 16));
    }
    proof {
        assert(final(out)@ =~= old(out)@ + encoded_byte(b as int));
    }
}

/// [`encoded`] in exec form.
fn encode_link(s: &str) -> (r: Vec<char>)
    ensures
        r@ == encoded(s@),
{
    let v = chars_of(s);
    let mut out: Vec<char> = Vec::new();
    let mut i: usize = 0;
    while i < v.len()
        invariant
            i <= v.len(),
            v@ == s@,
            out@ == encoded(v@.take(i as int)),
        decreases v.len() - i,
    {
        let c = v[i];
        let n = c as u32;
        let ghost before = out@;
        let ghost bs = utf8_bytes(c);
        proof {
            assert(n == c as u32);
            vstd::utf8::char_is_scalar(c);
        }
        let ghost e = Seq::<int>::empty();
        if n < 0x80 {
            push_encoded_byte(&mut out, n);
            proof {
                assert(bs =~= e.push(n as int));
                lemma_encoded_bytes_push(e, n as int);
            }
        } else if n < 0x800 {
            push_encoded_byte(&mut out, 0xC0 + n / 64);
            push_encoded_byte(&mut out, 0x80 + n % 64);
            proof {
                let x = e.push(0xC0 + n / 64);
                assert(bs =~= x.push(0x80 + n % 64));
                lemma_encoded_bytes_push(e, 0xC0 + n / 64);
                lemma_encoded_bytes_push(x, 0x80 + n % 64);
            }
        } else if n < 0x10000 {
            push_encoded_byte(&mut out, 0xE0 + n / 4096);
            push_encoded_byte(&mut out, 0x80 + (n / 64) % 64);
            push_encoded_byte(&mut out, 0x80 + n % 64);
            proof {
                let x = e.push(0xE0 + n / 4096);
                let y = x.push(0x80 + (n / 64) % 64);
                assert(bs =~= y.push(0x80 + n % 64));
                lemma_encoded_bytes_push(e, 0xE0 + n / 4096);
                lemma_encoded_bytes_push(x, 0x80 + (n / 64) % 64);
                lemma_encoded_bytes_push(y, 0x80 + n % 64);
            }
        } else {
            push_encoded_byte(&mut out, 0xF0 + n / 262144);
            push_encoded_byte(&mut out, 0x80 + (n / 4096) % 64);
            push_encoded_byte(&mut out, 0x80 + (n / 64) % 64);
            push_encoded_byte(&mut out, 0x80 + n % 64);
            proof {
                let x = e.push(0xF0 + n / 262144);
                let y = x.push(0x80 + (n / 4096) % 64);
                let z = y.push(0x80 + (n / 64) % 64);
                assert(bs =~= z.push(0x80 + n % 64));
                lemma_encoded_bytes_push(e, 0xF0 + n / 262144);
                lemma_encoded_bytes_push(x, 0x80 + (n / 4096) % 64);
                lemma_encoded_bytes_push(y, 0x80 + (n / 64) % 64);
                lemma_encoded_bytes_push(z, 0x80 + n % 64);
            }
        }
        proof {
            assert(v@.take(i + 1).drop_last() =~= v@.take(i as int));
            assert(out@ =~= before + encoded_bytes(bs));
        }
        i += 1;
    }
    proof {
        assert(v@.take(v.len() as int) =~= v@);
    }
    out
}

/// One row of an index listing.
pub struct IndexEntry {
    /// The concept type, or `Subdirectories` for a child directory.
    pub type_: String,
    /// The title shown.
    pub title: String,
    /// The link target, relative to the listing.
    pub link: String,
    /// A one-line description, possibly empty.
    pub description: String,
}

/// What `str::to_lowercase` gives for a text with a character beyond ASCII.
pub uninterp spec fn unicode_text_lowercase(s: Seq<char>) -> Seq<char>;

/// An ASCII capital's small letter; any other character itself.
pub open spec fn ascii_lower(c: char) -> char {
    if 'A' <= c && c <= 'Z' {
        ((c as u32) + 32) as char
    } else {
        c
    }
}

/// Whether every character of `s` is ASCII.
pub open spec fn all_ascii(s: Seq<char>) -> bool {
    forall|k: int| 0 <= k < s.len() ==> (#[trigger] s[k] as u32) < 128
}

/// What `str::to_lowercase` gives: for an all-ASCII text each capital's small
/// letter; otherwise the Unicode mapping.
pub open spec fn text_lowercase(s: Seq<char>) -> Seq<char> {
    if all_ascii(s) {
        s.map_values(|c: char| ascii_lower(c))
    } else {
        unicode_text_lowercase(s)
    }
}

/// `str::to_lowercase`. Trusted: an all-ASCII text gets each capital
/// replaced by its small letter; a text with another character goes by the
/// name [`unicode_text_lowercase`], whose values (the Unicode mapping with its
/// final-sigma rule) are not stated.
#[verifier::external_body]
fn lowercase(s: &str) -> (r: String)
    ensures
        r@ == (if forall|k: int| 0 <= k < s@.len() ==> (#[trigger] s@[k] as u32) < 128 {
            s@.map_values(|c: char| if 'A' <= c && c <= 'Z' { ((c as u32) + 32) as char } else { c })
        } else {
            unicode_text_lowercase(s@)
        }),
{
    s.to_lowercase()
}

/// The group an entry is listed under: its type, or `Other` for none.
pub open spec fn group_key(e: IndexEntry) -> Seq<char> {
    if e.type_@.len() == 0 {
        "Other"@
    } else {
        e.type_@
    }
}

/// Where `k` belongs in the sorted list `s`: before the first text not
/// smaller than it.
pub open spec fn key_slot(s: Seq<Seq<char>>, k: Seq<char>, i: int) -> int
    decreases s.len() - i,
{
    if i < 0 || i >= s.len() {
        s.len() as int
    } else if crate::search::chars_lt(s[i], k) {
        key_slot(s, k, i + 1)
    } else {
        i
    }
}

/// The sorted list `s` with `k` added unless present.
pub open spec fn with_key(s: Seq<Seq<char>>, k: Seq<char>) -> Seq<Seq<char>> {
    let p = key_slot(s, k, 0);
    if p < s.len() && s[p] == k {
        s
    } else {
        s.insert(p, k)
    }
}

/// The groups of the first `n` entries, each once, in code-point order.
pub open spec fn group_keys(es: Seq<IndexEntry>, n: int) -> Seq<Seq<char>>
    decreases n,
{
    if n <= 0 || n > es.len() {
        seq![]
    } else {
        with_key(group_keys(es, n - 1), group_key(es[n - 1]))
    }
}

/// The indices of the first `n` entries listed under group `k`, in order.
pub open spec fn group_members(es: Seq<IndexEntry>, k: Seq<char>, n: int) -> Seq<int>
    decreases n,
{
    if n <= 0 || n > es.len() {
        seq![]
    } else if group_key(es[n - 1]) == k {
        group_members(es, k, n - 1).push(n - 1)
    } else {
        group_members(es, k, n - 1)
    }
}

/// Where a stable insertion by lowercased title puts entry `x` among the
/// entries at indices `s`.
pub open spec fn title_slot(es: Seq<IndexEntry>, s: Seq<int>, x: int, i: int) -> int
    decreases s.len() - i,
{
    if i < 0 || i >= s.len() {
        s.len() as int
    } else if crate::search::chars_lt(text_lowercase(es[x].title@), text_lowercase(es[s[i]].title@)) {
        i
    } else {
        title_slot(es, s, x, i + 1)
    }
}

/// Entry indices sorted stably by lowercased title.
pub open spec fn by_title(es: Seq<IndexEntry>, xs: Seq<int>) -> Seq<int>
    decreases xs.len(),
{
    if xs.len() == 0 {
        seq![]
    } else {
        let s = by_title(es, xs.drop_last());
        s.insert(title_slot(es, s, xs.last(), 0), xs.last())
    }
}

/// One listing line: `* [title](link)`, then ` - ` and the description when
/// there is one; text escaped, the link percent-encoded.
pub open spec fn item_line(e: IndexEntry) -> Seq<char> {
    let d = escaped(e.description@);
    "* ["@ + escaped(e.title@) + "]("@ + encoded(e.link@) + ")"@ + if d.len() == 0 {
        Seq::<char>::empty()
    } else {
        " - "@ + d
    }
}

/// The lines of the entries at indices `xs`.
pub open spec fn item_lines(es: Seq<IndexEntry>, xs: Seq<int>) -> Seq<Seq<char>> {
    xs.map_values(|x: int| item_line(es[x]))
}

/// The section of group `k`: its heading, a blank line, and its entries by
/// title.
pub open spec fn section_text(es: Seq<IndexEntry>, k: Seq<char>) -> Seq<char> {
    join_with(
        seq!["# "@ + escaped(k), Seq::<char>::empty()] + item_lines(es, by_title(es, group_members(es, k, es.len() as int))),
        "\n"@,
    )
}

/// The text of an index listing: one section per group, groups in
/// code-point order, separated by blank lines, and a final line break.
pub open spec fn index_text(es: Seq<IndexEntry>) -> Seq<char> {
    let ks = group_keys(es, es.len() as int);
    join_with(ks.map_values(|k: Seq<char>| section_text(es, k)), "\n\n"@) + "\n"@
}

/// The group of an entry, in exec form.
fn group_key_exec(e: &IndexEntry) -> (r: Vec<char>)
    ensures
        r@ == group_key(*e),
{
    let t = chars_of(e.type_.as_str());
    if t.len() == 0 {
        chars_of("Other")
    } else {
        t
    }
}

/// The sorted distinct groups of the entries.
fn collect_groups(es: &[IndexEntry]) -> (r: Vec<Vec<char>>)
    ensures
        views(r@) == group_keys(es@, es@.len() as int),
{
    let mut out: Vec<Vec<char>> = Vec::new();
    let mut i: usize = 0;
    while i < es.len()
        invariant
            i <= es.len(),
            views(out@) == group_keys(es@, i as int),
        decreases es.len() - i,
    {
        let k = group_key_exec(&es[i]);
        let ghost s = views(out@);
        let mut p: usize = 0;
        while p < out.len() && crate::search::chars_less(&out[p], &k)
            invariant
                p <= out.len(),
                s == views(out@),
                key_slot(s, k@, p as int) == key_slot(s, k@, 0),
            decreases out.len() - p,
        {
            proof {
                assert(s[p as int] == out@[p as int]@);
            }
            p += 1;
        }
        proof {
            if p < out.len() {
                assert(s[p as int] == out@[p as int]@);
            }
        }
        if p < out.len() && crate::paths::same_chars(&out[p], &k) {
        } else {
            out.insert(p, k);
            proof {
                assert(views(out@) =~= s.insert(p as int, k@));
            }
        }
        i += 1;
    }
    out
}

/// The indices of the entries of group `k`, sorted by lowercased title.
fn sorted_members(es: &[IndexEntry], lower: &Vec<Vec<char>>, k: &[char]) -> (r: Vec<usize>)
    requires
        lower@.len() == es@.len(),
        forall|j: int| 0 <= j < es@.len() ==> (#[trigger] lower@[j])@ == text_lowercase(es@[j].title@),
    ensures
        r@.map_values(|x: usize| x as int) == by_title(es@, group_members(es@, k@, es@.len() as int)),
        forall|q: int| 0 <= q < r@.len() ==> (#[trigger] r@[q]) < es@.len(),
{
    let mut out: Vec<usize> = Vec::new();
    let mut i: usize = 0;
    while i < es.len()
        invariant
            i <= es.len(),
            lower@.len() == es@.len(),
            forall|j: int| 0 <= j < es@.len() ==> (#[trigger] lower@[j])@ == text_lowercase(es@[j].title@),
            out@.map_values(|x: usize| x as int) == by_title(es@, group_members(es@, k@, i as int)),
            forall|q: int| 0 <= q < out@.len() ==> (#[trigger] out@[q]) < i,
        decreases es.len() - i,
    {
        let g = group_key_exec(&es[i]);
        if crate::paths::same_chars(&g, k) {
            let ghost s = out@.map_values(|x: usize| x as int);
            let mut p: usize = 0;
            while p < out.len() && !crate::search::chars_less(&lower[i], &lower[out[p]])
                invariant
                    p <= out.len(),
                    i < es.len(),
                    lower@.len() == es@.len(),
                    forall|j: int| 0 <= j < es@.len() ==> (#[trigger] lower@[j])@ == text_lowercase(es@[j].title@),
                    s == out@.map_values(|x: usize| x as int),
                    forall|q: int| 0 <= q < out@.len() ==> (#[trigger] out@[q]) < i,
                    title_slot(es@, s, i as int, p as int) == title_slot(es@, s, i as int, 0),
                decreases out.len() - p,
            {
                proof {
                    assert(s[p as int] == out@[p as int] as int);
                }
                p += 1;
            }
            proof {
                if p < out.len() {
                    assert(s[p as int] == out@[p as int] as int);
                }
                let m = group_members(es@, k@, i + 1);
                assert(m.drop_last() =~= group_members(es@, k@, i as int));
            }
            out.insert(p, i);
            proof {
                assert(out@.map_values(|x: usize| x as int) =~= s.insert(p as int, i as int));
            }
        }
        i += 1;
    }
    out
}

/// One listing line, in exec form.
fn item_line_exec(e: &IndexEntry) -> (r: Vec<char>)
    ensures
        r@ == item_line(*e),
{
    let mut out = chars_of("* [");
    crate::text::extend_all(&mut out, &escape_text(e.title.as_str()));
    crate::text::extend_all(&mut out, &chars_of("]("));
    crate::text::extend_all(&mut out, &encode_link(e.link.as_str()));
    crate::text::extend_all(&mut out, &chars_of(")"));
    let d = escape_text(e.description.as_str());
    if d.len() > 0 {
        crate::text::extend_all(&mut out, &chars_of(" - "));
        crate::text::extend_all(&mut out, &d);
    }
    out
}

/// Builds the text of an `index.md` listing (see [`index_text`]): entries
/// grouped by type under `#` headings, types in ascending order, each group
/// sorted by title (ignoring case).
pub fn build_index_text(entries: &[IndexEntry]) -> (r: String)
    ensures
        r@ == index_text(entries@),
{
    let ghost es = entries@;
    let mut lower: Vec<Vec<char>> = Vec::new();
    let mut j: usize = 0;
    while j < entries.len()
        invariant
            j <= entries.len(),
            es == entries@,
            lower@.len() == j,
            forall|q: int| 0 <= q < j ==> (#[trigger] lower@[q])@ == text_lowercase(es[q].title@),
        decreases entries.len() - j,
    {
        let l = lowercase(entries[j].title.as_str());
        let lc = chars_of(l.as_str());
        let ghost before = lower@;
        lower.push(lc);
        proof {
            assert(lower@[j as int] == lc);
            assert forall|q: int| 0 <= q < j + 1 implies (#[trigger] lower@[q])@ == text_lowercase(es[q].title@) by {
                if q < j {
                    assert(lower@[q] == before[q]);
                }
            }
        }
        j += 1;
    }
    let keys = collect_groups(entries);
    let ghost ks = views(keys@);
    let mut sections: Vec<Vec<char>> = Vec::new();
    let mut g: usize = 0;
    while g < keys.len()
        invariant
            g <= keys.len(),
            es == entries@,
            ks == views(keys@),
            ks == group_keys(es, es.len() as int),
            lower@.len() == es.len(),
            forall|q: int| 0 <= q < es.len() ==> (#[trigger] lower@[q])@ == text_lowercase(es[q].title@),
            views(sections@) == ks.take(g as int).map_values(|k: Seq<char>| section_text(es, k)),
        decreases keys.len() - g,
    {
        let k = &keys[g];
        let members = sorted_members(entries, &lower, k);
        let ghost mv = members@.map_values(|x: usize| x as int);
        let mut lines: Vec<Vec<char>> = Vec::new();
        let mut head = chars_of("# ");
        crate::text::extend_all(&mut head, &escape_text(string_of(k).as_str()));
        lines.push(head);
        lines.push(Vec::new());
        let mut q: usize = 0;
        while q < members.len()
            invariant
                q <= members.len(),
                es == entries@,
                lines@.len() == q + 2,
                forall|x: int| 0 <= x < members@.len() ==> (#[trigger] members@[x]) < es.len(),
                mv == members@.map_values(|x: usize| x as int),
                views(lines@) == seq!["# "@ + escaped(k@), Seq::<char>::empty()] + item_lines(es, mv.take(q as int)),
            decreases members.len() - q,
        {
            let ghost before = views(lines@);
            let line = item_line_exec(&entries[members[q]]);
            lines.push(line);
            proof {
                assert(item_lines(es, mv.take(q + 1)) =~= item_lines(es, mv.take(q as int)).push(item_line(es[mv[q as int]])));
                assert(views(lines@) =~= before.push(line@));
            }
            q += 1;
        }
        proof {
            assert(mv.take(q as int) =~= mv);
        }
        let nl = chars_of("\n");
        let sec = crate::text::join_lines(&lines, &nl);
        let ghost before = views(sections@);
        sections.push(sec);
        proof {
            assert(ks[g as int] == keys@[g as int]@);
            assert(views(sections@) =~= before.push(section_text(es, ks[g as int])));
            assert(ks.take(g + 1).map_values(|k: Seq<char>| section_text(es, k)) =~= ks.take(g as int).map_values(
                |k: Seq<char>| section_text(es, k),
            ).push(section_text(es, ks[g as int])));
        }
        g += 1;
    }
    proof {
        assert(ks.take(g as int) =~= ks);
    }
    let sep = chars_of("\n\n");
    let mut out = crate::text::join_lines(&sections, &sep);
    out.push('\n');
    proof {
        reveal_strlit("\n");
    }
    string_of(&out)
}

/// A child of a directory as the index walk lists it.
pub enum Listed {
    /// A markdown file that was read: its file name and stem, and its
    /// frontmatter's `title`, `description` and `type`.
    Doc { name: String, stem: String, title: Option<String>, description: Option<String>, type_: Option<String> },
    /// A subdirectory, with the description its own listing gave it (empty
    /// when it has none).
    Dir { name: String, description: String },
}

/// A listing row as texts: type, title, link, description.
pub type RowView = (Seq<char>, Seq<char>, Seq<char>, Seq<char>);

/// The file name of a listed child.
pub open spec fn listed_name(l: Listed) -> Seq<char> {
    match l {
        Listed::Doc { name, .. } => name@,
        Listed::Dir { name, .. } => name@,
    }
}

/// `index.md` and `log.md` are not listed.
pub open spec fn reserved_name(n: Seq<char>) -> bool {
    n == "index.md"@ || n == "log.md"@
}

/// An optional text, or empty.
pub open spec fn or_empty(o: Option<String>) -> Seq<char> {
    match o {
        Some(t) => t@,
        None => Seq::<char>::empty(),
    }
}

/// The row of a child: a document by its title (its stem when the title is
/// missing or empty) and linked by its file name; a subdirectory as
/// `Subdirectories`, linked to its own `index.md`.
pub open spec fn row_of(l: Listed) -> RowView {
    match l {
        Listed::Doc { name, stem, title, description, type_ } => (
            or_empty(type_),
            if or_empty(title).len() > 0 { or_empty(title) } else { stem@ },
            name@,
            or_empty(description),
        ),
        Listed::Dir { name, description } => ("Subdirectories"@, name@, name@ + "/index.md"@, description@),
    }
}

/// The rows of the first `n` children, reserved names left out.
pub open spec fn listing_rows(ls: Seq<Listed>, n: int) -> Seq<RowView>
    decreases n,
{
    if n <= 0 || n > ls.len() {
        seq![]
    } else if reserved_name(listed_name(ls[n - 1])) {
        listing_rows(ls, n - 1)
    } else {
        listing_rows(ls, n - 1).push(row_of(ls[n - 1]))
    }
}

/// An index entry as texts.
pub open spec fn row_view(e: IndexEntry) -> RowView {
    (e.type_@, e.title@, e.link@, e.description@)
}

fn copy_string(s: &String) -> (r: String)
    ensures
        r@ == s@,
{
    string_of(&chars_of(s.as_str()))
}

fn copy_or_empty(o: &Option<String>) -> (r: String)
    ensures
        r@ == or_empty(*o),
{
    match o {
        Some(t) => copy_string(t),
        None => String::new(),
    }
}

fn is_reserved(n: &String) -> (r: bool)
    ensures
        r == reserved_name(n@),
{
    crate::text::str_eq(n.as_str(), "index.md") || crate::text::str_eq(n.as_str(), "log.md")
}

/// The entries of a directory's index, from its children in listing order
/// (see [`listing_rows`]).
pub fn index_entries(children: &[Listed]) -> (r: Vec<IndexEntry>)
    ensures
        r@.map_values(|e: IndexEntry| row_view(e)) == listing_rows(children@, children@.len() as int),
{
    let mut out: Vec<IndexEntry> = Vec::new();
    let mut i: usize = 0;
    while i < children.len()
        invariant
            i <= children.len(),
            out@.map_values(|e: IndexEntry| row_view(e)) == listing_rows(children@, i as int),
        decreases children.len() - i,
    {
        let ghost before = out@;
        let l = &children[i];
        let name = match l {
            Listed::Doc { name, .. } => name,
            Listed::Dir { name, .. } => name,
        };
        if !is_reserved(name) {
            let e = match l {
                Listed::Doc { name, stem, title, description, type_ } => {
                    let t = copy_or_empty(title);
                    let title_text = if t.as_str().unicode_len() > 0 { t } else { copy_string(stem) };
                    IndexEntry {
                        type_: copy_or_empty(type_),
                        title: title_text,
                        link: copy_string(name),
                        description: copy_or_empty(description),
                    }
                },
                Listed::Dir { name, description } => {
                    let mut link = chars_of(name.as_str());
                    crate::text::extend_all(&mut link, &chars_of("/index.md"));
                    IndexEntry {
                        type_: string_of(&chars_of("Subdirectories")),
                        title: copy_string(name),
                        link: string_of(&link),
                        description: copy_string(description),
                    }
                },
            };
            out.push(e);
            proof {
                assert(out@.map_values(|e: IndexEntry| row_view(e)) =~= before.map_values(|e: IndexEntry| row_view(e)).push(row_of(children@[i as int])));
            }
        } else {
            proof {
                assert(out@ == before);
            }
        }
        i += 1;
    }
    out
}

/// The description a directory's listing gives the directory: its one
/// entry's description when it has exactly one entry and that description
/// is not empty; otherwise what the synthesizer gave for its entries.
pub fn directory_description(entries: &[IndexEntry], synthesized: String) -> (r: String)
    ensures
        r@ == (if entries@.len() == 1 && entries@[0].description@.len() > 0 {
            entries@[0].description@
        } else {
            synthesized@
        }),
{
    if entries.len() == 1 && entries[0].description.as_str().unicode_len() > 0 {
        copy_string(&entries[0].description)
    } else {
        synthesized
    }
}

} // verus!
