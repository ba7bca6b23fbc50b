//! Syntax checking for the code an Attested Computation carries, and fenced
//! code block extraction from markdown.
//!
//! Python, JavaScript/TypeScript, Rust, SQL and JSON are checked by outside
//! parsers; YAML by this crate's own parser; Bash by a verified
//! quote/bracket balance scan.
use vstd::prelude::*;
use crate::text::{
    byte_len, chars_of, extend_all, extend_range, has_prefix, indent_bytes_at_most, join_lines, join_with,
    lemma_run_len_bounds, lemma_skip_ws_bounds, lines, lower_all, matches_at, run_len,
    run_len_exec, skip_ws, skip_ws_exec, split_lines, string_of, string_of_range, to_ascii_lower, utf8_len_exec,
    trim, trim_bounds, trim_start, views,
};

verus! {

broadcast use vstd::string::group_string_axioms;

/// Supported languages for static syntax checking.
#[derive(Debug, Clone, Copy, PartialEq, Eq, Structural)]
pub enum Language {
    /// Python script (`.py`, `python`, `python3`)
    Python,
    /// JavaScript script (`.js`, `.mjs`, `.cjs`, `javascript`, `node`)
    JavaScript,
    /// TypeScript script (`.ts`, `.mts`, `.cts`, `.tsx`, `.jsx`, `typescript`, `deno`, `bun`)
    TypeScript,
    /// Rust source (`.rs`, `rust`)
    Rust,
    /// SQL query / migration (`.sql`, `sql`)
    Sql,
    /// JSON data structure (`.json`, `json`)
    Json,
    /// YAML document (`.yaml`, `.yml`, `yaml`)
    Yaml,
    /// Bash / POSIX shell script (`.sh`, `.bash`, `shell`, `sh`)
    Bash,
    /// Unknown or unsupported language tag.
    Unknown,
}

/// Index of the first character of `s` from `i` on that is in `stops`, or the length.
pub open spec fn find_any(s: Seq<char>, i: int, stops: Seq<char>) -> int
    decreases s.len() - i,
{
    if i >= s.len() {
        s.len() as int
    } else if stops.contains(s[i]) {
        i
    } else {
        find_any(s, i + 1, stops)
    }
}

pub proof fn lemma_find_any_bounds(s: Seq<char>, i: int, stops: Seq<char>)
    requires
        0 <= i <= s.len(),
    ensures
        i <= find_any(s, i, stops) <= s.len(),
        find_any(s, i, stops) < s.len() ==> stops.contains(s[find_any(s, i, stops)]),
        forall|k: int| i <= k < find_any(s, i, stops) ==> !stops.contains(#[trigger] s[k]),
    decreases s.len() - i,
{
    if i < s.len() && !stops.contains(s[i]) {
        lemma_find_any_bounds(s, i + 1, stops);
    }
}

/// `find_any` in exec form.
pub fn find_any_exec(s: &[char], i: usize, stops: &[char]) -> (r: usize)
    requires
        i <= s.len(),
    ensures
        r == find_any(s@, i as int, stops@),
        i <= r <= s.len(),
{
    let mut k = i;
    while k < s.len()
        invariant
            i <= k <= s.len(),
            find_any(s@, k as int, stops@) == find_any(s@, i as int, stops@),
        decreases s.len() - k,
    {
        if contains_char(stops, s[k]) {
            return k;
        }
        k += 1;
    }
    k
}

/// Whether `c` occurs in `set`.
pub fn contains_char(set: &[char], c: char) -> (r: bool)
    ensures
        r == set@.contains(c),
{
    let mut i: usize = 0;
    while i < set.len()
        invariant
            i <= set.len(),
            forall|k: int| 0 <= k < i ==> set@[k] != c,
        decreases set.len() - i,
    {
        if set[i] == c {
            return true;
        }
        i += 1;
    }
    false
}

/// The lookup key of a language tag: trimmed, lowercased, and cut at the
/// first `,` or space (so `rust,no_run` reads as `rust`).
pub open spec fn tag_key(tag: Seq<char>) -> Seq<char> {
    let t = lower_all(trim(tag));
    t.subrange(0, find_any(t, 0, seq![',', ' ']))
}

/// The language a tag key names.
pub open spec fn language_of_key(k: Seq<char>) -> Language {
    if k == "py"@ || k == "python"@ || k == "python3"@ {
        Language::Python
    } else if k == "js"@ || k == "javascript"@ || k == "node"@ || k == "nodejs"@ || k == "mjs"@
        || k == "cjs"@ {
        Language::JavaScript
    } else if k == "ts"@ || k == "typescript"@ || k == "deno"@ || k == "bun"@ || k == "mts"@
        || k == "cts"@ || k == "tsx"@ || k == "jsx"@ {
        Language::TypeScript
    } else if k == "rs"@ || k == "rust"@ {
        Language::Rust
    } else if k == "sql"@ {
        Language::Sql
    } else if k == "json"@ {
        Language::Json
    } else if k == "yaml"@ || k == "yml"@ {
        Language::Yaml
    } else if k == "sh"@ || k == "bash"@ || k == "zsh"@ || k == "shell"@ {
        Language::Bash
    } else {
        Language::Unknown
    }
}

/// The canonical name of a language.
pub open spec fn language_name(l: Language) -> Seq<char> {
    match l {
        Language::Python => "python"@,
        Language::JavaScript => "javascript"@,
        Language::TypeScript => "typescript"@,
        Language::Rust => "rust"@,
        Language::Sql => "sql"@,
        Language::Json => "json"@,
        Language::Yaml => "yaml"@,
        Language::Bash => "bash"@,
        Language::Unknown => "unknown"@,
    }
}

/// Whether `k` spells the literal `w`.
fn is_word(k: &[char], w: &str) -> (r: bool)
    ensures
        r == (k@ == w@),
{
    let wv = chars_of(w);
    if k.len() != wv.len() {
        return false;
    }
    let r = matches_at(k, 0, &wv);
    proof {
        if r {
            assert(k@ =~= k@.subrange(0, wv@.len() as int));
        } else {
            assert(k@.subrange(0, wv@.len() as int) =~= k@);
        }
    }
    r
}

/// Lowercases every character in `v[lo..hi]` into a new vector.
pub fn lower_range(v: &[char], lo: usize, hi: usize) -> (r: Vec<char>)
    requires
        lo <= hi <= v.len(),
    ensures
        r@ == lower_all(v@.subrange(lo as int, hi as int)),
{
    let mut out: Vec<char> = Vec::new();
    let mut i = lo;
    while i < hi
        invariant
            lo <= i <= hi <= v.len(),
            out@ == lower_all(v@.subrange(lo as int, i as int)),
        decreases hi - i,
    {
        out.push(to_ascii_lower(v[i]));
        i += 1;
        proof {
            assert(out@ =~= lower_all(v@.subrange(lo as int, i as int)));
        }
    }
    out
}

impl Language {
    /// Identifies the language from a language tag, runtime identifier, or file extension.
    pub fn from_tag(tag: &str) -> (r: Language)
        ensures
            r == language_of_key(tag_key(tag@)),
    {
        let v = chars_of(tag);
        let (a, b) = trim_bounds(&v, 0, v.len());
        let low = lower_range(&v, a, b);
        let stops = [',', ' '];
        let cut = find_any_exec(&low, 0, &stops);
        let mut key: Vec<char> = Vec::new();
        extend_range(&mut key, &low, 0, cut);
        proof {
            assert(v@.subrange(0, v@.len() as int) =~= v@);
            assert(stops@ =~= seq![',', ' ']);
        }
        if is_word(&key, "py") || is_word(&key, "python") || is_word(&key, "python3") {
            Language::Python
        } else if is_word(&key, "js") || is_word(&key, "javascript") || is_word(&key, "node")
            || is_word(&key, "nodejs") || is_word(&key, "mjs") || is_word(&key, "cjs") {
            Language::JavaScript
        } else if is_word(&key, "ts") || is_word(&key, "typescript") || is_word(&key, "deno")
            || is_word(&key, "bun") || is_word(&key, "mts") || is_word(&key, "cts") || is_word(
            &key,
            "tsx",
        ) || is_word(&key, "jsx") {
            Language::TypeScript
        } else if is_word(&key, "rs") || is_word(&key, "rust") {
            Language::Rust
        } else if is_word(&key, "sql") {
            Language::Sql
        } else if is_word(&key, "json") {
            Language::Json
        } else if is_word(&key, "yaml") || is_word(&key, "yml") {
            Language::Yaml
        } else if is_word(&key, "sh") || is_word(&key, "bash") || is_word(&key, "zsh")
            || is_word(&key, "shell") {
            Language::Bash
        } else {
            Language::Unknown
        }
    }

    /// Display name of the language.
    pub fn name(&self) -> (r: &'static str)
        ensures
            r@ == language_name(*self),
    {
        self.as_str()
    }

    /// Returns the canonical name of the language as a string slice.
    pub fn as_str(&self) -> (r: &'static str)
        ensures
            r@ == language_name(*self),
    {
        match self {
            Language::Python => "python",
            Language::JavaScript => "javascript",
            Language::TypeScript => "typescript",
            Language::Rust => "rust",
            Language::Sql => "sql",
            Language::Json => "json",
            Language::Yaml => "yaml",
            Language::Bash => "bash",
            Language::Unknown => "unknown",
        }
    }

    /// The canonical name (see [`Language::as_str`]).
    pub fn as_ref(&self) -> (r: &'static str)
        ensures
            r@ == language_name(*self),
    {
        self.as_str()
    }

    /// The canonical name as an owned string.
    pub fn to_string(&self) -> (r: String)
        ensures
            r@ == language_name(*self),
    {
        self.as_str().to_string()
    }

    /// Whether a syntax checker for this language is present. Every parser
    /// is built into this crate, so only [`Language::Unknown`] has none.
    pub fn is_supported(&self) -> (r: bool)
        ensures
            r == (*self != Language::Unknown),
    {
        !matches!(self, Language::Unknown)
    }
}


/// A parsed fenced code block from markdown.
#[derive(Debug, Clone, PartialEq, Eq)]
pub struct FencedCodeBlock {
    /// The language tag if specified (e.g. `python`, `rust`).
    pub language: Option<String>,
    /// The inner code content.
    pub code: String,
    /// 1-based start line of the opening fence in the markdown document.
    pub start_line: usize,
}

/// The abstract content of a [`FencedCodeBlock`].
pub struct FenceBlock {
    pub language: Option<Seq<char>>,
    pub code: Seq<char>,
    pub start_line: int,
}

/// The view of an optional character vector.
pub open spec fn opt_vec_view(o: Option<Vec<char>>) -> Option<Seq<char>> {
    match o {
        Some(v) => Some(v@),
        None => None,
    }
}

/// The view of an optional string.
pub open spec fn opt_view(o: Option<String>) -> Option<Seq<char>> {
    match o {
        Some(s) => Some(s@),
        None => None,
    }
}

impl FencedCodeBlock {
    pub open spec fn view(&self) -> FenceBlock {
        FenceBlock { language: opt_view(self.language), code: self.code@, start_line: self.start_line as int }
    }
}

/// Bytes of leading whitespace on a line (`line.len() - line.trim_start().len()`).
pub open spec fn lead_bytes(line: Seq<char>) -> nat {
    byte_len(line.subrange(0, skip_ws(line, 0, line.len() as int)))
}

/// Whether `line` closes a fence of `len` characters `ch`.
pub open spec fn closes_fence(line: Seq<char>, ch: char, len: int) -> bool {
    let t = trim_start(line);
    let c = run_len(t, 0, ch);
    lead_bytes(line) <= 3 && c >= len && trim(t.subrange(c, t.len() as int)).len() == 0
}

/// The fence an opening line starts: its character, its length, and the
/// first word of its info string.
pub open spec fn fence_opener(line: Seq<char>) -> Option<(char, int, Option<Seq<char>>)> {
    let t = trim_start(line);
    if lead_bytes(line) <= 3 && (has_prefix(t, seq!['`', '`', '`']) || has_prefix(
        t,
        seq!['~', '~', '~'],
    )) {
        let ch = t[0];
        let c = run_len(t, 0, ch);
        let tag = trim(t.subrange(c, t.len() as int));
        let first = tag.subrange(0, find_any(tag, 0, seq![',', ' ', '\t']));
        Some((ch, c, if first.len() == 0 { None } else { Some(first) }))
    } else {
        None
    }
}

/// The state of the fence scan.
pub struct FenceState {
    pub open: bool,
    pub ch: char,
    pub len: int,
    pub lang: Option<Seq<char>>,
    pub body: Seq<Seq<char>>,
    pub start: int,
}

/// The blocks found in lines `i..` given the scan state.
pub open spec fn fence_scan(ls: Seq<Seq<char>>, i: int, st: FenceState) -> Seq<FenceBlock>
    decreases ls.len() - i,
{
    if i < 0 || i >= ls.len() {
        seq![]
    } else if st.open {
        if closes_fence(ls[i], st.ch, st.len) {
            seq![FenceBlock { language: st.lang, code: join_with(st.body, seq!['\n']), start_line: st.start }]
                + fence_scan(ls, i + 1, FenceState { open: false, lang: None, ..st })
        } else {
            fence_scan(ls, i + 1, FenceState { body: st.body.push(ls[i]), ..st })
        }
    } else {
        match fence_opener(ls[i]) {
            Some((ch, c, lang)) => fence_scan(
                ls,
                i + 1,
                FenceState { open: true, ch, len: c, lang, body: seq![], start: i + 1 },
            ),
            None => fence_scan(ls, i + 1, st),
        }
    }
}

/// The fenced blocks of a markdown text: every block opened by three or more
/// backticks or tildes (indented at most three bytes) and closed by a line
/// of at least as many of the same character. An unclosed block is dropped.
pub open spec fn fenced_blocks(markdown: Seq<char>) -> Seq<FenceBlock> {
    fence_scan(
        lines(markdown),
        0,
        FenceState { open: false, ch: '`', len: 0, lang: None, body: seq![], start: 0 },
    )
}

/// `closes_fence` in exec form.
fn closes_fence_exec(line: &[char], ch: char, len: usize) -> (r: bool)
    ensures
        r == closes_fence(line@, ch, len as int),
{
    let a = skip_ws_exec(line, 0, line.len());
    proof {
        lemma_skip_ws_bounds(line@, 0, line@.len() as int);
    }
    let mut t: Vec<char> = Vec::new();
    extend_range(&mut t, line, a, line.len());
    proof {
        assert(t@ =~= trim_start(line@));
    }
    let c = run_len_exec(&t, 0, ch);
    if !indent_bytes_at_most(line, 3) {
        return false;
    }
    if c < len {
        return false;
    }
    let (x, y) = trim_bounds(&t, c, t.len());
    x == y
}

/// `fence_opener` in exec form.
fn fence_opener_exec(line: &[char]) -> (r: Option<(char, usize, Option<Vec<char>>)>)
    ensures
        match r {
            None => fence_opener(line@) is None,
            Some((ch, c, lang)) => fence_opener(line@) == Some(
                (ch, c as int, opt_vec_view(lang)),
            ),
        },
{
    let a = skip_ws_exec(line, 0, line.len());
    proof {
        lemma_skip_ws_bounds(line@, 0, line@.len() as int);
    }
    let mut t: Vec<char> = Vec::new();
    extend_range(&mut t, line, a, line.len());
    proof {
        assert(t@ =~= trim_start(line@));
    }
    if !indent_bytes_at_most(line, 3) {
        return None;
    }
    let bt = ['`', '`', '`'];
    let tl = ['~', '~', '~'];
    let opens = matches_at(&t, 0, &bt) || matches_at(&t, 0, &tl);
    proof {
        assert(bt@ =~= seq!['`', '`', '`']);
        assert(tl@ =~= seq!['~', '~', '~']);
    }
    if !opens {
        return None;
    }
    let ch = t[0];
    let c = run_len_exec(&t, 0, ch);
    let (x, y) = trim_bounds(&t, c, t.len());
    let mut tag: Vec<char> = Vec::new();
    extend_range(&mut tag, &t, x, y);
    let stops = [',', ' ', '\t'];
    let cut = find_any_exec(&tag, 0, &stops);
    proof {
        assert(stops@ =~= seq![',', ' ', '\t']);
    }
    let mut first: Vec<char> = Vec::new();
    extend_range(&mut first, &tag, 0, cut);
    if first.len() == 0 {
        Some((ch, c, None))
    } else {
        Some((ch, c, Some(first)))
    }
}

/// Extracts all fenced code blocks (delimited by 3+ backticks or 3+ tildes) from markdown text.
pub fn extract_fenced_code_blocks(markdown: &str) -> (r: Vec<FencedCodeBlock>)
    ensures
        r@.map_values(|b: FencedCodeBlock| b.view()) == fenced_blocks(markdown@),
{
    let text = chars_of(markdown);
    let ls = split_lines(&text);
    let mut blocks: Vec<FencedCodeBlock> = Vec::new();
    let mut open = false;
    let mut fence_ch = '`';
    let mut fence_len: usize = 0;
    let mut lang: Option<Vec<char>> = None;
    let mut body: Vec<Vec<char>> = Vec::new();
    let mut start: usize = 0;
    let ghost init = FenceState { open: false, ch: '`', len: 0, lang: None, body: seq![], start: 0 };
    let mut i: usize = 0;
    proof {
        assert(views(body@) =~= Seq::<Seq<char>>::empty());
        assert(blocks@.map_values(|b: FencedCodeBlock| b.view()) =~= Seq::<FenceBlock>::empty());
    }
    while i < ls.len()
        invariant
            i <= ls.len(),
            views(ls@) == lines(markdown@),
            start <= i,
            blocks@.map_values(|b: FencedCodeBlock| b.view()) + fence_scan(
                views(ls@),
                i as int,
                FenceState {
                    open,
                    ch: fence_ch,
                    len: fence_len as int,
                    lang: opt_vec_view(lang),
                    body: views(body@),
                    start: start as int,
                },
            ) == fence_scan(views(ls@), 0, init),
        decreases ls.len() - i,
    {
        let line = &ls[i];
        let ghost st = FenceState {
            open,
            ch: fence_ch,
            len: fence_len as int,
            lang: opt_vec_view(lang),
            body: views(body@),
            start: start as int,
        };
        let ghost before = blocks@.map_values(|b: FencedCodeBlock| b.view());
        proof {
            assert(views(ls@)[i as int] == ls@[i as int]@);
        }
        if open {
            if closes_fence_exec(line, fence_ch, fence_len) {
                let code = join_lines(&body, &['\n']);
                proof {
                    assert(['\n']@ =~= seq!['\n']);
                }
                let language = match lang {
                    Some(l) => Some(string_of(&l)),
                    None => None,
                };
                let b = FencedCodeBlock { language, code: string_of(&code), start_line: start };
                proof {
                    assert(b.view().language == st.lang);
                    assert(blocks@.push(b).map_values(|b: FencedCodeBlock| b.view()) =~= before.push(b.view()));
                    assert(before + fence_scan(views(ls@), i as int, st) =~= before.push(b.view())
                        + fence_scan(views(ls@), i + 1, FenceState { open: false, lang: None, ..st }));
                }
                blocks.push(b);
                open = false;
                lang = None;
            } else {
                proof {
                    assert(views(body@.push(ls@[i as int])) =~= views(body@).push(ls@[i as int]@));
                }
                let mut copy: Vec<char> = Vec::new();
                extend_all(&mut copy, line);
                body.push(copy);
                proof {
                    assert(views(body@) =~= st.body.push(views(ls@)[i as int]));
                    assert(fence_scan(views(ls@), i as int, st) == fence_scan(
                        views(ls@),
                        i + 1,
                        FenceState { body: st.body.push(views(ls@)[i as int]), ..st },
                    ));
                }
            }
        } else {
            match fence_opener_exec(line) {
                Some((ch, c, l)) => {
                    open = true;
                    fence_ch = ch;
                    fence_len = c;
                    lang = l;
                    body = Vec::new();
                    start = i + 1;
                    proof {
                        assert(views(body@) =~= Seq::<Seq<char>>::empty());
                    }
                },
                None => {
                    proof {
                        assert(fence_scan(views(ls@), i as int, st) == fence_scan(
                            views(ls@),
                            i + 1,
                            st,
                        ));
                    }
                },
            }
        }
        i += 1;
    }
    blocks
}


/// A syntax diagnostic produced by static parsing.
#[derive(Debug, Clone, PartialEq, Eq)]
pub struct SyntaxError {
    /// The language that was being parsed.
    pub language: String,
    /// Human-readable error description.
    pub message: String,
    /// 1-based line number if available.
    pub line: Option<usize>,
    /// 1-based column number if available.
    pub column: Option<usize>,
}

/// What the Bash balance scan concludes.
pub enum BashVerdict {
    Valid,
    UnexpectedParen(int, int),
    UnexpectedBrace(int, int),
    UnclosedQuote(char),
    UnclosedParen,
    UnclosedBrace,
}

/// The state of the Bash scan.
pub struct BashState {
    pub quote: Option<char>,
    pub escaped: bool,
    pub paren: int,
    pub brace: int,
    pub prev: Option<char>,
    pub line: int,
    pub col: int,
    pub comment: bool,
}

/// Whether a `#` after `prev` starts a comment.
pub open spec fn comment_may_start(prev: Option<char>) -> bool {
    prev is None || prev == Some(' ') || prev == Some('\t') || prev == Some(';') || prev == Some(
        '&',
    ) || prev == Some('|')
}

/// The verdict once the whole source has been read.
pub open spec fn bash_end(st: BashState) -> BashVerdict {
    match st.quote {
        Some(q) => BashVerdict::UnclosedQuote(q),
        None => if st.paren > 0 {
            BashVerdict::UnclosedParen
        } else if st.brace > 0 {
            BashVerdict::UnclosedBrace
        } else {
            BashVerdict::Valid
        },
    }
}

/// The Bash scan from character `i` on. The source is read line by line as
/// `str::lines` splits it: a newline resets the per-line state (the previous
/// character, the column, an open comment) while quotes and escapes carry
/// over; a `'\r'` just before a newline is not part of any line.
pub open spec fn bash_scan(s: Seq<char>, i: int, st: BashState) -> BashVerdict
    decreases s.len() - i,
{
    if i < 0 || i >= s.len() {
        bash_end(st)
    } else {
        let c = s[i];
        if c == '\n' {
            bash_scan(s, i + 1, BashState { prev: None, col: 0, line: st.line + 1, comment: false, ..st })
        } else if c == '\r' && i + 1 < s.len() && s[i + 1] == '\n' {
            bash_scan(s, i + 1, st)
        } else if st.comment {
            bash_scan(s, i + 1, st)
        } else if st.quote is None && comment_may_start(st.prev) && c == '#' {
            bash_scan(s, i + 1, BashState { comment: true, ..st })
        } else {
            let st1 = BashState { col: st.col + 1, ..st };
            if st1.quote == Some('\'') {
                bash_scan(s, i + 1, BashState { quote: if c == '\'' { None } else { st1.quote }, prev: Some(c), ..st1 })
            } else if st1.escaped {
                bash_scan(s, i + 1, BashState { escaped: false, prev: Some(c), ..st1 })
            } else if c == '\\' {
                bash_scan(s, i + 1, BashState { escaped: true, prev: Some(c), ..st1 })
            } else if st1.quote is Some {
                bash_scan(s, i + 1, BashState { quote: if Some(c) == st1.quote { None } else { st1.quote }, prev: Some(c), ..st1 })
            } else if c == '\'' || c == '"' || c == '`' {
                bash_scan(s, i + 1, BashState { quote: Some(c), prev: Some(c), ..st1 })
            } else if c == '(' {
                bash_scan(s, i + 1, BashState { paren: st1.paren + 1, prev: Some(c), ..st1 })
            } else if c == ')' {
                if st1.paren == 0 {
                    BashVerdict::UnexpectedParen(st1.line + 1, st1.col)
                } else {
                    bash_scan(s, i + 1, BashState { paren: st1.paren - 1, prev: Some(c), ..st1 })
                }
            } else if c == '{' {
                bash_scan(s, i + 1, BashState { brace: st1.brace + 1, prev: Some(c), ..st1 })
            } else if c == '}' {
                if st1.brace == 0 {
                    BashVerdict::UnexpectedBrace(st1.line + 1, st1.col)
                } else {
                    bash_scan(s, i + 1, BashState { brace: st1.brace - 1, prev: Some(c), ..st1 })
                }
            } else {
                bash_scan(s, i + 1, BashState { prev: Some(c), ..st1 })
            }
        }
    }
}

/// The verdict of the Bash balance scan on a whole source.
pub open spec fn bash_verdict(s: Seq<char>) -> BashVerdict {
    bash_scan(
        s,
        0,
        BashState {
            quote: None,
            escaped: false,
            paren: 0,
            brace: 0,
            prev: None,
            line: 0,
            col: 0,
            comment: false,
        },
    )
}

/// The view of an error: language, message, line, column.
pub open spec fn error_view(e: SyntaxError) -> (Seq<char>, Seq<char>, Option<usize>, Option<usize>) {
    (e.language@, e.message@, e.line, e.column)
}

/// How a Bash verdict is reported.
pub open spec fn bash_report(v: BashVerdict) -> Option<(Seq<char>, Seq<char>, Option<int>, Option<int>)> {
    match v {
        BashVerdict::Valid => None,
        BashVerdict::UnexpectedParen(l, c) => Some(("bash"@, "unexpected closing parenthesis ')'"@, Some(l), Some(c))),
        BashVerdict::UnexpectedBrace(l, c) => Some(("bash"@, "unexpected closing brace '}'"@, Some(l), Some(c))),
        BashVerdict::UnclosedQuote(q) => Some(("bash"@, "unclosed quote `"@.push(q).push('`'), None, None)),
        BashVerdict::UnclosedParen => Some(("bash"@, "unclosed parenthesis '('"@, None, None)),
        BashVerdict::UnclosedBrace => Some(("bash"@, "unclosed brace '{'"@, None, None)),
    }
}

/// An optional `usize` as an optional integer.
pub open spec fn opt_int(o: Option<usize>) -> Option<int> {
    match o {
        Some(x) => Some(x as int),
        None => None,
    }
}

/// Whether `r` reports exactly `expected` (`None` meaning success).
pub open spec fn reports(
    r: Result<(), SyntaxError>,
    expected: Option<(Seq<char>, Seq<char>, Option<int>, Option<int>)>,
) -> bool {
    match r {
        Ok(()) => expected is None,
        Err(e) => expected == Some((e.language@, e.message@, opt_int(e.line), opt_int(e.column))),
    }
}

fn bash_error(message: String, line: Option<usize>, column: Option<usize>) -> (e: SyntaxError)
    ensures
        e.language@ == "bash"@,
        e.message@ == message@,
        e.line == line,
        e.column == column,
{
    SyntaxError { language: "bash".to_string(), message, line, column }
}

/// Checks that quotes, parentheses, and braces balance in a shell script,
/// skipping `#` comments and honoring backslash escapes.
pub fn check_bash(source: &str) -> (r: Result<(), SyntaxError>)
    ensures
        reports(r, bash_report(bash_verdict(source@))),
{
    let s = chars_of(source);
    let mut quote: Option<char> = None;
    let mut escaped = false;
    let mut paren: usize = 0;
    let mut brace: usize = 0;
    let mut prev: Option<char> = None;
    let mut line: usize = 0;
    let mut col: usize = 0;
    let mut comment = false;
    let mut i: usize = 0;
    while i < s.len()
        invariant
            i <= s.len(),
            s@ == source@,
            paren <= i,
            brace <= i,
            line <= i,
            col <= i,
            bash_scan(
                s@,
                i as int,
                BashState {
                    quote,
                    escaped,
                    paren: paren as int,
                    brace: brace as int,
                    prev,
                    line: line as int,
                    col: col as int,
                    comment,
                },
            ) == bash_verdict(source@),
        decreases s.len() - i,
    {
        let c = s[i];
        if c == '\n' {
            prev = None;
            col = 0;
            line += 1;
            comment = false;
        } else if c == '\r' && i + 1 < s.len() && s[i + 1] == '\n' {
        } else if comment {
        } else if quote.is_none() && (prev.is_none() || prev == Some(' ') || prev == Some('\t')
            || prev == Some(';') || prev == Some('&') || prev == Some('|')) && c == '#' {
            comment = true;
        } else {
            col += 1;
            if quote == Some('\'') {
                if c == '\'' {
                    quote = None;
                }
            } else if escaped {
                escaped = false;
            } else if c == '\\' {
                escaped = true;
            } else if quote.is_some() {
                if Some(c) == quote {
                    quote = None;
                }
            } else if c == '\'' || c == '"' || c == '`' {
                quote = Some(c);
            } else if c == '(' {
                paren += 1;
            } else if c == ')' {
                if paren == 0 {
                    return Err(
                        bash_error(
                            "unexpected closing parenthesis ')'".to_string(),
                            Some(line + 1),
                            Some(col),
                        ),
                    );
                }
                paren -= 1;
            } else if c == '{' {
                brace += 1;
            } else if c == '}' {
                if brace == 0 {
                    return Err(
                        bash_error(
                            "unexpected closing brace '}'".to_string(),
                            Some(line + 1),
                            Some(col),
                        ),
                    );
                }
                brace -= 1;
            }
            prev = Some(c);
        }
        i += 1;
    }
    match quote {
        Some(q) => {
            let mut m = "unclosed quote `".to_string();
            m.push(q);
            m.push('`');
            Err(bash_error(m, None, None))
        },
        None => {
            if paren > 0 {
                Err(bash_error("unclosed parenthesis '('".to_string(), None, None))
            } else if brace > 0 {
                Err(bash_error("unclosed brace '{'".to_string(), None, None))
            } else {
                Ok(())
            }
        },
    }
}


/// How many whole characters of `s`, from `k` on, fit within `b` bytes:
/// the prefix that ends at `str::floor_char_boundary(b)`.
pub open spec fn fit_chars(s: Seq<char>, b: int, k: int) -> int
    decreases s.len() - k,
{
    if 0 <= k < s.len() && byte_len(s.subrange(0, k + 1)) <= b {
        fit_chars(s, b, k + 1)
    } else {
        k
    }
}

/// Newlines in `s`.
pub open spec fn count_nl(s: Seq<char>) -> int
    decreases s.len(),
{
    if s.len() == 0 {
        0
    } else {
        count_nl(s.drop_last()) + if s.last() == '\n' { 1int } else { 0int }
    }
}

/// Characters after the last newline of `s`.
pub open spec fn tail_len(s: Seq<char>) -> int
    decreases s.len(),
{
    if s.len() == 0 {
        0
    } else if s.last() == '\n' {
        0
    } else {
        tail_len(s.drop_last()) + 1
    }
}

/// `x`, saturated at `usize::MAX`.
pub open spec fn sat(x: int) -> int {
    if x > usize::MAX {
        usize::MAX as int
    } else {
        x
    }
}

/// The 1-based line and column of byte offset `off` in `s`, the offset first
/// moved down to a character boundary.
pub open spec fn line_col(s: Seq<char>, off: int) -> (int, int) {
    let p = s.subrange(0, fit_chars(s, off, 0));
    (sat(count_nl(p) + 1), sat(tail_len(p) + 1))
}

/// The line and column of a byte offset into `source`.
pub fn offset_to_line_col(source: &str, offset: usize) -> (r: (Option<usize>, Option<usize>))
    ensures
        opt_int(r.0) == Some(line_col(source@, offset as int).0),
        opt_int(r.1) == Some(line_col(source@, offset as int).1),
{
    let s = chars_of(source);
    let mut k: usize = 0;
    let mut bytes: usize = 0;
    let mut nl: usize = 0;
    let mut tail: usize = 0;
    while k < s.len()
        invariant
            k <= s.len(),
            s@ == source@,
            bytes == byte_len(s@.subrange(0, k as int)),
            bytes <= offset,
            nl == count_nl(s@.subrange(0, k as int)),
            tail == tail_len(s@.subrange(0, k as int)),
            nl <= k,
            tail <= k,
            fit_chars(s@, offset as int, k as int) == fit_chars(s@, offset as int, 0),
        ensures
            fit_chars(s@, offset as int, k as int) == k,
        decreases s.len() - k,
    {
        let w = utf8_len_exec(s[k]);
        proof {
            let p = s@.subrange(0, k + 1);
            assert(p.drop_last() =~= s@.subrange(0, k as int));
            assert(p.last() == s@[k as int]);
        }
        if w > offset - bytes {
            proof {
                assert(fit_chars(s@, offset as int, k as int) == k);
            }
            break;
        }
        bytes = bytes + w;
        if s[k] == '\n' {
            nl += 1;
            tail = 0;
        } else {
            tail += 1;
        }
        k += 1;
    }
    let line = if nl < usize::MAX { nl + 1 } else { nl };
    let col = if tail < usize::MAX { tail + 1 } else { tail };
    (Some(line), Some(col))
}

/// A name for what `rustpython_parser::parse` reports on a module source:
/// `None` when it parses, else the error's byte offset and message.
pub uninterp spec fn python_parse(source: Seq<char>) -> Option<(usize, Seq<char>)>;

/// Calls `rustpython_parser::parse` in module mode. The result is the
/// error's byte offset and its `Display` text, or `None` on success; what the
/// parser accepts is not stated.
#[verifier::external_body]
fn rustpython_parse(source: &str) -> (r: Option<(usize, String)>)
    ensures
        match r {
            None => python_parse(source@) is None,
            Some((o, m)) => python_parse(source@) == Some((o, m@)),
        },
{
    match rustpython_parser::parse(source, rustpython_parser::Mode::Module, "<computation>") {
        Ok(_) => None,
        Err(err) => Some((err.offset.to_usize(), err.error.to_string())),
    }
}

/// A name for the first diagnostic `oxc_parser` reports on a module source
/// (TypeScript or JavaScript, JSX enabled): `None` when there is none, else
/// the byte offset of its first label (if any) and its message.
pub uninterp spec fn oxc_parse(source: Seq<char>, typescript: bool) -> Option<(Option<usize>, Seq<char>)>;

/// Runs `oxc_parser::Parser::parse` and returns its first diagnostic's first
/// label offset and message. What the parser accepts is not stated.
#[verifier::external_body]
fn oxc_first_diagnostic(source: &str, typescript: bool) -> (r: Option<(Option<usize>, String)>)
    ensures
        match r {
            None => oxc_parse(source@, typescript) is None,
            Some((o, m)) => oxc_parse(source@, typescript) == Some((o, m@)),
        },
{
    let allocator = oxc_allocator::Allocator::default();
    let source_type = oxc_span::SourceType::default().with_module(true).with_typescript(typescript).with_jsx(true);
    let ret = oxc_parser::Parser::new(&allocator, source, source_type).parse();
    match ret.diagnostics.first() {
        None => None,
        Some(d) => Some((match d.labels.first() {
            None => None,
            Some(l) => Some(usize::try_from(l.offset()).unwrap_or(0)),
        }, d.to_string())),
    }
}

/// A name for what `syn::parse_file` reports: `None` when the text parses
/// as a Rust file, else the error's message.
pub uninterp spec fn syn_file(source: Seq<char>) -> Option<Seq<char>>;

/// Calls `syn::parse_file`. What it accepts is not stated.
#[verifier::external_body]
fn syn_parse_file(source: &str) -> (r: Option<String>)
    ensures
        match r {
            None => syn_file(source@) is None,
            Some(m) => syn_file(source@) == Some(m@),
        },
{
    match syn::parse_file(source) {
        Ok(_) => None,
        Err(err) => Some(err.to_string()),
    }
}

/// A name for whether `syn::parse_str::<syn::Item>` accepts a text.
pub uninterp spec fn syn_item(source: Seq<char>) -> bool;

/// Calls `syn::parse_str::<syn::Item>`. What it accepts is not stated.
#[verifier::external_body]
fn syn_parse_item(source: &str) -> (r: bool)
    ensures
        r == syn_item(source@),
{
    syn::parse_str::<syn::Item>(source).is_ok()
}

/// A name for what `sqlparser::parser::Parser::parse_sql` (generic dialect)
/// reports: `None` when the text parses, else the error's message.
pub uninterp spec fn sql_parse(source: Seq<char>) -> Option<Seq<char>>;

/// Calls `sqlparser::parser::Parser::parse_sql` with the generic dialect.
/// What it accepts is not stated.
#[verifier::external_body]
fn sqlparser_parse(source: &str) -> (r: Option<String>)
    ensures
        match r {
            None => sql_parse(source@) is None,
            Some(m) => sql_parse(source@) == Some(m@),
        },
{
    let dialect = sqlparser::dialect::GenericDialect {};
    match sqlparser::parser::Parser::parse_sql(&dialect, source) {
        Ok(_) => None,
        Err(err) => Some(err.to_string()),
    }
}

/// A name for what `serde_json::from_str::<serde_json::Value>` reports:
/// `None` when the text is JSON, else the error's line, column and message.
pub uninterp spec fn json_parse(source: Seq<char>) -> Option<(usize, usize, Seq<char>)>;

/// Calls `serde_json::from_str::<serde_json::Value>`. What it accepts is
/// not stated.
#[verifier::external_body]
fn serde_json_parse(source: &str) -> (r: Option<(usize, usize, String)>)
    ensures
        match r {
            None => json_parse(source@) is None,
            Some((l, c, m)) => json_parse(source@) == Some((l, c, m@)),
        },
{
    match serde_json::from_str::<serde_json::Value>(source) {
        Ok(_) => None,
        Err(err) => Some((err.line(), err.column(), err.to_string())),
    }
}

fn syntax_error(language: &str, message: String, line: Option<usize>, column: Option<usize>) -> (e: SyntaxError)
    ensures
        e.language@ == language@,
        e.message@ == message@,
        e.line == line,
        e.column == column,
{
    SyntaxError { language: language.to_string(), message, line, column }
}

/// The report for a Python source.
pub open spec fn python_report(s: Seq<char>) -> Option<(Seq<char>, Seq<char>, Option<int>, Option<int>)> {
    match python_parse(s) {
        None => None,
        Some((o, m)) => Some(("python"@, m, Some(line_col(s, o as int).0), Some(line_col(s, o as int).1))),
    }
}

/// Checks a Python module.
pub fn check_python(source: &str) -> (r: Result<(), SyntaxError>)
    ensures
        reports(r, python_report(source@)),
{
    match rustpython_parse(source) {
        None => Ok(()),
        Some((off, msg)) => {
            let (line, column) = offset_to_line_col(source, off);
            Err(syntax_error("python", msg, line, column))
        },
    }
}

/// The report for a JavaScript or TypeScript source.
pub open spec fn js_report(s: Seq<char>, typescript: bool) -> Option<(Seq<char>, Seq<char>, Option<int>, Option<int>)> {
    let lang = if typescript { "typescript"@ } else { "javascript"@ };
    match oxc_parse(s, typescript) {
        None => None,
        Some((None, m)) => Some((lang, m, None, None)),
        Some((Some(o), m)) => Some((lang, m, Some(line_col(s, o as int).0), Some(line_col(s, o as int).1))),
    }
}

/// Checks a JavaScript (or, with `typescript`, TypeScript) module.
pub fn check_javascript(source: &str, typescript: bool) -> (r: Result<(), SyntaxError>)
    ensures
        reports(r, js_report(source@, typescript)),
{
    match oxc_first_diagnostic(source, typescript) {
        None => Ok(()),
        Some((label, msg)) => {
            let (line, column) = match label {
                None => (None, None),
                Some(off) => offset_to_line_col(source, off),
            };
            let lang = if typescript { "typescript" } else { "javascript" };
            Err(syntax_error(lang, msg, line, column))
        },
    }
}

/// A Rust snippet wrapped in a function body, so statements parse too.
pub open spec fn rust_wrapped(s: Seq<char>) -> Seq<char> {
    "fn __okf_snippet_check__() {\n"@ + s + "\n}"@
}

/// The report for a Rust source: accepted as a file, as statements inside a
/// function body, or as a single item.
pub open spec fn rust_report(s: Seq<char>) -> Option<(Seq<char>, Seq<char>, Option<int>, Option<int>)> {
    if syn_file(s) is None || syn_file(rust_wrapped(s)) is None || syn_item(s) {
        None
    } else {
        Some(("rust"@, syn_file(s)->0, None, None))
    }
}

/// Checks a Rust source file or snippet.
pub fn check_rust(source: &str) -> (r: Result<(), SyntaxError>)
    ensures
        reports(r, rust_report(source@)),
{
    if syn_parse_file(source).is_none() {
        return Ok(());
    }
    let mut wrapped = "fn __okf_snippet_check__() {\n".to_string();
    let body = chars_of(source);
    let mut i: usize = 0;
    while i < body.len()
        invariant
            i <= body.len(),
            body@ == source@,
            wrapped@ == "fn __okf_snippet_check__() {\n"@ + body@.subrange(0, i as int),
        decreases body.len() - i,
    {
        wrapped.push(body[i]);
        i += 1;
        proof {
            assert(wrapped@ =~= "fn __okf_snippet_check__() {\n"@ + body@.subrange(0, i as int));
        }
    }
    wrapped.push('\n');
    wrapped.push('}');
    proof {
        reveal_strlit("\n}");
        assert(body@.subrange(0, body@.len() as int) =~= body@);
        assert(wrapped@ =~= rust_wrapped(source@));
    }
    if syn_parse_file(wrapped.as_str()).is_none() {
        return Ok(());
    }
    if syn_parse_item(source) {
        return Ok(());
    }
    match syn_parse_file(source) {
        None => Ok(()),
        Some(msg) => Err(syntax_error("rust", msg, None, None)),
    }
}

/// The report for a SQL source.
pub open spec fn sql_report(s: Seq<char>) -> Option<(Seq<char>, Seq<char>, Option<int>, Option<int>)> {
    match sql_parse(s) {
        None => None,
        Some(m) => Some(("sql"@, m, None, None)),
    }
}

/// Checks SQL statements (generic dialect).
pub fn check_sql(source: &str) -> (r: Result<(), SyntaxError>)
    ensures
        reports(r, sql_report(source@)),
{
    match sqlparser_parse(source) {
        None => Ok(()),
        Some(msg) => Err(syntax_error("sql", msg, None, None)),
    }
}

/// The report for a JSON source.
pub open spec fn json_report(s: Seq<char>) -> Option<(Seq<char>, Seq<char>, Option<int>, Option<int>)> {
    match json_parse(s) {
        None => None,
        Some((l, c, m)) => Some(("json"@, m, Some(l as int), Some(c as int))),
    }
}

/// Checks a JSON document.
pub fn check_json(source: &str) -> (r: Result<(), SyntaxError>)
    ensures
        reports(r, json_report(source@)),
{
    match serde_json_parse(source) {
        None => Ok(()),
        Some((line, column, msg)) => Err(syntax_error("json", msg, Some(line), Some(column))),
    }
}


/// The report for a YAML document: the parser's error, without position.
pub open spec fn yaml_report(s: Seq<char>) -> Option<(Seq<char>, Seq<char>, Option<int>, Option<int>)> {
    match crate::yaml_block::parse_spec(s) {
        Ok(_) => None,
        Err((line, m)) => Some(("yaml"@, crate::yaml::yaml_error_text(line, m), None, None)),
    }
}

/// Checks a YAML document with the frontmatter parser.
pub fn check_yaml(source: &str) -> (r: Result<(), SyntaxError>)
    requires
        source@.len() <= usize::MAX / 8,
    ensures
        reports(r, yaml_report(source@)),
{
    match crate::yaml::Value::parse(source) {
        Ok(_) => Ok(()),
        Err(e) => Err(syntax_error("yaml", e.to_string(), None, None)),
    }
}

/// The report `check_syntax` gives for a language tag and source.
pub open spec fn syntax_report(tag: Seq<char>, s: Seq<char>) -> Option<(Seq<char>, Seq<char>, Option<int>, Option<int>)> {
    match language_of_key(tag_key(tag)) {
        Language::Python => python_report(s),
        Language::JavaScript => js_report(s, false),
        Language::TypeScript => js_report(s, true),
        Language::Rust => rust_report(s),
        Language::Sql => sql_report(s),
        Language::Json => json_report(s),
        Language::Yaml => yaml_report(s),
        Language::Bash => bash_report(bash_verdict(s)),
        Language::Unknown => None,
    }
}

/// Checks `source` as the language its tag names; an unknown tag is
/// accepted unchecked.
pub fn check_syntax(language_tag: &str, source: &str) -> (r: Result<(), SyntaxError>)
    requires
        source@.len() <= usize::MAX / 8,
    ensures
        reports(r, syntax_report(language_tag@, source@)),
{
    match Language::from_tag(language_tag) {
        Language::Python => check_python(source),
        Language::JavaScript => check_javascript(source, false),
        Language::TypeScript => check_javascript(source, true),
        Language::Rust => check_rust(source),
        Language::Sql => check_sql(source),
        Language::Json => check_json(source),
        Language::Yaml => check_yaml(source),
        Language::Bash => check_bash(source),
        Language::Unknown => Ok(()),
    }
}

impl std::str::FromStr for Language {
    type Err = std::convert::Infallible;

    fn from_str(s: &str) -> Result<Language, std::convert::Infallible> {
        Ok(Language::from_tag(s))
    }
}

/// The shell tags `sh`, `bash`, `zsh` and `shell` all name Bash: a block
/// under any of them is checked as Bash, and any two of them give the same
/// report for the same source.
pub proof fn lemma_shell_tags_are_bash(t1: Seq<char>, t2: Seq<char>, s: Seq<char>)
    requires
        tag_key(t1) == "sh"@ || tag_key(t1) == "bash"@ || tag_key(t1) == "zsh"@ || tag_key(t1) == "shell"@,
        tag_key(t2) == "sh"@ || tag_key(t2) == "bash"@ || tag_key(t2) == "zsh"@ || tag_key(t2) == "shell"@,
    ensures
        language_of_key(tag_key(t1)) == Language::Bash,
        syntax_report(t1, s) == bash_report(bash_verdict(s)),
        syntax_report(t1, s) == syntax_report(t2, s),
{
    lemma_shell_key_is_bash(tag_key(t1));
    lemma_shell_key_is_bash(tag_key(t2));
}

proof fn lemma_shell_key_is_bash(k: Seq<char>)
    requires
        k == "sh"@ || k == "bash"@ || k == "zsh"@ || k == "shell"@,
    ensures
        language_of_key(k) == Language::Bash,
{
    reveal_strlit("sh");
    reveal_strlit("bash");
    reveal_strlit("zsh");
    reveal_strlit("shell");
    reveal_strlit("py");
    reveal_strlit("python");
    reveal_strlit("python3");
    reveal_strlit("js");
    reveal_strlit("javascript");
    reveal_strlit("node");
    reveal_strlit("nodejs");
    reveal_strlit("mjs");
    reveal_strlit("cjs");
    reveal_strlit("ts");
    reveal_strlit("typescript");
    reveal_strlit("deno");
    reveal_strlit("bun");
    reveal_strlit("mts");
    reveal_strlit("cts");
    reveal_strlit("tsx");
    reveal_strlit("jsx");
    reveal_strlit("rs");
    reveal_strlit("rust");
    reveal_strlit("sql");
    reveal_strlit("json");
    reveal_strlit("yaml");
    reveal_strlit("yml");
    if k == "sh"@ {
        assert(k != "py"@) by { if k == "py"@ { assert(k[0] == "sh"@[0]); assert(k[0] == "py"@[0]); } }
        assert(k != "python"@) by { if k == "python"@ { assert(k.len() == 2); } }
        assert(k != "python3"@) by { if k == "python3"@ { assert(k.len() == 2); } }
        assert(k != "js"@) by { if k == "js"@ { assert(k[0] == "sh"@[0]); assert(k[0] == "js"@[0]); } }
        assert(k != "javascript"@) by { if k == "javascript"@ { assert(k.len() == 2); } }
        assert(k != "node"@) by { if k == "node"@ { assert(k.len() == 2); } }
        assert(k != "nodejs"@) by { if k == "nodejs"@ { assert(k.len() == 2); } }
        assert(k != "mjs"@) by { if k == "mjs"@ { assert(k.len() == 2); } }
        assert(k != "cjs"@) by { if k == "cjs"@ { assert(k.len() == 2); } }
        assert(k != "ts"@) by { if k == "ts"@ { assert(k[0] == "sh"@[0]); assert(k[0] == "ts"@[0]); } }
        assert(k != "typescript"@) by { if k == "typescript"@ { assert(k.len() == 2); } }
        assert(k != "deno"@) by { if k == "deno"@ { assert(k.len() == 2); } }
        assert(k != "bun"@) by { if k == "bun"@ { assert(k.len() == 2); } }
        assert(k != "mts"@) by { if k == "mts"@ { assert(k.len() == 2); } }
        assert(k != "cts"@) by { if k == "cts"@ { assert(k.len() == 2); } }
        assert(k != "tsx"@) by { if k == "tsx"@ { assert(k.len() == 2); } }
        assert(k != "jsx"@) by { if k == "jsx"@ { assert(k.len() == 2); } }
        assert(k != "rs"@) by { if k == "rs"@ { assert(k[0] == "sh"@[0]); assert(k[0] == "rs"@[0]); } }
        assert(k != "rust"@) by { if k == "rust"@ { assert(k.len() == 2); } }
        assert(k != "sql"@) by { if k == "sql"@ { assert(k.len() == 2); } }
        assert(k != "json"@) by { if k == "json"@ { assert(k.len() == 2); } }
        assert(k != "yaml"@) by { if k == "yaml"@ { assert(k.len() == 2); } }
        assert(k != "yml"@) by { if k == "yml"@ { assert(k.len() == 2); } }
    }
    if k == "bash"@ {
        assert(k != "py"@) by { if k == "py"@ { assert(k.len() == 4); } }
        assert(k != "python"@) by { if k == "python"@ { assert(k.len() == 4); } }
        assert(k != "python3"@) by { if k == "python3"@ { assert(k.len() == 4); } }
        assert(k != "js"@) by { if k == "js"@ { assert(k.len() == 4); } }
        assert(k != "javascript"@) by { if k == "javascript"@ { assert(k.len() == 4); } }
        assert(k != "node"@) by { if k == "node"@ { assert(k[0] == "bash"@[0]); assert(k[0] == "node"@[0]); } }
        assert(k != "nodejs"@) by { if k == "nodejs"@ { assert(k.len() == 4); } }
        assert(k != "mjs"@) by { if k == "mjs"@ { assert(k.len() == 4); } }
        assert(k != "cjs"@) by { if k == "cjs"@ { assert(k.len() == 4); } }
        assert(k != "ts"@) by { if k == "ts"@ { assert(k.len() == 4); } }
        assert(k != "typescript"@) by { if k == "typescript"@ { assert(k.len() == 4); } }
        assert(k != "deno"@) by { if k == "deno"@ { assert(k[0] == "bash"@[0]); assert(k[0] == "deno"@[0]); } }
        assert(k != "bun"@) by { if k == "bun"@ { assert(k.len() == 4); } }
        assert(k != "mts"@) by { if k == "mts"@ { assert(k.len() == 4); } }
        assert(k != "cts"@) by { if k == "cts"@ { assert(k.len() == 4); } }
        assert(k != "tsx"@) by { if k == "tsx"@ { assert(k.len() == 4); } }
        assert(k != "jsx"@) by { if k == "jsx"@ { assert(k.len() == 4); } }
        assert(k != "rs"@) by { if k == "rs"@ { assert(k.len() == 4); } }
        assert(k != "rust"@) by { if k == "rust"@ { assert(k[0] == "bash"@[0]); assert(k[0] == "rust"@[0]); } }
        assert(k != "sql"@) by { if k == "sql"@ { assert(k.len() == 4); } }
        assert(k != "json"@) by { if k == "json"@ { assert(k[0] == "bash"@[0]); assert(k[0] == "json"@[0]); } }
        assert(k != "yaml"@) by { if k == "yaml"@ { assert(k[0] == "bash"@[0]); assert(k[0] == "yaml"@[0]); } }
        assert(k != "yml"@) by { if k == "yml"@ { assert(k.len() == 4); } }
    }
    if k == "zsh"@ {
        assert(k != "py"@) by { if k == "py"@ { assert(k.len() == 3); } }
        assert(k != "python"@) by { if k == "python"@ { assert(k.len() == 3); } }
        assert(k != "python3"@) by { if k == "python3"@ { assert(k.len() == 3); } }
        assert(k != "js"@) by { if k == "js"@ { assert(k.len() == 3); } }
        assert(k != "javascript"@) by { if k == "javascript"@ { assert(k.len() == 3); } }
        assert(k != "node"@) by { if k == "node"@ { assert(k.len() == 3); } }
        assert(k != "nodejs"@) by { if k == "nodejs"@ { assert(k.len() == 3); } }
        assert(k != "mjs"@) by { if k == "mjs"@ { assert(k[0] == "zsh"@[0]); assert(k[0] == "mjs"@[0]); } }
        assert(k != "cjs"@) by { if k == "cjs"@ { assert(k[0] == "zsh"@[0]); assert(k[0] == "cjs"@[0]); } }
        assert(k != "ts"@) by { if k == "ts"@ { assert(k.len() == 3); } }
        assert(k != "typescript"@) by { if k == "typescript"@ { assert(k.len() == 3); } }
        assert(k != "deno"@) by { if k == "deno"@ { assert(k.len() == 3); } }
        assert(k != "bun"@) by { if k == "bun"@ { assert(k[0] == "zsh"@[0]); assert(k[0] == "bun"@[0]); } }
        assert(k != "mts"@) by { if k == "mts"@ { assert(k[0] == "zsh"@[0]); assert(k[0] == "mts"@[0]); } }
        assert(k != "cts"@) by { if k == "cts"@ { assert(k[0] == "zsh"@[0]); assert(k[0] == "cts"@[0]); } }
        assert(k != "tsx"@) by { if k == "tsx"@ { assert(k[0] == "zsh"@[0]); assert(k[0] == "tsx"@[0]); } }
        assert(k != "jsx"@) by { if k == "jsx"@ { assert(k[0] == "zsh"@[0]); assert(k[0] == "jsx"@[0]); } }
        assert(k != "rs"@) by { if k == "rs"@ { assert(k.len() == 3); } }
        assert(k != "rust"@) by { if k == "rust"@ { assert(k.len() == 3); } }
        assert(k != "sql"@) by { if k == "sql"@ { assert(k[0] == "zsh"@[0]); assert(k[0] == "sql"@[0]); } }
        assert(k != "json"@) by { if k == "json"@ { assert(k.len() == 3); } }
        assert(k != "yaml"@) by { if k == "yaml"@ { assert(k.len() == 3); } }
        assert(k != "yml"@) by { if k == "yml"@ { assert(k[0] == "zsh"@[0]); assert(k[0] == "yml"@[0]); } }
    }
    if k == "shell"@ {
        assert(k != "py"@) by { if k == "py"@ { assert(k.len() == 5); } }
        assert(k != "python"@) by { if k == "python"@ { assert(k.len() == 5); } }
        assert(k != "python3"@) by { if k == "python3"@ { assert(k.len() == 5); } }
        assert(k != "js"@) by { if k == "js"@ { assert(k.len() == 5); } }
        assert(k != "javascript"@) by { if k == "javascript"@ { assert(k.len() == 5); } }
        assert(k != "node"@) by { if k == "node"@ { assert(k.len() == 5); } }
        assert(k != "nodejs"@) by { if k == "nodejs"@ { assert(k.len() == 5); } }
        assert(k != "mjs"@) by { if k == "mjs"@ { assert(k.len() == 5); } }
        assert(k != "cjs"@) by { if k == "cjs"@ { assert(k.len() == 5); } }
        assert(k != "ts"@) by { if k == "ts"@ { assert(k.len() == 5); } }
        assert(k != "typescript"@) by { if k == "typescript"@ { assert(k.len() == 5); } }
        assert(k != "deno"@) by { if k == "deno"@ { assert(k.len() == 5); } }
        assert(k != "bun"@) by { if k == "bun"@ { assert(k.len() == 5); } }
        assert(k != "mts"@) by { if k == "mts"@ { assert(k.len() == 5); } }
        assert(k != "cts"@) by { if k == "cts"@ { assert(k.len() == 5); } }
        assert(k != "tsx"@) by { if k == "tsx"@ { assert(k.len() == 5); } }
        assert(k != "jsx"@) by { if k == "jsx"@ { assert(k.len() == 5); } }
        assert(k != "rs"@) by { if k == "rs"@ { assert(k.len() == 5); } }
        assert(k != "rust"@) by { if k == "rust"@ { assert(k.len() == 5); } }
        assert(k != "sql"@) by { if k == "sql"@ { assert(k.len() == 5); } }
        assert(k != "json"@) by { if k == "json"@ { assert(k.len() == 5); } }
        assert(k != "yaml"@) by { if k == "yaml"@ { assert(k.len() == 5); } }
        assert(k != "yml"@) by { if k == "yml"@ { assert(k.len() == 5); } }
    }
}

/// A tag that is a plain lowercase word is its own lookup key, so `sh`,
/// `bash`, `zsh` and `shell` as written are shell tags.
pub proof fn lemma_word_tag_key(t: Seq<char>)
    requires
        t.len() > 0,
        forall|i: int| 0 <= i < t.len() ==> 'a' <= #[trigger] t[i] <= 'z',
    ensures
        tag_key(t) == t,
{
    assert(!crate::text::is_ws(t[0]));
    assert(!crate::text::is_ws(t[t.len() - 1]));
    assert(skip_ws(t, 0, t.len() as int) == 0);
    assert(trim_start(t) =~= t);
    assert(crate::text::skip_ws_back(t, 0, t.len() as int) == t.len());
    assert(trim(t) =~= t);
    assert(lower_all(t) =~= t);
    lemma_find_any_bounds(t, 0, seq![',', ' ']);
    if find_any(t, 0, seq![',', ' ']) < t.len() {
        let j = find_any(t, 0, seq![',', ' ']);
        assert(seq![',', ' '].contains(t[j]));
        assert('a' <= t[j] <= 'z');
        assert(seq![',', ' '][0] == ',' && seq![',', ' '][1] == ' ');
    }
    assert(t.subrange(0, t.len() as int) =~= t);
}

} // verus!
