//! Scaffolding for new concept documents: titles derived from file names,
//! and the frontmatter and body a fresh concept starts with.
use vstd::prelude::*;
use crate::text::{chars_of, join_with, string_of};
use crate::yaml::{lemma_vviews_push, set_entry, vviews, Mapping, Value, ValueView};

verus! {

broadcast use vstd::string::group_string_axioms;

/// What `char::to_uppercase` yields for a character beyond ASCII.
pub uninterp spec fn unicode_uppercase(c: char) -> Seq<char>;

/// The characters `char::to_uppercase` yields: an ASCII small letter's
/// capital, any other ASCII character itself, the Unicode mapping otherwise.
pub open spec fn char_uppercase(c: char) -> Seq<char> {
    if (c as u32) < 128 {
        if 'a' <= c && c <= 'z' {
            seq![((c as u32) - 32) as char]
        } else {
            seq![c]
        }
    } else {
        unicode_uppercase(c)
    }
}

/// `char::to_uppercase`, collected. Trusted: an ASCII small letter gives its
/// capital and any other ASCII character itself; other characters go by the
/// name [`unicode_uppercase`], whose values are not stated.
#[verifier::external_body]
fn to_uppercase(c: char) -> (r: Vec<char>)
    ensures
        r@ == (if (c as u32) < 128 {
            if 'a' <= c && c <= 'z' {
                seq![((c as u32) - 32) as char]
            } else {
                seq![c]
            }
        } else {
            unicode_uppercase(c)
        }),
{
    c.to_uppercase().collect()
}

/// `s` with every trailing `.md` removed (`str::trim_end_matches(".md")`).
pub open spec fn strip_md(s: Seq<char>) -> Seq<char>
    decreases s.len(),
{
    if s.len() >= 3 && s.subrange(s.len() - 3, s.len() as int) == ".md"@ {
        strip_md(s.subrange(0, s.len() - 3))
    } else {
        s
    }
}

/// A word with its first character uppercased.
pub open spec fn capitalized(w: Seq<char>) -> Seq<char> {
    char_uppercase(w[0]) + w.subrange(1, w.len() as int)
}

/// Whether a character separates the words of a name.
pub open spec fn is_name_sep(c: char) -> bool {
    c == '_' || c == '-'
}

/// The capitalized non-empty words of `s[start..]`, split at `_` and `-`,
/// the current word begun at `start` and scanned up to `i`.
pub open spec fn words_from(s: Seq<char>, start: int, i: int) -> Seq<Seq<char>>
    decreases s.len() - i,
{
    if i >= s.len() {
        if 0 <= start < s.len() { seq![capitalized(s.subrange(start, s.len() as int))] } else { seq![] }
    } else if is_name_sep(s[i]) {
        let w = s.subrange(start, i);
        (if w.len() > 0 { seq![capitalized(w)] } else { seq![] }) + words_from(s, i + 1, i + 1)
    } else {
        words_from(s, start, i + 1)
    }
}

/// The display title of a file name: `.md` removed, the words between `_`
/// and `-` capitalized and joined with spaces; `Untitled` when no word is
/// left.
pub open spec fn title_of_name(name: Seq<char>) -> Seq<char> {
    let ws = words_from(strip_md(name), 0, 0);
    if ws.len() == 0 { "Untitled"@ } else { join_with(ws, " "@) }
}

/// `strip_md` in exec form.
fn strip_md_exec(s: &[char]) -> (r: Vec<char>)
    ensures
        r@ == strip_md(s@),
{
    let mut n = s.len();
    proof {
        reveal_strlit(".md");
        assert(s@.subrange(0, n as int) =~= s@);
    }
    while n >= 3 && s[n - 3] == '.' && s[n - 2] == 'm' && s[n - 1] == 'd'
        invariant
            n <= s.len(),
            strip_md(s@.subrange(0, n as int)) == strip_md(s@),
            ".md"@ == seq!['.', 'm', 'd'],
        decreases n,
    {
        proof {
            let t = s@.subrange(0, n as int);
            assert(t.subrange(t.len() - 3, t.len() as int) =~= ".md"@);
            assert(t.subrange(0, t.len() - 3) =~= s@.subrange(0, n - 3));
        }
        n -= 3;
    }
    proof {
        let t = s@.subrange(0, n as int);
        if n >= 3 {
            assert(t.subrange(t.len() - 3, t.len() as int) != ".md"@) by {
                if t.subrange(t.len() - 3, t.len() as int) == ".md"@ {
                    assert(t.subrange(t.len() - 3, t.len() as int)[0] == s@[n - 3]);
                    assert(t.subrange(t.len() - 3, t.len() as int)[1] == s@[n - 2]);
                    assert(t.subrange(t.len() - 3, t.len() as int)[2] == s@[n - 1]);
                }
            }
        }
    }
    let mut out: Vec<char> = Vec::new();
    crate::text::extend_range(&mut out, s, 0, n);
    out
}

/// A word capitalized.
fn capitalized_exec(w: &[char]) -> (r: Vec<char>)
    requires
        w.len() > 0,
    ensures
        r@ == capitalized(w@),
{
    let mut out = to_uppercase(w[0]);
    crate::text::extend_range(&mut out, w, 1, w.len());
    out
}

/// Formats a file stem as a display title (see [`title_of_name`]):
/// `monthly_active_users` gives `Monthly Active Users`.
pub fn title_from_name(name: &str) -> (r: String)
    ensures
        r@ == title_of_name(name@),
{
    let s = strip_md_exec(&chars_of(name));
    let mut words: Vec<Vec<char>> = Vec::new();
    let mut start: usize = 0;
    let mut i: usize = 0;
    while i < s.len()
        invariant
            start <= i <= s.len(),
            crate::text::views(words@) + words_from(s@, start as int, i as int) == words_from(s@, 0, 0),
        decreases s.len() - i,
    {
        if s[i] == '_' || s[i] == '-' {
            let ghost before = crate::text::views(words@);
            if i > start {
                let mut w: Vec<char> = Vec::new();
                crate::text::extend_range(&mut w, &s, start, i);
                let c = capitalized_exec(&w);
                words.push(c);
                proof {
                    assert(crate::text::views(words@) =~= before.push(c@));
                    assert(before + words_from(s@, start as int, i as int) =~= before.push(c@) + words_from(s@, i + 1, i + 1));
                }
            } else {
                proof {
                    assert(s@.subrange(start as int, i as int).len() == 0);
                    assert(before + words_from(s@, start as int, i as int) =~= before + words_from(s@, i + 1, i + 1));
                }
            }
            start = i + 1;
        }
        i += 1;
    }
    let ghost before = crate::text::views(words@);
    if start < s.len() {
        let mut w: Vec<char> = Vec::new();
        crate::text::extend_range(&mut w, &s, start, s.len());
        let c = capitalized_exec(&w);
        words.push(c);
        proof {
            assert(crate::text::views(words@) =~= before.push(c@));
            assert(before + words_from(s@, start as int, i as int) =~= before.push(c@));
        }
    } else {
        proof {
            assert(before + words_from(s@, start as int, i as int) =~= before);
        }
    }
    if words.len() == 0 {
        proof {
            assert(crate::text::views(words@).len() == 0);
        }
        return "Untitled".to_string();
    }
    proof {
        assert(crate::text::views(words@).len() == words@.len());
    }
    let sp = chars_of(" ");
    string_of(&crate::text::join_lines(&words, &sp))
}


/// The seconds since the Unix epoch, from the system clock (0 when the clock
/// is before the epoch). Nothing is claimed of the value: it is the time.
#[verifier::external_body]
fn unix_now() -> (r: u64) {
    match std::time::SystemTime::now().duration_since(std::time::UNIX_EPOCH) {
        Ok(d) => d.as_secs(),
        Err(_) => 0,
    }
}

/// What [`iso_timestamp_at`] gives for `secs` seconds after the epoch: the
/// UTC instant as `YYYY-MM-DDTHH:MM:SSZ`, or `2026-01-01T00:00:00Z` past the
/// year 9999.
pub open spec fn iso_at(secs: int, text: Seq<char>) -> bool {
    (exists|t: crate::date::DateTime| crate::date::well_formed(t) && t.offset_minutes == Some(0i32)
        && crate::date::instant(t) == crate::date::unix_epoch() + secs && text == crate::date::iso_text(t))
    || (crate::date::unix_epoch() + secs >= crate::date::day_number(10000, 1, 1) * 86400
        && text == "2026-01-01T00:00:00Z"@)
}

/// The UTC instant `secs` seconds after the epoch as an ISO 8601 text.
pub fn iso_timestamp_at(secs: u64) -> (r: String)
    ensures
        iso_at(secs as int, r@),
{
    match crate::date::DateTime::from_unix(secs) {
        Some(t) => t.to_iso_string(),
        None => {
            let r = "2026-01-01T00:00:00Z".to_string();
            r
        },
    }
}

/// Whether `text` is the ISO 8601 UTC text of some instant after the epoch
/// (see [`iso_at`]).
pub open spec fn is_timestamp(text: Seq<char>) -> bool {
    exists|secs: u64| #[trigger] iso_at(secs as int, text)
}

/// The current UTC instant as `YYYY-MM-DDTHH:MM:SSZ`.
pub fn current_iso_timestamp() -> (r: String)
    ensures
        exists|secs: u64| #[trigger] iso_at(secs as int, r@),
        is_timestamp(r@),
{
    let secs = unix_now();
    iso_timestamp_at(secs)
}


/// A character kept in a user name made into an actor id.
pub open spec fn user_char(c: char) -> bool {
    crate::markdown::is_alnum(c) || c == '_' || c == '-'
}

/// The characters of `s` kept by [`user_char`].
pub open spec fn kept_user_chars(s: Seq<char>) -> Seq<char>
    decreases s.len(),
{
    if s.len() == 0 {
        seq![]
    } else {
        kept_user_chars(s.drop_last()) + if user_char(s.last()) {
            seq![s.last()]
        } else {
            Seq::<char>::empty()
        }
    }
}

/// The first user name among `users[i..]` that keeps a character, as
/// `human:<name>`; else `human:author`.
pub open spec fn author_from_users(users: Seq<Option<Seq<char>>>, i: int) -> Seq<char>
    decreases users.len() - i,
{
    if i < 0 || i >= users.len() {
        "human:author"@
    } else {
        match users[i] {
            Some(u) => if kept_user_chars(u).len() > 0 {
                "human:"@ + kept_user_chars(u)
            } else {
                author_from_users(users, i + 1)
            },
            None => author_from_users(users, i + 1),
        }
    }
}

/// The default author: the `OKF_AUTHOR` value trimmed, when it is not
/// blank; else from the user names (see [`author_from_users`]).
pub open spec fn default_author_of(okf_author: Option<Seq<char>>, users: Seq<Option<Seq<char>>>) -> Seq<char> {
    match okf_author {
        Some(a) => if crate::text::trim(a).len() > 0 {
            crate::text::trim(a)
        } else {
            author_from_users(users, 0)
        },
        None => author_from_users(users, 0),
    }
}

fn kept_user_chars_exec(s: &str) -> (r: Vec<char>)
    ensures
        r@ == kept_user_chars(s@),
{
    let v = chars_of(s);
    let mut out: Vec<char> = Vec::new();
    let mut i: usize = 0;
    while i < v.len()
        invariant
            i <= v.len(),
            out@ == kept_user_chars(v@.take(i as int)),
        decreases v.len() - i,
    {
        let c = v[i];
        let keep = crate::markdown::char_is_alphanumeric(c) || c == '_' || c == '-';
        if keep {
            out.push(c);
        }
        proof {
            assert(v@.take(i + 1).drop_last() =~= v@.take(i as int));
            assert(out@ =~= kept_user_chars(v@.take(i + 1)));
        }
        i += 1;
    }
    proof {
        assert(v@.take(i as int) =~= v@);
    }
    out
}

/// The text of an optional string slice.
pub open spec fn opt_str(o: Option<&str>) -> Option<Seq<char>> {
    match o {
        Some(a) => Some(a@),
        None => None,
    }
}

/// The texts of a list of optional strings.
pub open spec fn user_texts(v: Seq<Option<String>>) -> Seq<Option<Seq<char>>> {
    v.map_values(|u: Option<String>| crate::document::opt_text(u))
}

/// The default author from the values of `OKF_AUTHOR` and of the user-name
/// variables (`USER`, `USERNAME`, `LOGNAME`), in that order (see
/// [`default_author_of`]).
pub fn default_author_from(okf_author: Option<&str>, users: &Vec<Option<String>>) -> (r: String)
    ensures
        r@ == default_author_of(opt_str(okf_author), user_texts(users@)),
{
    let ghost uv = user_texts(users@);
    match okf_author {
        Some(a) => {
            let v = chars_of(a);
            let t = crate::markdown::trimmed(&v);
            if t.len() > 0 {
                return string_of(&t);
            }
        },
        None => {},
    }
    let ghost oa = opt_str(okf_author);
    proof {
        assert(default_author_of(oa, uv) == author_from_users(uv, 0));
    }
    let mut i: usize = 0;
    while i < users.len()
        invariant
            i <= users.len(),
            uv == user_texts(users@),
            oa == opt_str(okf_author),
            default_author_of(oa, uv) == author_from_users(uv, 0),
            author_from_users(uv, i as int) == author_from_users(uv, 0),
        decreases users.len() - i,
    {
        match &users[i] {
            Some(u) => {
                let k = kept_user_chars_exec(u.as_str());
                proof {
                    assert(uv[i as int] == Some(u@));
                }
                if k.len() > 0 {
                    let mut out = chars_of("human:");
                    crate::text::extend_all(&mut out, &k);
                    proof {
                        assert(out@ =~= "human:"@ + kept_user_chars(u@));
                        assert(author_from_users(uv, i as int) == "human:"@ + kept_user_chars(u@));
                    }
                    let r = string_of(&out);
                    proof {
                        assert(r@ == default_author_of(oa, uv));
                    }
                    return r;
                }
            },
            None => {},
        }
        i += 1;
    }
    string_of(&chars_of("human:author"))
}


// ---------------------------------------------------------------------------
// A fresh concept.
// ---------------------------------------------------------------------------

/// Options for a new bundle.
pub struct BundleInitOptions {
    /// The bundle's title, for the root index.
    pub title: String,
    /// Whether to write a sample concept.
    pub create_sample: bool,
    /// The sample concept's name.
    pub sample_name: String,
    /// Who the generated frontmatter names as its author.
    pub author: Option<String>,
    /// Whether existing files may be overwritten.
    pub force: bool,
}

impl Default for BundleInitOptions {
    fn default() -> (r: BundleInitOptions)
        ensures
            r.title@ == "Knowledge Base"@,
            r.create_sample,
            r.sample_name@ == "overview"@,
            r.author is None,
            !r.force,
    {
        BundleInitOptions {
            title: "Knowledge Base".to_string(),
            create_sample: true,
            sample_name: "overview".to_string(),
            author: None,
            force: false,
        }
    }
}

/// Options for a new concept document.
pub struct ConceptOptions {
    /// The concept type (`Concept`, `Metric`, `Attested Computation`, ...).
    pub type_: String,
    /// The title; by default derived from the file name.
    pub title: Option<String>,
    /// The description.
    pub description: Option<String>,
    /// The lifecycle status.
    pub status: crate::trust::Status,
    /// Who the generated frontmatter names as its author.
    pub author: Option<String>,
    /// Whether the concept is an Attested Computation contract.
    pub attested: bool,
    /// Tags.
    pub tags: Vec<String>,
    /// Whether an existing file may be overwritten.
    pub force: bool,
}

impl Default for ConceptOptions {
    fn default() -> (r: ConceptOptions)
        ensures
            r.type_@ == "Concept"@,
            r.title is None,
            r.description is None,
            r.status == crate::trust::Status::Stable,
            r.author is None,
            !r.attested,
            r.tags@.len() == 0,
            !r.force,
    {
        ConceptOptions {
            type_: "Concept".to_string(),
            title: None,
            description: None,
            status: crate::trust::Status::Stable,
            author: None,
            attested: false,
            tags: Vec::new(),
            force: false,
        }
    }
}

/// Whether the new concept is an Attested Computation: asked for, or named
/// by its type.
pub open spec fn concept_attested(o: ConceptOptions) -> bool {
    o.attested || o.type_@ == "Attested Computation"@
}

/// The new concept's description: the one given unless blank, else a
/// sentence naming the title.
pub open spec fn concept_description(o: ConceptOptions, title: Seq<char>) -> Seq<char> {
    match o.description {
        Some(d) => if crate::text::trim(d@).len() > 0 {
            d@
        } else {
            "Overview and details for "@ + title + "."@
        },
        None => "Overview and details for "@ + title + "."@,
    }
}

/// Texts as YAML strings.
pub open spec fn str_values(v: Seq<String>) -> Seq<ValueView> {
    v.map_values(|t: String| ValueView::Str(t@))
}

/// The frontmatter of a new concept titled `title`, `author` and `now`
/// filling its `generated` block: `type`, `title`, `description`, `status`,
/// `generated`, `tags` when there are any, and for an Attested Computation a
/// `python` runtime with a sample parameter, executor and attester.
pub open spec fn concept_fm(o: ConceptOptions, title: Seq<char>, author: Seq<char>, now: Seq<char>) -> Seq<(ValueView, ValueView)> {
    let a = concept_attested(o);
    let f0 = set_entry(seq![], "type"@, ValueView::Str(if a { "Attested Computation"@ } else { o.type_@ }));
    let f1 = set_entry(f0, "title"@, ValueView::Str(title));
    let f2 = set_entry(f1, "description"@, ValueView::Str(concept_description(o, title)));
    let f3 = set_entry(f2, "status"@, ValueView::Str(crate::trust::status_name(o.status)));
    let gen = set_entry(set_entry(seq![], "by"@, ValueView::Str(author)), "at"@, ValueView::Str(now));
    let f4 = set_entry(f3, "generated"@, ValueView::Pairs(gen));
    let f5 = if o.tags@.len() > 0 { set_entry(f4, "tags"@, ValueView::List(str_values(o.tags@))) } else { f4 };
    if a {
        let param = set_entry(
            set_entry(set_entry(seq![], "name"@, ValueView::Str("input_data"@)), "type"@, ValueView::Str("string"@)),
            "required"@,
            ValueView::Bool(true),
        );
        let exec = set_entry(
            set_entry(seq![], "resource"@, ValueView::Str("references/skills/run.md"@)),
            "receipt"@,
            ValueView::List(seq![ValueView::Str("result"@)]),
        );
        let att = set_entry(seq![], "resource"@, ValueView::Str("references/attesters/verify.py"@));
        let f6 = set_entry(f5, "runtime"@, ValueView::Str("python"@));
        let f7 = set_entry(f6, "parameters"@, ValueView::List(seq![ValueView::Pairs(param)]));
        let f8 = set_entry(f7, "executor"@, ValueView::Pairs(exec));
        set_entry(f8, "attester"@, ValueView::Pairs(att))
    } else {
        f5
    }
}

/// The body of a new concept: its title as a heading, then a placeholder
/// sentence, or for an Attested Computation an empty `python` computation
/// block.
pub open spec fn concept_body(o: ConceptOptions, title: Seq<char>) -> Seq<char> {
    if concept_attested(o) {
        "# "@ + title + "\n\n# Computation\n\n```python\n# Sanctioned computation logic\n```\n"@
    } else {
        "# "@ + title + "\n\nDescribe "@ + title + " here.\n"@
    }
}

/// The author given, else the fallback.
pub open spec fn author_or(author: Option<String>, fallback: Seq<char>) -> Seq<char> {
    match author {
        Some(a) => a@,
        None => fallback,
    }
}

/// `s` with `piece` appended.
fn append(s: &mut Vec<char>, piece: &str)
    ensures
        final(s)@ == old(s)@ + piece@,
{
    crate::text::extend_all(s, &chars_of(piece));
}

/// The scaffolded document of a new concept, `fallback_author` standing for
/// a missing author and `now` the time it is generated at (see
/// [`concept_fm`] and [`concept_body`]).
pub fn build_concept_document_at(options: &ConceptOptions, title: &str, fallback_author: &str, now: &str) -> (r: crate::document::Document)
    ensures
        r.frontmatter@ == concept_fm(*options, title@, author_or(options.author, fallback_author@), now@),
        r.body@ == concept_body(*options, title@),
{
    let mut fm = crate::document::Frontmatter::new();
    proof {
        assert(fm@ =~= Seq::<(ValueView, ValueView)>::empty());
    }
    let is_attested = options.attested || crate::text::str_eq(options.type_.as_str(), "Attested Computation");
    let actual_type = if is_attested { "Attested Computation".to_string() } else { options.type_.clone() };
    fm.set("type", Value::Text(actual_type));
    fm.set("title", Value::Text(title.to_string()));
    let desc = match &options.description {
        Some(d) => {
            let dv = chars_of(d.as_str());
            if crate::markdown::trimmed(&dv).len() > 0 {
                d.clone()
            } else {
                let mut t = chars_of("Overview and details for ");
                append(&mut t, title);
                append(&mut t, ".");
                string_of(&t)
            }
        },
        None => {
            let mut t = chars_of("Overview and details for ");
            append(&mut t, title);
            append(&mut t, ".");
            string_of(&t)
        },
    };
    fm.set("description", Value::Text(desc));
    fm.set("status", Value::Text(options.status.to_string()));
    let author = match &options.author {
        Some(a) => a.clone(),
        None => fallback_author.to_string(),
    };
    let mut gen = Mapping::new();
    proof {
        assert(gen@ =~= Seq::<(ValueView, ValueView)>::empty());
    }
    gen.insert("by", Value::Text(author));
    gen.insert("at", Value::Text(now.to_string()));
    fm.set("generated", Value::Mapping(gen));
    if options.tags.len() > 0 {
        let mut items: Vec<Value> = Vec::new();
        let mut i: usize = 0;
        while i < options.tags.len()
            invariant
                i <= options.tags.len(),
                items@.len() == i,
                vviews(items@, i as int) == str_values(options.tags@).take(i as int),
            decreases options.tags.len() - i,
        {
            let ghost before = items@;
            let x = Value::Text(options.tags[i].clone());
            items.push(x);
            proof {
                lemma_vviews_push(before, x);
                assert(str_values(options.tags@).take(i + 1) =~= str_values(options.tags@).take(i as int).push(ValueView::Str(options.tags@[i as int]@)));
            }
            i += 1;
        }
        proof {
            assert(str_values(options.tags@).take(i as int) =~= str_values(options.tags@));
        }
        fm.set("tags", Value::Sequence(items));
    }
    if is_attested {
        fm.set("runtime", Value::Text("python".to_string()));
        let mut param = Mapping::new();
        proof {
            assert(param@ =~= Seq::<(ValueView, ValueView)>::empty());
        }
        param.insert("name", Value::Text("input_data".to_string()));
        param.insert("type", Value::Text("string".to_string()));
        param.insert("required", Value::Bool(true));
        let mut params: Vec<Value> = Vec::new();
        let pv = Value::Mapping(param);
        params.push(pv);
        proof {
            lemma_vviews_push(Seq::<Value>::empty(), pv);
            assert(Seq::<Value>::empty().push(pv) =~= params@);
        }
        fm.set("parameters", Value::Sequence(params));
        let mut exec = Mapping::new();
        proof {
            assert(exec@ =~= Seq::<(ValueView, ValueView)>::empty());
        }
        exec.insert("resource", Value::Text("references/skills/run.md".to_string()));
        let mut receipt: Vec<Value> = Vec::new();
        let rv = Value::Text("result".to_string());
        receipt.push(rv);
        proof {
            lemma_vviews_push(Seq::<Value>::empty(), rv);
            assert(Seq::<Value>::empty().push(rv) =~= receipt@);
        }
        exec.insert("receipt", Value::Sequence(receipt));
        fm.set("executor", Value::Mapping(exec));
        let mut att = Mapping::new();
        proof {
            assert(att@ =~= Seq::<(ValueView, ValueView)>::empty());
        }
        att.insert("resource", Value::Text("references/attesters/verify.py".to_string()));
        fm.set("attester", Value::Mapping(att));
        let mut b = chars_of("# ");
        append(&mut b, title);
        append(&mut b, "\n\n# Computation\n\n```python\n# Sanctioned computation logic\n```\n");
        crate::document::Document::new(fm, string_of(&b))
    } else {
        let mut b = chars_of("# ");
        append(&mut b, title);
        append(&mut b, "\n\nDescribe ");
        append(&mut b, title);
        append(&mut b, " here.\n");
        crate::document::Document::new(fm, string_of(&b))
    }
}

/// The scaffolded document of a new concept, generated now (see
/// [`build_concept_document_at`]).
pub fn build_concept_document(options: &ConceptOptions, title: &str, fallback_author: &str) -> (r: crate::document::Document)
    ensures
        exists|now: Seq<char>| #![trigger concept_fm(*options, title@, author_or(options.author, fallback_author@), now)]
            r.frontmatter@ == concept_fm(*options, title@, author_or(options.author, fallback_author@), now)
                && is_timestamp(now),
        r.body@ == concept_body(*options, title@),
{
    let now = current_iso_timestamp();
    build_concept_document_at(options, title, fallback_author, now.as_str())
}

} // verus!
