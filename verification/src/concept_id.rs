//! Concept ids: a concept's path within its bundle, `.md` removed, as a
//! list of `/`-separated segments.
//!
//! No character is forbidden in a segment except what cannot be one: the
//! empty string, `.` and `..`, the separators `/` and `\`, and control
//! characters. The conventional ASCII shape survives as
//! [`is_portable_segment`], a warning rather than an error.
use vstd::prelude::*;
use crate::text::{chars_of, join_with, string_of, string_of_range};

verus! {

broadcast use vstd::string::group_string_axioms;

/// A Unicode control character (general category `Cc`).
pub open spec fn is_control(c: char) -> bool {
    let u = c as u32;
    u <= 0x1F || (0x7F <= u && u <= 0x9F)
}

/// A segment that can stand in a concept id.
pub open spec fn valid_segment(s: Seq<char>) -> bool {
    &&& s.len() > 0
    &&& s != "."@
    &&& s != ".."@
    &&& forall|k: int| 0 <= k < s.len() ==> #[trigger] s[k] != '/' && s[k] != '\\' && !is_control(s[k])
}

/// An ASCII letter, digit or underscore.
pub open spec fn is_word_char(c: char) -> bool {
    ('a' <= c && c <= 'z') || ('A' <= c && c <= 'Z') || ('0' <= c && c <= '9') || c == '_'
}

/// The reference's portable shape: `[A-Za-z0-9_][A-Za-z0-9_.-]*`.
pub open spec fn portable(s: Seq<char>) -> bool {
    &&& s.len() > 0
    &&& is_word_char(s[0])
    &&& forall|k: int| 1 <= k < s.len() ==> is_word_char(#[trigger] s[k]) || s[k] == '.' || s[k] == '-'
}

/// Why a concept id was refused.
#[derive(Clone, Debug, PartialEq, Eq)]
pub enum ConceptIdError {
    /// No segments at all.
    Empty,
    /// A segment that cannot stand in an id.
    InvalidSegment(String),
    /// A path that is not inside the bundle root.
    NotInBundle(String),
    /// A path that does not name a markdown (`.md`) file.
    NotMarkdown(String),
}

/// A concept id error as sequences.
pub enum ConceptIdErrorView {
    Empty,
    InvalidSegment(Seq<char>),
    NotInBundle(Seq<char>),
    NotMarkdown(Seq<char>),
}

impl ConceptIdError {
    /// The error as sequences.
    pub open spec fn view(&self) -> ConceptIdErrorView {
        match self {
            ConceptIdError::Empty => ConceptIdErrorView::Empty,
            ConceptIdError::InvalidSegment(s) => ConceptIdErrorView::InvalidSegment(s@),
            ConceptIdError::NotInBundle(s) => ConceptIdErrorView::NotInBundle(s@),
            ConceptIdError::NotMarkdown(s) => ConceptIdErrorView::NotMarkdown(s@),
        }
    }
}

/// The index of the first invalid segment at or after `i`, or the length.
pub open spec fn first_invalid(v: Seq<Seq<char>>, i: int) -> int
    decreases v.len() - i,
{
    if i < 0 || i >= v.len() {
        v.len() as int
    } else if !valid_segment(v[i]) {
        i
    } else {
        first_invalid(v, i + 1)
    }
}

/// Why a list of segments is refused as an id: it is empty, or its first
/// invalid segment.
pub open spec fn segments_error(v: Seq<Seq<char>>) -> ConceptIdErrorView {
    if v.len() == 0 {
        ConceptIdErrorView::Empty
    } else {
        ConceptIdErrorView::InvalidSegment(v[first_invalid(v, 0)])
    }
}

/// Why the file at `path` under `root` names no id: it lies outside the
/// root, it is no markdown file, or its segments are refused.
pub open spec fn path_error(root: Seq<char>, path: Seq<char>) -> ConceptIdErrorView {
    match path_under(root, path) {
        None => ConceptIdErrorView::NotInBundle(path),
        Some(rel) => match path_segments(rel) {
            None => ConceptIdErrorView::NotMarkdown(path),
            Some(v) => segments_error(v),
        },
    }
}

/// A concept id.
#[derive(Debug, PartialEq, Eq, PartialOrd, Ord, Hash)]
pub struct ConceptId {
    segments: Vec<String>,
}

impl Clone for ConceptId {
    fn clone(&self) -> (r: ConceptId)
        ensures
            r@ == self@,
    {
        let segments = self.segments.clone();
        proof {
            assert(texts(segments@) =~= texts(self.segments@));
        }
        ConceptId { segments }
    }
}

/// The texts of a list of strings.
pub open spec fn texts(v: Seq<String>) -> Seq<Seq<char>> {
    v.map_values(|s: String| s@)
}

/// `s` split at every `/` (`str::split('/')`).
pub open spec fn split_slash(s: Seq<char>) -> Seq<Seq<char>>
    decreases s.len(),
{
    split_from(s, 0, 0)
}

/// The pieces of `s[start..]` split at `/`, the current piece begun at `start`
/// and scanned up to `i`.
pub open spec fn split_from(s: Seq<char>, start: int, i: int) -> Seq<Seq<char>>
    decreases s.len() - i,
{
    if i >= s.len() {
        seq![s.subrange(start, s.len() as int)]
    } else if s[i] == '/' {
        seq![s.subrange(start, i)] + split_from(s, i + 1, i + 1)
    } else {
        split_from(s, start, i + 1)
    }
}

/// With no `/` from `i` on, splitting from `start` gives the rest as one
/// piece.
proof fn lemma_split_no_slash(s: Seq<char>, start: int, i: int)
    requires
        0 <= start <= i <= s.len(),
        forall|k: int| i <= k < s.len() ==> s[k] != '/',
    ensures
        split_from(s, start, i) == seq![s.subrange(start, s.len() as int)],
    decreases s.len() - i,
{
    if i < s.len() {
        lemma_split_no_slash(s, start, i + 1);
    }
}

/// Splitting `a`, a `/` and a piece `b` without `/` gives the pieces of `a`
/// and then `b`.
proof fn lemma_split_append(a: Seq<char>, b: Seq<char>, start: int, i: int)
    requires
        0 <= start <= i <= a.len(),
        forall|k: int| 0 <= k < b.len() ==> b[k] != '/',
    ensures
        split_from(a + seq!['/'] + b, start, i) == split_from(a, start, i).push(b),
    decreases a.len() - i,
{
    let s = a + seq!['/'] + b;
    if i == a.len() {
        assert(s[i] == '/');
        lemma_split_no_slash(s, i + 1, i + 1);
        assert(s.subrange(i + 1, s.len() as int) =~= b);
        assert(s.subrange(start, i) =~= a.subrange(start, a.len() as int));
        assert(seq![s.subrange(start, i)] + seq![b] =~= seq![a.subrange(start, a.len() as int)].push(b));
    } else {
        assert(s[i] == a[i]);
        lemma_split_append(a, b, start, i + 1);
        if a[i] == '/' {
            lemma_split_append(a, b, i + 1, i + 1);
            assert(s.subrange(start, i) =~= a.subrange(start, i));
            assert(seq![a.subrange(start, i)] + split_from(a, i + 1, i + 1).push(b)
                =~= (seq![a.subrange(start, i)] + split_from(a, i + 1, i + 1)).push(b));
        }
    }
}

/// An id survives a round trip through its string form: splitting the
/// segments joined with `/` at every `/` gives the segments back, so
/// `ConceptId::parse` of `to_string` gives the same id.
pub proof fn lemma_id_text_round_trip(v: Seq<Seq<char>>)
    requires
        valid_segments(v),
    ensures
        split_slash(join_with(v, "/"@)) == v,
    decreases v.len(),
{
    reveal_strlit("/");
    if v.len() == 1 {
        lemma_split_no_slash(v[0], 0, 0);
        assert(join_with(v, "/"@) == v[0]);
        assert(v[0].subrange(0, v[0].len() as int) =~= v[0]);
        assert(seq![v[0]] =~= v);
    } else {
        let d = v.drop_last();
        assert forall|k: int| 0 <= k < d.len() implies valid_segment(#[trigger] d[k]) by {
            assert(d[k] == v[k]);
        }
        lemma_id_text_round_trip(d);
        let a = join_with(d, "/"@);
        let b = v.last();
        assert(valid_segment(v[v.len() - 1]));
        assert forall|k: int| 0 <= k < b.len() implies b[k] != '/' by {}
        assert("/"@ =~= seq!['/']);
        assert(join_with(v, "/"@) == a + "/"@ + b);
        lemma_split_append(a, b, 0, 0);
        assert(d.push(b) =~= v);
    }
}

/// Whether every segment is valid and there is at least one.
pub open spec fn valid_segments(v: Seq<Seq<char>>) -> bool {
    v.len() > 0 && forall|k: int| 0 <= k < v.len() ==> valid_segment(#[trigger] v[k])
}

/// Whether a character may stand in a segment.
fn segment_char_ok(c: char) -> (r: bool)
    ensures
        r == (c != '/' && c != '\\' && !is_control(c)),
{
    let u = c as u32;
    c != '/' && c != '\\' && !(u <= 0x1F || (0x7F <= u && u <= 0x9F))
}

/// Whether `s` can stand as a concept-id segment.
pub fn validate_segment(s: &str) -> (r: bool)
    ensures
        r == valid_segment(s@),
{
    let v = chars_of(s);
    if v.len() == 0 {
        return false;
    }
    if v.len() == 1 && v[0] == '.' {
        proof {
            reveal_strlit(".");
            assert(v@ =~= "."@);
        }
        return false;
    }
    if v.len() == 2 && v[0] == '.' && v[1] == '.' {
        proof {
            reveal_strlit("..");
            assert(v@ =~= ".."@);
        }
        return false;
    }
    proof {
        reveal_strlit(".");
        reveal_strlit("..");
        if v@.len() == 1 {
            assert(v@[0] != "."@[0]);
        }
        if v@.len() == 2 {
            assert(v@[0] != "."@[0] || v@[1] != "."@[0]);
        }
    }
    let mut i: usize = 0;
    while i < v.len()
        invariant
            i <= v.len(),
            v@ == s@,
            forall|k: int| 0 <= k < i ==> #[trigger] v@[k] != '/' && v@[k] != '\\' && !is_control(v@[k]),
        decreases v.len() - i,
    {
        if !segment_char_ok(v[i]) {
            return false;
        }
        i += 1;
    }
    true
}

/// Whether a segment has the reference's portable ASCII shape
/// `[A-Za-z0-9_][A-Za-z0-9_.-]*`.
pub fn is_portable_segment(s: &str) -> (r: bool)
    ensures
        r == portable(s@),
{
    let v = chars_of(s);
    if v.len() == 0 {
        return false;
    }
    let c0 = v[0];
    if !(('a' <= c0 && c0 <= 'z') || ('A' <= c0 && c0 <= 'Z') || ('0' <= c0 && c0 <= '9') || c0 == '_') {
        return false;
    }
    let mut i: usize = 1;
    while i < v.len()
        invariant
            1 <= i <= v.len(),
            v@ == s@,
            forall|k: int| 1 <= k < i ==> is_word_char(#[trigger] v@[k]) || v@[k] == '.' || v@[k] == '-',
        decreases v.len() - i,
    {
        let c = v[i];
        if !(('a' <= c && c <= 'z') || ('A' <= c && c <= 'Z') || ('0' <= c && c <= '9') || c == '_' || c == '.' || c == '-') {
            return false;
        }
        i += 1;
    }
    true
}

impl ConceptId {
    /// The segments' texts.
    pub closed spec fn view(&self) -> Seq<Seq<char>> {
        texts(self.segments@)
    }

    /// Whether the id's invariant holds: at least one segment, each valid.
    pub open spec fn wf(&self) -> bool {
        valid_segments(self@)
    }

    /// Builds an id from segments, refusing an empty list or an invalid segment.
    pub fn new(segments: Vec<String>) -> (r: Result<ConceptId, ConceptIdError>)
        ensures
            r is Ok <==> valid_segments(texts(segments@)),
            r matches Ok(id) ==> id@ == texts(segments@),
            r matches Err(e) ==> e@ == segments_error(texts(segments@)),
    {
        if segments.len() == 0 {
            return Err(ConceptIdError::Empty);
        }
        let mut i: usize = 0;
        while i < segments.len()
            invariant
                i <= segments.len(),
                forall|k: int| 0 <= k < i ==> valid_segment(#[trigger] texts(segments@)[k]),
                first_invalid(texts(segments@), 0) == first_invalid(texts(segments@), i as int),
            decreases segments.len() - i,
        {
            if !validate_segment(segments[i].as_str()) {
                proof {
                    assert(texts(segments@)[i as int] == segments@[i as int]@);
                }
                return Err(ConceptIdError::InvalidSegment(segments[i].clone()));
            }
            proof {
                assert(texts(segments@)[i as int] == segments@[i as int]@);
            }
            i += 1;
        }
        Ok(ConceptId { segments })
    }

    /// Parses `a/b/c`: the text split at every `/`, each piece a valid segment.
    pub fn parse(s: &str) -> (r: Result<ConceptId, ConceptIdError>)
        ensures
            r is Ok <==> valid_segments(split_slash(s@)),
            r matches Ok(id) ==> id@ == split_slash(s@),
    {
        let v = chars_of(s);
        let mut segs: Vec<String> = Vec::new();
        let mut start: usize = 0;
        let mut i: usize = 0;
        while i < v.len()
            invariant
                start <= i <= v.len(),
                v@ == s@,
                texts(segs@) + split_from(v@, start as int, i as int) == split_slash(v@),
            decreases v.len() - i,
        {
            if v[i] == '/' {
                let piece = string_of_range(&v, start, i);
                proof {
                    let ghost before = texts(segs@);
                    assert(texts(segs@.push(piece)) =~= before.push(piece@));
                    assert(before + split_from(v@, start as int, i as int) =~= before.push(piece@) + split_from(v@, i + 1, i + 1));
                }
                segs.push(piece);
                start = i + 1;
            }
            i += 1;
        }
        let piece = string_of_range(&v, start, v.len());
        proof {
            let ghost before = texts(segs@);
            assert(texts(segs@.push(piece)) =~= before.push(piece@));
            assert(before + split_from(v@, start as int, i as int) =~= before.push(piece@));
        }
        segs.push(piece);
        ConceptId::new(segs)
    }

    /// The segments.
    pub fn segments(&self) -> (r: &Vec<String>)
        ensures
            texts(r@) == self@,
    {
        &self.segments
    }

    /// The final segment (the concept's file name without `.md`).
    pub fn name(&self) -> (r: &str)
        requires
            self.wf(),
        ensures
            r@ == self@.last(),
    {
        let n = self.segments.len();
        proof {
            assert(self@[n - 1] == self.segments@[n - 1]@);
        }
        self.segments[n - 1].as_str()
    }

    /// The directory segments: all but the last.
    pub fn dir(&self) -> (r: Vec<String>)
        requires
            self.wf(),
        ensures
            texts(r@) == self@.drop_last(),
    {
        let mut out: Vec<String> = Vec::new();
        let n = self.segments.len();
        let mut i: usize = 0;
        while i + 1 < n
            invariant
                n == self.segments.len(),
                n >= 1,
                i <= n - 1,
                texts(out@) == self@.subrange(0, i as int),
            decreases n - i,
        {
            let c = self.segments[i].clone();
            proof {
                assert(self@[i as int] == self.segments@[i as int]@);
                assert(c@ == self.segments@[i as int]@);
                let before = texts(out@);
                assert(texts(out@.push(c)) =~= before.push(c@));
            }
            out.push(c);
            proof {
                assert(texts(out@) =~= self@.subrange(0, i + 1));
            }
            i += 1;
        }
        proof {
            assert(self@.subrange(0, i as int) =~= self@.drop_last());
        }
        out
    }

    /// The id of the enclosing directory, when there is one.
    pub fn parent(&self) -> (r: Option<ConceptId>)
        requires
            self.wf(),
        ensures
            self@.len() == 1 ==> r is None,
            self@.len() > 1 ==> (r matches Some(p) && p@ == self@.drop_last()),
    {
        if self.segments.len() == 1 {
            return None;
        }
        let d = self.dir();
        proof {
            assert forall|k: int| 0 <= k < texts(d@).len() implies valid_segment(#[trigger] texts(d@)[k]) by {
                assert(texts(d@)[k] == self@[k]);
            }
        }
        Some(ConceptId { segments: d })
    }

    /// The id as text: segments joined with `/`.
    pub fn to_string(&self) -> (r: String)
        ensures
            r@ == join_with(self@, "/"@),
    {
        let mut out: Vec<char> = Vec::new();
        let mut i: usize = 0;
        let slash = chars_of("/");
        while i < self.segments.len()
            invariant
                i <= self.segments.len(),
                slash@ == "/"@,
                out@ == join_with(self@.take(i as int), "/"@),
            decreases self.segments.len() - i,
        {
            proof {
                assert(self@.take(i + 1).drop_last() =~= self@.take(i as int));
                assert(self@.take(i + 1).last() == self.segments@[i as int]@);
            }
            if i > 0 {
                crate::text::extend_all(&mut out, &slash);
            }
            let seg = chars_of(self.segments[i].as_str());
            crate::text::extend_all(&mut out, &seg);
            proof {
                if i == 0 {
                    assert(out@ =~= self@.take(1)[0]);
                }
            }
            i += 1;
        }
        proof {
            assert(self@.take(self@.len() as int) =~= self@);
        }
        string_of(&out)
    }
}


/// Whether `s` ends with `.md` after at least one other character.
pub open spec fn is_md_name(s: Seq<char>) -> bool {
    s.len() > 3 && s.subrange(s.len() - 3, s.len() as int) == ".md"@
}

/// The segments of a bundle-relative markdown path, `.md` removed from the
/// last one; `None` for a path that does not end in `.md`.
pub open spec fn path_segments(rel: Seq<char>) -> Option<Seq<Seq<char>>> {
    let segs = split_slash(rel);
    let last = segs.last();
    if is_md_name(last) {
        Some(segs.drop_last().push(last.subrange(0, last.len() - 3)))
    } else {
        None
    }
}

/// The prefix a path under `root` starts with: `root` and a `/` unless it
/// already ends in one (nothing for an empty root).
pub open spec fn root_prefix(root: Seq<char>) -> Seq<char> {
    if root.len() == 0 || root.last() == '/' {
        root
    } else {
        root + "/"@
    }
}

/// The rest of `path` after the root prefix, when it starts with it.
pub open spec fn path_under(root: Seq<char>, path: Seq<char>) -> Option<Seq<char>> {
    if crate::text::has_prefix(path, root_prefix(root)) {
        Some(path.subrange(root_prefix(root).len() as int, path.len() as int))
    } else {
        None
    }
}

/// The id segments of the markdown file at `path` under `root`.
pub open spec fn id_at_path(root: Seq<char>, path: Seq<char>) -> Option<Seq<Seq<char>>> {
    match path_under(root, path) {
        Some(rel) => path_segments(rel),
        None => None,
    }
}

/// `rel` placed under `root`.
pub open spec fn under_root(root: Seq<char>, rel: Seq<char>) -> Seq<char> {
    root_prefix(root) + rel
}

/// `s@.subrange(lo, s.len())` with `.md` dropped when it ends with it.
fn markdown_segments(rel: &[char]) -> (r: Option<Vec<String>>)
    ensures
        match r {
            Some(v) => path_segments(rel@) == Some(texts(v@)),
            None => path_segments(rel@) is None,
        },
{
    let mut segs: Vec<String> = Vec::new();
    let mut start: usize = 0;
    let mut i: usize = 0;
    while i < rel.len()
        invariant
            start <= i <= rel.len(),
            texts(segs@) + split_from(rel@, start as int, i as int) == split_slash(rel@),
        decreases rel.len() - i,
    {
        if rel[i] == '/' {
            let piece = string_of_range(rel, start, i);
            proof {
                let ghost before = texts(segs@);
                assert(texts(segs@.push(piece)) =~= before.push(piece@));
                assert(before + split_from(rel@, start as int, i as int) =~= before.push(piece@) + split_from(rel@, i + 1, i + 1));
            }
            segs.push(piece);
            start = i + 1;
        }
        i += 1;
    }
    let n = rel.len();
    let ok = n - start > 3 && rel[n - 3] == '.' && rel[n - 2] == 'm' && rel[n - 1] == 'd';
    let ghost last = rel@.subrange(start as int, n as int);
    proof {
        let ghost before = texts(segs@);
        assert(before + split_from(rel@, start as int, i as int) =~= before.push(last));
        assert(split_slash(rel@).last() == last);
        reveal_strlit(".md");
        if n - start > 3 {
            assert(last.subrange(last.len() - 3, last.len() as int) =~= seq![rel@[n - 3], rel@[n - 2], rel@[n - 1]]);
        }
    }
    if !ok {
        return None;
    }
    let stem = string_of_range(rel, start, n - 3);
    proof {
        let ghost before = texts(segs@);
        assert(texts(segs@.push(stem)) =~= before.push(stem@));
        assert(split_slash(rel@).drop_last() =~= before);
        assert(stem@ =~= last.subrange(0, last.len() - 3));
    }
    let ghost before = texts(segs@);
    segs.push(stem);
    proof {
        assert(last.subrange(last.len() - 3, last.len() as int) =~= ".md"@);
        assert(is_md_name(last));
        assert(split_slash(rel@) =~= before.push(last));
        assert(texts(segs@) =~= before.push(stem@));
        assert(texts(segs@) =~= split_slash(rel@).drop_last().push(last.subrange(0, last.len() - 3)));
    }
    Some(segs)
}

impl ConceptId {
    /// The id of the markdown file at `path` under `root`: the path must
    /// start with the root (see [`root_prefix`]) and end in `.md`, and each
    /// segment of the rest must be valid.
    pub fn from_path(root: &str, path: &str) -> (r: Result<ConceptId, ConceptIdError>)
        ensures
            r matches Err(ConceptIdError::NotInBundle(_)) <==> path_under(root@, path@) is None,
            r matches Err(ConceptIdError::NotMarkdown(_)) <==> (path_under(root@, path@) is Some
                && id_at_path(root@, path@) is None),
            r is Ok <==> (id_at_path(root@, path@) is Some && valid_segments(id_at_path(root@, path@)->0)),
            r matches Ok(id) ==> id_at_path(root@, path@) == Some(id@),
            r matches Err(e) ==> e@ == path_error(root@, path@),
    {
        let rv = chars_of(root);
        let mut prefix: Vec<char> = Vec::new();
        crate::text::extend_all(&mut prefix, &rv);
        if rv.len() > 0 && rv[rv.len() - 1] != '/' {
            prefix.push('/');
        }
        proof {
            reveal_strlit("/");
            assert(prefix@ =~= root_prefix(root@));
        }
        let pv = chars_of(path);
        if !crate::text::matches_at(&pv, 0, &prefix) {
            return Err(ConceptIdError::NotInBundle(path.to_string()));
        }
        let mut rel: Vec<char> = Vec::new();
        crate::text::extend_range(&mut rel, &pv, prefix.len(), pv.len());
        match markdown_segments(&rel) {
            None => Err(ConceptIdError::NotMarkdown(path.to_string())),
            Some(segs) => match ConceptId::new(segs) {
                Ok(id) => Ok(id),
                Err(e) => match e {
                    ConceptIdError::Empty => Err(ConceptIdError::Empty),
                    ConceptIdError::InvalidSegment(x) => Err(ConceptIdError::InvalidSegment(x)),
                    ConceptIdError::NotInBundle(x) => Err(ConceptIdError::InvalidSegment(x)),
                    ConceptIdError::NotMarkdown(x) => Err(ConceptIdError::InvalidSegment(x)),
                },
            },
        }
    }

    /// The path of this concept's file under `root`: the segments joined
    /// with `/`, `.md` appended, placed under the root.
    pub fn to_path(&self, root: &str) -> (r: String)
        ensures
            r@ == under_root(root@, join_with(self@, "/"@) + ".md"@),
    {
        let rv = chars_of(root);
        let mut out: Vec<char> = Vec::new();
        crate::text::extend_all(&mut out, &rv);
        if rv.len() > 0 && rv[rv.len() - 1] != '/' {
            out.push('/');
        }
        let id = chars_of(self.to_string().as_str());
        crate::text::extend_all(&mut out, &id);
        crate::text::extend_all(&mut out, &chars_of(".md"));
        proof {
            reveal_strlit("/");
        }
        string_of(&out)
    }
}


impl ConceptId {
    /// The segments as a slice.
    pub fn as_ref(&self) -> (r: &[String])
        ensures
            texts(r@) == self@,
    {
        self.segments.as_slice()
    }
}

impl std::str::FromStr for ConceptId {
    type Err = ConceptIdError;

    fn from_str(s: &str) -> Result<ConceptId, ConceptIdError> {
        ConceptId::parse(s)
    }
}

impl TryFrom<&str> for ConceptId {
    type Error = ConceptIdError;

    fn try_from(s: &str) -> Result<ConceptId, ConceptIdError> {
        ConceptId::parse(s)
    }
}

/// [`ConceptId::parse`] states the conversion; a spec-level id cannot be
/// built from a text, so nothing more is claimed here.
impl vstd::std_specs::convert::TryFromSpecImpl<&str> for ConceptId {
    open spec fn obeys_try_from_spec() -> bool {
        false
    }

    open spec fn try_from_spec(s: &str) -> Result<ConceptId, ConceptIdError> {
        arbitrary()
    }
}

/// As for `&str`.
impl vstd::std_specs::convert::TryFromSpecImpl<String> for ConceptId {
    open spec fn obeys_try_from_spec() -> bool {
        false
    }

    open spec fn try_from_spec(s: String) -> Result<ConceptId, ConceptIdError> {
        arbitrary()
    }
}

impl TryFrom<String> for ConceptId {
    type Error = ConceptIdError;

    fn try_from(s: String) -> Result<ConceptId, ConceptIdError> {
        ConceptId::parse(s.as_str())
    }
}

impl From<ConceptId> for String {
    fn from(id: ConceptId) -> (r: String) {
        id.to_string()
    }
}

/// A `String` has no spec-level constructor from a text, so what
/// [`ConceptId::to_string`] states of the conversion is not repeated here.
impl vstd::std_specs::convert::FromSpecImpl<ConceptId> for String {
    open spec fn obeys_from_spec() -> bool {
        false
    }

    open spec fn from_spec(id: ConceptId) -> String {
        arbitrary()
    }
}


impl ConceptId {
    /// Whether two ids have the same segments.
    pub fn same(&self, other: &ConceptId) -> (r: bool)
        ensures
            r == (self@ == other@),
    {
        if self.segments.len() != other.segments.len() {
            proof {
                assert(self@.len() != other@.len());
            }
            return false;
        }
        let mut i: usize = 0;
        while i < self.segments.len()
            invariant
                i <= self.segments.len(),
                self.segments.len() == other.segments.len(),
                forall|k: int| 0 <= k < i ==> self@[k] == #[trigger] other@[k],
            decreases self.segments.len() - i,
        {
            if !crate::text::str_eq(self.segments[i].as_str(), other.segments[i].as_str()) {
                proof {
                    assert(self@[i as int] != other@[i as int]);
                }
                return false;
            }
            i += 1;
        }
        proof {
            assert(self@ =~= other@);
        }
        true
    }
}

} // verus!
