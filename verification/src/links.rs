//! Markdown link targets and how they are classified.
//!
//! A target is an in-document anchor (`#section`), an external URI (it starts
//! with a scheme such as `https:` or `mailto:`), a bundle-absolute path
//! (`/tables/users.md`), or a path relative to the linking document. An empty
//! target is classified as [`LinkKind::Other`].
use vstd::prelude::*;
use crate::paths::{first_index, has_scheme, is_external, resolve, split_slash};
use crate::concept_id::{texts, ConceptId};
use crate::text::{join_with, trim, views};
use crate::text::{chars_of, str_eq};

verus! {

broadcast use vstd::string::group_string_axioms;

/// The kind of a link target.
#[derive(Clone, Copy, Debug, PartialEq, Eq, Structural)]
pub enum LinkKind {
    /// A bundle-absolute path, starting with `/`.
    Absolute,
    /// A path relative to the linking document.
    Relative,
    /// A URI with a scheme.
    External,
    /// An in-document anchor, starting with `#`.
    Anchor,
    /// Anything else (an empty target).
    Other,
}

/// The kind of a target, by the rules in the module documentation.
pub open spec fn kind_of(s: Seq<char>) -> LinkKind {
    if s.len() == 0 {
        LinkKind::Other
    } else if s[0] == '#' {
        LinkKind::Anchor
    } else if has_scheme(s) {
        LinkKind::External
    } else if s[0] == '/' {
        LinkKind::Absolute
    } else {
        LinkKind::Relative
    }
}

/// The lowercase name of a kind.
pub open spec fn kind_name(k: LinkKind) -> Seq<char> {
    match k {
        LinkKind::Absolute => "absolute"@,
        LinkKind::Relative => "relative"@,
        LinkKind::External => "external"@,
        LinkKind::Anchor => "anchor"@,
        LinkKind::Other => "other"@,
    }
}

/// The kind a name spells.
pub open spec fn kind_from_name(s: Seq<char>) -> Option<LinkKind> {
    if s == "absolute"@ {
        Some(LinkKind::Absolute)
    } else if s == "relative"@ {
        Some(LinkKind::Relative)
    } else if s == "external"@ {
        Some(LinkKind::External)
    } else if s == "anchor"@ {
        Some(LinkKind::Anchor)
    } else if s == "other"@ {
        Some(LinkKind::Other)
    } else {
        None
    }
}

/// A string that names no link kind.
#[derive(Clone, Debug, PartialEq, Eq)]
pub struct ParseLinkKindError(pub String);

impl LinkKind {
    /// The lowercase name.
    pub fn as_str(&self) -> (r: &'static str)
        ensures
            r@ == kind_name(*self),
    {
        match self {
            LinkKind::Absolute => "absolute",
            LinkKind::Relative => "relative",
            LinkKind::External => "external",
            LinkKind::Anchor => "anchor",
            LinkKind::Other => "other",
        }
    }

    /// The lowercase name as an owned string.
    pub fn to_string(&self) -> (r: String)
        ensures
            r@ == kind_name(*self),
    {
        self.as_str().to_string()
    }

    /// Parses a lowercase kind name.
    pub fn parse_name(s: &str) -> (r: Result<LinkKind, ParseLinkKindError>)
        ensures
            match r {
                Ok(k) => kind_from_name(s@) == Some(k),
                Err(e) => kind_from_name(s@) is None && e.0@ == s@,
            },
    {
        if str_eq(s, "absolute") {
            Ok(LinkKind::Absolute)
        } else if str_eq(s, "relative") {
            Ok(LinkKind::Relative)
        } else if str_eq(s, "external") {
            Ok(LinkKind::External)
        } else if str_eq(s, "anchor") {
            Ok(LinkKind::Anchor)
        } else if str_eq(s, "other") {
            Ok(LinkKind::Other)
        } else {
            Err(ParseLinkKindError(s.to_string()))
        }
    }
}

impl std::str::FromStr for LinkKind {
    type Err = ParseLinkKindError;

    fn from_str(s: &str) -> Result<LinkKind, ParseLinkKindError> {
        LinkKind::parse_name(s)
    }
}

/// An inline markdown link as found in a body.
#[derive(Clone, Debug, PartialEq, Eq)]
pub struct Link {
    /// The link text between the brackets.
    pub text: String,
    /// The kind of the target.
    pub kind: LinkKind,
    /// The target, with any angle brackets and title removed.
    pub target: String,
}

impl Link {
    /// Classifies a link target.
    pub fn classify(target: &str) -> (r: LinkKind)
        ensures
            r == kind_of(target@),
    {
        let v = chars_of(target);
        if v.len() == 0 {
            LinkKind::Other
        } else if v[0] == '#' {
            LinkKind::Anchor
        } else if is_external(&v) {
            LinkKind::External
        } else if v[0] == '/' {
            LinkKind::Absolute
        } else {
            LinkKind::Relative
        }
    }
}


/// The bundle-relative paths a path-valued field may name, from a concept in
/// directory `from_dir`: nothing for an empty value, a pure anchor or a URI;
/// the path itself (after `/`) for a bundle-absolute one; for a relative
/// one, the path read against the concept's directory and then against the
/// bundle root, when the two differ. A `#fragment` is ignored, `.` and empty
/// segments are dropped, and `..` leaves a directory (never above the root).
pub open spec fn path_candidates(raw: Seq<char>, from_dir: Seq<Seq<char>>) -> Seq<Seq<char>> {
    let t = trim(raw);
    let p = t.subrange(0, first_index(t, '#', 0));
    if p.len() == 0 || has_scheme(t) {
        seq![]
    } else if p[0] == '/' {
        let a = resolve(seq![], split_slash(p));
        if a.len() == 0 { seq![] } else { seq![join_with(a, "/"@)] }
    } else {
        let a = resolve(from_dir, split_slash(p));
        let b = resolve(seq![], split_slash(p));
        let sa: Seq<Seq<char>> = if a.len() == 0 { seq![] } else { seq![join_with(a, "/"@)] };
        if b.len() == 0 || b == a { sa } else { sa.push(join_with(b, "/"@)) }
    }
}

/// Whether two lists of character vectors are equal.
pub fn same_lines(a: &Vec<Vec<char>>, b: &Vec<Vec<char>>) -> (r: bool)
    ensures
        r == (views(a@) == views(b@)),
{
    if a.len() != b.len() {
        proof {
            assert(views(a@).len() != views(b@).len());
        }
        return false;
    }
    let mut i: usize = 0;
    while i < a.len()
        invariant
            i <= a.len(),
            a.len() == b.len(),
            forall|k: int| 0 <= k < i ==> views(a@)[k] == #[trigger] views(b@)[k],
        decreases a.len() - i,
    {
        if !crate::paths::same_chars(&a[i], &b[i]) {
            proof {
                assert(views(a@)[i as int] != views(b@)[i as int]);
            }
            return false;
        }
        i += 1;
    }
    proof {
        assert(views(a@) =~= views(b@));
    }
    true
}

/// Segments joined with `/`, as a `String`.
fn joined(segs: &Vec<Vec<char>>) -> (r: String)
    ensures
        r@ == join_with(views(segs@), "/"@),
{
    let slash = chars_of("/");
    crate::text::string_of(&crate::text::join_lines(segs, &slash))
}

/// Resolves a path-valued frontmatter field to bundle-relative candidate
/// paths (see [`path_candidates`]).
pub fn field_path_candidates(raw: &str, from: &ConceptId) -> (r: Vec<String>)
    requires
        from.wf(),
    ensures
        texts(r@) == path_candidates(raw@, from@.drop_last()),
{
    let mut out: Vec<String> = Vec::new();
    let v = chars_of(raw);
    let (a, b) = crate::text::trim_bounds(&v, 0, v.len());
    let mut t: Vec<char> = Vec::new();
    crate::text::extend_range(&mut t, &v, a, b);
    proof {
        assert(v@.subrange(0, v@.len() as int) =~= v@);
    }
    let mut h: usize = 0;
    while h < t.len() && t[h] != '#'
        invariant
            h <= t.len(),
            first_index(t@, '#', h as int) == first_index(t@, '#', 0),
        decreases t.len() - h,
    {
        h += 1;
    }
    let mut p: Vec<char> = Vec::new();
    crate::text::extend_range(&mut p, &t, 0, h);
    if p.len() == 0 || is_external(&t) {
        proof {
            assert(texts(out@) =~= seq![]);
        }
        return out;
    }
    let segs = crate::paths::split_slash_exec(&p);
    if p[0] == '/' {
        let root: Vec<Vec<char>> = Vec::new();
        proof {
            assert(views(root@) =~= Seq::<Seq<char>>::empty());
        }
        let res = crate::paths::resolve_exec(root, &segs);
        if res.len() > 0 {
            out.push(joined(&res));
        }
        proof {
            assert(views(res@).len() == res@.len());
            assert(texts(out@) =~= path_candidates(raw@, from@.drop_last()));
        }
        return out;
    }
    let dir = crate::paths::chars_of_all(&from.dir());
    let ra = crate::paths::resolve_exec(dir, &segs);
    let root: Vec<Vec<char>> = Vec::new();
    proof {
        assert(views(root@) =~= Seq::<Seq<char>>::empty());
    }
    let rb = crate::paths::resolve_exec(root, &segs);
    proof {
        assert(views(ra@).len() == ra@.len());
        assert(views(rb@).len() == rb@.len());
    }
    if ra.len() > 0 {
        out.push(joined(&ra));
    }
    let ghost sa = texts(out@);
    if rb.len() > 0 && !same_lines(&ra, &rb) {
        out.push(joined(&rb));
        proof {
            assert(texts(out@) =~= sa.push(join_with(views(rb@), "/"@)));
        }
    }
    proof {
        let ghost a_ = views(ra@);
        let ghost b_ = views(rb@);
        let ghost expect_a: Seq<Seq<char>> = if a_.len() == 0 { seq![] } else { seq![join_with(a_, "/"@)] };
        assert(sa =~= expect_a);
    }
    out
}

} // verus!
