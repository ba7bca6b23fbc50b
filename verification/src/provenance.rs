//! The `sources` a concept derives from.
//!
//! Each `sources` entry is a mapping naming what the concept was built from:
//! an `id` that footnotes cite, the `resource` itself (a URL, a path to
//! another concept or file, or a free-text scope descriptor), a `title` and
//! an `author`. Entries that are not mappings are not sources.
use vstd::prelude::*;
use crate::document::{field_text, opt_text, Frontmatter};
use crate::yaml::{lookup, vview, vviews, Value, ValueView};

verus! {

broadcast use vstd::string::group_string_axioms;

/// One `sources` entry.
#[derive(Debug)]
pub struct Source {
    /// The id footnotes cite.
    pub id: Option<String>,
    /// What the entry names: a URL, a path, or a scope descriptor.
    pub resource: Option<String>,
    /// A human-readable title.
    pub title: Option<String>,
    /// Who produced the resource.
    pub author: Option<String>,
}

/// A source as sequences: id, resource, title, author.
pub type SourceView = (Option<Seq<char>>, Option<Seq<char>>, Option<Seq<char>>, Option<Seq<char>>);

/// The source a mapping entry describes.
pub open spec fn source_of(m: Seq<(ValueView, ValueView)>) -> SourceView {
    (field_text(m, "id"@), field_text(m, "resource"@), field_text(m, "title"@), field_text(m, "author"@))
}

/// The sources read from the mapping items among the first `n`.
pub open spec fn sources_upto(items: Seq<ValueView>, n: int) -> Seq<SourceView>
    decreases n,
{
    if n <= 0 {
        seq![]
    } else {
        let p = sources_upto(items, n - 1);
        match items[n - 1] {
            ValueView::Pairs(m) => p.push(source_of(m)),
            _ => p,
        }
    }
}

/// The sources a `sources` value lists: each mapping item of a sequence, or
/// a lone mapping.
pub open spec fn sources_of(v: ValueView) -> Seq<SourceView> {
    match v {
        ValueView::List(items) => sources_upto(items, items.len() as int),
        ValueView::Pairs(m) => seq![source_of(m)],
        _ => seq![],
    }
}

/// The sources a frontmatter declares.
pub open spec fn frontmatter_sources(fm: Seq<(ValueView, ValueView)>) -> Seq<SourceView> {
    match lookup(fm, "sources"@) {
        Some(v) => sources_of(v),
        None => seq![],
    }
}

/// The views of a list of sources.
pub open spec fn source_views(v: Seq<Source>) -> Seq<SourceView> {
    v.map_values(|s: Source| s@)
}

impl Source {
    /// The source as sequences.
    pub open spec fn view(&self) -> SourceView {
        (opt_text(self.id), opt_text(self.resource), opt_text(self.title), opt_text(self.author))
    }

    /// Reads one entry; `None` when it is not a mapping.
    pub fn from_value(value: &Value) -> (r: Option<Source>)
        ensures
            match r {
                Some(s) => vview(*value) is Pairs && s@ == source_of(vview(*value)->Pairs_0),
                None => !(vview(*value) is Pairs),
            },
    {
        match value.as_mapping() {
            None => None,
            Some(map) => {
                let id = match map.get("id") {
                    Some(v) => v.as_display_string(),
                    None => None,
                };
                let resource = match map.get("resource") {
                    Some(v) => v.as_display_string(),
                    None => None,
                };
                let title = match map.get("title") {
                    Some(v) => v.as_display_string(),
                    None => None,
                };
                let author = match map.get("author") {
                    Some(v) => v.as_display_string(),
                    None => None,
                };
                Some(Source { id, resource, title, author })
            },
        }
    }

    /// Reads a whole `sources` value (see [`sources_of`]).
    pub fn list_from_value(value: &Value) -> (r: Vec<Source>)
        ensures
            source_views(r@) == sources_of(vview(*value)),
    {
        let mut out: Vec<Source> = Vec::new();
        match value {
            Value::Sequence(items) => {
                let ghost iv = vviews(items@, items@.len() as int);
                proof {
                    crate::yaml::lemma_vviews_len(items@, items@.len() as int);
                }
                let mut i: usize = 0;
                while i < items.len()
                    invariant
                        i <= items.len(),
                        iv == vviews(items@, items@.len() as int),
                        iv.len() == items@.len(),
                        source_views(out@) == sources_upto(iv, i as int),
                    decreases items.len() - i,
                {
                    proof {
                        crate::yaml::lemma_vviews_at(items@, i as int);
                    }
                    match Source::from_value(&items[i]) {
                        Some(s) => {
                            let ghost before = source_views(out@);
                            out.push(s);
                            proof {
                                assert(source_views(out@) =~= before.push(s@));
                            }
                        },
                        None => {},
                    }
                    i += 1;
                }
            },
            Value::Mapping(_) => {
                match Source::from_value(value) {
                    Some(s) => {
                        out.push(s);
                        proof {
                            assert(source_views(out@) =~= seq![s@]);
                        }
                    },
                    None => {},
                }
            },
            _ => {
                proof {
                    assert(source_views(out@) =~= seq![]);
                }
            },
        }
        out
    }
}

/// The `sources` of a frontmatter (see [`frontmatter_sources`]).
pub fn sources_in(fm: &Frontmatter) -> (r: Vec<Source>)
    ensures
        source_views(r@) == frontmatter_sources(fm@),
{
    match fm.get("sources") {
        Some(v) => Source::list_from_value(v),
        None => {
            let out: Vec<Source> = Vec::new();
            proof {
                assert(source_views(out@) =~= seq![]);
            }
            out
        },
    }
}


/// A `key: text` entry when the text is present.
pub open spec fn opt_entry(key: Seq<char>, v: Option<Seq<char>>) -> Seq<(ValueView, ValueView)> {
    match v {
        Some(t) => seq![(ValueView::Str(key), ValueView::Str(t))],
        None => seq![],
    }
}

/// A source written back as a `sources` entry: its present fields, in the
/// order id, resource, title, author.
pub open spec fn source_value(s: SourceView) -> ValueView {
    ValueView::Pairs(opt_entry("id"@, s.0) + opt_entry("resource"@, s.1) + opt_entry("title"@, s.2) + opt_entry("author"@, s.3))
}

/// A key that no entry has is not found.
pub proof fn lemma_key_absent(entries: Seq<(ValueView, ValueView)>, key: Seq<char>, i: int)
    requires
        0 <= i <= entries.len(),
        forall|k: int| 0 <= k < entries.len() ==> (#[trigger] entries[k]).0 != ValueView::Str(key),
    ensures
        crate::yaml::key_index(entries, key, i) == entries.len(),
    decreases entries.len() - i,
{
    if i < entries.len() {
        lemma_key_absent(entries, key, i + 1);
    }
}

/// Appends `key: text` to a mapping that has no entry with that key.
pub(crate) fn push_text_entry(m: &mut crate::yaml::Mapping, key: &str, v: &Option<String>)
    requires
        forall|k: int| 0 <= k < old(m)@.len() ==> (#[trigger] old(m)@[k]).0 != ValueView::Str(key@),
    ensures
        final(m)@ == old(m)@ + opt_entry(key@, opt_text(*v)),
{
    match v {
        Some(t) => {
            proof {
                lemma_key_absent(m@, key@, 0);
            }
            m.insert(key, Value::Text(t.clone()));
            proof {
                assert(m@ =~= old(m)@ + opt_entry(key@, opt_text(*v)));
            }
        },
        None => {
            proof {
                assert(m@ =~= old(m)@ + opt_entry(key@, opt_text(*v)));
            }
        },
    }
}

impl Source {
    /// The source as a `sources` entry (see [`source_value`]).
    pub fn to_yaml_value(&self) -> (r: Value)
        ensures
            vview(r) == source_value(self@),
    {
        let mut m = crate::yaml::Mapping::new();
        proof {
            reveal_strlit("id");
            reveal_strlit("resource");
            reveal_strlit("title");
            reveal_strlit("author");
            assert(m@ =~= Seq::<(ValueView, ValueView)>::empty());
        }
        push_text_entry(&mut m, "id", &self.id);
        proof {
            reveal_strlit("id");
            reveal_strlit("resource");
            assert("id"@.len() != "resource"@.len());
            assert(forall|k: int| 0 <= k < m@.len() ==> (#[trigger] m@[k]).0 == ValueView::Str("id"@));
        }
        push_text_entry(&mut m, "resource", &self.resource);
        proof {
            reveal_strlit("id");
            reveal_strlit("resource");
            reveal_strlit("title");
            assert("id"@.len() != "title"@.len() && "resource"@.len() != "title"@.len());
            assert(forall|k: int| 0 <= k < m@.len() ==> (#[trigger] m@[k]).0 == ValueView::Str("id"@) || m@[k].0 == ValueView::Str("resource"@));
        }
        push_text_entry(&mut m, "title", &self.title);
        proof {
            reveal_strlit("id");
            reveal_strlit("resource");
            reveal_strlit("title");
            reveal_strlit("author");
            assert("id"@.len() != "author"@.len() && "resource"@.len() != "author"@.len());
            assert("title"@[0] == 't' && "author"@[0] == 'a');
            assert("title"@ != "author"@);
            assert(forall|k: int| 0 <= k < m@.len() ==> (#[trigger] m@[k]).0 == ValueView::Str("id"@) || m@[k].0 == ValueView::Str("resource"@)
                || m@[k].0 == ValueView::Str("title"@));
        }
        push_text_entry(&mut m, "author", &self.author);
        proof {
            assert(m@ =~= opt_entry("id"@, opt_text(self.id)) + opt_entry("resource"@, opt_text(self.resource)) + opt_entry(
                "title"@,
                opt_text(self.title),
            ) + opt_entry("author"@, opt_text(self.author)));
        }
        Value::Mapping(m)
    }
}

} // verus!
