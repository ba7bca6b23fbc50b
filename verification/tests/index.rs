use okf::index::{build_index_text, default_synthesize, directory_description, index_entries, IndexEntry, Listed};

#[test]
fn a_directory_is_described_by_its_titles() {
    let children = vec![
        ("Revenue".to_string(), "Money in.".to_string()),
        (String::new(), "untitled".to_string()),
        ("Costs".to_string(), String::new()),
    ];
    assert_eq!(default_synthesize("metrics", &children), "Contains 3 entries: Revenue, Costs.");
}

#[test]
fn no_children_give_no_description_and_untitled_ones_are_named_so() {
    assert_eq!(default_synthesize("x", &[]), "");
    let children = vec![(String::new(), "d".to_string())];
    assert_eq!(default_synthesize("x", &children), "Contains 1 entries: no titled entries.");
}

fn row(type_: &str, title: &str, link: &str, description: &str) -> IndexEntry {
    IndexEntry {
        type_: type_.to_string(),
        title: title.to_string(),
        link: link.to_string(),
        description: description.to_string(),
    }
}

#[test]
fn an_index_groups_by_type_sorts_by_title_and_escapes() {
    let entries = vec![
        row("Metric", "b rev", "metrics/b.md", ""),
        row("", "Zed", "z z.md", "a [x] & <y>"),
        row("Metric", "A cost", "a.md", "line\nbreak"),
        row("Subdirectories", "ünï", "ü/index.md", ""),
    ];
    assert_eq!(
        build_index_text(&entries),
        "# Metric\n\n* [A cost](a.md) - line break\n* [b rev](metrics/b.md)\n\n\
         # Other\n\n* [Zed](z%20z.md) - a \\[x\\] \\& \\<y\\>\n\n\
         # Subdirectories\n\n* [ünï](%C3%BC/index.md)\n"
    );
}

#[test]
fn an_empty_index_is_one_line_break_and_equal_titles_keep_their_order() {
    assert_eq!(build_index_text(&[]), "\n");
    let entries = vec![row("T", "same", "1.md", ""), row("T", "Same", "2.md", "")];
    assert_eq!(build_index_text(&entries), "# T\n\n* [same](1.md)\n* [Same](2.md)\n");
}

#[test]
fn index_entries_follow_the_listing_rules() {
    let children = vec![
        Listed::Doc {
            name: "a b.md".to_string(),
            stem: "a b".to_string(),
            title: Some(String::new()),
            description: Some("About A".to_string()),
            type_: Some("Concept".to_string()),
        },
        Listed::Doc { name: "index.md".to_string(), stem: "index".to_string(), title: None, description: None, type_: None },
        Listed::Doc {
            name: "log.md".to_string(),
            stem: "log".to_string(),
            title: Some("Log".to_string()),
            description: None,
            type_: None,
        },
        Listed::Doc {
            name: "c.md".to_string(),
            stem: "c".to_string(),
            title: Some("Cee".to_string()),
            description: None,
            type_: None,
        },
        Listed::Dir { name: "sub".to_string(), description: "Nested things".to_string() },
    ];
    let es = index_entries(&children);
    assert_eq!(es.len(), 3);
    assert_eq!((es[0].type_.as_str(), es[0].title.as_str(), es[0].link.as_str(), es[0].description.as_str()), ("Concept", "a b", "a b.md", "About A"));
    assert_eq!((es[1].type_.as_str(), es[1].title.as_str(), es[1].link.as_str(), es[1].description.as_str()), ("", "Cee", "c.md", ""));
    assert_eq!(
        (es[2].type_.as_str(), es[2].title.as_str(), es[2].link.as_str(), es[2].description.as_str()),
        ("Subdirectories", "sub", "sub/index.md", "Nested things")
    );
}

#[test]
fn a_directory_with_one_described_entry_takes_its_description() {
    let one = index_entries(&[Listed::Doc {
        name: "x.md".to_string(),
        stem: "x".to_string(),
        title: Some("X".to_string()),
        description: Some("The x".to_string()),
        type_: None,
    }]);
    assert_eq!(directory_description(&one, "Contains 1 entries: X.".to_string()), "The x");
    let bare = index_entries(&[Listed::Doc { name: "x.md".to_string(), stem: "x".to_string(), title: None, description: None, type_: None }]);
    assert_eq!(directory_description(&bare, "Contains 1 entries: x.".to_string()), "Contains 1 entries: x.");
    let two = index_entries(&[
        Listed::Dir { name: "a".to_string(), description: "A".to_string() },
        Listed::Dir { name: "b".to_string(), description: "B".to_string() },
    ]);
    assert_eq!(directory_description(&two, "Contains 2 entries: a, b.".to_string()), "Contains 2 entries: a, b.");
}
