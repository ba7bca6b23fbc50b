use okf::bundle::{Bundle, LoadError};
use okf::concept_id::ConceptIdError;
use okf::concept_id::ConceptId;

fn id(s: &str) -> ConceptId {
    ConceptId::parse(s).unwrap()
}

fn entry(path: &str, text: &str) -> (String, Option<String>) {
    (path.to_string(), Some(text.to_string()))
}

fn sample() -> Bundle {
    Bundle::load(
        "/b",
        vec![
            entry("index.md", "---\nokf_version: \"0.2\"\n---\n\n# Index\n"),
            entry("log.md", "# Log\n"),
            entry(
                "metrics/aov.md",
                "---\ntype: Metric\ntitle: Average order value\ntags: [sales, kpi]\n\
                 sources:\n  - { id: orders, resource: /tables/orders.md, title: Orders }\n\
                 \x20 - { id: external, resource: https://wiki.acme/aov }\n\
                 \x20 - { id: scope, resource: all queries in BigQuery project X }\n---\n\n\
                 See [orders](../tables/orders.md) and [missing](../tables/gone.md) and [web](https://x.y).\n",
            ),
            entry(
                "tables/orders.md",
                "---\ntype: BigQuery Table\ntags: [sales]\n---\n\nBase table, see [aov](/metrics/aov.md#def).\n",
            ),
            entry("tables/broken.md", "---\ntype: [unclosed\n---\n"),
            ("references/attesters/check.py".to_string(), None),
        ],
    )
}

#[test]
fn loading_classifies_files() {
    let b = sample();
    assert_eq!(b.len(), 2);
    assert!(!b.is_empty());
    assert_eq!(b.root(), "/b");
    assert_eq!(b.index_files(), &vec!["/b/index.md".to_string()]);
    assert_eq!(b.log_files(), &vec!["/b/log.md".to_string()]);
    assert_eq!(b.parse_errors().len(), 1);
    assert_eq!(b.parse_errors()[0].0, "/b/tables/broken.md");
    assert!(matches!(b.parse_errors()[0].1, LoadError::Document(_)));
    assert_eq!(b.okf_version(), Some("0.2"));
    assert!(b.contains(&id("tables/orders")));
    assert!(!b.contains(&id("tables/broken")));
    let aov = b.get(&id("metrics/aov")).unwrap();
    assert_eq!(aov.display_title(), "Average order value");
    assert_eq!(aov.path, "/b/metrics/aov.md");
    let orders = b.get(&id("tables/orders")).unwrap();
    assert_eq!(orders.display_title(), "orders");
}

#[test]
fn links_resolve_relative_and_absolute_paths() {
    let b = sample();
    let links = b.links_from(&id("metrics/aov"));
    assert_eq!(links.len(), 2);
    assert_eq!(links[0].target, id("tables/orders"));
    assert!(links[0].exists);
    assert_eq!(links[0].text, "orders");
    assert_eq!(links[1].target, id("tables/gone"));
    assert!(!links[1].exists);
    assert_eq!(links[1].raw, "../tables/gone.md");
    assert_eq!(b.backlinks(&id("tables/orders")), vec![id("metrics/aov")]);
    assert_eq!(b.backlinks(&id("metrics/aov")), vec![id("tables/orders")]);
    assert!(b.backlinks(&id("tables/gone")).is_empty());
    assert_eq!(
        b.broken_links(),
        vec![(id("metrics/aov"), "../tables/gone.md".to_string())]
    );
}

#[test]
fn source_resources_that_name_concepts_become_derivation_edges() {
    let b = sample();
    let aov = id("metrics/aov");
    let resolved = b.sources_of(&aov);
    assert_eq!(resolved.len(), 3);
    assert_eq!(resolved[0].concept, Some(id("tables/orders")));
    assert_eq!(resolved[1].concept, None);
    assert_eq!(resolved[2].concept, None);
    assert_eq!(b.derived_from(&aov), vec![id("tables/orders")]);
    assert_eq!(b.derives(&id("tables/orders")), vec![aov]);
}

#[test]
fn tag_view_is_synthesized_from_frontmatter() {
    let b = sample();
    let tags = b.tags();
    assert_eq!(tags.len(), 2);
    assert_eq!(tags[0].0, "kpi");
    assert_eq!(tags[0].1, vec![id("metrics/aov")]);
    assert_eq!(tags[1].0, "sales");
    assert_eq!(tags[1].1, vec![id("metrics/aov"), id("tables/orders")]);
}

#[test]
fn concepts_are_found_by_type_and_paths_by_field() {
    let b = sample();
    let tables = b.concepts_of_type("BigQuery Table");
    assert_eq!(tables.len(), 1);
    assert_eq!(tables[0].id, id("tables/orders"));
    assert!(b.attested_computations().is_empty());
    assert_eq!(
        b.resolve_path_field(&id("metrics/aov"), "references/attesters/check.py"),
        Some("/b/references/attesters/check.py".to_string())
    );
    assert_eq!(b.resolve_path_field(&id("metrics/aov"), "https://x.y/z.py"), None);
    assert_eq!(b.resolve_path_field(&id("metrics/aov"), "nothing/here.py"), None);
}

#[test]
fn a_percent_encoded_link_resolves_to_the_spaced_id() {
    let b = Bundle::load(
        "",
        vec![
            entry("tables/my notes.md", "# Notes\n"),
            entry("a.md", "[n](tables/my%20notes.md)\n"),
        ],
    );
    let links = b.links_from(&id("a"));
    assert_eq!(links.len(), 1);
    assert_eq!(links[0].target, id("tables/my notes"));
    assert!(links[0].exists);
}

#[test]
fn a_second_file_with_one_id_is_an_error() {
    let b = Bundle::load("r", vec![entry("a.md", "# A\n"), entry("a.md", "# B\n")]);
    assert_eq!(b.len(), 1);
    assert!(matches!(b.parse_errors()[0].1, LoadError::DuplicateId));
}

#[test]
fn concepts_come_in_path_order_by_component_whatever_the_order_handed_in() {
    let b = Bundle::load(
        "/b",
        vec![entry("b.md", "# B\n"), entry("a.md", "# A\n"), entry("a/z.md", "# Z\n"), entry("a-b.md", "# AB\n")],
    );
    let ids: Vec<String> = b.concepts().iter().map(|c| c.id.to_string()).collect();
    assert_eq!(ids, vec!["a/z", "a-b", "a", "b"]);
}

#[test]
fn a_broken_link_is_kept_and_backlinks_list_each_concept_once() {
    let b = Bundle::load(
        "",
        vec![
            entry("a.md", "[t](t.md) and [t again](t.md) and [gone](gone.md)\n"),
            entry("t.md", "# T\n"),
        ],
    );
    let links = b.links_from(&id("a"));
    assert_eq!(links.len(), 3);
    assert!(links[0].exists && links[1].exists);
    assert!(!links[2].exists);
    assert_eq!(links[2].target, id("gone"));
    assert_eq!(b.backlinks(&id("t")), vec![id("a")]);
    assert!(b.links_from(&id("nothing")).is_empty());
}

#[test]
fn a_file_whose_path_names_no_id_reports_the_refused_segment() {
    let b = Bundle::load("/b", vec![entry("a/..\\x.md", "# X\n")]);
    assert_eq!(b.len(), 0);
    assert_eq!(b.parse_errors()[0].0, "/b/a/..\\x.md");
    assert!(matches!(&b.parse_errors()[0].1, LoadError::Path(ConceptIdError::InvalidSegment(s)) if s == "..\\x"));
}
