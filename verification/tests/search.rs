use okf::concept_id::ConceptId;
use okf::fuzzy::fuzzy_match;
use okf::search::{Filter, Query, SearchEntry, SearchIndex};
use okf::trust::{Status, TrustTier};

#[test]
fn matches_segment_initials() {
    let (score, idx) = fuzzy_match("pte", "policies/travel_expenses").unwrap();
    assert!(score > 0);
    assert_eq!(idx, vec![0, 9, 16]);
}

#[test]
fn prefers_boundary_matches() {
    let (loose, _) = fuzzy_match("te", "notes").unwrap();
    let (boundary, _) = fuzzy_match("te", "travel_expenses").unwrap();
    assert!(boundary > loose);
}

#[test]
fn non_subsequence_is_none() {
    assert!(fuzzy_match("xyz", "policies").is_none());
    assert!(fuzzy_match("aa", "a").is_none());
}

#[test]
fn smart_case() {
    assert!(fuzzy_match("Pol", "policies").is_none());
    assert!(fuzzy_match("pol", "Policies").is_some());
}

#[test]
fn query_syntax_parses_filters() {
    let q = Query::parse("trav #hr type:Policy tier:unverified is:stale is:broken");
    assert_eq!(q.text, "trav");
    assert_eq!(q.filters.len(), 5);
    assert!(q.filters.contains(&Filter::Tag("hr".into())));
    assert!(q.filters.contains(&Filter::Type("Policy".into())));
    assert!(q.filters.contains(&Filter::Tier(TrustTier::Unverified)));
    assert!(q.filters.contains(&Filter::Stale));
    assert!(q.filters.contains(&Filter::Broken));
}

fn entry(id: &str, title: &str, tags: &[&str], headings: &[&str]) -> SearchEntry {
    SearchEntry {
        id: ConceptId::parse(id).unwrap(),
        title: title.to_string(),
        description: String::new(),
        tags: tags.iter().map(|t| t.to_string()).collect(),
        headings: headings.iter().map(|t| t.to_string()).collect(),
        type_: "Policy".to_string(),
        tier: TrustTier::Unverified,
        status: Status::Stable,
        stale: false,
        broken: false,
    }
}

#[test]
fn search_ranks_by_score_then_id_and_truncates() {
    let index = SearchIndex {
        entries: vec![
            entry("policies/travel", "Travel", &["hr"], &["Travel rules"]),
            entry("notes/travel", "Travel", &[], &[]),
            entry("other", "Unrelated", &[], &[]),
        ],
    };
    let hits = index.search("travel", 10);
    assert_eq!(hits.len(), 3);
    for w in hits.windows(2) {
        assert!(w[0].score > w[1].score || (w[0].score == w[1].score && w[0].id <= w[1].id));
    }
    // The heading row is discounted below its concept's best row.
    let heading = hits.iter().find(|h| h.heading.is_some()).unwrap();
    assert_eq!(heading.label, "Travel rules");
    assert_eq!(index.search("travel", 2).len(), 2);
}

#[test]
fn empty_text_lists_filtered_entries_in_index_order() {
    let index = SearchIndex {
        entries: vec![
            entry("b", "B", &["hr"], &[]),
            entry("a", "A", &[], &[]),
            entry("c", "C", &["HR"], &[]),
        ],
    };
    let hits = index.search("#hr", 10);
    let labels: Vec<&str> = hits.iter().map(|h| h.label.as_str()).collect();
    assert_eq!(labels, vec!["b", "c"]);
    assert!(hits.iter().all(|h| h.score == 0));
}

#[test]
fn unknown_tier_stays_text() {
    let q = Query::parse("tier:gold  status:draft");
    assert_eq!(q.text, "tier:gold");
    assert_eq!(q.filters, vec![Filter::Status("draft".into())]);
}

#[test]
fn empty_text_keeps_index_order_even_against_id_order() {
    let index = SearchIndex {
        entries: vec![entry("zeta", "Z", &[], &[]), entry("alpha", "A", &[], &[]), entry("mid", "M", &[], &[])],
    };
    let hits = index.search("", 2);
    let labels: Vec<&str> = hits.iter().map(|h| h.label.as_str()).collect();
    assert_eq!(labels, vec!["zeta", "alpha"]);
    assert!(hits.iter().all(|h| h.heading.is_none() && h.indices.is_empty()));
}

#[test]
fn equal_scores_go_to_the_leftmost_end() {
    assert_eq!(fuzzy_match("a", "xaxa"), Some((16, vec![1])));
    assert_eq!(fuzzy_match("ab", "ab_ab"), Some((fuzzy_match("ab", "ab").unwrap().0, vec![0, 1])));
}

#[test]
fn a_long_haystack_still_gets_the_table_search_result() {
    let mut hay = String::from("a");
    hay.push_str(&"x".repeat(10_000_000));
    hay.push_str("ab");
    assert_eq!(fuzzy_match("ab", &hay), Some((40, vec![10_000_001, 10_000_002])));
}
