use okf::footnotes::{extract_definitions, extract_refs};

const BODY: &str = "\
# Computation

    SELECT SUM(amount) FROM t WHERE year = @year

Recognized revenue per the recognition policy,[^rev-policy] corroborated by
the executive revenue dashboard.[^exec-rev-dash]

[^rev-policy]: Revenue recognition policy
[^exec-rev-dash]: Executive revenue dashboard
";

#[test]
fn refs_and_definitions_are_separated() {
    let refs: Vec<String> = extract_refs(BODY).into_iter().map(|r| r.label).collect();
    assert_eq!(refs, vec!["rev-policy", "exec-rev-dash"]);

    let defs = extract_definitions(BODY);
    assert_eq!(defs.len(), 2);
    assert_eq!(defs[0].label, "rev-policy");
    assert_eq!(defs[0].text, "Revenue recognition policy");
    assert_eq!(defs[1].label, "exec-rev-dash");
}

#[test]
fn footnotes_in_code_are_ignored() {
    let body = "Real.[^a]\n\n```\nCode [^b] here.\n```\n\nInline `[^c]` too.\n";
    let refs: Vec<String> = extract_refs(body).into_iter().map(|r| r.label).collect();
    assert_eq!(refs, vec!["a"]);
}

#[test]
fn multiple_refs_on_one_line() {
    let refs = extract_refs("Both [^a] and [^b] apply.\n");
    assert_eq!(refs.len(), 2);
    assert_eq!(refs[0].line, 1);
    assert_eq!(refs[1].label, "b");
}

#[test]
fn markdown_links_are_not_footnotes() {
    assert!(extract_refs("See [customers](/tables/customers.md).").is_empty());
    assert!(extract_definitions("[label]: https://example.com").is_empty());
}

#[test]
fn definitions_indented_past_three_bytes_are_prose() {
    assert!(extract_definitions("    [^a]: text").is_empty());
    assert_eq!(extract_definitions("   [^a]: text")[0].text, "text");
    let refs = extract_refs("[^a]: see [^b]\n");
    assert_eq!(refs.len(), 1);
    assert_eq!(refs[0].label, "b");
}
