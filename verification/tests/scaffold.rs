use okf::computation::AttestedComputation;
use okf::document::Document;
use okf::scaffold::{build_concept_document, build_concept_document_at, BundleInitOptions, ConceptOptions};
use okf::trust::Status;
use okf::scaffold::title_from_name;

#[test]
fn title_from_name_formats_names() {
    assert_eq!(
        title_from_name("monthly_active_users"),
        "Monthly Active Users"
    );
    assert_eq!(title_from_name("user-churn-rate"), "User Churn Rate");
    assert_eq!(title_from_name("revenue.md"), "Revenue");
    assert_eq!(title_from_name(""), "Untitled");
}

#[test]
fn separators_collapse_and_suffixes_repeat() {
    assert_eq!(title_from_name("__a--b_"), "A B");
    assert_eq!(title_from_name("notes.md.md"), "Notes");
    assert_eq!(title_from_name("---"), "Untitled");
    assert_eq!(title_from_name("straße"), "Straße");
    assert_eq!(title_from_name("ßig"), "SSig");
}

#[test]
fn a_new_concept_document_has_the_scaffolded_frontmatter_and_body() {
    let opts = ConceptOptions { tags: vec!["kpi".to_string()], description: Some("  ".to_string()), ..Default::default() };
    let d = build_concept_document_at(&opts, "Gross Margin", "human:x", "2026-01-01T00:00:00Z");
    assert_eq!(d.frontmatter.type_().as_deref(), Some("Concept"));
    assert_eq!(d.frontmatter.title().as_deref(), Some("Gross Margin"));
    assert_eq!(d.frontmatter.description().as_deref(), Some("Overview and details for Gross Margin."));
    assert_eq!(d.frontmatter.tags(), vec!["kpi".to_string()]);
    let g = d.frontmatter.generated().unwrap();
    assert_eq!(g.by.unwrap().as_str(), "human:x");
    assert_eq!(g.at.unwrap().raw, "2026-01-01T00:00:00Z");
    assert_eq!(d.body, "# Gross Margin\n\nDescribe Gross Margin here.\n");
    assert!(!d.frontmatter.is_attested_computation());
}

#[test]
fn an_attested_concept_gets_a_runtime_and_a_computation_block() {
    let opts = ConceptOptions { type_: "Attested Computation".to_string(), author: Some("human:a".to_string()), ..Default::default() };
    let d = build_concept_document_at(&opts, "Revenue", "human:x", "t");
    assert!(d.frontmatter.is_attested_computation());
    assert_eq!(d.frontmatter.runtime().as_deref(), Some("python"));
    assert_eq!(d.frontmatter.generated().unwrap().by.unwrap().as_str(), "human:a");
    assert!(d.frontmatter.get("executor").is_some() && d.frontmatter.get("attester").is_some());
    assert_eq!(d.body, "# Revenue\n\n# Computation\n\n```python\n# Sanctioned computation logic\n```\n");
    let init = BundleInitOptions::default();
    assert_eq!(init.title, "Knowledge Base");
    assert_eq!(init.sample_name, "overview");
    assert!(init.create_sample && !init.force && init.author.is_none());
}

#[test]
fn create_concept_and_attested_computation() {
    let options = ConceptOptions {
        type_: "Metric".to_string(),
        title: Some("Revenue".to_string()),
        description: Some("Recognized revenue".to_string()),
        status: Status::Stable,
        author: Some("human:bob".to_string()),
        attested: false,
        tags: vec!["finance".to_string()],
        force: false,
    };
    let text = build_concept_document(&options, "Revenue", "human:fallback").serialize();
    let doc = Document::parse(&text).unwrap();
    assert_eq!(doc.frontmatter.type_().as_deref(), Some("Metric"));
    assert_eq!(doc.frontmatter.title().as_deref(), Some("Revenue"));
    assert_eq!(doc.frontmatter.tags(), vec!["finance"]);

    let comp_options = ConceptOptions {
        type_: "Attested Computation".to_string(),
        title: Some("Revenue Calculation".to_string()),
        description: Some("Calculation of revenue".to_string()),
        status: Status::Draft,
        author: Some("human:bob".to_string()),
        attested: true,
        tags: Vec::new(),
        force: false,
    };
    let comp_text = build_concept_document(&comp_options, "Revenue Calculation", "human:fallback").serialize();
    let comp_doc = Document::parse(&comp_text).unwrap();
    let contract = AttestedComputation::from_parts(&comp_doc.frontmatter, &comp_doc.body);
    assert_eq!(contract.runtime.as_deref(), Some("python"));
    assert_eq!(contract.parameters.len(), 1);
    assert!(contract.executor.is_some());
    assert!(contract.attester.is_some());
}
