use okf::computation::{extract_inline_computation, AttestedComputation, ComputationSource};
use okf::document::Document;

const REVENUE: &str = "\
---
type: Attested Computation
title: Revenue for fiscal year
runtime: bigquery
parameters:
  - { name: year, type: integer, required: true }
executor:
  resource: references/skills/run-on-bq.md
  receipt: [job_id, executed_sql, result]
attester:
  resource: references/attesters/revenue.py
---

# Computation

    SELECT SUM(amount) AS revenue
    FROM finance.recognized_revenue
    WHERE fiscal_year = @year

The computation binds only the declared `parameters`, per the recognition
policy.[^rev-policy]

[^rev-policy]: Revenue recognition policy
";

#[test]
fn reads_the_spec_contract() {
    let doc = Document::parse(REVENUE).unwrap();
    assert!(doc.frontmatter.is_attested_computation());
    let c = AttestedComputation::from_parts(&doc.frontmatter, &doc.body);

    assert_eq!(c.runtime.as_deref(), Some("bigquery"));
    assert_eq!(c.parameters.len(), 1);
    assert_eq!(c.parameters[0].name.as_deref(), Some("year"));
    assert_eq!(c.parameters[0].type_.as_deref(), Some("integer"));
    assert!(c.parameters[0].is_required());
    assert_eq!(c.required_parameters().len(), 1);

    let executor = c.executor.as_ref().unwrap();
    assert_eq!(
        executor.resource.as_deref(),
        Some("references/skills/run-on-bq.md")
    );
    assert_eq!(executor.receipt, vec!["job_id", "executed_sql", "result"]);
    assert_eq!(
        c.attester.as_ref().unwrap().resource.as_deref(),
        Some("references/attesters/revenue.py")
    );

    let code = c.computation.code().unwrap();
    assert!(code.starts_with("SELECT SUM(amount) AS revenue"));
    assert!(code.ends_with("WHERE fiscal_year = @year"));
    assert!(!code.contains("binds only"));
    assert!(!c.has_redundant_inline);
}

#[test]
fn fenced_blocks_win_and_carry_a_language() {
    let body = "# Computation\n\n```sql\nSELECT 1\n```\n\nProse.\n";
    let c = extract_inline_computation(body).unwrap();
    assert!(c.fenced);
    assert_eq!(c.language.as_deref(), Some("sql"));
    assert_eq!(c.code, "SELECT 1");
}

#[test]
fn file_form_replaces_the_body_block() {
    let doc = Document::parse(
        "---\ntype: Attested Computation\nruntime: bigquery\n\
         computation: references/computations/lib/revenue.sql\n---\n\n# Definition\n\nProse.\n",
    )
    .unwrap();
    let c = AttestedComputation::from_parts(&doc.frontmatter, &doc.body);
    assert_eq!(
        c.computation.path(),
        Some("references/computations/lib/revenue.sql")
    );
    assert!(!c.has_redundant_inline);
    assert_eq!(
        c.path_fields(),
        vec![("computation", "references/computations/lib/revenue.sql")]
    );
}

#[test]
fn both_forms_present_is_flagged() {
    let doc = Document::parse(
        "---\ntype: Attested Computation\ncomputation: x.sql\n---\n\n# Computation\n\n    SELECT 1\n",
    )
    .unwrap();
    let c = AttestedComputation::from_parts(&doc.frontmatter, &doc.body);
    assert!(c.has_redundant_inline);
    assert_eq!(c.computation.path(), Some("x.sql"));
}

#[test]
fn missing_computation_is_representable() {
    let doc = Document::parse("---\ntype: Attested Computation\n---\n\n# Definition\n").unwrap();
    let c = AttestedComputation::from_parts(&doc.frontmatter, &doc.body);
    assert!(c.computation.is_missing());
    assert!(c.runtime.is_none());
}

#[test]
fn section_ends_at_the_next_same_level_heading() {
    let body = "# Computation\n\n## Detail\n\n    SELECT 1\n\n# Notes\n\n    SELECT 2\n";
    let c = extract_inline_computation(body).unwrap();
    assert_eq!(c.code, "SELECT 1");
}

#[test]
fn dbt_template_syntax_survives() {
    let body = "# Computation\n\n    SELECT gross_profit\n    FROM {{ ref('fct_income_statement') }}\n    WHERE fiscal_year = {{ var('year') }}\n";
    let c = extract_inline_computation(body).unwrap();
    assert!(c.code.contains("{{ ref('fct_income_statement') }}"));
    assert_eq!(c.code.lines().count(), 3);
}

#[test]
fn an_empty_fence_falls_back_to_the_indented_block() {
    let body = "# Computation\n\n```\n\n```\n\n    SELECT 3\n";
    let c = extract_inline_computation(body).unwrap();
    assert!(!c.fenced);
    assert_eq!(c.code, "SELECT 3");
}

#[test]
fn fenced_code_is_dedented_by_the_fence_indent() {
    let body = "## computation ##\n  ~~~python\n    x = 1\n  print(x)\n  ~~~\n";
    let c = extract_inline_computation(body).unwrap();
    assert_eq!(c.language.as_deref(), Some("python"));
    assert_eq!(c.code, "  x = 1\nprint(x)");
}

#[test]
fn no_computation_heading_gives_none() {
    assert!(extract_inline_computation("# Definition\n\n    SELECT 1\n").is_none());
    assert!(extract_inline_computation("#Computation\n\n    SELECT 1\n").is_none());
}

#[test]
fn sources_display_their_kind() {
    let doc = Document::parse("---\ncomputation: a.sql\n---\n").unwrap();
    let c = AttestedComputation::from_parts(&doc.frontmatter, &doc.body);
    assert_eq!(c.computation.to_string(), "file a.sql");
    assert_eq!(ComputationSource::Missing.to_string(), "(missing)");
    let inline = extract_inline_computation("# Computation\n\n    a\n    b\n").unwrap();
    assert_eq!(ComputationSource::Inline(inline).to_string(), "inline (2 line(s))");
    assert_eq!(c.parameters.len(), 0);
}

#[test]
fn a_comment_line_inside_the_fence_is_code_not_a_heading() {
    let body = "# Computation\n\n```python\n# comment\nx = 1\n```\n";
    let c = extract_inline_computation(body).unwrap();
    assert_eq!(c.code, "# comment\nx = 1");
    assert_eq!(c.language.as_deref(), Some("python"));
    assert!(c.fenced);
}

#[test]
fn the_section_still_ends_at_a_heading_after_the_fence_closes() {
    let body = "# Computation\n\n# Notes\n\n```python\nx = 1\n```\n";
    assert!(extract_inline_computation(body).is_none());
}
