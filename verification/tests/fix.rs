use okf::document::{Document, Frontmatter};
use okf::bundle::Bundle;
use okf::concept_id::ConceptId;
use okf::fix::{remediate_bundle, remediate_bundle_at, remediate_document, remediate_file_at, remediate_log, FixOptions, RemediationKind};

const AUTHOR: &str = "human:fallback";

#[test]
fn fixes_missing_title_and_derives_from_stem() {
    let input = "---\ntype: Concept\n---\n# Some Content\n";
    let doc = Document::parse(input).unwrap();
    let opts = FixOptions { add_missing_title: true, ..Default::default() };
    let (remediated, fixes) = remediate_document(&doc, Some("gross_margin"), &opts, AUTHOR);
    assert_eq!(remediated.frontmatter.title().as_deref(), Some("Gross Margin"));
    assert!(fixes.iter().any(|f| matches!(&f.kind, RemediationKind::AddedTitle(t) if t == "Gross Margin")));
}

#[test]
fn fixes_missing_generated_block() {
    let input = "---\ntype: Metric\ntitle: MRR\n---\n# MRR\nMonthly recurring revenue.\n";
    let doc = Document::parse(input).unwrap();
    let opts = FixOptions { author: Some("human:charlie".to_string()), ..Default::default() };
    let (remediated, fixes) = remediate_document(&doc, Some("mrr"), &opts, AUTHOR);
    let generated = remediated.frontmatter.generated().unwrap();
    assert_eq!(generated.by.unwrap().as_str(), "human:charlie");
    assert!(generated.at.is_some());
    assert!(fixes.iter().any(|f| matches!(f.kind, RemediationKind::AddedGenerated)));
}

#[test]
fn migrates_legacy_timestamp_to_generated() {
    let input = "---\n\
                 type: Concept\n\
                 title: Architecture\n\
                 timestamp: 2026-03-15T12:00:00Z\n\
                 ---\n\n\
                 # Architecture\n\
                 System design overview.\n";
    let doc = Document::parse(input).unwrap();
    let opts = FixOptions { author: Some("process:migrator".to_string()), ..Default::default() };
    let (remediated, fixes) = remediate_document(&doc, Some("arch"), &opts, AUTHOR);
    assert!(remediated.frontmatter.get("timestamp").is_none());
    let generated = remediated.frontmatter.generated().unwrap();
    assert_eq!(generated.by.unwrap().as_str(), "process:migrator");
    assert_eq!(generated.at.unwrap().raw, "2026-03-15T12:00:00Z");
    assert!(fixes.iter().any(|f| matches!(f.kind, RemediationKind::MigratedTimestamp)));
}

#[test]
fn removes_redundant_legacy_timestamp_when_generated_present() {
    let input = "---\n\
                 type: Concept\n\
                 title: Architecture\n\
                 timestamp: 2026-03-15T12:00:00Z\n\
                 generated:\n\
                 \x20 by: human:alice\n\
                 \x20 at: 2026-04-01T10:00:00Z\n\
                 ---\n\n\
                 # Architecture\n\
                 System design overview.\n";
    let doc = Document::parse(input).unwrap();
    let opts = FixOptions::default();
    let (remediated, fixes) = remediate_document(&doc, Some("arch"), &opts, AUTHOR);
    assert!(remediated.frontmatter.get("timestamp").is_none());
    let generated = remediated.frontmatter.generated().unwrap();
    assert_eq!(generated.by.unwrap().as_str(), "human:alice");
    assert_eq!(generated.at.unwrap().raw, "2026-04-01T10:00:00Z");
    assert!(fixes.iter().any(|f| matches!(f.kind, RemediationKind::MigratedTimestamp)));
}

#[test]
fn migrates_legacy_citations_section_and_rewrites_body_references() {
    let input = "---\n\
                 type: Concept\n\
                 title: Standards\n\
                 generated:\n\
                   by: human:alice\n\
                   at: 2026-01-01T00:00:00Z\n\
                 ---\n\n\
                 # Standards\n\n\
                 According to [1] and corroborated by [2], the metric follows industry standard.\n\n\
                 # Citations\n\
                 [1] [ISO Standard](https://iso.org/std/123)\n\
                 [2] https://w3.org/spec\n";
    let doc = Document::parse(input).unwrap();
    let opts = FixOptions::default();
    let (remediated, fixes) = remediate_document(&doc, Some("standards"), &opts, AUTHOR);
    let sources = remediated.frontmatter.sources();
    assert_eq!(sources.len(), 2);
    assert_eq!(sources[0].id.as_deref(), Some("1"));
    assert_eq!(sources[0].resource.as_deref(), Some("https://iso.org/std/123"));
    assert_eq!(sources[0].title.as_deref(), Some("ISO Standard"));
    assert_eq!(sources[1].id.as_deref(), Some("2"));
    assert_eq!(sources[1].resource.as_deref(), Some("https://w3.org/spec"));
    assert!(!remediated.body.contains("# Citations"));
    assert!(remediated.body.contains("According to [^1] and corroborated by [^2]"));
    assert!(fixes.iter().any(|f| matches!(f.kind, RemediationKind::MigratedCitations)));
}

#[test]
fn adds_missing_top_level_heading() {
    let input = "---\n\
                 type: Concept\n\
                 title: Getting Started\n\
                 generated:\n\
                   by: human:alice\n\
                   at: 2026-01-01T00:00:00Z\n\
                 ---\n\n\
                 Welcome to the bundle.\n";
    let doc = Document::parse(input).unwrap();
    let opts = FixOptions::default();
    let (remediated, fixes) = remediate_document(&doc, Some("intro"), &opts, AUTHOR);
    assert!(remediated.body.starts_with("# Getting Started\n\nWelcome to the bundle."));
    assert!(fixes.iter().any(|f| matches!(&f.kind, RemediationKind::AddedTopHeading(t) if t == "Getting Started")));
}

#[test]
fn tags_unlabeled_computation_code_block() {
    let input = "---\n\
                 type: Attested Computation\n\
                 title: Calc Revenue\n\
                 runtime: python\n\
                 generated:\n\
                   by: human:alice\n\
                   at: 2026-01-01T00:00:00Z\n\
                 ---\n\n\
                 # Calc Revenue\n\n\
                 # Computation\n\n\
                 ```\n\
                 def compute(a, b):\n\
                     return a + b\n\
                 ```\n";
    let doc = Document::parse(input).unwrap();
    let opts = FixOptions::default();
    let (remediated, fixes) = remediate_document(&doc, Some("calc"), &opts, AUTHOR);
    assert!(remediated.body.contains("```python\ndef compute"));
    assert!(fixes.iter().any(|f| matches!(&f.kind, RemediationKind::AddedComputationLanguage(l) if l == "python")));
}

#[test]
fn normalizes_frontmatter_key_order() {
    let input = "---\n\
                 sources:\n\
                 \x20 - { id: s1, resource: https://example.com }\n\
                 title: Messy\n\
                 status: stable\n\
                 type: Concept\n\
                 generated:\n\
                 \x20 by: human:alice\n\
                 \x20 at: 2026-01-01T00:00:00Z\n\
                 ---\n\n\
                 # Messy\n";
    let doc = Document::parse(input).unwrap();
    let opts = FixOptions::default();
    let (remediated, fixes) = remediate_document(&doc, Some("messy"), &opts, AUTHOR);
    let keys: Vec<&str> = remediated.frontmatter.as_mapping().keys();
    assert_eq!(keys, vec!["type", "title", "status", "generated", "sources"]);
    assert!(fixes.iter().any(|f| matches!(f.kind, RemediationKind::KeyOrder)));
}

#[test]
fn cleans_trailing_whitespace_and_excess_blank_lines() {
    let cases = [
        ("# Title\n\nsometext    \n", "# Title\n\nsometext\n"),
        ("# Title\n\nsometext    \n    ", "# Title\n\nsometext\n"),
        ("# Title\n\nsometext     \n   \n   \n     ", "# Title\n\nsometext\n"),
        ("# Title\n\nsometext\t\t\n", "# Title\n\nsometext\n"),
        ("# Title\n\nsometext\n\n\n\n\nmore\n", "# Title\n\nsometext\n\n\nmore\n"),
        ("# Title\n\nsometext\n\n\n\n", "# Title\n\nsometext\n"),
    ];
    for (body, want) in cases {
        let doc = Document::new(Frontmatter::new(), body.to_string());
        let (fixed, fixes) = remediate_document(&doc, None, &FixOptions::default(), AUTHOR);
        assert_eq!(fixed.body, want);
        assert!(fixes.iter().any(|f| matches!(f.kind, RemediationKind::CleanedWhitespace)));
    }
}

#[test]
fn remediates_duplicate_log_dates() {
    let log_text = "# Update Log\n\n\
                    ## 2026-05-10\n\
                    * **Creation**: Created overview.\n\n\
                    ## 2026-05-10\n\
                    * **Update**: Added metric link.\n";
    let (remediated, fixes) = remediate_log(log_text, &FixOptions::default());
    assert_eq!(remediated.matches("## 2026-05-10").count(), 1);
    assert!(remediated.contains("* **Creation**: Created overview."));
    assert!(remediated.contains("* **Update**: Added metric link."));
    assert_eq!(fixes.len(), 1);
}

#[test]
fn remediates_missing_title_and_generated_and_heading() {
    let input = "---\ntype: Concept\n---\nBody text.\n";
    let doc = Document::parse(input).unwrap();
    let opts = FixOptions { author: Some("human:alice".to_string()), ..Default::default() };
    let (fixed_doc, remediations) = remediate_document(&doc, Some("revenue_stream"), &opts, AUTHOR);
    assert_eq!(fixed_doc.frontmatter.title().as_deref(), Some("Revenue Stream"));
    assert_eq!(fixed_doc.frontmatter.generated().unwrap().by.unwrap().as_str(), "human:alice");
    assert!(fixed_doc.body.starts_with("# Revenue Stream\n\n"));
    assert_eq!(remediations.len(), 3);
}

#[test]
fn migrates_legacy_timestamp_and_citations() {
    let input = "---\n\
                 type: Concept\n\
                 title: Revenue\n\
                 timestamp: 2026-05-01T00:00:00Z\n\
                 ---\n\n\
                 # Definition\n\
                 Defined in [1] and [2].\n\n\
                 # Citations\n\
                 [1] [GAAP Standards](https://example.com/gaap)\n\
                 [2] https://example.com/sec\n";
    let doc = Document::parse(input).unwrap();
    let opts = FixOptions { author: Some("human:bob".to_string()), ..Default::default() };
    let (fixed_doc, remediations) = remediate_document(&doc, Some("revenue"), &opts, AUTHOR);
    assert!(fixed_doc.frontmatter.get("timestamp").is_none());
    assert_eq!(fixed_doc.frontmatter.generated().unwrap().at.unwrap().raw, "2026-05-01T00:00:00Z");
    assert_eq!(fixed_doc.frontmatter.generated().unwrap().by.unwrap().as_str(), "human:bob");
    let sources = fixed_doc.frontmatter.sources();
    assert_eq!(sources.len(), 2);
    assert_eq!(sources[0].id.as_deref(), Some("1"));
    assert_eq!(sources[0].resource.as_deref(), Some("https://example.com/gaap"));
    assert_eq!(sources[0].title.as_deref(), Some("GAAP Standards"));
    assert!(!fixed_doc.body.contains("# Citations"));
    assert!(fixed_doc.body.contains("Defined in [^1] and [^2]."));
    assert!(remediations.iter().any(|r| matches!(r.kind, RemediationKind::MigratedTimestamp)));
    assert!(remediations.iter().any(|r| matches!(r.kind, RemediationKind::MigratedCitations)));
}

#[test]
fn tags_computation_code_block() {
    let input = "---\n\
                 type: Attested Computation\n\
                 runtime: python\n\
                 ---\n\n\
                 # Computation\n\n\
                 ```\n\
                 def compute():\n\
                     return 42\n\
                 ```\n";
    let doc = Document::parse(input).unwrap();
    let (fixed_doc, remediations) = remediate_document(&doc, Some("calc"), &FixOptions::default(), AUTHOR);
    assert!(fixed_doc.body.contains("```python\n"));
    assert!(remediations.iter().any(|r| matches!(r.kind, RemediationKind::AddedComputationLanguage(_))));
}

#[test]
fn consolidates_duplicate_log_dates() {
    let input = "# Update Log\n\n\
                 ## 2026-06-01\n\
                 * **Update**: Changed formula.\n\n\
                 ## 2026-06-01\n\
                 * **Creation**: Added concept.\n";
    let (fixed, remediations) = remediate_log(input, &FixOptions::default());
    assert_eq!(remediations.len(), 1);
    assert_eq!(fixed.matches("## 2026-06-01").count(), 1);
    assert!(fixed.contains("* **Update**: Changed formula."));
    assert!(fixed.contains("* **Creation**: Added concept."));
}

#[test]
fn a_log_without_duplicates_is_left_as_written() {
    let input = "# Update Log\n\n## 2026-06-02\n* **Update**: B.\n\n## 2026-06-01\n* **Update**: A.\n";
    let (fixed, remediations) = remediate_log(input, &FixOptions::default());
    assert!(remediations.is_empty());
    assert_eq!(fixed, input);
}

#[test]
fn a_computation_block_that_names_its_language_is_left_as_written() {
    let input = "---\ntype: Attested Computation\nruntime: python\n---\n\n# Computation\n\n```sql\nSELECT 1\n```\n";
    let doc = Document::parse(input).unwrap();
    let opts = FixOptions {
        author: None,
        add_missing_title: false,
        add_missing_generated: false,
        add_missing_top_heading: false,
        migrate_legacy_timestamp: false,
        migrate_legacy_citations: false,
        reorder_keys: false,
        tag_computation_blocks: true,
        fix_log_duplicates: false,
        clean_whitespace: false,
        regenerate_indexes: false,
    };
    let (remediated, fixes) = remediate_document(&doc, None, &opts, AUTHOR);
    assert_eq!(remediated.body, doc.body);
    assert!(fixes.is_empty());
}

#[test]
fn only_the_untagged_block_after_a_tagged_one_is_tagged() {
    let (out, changed) = okf::fix::tag_computation_block(
        "# Computation\n```sql\nSELECT 1\n```\n```\nx = 1\n```",
        "python",
    );
    assert!(changed);
    assert_eq!(out, "# Computation\n```sql\nSELECT 1\n```\n```python\nx = 1\n```");
}

fn file(path: &str, text: &str) -> (String, Option<String>) {
    (path.to_string(), Some(text.to_string()))
}

#[test]
fn a_bundle_fix_reports_each_markdown_file_but_the_index_in_path_order() {
    let log_text = "# Update Log\n\n## 2026-05-10\n* **Creation**: a.\n\n## 2026-05-10\n* **Update**: b.\n";
    let entries = vec![
        file("z.md", "---\ntype: Concept\ntitle: Z\ngenerated:\n  by: human:a\n  at: 2026-01-01T00:00:00Z\n---\n\n# Z\n"),
        file("index.md", "# Index\n"),
        file(".hidden/h.md", "# H\n"),
        file("node_modules/m.md", "# M\n"),
        file("a/b.md", "---\ntype: [broken\n---\n"),
        file("log.md", log_text),
        ("notes.txt".to_string(), None),
        file("a/c.md", "# C\n"),
    ];
    let report = remediate_bundle_at("/b", entries, &FixOptions::default(), AUTHOR, "2026-02-02T00:00:00Z");
    assert_eq!(report.bundle_root, "/b");
    let paths: Vec<&str> = report.files.iter().map(|f| f.path.as_str()).collect();
    assert_eq!(paths, vec!["/b/a/c.md", "/b/log.md", "/b/z.md"]);
    let c = &report.files[0];
    assert!(c.changed);
    assert!(c.remediated_content.contains("title: C"));
    assert!(c.remediated_content.contains("2026-02-02T00:00:00Z"));
    let log = &report.files[1];
    assert!(log.changed);
    assert_eq!(log.remediations.len(), 1);
    assert_eq!(report.index_files_to_regenerate, vec!["/b/index.md".to_string(), "/b/a/index.md".to_string()]);
    let changed = report.files.iter().filter(|f| f.changed).count();
    assert_eq!(report.changed_files().len(), changed);
    let total: usize = report.files.iter().map(|f| f.remediations.len()).sum();
    assert_eq!(report.total_remediations(), total);
    assert!(!report.is_empty());
}

#[test]
fn a_file_that_does_not_parse_gives_no_report_and_the_index_is_left_alone() {
    let opts = FixOptions::default();
    assert!(remediate_file_at("/b/x.md", "---\ntype: [broken\n---\n", &opts, AUTHOR, "t").is_none());
    let idx = remediate_file_at("/b/index.md", "# Index  \n", &opts, AUTHOR, "t").unwrap();
    assert_eq!(idx.remediated_content, "# Index  \n");
    assert!(!idx.changed && idx.remediations.is_empty());
}

#[test]
fn remediate_bundle_end_to_end() {
    let mut files: Vec<(String, Option<String>)> = vec![
        file("index.md", "---\nokf_version: \"0.2\"\n---\n\n# OKF Bundle\n"),
        file("log.md", "# Update Log\n\n## 2026-01-01\n* Entry 1\n\n## 2026-01-01\n* Entry 2\n"),
        file(
            "metrics/revenue.md",
            "---\ntype: Metric\ntimestamp: 2026-01-01T00:00:00Z\n---\n\nRevenue represents income.\n",
        ),
    ];
    let opts = FixOptions { author: Some("human:alice".to_string()), ..Default::default() };
    let report = remediate_bundle("/b", files.clone(), &opts, AUTHOR);
    assert_eq!(report.total_remediations(), 4);
    let mut written = 0;
    for f in report.changed_files() {
        let rel = f.path.strip_prefix("/b/").unwrap();
        for e in files.iter_mut() {
            if e.0 == rel {
                e.1 = Some(f.remediated_content.clone());
            }
        }
        written += 1;
    }
    assert!(written >= 2);
    let bundle = Bundle::load("/b", files);
    let rev = bundle.get(&ConceptId::parse("metrics/revenue").unwrap()).unwrap();
    assert_eq!(rev.display_title(), "Revenue");
    assert_eq!(rev.document.frontmatter.generated().unwrap().by.unwrap().as_str(), "human:alice");
    assert!(rev.document.body.starts_with("# Revenue\n\nRevenue represents income."));
}

#[test]
fn with_nothing_to_fix_only_missing_concept_indexes_are_listed() {
    let entries = vec![
        file("index.md", "# Index\n"),
        file("t.md", "---\ntype: Concept\n---\n# T\n"),
        file("x/y.md", "---\ntype: Concept\n---\n# Y\n"),
        file("w/v/u.md", "---\ntype: Concept\n---\n# U\n"),
        file("w/v/index.md", "# V\n"),
    ];
    let opts = FixOptions {
        author: None,
        add_missing_title: false,
        add_missing_generated: false,
        add_missing_top_heading: false,
        migrate_legacy_timestamp: false,
        migrate_legacy_citations: false,
        reorder_keys: false,
        tag_computation_blocks: false,
        fix_log_duplicates: false,
        clean_whitespace: false,
        regenerate_indexes: true,
    };
    let report = remediate_bundle_at("/b", entries.clone(), &opts, AUTHOR, "t");
    assert!(report.files.iter().all(|f| !f.changed));
    assert_eq!(report.index_files_to_regenerate, vec!["/b/x/index.md".to_string()]);
    assert!(!report.is_empty());
    let quiet = FixOptions { regenerate_indexes: false, ..opts };
    let report = remediate_bundle_at("/b", entries, &quiet, AUTHOR, "t");
    assert!(report.index_files_to_regenerate.is_empty());
    assert!(report.is_empty());
}
