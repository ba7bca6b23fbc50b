use okf::bundle::Bundle;
use okf::concept_id::ConceptId;
use okf::refactor::{
    merge_concepts, move_concept, remove_concept, rename_section, split_concept_at, FileEdit, MergeOptions,
    MoveOptions, Plan, RefactorError, RemoveOptions, RenameSectionOptions, SplitOptions,
};
use std::collections::BTreeMap;

const ROOT: &str = "/b";

/// An in-memory bundle directory: relative path to file text.
struct Files {
    map: BTreeMap<String, String>,
}

impl Files {
    fn new() -> Files {
        let mut f = Files { map: BTreeMap::new() };
        f.write("index.md", "---\nokf_version: \"0.2\"\n---\n\n# Bundle\n");
        f
    }

    fn write(&mut self, rel: &str, text: &str) {
        self.map.insert(rel.to_string(), text.to_string());
    }

    fn bundle(&self) -> Bundle {
        let entries = self
            .map
            .iter()
            .map(|(k, v)| (k.clone(), Some(v.clone())))
            .collect();
        Bundle::load(ROOT, entries)
    }

    fn rel(path: &str) -> String {
        path.strip_prefix("/b/").unwrap().to_string()
    }

    fn apply(&mut self, plan: &Plan) {
        for e in &plan.edits {
            match e {
                FileEdit::Write { path, document } => {
                    self.map.insert(Files::rel(path), document.serialize());
                }
                FileEdit::Remove { path } => {
                    self.map.remove(&Files::rel(path));
                }
            }
        }
    }

    fn has_file(&self, rel: &str) -> bool {
        self.map.contains_key(rel)
    }

    fn read(&self, rel: &str) -> String {
        self.map.get(rel).cloned().unwrap()
    }
}

fn id(s: &str) -> ConceptId {
    ConceptId::parse(s).unwrap()
}

#[test]
fn test_move_concept_rewrites_incoming_and_rebases_outgoing() {
    let mut tmp = Files::new();
    tmp.write(
        "auth/token.md",
        "---\ntype: Concept\ntitle: Auth Token\n---\n\n# Auth Token\n\nSee [User Profile](../users/profile.md) for user details.\n",
    );
    tmp.write(
        "users/profile.md",
        "---\ntype: Concept\ntitle: User Profile\n---\n\n# User Profile\n\nUses [Auth Token](../auth/token.md) for authentication.\n",
    );
    tmp.write(
        "overview.md",
        "---\ntype: Concept\ntitle: Overview\n---\n\n# Overview\n\nCheck [Auth Token](auth/token.md#expiration) and [/auth/token.md](/auth/token.md).\n",
    );
    let bundle = tmp.bundle();
    let from = id("auth/token");
    let to = id("security/jwt/token");
    let (report, plan) = move_concept(&bundle, &from, &to, &MoveOptions::default()).unwrap();
    tmp.apply(&plan);

    assert_eq!(report.rewritten_incoming_links, 3);
    assert_eq!(report.rebased_outgoing_links, 1);
    assert!(!tmp.has_file("auth/token.md"));
    assert!(tmp.has_file("security/jwt/token.md"));

    let moved_content = tmp.read("security/jwt/token.md");
    assert!(moved_content.contains("[User Profile](../../users/profile.md)"), "Moved content was: {moved_content}");
    let users_content = tmp.read("users/profile.md");
    assert!(users_content.contains("[Auth Token](../security/jwt/token.md)"), "Users content was: {users_content}");
    let overview_content = tmp.read("overview.md");
    assert!(overview_content.contains("[Auth Token](security/jwt/token.md#expiration)"), "Overview content was: {overview_content}");
    assert!(overview_content.contains("[/auth/token.md](/security/jwt/token.md)"), "Overview content was: {overview_content}");

    let log = plan.log.unwrap();
    assert_eq!(log.kind, "Update");
    assert!(log.message.contains("Renamed concept `auth/token` to `security/jwt/token`"));
    assert!(plan.update_index);
}

#[test]
fn test_move_concept_rebases_frontmatter_resources() {
    let mut tmp = Files::new();
    tmp.write(
        "metrics/calc/revenue.md",
        "---\ntype: Attested Computation\ntitle: Revenue\nruntime: python\ncomputation: ../scripts/rev.py\nexecutor:\n  resource: ../skills/run.md\n  receipt: [result]\nattester:\n  resource: ../attesters/verify.py\nsources:\n  - id: ga4\n    resource: ../data/schema.json\n---\n\n# Revenue\n\nComputed via rev.py.\n",
    );
    let bundle = tmp.bundle();
    let from = id("metrics/calc/revenue");
    let to = id("finance/revenue");
    let (report, plan) = move_concept(&bundle, &from, &to, &MoveOptions::default()).unwrap();
    tmp.apply(&plan);

    assert_eq!(report.rebased_frontmatter_paths, 4);
    let moved_content = tmp.read("finance/revenue.md");
    assert!(moved_content.contains("computation: ../metrics/scripts/rev.py"), "{moved_content}");
    assert!(moved_content.contains("resource: ../metrics/skills/run.md"), "{moved_content}");
    assert!(moved_content.contains("resource: ../metrics/attesters/verify.py"), "{moved_content}");
    assert!(moved_content.contains("resource: ../metrics/data/schema.json"), "{moved_content}");
}

#[test]
fn test_move_concept_dry_run() {
    let mut tmp = Files::new();
    tmp.write("auth.md", "---\ntype: Concept\n---\n\n# Auth\n");
    tmp.write("user.md", "---\ntype: Concept\n---\n\n# User\n\n[Auth](auth.md)\n");
    let bundle = tmp.bundle();
    let opts = MoveOptions { dry_run: true, ..Default::default() };
    let (report, plan) = move_concept(&bundle, &id("auth"), &id("security/auth"), &opts).unwrap();
    tmp.apply(&plan);

    assert!(report.dry_run);
    assert_eq!(report.rewritten_incoming_links, 1);
    assert!(tmp.has_file("auth.md"));
    assert!(!tmp.has_file("security/auth.md"));
    assert!(plan.edits.is_empty());
    assert!(plan.log.is_none());
}

#[test]
fn test_remove_concept_protection_and_redirect() {
    let mut tmp = Files::new();
    tmp.write("legacy.md", "---\ntype: Concept\ntitle: Legacy\n---\n\n# Legacy\n");
    tmp.write("modern.md", "---\ntype: Concept\ntitle: Modern\n---\n\n# Modern\n");
    tmp.write("user.md", "---\ntype: Concept\ntitle: User\n---\n\n# User\n\nSee [Legacy](legacy.md).\n");
    let bundle = tmp.bundle();
    let target = id("legacy");

    let err = remove_concept(&bundle, &target, &RemoveOptions::default()).unwrap_err();
    assert!(matches!(err, RefactorError::HasInboundLinks { .. }));

    let opts = RemoveOptions { redirect_to: Some(id("modern")), ..Default::default() };
    let (report, plan) = remove_concept(&bundle, &target, &opts).unwrap();
    tmp.apply(&plan);

    assert_eq!(report.redirected_count, 1);
    assert!(!tmp.has_file("legacy.md"));
    let user_content = tmp.read("user.md");
    assert!(user_content.contains("[Legacy](modern.md)"));
}

#[test]
fn a_concept_linked_only_by_itself_is_removed_without_force() {
    let mut tmp = Files::new();
    tmp.write("loop.md", "---\ntype: Concept\n---\n\n# Loop\n\nSee [Loop](loop.md).\n");
    tmp.write("other.md", "---\ntype: Concept\n---\n\n# Other\n");
    let bundle = tmp.bundle();
    let (_report, plan) = remove_concept(&bundle, &id("loop"), &RemoveOptions::default()).unwrap();
    tmp.apply(&plan);
    assert!(!tmp.has_file("loop.md"));

    tmp.write("loop.md", "---\ntype: Concept\n---\n\n# Loop\n\nSee [Loop](loop.md).\n");
    tmp.write("other.md", "---\ntype: Concept\n---\n\n# Other\n\nSee [Loop](loop.md).\n");
    let bundle = tmp.bundle();
    match remove_concept(&bundle, &id("loop"), &RemoveOptions::default()) {
        Err(RefactorError::HasInboundLinks { inbound_count, inbound_concepts, .. }) => {
            assert_eq!(inbound_count, 1);
            assert_eq!(inbound_concepts, vec![id("other")]);
        }
        _ => panic!("expected a refusal"),
    }
}

#[test]
fn test_remove_concept_unlink() {
    let mut tmp = Files::new();
    tmp.write("old.md", "---\ntype: Concept\n---\n\n# Old\n");
    tmp.write("user.md", "---\ntype: Concept\n---\n\n# User\n\nSee [Old Docs](old.md) for details.\n");
    let bundle = tmp.bundle();
    let opts = RemoveOptions { unlink: true, ..Default::default() };
    let (report, plan) = remove_concept(&bundle, &id("old"), &opts).unwrap();
    tmp.apply(&plan);

    assert_eq!(report.unlinked_count, 1);
    assert!(!tmp.has_file("old.md"));
    let user_content = tmp.read("user.md");
    assert_eq!(user_content.trim(), "---\ntype: Concept\n---\n\n# User\n\nSee Old Docs for details.");
}

#[test]
fn test_split_concept_extracts_section_and_migrates_footnotes() {
    let mut tmp = Files::new();
    let source_body = "\
---
type: Concept
title: Payments
sources:
  - id: pci-dss
    resource: https://pcisecuritystandards.org
    title: PCI-DSS Spec
  - id: stripe-docs
    resource: https://stripe.com/docs
    title: Stripe Documentation
---

# Payments

Payments are processed via Stripe.[^stripe-docs]

## Security Policy

All cardholder data must comply with PCI-DSS.[^pci-dss]
Retention is limited to tokenized cards.

## Reconciliation

Daily settlement reports are verified.
";
    tmp.write("billing/payments.md", source_body);
    let bundle = tmp.bundle();
    let opts = SplitOptions {
        section: "Security Policy".to_string(),
        title: Some("PCI Compliance".to_string()),
        ..Default::default()
    };
    let (report, plan) = split_concept_at(
        &bundle,
        &id("billing/payments"),
        &id("security/pci"),
        &opts,
        "human:tester",
        "2026-01-02T03:04:05Z",
    )
    .unwrap();
    tmp.apply(&plan);

    assert_eq!(report.target_title, "PCI Compliance");
    assert!(tmp.has_file("security/pci.md"));
    let target_content = tmp.read("security/pci.md");
    assert!(target_content.contains("title: PCI Compliance"), "{target_content}");
    assert!(target_content.contains("resource: https://pcisecuritystandards.org"), "{target_content}");
    assert!(target_content.contains("# PCI Compliance"));
    assert!(target_content.contains("All cardholder data must comply with PCI-DSS.[^pci-dss]"));

    let source_content = tmp.read("billing/payments.md");
    assert!(
        source_content.contains("## Security Policy\n\nSee [PCI Compliance](../security/pci.md).\n"),
        "{source_content}"
    );
    assert!(source_content.contains("## Reconciliation"));
    assert_eq!(plan.log.unwrap().kind, "Creation");
}

#[test]
fn test_merge_concepts_consolidates_and_redirects() {
    let mut tmp = Files::new();
    tmp.write(
        "billing/invoices.md",
        "---\ntype: Concept\ntitle: Invoices\nsources:\n  - id: inv-spec\n    resource: https://example.com/inv\nverified:\n  - by: human:alice\n    at: 2026-06-01T00:00:00Z\n---\n\n# Invoices\n\nInvoice details.[^inv-spec]\n",
    );
    tmp.write(
        "finance/invoicing.md",
        "---\ntype: Concept\ntitle: Invoicing\nsources:\n  - id: fin-spec\n    resource: https://example.com/fin\n---\n\n# Invoicing\n\nFinance rules.[^fin-spec]\n",
    );
    tmp.write("overview.md", "---\ntype: Concept\ntitle: Overview\n---\n\n# Overview\n\nRead [Invoices](billing/invoices.md).\n");
    let bundle = tmp.bundle();
    let (report, plan) =
        merge_concepts(&bundle, &id("billing/invoices"), &id("finance/invoicing"), &MergeOptions::default()).unwrap();
    tmp.apply(&plan);

    assert_eq!(report.rewritten_links_count, 1);
    assert_eq!(report.merged_sources_count, 1);
    assert!(!tmp.has_file("billing/invoices.md"));
    let target_content = tmp.read("finance/invoicing.md");
    assert!(target_content.contains("Finance rules.[^fin-spec]"));
    assert!(target_content.contains("## Invoices"));
    assert!(target_content.contains("Invoice details.[^inv-spec]"));
    assert!(target_content.contains("resource: https://example.com/inv"), "{target_content}");
    assert!(target_content.contains("by: human:alice"), "{target_content}");
    let overview_content = tmp.read("overview.md");
    assert!(overview_content.contains("[Invoices](finance/invoicing.md)"));
}

#[test]
fn test_merge_concepts_with_colliding_sources_and_footnotes() {
    let mut tmp = Files::new();
    tmp.write(
        "source_doc.md",
        "---\ntype: Concept\ntitle: Source Doc\nsources:\n  - id: spec\n    resource: https://source.example.com/spec\n---\n\n# Source Doc\n\nSource claim.[^spec]\n",
    );
    tmp.write(
        "target_doc.md",
        "---\ntype: Concept\ntitle: Target Doc\nsources:\n  - id: spec\n    resource: https://target.example.com/different_spec\n---\n\n# Target Doc\n\nTarget claim.[^spec]\n",
    );
    let bundle = tmp.bundle();
    let (report, plan) =
        merge_concepts(&bundle, &id("source_doc"), &id("target_doc"), &MergeOptions::default()).unwrap();
    tmp.apply(&plan);

    assert_eq!(report.merged_sources_count, 1);
    let target_content = tmp.read("target_doc.md");
    assert!(target_content.contains("resource: https://target.example.com/different_spec"), "{target_content}");
    assert!(target_content.contains("id: source_doc_spec"), "{target_content}");
    assert!(target_content.contains("resource: https://source.example.com/spec"));
    assert!(target_content.contains("Source claim.[^source_doc_spec]"));
    assert!(target_content.contains("Target claim.[^spec]"));
}

#[test]
fn test_rename_section_with_deep_heading_and_slug() {
    let mut tmp = Files::new();
    tmp.write(
        "auth.md",
        "---\ntype: Concept\ntitle: Auth\n---\n\n# Auth\n\nSee [OAuth Info](#oauth-20--token-auth).\n\n### OAuth 2.0 & Token Auth!\n\nDetails.\n",
    );
    tmp.write("users.md", "---\ntype: Concept\ntitle: Users\n---\n\n# Users\n\nRead [Auth Tokens](auth.md#oauth-20--token-auth).\n");
    let bundle = tmp.bundle();
    let (report, plan) = rename_section(
        &bundle,
        &id("auth"),
        "OAuth 2.0 & Token Auth!",
        "Modern OAuth",
        &RenameSectionOptions::default(),
    )
    .unwrap();
    tmp.apply(&plan);

    assert_eq!(report.internal_links_updated, 1);
    assert_eq!(report.external_links_updated, 1);
    let auth_content = tmp.read("auth.md");
    assert!(auth_content.contains("### Modern OAuth"));
    assert!(auth_content.contains("[OAuth Info](#modern-oauth)"));
    let users_content = tmp.read("users.md");
    assert!(users_content.contains("[Auth Tokens](auth.md#modern-oauth)"));
}

#[test]
fn refactor_errors_name_the_refused_input() {
    let mut tmp = Files::new();
    tmp.write("a.md", "---\ntype: Concept\n---\n\n# A\n\n## Part\n\nText.\n");
    tmp.write("b.md", "---\ntype: Concept\n---\n\n# B\n");
    let bundle = tmp.bundle();
    assert!(matches!(
        move_concept(&bundle, &id("a"), &id("a"), &MoveOptions::default()),
        Err(RefactorError::SameSourceAndTarget(_))
    ));
    assert!(matches!(
        move_concept(&bundle, &id("zzz"), &id("c"), &MoveOptions::default()),
        Err(RefactorError::ConceptNotFound(_))
    ));
    assert!(matches!(
        move_concept(&bundle, &id("a"), &id("b"), &MoveOptions::default()),
        Err(RefactorError::ConceptAlreadyExists(_))
    ));
    assert!(matches!(
        rename_section(&bundle, &id("a"), "Nope", "New", &RenameSectionOptions::default()),
        Err(RefactorError::SectionNotFound { .. })
    ));
    assert!(matches!(
        merge_concepts(&bundle, &id("a"), &id("missing"), &MergeOptions::default()),
        Err(RefactorError::ConceptNotFound(_))
    ));
}

#[test]
fn a_serialized_document_reads_back_the_same() {
    let text = "---\ntype: Concept\ntitle: \"0.2\"\ntags:\n  - a\n  - b c\nexecutor:\n  resource: ../x.md\n  receipt: []\nsources:\n  - id: s1\n    resource: https://e.com/a\n---\n\n# Body\n";
    let doc = okf::document::Document::parse(text).unwrap();
    let out = doc.serialize();
    assert_eq!(out, text);
    let again = okf::document::Document::parse(&out).unwrap();
    assert_eq!(again.serialize(), out);
}

#[test]
fn test_move_concept_preserves_all_section_hashtag_formats() {
    let mut tmp = Files::new();
    tmp.write(
        "auth/token.md",
        "---\ntype: Concept\ntitle: Auth Token\n---\n\n# Auth Token\n\n## Expiration\nToken expires after 1h.\n\n## Refresh\nRefresh token details.\n",
    );
    tmp.write(
        "users/profile.md",
        "---\ntype: Concept\ntitle: User Profile\n---\n\n# User Profile\n\n- Relative dot-slash: [Token Exp](./../auth/token#expiration)\n- Relative with md: [Token Refresh](../auth/token.md#refresh)\n- Direct relative: [Direct](./token#expiration)\n- Absolute root: [Absolute](/auth/token.md#expiration)\n- With title: [Titled](../auth/token.md#expiration \"Auth Exp Title\")\n",
    );
    let bundle = tmp.bundle();
    let (report, plan) = move_concept(&bundle, &id("auth/token"), &id("security/jwt/token"), &MoveOptions::default()).unwrap();
    tmp.apply(&plan);
    assert_eq!(report.rewritten_incoming_links, 4);
    let users_content = tmp.read("users/profile.md");
    assert!(users_content.contains("[Token Exp](../security/jwt/token.md#expiration)"), "Content was:\n{users_content}");
    assert!(users_content.contains("[Token Refresh](../security/jwt/token.md#refresh)"), "Content was:\n{users_content}");
    assert!(users_content.contains("[Absolute](/security/jwt/token.md#expiration)"), "Content was:\n{users_content}");
    assert!(
        users_content.contains("[Titled](../security/jwt/token.md#expiration \"Auth Exp Title\")"),
        "Content was:\n{users_content}"
    );
}

#[test]
fn test_in_document_anchors_inside_moved_concept_are_unmodified() {
    let mut tmp = Files::new();
    tmp.write(
        "auth/token.md",
        "---\ntype: Concept\ntitle: Auth Token\n---\n\n# Auth Token\n\nSee [Internal Expiration](#expiration) within this document.\n\n## Expiration\nDetails.\n",
    );
    let bundle = tmp.bundle();
    let (_, plan) = move_concept(&bundle, &id("auth/token"), &id("security/jwt"), &MoveOptions::default()).unwrap();
    tmp.apply(&plan);
    let moved = tmp.read("security/jwt.md");
    assert!(moved.contains("[Internal Expiration](#expiration)"));
}
