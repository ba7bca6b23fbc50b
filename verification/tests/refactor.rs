use okf::concept_id::ConceptId;
use okf::markdown::{rewrite_markdown_links, LinkRewriteAction};
use okf::paths::{compute_relative_path, rebase_relative_path};

#[test]
fn test_compute_relative_path() {
    let from = ConceptId::parse("auth/tokens/jwt").unwrap();
    let to_same = ConceptId::parse("auth/tokens/refresh").unwrap();
    assert_eq!(compute_relative_path(&from, &to_same), "refresh.md");

    let to_up = ConceptId::parse("auth/user").unwrap();
    assert_eq!(compute_relative_path(&from, &to_up), "../user.md");

    let to_deep = ConceptId::parse("billing/invoicing/pdf").unwrap();
    assert_eq!(
        compute_relative_path(&from, &to_deep),
        "../../billing/invoicing/pdf.md"
    );

    let root = ConceptId::parse("overview").unwrap();
    assert_eq!(compute_relative_path(&root, &from), "auth/tokens/jwt.md");
    assert_eq!(compute_relative_path(&from, &root), "../../overview.md");
}

#[test]
fn test_rebase_relative_path() {
    let old_dir = vec!["auth".to_string(), "tokens".to_string()];
    let new_dir = vec!["security".to_string()];

    let rebased = rebase_relative_path(&old_dir, &new_dir, "../scripts/calc.py");
    assert_eq!(rebased, "../auth/scripts/calc.py");

    let rebased_anchor = rebase_relative_path(&old_dir, &new_dir, "../user.md#profile");
    assert_eq!(rebased_anchor, "../auth/user.md#profile");
}

#[test]
fn refactor_test_rewrite_markdown_links() {
    let body = "\
# Title

See [User Guide](../guides/user.md) and [Profile](/users/profile.md#info).
Also `[Code Link](../not/a/link.md)` should not change.

```python
# [Python Link](../ignored.md)
pass
```
";

    let (rewritten, count) = rewrite_markdown_links(body, |link, _| {
        if link.target.starts_with("../guides/user.md") {
            LinkRewriteAction::Rewrite("../../docs/user.md".to_string())
        } else if link.target.starts_with("/users/profile.md") {
            LinkRewriteAction::Unlink
        } else {
            LinkRewriteAction::Keep
        }
    });

    assert_eq!(count, 2);
    assert!(rewritten.contains("[User Guide](../../docs/user.md)"));
    assert!(rewritten.contains("and Profile."));
    assert!(rewritten.contains("`[Code Link](../not/a/link.md)`"));
    assert!(rewritten.contains("# [Python Link](../ignored.md)"));
}

#[test]
fn test_compute_relative_path_and_rebase_edge_cases() {
    // Deep to deep with common prefix
    let a = ConceptId::parse("a/b/c/d").unwrap();
    let b = ConceptId::parse("a/b/e/f").unwrap();
    assert_eq!(compute_relative_path(&a, &b), "../e/f.md");

    // Parent to nested child
    let parent = ConceptId::parse("a").unwrap();
    let child = ConceptId::parse("a/b/c").unwrap();
    assert_eq!(compute_relative_path(&parent, &child), "a/b/c.md");

    // Nested child to parent
    assert_eq!(compute_relative_path(&child, &parent), "../../a.md");

    // Rebase relative path edge cases
    let old_dir = vec!["a".to_string(), "b".to_string(), "c".to_string()];
    let new_dir = vec!["x".to_string(), "y".to_string()];

    // In-document anchor should remain unchanged
    assert_eq!(
        rebase_relative_path(&old_dir, &new_dir, "#my-anchor"),
        "#my-anchor"
    );

    // External URI should remain unchanged
    assert_eq!(
        rebase_relative_path(&old_dir, &new_dir, "https://example.com/api#doc"),
        "https://example.com/api#doc"
    );

    // Absolute path should remain unchanged
    assert_eq!(
        rebase_relative_path(&old_dir, &new_dir, "/data/schema.json"),
        "/data/schema.json"
    );

    // Deep relative file path
    assert_eq!(
        rebase_relative_path(&old_dir, &new_dir, "../../data/schema.json"),
        "../../a/data/schema.json"
    );
}

#[test]
fn a_relative_link_resolves_back_to_its_target() {
    let from = ConceptId::parse("auth/tokens/jwt").unwrap();
    let to = ConceptId::parse("billing/pdf").unwrap();
    let rel = compute_relative_path(&from, &to);
    // Rebasing the link from the source's directory to the root directory
    // names the target by its bundle path.
    let old_dir = vec!["auth".to_string(), "tokens".to_string()];
    assert_eq!(rebase_relative_path(&old_dir, &vec![], &rel), "billing/pdf.md");
}
