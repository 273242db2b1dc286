use rustc_utils::lint_metadata::{LintMetadata, SerializableSpan};
use rustc_utils::past_names::collect_renames;

fn lint(id: &str, docs: &str) -> LintMetadata {
    LintMetadata::new(
        id.to_string(),
        SerializableSpan { path: "clippy_lints/src/x.rs".to_string(), line: 7 },
        "style".to_string(),
        "warn",
        "1.0.0".to_string(),
        docs.to_string(),
    )
}

#[test]
fn past_names_are_found_through_chains_of_renamings() {
    let table = [
        ("clippy::old_a", "clippy::new"),
        ("clippy::older_a", "clippy::old_a"),
        ("clippy::b", "clippy::new"),
        ("rustc_x", "clippy::new"),
        ("clippy::other", "rustc_y"),
    ];
    let mut lints = vec![lint("new", "Docs."), lint("unrelated", "More docs.")];
    collect_renames(&mut lints, &table);
    assert_eq!(lints[0].docs, "Docs.\n### Past names\n\n* `old_a`\n* `b`\n* `older_a`\n\n");
    assert_eq!(lints[0].former_ids, vec!["b".to_string(), "old_a".to_string(), "older_a".to_string()]);
    assert_eq!(lints[1].docs, "More docs.");
    assert!(lints[1].former_ids.is_empty());
    assert_eq!(lints[0].id, "new");
}

#[test]
fn a_name_reached_twice_is_listed_twice_but_kept_once() {
    let table = [
        ("clippy::a", "clippy::new"),
        ("clippy::b", "clippy::new"),
        ("clippy::x", "clippy::a"),
        ("clippy::x", "clippy::b"),
    ];
    let mut lints = vec![lint("new", "")];
    collect_renames(&mut lints, &table);
    assert_eq!(lints[0].docs, "\n### Past names\n\n* `a`\n* `b`\n* `x`\n* `x`\n\n");
    assert_eq!(lints[0].former_ids, vec!["a".to_string(), "b".to_string(), "x".to_string()]);
}
