use rustc_utils::lint_metadata::{
    cleanup_docs, fill_produces, get_lint_level_from_group, produces_sites, take_higher_applicability,
    LintMetadata, ProducesError, SerializableSpan,
};

#[test]
fn default_levels_of_groups() {
    assert_eq!(get_lint_level_from_group("correctness"), Some("deny"));
    assert_eq!(get_lint_level_from_group("suspicious"), Some("warn"));
    assert_eq!(get_lint_level_from_group("restriction"), Some("allow"));
    assert_eq!(get_lint_level_from_group("style"), Some("warn"));
    assert_eq!(get_lint_level_from_group("pedantic"), Some("allow"));
    assert_eq!(get_lint_level_from_group("complexity"), Some("warn"));
    assert_eq!(get_lint_level_from_group("perf"), Some("warn"));
    assert_eq!(get_lint_level_from_group("cargo"), Some("allow"));
    assert_eq!(get_lint_level_from_group("nursery"), Some("allow"));
    assert_eq!(get_lint_level_from_group("internal"), None);
    assert_eq!(get_lint_level_from_group("Style"), None);
    assert_eq!(get_lint_level_from_group(""), None);
}

#[test]
fn higher_applicability() {
    assert_eq!(take_higher_applicability(Some(1), Some(3)), Some(3));
    assert_eq!(take_higher_applicability(Some(3), Some(1)), Some(3));
    assert_eq!(take_higher_applicability(Some(2), None), Some(2));
    assert_eq!(take_higher_applicability(None, Some(4)), Some(4));
    assert_eq!(take_higher_applicability(None, None), None);
    assert_eq!(take_higher_applicability(Some(0), None), Some(0));
}

#[test]
fn new_lint_metadata_has_no_applicability_or_past_names() {
    let span = SerializableSpan { path: "src/lib.rs".to_string(), line: 12 };
    let m = LintMetadata::new(
        "needless_borrow".to_string(),
        span,
        "style".to_string(),
        "warn",
        "1.56.0".to_string(),
        "docs".to_string(),
    );
    assert_eq!(m.id, "needless_borrow");
    assert_eq!(m.id_span.path, "src/lib.rs");
    assert_eq!(m.id_span.line, 12);
    assert_eq!(m.group, "style");
    assert_eq!(m.level, "warn");
    assert_eq!(m.version, "1.56.0");
    assert_eq!(m.docs, "docs");
    assert!(m.applicability.is_none());
    assert!(m.former_ids.is_empty());
}

fn strings(lines: &[&str]) -> Vec<String> {
    lines.iter().map(|s| s.to_string()).collect()
}

#[test]
fn cleanup_strips_the_doc_space_and_keeps_only_the_language() {
    let docs = strings(&[
        " ### What it does",
        " Checks for x.",
        "",
        " ```rust,ignore",
        " # use std::x;",
        " let x = 1;",
        " ```",
        " ```",
        " no lang",
        " ```",
    ]);
    assert_eq!(
        cleanup_docs(&docs),
        "\n### What it does\nChecks for x.\n\n```rust\nlet x = 1;\n```\n```rust\nno lang\n```"
    );
}

#[test]
fn cleanup_keeps_hidden_lines_outside_rust_blocks() {
    let docs = strings(&[" ```text", " # not hidden", " ```", " # a heading"]);
    assert_eq!(cleanup_docs(&docs), "\n```text\n# not hidden\n```\n# a heading");
    let docs = strings(&["```no_run,should_panic,toml", "# kept", "```"]);
    assert_eq!(cleanup_docs(&docs), "\n```toml\n# kept\n```");
    // The words are split at commas but not trimmed one by one.
    let docs = strings(&["```no_run, should_panic", "```"]);
    assert_eq!(cleanup_docs(&docs), "\n``` should_panic\n```");
    let docs = strings(&["```ignore", "# dropped", "x", "```"]);
    assert_eq!(cleanup_docs(&docs), "\n```rust\nx\n```");
    assert_eq!(cleanup_docs(&Vec::new()), "");
}

#[test]
fn produces_sites_finds_examples_with_a_marker() {
    let docs = "### Example\n```rust\nlet x = 1;\nlet y = x;\n```\n\n{{produces}}\n\nUse instead:\n```rust\nlet y = 2;\n```\n{{produces}}";
    let sites = produces_sites(docs).unwrap();
    assert_eq!(sites.len(), 1);
    assert_eq!(sites[0].example, vec![2, 3]);
    assert_eq!(sites[0].marker, 6);
}

#[test]
fn produces_sites_skips_examples_without_a_marker_and_ignored_ones() {
    let docs = "```rust\na\n```\ntext\n```rust,ignore\nb\n```\n```rust\nc\n```\n  {{produces}}  ";
    let sites = produces_sites(docs).unwrap();
    assert_eq!(sites.len(), 1);
    assert_eq!(sites[0].example, vec![8]);
    assert_eq!(sites[0].marker, 10);
    assert!(produces_sites("no examples here").unwrap().is_empty());
}

#[test]
fn produces_sites_reports_malformed_docs() {
    assert_eq!(
        produces_sites("```rust\nlet x = 1;").err(),
        Some(ProducesError::UnterminatedCodeBlock)
    );
    assert_eq!(
        produces_sites("```rust,ignore\nfoo\n").err(),
        Some(ProducesError::UnterminatedCodeBlock)
    );
    assert_eq!(
        produces_sites("text\n{{produces}}").err(),
        Some(ProducesError::MisplacedProducesMarker)
    );
    assert_eq!(
        produces_sites("```rust,no_run\nfoo\n```\n{{produces}}").err(),
        Some(ProducesError::MisplacedProducesMarker)
    );
}

#[test]
fn fill_produces_replaces_the_marker_and_cleans() {
    let docs = " ```rust\n let x = 1;\n ```\n {{produces}}";
    let sites = produces_sites(docs).unwrap();
    assert_eq!(sites.len(), 1);
    let filled = fill_produces(docs, &sites, &vec!["warning: unused".to_string()]);
    assert_eq!(
        filled,
        "\n```rust\nlet x = 1;\n```\n<details><summary>Produces</summary>\n\n```text\nwarning: unused\n```\n</details>"
    );
    assert_eq!(fill_produces(" a\r\n b", &Vec::new(), &Vec::new()), "\na\nb");
}
