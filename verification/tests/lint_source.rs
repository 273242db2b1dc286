use rustc_utils::lint_source::{
    gather_from_sources, lint_module_name, parse_contents, parse_deprecated_contents,
    parse_deprecated_tokens, parse_lint_tokens, parse_renamed_contents, quoted_literal,
    renamed_entry_tokens, TokKind,
};
use rustc_utils::update_lints::{DeprecatedLint, Lint, RenamedLint};

#[test]
fn test_parse_contents() {
    static CONTENTS: &str = r#"
        declare_clippy_lint! {
            #[clippy::version = "Hello Clippy!"]
            pub PTR_ARG,
            style,
            "really long \
            text"
        }

        declare_clippy_lint!{
            #[clippy::version = "Test version"]
            pub DOC_MARKDOWN,
            pedantic,
            "single line"
        }
    "#;
    let mut result = Vec::new();
    parse_contents(CONTENTS, "module_name", &mut result).unwrap();

    let expected = vec![
        Lint::new("ptr_arg", "style", "\"really long text\"", "module_name"),
        Lint::new("doc_markdown", "pedantic", "\"single line\"", "module_name"),
    ];
    assert_eq!(expected, result);
}

#[test]
fn test_parse_deprecated_contents() {
    static DEPRECATED_CONTENTS: &str = r#"
        /// some doc comment
        declare_deprecated_lint! {
            #[clippy::version = "I'm a version"]
            pub SHOULD_ASSERT_EQ,
            "`assert!()` will be more flexible with RFC 2011"
        }
    "#;

    let mut result = Vec::new();
    parse_deprecated_contents(DEPRECATED_CONTENTS, &mut result).unwrap();

    let expected = vec![DeprecatedLint::new(
        "should_assert_eq",
        "\"`assert!()` will be more flexible with RFC 2011\"",
    )];
    assert_eq!(expected, result);
}

#[test]
fn parse_contents_without_version_attribute_and_with_comments() {
    let contents = "
        // a comment before
        declare_clippy_lint! { // trailing comment
            pub SOME_LINT, // another
            correctness,
            r#\"raw description\"#
        }
        fn unrelated() {}
    ";
    let mut result = Vec::new();
    parse_contents(contents, "m", &mut result).unwrap();
    assert_eq!(result, vec![Lint::new("some_lint", "correctness", "r#\"raw description\"#", "m")]);
}

#[test]
fn parse_contents_skips_malformed_declarations() {
    let contents = "
        declare_clippy_lint! ( pub BROKEN, style, \"x\" )
        declare_clippy_lint! { pub MISSING_COMMA style, \"x\" }
        declare_clippy_lint! { pub GOOD, style, \"fine\" }
    ";
    let mut result = Vec::new();
    parse_contents(contents, "m", &mut result).unwrap();
    assert_eq!(result, vec![Lint::new("good", "style", "\"fine\"", "m")]);
    let mut none = Vec::new();
    parse_contents("fn main() {}", "m", &mut none).unwrap();
    assert!(none.is_empty());
}

#[test]
fn parse_contents_reports_an_unquoted_description() {
    let contents = "declare_clippy_lint! { pub NUMBERED, style, 42 }";
    let mut result = Vec::new();
    assert_eq!(parse_contents(contents, "m", &mut result), Err("42".to_string()));
}

#[test]
fn parse_renamed_table() {
    let contents = "pub static RENAMED_LINTS: &[(&str, &str)] = &[\n    (\"clippy::old\", \"clippy::new\"),\n    (\"clippy::a\", \"b\"),\n];\n";
    let mut result = Vec::new();
    parse_renamed_contents(contents, &mut result).unwrap();
    assert_eq!(result.len(), 2);
    assert_eq!(result[0].old_name, "clippy::old");
    assert_eq!(result[0].new_name, "clippy::new");
    assert_eq!(result[1].old_name, "clippy::a");
    assert_eq!(result[1].new_name, "b");
    let expected = RenamedLint::new("\"clippy::old\"", "\"clippy::new\"");
    assert_eq!(result[0].old_name, expected.old_name);
}

#[test]
fn module_names_from_paths() {
    let parts = |v: &[&str]| v.iter().map(|s| s.to_string()).collect::<Vec<_>>();
    assert_eq!(lint_module_name(&parts(&["methods", "mod.rs"])), "methods");
    assert_eq!(lint_module_name(&parts(&["methods", "unwrap_used.rs"])), "methods::unwrap_used");
    assert_eq!(lint_module_name(&parts(&["lib.rs"])), "lib");
    assert_eq!(lint_module_name(&parts(&["mod.rs"])), "mod");
    assert_eq!(lint_module_name(&parts(&["README"])), "README");
}

#[test]
fn gather_dispatches_on_the_module() {
    let files = vec![
        (
            vec!["ptr.rs".to_string()],
            "declare_clippy_lint! { pub PTR_ARG, style, \"ptr\" }".to_string(),
        ),
        (
            vec!["deprecated_lints.rs".to_string()],
            "declare_deprecated_lint! { #[clippy::version = \"1.0\"] pub OLD, \"gone\" }".to_string(),
        ),
        (
            vec!["renamed_lints.rs".to_string()],
            "    (\"clippy::x\", \"clippy::y\"),\n".to_string(),
        ),
        (
            vec!["loops".to_string(), "mod.rs".to_string()],
            "declare_clippy_lint! { pub NEVER_LOOP, correctness, \"loop\" }".to_string(),
        ),
    ];
    let (lints, deprecated, renamed) = gather_from_sources(&files).unwrap();
    assert_eq!(
        lints,
        vec![
            Lint::new("ptr_arg", "style", "\"ptr\"", "ptr"),
            Lint::new("never_loop", "correctness", "\"loop\"", "loops"),
        ]
    );
    assert_eq!(deprecated, vec![DeprecatedLint::new("old", "\"gone\"")]);
    assert_eq!(renamed.len(), 1);
    assert_eq!(renamed[0].old_name, "clippy::x");
    assert_eq!(renamed[0].new_name, "clippy::y");
    let bad = vec![(vec!["x.rs".to_string()], "declare_clippy_lint! { pub X, style, b\"x\" }".to_string())];
    assert_eq!(gather_from_sources(&bad).err(), Some("b\"x\"".to_string()));
}

#[test]
fn quoted_literals() {
    assert!(quoted_literal("\"abc\""));
    assert!(quoted_literal("r#\"abc\"#"));
    assert!(!quoted_literal("42"));
    assert!(!quoted_literal("\""));
    assert!(!quoted_literal("b\"x\""));
}

fn toks(spec: &[(TokKind, &str)]) -> Vec<(TokKind, String)> {
    spec.iter().map(|(k, t)| (*k, t.to_string())).collect()
}

#[test]
fn parse_lint_tokens_reads_declarations() {
    let t = toks(&[
        (TokKind::Ident, "declare_clippy_lint"),
        (TokKind::Other, "!"),
        (TokKind::Whitespace, " "),
        (TokKind::Other, "{"),
        (TokKind::Ident, "pub"),
        (TokKind::Whitespace, " "),
        (TokKind::Ident, "FOO_BAR"),
        (TokKind::Other, ","),
        (TokKind::Ident, "style"),
        (TokKind::Other, ","),
        (TokKind::StrLiteral, "\"does things\""),
        (TokKind::Other, "}"),
    ]);
    let mut out = Vec::new();
    parse_lint_tokens(&t, "m", &mut out).unwrap();
    assert_eq!(out, vec![Lint::new("foo_bar", "style", "\"does things\"", "m")]);

    let bad = toks(&[
        (TokKind::Ident, "declare_clippy_lint"),
        (TokKind::Other, "!"),
        (TokKind::Other, "{"),
        (TokKind::Ident, "pub"),
        (TokKind::Ident, "X"),
        (TokKind::Other, ","),
        (TokKind::Ident, "style"),
        (TokKind::Other, ","),
        (TokKind::Literal, "1"),
        (TokKind::Other, "}"),
    ]);
    let mut out = Vec::new();
    assert_eq!(parse_lint_tokens(&bad, "m", &mut out), Err("1".to_string()));
    assert!(out.is_empty());
}

#[test]
fn parse_deprecated_tokens_without_declarations() {
    let t = toks(&[(TokKind::Ident, "fn"), (TokKind::Whitespace, " "), (TokKind::Ident, "main")]);
    let mut out: Vec<DeprecatedLint> = Vec::new();
    assert_eq!(parse_deprecated_tokens(&t, &mut out), Ok(()));
    assert!(out.is_empty());
}

#[test]
fn renamed_entry_tokens_reads_one_entry() {
    let t = toks(&[
        (TokKind::Whitespace, "    "),
        (TokKind::Other, "("),
        (TokKind::StrLiteral, "\"clippy::old\""),
        (TokKind::Other, ","),
        (TokKind::Whitespace, " "),
        (TokKind::StrLiteral, "\"clippy::new\""),
        (TokKind::Other, ")"),
        (TokKind::Other, ","),
    ]);
    assert_eq!(
        renamed_entry_tokens(&t),
        Some(("\"clippy::old\"".to_string(), "\"clippy::new\"".to_string()))
    );
    assert_eq!(renamed_entry_tokens(&toks(&[(TokKind::Ident, "x")])), None);
}
