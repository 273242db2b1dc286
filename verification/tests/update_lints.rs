use rustc_utils::update_lints::{
    gen_deprecated, gen_deprecated_lints_test, gen_lint_group_list, gen_register_lint_list,
    gen_renamed_lints_list, gen_renamed_lints_test, generate_lint_files, remove_line_splices,
    replace_region_in_text, round_to_fifty, update, DeprecatedLint, Lint, RenamedLint,
    UpdateError, UpdateMode, GENERATED_FILE_COMMENT,
};
use std::collections::HashMap;

#[test]
fn test_usable_lints() {
    let lints = vec![
        Lint::new("should_assert_eq2", "Not Deprecated", "\"abc\"", "module_name"),
        Lint::new("should_assert_eq2", "internal", "\"abc\"", "module_name"),
        Lint::new("should_assert_eq2", "internal_style", "\"abc\"", "module_name"),
    ];
    let expected = vec![Lint::new(
        "should_assert_eq2",
        "Not Deprecated",
        "\"abc\"",
        "module_name",
    )];
    assert_eq!(expected, Lint::usable_lints(&lints));
}

#[test]
fn test_by_lint_group() {
    let lints = vec![
        Lint::new("should_assert_eq", "group1", "\"abc\"", "module_name"),
        Lint::new("should_assert_eq2", "group2", "\"abc\"", "module_name"),
        Lint::new("incorrect_match", "group1", "\"abc\"", "module_name"),
    ];
    let mut expected: HashMap<String, Vec<Lint>> = HashMap::new();
    expected.insert(
        "group1".to_string(),
        vec![
            Lint::new("should_assert_eq", "group1", "\"abc\"", "module_name"),
            Lint::new("incorrect_match", "group1", "\"abc\"", "module_name"),
        ],
    );
    expected.insert(
        "group2".to_string(),
        vec![Lint::new("should_assert_eq2", "group2", "\"abc\"", "module_name")],
    );
    let grouped: HashMap<String, Vec<Lint>> = Lint::by_lint_group(lints).into_iter().collect();
    assert_eq!(expected, grouped);
}

#[test]
fn test_gen_deprecated() {
    let lints = vec![
        DeprecatedLint::new("should_assert_eq", "\"has been superseded by should_assert_eq2\""),
        DeprecatedLint::new("another_deprecated", "\"will be removed\""),
    ];

    let expected = GENERATED_FILE_COMMENT.to_string()
        + &[
            "{",
            "    store.register_removed(",
            "        \"clippy::should_assert_eq\",",
            "        \"has been superseded by should_assert_eq2\",",
            "    );",
            "    store.register_removed(",
            "        \"clippy::another_deprecated\",",
            "        \"will be removed\",",
            "    );",
            "}",
        ]
        .join("\n")
        + "\n";

    assert_eq!(expected, gen_deprecated(&lints));
}

#[test]
fn test_gen_lint_group_list() {
    let lints = vec![
        Lint::new("abc", "group1", "\"abc\"", "module_name"),
        Lint::new("should_assert_eq", "group1", "\"abc\"", "module_name"),
        Lint::new("internal", "internal_style", "\"abc\"", "module_name"),
    ];
    let expected = GENERATED_FILE_COMMENT.to_string()
        + &[
            "store.register_group(true, \"clippy::group1\", Some(\"clippy_group1\"), vec![",
            "    LintId::of(module_name::ABC),",
            "    LintId::of(module_name::INTERNAL),",
            "    LintId::of(module_name::SHOULD_ASSERT_EQ),",
            "])",
        ]
        .join("\n")
        + "\n";

    let result = gen_lint_group_list("group1", &lints);

    assert_eq!(expected, result);
}

#[test]
fn lint_new_lowercases_and_unquotes() {
    let l = Lint::new("PTR_ARG", "style", "\"really long \\\n                text\"", "module_name");
    assert_eq!(l.name, "ptr_arg");
    assert_eq!(l.group, "style");
    assert_eq!(l.desc, "really long text");
    assert_eq!(l.module, "module_name");
}

#[test]
fn remove_line_splices_handles_raw_strings_and_keeps_escapes() {
    assert_eq!(remove_line_splices("r#\"raw text\"#"), "raw text");
    assert_eq!(remove_line_splices("\"a\\\"b\""), "a\\\"b");
    assert_eq!(remove_line_splices("\"\""), "");
}

#[test]
fn internal_lints_are_exactly_the_internal_group() {
    let lints = vec![
        Lint::new("a", "internal", "\"x\"", "m"),
        Lint::new("b", "internal_warn", "\"x\"", "m"),
        Lint::new("c", "style", "\"x\"", "m"),
    ];
    let internal = Lint::internal_lints(&lints);
    assert_eq!(internal, vec![Lint::new("a", "internal", "\"x\"", "m")]);
}

#[test]
fn round_to_fifty_rounds_down() {
    assert_eq!(round_to_fifty(0), 0);
    assert_eq!(round_to_fifty(49), 0);
    assert_eq!(round_to_fifty(50), 50);
    assert_eq!(round_to_fifty(549), 500);
}

#[test]
fn register_list_puts_internal_lints_first_behind_the_feature() {
    let internal = vec![Lint::new("zed", "internal", "\"x\"", "utils")];
    let usable = vec![
        Lint::new("b_lint", "style", "\"x\"", "beta"),
        Lint::new("a_lint", "style", "\"x\"", "alpha"),
    ];
    let expected = GENERATED_FILE_COMMENT.to_string()
        + "store.register_lints(&[\n"
        + "    #[cfg(feature = \"internal\")]\n"
        + "    utils::ZED,\n"
        + "    alpha::A_LINT,\n"
        + "    beta::B_LINT,\n"
        + "])\n";
    assert_eq!(expected, gen_register_lint_list(&internal, &usable));
}

#[test]
fn deprecated_and_renamed_tests_and_list() {
    let deprecated = vec![DeprecatedLint::new("OLD", "\"gone\"")];
    assert_eq!(
        gen_deprecated_lints_test(&deprecated),
        GENERATED_FILE_COMMENT.to_string() + "#![warn(clippy::old)]\n\nfn main() {}\n"
    );
    let renamed = vec![
        RenamedLint::new("\"clippy::a\"", "\"clippy::c\""),
        RenamedLint::new("\"clippy::b\"", "\"clippy::c\""),
        RenamedLint::new("\"clippy::a\"", "\"clippy::d\""),
    ];
    assert_eq!(
        gen_renamed_lints_test(&renamed),
        GENERATED_FILE_COMMENT.to_string()
            + "// run-rustfix\n\n"
            + "#![allow(clippy::c)]\n#![allow(clippy::d)]\n"
            + "#![warn(clippy::a)]\n#![warn(clippy::b)]\n"
            + "\nfn main() {}\n"
    );
    let list = gen_renamed_lints_list(&renamed[..1]);
    assert!(list.ends_with("pub static RENAMED_LINTS: &[(&str, &str)] = &[\n    (\"clippy::a\", \"clippy::c\"),\n];\n"));
}

#[test]
fn replace_region_replaces_between_the_first_delimiters() {
    assert_eq!(
        replace_region_in_text("head <a>old</a> tail </a>", "<a>", "</a>", "new"),
        Ok("head <a>new</a> tail </a>".to_string())
    );
    assert_eq!(
        replace_region_in_text("no start here", "<a>", "</a>", "new"),
        Err("<a>".to_string())
    );
    assert_eq!(
        replace_region_in_text("<a> but no end", "<a>", "</a>", "new"),
        Err("</a>".to_string())
    );
}

#[test]
fn generate_and_update_lint_files() {
    let lints = vec![
        Lint::new("second", "style", "\"x\"", "beta"),
        Lint::new("first", "correctness", "\"x\"", "alpha"),
        Lint::new("tool", "internal", "\"x\"", "utils"),
    ];
    let deprecated = vec![DeprecatedLint::new("gone", "\"old\"")];
    let renamed = vec![RenamedLint::new("\"clippy::old\"", "\"clippy::new\"")];
    let readme = "[There are over 0 lints included in this crate!]";
    let changelog = "x\n<!-- begin autogenerated links to lint list -->\n<!-- end autogenerated links to lint list -->";
    let root = "// begin lints modules, do not remove this comment, it\u{2019}s used in `update_lints`\n// end lints modules, do not remove this comment, it\u{2019}s used in `update_lints`";
    let (files, missing) = generate_lint_files(&lints, &deprecated, &renamed, readme, changelog, root);
    assert_eq!(missing, None);
    let paths: Vec<&str> = files.iter().map(|f| f.0.as_str()).collect();
    assert_eq!(
        paths,
        vec![
            "README.md",
            "CHANGELOG.md",
            "clippy_lints/src/lib.rs",
            "clippy_lints/src/lib.register_lints.rs",
            "clippy_lints/src/lib.deprecated.rs",
            "clippy_lints/src/lib.register_all.rs",
            "clippy_lints/src/lib.register_style.rs",
            "clippy_lints/src/lib.register_correctness.rs",
            "clippy_lints/src/lib.register_internal.rs",
            "tests/ui/deprecated.rs",
            "tests/ui/rename.rs",
        ]
    );
    assert_eq!(files[0].1, "[There are over 0 lints included in this crate!]");
    assert_eq!(
        files[1].1,
        "x\n<!-- begin autogenerated links to lint list -->\n\
         [`first`]: https://rust-lang.github.io/rust-clippy/master/index.html#first\n\
         [`gone`]: https://rust-lang.github.io/rust-clippy/master/index.html#gone\n\
         [`second`]: https://rust-lang.github.io/rust-clippy/master/index.html#second\n\
         <!-- end autogenerated links to lint list -->"
    );
    assert!(files[2].1.contains("mod alpha;\nmod beta;\n"));
    assert!(files[5].1.contains("LintId::of(alpha::FIRST),\n    LintId::of(beta::SECOND),\n"));

    let changes = update(UpdateMode::Change, &files, &vec![]).unwrap();
    assert_eq!(changes, files);
    let current: Vec<Option<String>> = files.iter().map(|f| Some(f.1.clone())).collect();
    assert_eq!(update(UpdateMode::Check, &files, &current), Ok(vec![]));
    let mut stale = current.clone();
    stale[3] = Some("old".to_string());
    assert_eq!(update(UpdateMode::Check, &files, &stale), Err(UpdateError::OutOfDate));
    stale[1] = None;
    assert_eq!(
        update(UpdateMode::Check, &files, &stale),
        Err(UpdateError::Unreadable("CHANGELOG.md".to_string()))
    );
    let missing = generate_lint_files(&lints, &deprecated, &renamed, "no marker", changelog, root);
    assert_eq!(missing, (vec![], Some("[There are over ".to_string())));
    let (done, missing) = generate_lint_files(&lints, &deprecated, &renamed, readme, changelog, "no marker");
    assert_eq!(missing, Some("// begin lints modules, do not remove this comment, it\u{2019}s used in `update_lints`\n".to_string()));
    assert_eq!(done, files[0..2].to_vec());
}

#[test]
fn second_change_regenerates_the_same_files() {
    let lints = vec![
        Lint::new("second", "style", "\"x\"", "beta"),
        Lint::new("first", "correctness", "\"x\"", "alpha"),
    ];
    let deprecated = vec![DeprecatedLint::new("gone", "\"old\"")];
    let renamed = vec![RenamedLint::new("\"clippy::old\"", "\"clippy::new\"")];
    let readme = "intro [There are over 7 lints included in this crate!] tail";
    let changelog = "x\n<!-- begin autogenerated links to lint list -->\nstale\n<!-- end autogenerated links to lint list -->\n";
    let root = "mod a;\n// begin lints modules, do not remove this comment, it\u{2019}s used in `update_lints`\nmod old;\n// end lints modules, do not remove this comment, it\u{2019}s used in `update_lints`\n";
    let first = generate_lint_files(&lints, &deprecated, &renamed, readme, changelog, root).0;
    assert_eq!(first[0].1, "intro [There are over 0 lints included in this crate!] tail");
    let second = generate_lint_files(&lints, &deprecated, &renamed, &first[0].1, &first[1].1, &first[2].1).0;
    assert_eq!(first, second);
}
