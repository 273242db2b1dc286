use rustc_utils::rename_lint::{
    check_rename_names, finish_rename, replace_matches, module_move_candidates, plan_rename, replace_ident_like, ModuleMove,
    RenameError, ReplaceError,
};
use rustc_utils::update_lints::{DeprecatedLint, Lint, RenamedLint};

fn reps(pairs: &[(&str, &str)]) -> Vec<(String, String)> {
    pairs.iter().map(|(a, b)| (a.to_string(), b.to_string())).collect()
}

#[test]
fn rename_names_without_prefix_are_accepted() {
    assert_eq!(check_rename_names("old_lint", "new_lint"), Ok(()));
}

#[test]
fn rename_names_with_prefix_are_refused() {
    assert_eq!(
        check_rename_names("clippy::old_lint", "new_lint"),
        Err(RenameError::Prefixed("clippy::old_lint".to_string(), "clippy".to_string()))
    );
    assert_eq!(
        check_rename_names("old_lint", "rustc::new_lint"),
        Err(RenameError::Prefixed("rustc::new_lint".to_string(), "rustc".to_string()))
    );
}

fn sample_lints() -> Vec<Lint> {
    vec![
        Lint::new("first_lint", "style", "\"a\"", "first_lint"),
        Lint::new("second_lint", "correctness", "\"b\"", "methods"),
        Lint::new("taken_name", "style", "\"c\"", "misc"),
    ]
}

#[test]
fn plan_rename_within_the_linter() {
    let lints = sample_lints();
    let renamed = vec![
        RenamedLint::new("\"clippy::zzz\"", "\"clippy::yyy\""),
        RenamedLint::new("\"clippy::aaa\"", "\"rustc_lint\""),
    ];
    let plan = plan_rename("second_lint", "better_lint", false, &lints, &[], &renamed).ok().unwrap();
    assert_eq!(plan.old_index, 1);
    assert!(!plan.found_new_name);
    assert_eq!(plan.entry, RenamedLint::new("\"clippy::second_lint\"", "\"clippy::better_lint\""));
    let order: Vec<(String, String)> =
        plan.renamed.iter().map(|l| (l.old_name.clone(), l.new_name.clone())).collect();
    assert_eq!(
        order,
        reps(&[
            ("clippy::second_lint", "clippy::better_lint"),
            ("clippy::zzz", "clippy::yyy"),
            ("clippy::aaa", "rustc_lint"),
        ])
    );
}

#[test]
fn plan_rename_uplift_and_taken_name() {
    let lints = sample_lints();
    let plan = plan_rename("first_lint", "taken_name", true, &lints, &[], &[]).ok().unwrap();
    assert_eq!(plan.old_index, 0);
    assert!(plan.found_new_name);
    assert_eq!(plan.entry.old_name, "clippy::first_lint");
    assert_eq!(plan.entry.new_name, "taken_name");
}

#[test]
fn plan_rename_errors() {
    let lints = sample_lints();
    assert_eq!(
        plan_rename("missing", "x", false, &lints, &[], &[]).err(),
        Some(RenameError::NotFound("missing".to_string()))
    );
    let renamed = vec![RenamedLint::new("\"clippy::first_lint\"", "\"clippy::other\"")];
    assert_eq!(
        plan_rename("first_lint", "x", false, &lints, &[], &renamed).err(),
        Some(RenameError::AlreadyRenamed("first_lint".to_string()))
    );
    let deprecated = vec![DeprecatedLint::new("clippy::first_lint", "\"gone\"")];
    assert_eq!(
        plan_rename("first_lint", "x", false, &lints, &deprecated, &[]).err(),
        Some(RenameError::AlreadyDeprecated("first_lint".to_string()))
    );
}

#[test]
fn module_move_candidates_paths() {
    let own = Lint::new("first_lint", "style", "\"a\"", "first_lint");
    let (a, b) = module_move_candidates(&own, "first_lint", "new_name");
    assert_eq!(
        a,
        Some(("clippy_lints/src/first_lint.rs".to_string(), "clippy_lints/src/new_name.rs".to_string()))
    );
    assert_eq!(
        b,
        Some((
            "clippy_lints/src/first_lint/first_lint.rs".to_string(),
            "clippy_lints/src/first_lint/new_name.rs".to_string()
        ))
    );
    let nested = Lint::new("x", "style", "\"a\"", "methods::x");
    assert_eq!(module_move_candidates(&nested, "x", "y"), (None, None));
}

#[test]
fn finish_rename_moves_nested_module() {
    let mut lints = vec![
        Lint::new("old_lint", "style", "\"a\"", "methods"),
        Lint::new("helper", "style", "\"b\"", "methods::old_lint"),
        Lint::new("other", "style", "\"c\"", "misc"),
    ];
    let r = finish_rename(&mut lints, 0, "old_lint", "new_lint", ModuleMove::NestedFile);
    assert_eq!(r, reps(&[("OLD_LINT", "NEW_LINT"), ("old_lint", "new_lint")]));
    assert_eq!(lints[0].name, "new_lint");
    assert_eq!(lints[0].module, "methods");
    assert_eq!(lints[1].module, "methods::new_lint");
    assert_eq!(lints[2].module, "misc");
}

#[test]
fn finish_rename_moves_own_module() {
    let mut lints = vec![
        Lint::new("old_lint", "style", "\"a\"", "old_lint"),
        Lint::new("sibling", "style", "\"b\"", "old_lint"),
    ];
    let r = finish_rename(&mut lints, 0, "old_lint", "new_lint", ModuleMove::LintFile);
    assert_eq!(r, reps(&[("OLD_LINT", "NEW_LINT"), ("old_lint", "new_lint")]));
    assert_eq!(lints[0].module, "new_lint");
    assert_eq!(lints[1].module, "new_lint");
    assert_eq!(lints[1].name, "sibling");
}

#[test]
fn finish_rename_unmoved() {
    let mut lints = vec![Lint::new("old_lint", "style", "\"a\"", "misc")];
    let r = finish_rename(&mut lints, 0, "old_lint", "new_lint", ModuleMove::Unmoved);
    assert_eq!(r, reps(&[("OLD_LINT", "NEW_LINT")]));
    assert_eq!(lints[0].name, "new_lint");
    assert_eq!(lints[0].module, "misc");
}

#[test]
fn replace_ident_like_respects_identifier_borders() {
    let r = replace_ident_like(
        "#[allow(clippy::old_name)]\n#[allow(clippy::old_name_2)]\nx_clippy::old_name",
        &reps(&[("clippy::old_name", "clippy::new_name")]),
    );
    assert_eq!(
        r,
        Ok(Some("#[allow(clippy::new_name)]\n#[allow(clippy::old_name_2)]\nx_clippy::old_name".to_string()))
    );
}

#[test]
fn replace_ident_like_nothing_replaced() {
    let r = replace_ident_like("let old_name_2 = OLD_NAMES;", &reps(&[("OLD_NAME", "NEW_NAME"), ("old_name", "new_name")]));
    assert_eq!(r, Ok(None));
}

#[test]
fn replace_ident_like_longest_pattern_wins() {
    let r = replace_ident_like(
        "use crate::old::OLD; old(old_x);",
        &reps(&[("old", "new"), ("OLD", "NEW"), ("old::OLD", "fresh::FRESH")]),
    );
    assert_eq!(r, Ok(Some("use crate::fresh::FRESH; new(old_x);".to_string())));
}

#[test]
fn replace_ident_like_non_ascii_text() {
    let r = replace_ident_like("é LINT é", &reps(&[("LINT", "LÏNT")]));
    assert_eq!(r, Ok(Some("é LÏNT é".to_string())));
}

#[test]
fn plan_rename_keeps_the_order_of_tied_entries() {
    let lints = sample_lints();
    let renamed = vec![
        RenamedLint::new("\"clippy::dup\"", "\"clippy::zz\""),
        RenamedLint::new("\"clippy::dup\"", "\"clippy::aa\""),
        RenamedLint::new("\"clippy::bbb\"", "\"rustc_b\""),
    ];
    let plan = plan_rename("taken_name", "other", true, &lints, &[], &renamed).ok().unwrap();
    let order: Vec<(String, String)> =
        plan.renamed.iter().map(|l| (l.old_name.clone(), l.new_name.clone())).collect();
    assert_eq!(
        order,
        reps(&[
            ("clippy::dup", "clippy::zz"),
            ("clippy::dup", "clippy::aa"),
            ("clippy::bbb", "rustc_b"),
            ("clippy::taken_name", "other"),
        ])
    );
}

#[test]
fn replace_matches_replaces_matches_that_stand_alone() {
    let reps = vec![("foo".to_string(), "baz".to_string())];
    let ms = vec![(0, 0, 3), (0, 4, 7), (0, 12, 15)];
    assert_eq!(
        replace_matches("foo foo_bar foo", &reps, &ms),
        Ok(Some("baz foo_bar baz".to_string()))
    );
    assert_eq!(replace_matches("foo_bar", &reps, &vec![(0, 0, 3)]), Ok(None));
    assert_eq!(replace_matches("\u{e9}", &reps, &vec![(0, 0, 1)]), Err(ReplaceError::NotOnCharBoundary));
}
