use rustc_utils::lint_list::{lint_lt, sort_lints, MetadataCollector};
use rustc_utils::lint_metadata::{ApplicabilityInfo, LintMetadata, SerializableSpan};

fn lint(id: &str, path: &str, line: usize) -> LintMetadata {
    LintMetadata::new(
        id.to_string(),
        SerializableSpan { path: path.to_string(), line },
        "style".to_string(),
        "warn",
        "1.0.0".to_string(),
        format!("docs of {id}"),
    )
}

fn ids(lints: &[LintMetadata]) -> Vec<&str> {
    lints.iter().map(|l| l.id.as_str()).collect()
}

fn app(l: &LintMetadata) -> Option<(bool, Option<usize>)> {
    l.applicability.as_ref().map(|a| (a.is_multi_part_suggestion, a.applicability))
}

#[test]
fn lints_are_ordered_by_id_then_by_place() {
    let a = lint("needless_return", "src/returns.rs", 10);
    let b = lint("needless_return", "src/returns.rs", 9);
    let c = lint("manual_strip", "src/strip.rs", 1);
    assert!(lint_lt(&c, &a));
    assert!(!lint_lt(&a, &c));
    assert!(lint_lt(&b, &a));
    assert!(!lint_lt(&a, &a));
    let sorted = sort_lints(vec![a, c, b]);
    assert_eq!(ids(&sorted), vec!["manual_strip", "needless_return", "needless_return"]);
    assert_eq!(sorted[1].id_span.line, 9);
    assert_eq!(sorted[2].id_span.line, 10);
}

#[test]
fn ids_compare_by_characters() {
    let sorted = sort_lints(vec![lint("b", "x", 1), lint("B", "x", 1), lint("a_b", "x", 1), lint("a", "x", 1)]);
    assert_eq!(ids(&sorted), vec!["B", "a", "a_b", "b"]);
}

#[test]
fn finishing_sorts_the_lints_and_gives_each_its_applicability() {
    let mut collector = MetadataCollector::new(Vec::new());
    collector.add_lint(lint("zero_ptr", "src/misc.rs", 3));
    collector.add_lint(lint("almost_swapped", "src/swap.rs", 7));
    collector.add_lint(lint("let_unit_value", "src/unit.rs", 2));
    collector.record_applicability("zero_ptr".to_string(), Some(0), false);
    collector.record_applicability("let_unit_value".to_string(), Some(1), false);
    // A later emission replaces what was recorded for the lint.
    collector.record_applicability("let_unit_value".to_string(), Some(3), true);
    collector.record_applicability("not_a_lint".to_string(), Some(2), false);
    let list = collector.finish();
    assert_eq!(ids(&list), vec!["almost_swapped", "let_unit_value", "zero_ptr"]);
    assert_eq!(app(&list[0]), Some((false, None)));
    assert_eq!(app(&list[1]), Some((true, Some(3))));
    assert_eq!(app(&list[2]), Some((false, Some(0))));
    // Everything was used up.
    assert!(collector.finish().is_empty());
}

#[test]
fn a_second_lint_with_the_same_id_gets_the_default() {
    let mut collector = MetadataCollector::new(Vec::new());
    collector.add_lint(lint("dup", "src/a.rs", 1));
    collector.add_lint(lint("dup", "src/b.rs", 1));
    collector.record_applicability("dup".to_string(), Some(2), false);
    let list = collector.finish();
    assert_eq!(list[0].id_span.path, "src/a.rs");
    assert_eq!(app(&list[0]), Some((false, Some(2))));
    assert_eq!(app(&list[1]), Some((false, None)));
}

#[test]
fn finishing_without_lints_keeps_the_records() {
    let mut collector = MetadataCollector::new(Vec::new());
    collector.record_applicability("zero_ptr".to_string(), Some(0), false);
    assert!(collector.finish().is_empty());
    collector.add_lint(lint("zero_ptr", "src/misc.rs", 3));
    let list = collector.finish();
    assert_eq!(app(&list[0]), Some((false, Some(0))));
}

#[test]
fn applicability_takes_part_in_the_order() {
    let mut a = lint("x", "f", 1);
    let mut b = lint("x", "f", 1);
    a.applicability = Some(ApplicabilityInfo { is_multi_part_suggestion: false, applicability: Some(1) });
    b.applicability = None;
    assert!(lint_lt(&b, &a));
    b.applicability = Some(ApplicabilityInfo { is_multi_part_suggestion: true, applicability: None });
    assert!(lint_lt(&a, &b));
}
