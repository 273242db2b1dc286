use rustc_utils::lint_list::MetadataCollector;
use rustc_utils::lint_metadata::{changelog_with_config_links, ClippyConfiguration};

fn config(name: &str, ty: &str, default: &str, doc: &str, lints: &[&str]) -> ClippyConfiguration {
    ClippyConfiguration {
        name: name.to_string(),
        config_type: ty.to_string(),
        default: default.to_string(),
        doc: doc.to_string(),
        lints: lints.iter().map(|l| l.to_string()).collect(),
        deprecation_reason: None,
    }
}

fn configs() -> Vec<ClippyConfiguration> {
    vec![
        config("msrv", "Option<String>", "None", "The minimum rust version", &["manual_strip", "needless_borrow"]),
        config("too-many-lines-threshold", "u64", "100", "The maximum number of lines", &["too_many_lines"]),
        config("avoid-breaking-exported-api", "bool", "true", "Suppress lints on exported items", &["needless_borrow"]),
    ]
}

fn collector() -> MetadataCollector {
    MetadataCollector::new(configs())
}

#[test]
fn configuration_lines_show_name_type_default_and_doc() {
    assert_eq!(
        configs()[1].to_string(),
        "* `too-many-lines-threshold`: `u64`(defaults to `100`): The maximum number of lines\n"
    );
}

#[test]
fn configuration_section_lists_the_options_of_a_lint() {
    assert_eq!(
        collector().get_lint_configs("manual_strip"),
        Some(
            "\n### Configuration\nThis lint has the following configuration variables:\n\n\
             * `msrv`: `Option<String>`(defaults to `None`): The minimum rust version\n\n"
                .to_string()
        )
    );
    assert_eq!(
        collector().get_lint_configs("needless_borrow"),
        Some(
            "\n### Configuration\nThis lint has the following configuration variables:\n\n\
             * `msrv`: `Option<String>`(defaults to `None`): The minimum rust version\n\
             * `avoid-breaking-exported-api`: `bool`(defaults to `true`): Suppress lints on exported items\n\n"
                .to_string()
        )
    );
    assert_eq!(collector().get_lint_configs("unknown_lint"), None);
    assert_eq!(MetadataCollector::new(Vec::new()).get_lint_configs("manual_strip"), None);
}

const START: &str = "<!-- begin autogenerated links to configuration documentation -->";
const END: &str = "<!-- end autogenerated links to configuration documentation -->";

#[test]
fn changelog_links_replace_the_old_ones() {
    let old = format!("# Changelog\nintro\n{START}\n[old]: x\n{END}\n");
    assert_eq!(
        changelog_with_config_links(&old, "[a]: a.html\n[b]: b.html"),
        format!("# Changelog\nintro\n{START}\n[a]: a.html\n[b]: b.html\n{END}\n")
    );
}

#[test]
fn changelog_links_are_appended_when_missing() {
    assert_eq!(
        changelog_with_config_links("# Changelog\n", "[a]: a.html"),
        format!("# Changelog\n{START}\n[a]: a.html\n{END}\n")
    );
    assert_eq!(changelog_with_config_links("", ""), format!("{START}\n\n{END}\n"));
}
