use rustc_utils::lint_metadata::{attr_docs, lint_example_source, lint_output, CompilerMessage, SerializableSpan};

fn lines(ls: &[&str]) -> Vec<String> {
    ls.iter().map(|l| l.to_string()).collect()
}

#[test]
fn examples_without_main_are_wrapped_after_their_attributes() {
    let ex = lines(&["#![allow(unused)]", "# use std::io;", "let x = 1;"]);
    assert_eq!(
        lint_example_source(&ex),
        "#![allow(unused)]\nfn main() {\nuse std::io;\nlet x = 1;\n}\n"
    );
}

#[test]
fn hidden_attributes_count_as_attributes() {
    let ex = lines(&["# #![deny(clippy::all)]", "    # let y = 2;", "foo();"]);
    assert_eq!(lint_example_source(&ex), "#![deny(clippy::all)]\nfn main() {\nlet y = 2;\nfoo();\n}\n");
}

#[test]
fn examples_with_main_are_not_wrapped() {
    let ex = lines(&["fn main() {", "    let x = 1;", "}"]);
    assert_eq!(lint_example_source(&ex), "fn main() {\n    let x = 1;\n}\n");
    // A hidden `main` counts too.
    let hidden = lines(&["# fn main() {", "bar();", "# }"]);
    assert_eq!(lint_example_source(&hidden), "fn main() {\nbar();\n}\n");
}

#[test]
fn marks_without_a_space_are_kept() {
    let ex = lines(&["#", "#[derive(Debug)]", "struct S;"]);
    assert_eq!(lint_example_source(&ex), "fn main() {\n#\n#[derive(Debug)]\nstruct S;\n}\n");
    assert_eq!(lint_example_source(&Vec::new()), "fn main() {\n}\n");
}

fn msg(code: Option<&str>, rendered: Option<&str>) -> CompilerMessage {
    CompilerMessage { code: code.map(String::from), rendered: rendered.map(String::from) }
}

#[test]
fn output_collects_the_lint_messages_and_hides_the_temporary_path() {
    let tmp = "/tmp/.tmpXYZ/lint_example.rs";
    let messages = vec![
        msg(Some("clippy::needless_return"), Some("warning: unneeded `return`\n --> /tmp/.tmpXYZ/lint_example.rs:2:5\n")),
        msg(Some("E0308"), Some("error: mismatched types\n")),
        msg(None, Some("note: something\n")),
        msg(Some("clippy::other"), None),
        msg(Some("clippy::needless_return"), Some("second\n\n  ")),
    ];
    assert_eq!(
        lint_output("needless_return", &messages, tmp),
        Some("warning: unneeded `return`\n --> lint_example.rs:2:5\nsecond".to_string())
    );
}

#[test]
fn output_is_none_when_the_lint_does_not_fire() {
    let messages = vec![msg(Some("E0308"), Some("error\n")), msg(None, None)];
    assert_eq!(lint_output("needless_return", &messages, "/tmp/x.rs"), None);
    let empty = vec![msg(Some("clippy::needless_return"), Some(""))];
    assert_eq!(lint_output("needless_return", &empty, "/tmp/x.rs"), None);
    let blank = vec![msg(Some("clippy::needless_return"), Some(" \n"))];
    assert_eq!(lint_output("needless_return", &blank, "/tmp/x.rs"), Some(String::new()));
}

#[test]
fn doc_attributes_are_joined_line_by_line() {
    let lines = vec!["Hello world!".to_string(), "=^.^=".to_string()];
    assert_eq!(attr_docs(&lines), Some("Hello world!\n=^.^=\n".to_string()));
    assert_eq!(attr_docs(&vec!["".to_string()]), Some("\n".to_string()));
    assert_eq!(attr_docs(&Vec::new()), None);
}

#[test]
fn spans_show_the_file_name_and_line() {
    let s = SerializableSpan { path: "clippy_lints/src/returns.rs".to_string(), line: 42 };
    assert_eq!(s.to_string(), "returns.rs:42");
    let t = SerializableSpan { path: "lib.rs".to_string(), line: 7 };
    assert_eq!(t.to_string(), "lib.rs:7");
    let u = SerializableSpan { path: "dir/".to_string(), line: 0 };
    assert_eq!(u.to_string(), ":0");
}
