use cargo_remove_unused_derives::check::{
    collect_errors, derive_mentioned_in, errors_from_output, extract_item_names_in_text,
    mentioned_in_backticks, CompilerDiagnostic, Diagnostic, DiagnosticChild, DiagnosticSpan,
};
use cargo_remove_unused_derives::error::ToolError;

#[test]
fn candidate_names_from_doesnt_implement_phrase() {
    let cands = extract_item_names_in_text("`ReorderError` doesn't implement `std::fmt::Debug`");
    assert!(cands.iter().any(|c| c == "ReorderError"));
}

#[test]
fn candidate_names_from_trait_bound_with_colon() {
    let cands = extract_item_names_in_text(
        "the trait bound `convert_core::helpers::reorder::Placement: serde::Deserialize<'de>` is not satisfied",
    );
    assert!(cands.iter().any(|c| c == "Placement"));
}

#[test]
fn candidate_names_strip_leading_reference() {
    let cands = extract_item_names_in_text("binary operation `==` cannot be applied to type `&Color`");
    assert!(cands.iter().any(|c| c == "Color"));
}

#[test]
fn candidate_names_from_has_type_phrase() {
    let cands = extract_item_names_in_text("cannot move out of `foo.field` which has type `Box<Op>`");
    assert!(cands.iter().any(|c| c == "Op"));
}

#[test]
fn matches_bare_name_in_backticks() {
    assert!(derive_mentioned_in("Default", "the trait `Default` is not impl"));
}

#[test]
fn matches_qualified_path_in_backticks() {
    assert!(derive_mentioned_in("Default", "candidate #1: `std::default::Default`"));
}

#[test]
fn matches_inside_derive_list() {
    assert!(derive_mentioned_in("Debug", "add `#[derive(Clone, Debug)]`"));
}

#[test]
fn ignores_unrelated_similar_names() {
    assert!(!derive_mentioned_in("Default", "the trait `NonDefault` is not impl"));
    assert!(!derive_mentioned_in("Default", "not in backticks: Default"));
}

#[test]
fn last_segment_of_qualified_derive_is_used() {
    assert!(derive_mentioned_in("serde::Serialize", "the trait `serde::Serialize` is not impl"));
    assert!(derive_mentioned_in("serde::Serialize", "the trait `Serialize` is not impl"));
}

#[test]
fn matches_trait_with_generic_args_in_bound() {
    assert!(derive_mentioned_in(
        "Deserialize",
        "the trait bound `User: serde::Deserialize<'de>` is not satisfied"
    ));
}

#[test]
fn matches_trait_in_multi_trait_bound() {
    assert!(derive_mentioned_in("Debug", "the trait bound `Foo: Clone + Debug` is not satisfied"));
}

fn span(file: &str, byte_start: u32, line: usize, primary: bool) -> DiagnosticSpan {
    DiagnosticSpan {
        file_name: file.to_string(),
        byte_start,
        line_start: line,
        line_end: line,
        is_primary: primary,
        label: None,
        suggested_replacement: None,
    }
}

fn error(message: &str, spans: Vec<DiagnosticSpan>) -> CompilerDiagnostic {
    CompilerDiagnostic { message: message.to_string(), is_error: true, spans, children: Vec::new() }
}

#[test]
fn item_names_are_exact_list_in_order() {
    let cands = extract_item_names_in_text("`Foo` and `crate::a::Bar<Baz>` and `&mut Qux`");
    assert_eq!(cands, vec!["Foo", "Bar", "Baz", "Qux"]);
    assert!(extract_item_names_in_text("no backticks here").is_empty());
}

#[test]
fn derive_not_mentioned_outside_backticks_or_lists() {
    assert!(!derive_mentioned_in("Clone", "Clone is missing"));
    assert!(derive_mentioned_in("Clone", "`#[derive(Clone)]`"));
}

#[test]
fn location_prefers_primary_span() {
    let d = Diagnostic::new(error("m", vec![span("a.rs", 1, 3, false), span("b.rs", 7, 9, true)]));
    let loc = d.location().unwrap();
    assert_eq!(loc.file, "b.rs");
    assert_eq!(loc.line_start, 9);
    assert_eq!(loc.line_end, 9);
    let first = Diagnostic::new(error("m", vec![span("a.rs", 1, 3, false)]));
    assert_eq!(first.location().unwrap().file, "a.rs");
    let none = Diagnostic::new(error("m", Vec::new()));
    assert!(none.location().is_none());
}

#[test]
fn references_file_looks_at_children() {
    let mut raw = error("m", vec![span("src/a.rs", 0, 1, true)]);
    raw.children.push(DiagnosticChild {
        message: "note".to_string(),
        spans: vec![span("src//b.rs", 0, 2, true)],
    });
    let d = Diagnostic::new(raw);
    assert!(d.references_file("src/a.rs"));
    assert!(d.references_file("src/b.rs"));
    assert!(!d.references_file("src/c.rs"));
    assert_eq!(d.message(), "m");
}

#[test]
fn item_names_and_derives_come_from_labels_and_children() {
    let mut raw = error("mismatched types", vec![span("src/a.rs", 0, 1, true)]);
    raw.spans[0].label = Some("expected `Point`".to_string());
    raw.children.push(DiagnosticChild {
        message: "consider annotating `Point` with `#[derive(PartialEq)]`".to_string(),
        spans: Vec::new(),
    });
    let d = Diagnostic::new(raw);
    assert!(d.item_names().iter().any(|n| n == "Point"));
    let pending = vec!["Debug".to_string(), "PartialEq".to_string()];
    assert_eq!(d.references_derive(&pending), Some("PartialEq"));
    let other = vec!["Hash".to_string()];
    assert_eq!(d.references_derive(&other), None);
}

#[test]
fn collect_errors_keeps_errors_once_with_relative_paths() {
    let mut warning = error("unused", vec![span("/ws/src/a.rs", 0, 1, true)]);
    warning.is_error = false;
    let messages = vec![
        warning,
        error("e1", vec![span("/ws/src/a.rs", 5, 2, true)]),
        error("e1", vec![span("/ws/src/a.rs", 5, 2, true)]),
        error("e1", vec![span("/ws/src/a.rs", 9, 4, true)]),
        error("e2", vec![span("/elsewhere/x.rs", 0, 1, true)]),
    ];
    let kept = collect_errors(messages, "/ws");
    assert_eq!(kept.len(), 3);
    assert_eq!(kept[0].message(), "e1");
    assert_eq!(kept[0].location().unwrap().file, "src/a.rs");
    assert_eq!(kept[1].location().unwrap().line_start, 4);
    assert_eq!(kept[2].location().unwrap().file, "/elsewhere/x.rs");
}

#[test]
fn trait_bound_type_is_found_before_its_colon() {
    let text: Vec<char> = "the trait bound `Foo: Clone + Debug` is not satisfied".chars().collect();
    let name: Vec<char> = "Foo".chars().collect();
    assert!(mentioned_in_backticks(&name, &text));
    assert!(derive_mentioned_in("Foo", "the trait bound `Foo: Clone + Debug` is not satisfied"));
    assert!(!derive_mentioned_in("Fo", "the trait bound `Foo: Clone + Debug` is not satisfied"));
}

#[test]
fn errors_are_read_from_cargo_output() {
    let error = r#"{"reason":"compiler-message","package_id":"p 0.1.0","manifest_path":"/ws/Cargo.toml","target":{"name":"p","kind":["lib"],"src_path":"/ws/src/lib.rs"},"message":{"message":"e1","level":"error","spans":[{"file_name":"/ws/src/a.rs","byte_start":5,"byte_end":6,"line_start":2,"line_end":2,"column_start":1,"column_end":2,"is_primary":true,"text":[],"label":"here"}],"children":[{"message":"add `#[derive(Debug)]`","level":"help","spans":[],"children":[]}]}}"#;
    let warning = error.replace("\"level\":\"error\"", "\"level\":\"warning\"").replace("e1", "w1");
    let stdout = format!("not json\n{warning}\n{error}\n{error}\n");
    let found = errors_from_output(stdout.as_bytes(), "/ws").unwrap();
    assert_eq!(found.len(), 1);
    assert_eq!(found[0].message(), "e1");
    assert_eq!(found[0].location().unwrap().file, "src/a.rs");
    let pending = vec!["Clone".to_string(), "Debug".to_string()];
    assert_eq!(found[0].references_derive(&pending), Some("Debug"));
    assert!(errors_from_output(b"", "/ws").unwrap().is_empty());
}

#[test]
fn unreadable_cargo_output_is_an_error() {
    let r = errors_from_output(&[0xff, 0xfe, b'\n'], "/ws");
    assert!(matches!(r, Err(ToolError::ParseCargoMessage { .. })));
}
