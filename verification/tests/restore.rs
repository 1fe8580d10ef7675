use cargo_remove_unused_derives::check::{CompilerDiagnostic, Diagnostic, DiagnosticSpan};
use cargo_remove_unused_derives::error::ToolError;
use cargo_remove_unused_derives::items::{Item, Items};
use cargo_remove_unused_derives::restore::{
    after_check, after_pass, find_item_for_diagnostic, fix_diagnostics, pick_by_name, pick_by_span_proximity,
    source_peek_candidates, warn_unresolved, NextStep, MAX_RESTORE_ATTEMPTS,
};

fn strings(xs: &[&str]) -> Vec<String> {
    xs.iter().map(|s| s.to_string()).collect()
}

fn item(name: &str, line: usize, derives: &[&str]) -> Item {
    Item::new(name.to_string(), line, line, strings(derives))
}

fn diagnostic(message: &str, file: &str, line: usize) -> Diagnostic {
    Diagnostic::new(CompilerDiagnostic {
        message: message.to_string(),
        is_error: true,
        spans: vec![DiagnosticSpan {
            file_name: file.to_string(),
            byte_start: 0,
            line_start: line,
            line_end: line,
            is_primary: true,
            label: None,
            suggested_replacement: None,
        }],
        children: Vec::new(),
    })
}

fn two_files() -> Items {
    let mut items = Items::new();
    items.insert("src/a.rs".to_string(), vec![item("Foo", 3, &["Clone", "Debug"])]);
    items.insert(
        "src/b.rs".to_string(),
        vec![item("Foo", 10, &["Hash"]), item("Bar", 20, &["Clone", "PartialEq"])],
    );
    items
}

#[test]
fn pick_by_name_prefers_span_file() {
    let items = two_files();
    let d = diagnostic("`Foo` is odd", "src/b.rs", 1);
    assert_eq!(pick_by_name(&items, &d, &strings(&["Foo"])), Some((1, 0)));
}

#[test]
fn pick_by_name_prefers_derive_mention_over_file() {
    let items = two_files();
    let d = diagnostic("`Foo` doesn't implement `Debug`", "src/b.rs", 1);
    assert_eq!(pick_by_name(&items, &d, &strings(&["Foo"])), Some((0, 0)));
}

#[test]
fn pick_by_name_takes_first_on_ties_and_skips_unknown() {
    let items = two_files();
    let d = diagnostic("`Foo`", "src/c.rs", 1);
    assert_eq!(pick_by_name(&items, &d, &strings(&["Foo"])), Some((0, 0)));
    assert_eq!(pick_by_name(&items, &d, &strings(&["Nope"])), None);
}

#[test]
fn pick_by_span_proximity_takes_nearest_pending_item() {
    let items = two_files();
    let d = diagnostic("no names here", "src/b.rs", 17);
    assert_eq!(pick_by_span_proximity(&items, &d), Some((1, 1)));
    let elsewhere = diagnostic("no names here", "src/c.rs", 17);
    assert_eq!(pick_by_span_proximity(&items, &elsewhere), None);
}

#[test]
fn source_peek_candidates_reads_the_spanned_lines() {
    let source = "fn a() {}\nasync fn h(q: Query<HandlerParams>) {}\nlet x: Vec<Thing> = y;\n";
    assert_eq!(source_peek_candidates(source, 2, 2), strings(&["Query", "HandlerParams"]));
    assert_eq!(source_peek_candidates(source, 2, 3), strings(&["Query", "HandlerParams", "Vec", "Thing"]));
    assert!(source_peek_candidates(source, 5, 6).is_empty());
    assert_eq!(source_peek_candidates(source, 0, 1), Vec::<String>::new());
}

#[test]
fn find_item_falls_back_to_source_peek() {
    let mut items = Items::new();
    items.insert(
        "src/h.rs".to_string(),
        vec![item("Other", 1, &["Clone"]), item("HandlerParams", 30, &["Deserialize", "Debug"])],
    );
    let d = diagnostic("the trait `Handler<_, _>` is not implemented", "src/h.rs", 2);
    let source = "x\nasync fn h(q: Query<HandlerParams>) {}\n";
    assert_eq!(find_item_for_diagnostic(&items, &d, Some(source)), Some((0, 1)));
    assert_eq!(find_item_for_diagnostic(&items, &d, None), Some((0, 0)));
}

#[test]
fn fix_diagnostics_restores_the_mentioned_derive() {
    let mut items = two_files();
    let d = diagnostic("`Foo` doesn't implement `Debug`", "src/a.rs", 3);
    let outcome = fix_diagnostics(&mut items, &[d], &[], true);
    assert!(outcome.progressed);
    assert!(outcome.unresolved.is_empty());
    assert_eq!(outcome.touched, vec![("src/a.rs".to_string(), vec![3])]);
    assert!(outcome.warnings.is_empty());
    let foo = &items.get("src/a.rs").unwrap()[0];
    assert_eq!(foo.derives_unused(), ["Clone"]);
    assert_eq!(foo.derives_restored(), ["Debug"]);
}

#[test]
fn fix_diagnostics_strict_refuses_to_guess() {
    let mut items = two_files();
    let d = diagnostic("mismatched `Foo`", "src/a.rs", 3);
    let outcome = fix_diagnostics(&mut items, &[d], &[], true);
    assert!(!outcome.progressed);
    assert!(outcome.touched.is_empty());
    assert_eq!(
        outcome.unresolved,
        strings(&["could not pinpoint missing derive for `Foo` (pending: Clone, Debug): mismatched `Foo`"])
    );
    assert_eq!(items.get("src/a.rs").unwrap()[0].derives_unused(), ["Clone", "Debug"]);
}

#[test]
fn fix_diagnostics_lenient_restores_everything_pending() {
    let mut items = two_files();
    let d = diagnostic("mismatched `Foo`", "src/a.rs", 3);
    let outcome = fix_diagnostics(&mut items, &[d], &[], false);
    assert!(outcome.progressed);
    assert_eq!(
        outcome.warnings,
        strings(&["could not pinpoint the missing derive for `Foo`; restoring all of [Clone, Debug] \u{2014} some of these may not actually be needed"])
    );
    let foo = &items.get("src/a.rs").unwrap()[0];
    assert!(foo.derives_unused().is_empty());
    assert_eq!(foo.derives_restored(), ["Clone", "Debug"]);
}

#[test]
fn fix_diagnostics_single_pending_derive_needs_no_pinpoint() {
    let mut items = two_files();
    let d = diagnostic("mismatched `Foo`", "src/b.rs", 10);
    let outcome = fix_diagnostics(&mut items, &[d], &[], true);
    assert!(outcome.progressed);
    assert_eq!(outcome.touched, vec![("src/b.rs".to_string(), vec![10])]);
    assert!(items.get("src/b.rs").unwrap()[0].derives_unused().is_empty());
}

#[test]
fn fix_diagnostics_collects_unmatched_messages_and_dedups_lines() {
    let mut items = two_files();
    let ds = vec![
        diagnostic("`Bar` can't be compared: `PartialEq`", "src/b.rs", 20),
        diagnostic("something else", "src/z.rs", 1),
        diagnostic("`Bar` can't be cloned: `Clone`", "src/b.rs", 20),
    ];
    let outcome = fix_diagnostics(&mut items, &ds, &[], true);
    assert_eq!(outcome.unresolved, strings(&["something else"]));
    assert_eq!(outcome.touched, vec![("src/b.rs".to_string(), vec![20])]);
    assert!(items.get("src/b.rs").unwrap()[1].derives_unused().is_empty());
}

#[test]
fn after_pass_decides_like_the_loop() {
    let u = strings(&["left"]);
    assert!(matches!(after_pass(1, u.clone(), true, true), Ok(NextStep::CheckAgain)));
    match after_pass(1, u.clone(), false, false) {
        Ok(NextStep::Finish(v)) => assert_eq!(v, u),
        _ => panic!("expected finish"),
    }
    match after_pass(1, u.clone(), false, true) {
        Err(ToolError::RestoreNoProgress { unresolved }) => assert_eq!(unresolved, u),
        _ => panic!("expected no progress"),
    }
    match after_pass(MAX_RESTORE_ATTEMPTS, u.clone(), true, true) {
        Err(ToolError::UnableToRestore { max_attempts, unresolved }) => {
            assert_eq!(max_attempts, 64);
            assert_eq!(unresolved, u);
        },
        _ => panic!("expected too many attempts"),
    }
    assert!(matches!(after_pass(MAX_RESTORE_ATTEMPTS, u, true, false), Ok(NextStep::Finish(_))));
}

#[test]
fn warn_unresolved_lists_each_message() {
    assert!(warn_unresolved(&[]).is_empty());
    assert_eq!(
        warn_unresolved(&strings(&["a", "b"])),
        strings(&["2 diagnostic(s) could not be resolved; finishing anyway", "  - a", "  - b"])
    );
}

#[test]
fn a_pass_only_shrinks_what_is_pending() {
    let mut items = two_files();
    let ds = vec![
        diagnostic("`Foo` doesn't implement `Debug`", "src/a.rs", 3),
        diagnostic("`Foo` doesn't implement `Debug`", "src/a.rs", 3),
    ];
    let before = items.total_unused();
    let outcome = fix_diagnostics(&mut items, &ds, &[], true);
    assert!(outcome.progressed);
    assert!(items.total_unused() < before);
    assert_eq!(items.len(), 2);
    assert_eq!(items.get("src/a.rs").unwrap()[0].name(), "Foo");
}

#[test]
fn a_clean_check_ends_the_loop_with_nothing_left() {
    match after_check(&[]) {
        Some(NextStep::Finish(u)) => assert!(u.is_empty()),
        _ => panic!("expected finish"),
    }
    let d = diagnostic("e", "src/a.rs", 1);
    assert!(after_check(&[d]).is_none());
}
