use cargo_remove_unused_derives::items::Item;
use cargo_remove_unused_derives::patch::{
    build_slot_line, clean_placeholders, find_marker_line_above, line_indent, patch_source,
    PLACEHOLDER_MARKER,
};
use cargo_remove_unused_derives::remove::remove_derives_from_source;

fn chars(s: &str) -> Vec<char> {
    s.chars().collect()
}

fn lines(s: &str) -> Vec<Vec<char>> {
    s.split_inclusive('\n').map(chars).collect()
}

#[test]
fn clean_placeholders_drops_markers_and_empty_slots() {
    let source = format!("{PLACEHOLDER_MARKER}\n\nstruct A;\n    {PLACEHOLDER_MARKER}\n    #[derive(Debug)]\n    struct B;\n");
    assert_eq!(clean_placeholders(&source), "struct A;\n    #[derive(Debug)]\n    struct B;\n");
}

#[test]
fn clean_placeholders_keeps_other_lines() {
    assert_eq!(clean_placeholders("fn main() {}\n\n// note\n"), "fn main() {}\n\n// note\n");
    let trailing = format!("x\n{PLACEHOLDER_MARKER}");
    assert_eq!(clean_placeholders(&trailing), "x\n");
    let twice = format!("{PLACEHOLDER_MARKER}\n{PLACEHOLDER_MARKER}\n\ny\n");
    assert_eq!(clean_placeholders(&twice), "y\n");
}

#[test]
fn find_marker_line_above_finds_the_nearest() {
    let ls = lines(&format!("{PLACEHOLDER_MARKER}\n\n  {PLACEHOLDER_MARKER}\n\nstruct A;\n"));
    assert_eq!(find_marker_line_above(&ls, 5), Some(2));
    assert_eq!(find_marker_line_above(&ls, 3), Some(0));
    assert_eq!(find_marker_line_above(&ls, 1), None);
}

#[test]
fn slot_line_is_indented_like_the_marker() {
    assert_eq!(line_indent(&chars("    // m\n")), chars("    "));
    assert_eq!(build_slot_line(&chars("  "), &chars("\n"), &["Clone", "Debug"]), chars("  #[derive(Clone, Debug)]\n"));
    assert_eq!(build_slot_line(&chars(""), &chars(""), &["Hash"]), chars("#[derive(Hash)]"));
}

#[test]
fn patch_source_fills_the_slots_of_touched_items() {
    let source = format!("{PLACEHOLDER_MARKER}\n\nstruct A;\n    {PLACEHOLDER_MARKER}\n\n    struct B;\n");
    let mut a = Item::new("A".to_string(), 2, 3, vec!["Clone".to_string(), "Debug".to_string()]);
    a.mark_restored("Debug");
    let mut b = Item::new("B".to_string(), 4, 6, vec!["Hash".to_string()]);
    b.mark_restored("Hash");
    let patched = patch_source(&source, &[a, b], &[3]);
    assert_eq!(patched, format!("{PLACEHOLDER_MARKER}\n#[derive(Debug)]\nstruct A;\n    {PLACEHOLDER_MARKER}\n\n    struct B;\n"));
}

#[test]
fn strip_restore_and_clean_round_trip() {
    let mut source = String::from("#[derive(Clone, Debug)]\nstruct Foo;\n");
    let mut items = remove_derives_from_source(&mut source).unwrap().unwrap();
    items[0].mark_restored("Clone");
    let lineno = items[0].lineno_sandbox();
    let patched = patch_source(&source, &items, &[lineno]);
    assert_eq!(clean_placeholders(&patched), "#[derive(Clone)]\nstruct Foo;\n");
    let untouched = clean_placeholders(&source);
    assert_eq!(untouched, "struct Foo;\n");
}

#[test]
fn cleaned_source_has_no_marker_line() {
    let source = format!("a\n  {PLACEHOLDER_MARKER}  \n{PLACEHOLDER_MARKER}\n\n\n{PLACEHOLDER_MARKER}\nb\n");
    let cleaned = clean_placeholders(&source);
    assert!(cleaned.lines().all(|l| l.trim() != PLACEHOLDER_MARKER));
    assert_eq!(cleaned, "a\n\nb\n");
}

#[test]
fn patch_source_ignores_untouched_items_past_the_end() {
    let source = format!("{PLACEHOLDER_MARKER}\n\nstruct A;\n");
    let mut a = Item::new("A".to_string(), 2, 3, vec!["Clone".to_string()]);
    a.mark_restored("Clone");
    let stray = Item::new("Z".to_string(), 90, 90, vec!["Hash".to_string()]);
    let patched = patch_source(&source, &[a, stray], &[3]);
    assert_eq!(patched, format!("{PLACEHOLDER_MARKER}\n#[derive(Clone)]\nstruct A;\n"));
    assert_eq!(clean_placeholders(&clean_placeholders(&patched)), clean_placeholders(&patched));
}
