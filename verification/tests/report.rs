use cargo_remove_unused_derives::items::{Item, Items};

fn strings(xs: &[&str]) -> Vec<String> {
    xs.iter().map(|s| s.to_string()).collect()
}

#[test]
fn render_says_when_nothing_is_unused() {
    let mut items = Items::new();
    assert_eq!(items.render(), "No unused derives found.\n");
    let mut it = Item::new("Foo".to_string(), 3, 3, strings(&["Clone"]));
    it.mark_restored("Clone");
    items.insert("src/a.rs".to_string(), vec![it]);
    assert_eq!(items.total_unused(), 0);
    assert_eq!(items.render(), "No unused derives found.\n");
}

#[test]
fn render_matches_the_sample_output() {
    let mut items = Items::new();
    items.insert(
        "src/state.rs".to_string(),
        vec![Item::new("Session".to_string(), 42, 44, strings(&["Hash"]))],
    );
    let mut params = Item::new("RequestParams".to_string(), 14, 15, strings(&["Debug", "PartialEq", "Eq"]));
    params.mark_restored("Debug");
    items.insert(
        "src/handler.rs".to_string(),
        vec![params, Item::new("Done".to_string(), 20, 22, Vec::new())],
    );
    assert_eq!(items.total_unused(), 3);
    assert_eq!(
        items.render(),
        "src/handler.rs:14 RequestParams \u{2014} unused: PartialEq, Eq\nsrc/state.rs:42 Session \u{2014} unused: Hash\n"
    );
}

#[test]
fn sort_orders_items_by_source_line_stably() {
    let mut items = Items::new();
    items.insert(
        "src/a.rs".to_string(),
        vec![
            Item::new("C".to_string(), 30, 30, strings(&["Clone"])),
            Item::new("A".to_string(), 10, 10, strings(&["Clone"])),
            Item::new("B1".to_string(), 20, 20, strings(&["Clone"])),
            Item::new("B2".to_string(), 20, 21, strings(&["Clone"])),
        ],
    );
    items.sort();
    let names: Vec<&str> = items.get("src/a.rs").unwrap().iter().map(|i| i.name()).collect();
    assert_eq!(names, ["A", "B1", "B2", "C"]);
    assert_eq!(items.total_unused(), 4);
}
