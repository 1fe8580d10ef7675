use cargo_remove_unused_derives::items::{Item, Items};

fn strings(xs: &[&str]) -> Vec<String> {
    xs.iter().map(|s| s.to_string()).collect()
}

#[test]
fn item_starts_with_everything_pending() {
    let it = Item::new("Foo".to_string(), 4, 6, strings(&["Clone", "Debug"]));
    assert_eq!(it.name(), "Foo");
    assert_eq!(it.lineno_source(), 4);
    assert_eq!(it.lineno_sandbox(), 6);
    assert_eq!(it.derives_unused(), ["Clone", "Debug"]);
    assert!(it.derives_restored().is_empty());
}

#[test]
fn restored_derives_keep_source_order() {
    let mut it = Item::new("Foo".to_string(), 1, 1, strings(&["Clone", "Debug", "Hash", "Eq"]));
    it.mark_restored("Hash");
    it.mark_restored("Clone");
    assert_eq!(it.derives_restored(), ["Clone", "Hash"]);
    assert_eq!(it.derives_unused(), ["Debug", "Eq"]);
    it.mark_restored("Hash");
    assert_eq!(it.derives_unused(), ["Debug", "Eq"]);
    it.mark_restored("Missing");
    assert_eq!(it.derives_restored(), ["Clone", "Hash"]);
    assert_eq!(it.derives_restored().len() + it.derives_unused().len(), 4);
}

#[test]
fn insert_keeps_paths_in_order_and_replaces() {
    let mut items = Items::new();
    assert_eq!(items.len(), 0);
    items.insert("src/b.rs".to_string(), vec![Item::new("B".to_string(), 1, 1, strings(&["Clone"]))]);
    items.insert("src/a.rs".to_string(), vec![Item::new("A".to_string(), 1, 1, strings(&["Debug"]))]);
    items.insert("src//b.rs".to_string(), vec![Item::new("B2".to_string(), 2, 2, strings(&["Hash"]))]);
    assert_eq!(items.len(), 2);
    let listed: Vec<&str> = items.iter().iter().map(|(p, _)| *p).collect();
    assert_eq!(listed, ["src/a.rs", "src/b.rs"]);
    assert_eq!(items.get("src//b.rs").unwrap()[0].name(), "B2");
    assert_eq!(items.get("src/a.rs").unwrap()[0].name(), "A");
    assert!(items.get("src/c.rs").is_none());
}

#[test]
fn get_mut_at_and_mark_restored_at_change_one_item() {
    let mut items = Items::new();
    items.insert(
        "src/a.rs".to_string(),
        vec![
            Item::new("A".to_string(), 1, 1, strings(&["Clone", "Debug"])),
            Item::new("B".to_string(), 5, 5, strings(&["Clone"])),
        ],
    );
    {
        let (path, it) = items.get_mut_at("src/a.rs", 1).unwrap();
        assert_eq!(path, "src/a.rs");
        it.mark_restored("Clone");
    }
    assert!(items.get_mut_at("src/a.rs", 2).is_none());
    assert!(items.get_mut_at("src/z.rs", 0).is_none());
    items.mark_restored_at(0, 0, "Debug");
    let (path, first) = items.item_at(0, 0);
    assert_eq!(path, "src/a.rs");
    assert_eq!(first.derives_unused(), ["Clone"]);
    assert!(items.get("src/a.rs").unwrap()[1].derives_unused().is_empty());
}

#[test]
fn iter_mut_gives_the_files_in_order() {
    let mut items = Items::new();
    items.insert("b.rs".to_string(), Vec::new());
    items.insert("a.rs".to_string(), vec![Item::new("A".to_string(), 1, 1, Vec::new())]);
    let (paths, files) = items.iter_mut();
    assert_eq!(paths, ["a.rs", "b.rs"]);
    files[1].push(Item::new("B".to_string(), 2, 2, Vec::new()));
    assert_eq!(items.get("b.rs").unwrap().len(), 1);
}

#[test]
fn restoring_everything_gives_back_the_written_order() {
    let mut it = Item::new("Foo".to_string(), 1, 1, strings(&["Clone", "Debug", "Hash"]));
    it.mark_restored("Hash");
    it.mark_restored("Clone");
    it.mark_restored("Debug");
    assert!(it.derives_unused().is_empty());
    assert_eq!(it.derives_restored(), ["Clone", "Debug", "Hash"]);
}
