use cargo_remove_unused_derives::patch::PLACEHOLDER_MARKER;
use cargo_remove_unused_derives::remove::{
    edit_source, edit_source_checked, extract_items, remove_derives_from_source, DeriveAttr,
    Extracted,
};

fn derives_of(e: &Extracted) -> Vec<&str> {
    e.attrs.iter().flat_map(|attr| attr.typepaths.iter().map(String::as_str)).collect()
}

#[test]
fn extract_items_parses_struct_with_single_derive() {
    let extracted = extract_items("#[derive(Clone)]\nstruct Foo;\n").unwrap();
    assert_eq!(extracted.len(), 1);
    assert_eq!(extracted[0].name, "Foo");
    assert_eq!(extracted[0].line, 2);
    assert_eq!(derives_of(&extracted[0]), ["Clone"]);
    assert_eq!(extracted[0].attrs.len(), 1);
}

#[test]
fn extract_items_parses_multiple_derives_in_one_attr() {
    let extracted = extract_items("#[derive(Clone, Debug)]\nstruct Foo;\n").unwrap();
    assert_eq!(derives_of(&extracted[0]), ["Clone", "Debug"]);
    assert_eq!(extracted[0].attrs.len(), 1);
}

#[test]
fn extract_items_flattens_derives_across_multiple_attrs() {
    let extracted = extract_items("#[derive(Clone)]\n#[derive(Debug)]\nstruct Foo;\n").unwrap();
    assert_eq!(derives_of(&extracted[0]), ["Clone", "Debug"]);
    assert_eq!(extracted[0].attrs.len(), 2);
}

#[test]
fn extract_items_parses_enum() {
    let extracted = extract_items("#[derive(Clone)]\nenum Foo { A, B }\n").unwrap();
    assert_eq!(extracted.len(), 1);
    assert_eq!(extracted[0].name, "Foo");
}

#[test]
fn extract_items_skips_non_struct_or_enum_items() {
    let extracted = extract_items("fn hello() {}\n#[derive(Clone)]\nstruct Foo;\n").unwrap();
    assert_eq!(extracted.len(), 1);
    assert_eq!(extracted[0].name, "Foo");
}

#[test]
fn extract_items_preserves_qualified_derive_paths() {
    let extracted = extract_items("#[derive(serde::Serialize)]\nstruct Foo;\n").unwrap();
    assert_eq!(derives_of(&extracted[0]), ["serde::Serialize"]);
}

#[test]
fn edit_source_replaces_single_attr_with_placeholder() {
    let mut source = String::from("#[derive(Clone)]\nstruct Foo;\n");
    let extracted = vec![Extracted {
        name: "Foo".into(),
        line: 2,
        attrs: [DeriveAttr {
            typepaths: [String::from("Clone")].into(),
            byte_range: 0..16,
            line_range: 1..1,
        }]
        .into(),
    }];

    let items = edit_source(&mut source, extracted);

    assert_eq!(source, format!("{PLACEHOLDER_MARKER}\n\nstruct Foo;\n"));
    assert_eq!(items.len(), 1);
    assert_eq!(items[0].name(), "Foo");
    assert_eq!(items[0].lineno_source(), 2);
    assert_eq!(items[0].lineno_sandbox(), 3);
}

#[test]
fn edit_source_replaces_multiple_attrs_on_one_item() {
    let mut source = String::from("#[derive(Clone)]\n#[derive(Debug)]\nstruct Foo;\n");
    let extracted = vec![Extracted {
        name: "Foo".into(),
        line: 3,
        attrs: [
            DeriveAttr {
                typepaths: vec![String::from("Clone")],
                byte_range: 0..16,
                line_range: 1..1,
            },
            DeriveAttr {
                typepaths: vec![String::from("Debug")],
                byte_range: 17..33,
                line_range: 2..2,
            },
        ]
        .into(),
    }];

    let items = edit_source(&mut source, extracted);

    assert_eq!(source, format!("{PLACEHOLDER_MARKER}\n\n{PLACEHOLDER_MARKER}\n\nstruct Foo;\n"));
    assert_eq!(items.len(), 1);
    assert_eq!(items[0].lineno_source(), 3);
    assert_eq!(items[0].lineno_sandbox(), 5);
}

#[test]
fn edit_source_handles_multiple_items() {
    let mut source = String::from("#[derive(Clone)]\nstruct A;\n#[derive(Debug)]\nstruct B;\n");
    let extracted = vec![
        Extracted {
            name: "A".to_string(),
            line: 2,
            attrs: [DeriveAttr {
                typepaths: vec!["Clone".to_string()],
                byte_range: 0..16,
                line_range: 1..1,
            }]
            .into(),
        },
        Extracted {
            name: "B".to_string(),
            line: 4,
            attrs: [DeriveAttr {
                typepaths: vec!["Debug".to_string()],
                byte_range: 27..43,
                line_range: 3..3,
            }]
            .into(),
        },
    ];

    let items = edit_source(&mut source, extracted);

    assert_eq!(
        source,
        format!("{PLACEHOLDER_MARKER}\n\nstruct A;\n{PLACEHOLDER_MARKER}\n\nstruct B;\n")
    );
    assert_eq!(items.len(), 2);
    assert_eq!(items[0].lineno_sandbox(), 3);
    assert_eq!(items[1].lineno_sandbox(), 6);
}

#[test]
fn extract_items_reports_line_ranges_and_bytes() {
    let extracted = extract_items("#[derive(\n    Clone,\n)]\nstruct Foo;\n").unwrap();
    assert_eq!(extracted[0].attrs[0].byte_range, 0..23);
    assert_eq!(extracted[0].attrs[0].line_range, 1..3);
    assert_eq!(extracted[0].line, 4);
}

#[test]
fn extract_items_ignores_other_attributes() {
    let extracted = extract_items("#[allow(dead_code)]\nstruct Foo;\n").unwrap();
    assert!(extracted.is_empty());
}

#[test]
fn extract_items_fails_on_unparsable_source() {
    assert!(extract_items("struct {").is_err());
    assert!(extract_items("#[derive(1)]\nstruct Foo;\n").is_err());
}

#[test]
fn remove_derives_from_source_strips_and_records() {
    let mut source = String::from("use x;\n#[derive(Clone, Debug)]\n#[derive(Hash)]\npub struct Foo;\n");
    let items = remove_derives_from_source(&mut source).unwrap().unwrap();
    assert_eq!(
        source,
        format!("use x;\n{PLACEHOLDER_MARKER}\n\n{PLACEHOLDER_MARKER}\n\npub struct Foo;\n")
    );
    assert_eq!(items.len(), 1);
    assert_eq!(items[0].lineno_source(), 4);
    assert_eq!(items[0].lineno_sandbox(), 6);
    assert_eq!(items[0].derives_unused(), ["Clone", "Debug", "Hash"]);
    assert!(items[0].derives_restored().is_empty());
}

#[test]
fn remove_derives_from_source_leaves_unparsable_source() {
    let mut source = String::from("struct {");
    assert!(remove_derives_from_source(&mut source).is_err());
    assert_eq!(source, "struct {");
}

#[test]
fn edit_source_checked_refuses_bad_ranges() {
    let mut source = String::from("#[derive(Clone)]\nstruct Foo;\n");
    let extracted = vec![Extracted {
        name: "Foo".into(),
        line: 2,
        attrs: vec![DeriveAttr {
            typepaths: vec!["Clone".to_string()],
            byte_range: 0..99,
            line_range: 1..1,
        }],
    }];
    assert!(edit_source_checked(&mut source, extracted).is_none());
    assert_eq!(source, "#[derive(Clone)]\nstruct Foo;\n");
}
