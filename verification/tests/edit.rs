use cargo_spaced::edit::{apply_edits, Edit};

#[test]
fn applies_insertions_in_source_order() {
    let source = "ab";
    let edits = vec![Edit::insert(1, "X"), Edit::insert(2, "Y")];

    assert_eq!(apply_edits(source, &edits).unwrap(), "aXbY");
}

#[test]
fn applies_replacements() {
    let source = "hello world";
    let edits = vec![Edit::replace(6..11, "Rust")];

    assert_eq!(apply_edits(source, &edits).unwrap(), "hello Rust");
}

#[test]
fn rejects_overlapping_edits() {
    let source = "abcdef";
    let edits = vec![Edit::replace(1..4, "x"), Edit::replace(3..5, "y")];

    assert!(apply_edits(source, &edits).is_err());
}
