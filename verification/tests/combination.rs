//! Tests of the multi-file combiner.

use inner_docs::combine_docs;
use inner_docs::extract_inner_docs;
use inner_docs::CombineError;
use inner_docs::ExtractError;
use inner_docs::ParseError;
use inner_docs::SourceUnit;

fn unit(label: &str, text: &str) -> SourceUnit {
    SourceUnit { label: label.to_string(), content: Ok(text.to_string()) }
}

fn apple_rs() -> &'static str {
    "//! ## Apple processing\n//!\n//! Green or red, we don't care.\n\npub struct Apple;\n"
}

fn orange_rs() -> &'static str {
    "//! ## Orange processing\n//!\n//! Various orange-related code.\n\npub struct Orange;\n"
}

fn line_docs_rs() -> &'static str {
    "//! ## Line-style docs\n//!\n//! These use `//!` comments.\n\npub struct LineDocs;\n"
}

fn block_docs_rs() -> &'static str {
    "/*! ## Block-style docs\n\nThese use `/*! */` comments.\n*/\n\npub struct BlockDocs;\n"
}

fn attr_docs_rs() -> &'static str {
    "#![doc = \"## Attribute-style docs\"]\n#![doc = \"\"]\n#![doc = \"These use `#![doc = ...]` attributes.\"]\n\npub struct AttrDocs;\n"
}

fn no_inner_docs_rs() -> &'static str {
    "/// A module with no inner documentation.\npub struct NoDocs;\n"
}

#[test]
fn test_module_docs_output() {
    let docs = extract_inner_docs(apple_rs()).unwrap();
    assert_eq!(docs, " ## Apple processing\n\n Green or red, we don't care.");
}

#[test]
fn test_docs_combines_files() {
    let units = vec![
        unit("tests/fruit/apple.rs", apple_rs()),
        unit("tests/fruit/orange.rs", orange_rs()),
    ];
    let docs = combine_docs(&units).unwrap();

    assert!(docs.contains("Apple processing"), "Missing apple docs");
    assert!(docs.contains("Orange processing"), "Missing orange docs");
    assert!(docs.contains("Green or red"), "Missing apple content");
    assert!(docs.contains("Various orange-related"), "Missing orange content");

    let expected = " ## Apple processing\n\n Green or red, we don't care.\n\n ## Orange processing\n\n Various orange-related code.";
    assert_eq!(docs, expected);
}

#[test]
fn test_block_docs_output() {
    let docs = extract_inner_docs(block_docs_rs()).unwrap();
    assert!(docs.contains("Block-style docs"), "Missing block header");
    assert!(docs.contains("/*! */"), "Missing block comment reference");
}

#[test]
fn test_attr_docs_output() {
    let docs = extract_inner_docs(attr_docs_rs()).unwrap();
    assert_eq!(docs, "## Attribute-style docs\n\nThese use `#![doc = ...]` attributes.");
}

#[test]
fn test_all_doc_formats() {
    let line_docs = extract_inner_docs(line_docs_rs()).unwrap();
    let block_docs = extract_inner_docs(block_docs_rs()).unwrap();
    let attr_docs = extract_inner_docs(attr_docs_rs()).unwrap();

    assert!(!line_docs.is_empty(), "Line docs should not be empty");
    assert!(!block_docs.is_empty(), "Block docs should not be empty");
    assert!(!attr_docs.is_empty(), "Attr docs should not be empty");
}

#[test]
fn test_empty_docs() {
    let docs = extract_inner_docs(no_inner_docs_rs()).unwrap();
    assert_eq!(docs, "");
}

#[test]
fn combine_docs_zero_files() {
    let units: Vec<SourceUnit> = vec![];
    assert_eq!(combine_docs(&units).unwrap(), "");
}

#[test]
fn combine_docs_one_file() {
    let units = vec![unit("fruit/apple.rs", apple_rs())];
    assert_eq!(
        combine_docs(&units).unwrap(),
        " ## Apple processing\n\n Green or red, we don't care."
    );
}

#[test]
fn combine_docs_two_files() {
    let units = vec![unit("fruit/apple.rs", apple_rs()), unit("fruit/orange.rs", orange_rs())];
    assert_eq!(
        combine_docs(&units).unwrap(),
        " ## Apple processing\n\n Green or red, we don't care.\n\n \
            ## Orange processing\n\n \
            Various orange-related code."
    );
}

#[test]
fn read_block_docs() {
    let units = vec![unit("doc_formats/block_docs.rs", block_docs_rs())];
    assert_eq!(
        combine_docs(&units).unwrap(),
        " ## Block-style docs\n\nThese use `/*! */` comments.\n"
    );
}

#[test]
fn read_doc_attribute() {
    let units = vec![unit("doc_formats/attr_docs.rs", attr_docs_rs())];
    assert_eq!(
        combine_docs(&units).unwrap(),
        "## Attribute-style docs\n\nThese use `#![doc = ...]` attributes."
    );
}

#[test]
fn read_line_docs() {
    let units = vec![unit("doc_formats/line_docs.rs", line_docs_rs())];
    assert_eq!(combine_docs(&units).unwrap(), " ## Line-style docs\n\n These use `//!` comments.");
}

#[test]
fn read_no_docs() {
    let units = vec![unit("doc_formats/no_docs.rs", no_inner_docs_rs())];
    assert_eq!(combine_docs(&units).unwrap(), "");
}

#[test]
fn two_short_files_with_one_separator() {
    let a = "//! ## Apple\n//!\n//! Green or red.\n";
    let b = "//! ## Orange\n//!\n//! Round fruit.\n";
    let units = vec![unit("a.rs", a), unit("b.rs", b)];
    assert_eq!(
        combine_docs(&units).unwrap(),
        " ## Apple\n\n Green or red.\n\n ## Orange\n\n Round fruit."
    );
}

#[test]
fn nested_declaration_docs_extract_to_nothing() {
    let source = "/// Documents the struct below, not the file.\npub struct Inner;\n";
    assert_eq!(extract_inner_docs(source).unwrap(), "");
    let units = vec![unit("inner.rs", source)];
    assert_eq!(combine_docs(&units).unwrap(), "");
}

#[test]
fn doc_less_file_in_the_middle_leaves_one_separator() {
    let units = vec![
        unit("a.rs", "//! First.\n"),
        unit("empty.rs", no_inner_docs_rs()),
        unit("c.rs", "//! Third.\n"),
    ];
    assert_eq!(combine_docs(&units).unwrap(), " First.\n\n Third.");
}

#[test]
fn doc_less_file_anywhere_changes_nothing() {
    let a = || unit("a.rs", "//! First.\n");
    let b = || unit("b.rs", "//! Second.\n");
    let e = || unit("empty.rs", no_inner_docs_rs());
    let plain = combine_docs(&vec![a(), b()]).unwrap();
    assert_eq!(combine_docs(&vec![e(), a(), b()]).unwrap(), plain);
    assert_eq!(combine_docs(&vec![a(), e(), b()]).unwrap(), plain);
    assert_eq!(combine_docs(&vec![a(), b(), e()]).unwrap(), plain);
}

#[test]
fn three_full_files_have_two_separators() {
    let units =
        vec![unit("a.rs", "//! A.\n"), unit("b.rs", "//! B.\n"), unit("c.rs", "//! C.\n")];
    let docs = combine_docs(&units).unwrap();
    assert_eq!(docs, " A.\n\n B.\n\n C.");
    assert_eq!(docs.matches("\n\n").count(), 2);
}

#[test]
fn unparseable_unit_fails_with_its_label() {
    let units = vec![
        unit("good.rs", "//! Fine.\n"),
        unit("cut_off.rs", "//! Doc\nfn main("),
        unit("later.rs", "//! Never reached.\n"),
    ];
    match combine_docs(&units) {
        Ok(_) => panic!("combination must fail"),
        Err(CombineError::Malformed { label, error }) => {
            assert_eq!(label, "cut_off.rs");
            assert!(matches!(error, ExtractError::Unparsable { .. }));
        },
        Err(CombineError::Unreadable { .. }) => panic!("wrong error kind"),
    }
}

#[test]
fn unreadable_unit_fails_with_its_label() {
    let units = vec![
        unit("good.rs", "//! Fine.\n"),
        SourceUnit {
            label: "missing.rs".to_string(),
            content: Err("no such file".to_string()),
        },
        unit("later.rs", "//! Never reached.\n"),
    ];
    match combine_docs(&units) {
        Ok(_) => panic!("combination must fail"),
        Err(CombineError::Unreadable { label, cause }) => {
            assert_eq!(label, "missing.rs");
            assert_eq!(cause, "no such file");
        },
        Err(CombineError::Malformed { .. }) => panic!("wrong error kind"),
    }
}

#[test]
fn malformed_unit_fails_with_its_label() {
    let units = vec![unit("good.rs", "//! Fine.\n"), unit("broken.rs", "/*! never closed")];
    match combine_docs(&units) {
        Ok(_) => panic!("combination must fail"),
        Err(CombineError::Malformed { label, error }) => {
            assert_eq!(label, "broken.rs");
            assert_eq!(error, ExtractError::Region { error: ParseError::UnclosedBlockComment });
        },
        Err(CombineError::Unreadable { .. }) => panic!("wrong error kind"),
    }
}
