//! Tests of the inner-documentation extractor on whole source texts.

use inner_docs::extract_inner_docs;
use inner_docs::ExtractError;
use inner_docs::ParseError;

#[test]
fn test_line_doc_comments() {
    let source = "\n//! First line\n//! Second line\n\nfn foo() {}\n";
    let result = extract_inner_docs(source).unwrap();
    assert_eq!(result, " First line\n Second line");
}

#[test]
fn test_block_doc_comments() {
    let source = "\n/*! Block doc comment\nwith multiple lines\n*/\n\nfn foo() {}\n";
    let result = extract_inner_docs(source).unwrap();
    assert_eq!(result, " Block doc comment\nwith multiple lines\n");
}

#[test]
fn test_doc_attributes() {
    let source = "\n#![doc = \"First line\"]\n#![doc = \"Second line\"]\n\nfn foo() {}\n";
    let result = extract_inner_docs(source).unwrap();
    assert_eq!(result, "First line\nSecond line");
}

#[test]
fn test_mixed_doc_styles() {
    let source = "\n//! Line comment\n#![doc = \"Attribute doc\"]\n\nfn foo() {}\n";
    let result = extract_inner_docs(source).unwrap();
    assert_eq!(result, " Line comment\nAttribute doc");
}

#[test]
fn test_no_docs() {
    let source = "\nfn foo() {}\n";
    let result = extract_inner_docs(source).unwrap();
    assert_eq!(result, "");
}

#[test]
fn test_only_outer_docs_ignored() {
    let source = "\n/// This is an outer doc comment\nfn foo() {}\n";
    let result = extract_inner_docs(source).unwrap();
    assert_eq!(result, "");
}

#[test]
fn test_realistic_module() {
    let source = "\n//! # Module Title\n//!\n//! This module does things.\n\nuse std::io;\n\n/// Function doc\npub fn do_thing() {}\n";
    let result = extract_inner_docs(source).unwrap();
    assert_eq!(result, " # Module Title\n\n This module does things.");
}

#[test]
fn test_empty_doc_lines() {
    let source = "\n//! First\n//!\n//! Third\n\nfn foo() {}\n";
    let result = extract_inner_docs(source).unwrap();
    assert_eq!(result, " First\n\n Third");
}

#[test]
fn lib_test_line_doc_comments() {
    let source = "\n//! First line\n//! Second line\n\nfn foo() {}\n";
    let result = extract_inner_docs(source).unwrap();
    assert_eq!(result, " First line\n Second line");
}

#[test]
fn lib_test_block_doc_comments() {
    let source = "\n/*! Block doc comment\nwith multiple lines\n*/\n\nfn foo() {}\n";
    let result = extract_inner_docs(source).unwrap();
    assert_eq!(result, " Block doc comment\nwith multiple lines\n");
}

#[test]
fn lib_test_doc_attributes() {
    let source = "\n#![doc = \"First line\"]\n#![doc = \"Second line\"]\n\nfn foo() {}\n";
    let result = extract_inner_docs(source).unwrap();
    assert_eq!(result, "First line\nSecond line");
}

#[test]
fn lib_test_mixed_doc_styles() {
    let source = "\n//! Line comment\n#![doc = \"Attribute doc\"]\n\nfn foo() {}\n";
    let result = extract_inner_docs(source).unwrap();
    assert_eq!(result, " Line comment\nAttribute doc");
}

#[test]
fn lib_test_no_docs() {
    let source = "\nfn foo() {}\n";
    let result = extract_inner_docs(source).unwrap();
    assert_eq!(result, "");
}

#[test]
fn lib_test_only_outer_docs_ignored() {
    let source = "\n/// This is an outer doc comment\nfn foo() {}\n";
    let result = extract_inner_docs(source).unwrap();
    assert_eq!(result, "");
}

#[test]
fn lib_test_realistic_module() {
    let source = "\n//! # Module Title\n//!\n//! This module does things.\n\nuse std::io;\n\n/// Function doc\npub fn do_thing() {}\n";
    let result = extract_inner_docs(source).unwrap();
    assert_eq!(result, " # Module Title\n\n This module does things.");
}

#[test]
fn lib_test_empty_doc_lines() {
    let source = "\n//! First\n//!\n//! Third\n\nfn foo() {}\n";
    let result = extract_inner_docs(source).unwrap();
    assert_eq!(result, " First\n\n Third");
}

#[test]
fn empty_input_extracts_to_empty() {
    assert_eq!(extract_inner_docs("").unwrap(), "");
}

#[test]
fn marker_without_space_keeps_text() {
    assert_eq!(extract_inner_docs("//!Tight\nfn f() {}\n").unwrap(), "Tight");
}

#[test]
fn indented_doc_line_is_found() {
    assert_eq!(extract_inner_docs("   //! Indented\nfn f() {}\n").unwrap(), " Indented");
}

#[test]
fn shebang_line_is_skipped() {
    assert_eq!(extract_inner_docs("#!/bin/sh\n//! Doc\nfn f() {}\n").unwrap(), " Doc");
}

#[test]
fn byte_order_mark_is_skipped() {
    assert_eq!(extract_inner_docs("\u{FEFF}//! Doc\nfn f() {}\n").unwrap(), " Doc");
}

#[test]
fn crlf_line_breaks_are_normalized() {
    assert_eq!(extract_inner_docs("//! A\r\n//! B\r\nfn f() {}\r\n").unwrap(), " A\n B");
}

#[test]
fn four_slashes_are_a_plain_comment() {
    assert_eq!(extract_inner_docs("//// plain\n//! Doc\nfn f() {}\n").unwrap(), " Doc");
}

#[test]
fn empty_block_comment_is_skipped() {
    assert_eq!(extract_inner_docs("/**/\n//! Doc\nfn f() {}\n").unwrap(), " Doc");
    assert_eq!(extract_inner_docs("/***/\n//! Doc\nfn f() {}\n").unwrap(), " Doc");
}

#[test]
fn outer_block_doc_ends_the_region() {
    assert_eq!(extract_inner_docs("/** outer */\nfn f() {}\n").unwrap(), "");
}

#[test]
fn nested_block_comment_is_skipped_whole() {
    assert_eq!(extract_inner_docs("/* a /* b */ c */\n//! After\nfn f() {}\n").unwrap(), " After");
}

#[test]
fn non_doc_attribute_between_doc_lines() {
    let source = "//! A\n#![allow(unused)]\n//! B\nfn f() {}\n";
    assert_eq!(extract_inner_docs(source).unwrap(), " A\n B");
}

#[test]
fn doc_attribute_with_non_string_value_is_skipped() {
    let source = "#![doc = some_macro!(\"x\")]\n//! After\nfn f() {}\n";
    assert_eq!(extract_inner_docs(source).unwrap(), " After");
}

#[test]
fn attribute_punctuation_may_be_parted_by_whitespace() {
    assert_eq!(extract_inner_docs("#! [doc = \"x\"]\nfn f() {}\n").unwrap(), "x");
    assert_eq!(extract_inner_docs("# ![doc = \"x\"]\nfn f() {}\n").unwrap(), "x");
}

#[test]
fn attribute_punctuation_may_be_parted_by_comments() {
    assert_eq!(extract_inner_docs("#!/*c*/[doc = \"x\"]\nfn f() {}\n").unwrap(), "x");
}

#[test]
fn bracket_in_a_comment_inside_a_skipped_attribute() {
    assert_eq!(extract_inner_docs("#![a(/*[*/)]\nfn f() {}\n").unwrap(), "");
    assert_eq!(extract_inner_docs("#![a(/*]*/)]\n//! D\nfn f() {}\n").unwrap(), " D");
}

#[test]
fn raw_ident_doc_attribute_is_skipped() {
    let source = "#![r#doc = \"x\"]\n//! After\nfn f() {}\n";
    assert_eq!(extract_inner_docs(source).unwrap(), " After");
}

#[test]
fn raw_string_in_a_skipped_attribute() {
    let source = "#![foo = r\"a\\\"]\n//! After\nfn f() {}\n";
    assert_eq!(extract_inner_docs(source).unwrap(), " After");
}

#[test]
fn comments_inside_a_doc_attribute_are_passed_over() {
    let source = "#![doc /* here */ = \"a\" /* there */]\nfn f() {}\n";
    assert_eq!(extract_inner_docs(source).unwrap(), "a");
}

#[test]
fn doc_attribute_with_a_compound_value_is_skipped() {
    let source = "#![doc = \"a\" + \"b\"]\n//! After\nfn f() {}\n";
    assert_eq!(extract_inner_docs(source).unwrap(), " After");
}

#[test]
fn bracket_in_a_character_literal_does_not_close_the_attribute() {
    let source = "#![doc = ']']\n//! After\nfn f() {}\n";
    assert_eq!(extract_inner_docs(source).unwrap(), " After");
}

#[test]
fn unicode_escape_digits_may_be_parted_by_underscores() {
    let source = "#![doc = \"a\\u{1_F600}b\"]\nfn f() {}\n";
    assert_eq!(extract_inner_docs(source).unwrap(), "a\u{1F600}b");
}

#[test]
fn unicode_escape_limits_are_errors() {
    assert_eq!(
        extract_inner_docs("#![doc = \"\\u{1234567}\"]").unwrap_err(),
        ExtractError::Region { error: ParseError::BadEscape }
    );
    assert_eq!(
        extract_inner_docs("#![doc = \"\\u{_1}\"]").unwrap_err(),
        ExtractError::Region { error: ParseError::BadEscape }
    );
}

#[test]
fn doc_attribute_escapes_are_decoded() {
    let source = "#![doc = \"a\\tb\\\\c\\\"d\\x41e\\u{1F600}f\"]\nfn f() {}\n";
    assert_eq!(extract_inner_docs(source).unwrap(), "a\tb\\c\"dAe\u{1F600}f");
}

#[test]
fn doc_attribute_line_continuation_swallows_blanks() {
    let source = "#![doc = \"one\\\n    two\"]\nfn f() {}\n";
    assert_eq!(extract_inner_docs(source).unwrap(), "onetwo");
}

#[test]
fn raw_string_doc_attribute_keeps_backslashes() {
    let source = "#![doc = r\"kept \\n here\"]\nfn f() {}\n";
    assert_eq!(extract_inner_docs(source).unwrap(), "kept \\n here");
}

#[test]
fn hashed_raw_string_doc_attribute() {
    let source = "#![doc = r#\"quote \" inside\"#]\nfn f() {}\n";
    assert_eq!(extract_inner_docs(source).unwrap(), "quote \" inside");
}

#[test]
fn unterminated_block_comment_is_an_error() {
    assert_eq!(
        extract_inner_docs("/*! oops").unwrap_err(),
        ExtractError::Region { error: ParseError::UnclosedBlockComment }
    );
    assert_eq!(
        extract_inner_docs("/* oops").unwrap_err(),
        ExtractError::Region { error: ParseError::UnclosedBlockComment }
    );
}

#[test]
fn unterminated_attribute_is_an_error() {
    assert_eq!(
        extract_inner_docs("#![allow(unused)").unwrap_err(),
        ExtractError::Region { error: ParseError::UnclosedAttribute }
    );
}

#[test]
fn unterminated_doc_string_is_an_error() {
    assert_eq!(
        extract_inner_docs("#![doc = \"open").unwrap_err(),
        ExtractError::Region { error: ParseError::UnclosedString }
    );
}

#[test]
fn unknown_escape_is_an_error() {
    assert_eq!(
        extract_inner_docs("#![doc = \"bad \\q\"]").unwrap_err(),
        ExtractError::Region { error: ParseError::BadEscape }
    );
}

#[test]
fn text_that_does_not_parse_is_an_error() {
    let err = extract_inner_docs("fn main(").unwrap_err();
    match err {
        ExtractError::Unparsable { message } => assert!(!message.is_empty()),
        ExtractError::Region { .. } => panic!("wrong error kind"),
    }
}

#[test]
fn docs_before_malformed_code_are_not_returned() {
    let err = extract_inner_docs("//! Doc\nfn main(").unwrap_err();
    assert!(matches!(err, ExtractError::Unparsable { .. }));
}

#[test]
fn error_messages_name_the_failure() {
    assert_eq!(ParseError::UnclosedBlockComment.message(), "unterminated block comment");
    assert_eq!(ParseError::UnclosedAttribute.message(), "unterminated inner attribute");
    assert_eq!(ParseError::UnclosedString.message(), "unterminated string in doc attribute");
    assert_eq!(ParseError::BadEscape.message(), "unsupported escape in doc attribute");
    assert_eq!(
        ExtractError::Region { error: ParseError::BadEscape }.message(),
        "unsupported escape in doc attribute"
    );
}
