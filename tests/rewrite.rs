use inkscape_ids::attrs::{find_label, rewrite_attributes, Attr};
use inkscape_ids::document::{finish, rewrite_document, RewriteError};
use inkscape_ids::text::{cut_first_and_last_char, post_process, replace_all};

fn attr(key: &str, value: &str) -> Attr {
    Attr { key: key.as_bytes().to_vec(), value: value.as_bytes().to_vec() }
}

fn rewrite(input: &str) -> String {
    String::from_utf8(rewrite_document(input.as_bytes()).unwrap()).unwrap()
}

#[test]
fn document_without_labels_is_unchanged() {
    let input = r#"<?xml version="1.0"?><svg xmlns="http://www.w3.org/2000/svg"><g id="a"><rect id="r" width="3"/></g><!-- note --></svg>"#;
    assert_eq!(rewrite(input), input);
}

#[test]
fn labelled_group_gets_its_label_as_id() {
    let out = rewrite(r#"<svg><g id="g1" inkscape:label="MyLayer"></g></svg>"#);
    assert_eq!(out, r#"<svg><g inkscape:label="MyLayer" id="MyLayer"></g></svg>"#);
    assert!(!out.contains(r#"id="g1""#));
}

#[test]
fn only_the_labelled_sibling_changes() {
    let input = r#"<svg><g id="a" fill="red"></g><g id="b" inkscape:label="Middle" fill="blue"></g><g id="c"></g></svg>"#;
    let expected = r#"<svg><g id="a" fill="red"></g><g inkscape:label="Middle" fill="blue" id="Middle"></g><g id="c"></g></svg>"#;
    assert_eq!(rewrite(input), expected);
}

#[test]
fn first_of_two_labels_wins() {
    let out = rewrite(r#"<g id="x" inkscape:label="First" inkscape:label="Second"></g>"#);
    assert_eq!(out, r#"<g inkscape:label="First" inkscape:label="Second" id="First"></g>"#);
}

#[test]
fn label_without_id_appends_id() {
    let out = rewrite(r#"<g inkscape:label="X"></g>"#);
    assert_eq!(out, r#"<g inkscape:label="X" id="X"></g>"#);
}

#[test]
fn every_id_is_dropped_before_the_new_one() {
    let out = rewrite(r#"<g id="one" inkscape:label="L" id="two"></g>"#);
    assert_eq!(out, r#"<g inkscape:label="L" id="L"></g>"#);
}

#[test]
fn self_closing_elements_are_passed_through() {
    let input = r#"<svg><path id="p" inkscape:label="P"/></svg>"#;
    assert_eq!(rewrite(input), input);
}

#[test]
fn escaped_label_value_is_copied_as_written() {
    let out = rewrite(r#"<g id="g" inkscape:label="a &amp; b"></g>"#);
    assert_eq!(out, r#"<g inkscape:label="a &amp; b" id="a &amp; b"></g>"#);
}

#[test]
fn escapes_in_the_document_are_substituted() {
    let out = rewrite(r#"<text id="t">line\nnext \"quoted\"</text>"#);
    assert_eq!(out, r#"<text id="t">line\rnext "quoted"</text>"#);
}

#[test]
fn post_process_replaces_escaped_quote() {
    let out = post_process(&br#"value=\"abc\""#.to_vec());
    assert_eq!(out, br#"value="abc""#.to_vec());
}

#[test]
fn post_process_turns_escaped_newline_into_escaped_return() {
    let out = post_process(&br#"a\nb\n"#.to_vec());
    assert_eq!(out, br#"a\rb\r"#.to_vec());
}

#[test]
fn post_process_leaves_real_newlines() {
    let out = post_process(&b"a\nb\"c".to_vec());
    assert_eq!(out, b"a\nb\"c".to_vec());
}

#[test]
fn unterminated_tag_is_a_parse_error() {
    let r = rewrite_document(br#"<g id="x""#);
    assert!(matches!(r, Err(RewriteError::Parse { .. })));
}

#[test]
fn mismatched_end_tag_is_a_parse_error() {
    let r = rewrite_document(b"<a></b>");
    assert!(matches!(r, Err(RewriteError::Parse { .. })));
}

#[test]
fn malformed_attribute_is_an_attribute_error() {
    let r = rewrite_document(br#"<g id="x" broken></g>"#);
    assert!(matches!(r, Err(RewriteError::Attribute { .. })));
}

#[test]
fn invalid_utf8_is_an_encoding_error() {
    let r = rewrite_document(b"<g id=\"x\" inkscape:label=\"\xff\"></g>");
    assert_eq!(r, Err(RewriteError::Encoding));
}

#[test]
fn empty_document_gives_empty_output() {
    assert_eq!(rewrite_document(b""), Ok(Vec::new()));
}

#[test]
fn finish_checks_utf8_and_substitutes() {
    assert_eq!(finish(&b"\xc3\x28".to_vec()), Err(RewriteError::Encoding));
    assert_eq!(finish(&br#"\"x\""#.to_vec()), Ok(br#""x""#.to_vec()));
}

#[test]
fn find_label_takes_the_first_match() {
    let attrs = vec![attr("id", "g"), attr("inkscape:label", "A"), attr("inkscape:label", "B")];
    assert_eq!(find_label(&attrs), Some(b"A".to_vec()));
    assert_eq!(find_label(&vec![attr("id", "g")]), None);
    assert_eq!(find_label(&Vec::new()), None);
}

#[test]
fn rewrite_attributes_drops_ids_and_appends_label() {
    let attrs = vec![attr("id", "g1"), attr("inkscape:label", "MyLayer"), attr("style", "x")];
    let expected = vec![attr("inkscape:label", "MyLayer"), attr("style", "x"), attr("id", "MyLayer")];
    assert_eq!(rewrite_attributes(&attrs), Some(expected));
}

#[test]
fn rewrite_attributes_without_label_is_none() {
    let attrs = vec![attr("id", "g1"), attr("label", "x"), attr("inkscape:labels", "y")];
    assert_eq!(rewrite_attributes(&attrs), None);
    assert_eq!(rewrite_attributes(&Vec::new()), None);
}

#[test]
fn replace_all_does_not_overlap() {
    let out = replace_all(&b"aaaa".to_vec(), &b"aa".to_vec(), &b"b".to_vec());
    assert_eq!(out, b"bb".to_vec());
    let out = replace_all(&b"xaax".to_vec(), &b"aa".to_vec(), &b"".to_vec());
    assert_eq!(out, b"xx".to_vec());
}

#[test]
fn cut_first_and_last_char_trims_both_ends() {
    assert_eq!(cut_first_and_last_char("\"quoted\""), "quoted");
    assert_eq!(cut_first_and_last_char("ab"), "");
    assert_eq!(cut_first_and_last_char("a"), "");
    assert_eq!(cut_first_and_last_char(""), "");
    assert_eq!(cut_first_and_last_char("äbcö"), "bc");
}
