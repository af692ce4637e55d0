//! Tests of the four conversion entry points, the scope translators and the
//! tag scanner.

use mini_markup::{
    find_tag_name_at, find_tag_name_before_scope, html_to_mxml, mxml_scopes_to_xml, mxml_to_html,
    mxml_to_xml, xml_scopes_to_mxml, xml_to_mxml, XMLTag,
};

#[test]
fn conversion_simple() {
    let source = "<tagname> {}";
    let expected = "<tagname></tagname>";
    assert_eq!(mxml_scopes_to_xml(source.into(), Vec::new()).unwrap(), expected);
}

#[test]
fn find_tag_name_simple() {
    let chars: Vec<char> = "<banana> {".chars().collect();
    assert_eq!("banana", find_tag_name_before_scope(&chars, 9).unwrap());
}

#[test]
fn find_tag_name_with_attrs() {
    let chars: Vec<char> =
        "<div style=\"border-width: 10px, border-radius: 2px\" on_click=stuff> {"
            .chars()
            .collect();
    let index = chars.len() - 1;
    assert_eq!("div", find_tag_name_before_scope(&chars, index).unwrap());
}

#[test]
fn find_tag_name_none_simple() {
    let chars: Vec<char> = "text {".chars().collect();
    assert!(find_tag_name_before_scope(&chars, 5).is_none());
}

#[test]
fn xml_to_mxml_simple() {
    let source = "<tagname></tagname>";
    let expected = "<tagname> {}";
    assert_eq!(xml_scopes_to_mxml(source.into(), Vec::new()).unwrap(), expected);
}

#[test]
fn mxml_to_html_error_simple() {
    let source = "<img src=\"totally_real_src.png\"> {}";
    let result = mxml_to_html(source.into());
    println!("{:?}", result);
    assert!(result.is_err());
}

#[test]
fn html_to_mxml_ignore_void() {
    let source = "<img src=\"abc\">\n<div>\n    text\n</div>";
    let expected = "<img src=\"abc\">\n<div> {\n    text\n}";
    assert_eq!(html_to_mxml(source.into()).unwrap(), expected);
}

#[test]
fn html_to_mxml_ignore_properly_closed() {
    let source = "<notag src=\"abc\"/>\n<div>\n    text\n</div>";
    let expected = "<notag src=\"abc\"/>\n<div> {\n    text\n}";
    assert_eq!(html_to_mxml(source.into()).unwrap(), expected);
}

#[test]
fn xml_to_mxml_comments_ignored() {
    let source = "<!-- <this would=\"be a tag\"></this but it's in a comment> -->";
    assert_eq!(xml_to_mxml(source.into()).unwrap(), source);
}

#[test]
fn mxml_to_xml_comments_ignored() {
    let source = "<!-- <this would be valid mxml> { but it's in a comment } -->";
    assert_eq!(mxml_to_xml(source.into()).unwrap(), source);
}

#[test]
fn strict_xml_round_trip() {
    let source = "<a>one<b>two</b>three</a>";
    let mxml = xml_to_mxml(source.into()).unwrap();
    assert_eq!(mxml, "<a> {one<b> {two}three}");
    assert_eq!(mxml_to_xml(mxml).unwrap(), source);
}

#[test]
fn mxml_round_trip() {
    let source = "<outer> {<inner attr=\"v\"> {text}}";
    let xml = mxml_to_xml(source.into()).unwrap();
    assert_eq!(xml, "<outer><inner attr=\"v\">text</inner></outer>");
    assert_eq!(xml_to_mxml(xml).unwrap(), source);
}

#[test]
fn html_round_trip_with_voids() {
    let source = "<!DOCTYPE html>\n<div> {<br>line<img src=\"a\">}";
    let html = mxml_to_html(source.into()).unwrap();
    assert_eq!(html, "<!DOCTYPE html>\n<div><br>line<img src=\"a\"></div>");
    assert_eq!(html_to_mxml(html).unwrap(), source);
}

#[test]
fn round_trip_with_comment_between_elements() {
    let source = "<a x=\"1\"><!-- <b> {}} --><c>t</c></a>";
    let mxml = xml_to_mxml(source.into()).unwrap();
    assert_eq!(mxml, "<a x=\"1\"> {<!-- <b> {}} --><c> {t}}");
    assert_eq!(mxml_to_xml(mxml).unwrap(), source);
}

#[test]
fn round_trip_multibyte_text() {
    let source = "<día>ma\u{00f1}ana \u{3000} tag</día>";
    let mxml = xml_to_mxml(source.into()).unwrap();
    assert_eq!(mxml_to_xml(mxml).unwrap(), source);
}

#[test]
fn comment_copied_verbatim_inside_document() {
    let source = "<a> {<!-- }} <b> --> }";
    let expected = "<a><!-- }} <b> --> </a>";
    assert_eq!(mxml_to_xml(source.into()).unwrap(), expected);
}

#[test]
fn comment_with_braces_kept_by_tag_translator() {
    let source = "<a><!-- { not a scope } --></a>";
    let expected = "<a> {<!-- { not a scope } -->}";
    assert_eq!(xml_to_mxml(source.into()).unwrap(), expected);
}

#[test]
fn empty_document_both_directions() {
    assert_eq!(mxml_to_xml(String::new()).unwrap(), "");
    assert_eq!(xml_to_mxml(String::new()).unwrap(), "");
}

#[test]
fn void_element_alone_stays_unscoped() {
    assert_eq!(html_to_mxml("<br>".into()).unwrap(), "<br>");
}

#[test]
fn scanner_classifies_end_tag() {
    let chars: Vec<char> = "</div>".chars().collect();
    let name: Vec<char> = "div".chars().collect();
    match find_tag_name_at(&chars, 0) {
        Some(XMLTag::End(n)) => assert_eq!(n, name),
        other => panic!("expected an end tag, got {:?}", other.is_some()),
    }
}

#[test]
fn scanner_classifies_empty_element_tag() {
    let chars: Vec<char> = "<notag/>".chars().collect();
    let name: Vec<char> = "notag".chars().collect();
    match find_tag_name_at(&chars, chars.len() - 1) {
        Some(XMLTag::EmptyElement(n)) => assert_eq!(n, name),
        other => panic!("expected an empty-element tag, got {:?}", other.is_some()),
    }
}

#[test]
fn scanner_finds_nothing_without_open_bracket() {
    let chars: Vec<char> = "plain text>".chars().collect();
    assert!(find_tag_name_at(&chars, chars.len() - 1).is_none());
}
