//! Tests of the escape codec, the error kinds, and the conversion selected
//! by a set of arguments.

use mini_markup::{
    html_to_mxml, mxml_to_html, mxml_to_xml, replace_bracket_escapes, xml_to_mxml, Args,
    MxmlError, Target,
};

#[test]
fn bracket_escapes_single() {
    let source = "&lbrkt;".to_string();
    assert_eq!("{", replace_bracket_escapes(source))
}

#[test]
fn bracket_escapes_multiple() {
    let source = "&rbrkt;  &lbrkt; &lbrkt;".to_string();
    assert_eq!("}  { {", replace_bracket_escapes(source))
}

#[test]
fn bracket_escapes_with_other_characters() {
    let source = "&lbrkt; abcdefg&rbrkt;".to_string();
    assert_eq!("{ abcdefg}", replace_bracket_escapes(source))
}

#[test]
fn bracket_escapes_applied_after_scope_translation() {
    let source = "<a> {&lbrkt;literal&rbrkt;}";
    let expected = "<a>{literal}</a>";
    assert_eq!(mxml_to_xml(source.into()).unwrap(), expected);
}

#[test]
fn error_malformed_tag() {
    let result = xml_to_mxml("text >".into());
    assert_eq!(result, Err(MxmlError::MalformedTag { index: 5 }));
}

#[test]
fn error_extra_end_tag() {
    let result = xml_to_mxml("</a>".into());
    assert_eq!(result, Err(MxmlError::ExtraEndTag { index: 0 }));
}

#[test]
fn error_mismatched_end_tag() {
    let result = xml_to_mxml("<a></b>".into());
    assert_eq!(result, Err(MxmlError::MismatchedEndTag { index: 3 }));
}

#[test]
fn error_unmatched_start_tags() {
    let result = xml_to_mxml("<a><b></b>".into());
    assert_eq!(result, Err(MxmlError::UnmatchedStartTags));
}

#[test]
fn error_unresolved_scope_owner() {
    let result = mxml_to_xml("text {".into());
    assert_eq!(result, Err(MxmlError::UnresolvedScopeOwner { index: 5 }));
}

#[test]
fn error_unmatched_closing_scope() {
    let result = mxml_to_xml("}".into());
    assert_eq!(result, Err(MxmlError::UnmatchedClosingScope { index: 0 }));
}

#[test]
fn error_void_element_scope_violation() {
    let result = mxml_to_html("<img src=\"x\"> {}".into());
    assert_eq!(result, Err(MxmlError::VoidElementScopeViolation { index: 14 }));
}

#[test]
fn void_scope_with_whitespace_gap_fails() {
    let result = mxml_to_html("<br>   \n {}".into());
    assert_eq!(result, Err(MxmlError::VoidElementScopeViolation { index: 9 }));
}

#[test]
fn strict_mode_gives_void_elements_no_exemption() {
    let result = mxml_to_xml("<img src=\"x\"> {}".into());
    assert_eq!(result.unwrap(), "<img src=\"x\"></img>");
}

#[test]
fn error_kind_names() {
    assert_eq!(MxmlError::MalformedTag { index: 0 }.kind_name(), "malformed tag");
    assert_eq!(MxmlError::UnmatchedStartTags.kind_name(), "unmatched start tags");
    assert_eq!(
        MxmlError::VoidElementScopeViolation { index: 3 }.kind_name(),
        "void element scope violation"
    );
}

#[test]
fn args_select_each_conversion() {
    let xml = "<a></a>";
    let mxml = "<a> {}";
    let html = "<br><a></a>";
    let html_mxml = "<br><a> {}";
    let base = Args {
        verbose: false,
        html: false,
        target: Some(Target::Mxml),
        input_file: "in".to_string(),
        output_file: "out".to_string(),
    };
    assert_eq!(base.convert(xml.into()).unwrap(), xml_to_mxml(xml.into()).unwrap());
    let html_args = Args { html: true, ..base };
    assert_eq!(
        html_args.convert(html.into()).unwrap(),
        html_to_mxml(html.into()).unwrap()
    );
    let to_xml_args = Args { target: Some(Target::Xml), html: false, ..html_args };
    assert_eq!(
        to_xml_args.convert(mxml.into()).unwrap(),
        mxml_to_xml(mxml.into()).unwrap()
    );
    let default_args = Args { target: None, html: true, ..to_xml_args };
    assert_eq!(
        default_args.convert(html_mxml.into()).unwrap(),
        mxml_to_html(html_mxml.into()).unwrap()
    );
}
