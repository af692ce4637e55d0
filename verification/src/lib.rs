//! Bidirectional translation between MXML, a brace-scoped markup dialect in
//! which nesting is written with `{ }` instead of closing tags, and ordinary
//! tag-delimited markup (strict XML, or HTML5 with void-element awareness).
//! Each conversion is a single scan whose result is pinned down, character
//! for character, by a state-machine model of the scan.

use vstd::prelude::*;

mod args;
mod error;
mod escape;
mod round_trip;
mod scanner;
mod text;
mod to_mxml;
mod to_xml;
mod voids;

pub use args::{Args, Target};
pub use error::{result_chars, MxmlError};
pub use escape::{
    lbrkt_token, lemma_escape_order_independent, lemma_replace_escapes_noop, matches_at,
    rbrkt_token, replace_bracket_escapes, spec_replace_escapes, substitute,
};
pub use round_trip::{
    lemma_html_round_trip, lemma_strict_xml_round_trip, lemma_tag_scope_round_trip, mxml_of,
    wf_attrs, wf_comment, wf_doc, wf_name, xml_of, Doc,
};
pub use scanner::{
    find_tag_name_at, find_tag_name_before_scope, lt_before, name_end, opt_tag_view,
    skip_ws_back, spec_find_tag_at, spec_owner_before, SpecTag, XMLTag,
};
pub use text::is_ws;
pub use to_mxml::{
    lemma_x2m_comment_copied, spec_xml_scopes_to_mxml, x2m_init, x2m_state_at, x2m_step,
    xml_scopes_to_mxml, X2mState, X2mStatus,
};
pub use to_xml::{
    closes_comment, end_tag_text, lemma_m2x_comment_copied, lemma_void_scope_owner_fails,
    m2x_init, m2x_state_at, m2x_step, mxml_scopes_to_xml, opens_comment, rtrim,
    spec_mxml_scopes_to_xml, M2xState, M2xStatus,
};
pub use voids::{html_void_elements, names_view, spec_html_void_names};

verus! {

/// What `mxml_to_xml` returns: the scope translation under an empty void
/// set, its output then run through the escape codec.
pub open spec fn spec_mxml_to_xml(s: Seq<char>) -> Result<Seq<char>, MxmlError> {
    match to_xml::spec_mxml_scopes_to_xml(s, Seq::empty()) {
        Result::Ok(t) => Result::Ok(escape::spec_replace_escapes(t)),
        Result::Err(e) => Result::Err(e),
    }
}

/// What `xml_to_mxml` returns: the tag translation under an empty void set.
pub open spec fn spec_xml_to_mxml(s: Seq<char>) -> Result<Seq<char>, MxmlError> {
    to_mxml::spec_xml_scopes_to_mxml(s, Seq::empty())
}

/// What `mxml_to_html` returns: the scope translation under the HTML5 void
/// set, its output then run through the escape codec.
pub open spec fn spec_mxml_to_html(s: Seq<char>) -> Result<Seq<char>, MxmlError> {
    match to_xml::spec_mxml_scopes_to_xml(s, voids::spec_html_void_names()) {
        Result::Ok(t) => Result::Ok(escape::spec_replace_escapes(t)),
        Result::Err(e) => Result::Err(e),
    }
}

/// What `html_to_mxml` returns: the tag translation under the HTML5 void
/// set.
pub open spec fn spec_html_to_mxml(s: Seq<char>) -> Result<Seq<char>, MxmlError> {
    to_mxml::spec_xml_scopes_to_mxml(s, voids::spec_html_void_names())
}

/// Converts MXML (curly-bracket scopes) into XML (end tags).
pub fn mxml_to_xml(source: String) -> (r: Result<String, MxmlError>)
    ensures
        result_chars(r) == spec_mxml_to_xml(source@),
{
    let voids: Vec<String> = Vec::new();
    proof {
        assert(voids::names_view(voids@) =~= Seq::<Seq<char>>::empty());
    }
    match to_xml::mxml_scopes_to_xml(source, voids) {
        Result::Ok(t) => Result::Ok(escape::replace_bracket_escapes(t)),
        Result::Err(e) => Result::Err(e),
    }
}

/// Converts XML into MXML.
pub fn xml_to_mxml(source: String) -> (r: Result<String, MxmlError>)
    ensures
        result_chars(r) == spec_xml_to_mxml(source@),
{
    let voids: Vec<String> = Vec::new();
    proof {
        assert(voids::names_view(voids@) =~= Seq::<Seq<char>>::empty());
    }
    to_mxml::xml_scopes_to_mxml(source, voids)
}

/// Converts MXML into HTML, aware of the HTML5 void elements.
pub fn mxml_to_html(source: String) -> (r: Result<String, MxmlError>)
    ensures
        result_chars(r) == spec_mxml_to_html(source@),
{
    match to_xml::mxml_scopes_to_xml(source, voids::html_void_elements()) {
        Result::Ok(t) => Result::Ok(escape::replace_bracket_escapes(t)),
        Result::Err(e) => Result::Err(e),
    }
}

/// Converts HTML into MXML, aware of the HTML5 void elements.
pub fn html_to_mxml(source: String) -> (r: Result<String, MxmlError>)
    ensures
        result_chars(r) == spec_html_to_mxml(source@),
{
    to_mxml::xml_scopes_to_mxml(source, voids::html_void_elements())
}

} // verus!
