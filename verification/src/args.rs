//! The conversion request the command line hands over: flags, target format
//! and file paths, and the choice of conversion those flags select. Parsing
//! the command line itself is left to the calling layer.

use vstd::prelude::*;

use crate::error::{result_chars, MxmlError};
use crate::{
    html_to_mxml, mxml_to_html, mxml_to_xml, spec_html_to_mxml, spec_mxml_to_html,
    spec_mxml_to_xml, spec_xml_to_mxml, xml_to_mxml,
};

verus! {

/// The target (output) format of a conversion.
#[derive(Clone, Copy, Debug, PartialEq, Eq, Structural)]
pub enum Target {
    Mxml,
    Xml,
}

/// A conversion request: what to convert, in which direction, and whether
/// to apply HTML void-element awareness. `verbose` only gates the calling
/// layer's progress messages and has no effect on conversion semantics.
pub struct Args {
    /// Print verbose output.
    pub verbose: bool,
    /// Use HTML void-element aware conversion.
    pub html: bool,
    /// The target format; `None` defaults to XML.
    pub target: Option<Target>,
    /// The path of the file to convert from.
    pub input_file: String,
    /// The path of the output file.
    pub output_file: String,
}

/// The conversion a target format and the HTML flag select, applied to `s`.
pub open spec fn spec_selected_conversion(
    target: Option<Target>,
    html: bool,
    s: Seq<char>,
) -> Result<Seq<char>, MxmlError> {
    match target {
        Option::Some(Target::Mxml) => if html {
            spec_html_to_mxml(s)
        } else {
            spec_xml_to_mxml(s)
        },
        _ => if html {
            spec_mxml_to_html(s)
        } else {
            spec_mxml_to_xml(s)
        },
    }
}

impl Args {
    /// Runs the one conversion these arguments select on `source`: target
    /// MXML turns tags into scopes, target XML (or no target) turns scopes
    /// into tags, each HTML-aware exactly when `html` is set.
    pub fn convert(&self, source: String) -> (r: Result<String, MxmlError>)
        ensures
            result_chars(r) == spec_selected_conversion(self.target, self.html, source@),
    {
        match self.target {
            Option::Some(Target::Mxml) => if self.html {
                html_to_mxml(source)
            } else {
                xml_to_mxml(source)
            },
            _ => if self.html {
                mxml_to_html(source)
            } else {
                mxml_to_xml(source)
            },
        }
    }
}

} // verus!
