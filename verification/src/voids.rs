//! The void-element policy: the fixed set of tag names that may appear
//! without a matching close and therefore must never own a scope. The set
//! holds the HTML5 void elements plus `!DOCTYPE`, whose bracket syntax looks
//! like an unclosed tag.

use vstd::prelude::*;
use vstd::string::StringExecFns;

use crate::text::{chars_eq, chars_of};

verus! {

/// The name sequences a list of tag names stands for.
pub open spec fn names_view(v: Seq<String>) -> Seq<Seq<char>> {
    v.map_values(|s: String| s@)
}

/// The HTML5 void element names, with the `!DOCTYPE` sentinel.
pub open spec fn spec_html_void_names() -> Seq<Seq<char>> {
    seq![
        "!DOCTYPE"@,
        "area"@,
        "base"@,
        "br"@,
        "col"@,
        "embed"@,
        "hr"@,
        "img"@,
        "input"@,
        "link"@,
        "meta"@,
        "source"@,
        "track"@,
        "wbr"@,
    ]
}

/// The void-element table used by the HTML-aware conversions.
pub fn html_void_elements() -> (r: Vec<String>)
    ensures
        names_view(r@) == spec_html_void_names(),
{
    let mut v: Vec<String> = Vec::new();
    v.push(String::from_str("!DOCTYPE"));
    v.push(String::from_str("area"));
    v.push(String::from_str("base"));
    v.push(String::from_str("br"));
    v.push(String::from_str("col"));
    v.push(String::from_str("embed"));
    v.push(String::from_str("hr"));
    v.push(String::from_str("img"));
    v.push(String::from_str("input"));
    v.push(String::from_str("link"));
    v.push(String::from_str("meta"));
    v.push(String::from_str("source"));
    v.push(String::from_str("track"));
    v.push(String::from_str("wbr"));
    proof {
        assert(names_view(v@) =~= spec_html_void_names());
    }
    v
}

/// Whether `name` is one of the tag names in `set`.
pub fn name_in_set(set: &Vec<String>, name: &Vec<char>) -> (b: bool)
    ensures
        b == names_view(set@).contains(name@),
{
    let mut i: usize = 0;
    while i < set.len()
        invariant
            i <= set@.len(),
            forall|k: int| 0 <= k < i ==> set@[k]@ != name@,
        decreases set@.len() - i,
    {
        let entry = chars_of(set[i].as_str());
        if chars_eq(&entry, name) {
            proof {
                assert(names_view(set@)[i as int] == name@);
            }
            return true;
        }
        i += 1;
    }
    proof {
        if names_view(set@).contains(name@) {
            let k = choose|k: int|
                0 <= k < names_view(set@).len() && names_view(set@)[k] == name@;
            assert(set@[k]@ == name@);
        }
    }
    false
}

} // verus!
