//! The tag scanner: classifies the tag found at a position in the character
//! buffer as a start tag, end tag or empty-element (self-closing) tag, and
//! resolves which tag, if any, owns a scope opened by a `{`.

use vstd::prelude::*;

use crate::text::{chars_of, copy_range, is_whitespace_char, is_ws, string_of};

verus! {

/// A classified tag, carrying its name exactly as written.
pub enum XMLTag {
    Start(Vec<char>),
    End(Vec<char>),
    EmptyElement(Vec<char>),
}

/// The mathematical shape of a classified tag.
pub enum SpecTag {
    Start(Seq<char>),
    End(Seq<char>),
    EmptyElement(Seq<char>),
}

/// The name sequence a tag carries.
pub open spec fn tag_view(t: XMLTag) -> SpecTag {
    match t {
        XMLTag::Start(v) => SpecTag::Start(v@),
        XMLTag::End(v) => SpecTag::End(v@),
        XMLTag::EmptyElement(v) => SpecTag::EmptyElement(v@),
    }
}

/// `tag_view` lifted over `Option`.
pub open spec fn opt_tag_view(t: Option<XMLTag>) -> Option<SpecTag> {
    match t {
        Option::None => Option::None,
        Option::Some(t) => Option::Some(tag_view(t)),
    }
}

/// The index of the nearest `<` at or before `i`, or `-1` if the prefix
/// holds none.
pub open spec fn lt_before(s: Seq<char>, i: int) -> int
    recommends
        0 <= i < s.len(),
    decreases i,
{
    if s[i] == '<' {
        i
    } else if i <= 0 {
        -1
    } else {
        lt_before(s, i - 1)
    }
}

/// The first index at or after `k` holding whitespace or `>`; `s.len()` if
/// the rest of the buffer holds neither.
pub open spec fn name_end(s: Seq<char>, k: int) -> int
    recommends
        0 <= k <= s.len(),
    decreases s.len() - k,
{
    if k < 0 || k >= s.len() {
        s.len() as int
    } else if is_ws(s[k]) || s[k] == '>' {
        k
    } else {
        name_end(s, k + 1)
    }
}

/// What the tag scanner finds at index `i`: from the tag's `<` (located by
/// walking backward when `i` points at a `>`), the name region runs to the
/// first whitespace or `>`. A leading `/` makes it an end tag, a `/` right
/// before the region's end an empty-element tag, anything else a start tag.
/// `None` when no tag boundary can be located.
pub open spec fn spec_find_tag_at(s: Seq<char>, i: int) -> Option<SpecTag>
    recommends
        0 <= i < s.len(),
{
    let start = if s[i] == '>' {
        lt_before(s, i)
    } else {
        i
    };
    if start < 0 || start >= s.len() || s[start] != '<' {
        Option::None
    } else {
        let ne = name_end(s, start);
        if ne >= s.len() {
            Option::None
        } else if s[start + 1] == '/' {
            Option::Some(SpecTag::End(s.subrange(start + 2, ne)))
        } else if s[ne - 1] == '/' {
            Option::Some(SpecTag::EmptyElement(s.subrange(start + 1, ne - 1)))
        } else {
            Option::Some(SpecTag::Start(s.subrange(start + 1, ne)))
        }
    }
}

/// Finds and classifies the tag at `index`, which must point at either the
/// tag's opening `<` or its closing `>`.
pub fn find_tag_name_at(chars: &Vec<char>, index: usize) -> (r: Option<XMLTag>)
    requires
        index < chars@.len(),
    ensures
        opt_tag_view(r) == spec_find_tag_at(chars@, index as int),
{
    let n = chars.len();
    let mut start: usize = index;
    if chars[start] == '>' {
        while start > 0 && chars[start] != '<'
            invariant
                start <= index < n == chars@.len(),
                lt_before(chars@, index as int) == lt_before(chars@, start as int),
            decreases start,
        {
            start -= 1;
        }
    }
    if chars[start] != '<' {
        return None;
    }
    // The name region starts right after the `<`; scan to its end.
    let mut k: usize = start + 1;
    while k < n && !is_whitespace_char(chars[k]) && chars[k] != '>'
        invariant
            start + 1 <= k <= n == chars@.len(),
            start < chars@.len(),
            chars@[start as int] == '<',
            name_end(chars@, start as int) == name_end(chars@, k as int),
        decreases chars@.len() - k,
    {
        k += 1;
    }
    if k >= chars.len() {
        return None;
    }
    if chars[start + 1] == '/' {
        let name = copy_range(chars, start + 2, k);
        Some(XMLTag::End(name))
    } else if chars[k - 1] == '/' {
        let name = copy_range(chars, start + 1, k - 1);
        Some(XMLTag::EmptyElement(name))
    } else {
        let name = copy_range(chars, start + 1, k);
        Some(XMLTag::Start(name))
    }
}

/// The index reached from `j` by walking backward over whitespace (stopping
/// at index 0).
pub open spec fn skip_ws_back(s: Seq<char>, j: int) -> int
    recommends
        0 <= j < s.len(),
    decreases j,
{
    if j > 0 && is_ws(s[j]) {
        skip_ws_back(s, j - 1)
    } else {
        j
    }
}

/// The name of the start tag owning the scope opened by a `{` at index `i`:
/// walking backward over whitespace from `i` must meet a `>`, and the tag
/// ending there must classify as a start tag; otherwise no tag owns the
/// scope.
pub open spec fn spec_owner_before(s: Seq<char>, i: int) -> Option<Seq<char>>
    recommends
        0 <= i < s.len(),
{
    if i <= 0 {
        Option::None
    } else {
        let j = skip_ws_back(s, i - 1);
        if s[j] != '>' {
            Option::None
        } else {
            match spec_find_tag_at(s, j) {
                Option::Some(SpecTag::Start(n)) => Option::Some(n),
                _ => Option::None,
            }
        }
    }
}

/// Finds the name of the start tag before the scope opened by the `{` at
/// `index`, or `None` when nothing valid precedes it.
pub fn find_tag_name_before_scope(chars: &Vec<char>, index: usize) -> (r: Option<String>)
    requires
        index < chars@.len(),
        chars@[index as int] == '{',
    ensures
        match r {
            Option::Some(name) => spec_owner_before(chars@, index as int) == Option::Some(name@),
            Option::None => spec_owner_before(chars@, index as int) == Option::None::<Seq<char>>,
        },
{
    match find_owner_chars(chars, index) {
        Some(name) => Some(string_of(&name)),
        None => None,
    }
}

/// As `find_tag_name_before_scope`, but handing the owner's name back as the
/// raw character buffer the scan works on.
pub fn find_owner_chars(chars: &Vec<char>, index: usize) -> (r: Option<Vec<char>>)
    requires
        index < chars@.len(),
        chars@[index as int] == '{',
    ensures
        match r {
            Option::Some(name) => spec_owner_before(chars@, index as int) == Option::Some(name@),
            Option::None => spec_owner_before(chars@, index as int) == Option::None::<Seq<char>>,
        },
{
    if index == 0 {
        return None;
    }
    let mut j: usize = index - 1;
    while j > 0 && is_whitespace_char(chars[j])
        invariant
            j <= index - 1 < chars@.len(),
            skip_ws_back(chars@, index - 1) == skip_ws_back(chars@, j as int),
        decreases j,
    {
        j -= 1;
    }
    if chars[j] != '>' {
        return None;
    }
    match find_tag_name_at(chars, j) {
        Some(XMLTag::Start(name)) => Some(name),
        _ => None,
    }
}

} // verus!
