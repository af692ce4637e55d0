//! The round-trip laws: on well-formed documents the two translators are
//! inverses of one another. Documents are described by an inductive grammar
//! of plain characters, comments, scoped elements, void-element tags and
//! self-closing tags; each grammar node renders both as tag-delimited
//! markup and as brace-scoped markup, and running either machine over one
//! rendering is proved to produce the other.

use vstd::prelude::*;

use crate::error::MxmlError;
use crate::escape::{lbrkt_token, lemma_replace_escapes_noop, matches_at, rbrkt_token};
use crate::scanner::{lt_before, name_end, spec_find_tag_at, spec_owner_before, skip_ws_back, SpecTag};
use crate::text::is_ws;
use crate::voids::spec_html_void_names;
use crate::{spec_html_to_mxml, spec_mxml_to_html, spec_mxml_to_xml, spec_xml_to_mxml};
use crate::to_mxml::{
    lemma_x2m_comment_copied, spec_xml_scopes_to_mxml, x2m_init, x2m_state_at, x2m_step, X2mState,
    X2mStatus,
};
use crate::to_xml::{
    closes_comment, end_tag_text, lemma_m2x_comment_copied, m2x_init, m2x_state_at, m2x_step,
    opens_comment, rtrim, spec_mxml_scopes_to_xml, M2xState, M2xStatus,
};

verus! {

/// A well-formed document: a sequence of plain characters, comments,
/// scoped elements with children, void-element tags and self-closing tags.
pub enum Doc {
    /// The empty document.
    Empty,
    /// One plain character followed by the rest of the document.
    Char(char, Box<Doc>),
    /// A full comment span (`<!--` through `-->`) followed by the rest.
    Comment(Seq<char>, Box<Doc>),
    /// An element: name, attribute text, children, and the rest of the
    /// document after the element closes.
    Element(Seq<char>, Seq<char>, Box<Doc>, Box<Doc>),
    /// A void-element tag (no closing tag, no scope) followed by the rest.
    Void(Seq<char>, Seq<char>, Box<Doc>),
    /// A self-closing tag (`<name attrs/>`) followed by the rest.
    SelfClosing(Seq<char>, Seq<char>, Box<Doc>),
}

/// A usable tag name: nonempty, no whitespace or tag/scope syntax
/// characters, not starting with `!` (which would look like a comment).
pub open spec fn wf_name(name: Seq<char>) -> bool {
    &&& name.len() > 0
    &&& name[0] != '!'
    &&& forall|k: int|
        0 <= k < name.len() ==> !is_ws(name[k]) && name[k] != '<' && name[k] != '>' && name[k]
            != '/' && name[k] != '{' && name[k] != '}'
}

/// Usable attribute text: separated from the name by whitespace, free of
/// tag and scope syntax characters, and not ending in `/` (which would turn
/// the tag self-closing).
pub open spec fn wf_attrs(attrs: Seq<char>) -> bool {
    &&& attrs.len() > 0 ==> is_ws(attrs[0]) && attrs[attrs.len() - 1] != '/'
    &&& forall|k: int|
        0 <= k < attrs.len() ==> attrs[k] != '<' && attrs[k] != '>' && attrs[k] != '{' && attrs[k]
            != '}'
}

/// A full comment span: it opens with `<!--`, ends with the first position
/// that closes a comment, and holds no earlier closing position.
pub open spec fn wf_comment(t: Seq<char>) -> bool {
    &&& t.len() >= 5
    &&& t[0] == '<' && t[1] == '!' && t[2] == '-' && t[3] == '-'
    &&& t[t.len() - 1] == '>' && t[t.len() - 2] == '-' && t[t.len() - 3] == '-'
    &&& forall|k: int|
        2 <= k < t.len() - 1 ==> !((#[trigger] t[k]) == '>' && t[k - 1] == '-' && t[k - 2] == '-')
}

/// Well-formedness of a document under a void set: plain characters carry
/// no tag or scope syntax, comments are full spans, scoped elements are
/// never void, void tags always are.
pub open spec fn wf_doc(d: Doc, voids: Seq<Seq<char>>) -> bool
    decreases d,
{
    match d {
        Doc::Empty => true,
        Doc::Char(c, rest) => c != '<' && c != '>' && c != '{' && c != '}' && wf_doc(
            *rest,
            voids,
        ),
        Doc::Comment(t, rest) => wf_comment(t) && wf_doc(*rest, voids),
        Doc::Element(name, attrs, kids, rest) => wf_name(name) && wf_attrs(attrs)
            && !voids.contains(name) && wf_doc(*kids, voids) && wf_doc(*rest, voids),
        Doc::Void(name, attrs, rest) => wf_name(name) && wf_attrs(attrs) && voids.contains(name)
            && wf_doc(*rest, voids),
        Doc::SelfClosing(name, attrs, rest) => wf_name(name) && wf_attrs(attrs) && wf_doc(
            *rest,
            voids,
        ),
    }
}

/// The tag-delimited (XML/HTML) rendering of a document.
pub open spec fn xml_of(d: Doc) -> Seq<char>
    decreases d,
{
    match d {
        Doc::Empty => Seq::empty(),
        Doc::Char(c, rest) => seq![c] + xml_of(*rest),
        Doc::Comment(t, rest) => t + xml_of(*rest),
        Doc::Element(name, attrs, kids, rest) => seq!['<'] + name + attrs + seq!['>'] + xml_of(
            *kids,
        ) + end_tag_text(name) + xml_of(*rest),
        Doc::Void(name, attrs, rest) => seq!['<'] + name + attrs + seq!['>'] + xml_of(*rest),
        Doc::SelfClosing(name, attrs, rest) => seq!['<'] + name + attrs + seq!['/', '>'] + xml_of(
            *rest,
        ),
    }
}

/// The brace-scoped (MXML) rendering of a document: each element's children
/// sit between `> {` and `}`, everything else reads as in the tag form.
pub open spec fn mxml_of(d: Doc) -> Seq<char>
    decreases d,
{
    match d {
        Doc::Empty => Seq::empty(),
        Doc::Char(c, rest) => seq![c] + mxml_of(*rest),
        Doc::Comment(t, rest) => t + mxml_of(*rest),
        Doc::Element(name, attrs, kids, rest) => seq!['<'] + name + attrs + seq!['>', ' ', '{']
            + mxml_of(*kids) + seq!['}'] + mxml_of(*rest),
        Doc::Void(name, attrs, rest) => seq!['<'] + name + attrs + seq!['>'] + mxml_of(*rest),
        Doc::SelfClosing(name, attrs, rest) => seq!['<'] + name + attrs + seq!['/', '>']
            + mxml_of(*rest),
    }
}

/// The nearest `<` at or before `i` is the one at `j` when nothing between
/// them is a `<`.
proof fn lemma_lt_before_range(s: Seq<char>, j: int, i: int)
    requires
        0 <= j <= i < s.len(),
        s[j] == '<',
        forall|m: int| j < m <= i ==> s[m] != '<',
    ensures
        lt_before(s, i) == j,
    decreases i - j,
{
    if i > j {
        lemma_lt_before_range(s, j, i - 1);
    }
}

/// The name region scan from `k` stops exactly at `e` when nothing before
/// `e` stops it and `e` does.
proof fn lemma_name_end_range(s: Seq<char>, k: int, e: int)
    requires
        0 <= k <= e < s.len(),
        forall|m: int| k <= m < e ==> !is_ws(s[m]) && s[m] != '>',
        is_ws(s[e]) || s[e] == '>',
    ensures
        name_end(s, k) == e,
    decreases e - k,
{
    if k < e {
        lemma_name_end_range(s, k + 1, e);
    }
}

/// The scanner, pointed at the closing `>` of an opening tag written
/// `<name attrs>`, classifies it as a start tag with exactly that name.
proof fn lemma_scan_start_tag(s: Seq<char>, i: int, name: Seq<char>, attrs: Seq<char>)
    requires
        wf_name(name),
        wf_attrs(attrs),
        0 <= i,
        i + name.len() + attrs.len() + 2 <= s.len(),
        s.subrange(i, i + name.len() + attrs.len() + 2) == seq!['<'] + name + attrs + seq!['>'],
    ensures
        spec_find_tag_at(s, i + name.len() + attrs.len() + 1) == Option::Some(
            SpecTag::Start(name),
        ),
{
    let seg = seq!['<'] + name + attrs + seq!['>'];
    let gt = i + name.len() + attrs.len() + 1;
    let ne = i + 1 + name.len();
    assert forall|m: int| i <= m < i + seg.len() implies s[m] == seg[m - i] by {
        assert(seg[m - i] == s.subrange(i, i + seg.len())[m - i]);
    }
    assert(s[i] == '<');
    assert(s[gt] == '>');
    lemma_lt_before_range(s, i, gt);
    assert(forall|m: int| i <= m < ne ==> !is_ws(s[m]) && s[m] != '>');
    assert(is_ws(s[ne]) || s[ne] == '>');
    lemma_name_end_range(s, i, ne);
    assert(s[i + 1] != '/');
    assert(s[ne - 1] != '/');
    assert(s.subrange(i + 1, ne) =~= name);
}

/// The scanner, pointed at the `<` of an end tag written `</name>`,
/// classifies it as an end tag with exactly that name.
proof fn lemma_scan_end_tag(s: Seq<char>, i: int, name: Seq<char>)
    requires
        wf_name(name),
        0 <= i,
        i + name.len() + 3 <= s.len(),
        s.subrange(i, i + name.len() + 3) == end_tag_text(name),
    ensures
        spec_find_tag_at(s, i) == Option::Some(SpecTag::End(name)),
{
    let seg = end_tag_text(name);
    let ne = i + 2 + name.len();
    assert forall|m: int| i <= m < i + seg.len() implies s[m] == seg[m - i] by {
        assert(seg[m - i] == s.subrange(i, i + seg.len())[m - i]);
    }
    assert(s[i] == '<');
    assert(s[i + 1] == '/');
    assert(forall|m: int| i <= m < ne ==> !is_ws(s[m]) && s[m] != '>');
    assert(s[ne] == '>');
    lemma_name_end_range(s, i, ne);
    assert(s.subrange(i + 2, ne) =~= name);
}

/// Characters that are neither `<` nor `>` are copied one-for-one by the
/// tag-to-scope machine while it scans in normal mode.
proof fn lemma_x2m_plain_run(s: Seq<char>, voids: Seq<Seq<char>>, i: int, j: int, st: X2mState)
    requires
        0 <= i <= j <= s.len(),
        x2m_state_at(s, voids, i) == X2mStatus::Going(st),
        !st.in_comment,
        !st.in_closing,
        forall|m: int| i <= m < j ==> s[m] != '<' && s[m] != '>',
    ensures
        x2m_state_at(s, voids, j) == X2mStatus::Going(
            (X2mState { out: st.out + s.subrange(i, j), ..st }),
        ),
    decreases j - i,
{
    if i == j {
        assert((X2mState { out: st.out + s.subrange(i, j), ..st }) =~= st);
    } else {
        let st2 = X2mState { out: st.out.push(s[i]), ..st };
        assert(x2m_step(s, voids, i, st) == X2mStatus::Going(st2));
        assert(x2m_state_at(s, voids, i + 1) == X2mStatus::Going(st2));
        lemma_x2m_plain_run(s, voids, i + 1, j, st2);
        assert((X2mState { out: st2.out + s.subrange(i + 1, j), ..st2 }) =~= (X2mState {
            out: st.out + s.subrange(i, j),
            ..st
        }));
    }
}

/// While the tag-to-scope machine suppresses an end tag's text, characters
/// that are neither `<` nor `>` leave the state untouched.
proof fn lemma_x2m_closing_run(s: Seq<char>, voids: Seq<Seq<char>>, i: int, j: int, st: X2mState)
    requires
        0 <= i <= j <= s.len(),
        x2m_state_at(s, voids, i) == X2mStatus::Going(st),
        !st.in_comment,
        st.in_closing,
        forall|m: int| i <= m < j ==> s[m] != '<' && s[m] != '>',
    ensures
        x2m_state_at(s, voids, j) == X2mStatus::Going(st),
    decreases j - i,
{
    if i < j {
        assert(x2m_step(s, voids, i, st) == X2mStatus::Going(st));
        assert(x2m_state_at(s, voids, i + 1) == X2mStatus::Going(st));
        lemma_x2m_closing_run(s, voids, i + 1, j, st);
    }
}

/// Running the tag-to-scope machine over the tag rendering of a
/// well-formed document appends exactly the document's brace rendering to
/// the output and returns the stack and the flags as they were.
proof fn lemma_x2m_doc_run(s: Seq<char>, voids: Seq<Seq<char>>, i: int, d: Doc, st: X2mState)
    requires
        wf_doc(d, voids),
        0 <= i,
        i + xml_of(d).len() <= s.len(),
        s.subrange(i, i + xml_of(d).len()) == xml_of(d),
        x2m_state_at(s, voids, i) == X2mStatus::Going(st),
        !st.in_comment,
        !st.in_closing,
    ensures
        x2m_state_at(s, voids, i + xml_of(d).len()) == X2mStatus::Going(
            (X2mState { out: st.out + mxml_of(d), ..st }),
        ),
    decreases d, 1int,
{
    let seg = xml_of(d);
    assert forall|m: int| i <= m < i + seg.len() implies s[m] == seg[m - i] by {
        assert(seg[m - i] == s.subrange(i, i + seg.len())[m - i]);
    }
    match d {
        Doc::Empty => {
            assert((X2mState { out: st.out + mxml_of(d), ..st }) =~= st);
        },
        Doc::Char(c, rest) => {
            let st2 = X2mState { out: st.out.push(c), ..st };
            assert(x2m_step(s, voids, i, st) == X2mStatus::Going(st2));
            assert(x2m_state_at(s, voids, i + 1) == X2mStatus::Going(st2));
            assert(s.subrange(i + 1, i + 1 + xml_of(*rest).len()) =~= xml_of(*rest));
            lemma_x2m_doc_run(s, voids, i + 1, *rest, st2);
            assert((X2mState { out: st2.out + mxml_of(*rest), ..st2 }) =~= (X2mState {
                out: st.out + mxml_of(d),
                ..st
            }));
        },
        Doc::Comment(..) => {
            lemma_x2m_run_comment(s, voids, i, d, st);
        },
        Doc::Element(..) => {
            lemma_x2m_run_element(s, voids, i, d, st);
        },
        Doc::Void(..) => {
            lemma_x2m_run_void(s, voids, i, d, st);
        },
        Doc::SelfClosing(..) => {
            lemma_x2m_run_self_closing(s, voids, i, d, st);
        },
    }
}

/// The comment case of `lemma_x2m_doc_run`.
#[verifier::rlimit(100)]
proof fn lemma_x2m_run_comment(s: Seq<char>, voids: Seq<Seq<char>>, i: int, d: Doc, st: X2mState)
    requires
        d is Comment,
        wf_doc(d, voids),
        0 <= i,
        i + xml_of(d).len() <= s.len(),
        s.subrange(i, i + xml_of(d).len()) == xml_of(d),
        x2m_state_at(s, voids, i) == X2mStatus::Going(st),
        !st.in_comment,
        !st.in_closing,
    ensures
        x2m_state_at(s, voids, i + xml_of(d).len()) == X2mStatus::Going(
            (X2mState { out: st.out + mxml_of(d), ..st }),
        ),
    decreases d, 0int,
{
    let seg = xml_of(d);
    match d {
        Doc::Comment(t, rest) => {
            let lt = t.len() as int;
            let ls = seg.len() as int;
            let j = i + lt - 1;
            lemma_subrange_slice(s, i, seg, 0, lt);
            assert(seg.subrange(0, lt) =~= t);
            assert forall|m: int| i <= m < i + lt implies s[m] == t[m - i] by {
                assert(t[m - i] == s.subrange(i, i + lt)[m - i]);
            }
            assert(opens_comment(s, i));
            assert(closes_comment(s, j));
            assert forall|m: int| i < m < j implies !closes_comment(s, m) by {
                let k = m - i;
                if k >= 2 {
                    assert(!(t[k] == '>' && t[k - 1] == '-' && t[k - 2] == '-'));
                }
            }
            lemma_x2m_comment_copied(s, voids, i, j, st);
            let st2 = X2mState { in_comment: false, out: st.out + s.subrange(i, j + 1), ..st };
            assert(x2m_state_at(s, voids, j + 1) == X2mStatus::Going(st2));
            lemma_subrange_slice(s, i, seg, lt, ls);
            assert(seg.subrange(lt, ls) =~= xml_of(*rest));
            lemma_x2m_doc_run(s, voids, j + 1, *rest, st2);
            assert(s.subrange(i, j + 1) =~= t);
            assert((X2mState { out: st2.out + mxml_of(*rest), ..st2 }) =~= (X2mState {
                out: st.out + mxml_of(d),
                ..st
            }));
        },
        _ => {},
    }
}

/// A subrange equality localizes: any slice of the region equals the same
/// slice of the segment.
proof fn lemma_subrange_slice(s: Seq<char>, i: int, seg: Seq<char>, a: int, b: int)
    requires
        0 <= i,
        i + seg.len() <= s.len(),
        s.subrange(i, i + seg.len()) == seg,
        0 <= a <= b <= seg.len(),
    ensures
        s.subrange(i + a, i + b) == seg.subrange(a, b),
{
    assert(s.subrange(i + a, i + b) =~= s.subrange(i, i + seg.len()).subrange(a, b));
}

/// The tag-to-scope machine runs an opening tag `<name attrs>` of a
/// non-void element into `<name attrs> {` with the name pushed.
#[verifier::rlimit(100)]
proof fn lemma_x2m_run_open_tag(
    s: Seq<char>,
    voids: Seq<Seq<char>>,
    i: int,
    name: Seq<char>,
    attrs: Seq<char>,
    st: X2mState,
)
    requires
        wf_name(name),
        wf_attrs(attrs),
        !voids.contains(name),
        0 <= i,
        i + name.len() + attrs.len() + 2 <= s.len(),
        s.subrange(i, i + name.len() + attrs.len() + 2) == seq!['<'] + name + attrs + seq!['>'],
        x2m_state_at(s, voids, i) == X2mStatus::Going(st),
        !st.in_comment,
        !st.in_closing,
    ensures
        x2m_state_at(s, voids, i + name.len() + attrs.len() + 2) == X2mStatus::Going(
            (X2mState {
                stack: st.stack.push(name),
                out: st.out + (seq!['<'] + name + attrs + seq!['>', ' ', '{']),
                ..st
            }),
        ),
{
    let seg = seq!['<'] + name + attrs + seq!['>'];
    let gt = i + 1 + name.len() + attrs.len();
    assert forall|m: int| i <= m < i + seg.len() implies s[m] == seg[m - i] by {
        assert(seg[m - i] == s.subrange(i, i + seg.len())[m - i]);
    }
    // the opening `<`
    let st1 = X2mState { out: st.out.push('<'), ..st };
    assert(x2m_step(s, voids, i, st) == X2mStatus::Going(st1));
    assert(x2m_state_at(s, voids, i + 1) == X2mStatus::Going(st1));
    // the name and attribute characters
    lemma_x2m_plain_run(s, voids, i + 1, gt, st1);
    let st2 = X2mState { out: st1.out + s.subrange(i + 1, gt), ..st1 };
    assert(x2m_state_at(s, voids, gt) == X2mStatus::Going(st2));
    // the `>` closing the start tag: scanned, pushed, `> {` emitted
    lemma_scan_start_tag(s, i, name, attrs);
    assert(s[gt - 1] != '/');
    let st3 = X2mState {
        stack: st.stack.push(name),
        out: st2.out.push('>').push(' ').push('{'),
        ..st2
    };
    assert(x2m_step(s, voids, gt, st2) == X2mStatus::Going(st3));
    assert(x2m_state_at(s, voids, gt + 1) == X2mStatus::Going(st3));
    assert(s.subrange(i + 1, gt) =~= name + attrs);
    assert(st3.out =~= st.out + (seq!['<'] + name + attrs + seq!['>', ' ', '{']));
}

/// The tag-to-scope machine runs an end tag `</name>` matching the top of
/// the stack into the scope's closing `}`.
#[verifier::rlimit(100)]
proof fn lemma_x2m_run_close_tag(
    s: Seq<char>,
    voids: Seq<Seq<char>>,
    k: int,
    name: Seq<char>,
    st: X2mState,
)
    requires
        wf_name(name),
        0 <= k,
        k + name.len() + 3 <= s.len(),
        s.subrange(k, k + name.len() + 3) == end_tag_text(name),
        x2m_state_at(s, voids, k) == X2mStatus::Going(st),
        !st.in_comment,
        !st.in_closing,
        st.stack.len() > 0,
        st.stack.last() == name,
    ensures
        x2m_state_at(s, voids, k + name.len() + 3) == X2mStatus::Going(
            (X2mState { stack: st.stack.drop_last(), out: st.out.push('}'), ..st }),
        ),
{
    let seg = end_tag_text(name);
    let tag_end = k + name.len() + 3;
    assert forall|m: int| k <= m < k + seg.len() implies s[m] == seg[m - k] by {
        assert(seg[m - k] == s.subrange(k, k + seg.len())[m - k]);
    }
    // the `<` of the end tag: popped and suppressed
    lemma_scan_end_tag(s, k, name);
    assert(s[k + 1] == '/');
    let st5 = X2mState { stack: st.stack.drop_last(), in_closing: true, ..st };
    assert(x2m_step(s, voids, k, st) == X2mStatus::Going(st5));
    assert(x2m_state_at(s, voids, k + 1) == X2mStatus::Going(st5));
    // the suppressed `/name` characters
    lemma_x2m_closing_run(s, voids, k + 1, tag_end - 1, st5);
    // the `>` ending the end tag emits the scope's `}`
    assert(s[tag_end - 2] != '/');
    assert(s[tag_end - 1] == '>');
    let st6 = X2mState { in_closing: false, out: st5.out.push('}'), ..st5 };
    assert(x2m_step(s, voids, tag_end - 1, st5) == X2mStatus::Going(st6));
    assert(x2m_state_at(s, voids, tag_end) == X2mStatus::Going(st6));
}

/// The element case of `lemma_x2m_doc_run`.
#[verifier::rlimit(100)]
proof fn lemma_x2m_run_element(s: Seq<char>, voids: Seq<Seq<char>>, i: int, d: Doc, st: X2mState)
    requires
        d is Element,
        wf_doc(d, voids),
        0 <= i,
        i + xml_of(d).len() <= s.len(),
        s.subrange(i, i + xml_of(d).len()) == xml_of(d),
        x2m_state_at(s, voids, i) == X2mStatus::Going(st),
        !st.in_comment,
        !st.in_closing,
    ensures
        x2m_state_at(s, voids, i + xml_of(d).len()) == X2mStatus::Going(
            (X2mState { out: st.out + mxml_of(d), ..st }),
        ),
    decreases d, 0int,
{
    let seg = xml_of(d);
    match d {
        Doc::Element(name, attrs, kids, rest) => {
            let open = seq!['<'] + name + attrs + seq!['>'];
            let x_kids = xml_of(*kids);
            let x_rest = xml_of(*rest);
            let lo = open.len() as int;
            let lk = x_kids.len() as int;
            let lc = (name.len() + 3) as int;
            let ls = seg.len() as int;
            let open_end = i + lo;
            let kids_end = open_end + lk;
            let elem_end = kids_end + lc;
            // the opening tag
            lemma_subrange_slice(s, i, seg, 0, lo);
            assert(seg.subrange(0, lo) =~= open);
            lemma_x2m_run_open_tag(s, voids, i, name, attrs, st);
            let st3 = X2mState {
                stack: st.stack.push(name),
                out: st.out + (seq!['<'] + name + attrs + seq!['>', ' ', '{']),
                ..st
            };
            // the children
            lemma_subrange_slice(s, i, seg, lo, lo + lk);
            assert(seg.subrange(lo, lo + lk) =~= x_kids);
            lemma_x2m_doc_run(s, voids, open_end, *kids, st3);
            let st4 = X2mState { out: st3.out + mxml_of(*kids), ..st3 };
            assert(x2m_state_at(s, voids, kids_end) == X2mStatus::Going(st4));
            // the end tag
            lemma_subrange_slice(s, i, seg, lo + lk, lo + lk + lc);
            assert(seg.subrange(lo + lk, lo + lk + lc) =~= end_tag_text(name));
            assert(st4.stack.len() > 0 && st4.stack.last() == name);
            lemma_x2m_run_close_tag(s, voids, kids_end, name, st4);
            let st6 = X2mState { stack: st4.stack.drop_last(), out: st4.out.push('}'), ..st4 };
            assert(x2m_state_at(s, voids, elem_end) == X2mStatus::Going(st6));
            assert(st6.stack =~= st.stack);
            // the rest of the document
            lemma_subrange_slice(s, i, seg, ls - x_rest.len(), ls);
            assert(seg.subrange(ls - x_rest.len(), ls) =~= x_rest);
            assert(elem_end == i + (ls - x_rest.len()));
            lemma_x2m_doc_run(s, voids, elem_end, *rest, st6);
            assert((X2mState { out: st6.out + mxml_of(*rest), ..st6 }) =~= (X2mState {
                out: st.out + mxml_of(d),
                ..st
            }));
        },
        _ => {},
    }
}

/// The void-element case of `lemma_x2m_doc_run`.
#[verifier::rlimit(100)]
proof fn lemma_x2m_run_void(s: Seq<char>, voids: Seq<Seq<char>>, i: int, d: Doc, st: X2mState)
    requires
        d is Void,
        wf_doc(d, voids),
        0 <= i,
        i + xml_of(d).len() <= s.len(),
        s.subrange(i, i + xml_of(d).len()) == xml_of(d),
        x2m_state_at(s, voids, i) == X2mStatus::Going(st),
        !st.in_comment,
        !st.in_closing,
    ensures
        x2m_state_at(s, voids, i + xml_of(d).len()) == X2mStatus::Going(
            (X2mState { out: st.out + mxml_of(d), ..st }),
        ),
    decreases d, 0int,
{
    let seg = xml_of(d);
    match d {
        Doc::Void(name, attrs, rest) => {
            let open = seq!['<'] + name + attrs + seq!['>'];
            let lo = open.len() as int;
            let ls = seg.len() as int;
            let gt = i + 1 + name.len() + attrs.len();
            lemma_subrange_slice(s, i, seg, 0, lo);
            assert(seg.subrange(0, lo) =~= open);
            assert forall|m: int| i <= m < i + lo implies s[m] == open[m - i] by {
                assert(open[m - i] == s.subrange(i, i + lo)[m - i]);
            }
            let st1 = X2mState { out: st.out.push('<'), ..st };
            assert(x2m_step(s, voids, i, st) == X2mStatus::Going(st1));
            assert(x2m_state_at(s, voids, i + 1) == X2mStatus::Going(st1));
            lemma_x2m_plain_run(s, voids, i + 1, gt, st1);
            let st2 = X2mState { out: st1.out + s.subrange(i + 1, gt), ..st1 };
            assert(x2m_state_at(s, voids, gt) == X2mStatus::Going(st2));
            lemma_scan_start_tag(s, i, name, attrs);
            assert(s[gt - 1] != '/');
            let st3 = X2mState { out: st2.out.push('>'), ..st2 };
            assert(x2m_step(s, voids, gt, st2) == X2mStatus::Going(st3));
            assert(x2m_state_at(s, voids, gt + 1) == X2mStatus::Going(st3));
            lemma_subrange_slice(s, i, seg, lo, ls);
            assert(seg.subrange(lo, ls) =~= xml_of(*rest));
            lemma_x2m_doc_run(s, voids, gt + 1, *rest, st3);
            assert(s.subrange(i + 1, gt) =~= name + attrs);
            assert((X2mState { out: st3.out + mxml_of(*rest), ..st3 }) =~= (X2mState {
                out: st.out + mxml_of(d),
                ..st
            }));
        },
        _ => {},
    }
}

/// The self-closing case of `lemma_x2m_doc_run`.
#[verifier::rlimit(100)]
proof fn lemma_x2m_run_self_closing(
    s: Seq<char>,
    voids: Seq<Seq<char>>,
    i: int,
    d: Doc,
    st: X2mState,
)
    requires
        d is SelfClosing,
        wf_doc(d, voids),
        0 <= i,
        i + xml_of(d).len() <= s.len(),
        s.subrange(i, i + xml_of(d).len()) == xml_of(d),
        x2m_state_at(s, voids, i) == X2mStatus::Going(st),
        !st.in_comment,
        !st.in_closing,
    ensures
        x2m_state_at(s, voids, i + xml_of(d).len()) == X2mStatus::Going(
            (X2mState { out: st.out + mxml_of(d), ..st }),
        ),
    decreases d, 0int,
{
    let seg = xml_of(d);
    match d {
        Doc::SelfClosing(name, attrs, rest) => {
            let open = seq!['<'] + name + attrs + seq!['/', '>'];
            let lo = open.len() as int;
            let ls = seg.len() as int;
            lemma_subrange_slice(s, i, seg, 0, lo);
            assert(seg.subrange(0, lo) =~= open);
            lemma_x2m_run_self_tag(s, voids, i, name, attrs, st);
            let st3 = X2mState { out: st.out + open, ..st };
            lemma_subrange_slice(s, i, seg, lo, ls);
            assert(seg.subrange(lo, ls) =~= xml_of(*rest));
            lemma_x2m_doc_run(s, voids, i + lo, *rest, st3);
            assert((X2mState { out: st3.out + mxml_of(*rest), ..st3 }) =~= (X2mState {
                out: st.out + mxml_of(d),
                ..st
            }));
        },
        _ => {},
    }
}

/// The tag-to-scope machine copies a self-closing tag `<name attrs/>`
/// through verbatim: its `>` follows a `/`, so no scan or scope happens.
#[verifier::rlimit(100)]
proof fn lemma_x2m_run_self_tag(
    s: Seq<char>,
    voids: Seq<Seq<char>>,
    i: int,
    name: Seq<char>,
    attrs: Seq<char>,
    st: X2mState,
)
    requires
        wf_name(name),
        wf_attrs(attrs),
        0 <= i,
        i + name.len() + attrs.len() + 3 <= s.len(),
        s.subrange(i, i + name.len() + attrs.len() + 3) == seq!['<'] + name + attrs + seq![
            '/',
            '>',
        ],
        x2m_state_at(s, voids, i) == X2mStatus::Going(st),
        !st.in_comment,
        !st.in_closing,
    ensures
        x2m_state_at(s, voids, i + name.len() + attrs.len() + 3) == X2mStatus::Going(
            (X2mState { out: st.out + (seq!['<'] + name + attrs + seq!['/', '>']), ..st }),
        ),
{
    let seg = seq!['<'] + name + attrs + seq!['/', '>'];
    let gt = i + 2 + name.len() + attrs.len();
    assert forall|m: int| i <= m < i + seg.len() implies s[m] == seg[m - i] by {
        assert(seg[m - i] == s.subrange(i, i + seg.len())[m - i]);
    }
    let st1 = X2mState { out: st.out.push('<'), ..st };
    assert(x2m_step(s, voids, i, st) == X2mStatus::Going(st1));
    assert(x2m_state_at(s, voids, i + 1) == X2mStatus::Going(st1));
    // name, attributes and the `/` are all plain characters
    lemma_x2m_plain_run(s, voids, i + 1, gt, st1);
    let st2 = X2mState { out: st1.out + s.subrange(i + 1, gt), ..st1 };
    assert(x2m_state_at(s, voids, gt) == X2mStatus::Going(st2));
    // the `>` follows a `/`, so it is copied verbatim
    assert(s[gt - 1] == '/');
    assert(s[gt] == '>');
    let st3 = X2mState { out: st2.out.push('>'), ..st2 };
    assert(x2m_step(s, voids, gt, st2) == X2mStatus::Going(st3));
    assert(x2m_state_at(s, voids, gt + 1) == X2mStatus::Going(st3));
    assert(s.subrange(i + 1, gt) =~= name + attrs + seq!['/']);
    assert(st3 =~= (X2mState { out: st.out + seg, ..st }));
}


/// Characters that are none of `{`, `}` and `<` are copied one-for-one by
/// the scope-to-tag machine while it scans in normal mode.
proof fn lemma_m2x_plain_run(s: Seq<char>, voids: Seq<Seq<char>>, i: int, j: int, st: M2xState)
    requires
        0 <= i <= j <= s.len(),
        m2x_state_at(s, voids, i) == M2xStatus::Going(st),
        !st.in_comment,
        forall|m: int| i <= m < j ==> s[m] != '{' && s[m] != '}' && s[m] != '<',
    ensures
        m2x_state_at(s, voids, j) == M2xStatus::Going(
            (M2xState { out: st.out + s.subrange(i, j), ..st }),
        ),
    decreases j - i,
{
    if i == j {
        assert((M2xState { out: st.out + s.subrange(i, j), ..st }) =~= st);
    } else {
        let st2 = M2xState { out: st.out.push(s[i]), ..st };
        assert(m2x_step(s, voids, i, st) == M2xStatus::Going(st2));
        assert(m2x_state_at(s, voids, i + 1) == M2xStatus::Going(st2));
        lemma_m2x_plain_run(s, voids, i + 1, j, st2);
        assert((M2xState { out: st2.out + s.subrange(i + 1, j), ..st2 }) =~= (M2xState {
            out: st.out + s.subrange(i, j),
            ..st
        }));
    }
}

/// The scope-to-tag machine runs an opening tag with its scope opener,
/// `<name attrs> {`, into `<name attrs>` with the name pushed: the owner
/// resolves to the start tag and the gap before the `{` is trimmed away.
#[verifier::rlimit(100)]
proof fn lemma_m2x_run_open_tag(
    s: Seq<char>,
    voids: Seq<Seq<char>>,
    i: int,
    name: Seq<char>,
    attrs: Seq<char>,
    st: M2xState,
)
    requires
        wf_name(name),
        wf_attrs(attrs),
        !voids.contains(name),
        0 <= i,
        i + name.len() + attrs.len() + 4 <= s.len(),
        s.subrange(i, i + name.len() + attrs.len() + 4) == seq!['<'] + name + attrs + seq![
            '>',
            ' ',
            '{',
        ],
        m2x_state_at(s, voids, i) == M2xStatus::Going(st),
        !st.in_comment,
    ensures
        m2x_state_at(s, voids, i + name.len() + attrs.len() + 4) == M2xStatus::Going(
            (M2xState {
                stack: st.stack.push(name),
                out: st.out + (seq!['<'] + name + attrs + seq!['>']),
                ..st
            }),
        ),
{
    let seg = seq!['<'] + name + attrs + seq!['>', ' ', '{'];
    let gt = i + 1 + name.len() + attrs.len();
    let brace = gt + 2;
    let x_open = seq!['<'] + name + attrs + seq!['>'];
    assert forall|m: int| i <= m < i + seg.len() implies s[m] == seg[m - i] by {
        assert(seg[m - i] == s.subrange(i, i + seg.len())[m - i]);
    }
    // the opening `<` is no comment opener
    assert(s[i + 1] != '!');
    assert(!opens_comment(s, i));
    let st1 = M2xState { in_comment: false, out: st.out.push('<'), ..st };
    assert(m2x_step(s, voids, i, st) == M2xStatus::Going(st1));
    assert(m2x_state_at(s, voids, i + 1) == M2xStatus::Going(st1));
    // name, attributes, `>` and the single space are all plain here
    lemma_m2x_plain_run(s, voids, i + 1, brace, st1);
    let st2 = M2xState { out: st1.out + s.subrange(i + 1, brace), ..st1 };
    assert(m2x_state_at(s, voids, brace) == M2xStatus::Going(st2));
    // the `{` resolves its owner: back over the space to the `>`
    assert(s[brace] == '{');
    assert(s[brace - 1] == ' ');
    assert(s[gt] == '>');
    assert(skip_ws_back(s, gt) == gt);
    assert(skip_ws_back(s, brace - 1) == skip_ws_back(s, gt));
    assert(s.subrange(i, i + name.len() + attrs.len() + 2) =~= seq!['<'] + name + attrs + seq![
        '>',
    ]);
    lemma_scan_start_tag(s, i, name, attrs);
    assert(spec_owner_before(s, brace) == Option::Some(name));
    // the output is right-trimmed back to the tag's `>`
    assert(st2.out =~= (st.out + x_open).push(' '));
    assert(((st.out + x_open).push(' ')).drop_last() =~= st.out + x_open);
    assert(rtrim((st.out + x_open).push(' ')) == rtrim(st.out + x_open));
    assert((st.out + x_open).len() > 0);
    assert((st.out + x_open).last() == '>');
    assert(rtrim(st.out + x_open) == st.out + x_open);
    let st3 = M2xState { stack: st.stack.push(name), out: rtrim(st2.out), ..st2 };
    assert(m2x_step(s, voids, brace, st2) == M2xStatus::Going(st3));
    assert(m2x_state_at(s, voids, brace + 1) == M2xStatus::Going(st3));
    assert(st3 =~= (M2xState {
        stack: st.stack.push(name),
        out: st.out + (seq!['<'] + name + attrs + seq!['>']),
        ..st
    }));
}

/// Running the scope-to-tag machine over the brace rendering of a
/// well-formed document appends exactly the document's tag rendering to
/// the output and returns the stack and the comment flag as they were.
proof fn lemma_m2x_doc_run(s: Seq<char>, voids: Seq<Seq<char>>, i: int, d: Doc, st: M2xState)
    requires
        wf_doc(d, voids),
        0 <= i,
        i + mxml_of(d).len() <= s.len(),
        s.subrange(i, i + mxml_of(d).len()) == mxml_of(d),
        m2x_state_at(s, voids, i) == M2xStatus::Going(st),
        !st.in_comment,
    ensures
        m2x_state_at(s, voids, i + mxml_of(d).len()) == M2xStatus::Going(
            (M2xState { out: st.out + xml_of(d), ..st }),
        ),
    decreases d, 1int,
{
    let seg = mxml_of(d);
    assert forall|m: int| i <= m < i + seg.len() implies s[m] == seg[m - i] by {
        assert(seg[m - i] == s.subrange(i, i + seg.len())[m - i]);
    }
    match d {
        Doc::Empty => {
            assert((M2xState { out: st.out + xml_of(d), ..st }) =~= st);
        },
        Doc::Char(c, rest) => {
            let st2 = M2xState { out: st.out.push(c), ..st };
            assert(m2x_step(s, voids, i, st) == M2xStatus::Going(st2));
            assert(m2x_state_at(s, voids, i + 1) == M2xStatus::Going(st2));
            assert(s.subrange(i + 1, i + 1 + mxml_of(*rest).len()) =~= mxml_of(*rest));
            lemma_m2x_doc_run(s, voids, i + 1, *rest, st2);
            assert((M2xState { out: st2.out + xml_of(*rest), ..st2 }) =~= (M2xState {
                out: st.out + xml_of(d),
                ..st
            }));
        },
        Doc::Comment(..) => {
            lemma_m2x_run_comment(s, voids, i, d, st);
        },
        Doc::Element(..) => {
            lemma_m2x_run_element(s, voids, i, d, st);
        },
        Doc::Void(..) => {
            lemma_m2x_run_plain_tag(s, voids, i, d, st);
        },
        Doc::SelfClosing(..) => {
            lemma_m2x_run_plain_tag(s, voids, i, d, st);
        },
    }
}

/// The comment case of `lemma_m2x_doc_run`.
#[verifier::rlimit(100)]
proof fn lemma_m2x_run_comment(s: Seq<char>, voids: Seq<Seq<char>>, i: int, d: Doc, st: M2xState)
    requires
        d is Comment,
        wf_doc(d, voids),
        0 <= i,
        i + mxml_of(d).len() <= s.len(),
        s.subrange(i, i + mxml_of(d).len()) == mxml_of(d),
        m2x_state_at(s, voids, i) == M2xStatus::Going(st),
        !st.in_comment,
    ensures
        m2x_state_at(s, voids, i + mxml_of(d).len()) == M2xStatus::Going(
            (M2xState { out: st.out + xml_of(d), ..st }),
        ),
    decreases d, 0int,
{
    let seg = mxml_of(d);
    match d {
        Doc::Comment(t, rest) => {
            let lt = t.len() as int;
            let ls = seg.len() as int;
            let j = i + lt - 1;
            lemma_subrange_slice(s, i, seg, 0, lt);
            assert(seg.subrange(0, lt) =~= t);
            assert forall|m: int| i <= m < i + lt implies s[m] == t[m - i] by {
                assert(t[m - i] == s.subrange(i, i + lt)[m - i]);
            }
            assert(opens_comment(s, i));
            assert(closes_comment(s, j));
            assert forall|m: int| i < m < j implies !closes_comment(s, m) by {
                let k = m - i;
                if k >= 2 {
                    assert(!(t[k] == '>' && t[k - 1] == '-' && t[k - 2] == '-'));
                }
            }
            lemma_m2x_comment_copied(s, voids, i, j, st);
            let st2 = M2xState { in_comment: false, out: st.out + s.subrange(i, j + 1), ..st };
            assert(m2x_state_at(s, voids, j + 1) == M2xStatus::Going(st2));
            lemma_subrange_slice(s, i, seg, lt, ls);
            assert(seg.subrange(lt, ls) =~= mxml_of(*rest));
            lemma_m2x_doc_run(s, voids, j + 1, *rest, st2);
            assert(s.subrange(i, j + 1) =~= t);
            assert((M2xState { out: st2.out + xml_of(*rest), ..st2 }) =~= (M2xState {
                out: st.out + xml_of(d),
                ..st
            }));
        },
        _ => {},
    }
}

/// The element case of `lemma_m2x_doc_run`.
#[verifier::rlimit(100)]
proof fn lemma_m2x_run_element(s: Seq<char>, voids: Seq<Seq<char>>, i: int, d: Doc, st: M2xState)
    requires
        d is Element,
        wf_doc(d, voids),
        0 <= i,
        i + mxml_of(d).len() <= s.len(),
        s.subrange(i, i + mxml_of(d).len()) == mxml_of(d),
        m2x_state_at(s, voids, i) == M2xStatus::Going(st),
        !st.in_comment,
    ensures
        m2x_state_at(s, voids, i + mxml_of(d).len()) == M2xStatus::Going(
            (M2xState { out: st.out + xml_of(d), ..st }),
        ),
    decreases d, 0int,
{
    let seg = mxml_of(d);
    match d {
        Doc::Element(name, attrs, kids, rest) => {
            let open = seq!['<'] + name + attrs + seq!['>', ' ', '{'];
            let m_kids = mxml_of(*kids);
            let m_rest = mxml_of(*rest);
            let lo = open.len() as int;
            let lk = m_kids.len() as int;
            let ls = seg.len() as int;
            let open_end = i + lo;
            let kids_end = open_end + lk;
            // the opening tag with its scope opener
            lemma_subrange_slice(s, i, seg, 0, lo);
            assert(seg.subrange(0, lo) =~= open);
            lemma_m2x_run_open_tag(s, voids, i, name, attrs, st);
            let st3 = M2xState {
                stack: st.stack.push(name),
                out: st.out + (seq!['<'] + name + attrs + seq!['>']),
                ..st
            };
            // the children
            lemma_subrange_slice(s, i, seg, lo, lo + lk);
            assert(seg.subrange(lo, lo + lk) =~= m_kids);
            lemma_m2x_doc_run(s, voids, open_end, *kids, st3);
            let st4 = M2xState { out: st3.out + xml_of(*kids), ..st3 };
            assert(m2x_state_at(s, voids, kids_end) == M2xStatus::Going(st4));
            // the `}` closing the scope emits the end tag
            lemma_subrange_slice(s, i, seg, lo + lk, lo + lk + 1);
            assert(s[kids_end] == seg[lo + lk]);
            assert(seg[lo + lk] == '}');
            assert(st4.stack.len() > 0 && st4.stack.last() == name);
            let st5 = M2xState {
                stack: st4.stack.drop_last(),
                out: st4.out + end_tag_text(name),
                ..st4
            };
            assert(m2x_step(s, voids, kids_end, st4) == M2xStatus::Going(st5));
            assert(m2x_state_at(s, voids, kids_end + 1) == M2xStatus::Going(st5));
            assert(st5.stack =~= st.stack);
            // the rest of the document
            lemma_subrange_slice(s, i, seg, ls - m_rest.len(), ls);
            assert(seg.subrange(ls - m_rest.len(), ls) =~= m_rest);
            assert(kids_end + 1 == i + (ls - m_rest.len()));
            lemma_m2x_doc_run(s, voids, kids_end + 1, *rest, st5);
            assert((M2xState { out: st5.out + xml_of(*rest), ..st5 }) =~= (M2xState {
                out: st.out + xml_of(d),
                ..st
            }));
        },
        _ => {},
    }
}

/// The void-element and self-closing cases of `lemma_m2x_doc_run`: the tag
/// is copied through verbatim, since no scope opener follows it.
#[verifier::rlimit(100)]
proof fn lemma_m2x_run_plain_tag(s: Seq<char>, voids: Seq<Seq<char>>, i: int, d: Doc, st: M2xState)
    requires
        d is Void || d is SelfClosing,
        wf_doc(d, voids),
        0 <= i,
        i + mxml_of(d).len() <= s.len(),
        s.subrange(i, i + mxml_of(d).len()) == mxml_of(d),
        m2x_state_at(s, voids, i) == M2xStatus::Going(st),
        !st.in_comment,
    ensures
        m2x_state_at(s, voids, i + mxml_of(d).len()) == M2xStatus::Going(
            (M2xState { out: st.out + xml_of(d), ..st }),
        ),
    decreases d, 0int,
{
    let seg = mxml_of(d);
    match d {
        Doc::Void(name, attrs, rest) => {
            let open = seq!['<'] + name + attrs + seq!['>'];
            let lo = open.len() as int;
            let ls = seg.len() as int;
            let tag_end = i + 2 + name.len() + attrs.len();
            lemma_subrange_slice(s, i, seg, 0, lo);
            assert(seg.subrange(0, lo) =~= open);
            assert forall|m: int| i <= m < i + lo implies s[m] == open[m - i] by {
                assert(open[m - i] == s.subrange(i, i + lo)[m - i]);
            }
            assert(s[i + 1] != '!');
            assert(!opens_comment(s, i));
            let st1 = M2xState { in_comment: false, out: st.out.push('<'), ..st };
            assert(m2x_step(s, voids, i, st) == M2xStatus::Going(st1));
            assert(m2x_state_at(s, voids, i + 1) == M2xStatus::Going(st1));
            lemma_m2x_plain_run(s, voids, i + 1, tag_end, st1);
            let st2 = M2xState { out: st1.out + s.subrange(i + 1, tag_end), ..st1 };
            assert(m2x_state_at(s, voids, tag_end) == M2xStatus::Going(st2));
            lemma_subrange_slice(s, i, seg, lo, ls);
            assert(seg.subrange(lo, ls) =~= mxml_of(*rest));
            lemma_m2x_doc_run(s, voids, tag_end, *rest, st2);
            assert(s.subrange(i + 1, tag_end) =~= name + attrs + seq!['>']);
            assert((M2xState { out: st2.out + xml_of(*rest), ..st2 }) =~= (M2xState {
                out: st.out + xml_of(d),
                ..st
            }));
        },
        Doc::SelfClosing(name, attrs, rest) => {
            let open = seq!['<'] + name + attrs + seq!['/', '>'];
            let lo = open.len() as int;
            let ls = seg.len() as int;
            let tag_end = i + 3 + name.len() + attrs.len();
            lemma_subrange_slice(s, i, seg, 0, lo);
            assert(seg.subrange(0, lo) =~= open);
            assert forall|m: int| i <= m < i + lo implies s[m] == open[m - i] by {
                assert(open[m - i] == s.subrange(i, i + lo)[m - i]);
            }
            assert(s[i + 1] != '!');
            assert(!opens_comment(s, i));
            let st1 = M2xState { in_comment: false, out: st.out.push('<'), ..st };
            assert(m2x_step(s, voids, i, st) == M2xStatus::Going(st1));
            assert(m2x_state_at(s, voids, i + 1) == M2xStatus::Going(st1));
            lemma_m2x_plain_run(s, voids, i + 1, tag_end, st1);
            let st2 = M2xState { out: st1.out + s.subrange(i + 1, tag_end), ..st1 };
            assert(m2x_state_at(s, voids, tag_end) == M2xStatus::Going(st2));
            lemma_subrange_slice(s, i, seg, lo, ls);
            assert(seg.subrange(lo, ls) =~= mxml_of(*rest));
            lemma_m2x_doc_run(s, voids, tag_end, *rest, st2);
            assert(s.subrange(i + 1, tag_end) =~= name + attrs + seq!['/', '>']);
            assert((M2xState { out: st2.out + xml_of(*rest), ..st2 }) =~= (M2xState {
                out: st.out + xml_of(d),
                ..st
            }));
        },
        _ => {},
    }
}


/// The two translators are inverses on every well-formed document, under
/// any void set: the tag rendering converts to the brace rendering and the
/// brace rendering converts back to the tag rendering.
pub proof fn lemma_tag_scope_round_trip(d: Doc, voids: Seq<Seq<char>>)
    requires
        wf_doc(d, voids),
    ensures
        spec_xml_scopes_to_mxml(xml_of(d), voids) == Result::Ok::<Seq<char>, MxmlError>(
            mxml_of(d),
        ),
        spec_mxml_scopes_to_xml(mxml_of(d), voids) == Result::Ok::<Seq<char>, MxmlError>(
            xml_of(d),
        ),
{
    let x = xml_of(d);
    let m = mxml_of(d);
    assert(x.subrange(0, x.len() as int) =~= x);
    assert(x2m_state_at(x, voids, 0) == X2mStatus::Going(x2m_init()));
    lemma_x2m_doc_run(x, voids, 0, d, x2m_init());
    assert((X2mState { out: x2m_init().out + m, ..x2m_init() }) =~= (X2mState {
        stack: Seq::empty(),
        in_closing: false,
        in_comment: false,
        out: m,
    }));
    assert(m.subrange(0, m.len() as int) =~= m);
    assert(m2x_state_at(m, voids, 0) == M2xStatus::Going(m2x_init()));
    lemma_m2x_doc_run(m, voids, 0, d, m2x_init());
    assert((M2xState { out: m2x_init().out + x, ..m2x_init() }) =~= (M2xState {
        stack: Seq::empty(),
        in_comment: false,
        out: x,
    }));
}

/// For every well-formed strict XML document (no void-element semantics;
/// the grammar writes no stray braces, and the text holds no escape
/// token), converting tags to scopes and converting the result back are
/// mutually inverse: `xml_to_mxml` yields exactly the brace rendering, and
/// `mxml_to_xml` on that yields the tag-form text again.
pub proof fn lemma_strict_xml_round_trip(d: Doc)
    requires
        wf_doc(d, Seq::empty()),
        forall|p: int| !matches_at(xml_of(d), lbrkt_token(), p),
        forall|p: int| !matches_at(xml_of(d), rbrkt_token(), p),
    ensures
        spec_xml_to_mxml(xml_of(d)) == Result::Ok::<Seq<char>, MxmlError>(mxml_of(d)),
        spec_mxml_to_xml(mxml_of(d)) == Result::Ok::<Seq<char>, MxmlError>(xml_of(d)),
{
    lemma_tag_scope_round_trip(d, Seq::empty());
    lemma_replace_escapes_noop(xml_of(d));
}

/// For every well-formed document under the HTML5 void set — void
/// elements and self-closing tags included, the text holding no escape
/// token — the HTML-aware conversions are mutually inverse in the same
/// way.
pub proof fn lemma_html_round_trip(d: Doc)
    requires
        wf_doc(d, spec_html_void_names()),
        forall|p: int| !matches_at(xml_of(d), lbrkt_token(), p),
        forall|p: int| !matches_at(xml_of(d), rbrkt_token(), p),
    ensures
        spec_html_to_mxml(xml_of(d)) == Result::Ok::<Seq<char>, MxmlError>(mxml_of(d)),
        spec_mxml_to_html(mxml_of(d)) == Result::Ok::<Seq<char>, MxmlError>(xml_of(d)),
{
    lemma_tag_scope_round_trip(d, spec_html_void_names());
    lemma_replace_escapes_noop(xml_of(d));
}

} // verus!