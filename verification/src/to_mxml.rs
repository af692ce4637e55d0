//! The tag-to-scope translator: a single left-to-right scan that turns each
//! matched start/end tag pair of an XML or HTML document into a brace scope,
//! leaving void elements and self-closing tags untouched. Modelled, like the
//! opposite direction, as a deterministic state machine that the executable
//! loop is proved to walk.

use vstd::prelude::*;

use crate::error::{result_chars, MxmlError};
use crate::scanner::{find_tag_name_at, spec_find_tag_at, SpecTag, XMLTag};
use crate::text::{chars_eq, chars_of, string_of};
use crate::to_xml::{closes_comment, opens_comment};
use crate::voids::{name_in_set, names_view};

verus! {

/// The state carried through the tag-to-scope scan: the names of the open
/// start tags, whether the scan stands inside the suppressed text of an end
/// tag, whether it stands inside a comment, and the output built so far.
#[verifier::ext_equal]
pub struct X2mState {
    pub stack: Seq<Seq<char>>,
    pub in_closing: bool,
    pub in_comment: bool,
    pub out: Seq<char>,
}

/// A scan either goes on in some state or has failed for good.
#[verifier::ext_equal]
pub enum X2mStatus {
    Going(X2mState),
    Failed(MxmlError),
}

/// One step of the tag-to-scope machine, reading the character at `i`.
/// Inside a comment every character is copied and only the comment's end is
/// watched for. A `>` not preceded by `/` closes either a suppressed end tag
/// (emitting the scope's `}`) or a scanned tag: a start tag outside the void
/// set is pushed and followed by `> {` in the output, a void start tag is
/// closed plainly, and anything else fails the scan. A `<` opening an end
/// tag pops the innermost start tag, which must match by name; the end tag's
/// own text is then suppressed. Everything else is copied verbatim unless an
/// end tag is being suppressed.
pub open spec fn x2m_step(s: Seq<char>, voids: Seq<Seq<char>>, i: int, st: X2mState) -> X2mStatus
    recommends
        0 <= i < s.len(),
{
    let c = s[i];
    if st.in_comment {
        X2mStatus::Going(
            X2mState { in_comment: !closes_comment(s, i), out: st.out.push(c), ..st },
        )
    } else if c == '>' && !(i >= 1 && s[i - 1] == '/') {
        if st.in_closing {
            X2mStatus::Going(X2mState { in_closing: false, out: st.out.push('}'), ..st })
        } else {
            match spec_find_tag_at(s, i) {
                Option::Some(SpecTag::Start(name)) => if voids.contains(name) {
                    X2mStatus::Going(X2mState { out: st.out.push('>'), ..st })
                } else {
                    X2mStatus::Going(
                        X2mState {
                            stack: st.stack.push(name),
                            out: st.out.push('>').push(' ').push('{'),
                            ..st
                        },
                    )
                },
                _ => X2mStatus::Failed(MxmlError::MalformedTag { index: i as usize }),
            }
        }
    } else if c == '<' {
        if i + 1 < s.len() && s[i + 1] == '/' {
            match spec_find_tag_at(s, i) {
                Option::Some(SpecTag::End(name)) => if st.stack.len() == 0 {
                    X2mStatus::Failed(MxmlError::ExtraEndTag { index: i as usize })
                } else if st.stack.last() != name {
                    X2mStatus::Failed(MxmlError::MismatchedEndTag { index: i as usize })
                } else {
                    X2mStatus::Going(
                        X2mState { stack: st.stack.drop_last(), in_closing: true, ..st },
                    )
                },
                _ => X2mStatus::Failed(MxmlError::MalformedTag { index: i as usize }),
            }
        } else if opens_comment(s, i) {
            X2mStatus::Going(X2mState { in_comment: true, out: st.out.push('<'), ..st })
        } else {
            X2mStatus::Going(X2mState { out: st.out.push('<'), ..st })
        }
    } else if !st.in_closing {
        X2mStatus::Going(X2mState { out: st.out.push(c), ..st })
    } else {
        X2mStatus::Going(st)
    }
}

/// The machine's starting state: no open tag, no suppression, not in a
/// comment, empty output.
pub open spec fn x2m_init() -> X2mState {
    X2mState { stack: Seq::empty(), in_closing: false, in_comment: false, out: Seq::empty() }
}

/// The machine's status once the first `i` characters of `s` are consumed.
/// A failure absorbs every later step.
pub open spec fn x2m_state_at(s: Seq<char>, voids: Seq<Seq<char>>, i: int) -> X2mStatus
    recommends
        0 <= i <= s.len(),
    decreases i,
{
    if i <= 0 {
        X2mStatus::Going(x2m_init())
    } else {
        match x2m_state_at(s, voids, i - 1) {
            X2mStatus::Failed(e) => X2mStatus::Failed(e),
            X2mStatus::Going(st) => x2m_step(s, voids, i - 1, st),
        }
    }
}

/// What the tag-to-scope conversion returns for the document `s` under the
/// void set `voids`: the failure the scan stopped with, `UnmatchedStartTags`
/// when the input ends with open start tags, and otherwise the full output.
pub open spec fn spec_xml_scopes_to_mxml(s: Seq<char>, voids: Seq<Seq<char>>) -> Result<
    Seq<char>,
    MxmlError,
> {
    match x2m_state_at(s, voids, s.len() as int) {
        X2mStatus::Failed(e) => Result::Err(e),
        X2mStatus::Going(st) => if st.stack.len() > 0 {
            Result::Err(MxmlError::UnmatchedStartTags)
        } else {
            Result::Ok(st.out)
        },
    }
}

/// Once the machine has failed, it stays failed with the same error.
pub proof fn lemma_x2m_failed_persists(s: Seq<char>, voids: Seq<Seq<char>>, i: int, j: int)
    requires
        0 <= i <= j,
        x2m_state_at(s, voids, i) is Failed,
    ensures
        x2m_state_at(s, voids, j) == x2m_state_at(s, voids, i),
    decreases j - i,
{
    if j > i {
        lemma_x2m_failed_persists(s, voids, i, j - 1);
    }
}

/// The name sequences held by a stack of name buffers.
pub open spec fn x2m_stack_view(st: Seq<Vec<char>>) -> Seq<Seq<char>> {
    st.map_values(|v: Vec<char>| v@)
}

/// Converts the matched tag pairs of `source` into brace scopes, leaving
/// tags in `void_element_tags` unscoped. Returns exactly what the machine
/// model returns on the decoded characters of `source`.
pub fn xml_scopes_to_mxml(source: String, void_element_tags: Vec<String>) -> (r: Result<
    String,
    MxmlError,
>)
    ensures
        result_chars(r) == spec_xml_scopes_to_mxml(source@, names_view(void_element_tags@)),
{
    let ghost voids_v = names_view(void_element_tags@);
    let chars = chars_of(source.as_str());
    let n = chars.len();
    let mut stack: Vec<Vec<char>> = Vec::new();
    let mut out: Vec<char> = Vec::new();
    let mut in_closing = false;
    let mut in_comment = false;
    let mut index: usize = 0;
    proof {
        assert(x2m_stack_view(stack@) =~= Seq::<Seq<char>>::empty());
        assert(out@ =~= Seq::<char>::empty());
        assert(x2m_state_at(source@, voids_v, 0) == X2mStatus::Going(
            (X2mState {
                stack: x2m_stack_view(stack@),
                in_closing: in_closing,
                in_comment: in_comment,
                out: out@,
            }),
        ));
    }
    while index < n
        invariant
            n == chars@.len(),
            chars@ == source@,
            index <= n,
            voids_v == names_view(void_element_tags@),
            x2m_state_at(source@, voids_v, index as int) == X2mStatus::Going(
                (X2mState {
                    stack: x2m_stack_view(stack@),
                    in_closing: in_closing,
                    in_comment: in_comment,
                    out: out@,
                }),
            ),
        decreases n - index,
    {
        let ghost pre = X2mState {
            stack: x2m_stack_view(stack@),
            in_closing: in_closing,
            in_comment: in_comment,
            out: out@,
        };
        let c = chars[index];
        if in_comment {
            out.push(c);
            if c == '>' && index >= 2 && chars[index - 1] == '-' && chars[index - 2] == '-' {
                in_comment = false;
            }
            proof {
                assert(x2m_step(source@, voids_v, index as int, pre) == X2mStatus::Going(
                    (X2mState {
                        stack: x2m_stack_view(stack@),
                        in_closing: in_closing,
                        in_comment: in_comment,
                        out: out@,
                    }),
                ));
            }
        } else if c == '>' && !(index >= 1 && chars[index - 1] == '/') {
            if in_closing {
                out.push('}');
                in_closing = false;
                proof {
                    assert(x2m_step(source@, voids_v, index as int, pre) == X2mStatus::Going(
                        (X2mState {
                            stack: x2m_stack_view(stack@),
                            in_closing: in_closing,
                            in_comment: in_comment,
                            out: out@,
                        }),
                    ));
                }
            } else {
                match find_tag_name_at(&chars, index) {
                    Option::Some(XMLTag::Start(name)) => {
                        let ghost name_v = name@;
                        if name_in_set(&void_element_tags, &name) {
                            out.push('>');
                            proof {
                                assert(x2m_step(source@, voids_v, index as int, pre)
                                    == X2mStatus::Going(
                                    (X2mState {
                                        stack: x2m_stack_view(stack@),
                                        in_closing: in_closing,
                                        in_comment: in_comment,
                                        out: out@,
                                    }),
                                ));
                            }
                        } else {
                            stack.push(name);
                            out.push('>');
                            out.push(' ');
                            out.push('{');
                            proof {
                                assert(x2m_stack_view(stack@) =~= pre.stack.push(name_v));
                                assert(x2m_step(source@, voids_v, index as int, pre)
                                    == X2mStatus::Going(
                                    (X2mState {
                                        stack: x2m_stack_view(stack@),
                                        in_closing: in_closing,
                                        in_comment: in_comment,
                                        out: out@,
                                    }),
                                ));
                            }
                        }
                    },
                    _ => {
                        proof {
                            assert(x2m_state_at(source@, voids_v, index + 1) == X2mStatus::Failed(
                                MxmlError::MalformedTag { index },
                            ));
                            lemma_x2m_failed_persists(source@, voids_v, index + 1, n as int);
                        }
                        return Result::Err(MxmlError::MalformedTag { index });
                    },
                }
            }
        } else if c == '<' {
            if index + 1 < n && chars[index + 1] == '/' {
                match find_tag_name_at(&chars, index) {
                    Option::Some(XMLTag::End(name)) => {
                        match stack.pop() {
                            Option::Some(top) => {
                                if !chars_eq(&top, &name) {
                                    proof {
                                        assert(pre.stack.last() != name@);
                                        assert(x2m_state_at(source@, voids_v, index + 1)
                                            == X2mStatus::Failed(
                                            MxmlError::MismatchedEndTag { index },
                                        ));
                                        lemma_x2m_failed_persists(
                                            source@,
                                            voids_v,
                                            index + 1,
                                            n as int,
                                        );
                                    }
                                    return Result::Err(MxmlError::MismatchedEndTag { index });
                                }
                                in_closing = true;
                                proof {
                                    assert(pre.stack.last() == name@);
                                    assert(x2m_stack_view(stack@) =~= pre.stack.drop_last());
                                    assert(x2m_step(source@, voids_v, index as int, pre)
                                        == X2mStatus::Going(
                                        (X2mState {
                                            stack: x2m_stack_view(stack@),
                                            in_closing: in_closing,
                                            in_comment: in_comment,
                                            out: out@,
                                        }),
                                    ));
                                }
                            },
                            Option::None => {
                                proof {
                                    assert(pre.stack.len() == 0);
                                    assert(x2m_state_at(source@, voids_v, index + 1)
                                        == X2mStatus::Failed(MxmlError::ExtraEndTag { index }));
                                    lemma_x2m_failed_persists(
                                        source@,
                                        voids_v,
                                        index + 1,
                                        n as int,
                                    );
                                }
                                return Result::Err(MxmlError::ExtraEndTag { index });
                            },
                        }
                    },
                    _ => {
                        proof {
                            assert(x2m_state_at(source@, voids_v, index + 1) == X2mStatus::Failed(
                                MxmlError::MalformedTag { index },
                            ));
                            lemma_x2m_failed_persists(source@, voids_v, index + 1, n as int);
                        }
                        return Result::Err(MxmlError::MalformedTag { index });
                    },
                }
            } else {
                if n - index > 3 && chars[index + 1] == '!' && chars[index + 2] == '-' && chars[
                    index + 3] == '-' {
                    in_comment = true;
                }
                out.push('<');
                proof {
                    assert(x2m_step(source@, voids_v, index as int, pre) == X2mStatus::Going(
                        (X2mState {
                            stack: x2m_stack_view(stack@),
                            in_closing: in_closing,
                            in_comment: in_comment,
                            out: out@,
                        }),
                    ));
                }
            }
        } else if !in_closing {
            out.push(c);
            proof {
                assert(x2m_step(source@, voids_v, index as int, pre) == X2mStatus::Going(
                    (X2mState {
                        stack: x2m_stack_view(stack@),
                        in_closing: in_closing,
                        in_comment: in_comment,
                        out: out@,
                    }),
                ));
            }
        } else {
            proof {
                assert(x2m_step(source@, voids_v, index as int, pre) == X2mStatus::Going(pre));
            }
        }
        index += 1;
    }
    if stack.len() > 0 {
        return Result::Err(MxmlError::UnmatchedStartTags);
    }
    Result::Ok(string_of(&out))
}

/// While the tag-to-scope scan stands inside a comment, every character
/// through the comment's closing `>` is copied unchanged and nothing else
/// of the state moves.
proof fn lemma_x2m_comment_body_copied(
    s: Seq<char>,
    voids: Seq<Seq<char>>,
    k: int,
    j: int,
    st: X2mState,
)
    requires
        0 <= k <= j < s.len(),
        x2m_state_at(s, voids, k) == X2mStatus::Going(st),
        st.in_comment,
        closes_comment(s, j),
        forall|m: int| k <= m < j ==> !closes_comment(s, m),
    ensures
        x2m_state_at(s, voids, j + 1) == X2mStatus::Going(
            (X2mState { in_comment: false, out: st.out + s.subrange(k, j + 1), ..st }),
        ),
    decreases j - k,
{
    if k == j {
        assert(st.out + s.subrange(j, j + 1) =~= st.out.push(s[j]));
        assert(x2m_state_at(s, voids, j + 1) == x2m_step(s, voids, j, st));
    } else {
        let st2 = X2mState { out: st.out.push(s[k]), ..st };
        assert(x2m_step(s, voids, k, st) == X2mStatus::Going(st2));
        lemma_x2m_comment_body_copied(s, voids, k + 1, j, st2);
        assert(st2.out + s.subrange(k + 1, j + 1) =~= st.out + s.subrange(k, j + 1));
    }
}

/// Comment spans are copied byte-for-byte by the tag-to-scope translator:
/// from a `<!--` opener met in normal mode through the first closing `-->`,
/// the scan appends exactly the comment's own characters to the output and
/// touches neither the tag stack nor any flag, whatever braces or tag-like
/// text stand inside the comment.
pub proof fn lemma_x2m_comment_copied(
    s: Seq<char>,
    voids: Seq<Seq<char>>,
    i: int,
    j: int,
    st: X2mState,
)
    requires
        0 <= i < s.len(),
        x2m_state_at(s, voids, i) == X2mStatus::Going(st),
        !st.in_comment,
        opens_comment(s, i),
        i < j < s.len(),
        closes_comment(s, j),
        forall|m: int| i < m < j ==> !closes_comment(s, m),
    ensures
        x2m_state_at(s, voids, j + 1) == X2mStatus::Going(
            (X2mState { in_comment: false, out: st.out + s.subrange(i, j + 1), ..st }),
        ),
{
    let st1 = X2mState { in_comment: true, out: st.out.push(s[i]), ..st };
    assert(x2m_step(s, voids, i, st) == X2mStatus::Going(st1));
    assert(x2m_state_at(s, voids, i + 1) == X2mStatus::Going(st1));
    lemma_x2m_comment_body_copied(s, voids, i + 1, j, st1);
    assert(st1.out + s.subrange(i + 1, j + 1) =~= st.out + s.subrange(i, j + 1));
}

} // verus!
