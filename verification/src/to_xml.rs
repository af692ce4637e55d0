//! The scope-to-tag translator: a single left-to-right scan that turns each
//! brace scope of an MXML document into a proper closing tag. The scan is
//! modelled as a deterministic state machine, one step per character; the
//! executable loop is proved to walk exactly that machine.

use vstd::prelude::*;

use crate::error::{result_chars, MxmlError};
use crate::scanner::{find_owner_chars, spec_owner_before};
use crate::text::{chars_of, is_whitespace_char, is_ws, string_of};
use crate::voids::{name_in_set, names_view};

verus! {

/// The state carried through the scope-to-tag scan: the names of the open
/// scopes, whether the scan stands inside a comment, and the output built so
/// far.
#[verifier::ext_equal]
pub struct M2xState {
    pub stack: Seq<Seq<char>>,
    pub in_comment: bool,
    pub out: Seq<char>,
}

/// A scan either goes on in some state or has failed for good.
#[verifier::ext_equal]
pub enum M2xStatus {
    Going(M2xState),
    Failed(MxmlError),
}

/// The name sequences held by a stack of name buffers.
pub open spec fn stack_view(st: Seq<Vec<char>>) -> Seq<Seq<char>> {
    st.map_values(|v: Vec<char>| v@)
}

/// `s` with its trailing whitespace removed.
pub open spec fn rtrim(s: Seq<char>) -> Seq<char>
    decreases s.len(),
{
    if s.len() > 0 && is_ws(s[s.len() - 1]) {
        rtrim(s.drop_last())
    } else {
        s
    }
}

/// The end tag emitted when the scope of `name` closes.
pub open spec fn end_tag_text(name: Seq<char>) -> Seq<char> {
    seq!['<', '/'] + name + seq!['>']
}

/// Whether the character at `k` ends a comment: a `>` whose two preceding
/// characters are both `-`.
pub open spec fn closes_comment(s: Seq<char>, k: int) -> bool {
    s[k] == '>' && k >= 2 && s[k - 1] == '-' && s[k - 2] == '-'
}

/// Whether a comment opens at `k`: a `<` directly followed by `!--`.
pub open spec fn opens_comment(s: Seq<char>, k: int) -> bool {
    s[k] == '<' && k + 3 < s.len() && s[k + 1] == '!' && s[k + 2] == '-' && s[k + 3] == '-'
}

/// One step of the scope-to-tag machine, reading the character at `i`.
/// Inside a comment every character is copied and only the comment's end is
/// watched for. A `{` resolves its owning tag: no owner fails the scan, a
/// void owner fails it, and otherwise the owner's name is pushed and the gap
/// between the tag's `>` and the `{` is trimmed from the output. A `}` pops
/// the innermost open scope and emits its end tag. Everything else is copied
/// verbatim, a `<` additionally checking for a comment opener.
pub open spec fn m2x_step(s: Seq<char>, voids: Seq<Seq<char>>, i: int, st: M2xState) -> M2xStatus
    recommends
        0 <= i < s.len(),
{
    let c = s[i];
    if st.in_comment {
        M2xStatus::Going(
            M2xState { in_comment: !closes_comment(s, i), out: st.out.push(c), ..st },
        )
    } else if c == '{' {
        match spec_owner_before(s, i) {
            Option::Some(name) => if voids.contains(name) {
                M2xStatus::Failed(MxmlError::VoidElementScopeViolation { index: i as usize })
            } else {
                M2xStatus::Going(
                    M2xState { stack: st.stack.push(name), out: rtrim(st.out), ..st },
                )
            },
            Option::None => M2xStatus::Failed(
                MxmlError::UnresolvedScopeOwner { index: i as usize },
            ),
        }
    } else if c == '}' {
        if st.stack.len() == 0 {
            M2xStatus::Failed(MxmlError::UnmatchedClosingScope { index: i as usize })
        } else {
            M2xStatus::Going(
                M2xState {
                    stack: st.stack.drop_last(),
                    out: st.out + end_tag_text(st.stack.last()),
                    ..st
                },
            )
        }
    } else if c == '<' {
        M2xStatus::Going(M2xState { in_comment: opens_comment(s, i), out: st.out.push('<'), ..st })
    } else {
        M2xStatus::Going(M2xState { out: st.out.push(c), ..st })
    }
}

/// The machine's starting state: no open scope, not in a comment, empty
/// output.
pub open spec fn m2x_init() -> M2xState {
    M2xState { stack: Seq::empty(), in_comment: false, out: Seq::empty() }
}

/// The machine's status once the first `i` characters of `s` are consumed.
/// A failure absorbs every later step.
pub open spec fn m2x_state_at(s: Seq<char>, voids: Seq<Seq<char>>, i: int) -> M2xStatus
    recommends
        0 <= i <= s.len(),
    decreases i,
{
    if i <= 0 {
        M2xStatus::Going(m2x_init())
    } else {
        match m2x_state_at(s, voids, i - 1) {
            M2xStatus::Failed(e) => M2xStatus::Failed(e),
            M2xStatus::Going(st) => m2x_step(s, voids, i - 1, st),
        }
    }
}

/// What the scope-to-tag conversion returns for the document `s` under the
/// void set `voids`: the failure the scan stopped with, or the full output.
pub open spec fn spec_mxml_scopes_to_xml(s: Seq<char>, voids: Seq<Seq<char>>) -> Result<
    Seq<char>,
    MxmlError,
> {
    match m2x_state_at(s, voids, s.len() as int) {
        M2xStatus::Failed(e) => Result::Err(e),
        M2xStatus::Going(st) => Result::Ok(st.out),
    }
}

/// Once the machine has failed, it stays failed with the same error.
pub proof fn lemma_m2x_failed_persists(s: Seq<char>, voids: Seq<Seq<char>>, i: int, j: int)
    requires
        0 <= i <= j,
        m2x_state_at(s, voids, i) is Failed,
    ensures
        m2x_state_at(s, voids, j) == m2x_state_at(s, voids, i),
    decreases j - i,
{
    if j > i {
        lemma_m2x_failed_persists(s, voids, i, j - 1);
    }
}

/// Converts the brace scopes of `source` into closing tags, rejecting a
/// scope owned by a tag in `void_element_tags`. Returns exactly what the
/// machine model returns on the decoded characters of `source`.
pub fn mxml_scopes_to_xml(source: String, void_element_tags: Vec<String>) -> (r: Result<
    String,
    MxmlError,
>)
    ensures
        result_chars(r) == spec_mxml_scopes_to_xml(source@, names_view(void_element_tags@)),
{
    let ghost voids_v = names_view(void_element_tags@);
    let chars = chars_of(source.as_str());
    let n = chars.len();
    let mut stack: Vec<Vec<char>> = Vec::new();
    let mut out: Vec<char> = Vec::new();
    let mut in_comment = false;
    let mut index: usize = 0;
    proof {
        assert(stack_view(stack@) =~= Seq::<Seq<char>>::empty());
        assert(out@ =~= Seq::<char>::empty());
        assert(m2x_state_at(source@, voids_v, 0) == M2xStatus::Going(
            (M2xState { stack: stack_view(stack@), in_comment: in_comment, out: out@ }),
        ));
    }
    while index < n
        invariant
            n == chars@.len(),
            chars@ == source@,
            index <= n,
            voids_v == names_view(void_element_tags@),
            m2x_state_at(source@, voids_v, index as int) == M2xStatus::Going(
                (M2xState { stack: stack_view(stack@), in_comment: in_comment, out: out@ }),
            ),
        decreases n - index,
    {
        let ghost pre = M2xState { stack: stack_view(stack@), in_comment: in_comment, out: out@ };
        let c = chars[index];
        if in_comment {
            out.push(c);
            if c == '>' && index >= 2 && chars[index - 1] == '-' && chars[index - 2] == '-' {
                in_comment = false;
            }
            proof {
                assert(m2x_step(source@, voids_v, index as int, pre) == M2xStatus::Going(
                    (M2xState { stack: stack_view(stack@), in_comment: in_comment, out: out@ }),
                ));
            }
        } else if c == '{' {
            match find_owner_chars(&chars, index) {
                Option::Some(name) => {
                    let ghost name_v = name@;
                    if name_in_set(&void_element_tags, &name) {
                        proof {
                            assert(m2x_state_at(source@, voids_v, index + 1) == M2xStatus::Failed(
                                MxmlError::VoidElementScopeViolation { index },
                            ));
                            lemma_m2x_failed_persists(source@, voids_v, index + 1, n as int);
                        }
                        return Result::Err(MxmlError::VoidElementScopeViolation { index });
                    }
                    stack.push(name);
                    let ghost pre_out = out@;
                    while out.len() > 0 && is_whitespace_char(out[out.len() - 1])
                        invariant
                            rtrim(out@) == rtrim(pre_out),
                        decreases out@.len(),
                    {
                        let ghost before = out@;
                        out.pop();
                        proof {
                            assert(out@ =~= before.drop_last());
                        }
                    }
                    proof {
                        assert(rtrim(out@) == out@);
                        assert(stack_view(stack@) =~= pre.stack.push(name_v));
                        assert(m2x_step(source@, voids_v, index as int, pre) == M2xStatus::Going(
                            (M2xState {
                                stack: stack_view(stack@),
                                in_comment: in_comment,
                                out: out@,
                            }),
                        ));
                    }
                },
                Option::None => {
                    proof {
                        assert(m2x_state_at(source@, voids_v, index + 1) == M2xStatus::Failed(
                            MxmlError::UnresolvedScopeOwner { index },
                        ));
                        lemma_m2x_failed_persists(source@, voids_v, index + 1, n as int);
                    }
                    return Result::Err(MxmlError::UnresolvedScopeOwner { index });
                },
            }
        } else if c == '}' {
            match stack.pop() {
                Option::Some(name) => {
                    out.push('<');
                    out.push('/');
                    let ghost mid_out = out@;
                    let mut k: usize = 0;
                    while k < name.len()
                        invariant
                            k <= name@.len(),
                            out@ == mid_out + name@.take(k as int),
                        decreases name@.len() - k,
                    {
                        out.push(name[k]);
                        proof {
                            assert(out@ =~= mid_out + name@.take(k + 1 as int));
                        }
                        k += 1;
                    }
                    out.push('>');
                    proof {
                        assert(name@.take(name@.len() as int) =~= name@);
                        assert(name@ == pre.stack.last());
                        assert(out@ =~= pre.out + end_tag_text(name@));
                        assert(stack_view(stack@) =~= pre.stack.drop_last());
                        assert(m2x_step(source@, voids_v, index as int, pre) == M2xStatus::Going(
                            (M2xState {
                                stack: stack_view(stack@),
                                in_comment: in_comment,
                                out: out@,
                            }),
                        ));
                    }
                },
                Option::None => {
                    proof {
                        assert(pre.stack.len() == 0);
                        assert(m2x_state_at(source@, voids_v, index + 1) == M2xStatus::Failed(
                            MxmlError::UnmatchedClosingScope { index },
                        ));
                        lemma_m2x_failed_persists(source@, voids_v, index + 1, n as int);
                    }
                    return Result::Err(MxmlError::UnmatchedClosingScope { index });
                },
            }
        } else if c == '<' {
            if n - index > 3 && chars[index + 1] == '!' && chars[index + 2] == '-' && chars[index
                + 3] == '-' {
                in_comment = true;
            }
            out.push('<');
            proof {
                assert(m2x_step(source@, voids_v, index as int, pre) == M2xStatus::Going(
                    (M2xState { stack: stack_view(stack@), in_comment: in_comment, out: out@ }),
                ));
            }
        } else {
            out.push(c);
            proof {
                assert(m2x_step(source@, voids_v, index as int, pre) == M2xStatus::Going(
                    (M2xState { stack: stack_view(stack@), in_comment: in_comment, out: out@ }),
                ));
            }
        }
        index += 1;
    }
    Result::Ok(string_of(&out))
}

/// A scope opener directly preceded (ignoring whitespace) by the close of a
/// tag in the void set always makes the whole scope-to-tag conversion fail
/// with `VoidElementScopeViolation` at that opener, whatever the rest of the
/// document holds.
pub proof fn lemma_void_scope_owner_fails(
    s: Seq<char>,
    voids: Seq<Seq<char>>,
    i: int,
    st: M2xState,
    name: Seq<char>,
)
    requires
        0 <= i < s.len(),
        m2x_state_at(s, voids, i) == M2xStatus::Going(st),
        !st.in_comment,
        s[i] == '{',
        spec_owner_before(s, i) == Option::Some(name),
        voids.contains(name),
    ensures
        spec_mxml_scopes_to_xml(s, voids) == Result::Err::<Seq<char>, MxmlError>(
            MxmlError::VoidElementScopeViolation { index: i as usize },
        ),
{
    assert(m2x_state_at(s, voids, i + 1) == M2xStatus::Failed(
        MxmlError::VoidElementScopeViolation { index: i as usize },
    ));
    lemma_m2x_failed_persists(s, voids, i + 1, s.len() as int);
}

/// While the scope-to-tag scan stands inside a comment, every character
/// through the comment's closing `>` is copied unchanged and nothing else
/// of the state moves.
proof fn lemma_m2x_comment_body_copied(
    s: Seq<char>,
    voids: Seq<Seq<char>>,
    k: int,
    j: int,
    st: M2xState,
)
    requires
        0 <= k <= j < s.len(),
        m2x_state_at(s, voids, k) == M2xStatus::Going(st),
        st.in_comment,
        closes_comment(s, j),
        forall|m: int| k <= m < j ==> !closes_comment(s, m),
    ensures
        m2x_state_at(s, voids, j + 1) == M2xStatus::Going(
            (M2xState { in_comment: false, out: st.out + s.subrange(k, j + 1), ..st }),
        ),
    decreases j - k,
{
    if k == j {
        assert(st.out + s.subrange(j, j + 1) =~= st.out.push(s[j]));
        assert(m2x_state_at(s, voids, j + 1) == m2x_step(s, voids, j, st));
    } else {
        let st2 = M2xState { out: st.out.push(s[k]), ..st };
        assert(m2x_step(s, voids, k, st) == M2xStatus::Going(st2));
        lemma_m2x_comment_body_copied(s, voids, k + 1, j, st2);
        assert(st2.out + s.subrange(k + 1, j + 1) =~= st.out + s.subrange(k, j + 1));
    }
}

/// Comment spans are copied byte-for-byte by the scope-to-tag translator:
/// from a `<!--` opener met in normal mode through the first closing `-->`,
/// the scan appends exactly the comment's own characters to the output and
/// touches neither the scope stack nor any flag, whatever braces or
/// tag-like text stand inside the comment.
pub proof fn lemma_m2x_comment_copied(
    s: Seq<char>,
    voids: Seq<Seq<char>>,
    i: int,
    j: int,
    st: M2xState,
)
    requires
        0 <= i < s.len(),
        m2x_state_at(s, voids, i) == M2xStatus::Going(st),
        !st.in_comment,
        opens_comment(s, i),
        i < j < s.len(),
        closes_comment(s, j),
        forall|m: int| i < m < j ==> !closes_comment(s, m),
    ensures
        m2x_state_at(s, voids, j + 1) == M2xStatus::Going(
            (M2xState { in_comment: false, out: st.out + s.subrange(i, j + 1), ..st }),
        ),
{
    let st1 = M2xState { in_comment: true, out: st.out.push(s[i]), ..st };
    assert(m2x_step(s, voids, i, st) == M2xStatus::Going(st1));
    assert(m2x_state_at(s, voids, i + 1) == M2xStatus::Going(st1));
    lemma_m2x_comment_body_copied(s, voids, i + 1, j, st1);
    assert(st1.out + s.subrange(i + 1, j + 1) =~= st.out + s.subrange(i, j + 1));
}

} // verus!
