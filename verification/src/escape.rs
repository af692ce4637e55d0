//! The escape codec: global literal substitution of the reserved brace
//! escape tokens `&lbrkt;` and `&rbrkt;` by `{` and `}`, applied when MXML
//! text is produced so that literal braces in content survive scope
//! translation.

use vstd::prelude::*;

use crate::text::{chars_of, string_of};

verus! {

/// Whether `pat` occurs in `s` starting at index `i`.
pub open spec fn matches_at(s: Seq<char>, pat: Seq<char>, i: int) -> bool {
    0 <= i && i + pat.len() <= s.len() && s.subrange(i, i + pat.len()) == pat
}

/// Global leftmost, non-overlapping substitution of `pat` by `rep`,
/// character by character: at each position, either the pattern matches and
/// is replaced whole, or one character is copied.
pub open spec fn substitute(s: Seq<char>, pat: Seq<char>, rep: Seq<char>) -> Seq<char>
    recommends
        pat.len() > 0,
    decreases s.len(),
{
    if s.len() == 0 {
        s
    } else if pat.len() > 0 && matches_at(s, pat, 0) {
        rep + substitute(s.skip(pat.len() as int), pat, rep)
    } else {
        s.take(1) + substitute(s.skip(1), pat, rep)
    }
}

/// The reserved escape token standing for a literal `{`.
pub open spec fn lbrkt_token() -> Seq<char> {
    seq!['&', 'l', 'b', 'r', 'k', 't', ';']
}

/// The reserved escape token standing for a literal `}`.
pub open spec fn rbrkt_token() -> Seq<char> {
    seq!['&', 'r', 'b', 'r', 'k', 't', ';']
}

/// What `replace_bracket_escapes` returns: two separate global
/// substitutions, the left-brace token first, then the right-brace token.
pub open spec fn spec_replace_escapes(s: Seq<char>) -> Seq<char> {
    substitute(substitute(s, lbrkt_token(), seq!['{']), rbrkt_token(), seq!['}'])
}

/// Substitution of two patterns fused into one scan, trying `a_pat` first
/// at each position. For patterns that can never overlap, this is what
/// either order of the two global substitutions produces.
spec fn subst_pair(
    s: Seq<char>,
    a_pat: Seq<char>,
    a_rep: char,
    b_pat: Seq<char>,
    b_rep: char,
) -> Seq<char>
    recommends
        a_pat.len() > 0,
        b_pat.len() > 0,
    decreases s.len(),
{
    if s.len() == 0 {
        s
    } else if a_pat.len() > 0 && matches_at(s, a_pat, 0) {
        seq![a_rep] + subst_pair(s.skip(a_pat.len() as int), a_pat, a_rep, b_pat, b_rep)
    } else if b_pat.len() > 0 && matches_at(s, b_pat, 0) {
        seq![b_rep] + subst_pair(s.skip(b_pat.len() as int), a_pat, a_rep, b_pat, b_rep)
    } else {
        s.take(1) + subst_pair(s.skip(1), a_pat, a_rep, b_pat, b_rep)
    }
}

/// The shape shared by the two escape tokens that keeps their occurrences
/// from ever overlapping or arising anew: equal length, a leading `&` that
/// appears nowhere else in either token, replacement characters that are
/// not `&` and appear in neither token, and distinct tokens.
spec fn token_pair_ok(a_pat: Seq<char>, a_rep: char, b_pat: Seq<char>, b_rep: char) -> bool {
    &&& a_pat.len() == b_pat.len()
    &&& a_pat.len() > 0
    &&& a_pat[0] == '&'
    &&& b_pat[0] == '&'
    &&& (forall|k: int| 1 <= k < a_pat.len() ==> a_pat[k] != '&')
    &&& (forall|k: int| 1 <= k < b_pat.len() ==> b_pat[k] != '&')
    &&& a_rep != '&'
    &&& b_rep != '&'
    &&& (forall|k: int| 0 <= k < b_pat.len() ==> b_pat[k] != a_rep)
    &&& (forall|k: int| 0 <= k < a_pat.len() ==> a_pat[k] != b_rep)
    &&& a_pat != b_pat
}

/// Occurrences shift with `skip`: `pat` occurs in `s.skip(d)` at `p`
/// exactly when it occurs in `s` at `d + p`.
proof fn lemma_matches_at_shift(s: Seq<char>, pat: Seq<char>, d: int, p: int)
    requires
        0 <= d <= s.len(),
        0 <= p,
    ensures
        matches_at(s.skip(d), pat, p) == matches_at(s, pat, d + p),
{
    if p + pat.len() <= s.len() - d {
        assert(s.skip(d).subrange(p, p + pat.len()) =~= s.subrange(d + p, d + p + pat.len()));
    }
}

/// Where the pattern matches nowhere before `q`, substitution copies the
/// first `q` characters unchanged.
proof fn lemma_substitute_copies(s: Seq<char>, pat: Seq<char>, rep: char, q: int)
    requires
        pat.len() > 0,
        0 <= q <= s.len(),
        forall|p: int| 0 <= p < q ==> !matches_at(s, pat, p),
    ensures
        substitute(s, pat, seq![rep]) == s.take(q) + substitute(s.skip(q), pat, seq![rep]),
    decreases q,
{
    if q == 0 {
        assert(s.skip(0) =~= s);
        assert(s.take(0) + substitute(s, pat, seq![rep]) =~= substitute(s, pat, seq![rep]));
    } else {
        assert(!matches_at(s, pat, 0));
        assert(substitute(s, pat, seq![rep]) == s.take(1) + substitute(s.skip(1), pat, seq![rep]));
        assert forall|p: int| 0 <= p < q - 1 implies !matches_at(s.skip(1), pat, p) by {
            lemma_matches_at_shift(s, pat, 1, p);
        }
        lemma_substitute_copies(s.skip(1), pat, rep, q - 1);
        assert(s.skip(1).take(q - 1) =~= s.subrange(1, q));
        assert(s.skip(1).skip(q - 1) =~= s.skip(q));
        assert(s.take(1) + (s.subrange(1, q) + substitute(s.skip(q), pat, seq![rep])) =~= s.take(
            q,
        ) + substitute(s.skip(q), pat, seq![rep]));
    }
}

/// The first position at or after `k` where `pat` occurs in `s`, or `-1`.
spec fn first_match_from(s: Seq<char>, pat: Seq<char>, k: int) -> int
    recommends
        0 <= k,
        pat.len() > 0,
    decreases s.len() - k,
{
    if k < 0 || pat.len() <= 0 || k + pat.len() > s.len() {
        -1
    } else if matches_at(s, pat, k) {
        k
    } else {
        first_match_from(s, pat, k + 1)
    }
}

/// What `first_match_from` finds: `-1` means no occurrence at or after `k`,
/// and a position means the first occurrence.
proof fn lemma_first_match_from_props(s: Seq<char>, pat: Seq<char>, k: int)
    requires
        0 <= k,
        pat.len() > 0,
    ensures
        first_match_from(s, pat, k) == -1 || first_match_from(s, pat, k) >= k,
        first_match_from(s, pat, k) == -1 ==> (forall|p: int| p >= k ==> !matches_at(s, pat, p)),
        first_match_from(s, pat, k) >= 0 ==> k <= first_match_from(s, pat, k) && matches_at(
            s,
            pat,
            first_match_from(s, pat, k),
        ) && (forall|p: int| k <= p < first_match_from(s, pat, k) ==> !matches_at(s, pat, p)),
    decreases s.len() - k,
{
    if k + pat.len() > s.len() {
    } else if matches_at(s, pat, k) {
    } else {
        lemma_first_match_from_props(s, pat, k + 1);
    }
}

/// Substituting `a_pat` cannot create an occurrence of `b_pat` at the front
/// of a text that had neither token there.
proof fn lemma_no_new_b_at_zero(
    s: Seq<char>,
    a_pat: Seq<char>,
    a_rep: char,
    b_pat: Seq<char>,
    b_rep: char,
)
    requires
        token_pair_ok(a_pat, a_rep, b_pat, b_rep),
        !matches_at(s, a_pat, 0),
        !matches_at(s, b_pat, 0),
    ensures
        !matches_at(substitute(s, a_pat, seq![a_rep]), b_pat, 0),
{
    let t = substitute(s, a_pat, seq![a_rep]);
    let la = a_pat.len() as int;
    let lb = b_pat.len() as int;
    if matches_at(t, b_pat, 0) {
        let q = first_match_from(s, a_pat, 0);
        lemma_first_match_from_props(s, a_pat, 0);
        if q == -1 || q >= lb {
            if s.len() < lb {
                lemma_substitute_copies(s, a_pat, a_rep, s.len() as int);
                assert(s.skip(s.len() as int) =~= Seq::<char>::empty());
                assert(s.take(s.len() as int) =~= s);
                assert(t =~= s);
                assert(false);
            } else {
                assert(forall|p: int| 0 <= p < lb ==> !matches_at(s, a_pat, p));
                lemma_substitute_copies(s, a_pat, a_rep, lb);
                assert(t.subrange(0, lb) =~= s.subrange(0, lb));
                assert(matches_at(s, b_pat, 0));
                assert(false);
            }
        } else {
            assert(1 <= q < lb);
            lemma_substitute_copies(s, a_pat, a_rep, q);
            lemma_matches_at_shift(s, a_pat, q, 0);
            assert(matches_at(s.skip(q), a_pat, 0));
            assert(s.skip(q).len() > 0);
            assert(substitute(s.skip(q), a_pat, seq![a_rep]) == seq![a_rep] + substitute(
                s.skip(q).skip(la),
                a_pat,
                seq![a_rep],
            ));
            assert(t == s.take(q) + (seq![a_rep] + substitute(
                s.skip(q).skip(la),
                a_pat,
                seq![a_rep],
            )));
            assert(t[q] == a_rep);
            assert(b_pat[q] == t.subrange(0, lb)[q]);
            assert(false);
        }
    }
}

/// Running the `a_pat` substitution and then the `b_pat` substitution over
/// its result is the fused single scan.
proof fn lemma_chain(s: Seq<char>, a_pat: Seq<char>, a_rep: char, b_pat: Seq<char>, b_rep: char)
    requires
        token_pair_ok(a_pat, a_rep, b_pat, b_rep),
    ensures
        substitute(substitute(s, a_pat, seq![a_rep]), b_pat, seq![b_rep]) == subst_pair(
            s,
            a_pat,
            a_rep,
            b_pat,
            b_rep,
        ),
    decreases s.len(),
{
    let la = a_pat.len() as int;
    let lb = b_pat.len() as int;
    let t = substitute(s, a_pat, seq![a_rep]);
    if s.len() == 0 {
    } else if matches_at(s, a_pat, 0) {
        let t1 = substitute(s.skip(la), a_pat, seq![a_rep]);
        assert(t == seq![a_rep] + t1);
        assert(t[0] == a_rep);
        if matches_at(t, b_pat, 0) {
            assert(b_pat[0] == t.subrange(0, lb)[0]);
            assert(false);
        }
        assert(t.len() > 0);
        assert(substitute(t, b_pat, seq![b_rep]) == t.take(1) + substitute(
            t.skip(1),
            b_pat,
            seq![b_rep],
        ));
        assert(t.take(1) =~= seq![a_rep]);
        assert(t.skip(1) =~= t1);
        lemma_chain(s.skip(la), a_pat, a_rep, b_pat, b_rep);
    } else if matches_at(s, b_pat, 0) {
        assert forall|p: int| 0 <= p < lb implies !matches_at(s, a_pat, p) by {
            if 0 < p && matches_at(s, a_pat, p) {
                assert(s[p] == s.subrange(0, lb)[p]);
                assert(s[p] == s.subrange(p, p + la)[0]);
            }
        }
        lemma_substitute_copies(s, a_pat, a_rep, lb);
        let t2 = substitute(s.skip(lb), a_pat, seq![a_rep]);
        assert(t == s.take(lb) + t2);
        assert(matches_at(t, b_pat, 0)) by {
            assert(t.subrange(0, lb) =~= s.subrange(0, lb));
        }
        assert(t.len() > 0);
        assert(substitute(t, b_pat, seq![b_rep]) == seq![b_rep] + substitute(
            t.skip(lb),
            b_pat,
            seq![b_rep],
        ));
        assert(t.skip(lb) =~= t2);
        lemma_chain(s.skip(lb), a_pat, a_rep, b_pat, b_rep);
    } else {
        lemma_no_new_b_at_zero(s, a_pat, a_rep, b_pat, b_rep);
        let t3 = substitute(s.skip(1), a_pat, seq![a_rep]);
        assert(t == s.take(1) + t3);
        assert(t.len() > 0);
        assert(substitute(t, b_pat, seq![b_rep]) == t.take(1) + substitute(
            t.skip(1),
            b_pat,
            seq![b_rep],
        ));
        assert(t.take(1) =~= s.take(1));
        assert(t.skip(1) =~= t3);
        lemma_chain(s.skip(1), a_pat, a_rep, b_pat, b_rep);
    }
}

/// The fused scan does not depend on which of the two patterns is tried
/// first: they can never match at the same position.
proof fn lemma_pair_comm(s: Seq<char>, a_pat: Seq<char>, a_rep: char, b_pat: Seq<char>, b_rep: char)
    requires
        token_pair_ok(a_pat, a_rep, b_pat, b_rep),
    ensures
        subst_pair(s, a_pat, a_rep, b_pat, b_rep) == subst_pair(s, b_pat, b_rep, a_pat, a_rep),
    decreases s.len(),
{
    let la = a_pat.len() as int;
    let lb = b_pat.len() as int;
    if s.len() == 0 {
    } else if matches_at(s, a_pat, 0) {
        if matches_at(s, b_pat, 0) {
            assert(a_pat =~= b_pat);
            assert(false);
        }
        lemma_pair_comm(s.skip(la), a_pat, a_rep, b_pat, b_rep);
    } else if matches_at(s, b_pat, 0) {
        lemma_pair_comm(s.skip(lb), a_pat, a_rep, b_pat, b_rep);
    } else {
        lemma_pair_comm(s.skip(1), a_pat, a_rep, b_pat, b_rep);
    }
}

/// Escape substitution is order-independent between the two distinct
/// tokens: replacing every `&lbrkt;` by `{` and then every `&rbrkt;` by `}`
/// gives the same text as the same two global substitutions applied in the
/// opposite order.
pub proof fn lemma_escape_order_independent(s: Seq<char>)
    ensures
        spec_replace_escapes(s) == substitute(
            substitute(s, rbrkt_token(), seq!['}']),
            lbrkt_token(),
            seq!['{'],
        ),
{
    assert(token_pair_ok(lbrkt_token(), '{', rbrkt_token(), '}')) by {
        assert(lbrkt_token()[0] == '&');
        assert(rbrkt_token()[0] == '&');
        assert forall|k: int| 1 <= k < lbrkt_token().len() implies lbrkt_token()[k] != '&' by {
            if k == 1 {
            } else if k == 2 {
            } else if k == 3 {
            } else if k == 4 {
            } else if k == 5 {
            } else {
                assert(k == 6);
            }
        }
        assert forall|k: int| 1 <= k < rbrkt_token().len() implies rbrkt_token()[k] != '&' by {
            if k == 1 {
            } else if k == 2 {
            } else if k == 3 {
            } else if k == 4 {
            } else if k == 5 {
            } else {
                assert(k == 6);
            }
        }
        assert forall|k: int| 0 <= k < rbrkt_token().len() implies rbrkt_token()[k] != '{' by {
            if k == 0 {
            } else if k == 1 {
            } else if k == 2 {
            } else if k == 3 {
            } else if k == 4 {
            } else if k == 5 {
            } else {
                assert(k == 6);
            }
        }
        assert forall|k: int| 0 <= k < lbrkt_token().len() implies lbrkt_token()[k] != '}' by {
            if k == 0 {
            } else if k == 1 {
            } else if k == 2 {
            } else if k == 3 {
            } else if k == 4 {
            } else if k == 5 {
            } else {
                assert(k == 6);
            }
        }
        assert(lbrkt_token()[1] != rbrkt_token()[1]);
        assert(lbrkt_token() != rbrkt_token());
    }
    assert(token_pair_ok(rbrkt_token(), '}', lbrkt_token(), '{'));
    lemma_chain(s, lbrkt_token(), '{', rbrkt_token(), '}');
    lemma_pair_comm(s, lbrkt_token(), '{', rbrkt_token(), '}');
    lemma_chain(s, rbrkt_token(), '}', lbrkt_token(), '{');
}

/// A text in which neither escape token occurs is left unchanged by the
/// escape codec.
pub proof fn lemma_replace_escapes_noop(s: Seq<char>)
    requires
        forall|p: int| !matches_at(s, lbrkt_token(), p),
        forall|p: int| !matches_at(s, rbrkt_token(), p),
    ensures
        spec_replace_escapes(s) == s,
{
    lemma_substitute_copies(s, lbrkt_token(), '{', s.len() as int);
    assert(s.take(s.len() as int) =~= s);
    assert(s.skip(s.len() as int) =~= Seq::<char>::empty());
    assert(substitute(Seq::<char>::empty(), lbrkt_token(), seq!['{'])
        =~= Seq::<char>::empty());
    assert(substitute(s, lbrkt_token(), seq!['{']) =~= s);
    lemma_substitute_copies(s, rbrkt_token(), '}', s.len() as int);
    assert(substitute(Seq::<char>::empty(), rbrkt_token(), seq!['}'])
        =~= Seq::<char>::empty());
    assert(substitute(s, rbrkt_token(), seq!['}']) =~= s);
}

/// Whether `pat` occurs in `src` at index `i`, decided by comparison.
fn pat_matches_at(src: &Vec<char>, pat: &Vec<char>, i: usize) -> (b: bool)
    requires
        i <= src@.len(),
    ensures
        b == matches_at(src@, pat@, i as int),
{
    if src.len() - i < pat.len() {
        return false;
    }
    let mut j: usize = 0;
    while j < pat.len()
        invariant
            i + pat@.len() <= src@.len() <= usize::MAX,
            j <= pat@.len(),
            forall|m: int| 0 <= m < j ==> src@[i + m] == pat@[m],
        decreases pat@.len() - j,
    {
        if src[i + j] != pat[j] {
            proof {
                assert(src@.subrange(i as int, i + pat@.len())[j as int] == src@[i + j]);
            }
            return false;
        }
        j += 1;
    }
    proof {
        assert(src@.subrange(i as int, i + pat@.len()) =~= pat@);
    }
    true
}

/// Replaces every occurrence of `pat` in `src` by the single character
/// `rep`, scanning left to right.
fn substitute_chars(src: &Vec<char>, pat: &Vec<char>, rep: char) -> (r: Vec<char>)
    requires
        pat@.len() > 0,
    ensures
        r@ == substitute(src@, pat@, seq![rep]),
{
    let n = src.len();
    let mut out: Vec<char> = Vec::new();
    let mut i: usize = 0;
    proof {
        assert(src@.skip(0) =~= src@);
        assert(Seq::<char>::empty() + substitute(src@, pat@, seq![rep]) =~= substitute(
            src@,
            pat@,
            seq![rep],
        ));
    }
    while i < n
        invariant
            i <= n == src@.len(),
            pat@.len() > 0,
            substitute(src@, pat@, seq![rep]) == out@ + substitute(
                src@.skip(i as int),
                pat@,
                seq![rep],
            ),
        decreases n - i,
    {
        let ghost pre_out = out@;
        let ghost suffix = src@.skip(i as int);
        if pat_matches_at(src, pat, i) {
            out.push(rep);
            proof {
                assert(suffix.subrange(0, pat@.len() as int) =~= src@.subrange(
                    i as int,
                    i + pat@.len(),
                ));
                assert(matches_at(suffix, pat@, 0));
                assert(suffix.skip(pat@.len() as int) =~= src@.skip(i + pat@.len()));
                assert(substitute(suffix, pat@, seq![rep]) == seq![rep] + substitute(
                    src@.skip(i + pat@.len()),
                    pat@,
                    seq![rep],
                ));
                assert(pre_out + substitute(suffix, pat@, seq![rep]) =~= out@ + substitute(
                    src@.skip(i + pat@.len()),
                    pat@,
                    seq![rep],
                ));
            }
            i += pat.len();
        } else {
            out.push(src[i]);
            proof {
                assert(suffix.len() > 0);
                if matches_at(suffix, pat@, 0) {
                    assert(suffix.subrange(0, pat@.len() as int) =~= src@.subrange(
                        i as int,
                        i + pat@.len(),
                    ));
                    assert(matches_at(src@, pat@, i as int));
                    assert(false);
                }
                assert(suffix.take(1) =~= seq![src@[i as int]]);
                assert(suffix.skip(1) =~= src@.skip(i + 1));
                assert(substitute(suffix, pat@, seq![rep]) == seq![src@[i as int]] + substitute(
                    src@.skip(i + 1),
                    pat@,
                    seq![rep],
                ));
                assert(pre_out + substitute(suffix, pat@, seq![rep]) =~= out@ + substitute(
                    src@.skip(i + 1),
                    pat@,
                    seq![rep],
                ));
            }
            i += 1;
        }
    }
    proof {
        assert(src@.skip(n as int) =~= Seq::<char>::empty());
        assert(substitute(Seq::<char>::empty(), pat@, seq![rep]) =~= Seq::<char>::empty());
        assert(out@ + Seq::<char>::empty() =~= out@);
    }
    out
}

/// The left-brace escape token as a character buffer.
fn lbrkt_chars() -> (r: Vec<char>)
    ensures
        r@ == lbrkt_token(),
{
    let mut v: Vec<char> = Vec::new();
    v.push('&');
    v.push('l');
    v.push('b');
    v.push('r');
    v.push('k');
    v.push('t');
    v.push(';');
    proof {
        assert(v@ =~= lbrkt_token());
    }
    v
}

/// The right-brace escape token as a character buffer.
fn rbrkt_chars() -> (r: Vec<char>)
    ensures
        r@ == rbrkt_token(),
{
    let mut v: Vec<char> = Vec::new();
    v.push('&');
    v.push('r');
    v.push('b');
    v.push('r');
    v.push('k');
    v.push('t');
    v.push(';');
    proof {
        assert(v@ =~= rbrkt_token());
    }
    v
}

/// Replaces the escape tokens `&lbrkt;` and `&rbrkt;` by the characters `{`
/// and `}` respectively, each as one global substitution.
pub fn replace_bracket_escapes(source: String) -> (r: String)
    ensures
        r@ == spec_replace_escapes(source@),
{
    let chars = chars_of(source.as_str());
    let lpat = lbrkt_chars();
    let rpat = rbrkt_chars();
    let pass1 = substitute_chars(&chars, &lpat, '{');
    let pass2 = substitute_chars(&pass1, &rpat, '}');
    string_of(&pass2)
}

} // verus!
