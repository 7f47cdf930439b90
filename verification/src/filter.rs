//! Constraint filter.
//!
//! Given the current candidates, a guess and a reported feedback pattern,
//! the filter keeps exactly the candidates that — had they been the true
//! answer — would have produced that pattern under the codec of
//! [`crate::codec`]. Scorer and filter therefore can never disagree about
//! what a pattern means.
use vstd::prelude::*;
use crate::codec::MAX_WORD_LEN;
use crate::codec::code_of_marks;
use crate::codec::encode;
use crate::codec::encode_spec;
use crate::codec::marks_to_code;
use crate::codec::valid_marks;

verus! {

broadcast use vstd::seq_lib::group_seq_lib_default;

/// Why a filtering request was refused.
#[derive(Clone, Copy, Debug, PartialEq, Eq, Structural)]
pub enum FilterError {
    /// The pattern has the wrong arity or contains a mark outside {0, 1, 2}.
    InvalidPattern,
}

/// Is `pattern` a well-formed feedback pattern for a guess of length `len`?
pub open spec fn pattern_ok(pattern: Seq<u8>, len: nat) -> bool {
    pattern.len() == len && valid_marks(pattern)
}

/// Would candidate `w`, as the true answer, have produced code `code` for `g`?
pub open spec fn keeps(g: Seq<u8>, code: nat, w: Seq<u8>) -> bool {
    w.len() == g.len() && encode_spec(g, w) == code
}

/// The candidates consistent with feedback `code` on guess `g`.
pub open spec fn filter_spec(cands: Seq<Seq<u8>>, g: Seq<u8>, code: nat) -> Seq<Seq<u8>> {
    cands.filter(|w: Seq<u8>| keeps(g, code, w))
}

/// Every element of the filtered candidate list occurs in the original one.
proof fn lemma_filter_elem_in(cands: Seq<Seq<u8>>, g: Seq<u8>, code: nat, i: int)
    requires
        0 <= i < filter_spec(cands, g, code).len(),
    ensures
        cands.contains(filter_spec(cands, g, code)[i]),
    decreases cands.len(),
{
    let pred = |w: Seq<u8>| keeps(g, code, w);
    if cands.len() == 0 {
        assert(filter_spec(cands, g, code) =~= Seq::<Seq<u8>>::empty()) by {
            reveal_with_fuel(Seq::<Seq<u8>>::filter, 2);
        }
    } else {
        let prefix = cands.drop_last();
        let x = cands.last();
        lemma_filter_push(prefix, g, code, x);
        assert(prefix.push(x) =~= cands);
        let filtered = filter_spec(cands, g, code);
        let w = filtered[i];
        if pred(x) && i == filter_spec(prefix, g, code).len() {
            assert(w == x);
            assert(cands[cands.len() - 1] == x);
        } else {
            assert(filter_spec(prefix, g, code)[i] == w);
            lemma_filter_elem_in(prefix, g, code, i);
            let j = choose|j: int| 0 <= j < prefix.len() && prefix[j] == w;
            assert(cands[j] == w);
        }
    }
}

/// Monotonic-shrink law: filtering never grows the candidate set, and every
/// survivor already belonged to it.
pub proof fn lemma_filter_subset(cands: Seq<Seq<u8>>, g: Seq<u8>, code: nat)
    ensures
        filter_spec(cands, g, code).len() <= cands.len(),
        forall|w: Seq<u8>| filter_spec(cands, g, code).contains(w) ==> cands.contains(w),
{
    let pred = |w: Seq<u8>| keeps(g, code, w);
    assert forall|w: Seq<u8>| filter_spec(cands, g, code).contains(w) implies cands.contains(
        w,
    ) by {
        let i = choose|i: int|
            0 <= i < filter_spec(cands, g, code).len() && filter_spec(cands, g, code)[i] == w;
        lemma_filter_elem_in(cands, g, code, i);
    }
}

/// Filter/codec-consistency law: an answer drawn from the candidate set
/// always survives filtering by its own true feedback.
pub proof fn lemma_answer_survives(cands: Seq<Seq<u8>>, g: Seq<u8>, answer: Seq<u8>)
    requires
        cands.contains(answer),
        answer.len() == g.len(),
    ensures
        filter_spec(cands, g, encode_spec(g, answer)).contains(answer),
{
    let code = encode_spec(g, answer);
    let pred = |w: Seq<u8>| keeps(g, code, w);
    let i = choose|i: int| 0 <= i < cands.len() && cands[i] == answer;
    assert(pred(cands[i]));
    assert(cands.filter(pred).contains(cands[i]));
}

/// Extending the candidate list by one word extends its filtered form by
/// that word exactly when the word is consistent with the feedback.
proof fn lemma_filter_push(cands: Seq<Seq<u8>>, g: Seq<u8>, code: nat, x: Seq<u8>)
    ensures
        keeps(g, code, x) ==> filter_spec(cands.push(x), g, code)
            == filter_spec(cands, g, code).push(x),
        !keeps(g, code, x) ==> filter_spec(cands.push(x), g, code) == filter_spec(cands, g, code),
{
    let pred = |w: Seq<u8>| keeps(g, code, w);
    let single = seq![x];
    assert(cands.push(x) =~= cands + single);
    assert(single.filter(pred) =~= if pred(x) {
        seq![x]
    } else {
        Seq::<Seq<u8>>::empty()
    }) by {
        reveal_with_fuel(Seq::<Seq<u8>>::filter, 3);
        assert(single.drop_last() =~= Seq::<Seq<u8>>::empty());
    }
    if pred(x) {
        assert(filter_spec(cands.push(x), g, code) =~= filter_spec(cands, g, code).push(x));
    } else {
        assert(filter_spec(cands.push(x), g, code) =~= filter_spec(cands, g, code));
    }
}

/// Checks a reported pattern and keeps exactly the candidates consistent
/// with it. The candidate set is returned unchanged in spirit on error: an
/// ill-formed pattern refuses to filter at all.
pub fn filter_candidates(cands: &Vec<Vec<u8>>, guess: &Vec<u8>, pattern: &Vec<u8>) -> (r: Result<
    Vec<Vec<u8>>,
    FilterError,
>)
    requires
        guess@.len() <= MAX_WORD_LEN,
        forall|i: int| 0 <= i < cands@.len() ==> (#[trigger] cands@[i])@.len() == guess@.len(),
    ensures
        match r {
            Ok(kept) => pattern_ok(pattern@, guess@.len()) && kept.deep_view() == filter_spec(
                cands.deep_view(),
                guess@,
                code_of_marks(pattern@),
            ),
            Err(e) => e == FilterError::InvalidPattern && !pattern_ok(pattern@, guess@.len()),
        },
{
    if pattern.len() != guess.len() {
        return Err(FilterError::InvalidPattern);
    }
    let mut k: usize = 0;
    while k < pattern.len()
        invariant
            k <= pattern@.len(),
            forall|i: int| 0 <= i < k ==> pattern@[i] < 3,
        decreases pattern@.len() - k,
    {
        if pattern[k] >= 3 {
            return Err(FilterError::InvalidPattern);
        }
        k = k + 1;
    }
    assert(valid_marks(pattern@));
    let code = marks_to_code(pattern);
    let ghost codes = code as nat;
    let n = cands.len();
    let mut kept: Vec<Vec<u8>> = Vec::new();
    let mut i: usize = 0;
    while i < n
        invariant
            i <= n,
            n == cands@.len(),
            guess@.len() <= MAX_WORD_LEN,
            codes == code as nat,
            codes == code_of_marks(pattern@),
            pattern_ok(pattern@, guess@.len()),
            forall|j: int| 0 <= j < cands@.len() ==> (#[trigger] cands@[j])@.len() == guess@.len(),
            kept.deep_view() == filter_spec(cands.deep_view().take(i as int), guess@, codes),
        decreases n - i,
    {
        let ghost pre = cands.deep_view().take(i as int);
        let ghost x = cands.deep_view()[i as int];
        let w = &cands[i];
        proof {
            assert(cands@[i as int]@.len() == guess@.len());
            assert(x =~= w@);
            assert(cands.deep_view().take(i + 1) =~= pre.push(x));
            lemma_filter_push(pre, guess@, codes, x);
        }
        let c = encode(guess, w);
        if c == code {
            proof {
                assert(keeps(guess@, codes, x));
            }
            let cl = w.clone();
            proof {
                assert(cl@ =~= w@);
            }
            let ghost keptpre = kept.deep_view();
            kept.push(cl);
            proof {
                assert(kept.deep_view() =~= keptpre.push(x));
                assert(kept.deep_view() == filter_spec(cands.deep_view().take(i + 1), guess@,
                codes));
            }
        } else {
            proof {
                assert(!keeps(guess@, codes, x));
                assert(kept.deep_view() == filter_spec(cands.deep_view().take(i + 1), guess@,
                codes));
            }
        }
        i = i + 1;
    }
    proof {
        assert(cands.deep_view().take(n as int) =~= cands.deep_view());
    }
    Ok(kept)
}

} // verus!
