//! Session orchestration decisions.
//!
//! A session owns the candidate set: it is created once from the raw
//! vocabulary, shrinks after every round of feedback, and the round state is
//! read off its size. The interactive loop around these decisions lives
//! outside the library; everything that decides lives here.
use vstd::prelude::*;
use crate::codec::MAX_WORD_LEN;
use crate::codec::code_of_marks;
use crate::filter::FilterError;
use crate::filter::filter_candidates;
use crate::filter::filter_spec;
use crate::filter::pattern_ok;

verus! {

broadcast use vstd::seq_lib::group_seq_lib_default;

/// Is `w` an ASCII word of exactly the session's length?
pub open spec fn admissible_word(w: Seq<u8>, sz: nat) -> bool {
    w.len() == sz && (forall|i: int| 0 <= i < w.len() ==> w[i] < 128)
}

/// The vocabulary restricted to admissible words of length `sz`.
pub open spec fn vocab_spec(lines: Seq<Seq<u8>>, sz: nat) -> Seq<Seq<u8>> {
    lines.filter(|w: Seq<u8>| admissible_word(w, sz))
}

/// Extending the raw vocabulary by one line extends its admissible part by
/// that line exactly when the line is admissible.
proof fn lemma_vocab_push(lines: Seq<Seq<u8>>, sz: nat, x: Seq<u8>)
    ensures
        admissible_word(x, sz) ==> vocab_spec(lines.push(x), sz) == vocab_spec(lines, sz).push(x),
        !admissible_word(x, sz) ==> vocab_spec(lines.push(x), sz) == vocab_spec(lines, sz),
{
    let pred = |w: Seq<u8>| admissible_word(w, sz);
    let single = seq![x];
    assert(lines.push(x) =~= lines + single);
    assert(single.filter(pred) =~= if pred(x) {
        seq![x]
    } else {
        Seq::<Seq<u8>>::empty()
    }) by {
        reveal_with_fuel(Seq::<Seq<u8>>::filter, 3);
        assert(single.drop_last() =~= Seq::<Seq<u8>>::empty());
    }
    if pred(x) {
        assert(vocab_spec(lines.push(x), sz) =~= vocab_spec(lines, sz).push(x));
    } else {
        assert(vocab_spec(lines.push(x), sz) =~= vocab_spec(lines, sz));
    }
}

/// Checks one raw line for admissibility at run time.
fn word_admissible(w: &Vec<u8>, sz: usize) -> (r: bool)
    ensures
        r == admissible_word(w@, sz as nat),
{
    if w.len() != sz {
        return false;
    }
    let mut i: usize = 0;
    while i < sz
        invariant
            i <= sz,
            w@.len() == sz,
            forall|j: int| 0 <= j < i ==> w@[j] < 128,
        decreases sz - i,
    {
        if w[i] >= 128 {
            return false;
        }
        i = i + 1;
    }
    true
}

/// Builds the initial candidate set: the admissible words of length `sz`,
/// kept in vocabulary order.
pub fn select_words(lines: &Vec<Vec<u8>>, sz: usize) -> (r: Vec<Vec<u8>>)
    ensures
        r.deep_view() == vocab_spec(lines.deep_view(), sz as nat),
        forall|i: int| 0 <= i < r@.len() ==> (#[trigger] r@[i])@.len() == sz,
{
    let n = lines.len();
    let mut picked: Vec<Vec<u8>> = Vec::new();
    let mut i: usize = 0;
    proof {
        assert(lines.deep_view().take(0) =~= Seq::<Seq<u8>>::empty());
        assert(picked.deep_view() =~= vocab_spec(lines.deep_view().take(0), sz as nat)) by {
            reveal_with_fuel(Seq::<Seq<u8>>::filter, 2);
        }
    }
    while i < n
        invariant
            i <= n,
            n == lines@.len(),
            picked.deep_view() == vocab_spec(lines.deep_view().take(i as int), sz as nat),
        decreases n - i,
    {
        let ghost pre = lines.deep_view().take(i as int);
        let ghost x = lines.deep_view()[i as int];
        let w = &lines[i];
        proof {
            assert(x =~= w@);
            assert(lines.deep_view().take(i + 1) =~= pre.push(x));
            lemma_vocab_push(pre, sz as nat, x);
        }
        if word_admissible(w, sz) {
            let cl = w.clone();
            proof {
                assert(cl@ =~= w@);
            }
            let ghost ppre = picked.deep_view();
            picked.push(cl);
            proof {
                assert(picked.deep_view() =~= ppre.push(x));
            }
        }
        i = i + 1;
    }
    proof {
        assert(lines.deep_view().take(n as int) =~= lines.deep_view());
        let filtered = vocab_spec(lines.deep_view(), sz as nat);
        assert forall|j: int| 0 <= j < picked@.len() implies (#[trigger] picked@[j])@.len()
            == sz by {
            let pred = |w: Seq<u8>| admissible_word(w, sz as nat);
            assert(picked.deep_view()[j] == picked@[j]@);
            assert(pred(filtered[j]));
        }
    }
    picked
}

/// The whitespace bytes accepted between pattern digits.
pub open spec fn is_space(b: u8) -> bool {
    b == 32 || b == 9 || b == 10 || b == 13
}

/// Is the raw feedback line a row of isolated decimal digits?
pub open spec fn line_ok(s: Seq<u8>) -> bool {
    forall|i: int|
        0 <= i < s.len() ==> (is_space(#[trigger] s[i]) || (48 <= s[i] <= 57 && (i + 1 < s.len()
            ==> is_space(s[i + 1]))))
}

/// The digit values of a feedback line, in order, spaces dropped.
pub open spec fn line_marks(s: Seq<u8>) -> Seq<u8>
    decreases s.len(),
{
    if s.len() == 0 {
        Seq::empty()
    } else {
        let rest = line_marks(s.drop_last());
        if is_space(s.last()) {
            rest
        } else {
            rest.push((s.last() - 48) as u8)
        }
    }
}

/// Parses a feedback line of whitespace-separated digits into per-position
/// marks. A line holding anything but isolated digits yields nothing; a
/// digit outside {0, 1, 2} is left for the filter to refuse as an invalid
/// pattern.
pub fn parse_pattern(line: &Vec<u8>) -> (r: Option<Vec<u8>>)
    ensures
        match r {
            Some(marks) => line_ok(line@) && marks@ == line_marks(line@),
            None => !line_ok(line@),
        },
{
    let n = line.len();
    let mut marks: Vec<u8> = Vec::new();
    let mut i: usize = 0;
    proof {
        assert(line@.take(0) =~= Seq::<u8>::empty());
    }
    while i < n
        invariant
            i <= n,
            n == line@.len(),
            marks@ == line_marks(line@.take(i as int)),
            forall|j: int|
                0 <= j < i ==> (is_space(#[trigger] line@[j]) || (48 <= line@[j] <= 57 && (j + 1
                    < line@.len() ==> is_space(line@[j + 1])))),
        decreases n - i,
    {
        proof {
            assert(line@.take(i + 1).drop_last() =~= line@.take(i as int));
            assert(line@.take(i + 1).last() == line@[i as int]);
        }
        let b = line[i];
        if b == 32 || b == 9 || b == 10 || b == 13 {
            i = i + 1;
            continue ;
        }
        if b < 48 || b > 57 {
            proof {
                assert(!line_ok(line@)) by {
                    assert(!is_space(line@[i as int]));
                }
            }
            return None;
        }
        if i + 1 < n {
            let nb = line[i + 1];
            if !(nb == 32 || nb == 9 || nb == 10 || nb == 13) {
                proof {
                    assert(!line_ok(line@)) by {
                        assert(!is_space(line@[i as int]));
                        assert(!is_space(line@[i + 1]));
                    }
                }
                return None;
            }
        }
        marks.push(b - 48);
        i = i + 1;
    }
    proof {
        assert(line@.take(n as int) =~= line@);
    }
    Some(marks)
}

/// How a session stands after a round.
#[derive(Clone, Copy, Debug, PartialEq, Eq, Structural)]
pub enum RoundState {
    /// No candidate is consistent with the accumulated feedback.
    Failed,
    /// Exactly one candidate remains: the answer is identified.
    Solved,
    /// More than one candidate remains: another round is needed.
    InProgress,
}

/// Reads the terminal condition off the candidate set's size.
pub fn round_state(cands: &Vec<Vec<u8>>) -> (r: RoundState)
    ensures
        r == RoundState::Failed <==> cands@.len() == 0,
        r == RoundState::Solved <==> cands@.len() == 1,
        r == RoundState::InProgress <==> cands@.len() >= 2,
{
    if cands.len() == 0 {
        RoundState::Failed
    } else if cands.len() == 1 {
        RoundState::Solved
    } else {
        RoundState::InProgress
    }
}

/// The round controller's decision after one piece of feedback.
pub enum FeedbackOutcome {
    /// The candidate set shrank to the consistent candidates.
    Narrowed(Vec<Vec<u8>>),
    /// No candidate matches the reported feedback; the set is kept as it
    /// was, and the session is over unless the feedback was mis-entered.
    NoMatch,
    /// The pattern was ill-formed; the set is kept and the caller should
    /// ask again.
    BadPattern,
}

/// Applies one round of feedback: validates the pattern, filters, and
/// classifies the result so the loop around it only has to branch.
pub fn apply_feedback(cands: &Vec<Vec<u8>>, guess: &Vec<u8>, pattern: &Vec<u8>) -> (r:
    FeedbackOutcome)
    requires
        guess@.len() <= MAX_WORD_LEN,
        forall|i: int| 0 <= i < cands@.len() ==> (#[trigger] cands@[i])@.len() == guess@.len(),
    ensures
        match r {
            FeedbackOutcome::BadPattern => !pattern_ok(pattern@, guess@.len()),
            FeedbackOutcome::NoMatch => pattern_ok(pattern@, guess@.len()) && filter_spec(
                cands.deep_view(),
                guess@,
                code_of_marks(pattern@),
            ).len() == 0,
            FeedbackOutcome::Narrowed(kept) => pattern_ok(pattern@, guess@.len())
                && kept.deep_view() == filter_spec(
                cands.deep_view(),
                guess@,
                code_of_marks(pattern@),
            ) && kept@.len() >= 1,
        },
{
    match filter_candidates(cands, guess, pattern) {
        Err(FilterError::InvalidPattern) => FeedbackOutcome::BadPattern,
        Ok(kept) => {
            if kept.len() == 0 {
                proof {
                    assert(kept.deep_view().len() == kept@.len());
                }
                FeedbackOutcome::NoMatch
            } else {
                FeedbackOutcome::Narrowed(kept)
            }
        },
    }
}

} // verus!
