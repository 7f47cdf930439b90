//! Entropy scorer.
//!
//! For every candidate taken as a guess, the scorer tallies the outcome
//! codes it would produce against every candidate taken as the answer, and
//! turns that histogram into an expected-information score. Scores are
//! exact integers: `len * log2_fix(len) - sum of count * log2_fix(count)`,
//! which is the Shannon entropy in bits scaled by `len * LOG_SCALE`.
//! Ranking is by descending score with ties broken by ascending word order,
//! so the ranked list is deterministic.
use vstd::prelude::*;
use crate::codec::MAX_WORD_LEN;
use crate::codec::encode;
use crate::codec::encode_spec;
use crate::codec::lemma_encode_bound;
use crate::codec::lemma_pow3_mono;
use crate::codec::pow3;
use crate::codec::pow3_u64;
use crate::entropy::LOG_SCALE;
use crate::entropy::lemma_log2_fix_le;
use crate::entropy::lemma_log2_fix_mono;
use crate::entropy::lemma_log2_fix_one;
use crate::entropy::log2_fix;
use crate::entropy::log2_fixed;
use vstd::arithmetic::power2::pow2;
use vstd::arithmetic::power2::lemma2_to64;
use vstd::arithmetic::power2::lemma2_to64_rest;

verus! {

broadcast use vstd::seq_lib::group_to_multiset_ensures;

/// Greatest word length the scorer accepts: the histogram of `3^len`
/// buckets must stay addressable.
pub const MAX_SCORED_LEN: usize = 13;

/// Greatest candidate count the scorer accepts; keeps every intermediate
/// sum within `u64`.
pub const MAX_CANDIDATES: u64 = 0x1_0000_0000;

/// How many candidates would produce outcome `code` if `g` were guessed:
/// one tally per candidate whose own feedback for `g` is `code`.
pub open spec fn hist_count(cands: Seq<Seq<u8>>, g: Seq<u8>, code: nat) -> nat
    decreases cands.len(),
{
    if cands.len() == 0 {
        0
    } else {
        hist_count(cands.drop_last(), g, code) + if encode_spec(g, cands.last()) == code {
            1nat
        } else {
            0nat
        }
    }
}

/// The histogram total over the outcome codes below `k`.
pub open spec fn hist_sum(cands: Seq<Seq<u8>>, g: Seq<u8>, k: nat) -> nat
    decreases k,
{
    if k == 0 {
        0
    } else {
        hist_sum(cands, g, (k - 1) as nat) + hist_count(cands, g, (k - 1) as nat)
    }
}

/// The scaled self-information mass of the buckets below `k`:
/// sum of `count * log2_fix(count)`.
pub open spec fn bucket_weight(cands: Seq<Seq<u8>>, g: Seq<u8>, k: nat) -> nat
    decreases k,
{
    if k == 0 {
        0
    } else {
        bucket_weight(cands, g, (k - 1) as nat) + hist_count(cands, g, (k - 1) as nat) * log2_fix(
            hist_count(cands, g, (k - 1) as nat),
        )
    }
}

/// The entropy score of guessing `g` against candidate set `cands`: the
/// Shannon entropy of the feedback distribution, scaled by
/// `cands.len() * LOG_SCALE`.
pub open spec fn entropy_scaled(cands: Seq<Seq<u8>>, g: Seq<u8>) -> int {
    cands.len() * log2_fix(cands.len()) - bucket_weight(cands, g, pow3(g.len()))
}

/// No bucket can hold more tallies than there are candidates.
pub proof fn lemma_hist_count_le(cands: Seq<Seq<u8>>, g: Seq<u8>, code: nat)
    ensures
        hist_count(cands, g, code) <= cands.len(),
    decreases cands.len(),
{
    if cands.len() > 0 {
        lemma_hist_count_le(cands.drop_last(), g, code);
    }
}

/// Appending one candidate raises exactly one bucket by one.
pub proof fn lemma_hist_push(cands: Seq<Seq<u8>>, g: Seq<u8>, x: Seq<u8>, code: nat)
    ensures
        hist_count(cands.push(x), g, code) == hist_count(cands, g, code) + if encode_spec(g, x)
            == code {
            1nat
        } else {
            0nat
        },
{
    assert(cands.push(x).drop_last() =~= cands);
    assert(cands.push(x).last() == x);
}

/// Appending one candidate raises the histogram total below `k` by one
/// exactly when the new candidate's code lies below `k`.
proof fn lemma_hist_sum_push(cands: Seq<Seq<u8>>, g: Seq<u8>, x: Seq<u8>, k: nat)
    ensures
        hist_sum(cands.push(x), g, k) == hist_sum(cands, g, k) + if encode_spec(g, x) < k {
            1nat
        } else {
            0nat
        },
    decreases k,
{
    if k > 0 {
        lemma_hist_sum_push(cands, g, x, (k - 1) as nat);
        lemma_hist_push(cands, g, x, (k - 1) as nat);
    }
}

proof fn lemma_hist_count_empty(g: Seq<u8>, k: nat)
    ensures
        hist_sum(Seq::<Seq<u8>>::empty(), g, k) == 0,
    decreases k,
{
    if k > 0 {
        lemma_hist_count_empty(g, (k - 1) as nat);
    }
}

/// Histogram-conservation law: over all `3^L` outcome codes, the buckets
/// of a guess of length `L` sum to exactly the number of candidates.
pub proof fn lemma_hist_conservation(cands: Seq<Seq<u8>>, g: Seq<u8>)
    requires
        forall|i: int| 0 <= i < cands.len() ==> (#[trigger] cands[i]).len() == g.len(),
    ensures
        hist_sum(cands, g, pow3(g.len())) == cands.len(),
    decreases cands.len(),
{
    if cands.len() == 0 {
        lemma_hist_count_empty(g, pow3(g.len()));
        assert(cands =~= Seq::<Seq<u8>>::empty());
    } else {
        let prefix = cands.drop_last();
        let x = cands.last();
        assert(forall|i: int|
            0 <= i < prefix.len() ==> (#[trigger] prefix[i]).len() == g.len()) by {
            assert(forall|i: int|
                0 <= i < prefix.len() ==> prefix[i] == cands[i] && (#[trigger] cands[i]).len()
                    == g.len());
        }
        lemma_hist_conservation(prefix, g);
        lemma_hist_sum_push(prefix, g, x, pow3(g.len()));
        assert(cands[cands.len() - 1] == x);
        assert(x.len() == g.len());
        lemma_encode_bound(g, x);
        assert(prefix.push(x) =~= cands);
    }
}

/// The histogram total below any cutoff never exceeds the candidate count.
pub proof fn lemma_hist_sum_le(cands: Seq<Seq<u8>>, g: Seq<u8>, k: nat)
    ensures
        hist_sum(cands, g, k) <= cands.len(),
    decreases cands.len(),
{
    if cands.len() == 0 {
        lemma_hist_count_empty(g, k);
        assert(cands =~= Seq::<Seq<u8>>::empty());
    } else {
        let prefix = cands.drop_last();
        let x = cands.last();
        lemma_hist_sum_le(prefix, g, k);
        lemma_hist_sum_push(prefix, g, x, k);
        assert(prefix.push(x) =~= cands);
    }
}

/// The weight below any cutoff is bounded by the tallies it covers, each
/// contributing at most `log2_fix(cands.len())`.
pub proof fn lemma_bucket_weight_le(cands: Seq<Seq<u8>>, g: Seq<u8>, k: nat)
    ensures
        bucket_weight(cands, g, k) <= hist_sum(cands, g, k) * log2_fix(cands.len()),
    decreases k,
{
    if k > 0 {
        let kp = (k - 1) as nat;
        lemma_bucket_weight_le(cands, g, kp);
        let c = hist_count(cands, g, kp);
        lemma_hist_count_le(cands, g, kp);
        lemma_log2_fix_mono(c, cands.len());
        let l2n = log2_fix(cands.len());
        assert(c * log2_fix(c) <= c * l2n) by (nonlinear_arith)
            requires
                log2_fix(c) <= l2n,
                c >= 0,
        ;
        assert(hist_sum(cands, g, kp) * l2n + c * l2n == (hist_sum(cands, g, kp) + c) * l2n)
            by (nonlinear_arith);
    }
}

/// With a single candidate every bucket holds at most one tally, whose
/// scaled logarithm is zero.
proof fn lemma_bucket_weight_single(cands: Seq<Seq<u8>>, g: Seq<u8>, k: nat)
    requires
        cands.len() == 1,
    ensures
        bucket_weight(cands, g, k) == 0,
    decreases k,
{
    if k > 0 {
        let kp = (k - 1) as nat;
        lemma_bucket_weight_single(cands, g, kp);
        let c = hist_count(cands, g, kp);
        lemma_hist_count_le(cands, g, kp);
        lemma_log2_fix_one();
        assert(c == 0 || c == 1);
        assert(log2_fix(c) == 0);
    }
}

/// Entropy-bounds law: every score is non-negative and at most
/// `len * log2_fix(len)` — the scaled form of `log2(len)` bits — and a
/// single-candidate set always scores exactly zero.
pub proof fn lemma_entropy_bounds(cands: Seq<Seq<u8>>, g: Seq<u8>)
    requires
        cands.len() >= 1,
        forall|i: int| 0 <= i < cands.len() ==> (#[trigger] cands[i]).len() == g.len(),
    ensures
        0 <= entropy_scaled(cands, g),
        entropy_scaled(cands, g) <= cands.len() * log2_fix(cands.len()),
        cands.len() == 1 ==> entropy_scaled(cands, g) == 0,
{
    lemma_hist_conservation(cands, g);
    lemma_bucket_weight_le(cands, g, pow3(g.len()));
    if cands.len() == 1 {
        lemma_bucket_weight_single(cands, g, pow3(g.len()));
        lemma_log2_fix_one();
    }
}

/// Builds the feedback histogram of `guess` against every candidate:
/// bucket `c` counts the candidates whose feedback code would be `c`.
pub fn histogram(cands: &Vec<Vec<u8>>, guess: &Vec<u8>) -> (h: Vec<u64>)
    requires
        guess@.len() <= MAX_SCORED_LEN,
        forall|i: int| 0 <= i < cands@.len() ==> (#[trigger] cands@[i])@.len() == guess@.len(),
    ensures
        h@.len() == pow3(guess@.len()),
        forall|c: int| 0 <= c < h@.len() ==> (#[trigger] h@[c]) as nat == hist_count(
            cands.deep_view(),
            guess@,
            c as nat,
        ),
{
    let sz = guess.len();
    proof {
        lemma_pow3_mono(sz as nat, MAX_SCORED_LEN as nat);
        crate::codec::lemma_pow3_max();
        assert(pow3(MAX_SCORED_LEN as nat) == 1594323) by {
            reveal_with_fuel(pow3, 14);
        }
    }
    let m64 = pow3_u64(sz);
    let m = m64 as usize;
    let mut h: Vec<u64> = Vec::new();
    let mut b: usize = 0;
    while b < m
        invariant
            h@.len() == b,
            b <= m,
            forall|c: int| 0 <= c < b ==> h@[c] == 0,
        decreases m - b,
    {
        h.push(0);
        b = b + 1;
    }
    let ghost deep = cands.deep_view();
    proof {
        assert(deep.take(0) =~= Seq::<Seq<u8>>::empty());
        assert(forall|c: nat| hist_count(Seq::<Seq<u8>>::empty(), guess@, c) == 0);
    }
    let n = cands.len();
    let mut i: usize = 0;
    while i < n
        invariant
            i <= n,
            n == cands@.len(),
            deep == cands.deep_view(),
            guess@.len() == sz <= MAX_SCORED_LEN,
            forall|j: int| 0 <= j < cands@.len() ==> (#[trigger] cands@[j])@.len() == guess@.len(),
            h@.len() == m,
            m == pow3(sz as nat),
            forall|c: int| 0 <= c < m ==> (#[trigger] h@[c]) as nat == hist_count(
                deep.take(i as int),
                guess@,
                c as nat,
            ),
        decreases n - i,
    {
        let ghost pre = deep.take(i as int);
        let ghost x = deep[i as int];
        let w = &cands[i];
        proof {
            assert(cands@[i as int]@.len() == guess@.len());
            assert(x =~= w@);
            assert(deep.take(i + 1) =~= pre.push(x));
            assert forall|c: nat| hist_count(pre.push(x), guess@, c) == hist_count(pre, guess@, c)
                + if encode_spec(guess@, x) == c {
                1nat
            } else {
                0nat
            } by {
                lemma_hist_push(pre, guess@, x, c);
            }
            lemma_encode_bound(guess@, x);
        }
        let code = encode(guess, w);
        let idx = code as usize;
        let cur = h[idx];
        proof {
            assert(hist_count(pre, guess@, idx as nat) <= pre.len()) by {
                lemma_hist_count_le(pre, guess@, idx as nat);
            }
        }
        h.set(idx, cur + 1);
        i = i + 1;
    }
    proof {
        assert(deep.take(n as int) =~= deep);
    }
    h
}

/// Scores one guess: builds its histogram and accumulates the scaled
/// entropy sum, exactly matching `entropy_scaled`.
#[verifier::rlimit(30)]
pub fn score_word(cands: &Vec<Vec<u8>>, guess: &Vec<u8>) -> (r: u64)
    requires
        guess@.len() <= MAX_SCORED_LEN,
        1 <= cands@.len() <= MAX_CANDIDATES,
        forall|i: int| 0 <= i < cands@.len() ==> (#[trigger] cands@[i])@.len() == guess@.len(),
    ensures
        r as int == entropy_scaled(cands.deep_view(), guess@),
{
    let ghost deep = cands.deep_view();
    let h = histogram(cands, guess);
    let n64 = cands.len() as u64;
    let l2n = log2_fixed(n64);
    proof {
        lemma2_to64();
        lemma2_to64_rest();
        assert((n64 as nat) < pow2(33));
        lemma_log2_fix_le(n64 as nat, 32);
        assert(l2n <= 33 * 65536);
    }
    let m = h.len();
    let mut w: u64 = 0;
    let mut c: usize = 0;
    while c < m
        invariant
            c <= m,
            h@.len() == m,
            m == pow3(guess@.len()),
            deep == cands.deep_view(),
            n64 as nat == deep.len(),
            1 <= deep.len() <= MAX_CANDIDATES,
            l2n as nat == log2_fix(deep.len()),
            l2n <= 33 * 65536,
            forall|d: int| 0 <= d < m ==> (#[trigger] h@[d]) as nat == hist_count(
                deep,
                guess@,
                d as nat,
            ),
            w as nat == bucket_weight(deep, guess@, c as nat),
        decreases m - c,
    {
        let hc = h[c];
        proof {
            assert(h@[c as int] == hc);
            assert(hc as nat == hist_count(deep, guess@, c as nat));
            lemma_hist_count_le(deep, guess@, c as nat);
            lemma_hist_sum_le(deep, guess@, (c + 1) as nat);
            lemma_bucket_weight_le(deep, guess@, (c + 1) as nat);
            assert(hist_sum(deep, guess@, (c + 1) as nat) * log2_fix(deep.len()) <= deep.len()
                * log2_fix(deep.len())) by (nonlinear_arith)
                requires
                    hist_sum(deep, guess@, (c + 1) as nat) <= deep.len(),
                    log2_fix(deep.len()) >= 0,
            ;
            assert(deep.len() * log2_fix(deep.len()) <= 0x1_0000_0000 * (33 * 65536))
                by (nonlinear_arith)
                requires
                    deep.len() <= 0x1_0000_0000,
                    log2_fix(deep.len()) <= 33 * 65536,
            ;
        }
        proof {
            assert(bucket_weight(deep, guess@, (c + 1) as nat) == bucket_weight(
                deep,
                guess@,
                c as nat,
            ) + hist_count(deep, guess@, c as nat) * log2_fix(hist_count(deep, guess@, c as nat)));
        }
        let ghost w0 = w as nat;
        if hc > 0 {
            let lg = log2_fixed(hc);
            proof {
                lemma_log2_fix_mono(hc as nat, deep.len());
                assert((hc as nat) * (lg as nat) <= deep.len() * (l2n as nat)) by (nonlinear_arith)
                    requires
                        hc as nat <= deep.len(),
                        lg as nat <= l2n as nat,
                ;
            }
            w = w + hc * lg;
            proof {
                assert(lg as nat == log2_fix(hc as nat));
                assert(w as nat == w0 + (hc as nat) * (lg as nat));
                assert((hc as nat) * (lg as nat) == hist_count(deep, guess@, c as nat) * log2_fix(
                    hist_count(deep, guess@, c as nat),
                ));
            }
        } else {
            proof {
                let hcn = hist_count(deep, guess@, c as nat);
                let lf = log2_fix(hcn);
                assert(hcn == 0);
                assert(hcn * lf == 0) by (nonlinear_arith)
                    requires
                        hcn == 0,
                ;
            }
        }
        proof {
            assert(w as nat == bucket_weight(deep, guess@, (c + 1) as nat));
        }
        c = c + 1;
    }
    proof {
        lemma_hist_conservation(deep, guess@);
        lemma_bucket_weight_le(deep, guess@, pow3(guess@.len()));
        assert(deep.len() * log2_fix(deep.len()) <= 0x1_0000_0000 * (33 * 65536))
            by (nonlinear_arith)
            requires
                deep.len() <= 0x1_0000_0000,
                log2_fix(deep.len()) <= 33 * 65536,
        ;
    }
    let total = n64 * l2n;
    total - w
}


/// One ranked suggestion: a candidate word and its entropy score.
#[derive(Clone, Debug, PartialEq, Eq)]
pub struct ScoreEntry {
    pub score: u64,
    pub word: Vec<u8>,
}

/// Why a scoring request was refused.
#[derive(Clone, Copy, Debug, PartialEq, Eq, Structural)]
pub enum ScoreError {
    /// The candidate set was empty, so entropy is undefined.
    DegenerateInput,
}

/// Lexicographic order on byte words, a shorter word preceding its
/// extensions.
pub open spec fn lex_le(x: Seq<u8>, y: Seq<u8>) -> bool
    decreases x.len(),
{
    if x.len() == 0 {
        true
    } else if y.len() == 0 {
        false
    } else if x[0] < y[0] {
        true
    } else if x[0] > y[0] {
        false
    } else {
        lex_le(x.drop_first(), y.drop_first())
    }
}

pub proof fn lemma_lex_le_total(x: Seq<u8>, y: Seq<u8>)
    ensures
        lex_le(x, y) || lex_le(y, x),
    decreases x.len(),
{
    if x.len() > 0 && y.len() > 0 && x[0] == y[0] {
        lemma_lex_le_total(x.drop_first(), y.drop_first());
    }
}

pub proof fn lemma_lex_le_trans(x: Seq<u8>, y: Seq<u8>, z: Seq<u8>)
    requires
        lex_le(x, y),
        lex_le(y, z),
    ensures
        lex_le(x, z),
    decreases x.len(),
{
    if x.len() > 0 && y.len() > 0 && z.len() > 0 && x[0] == y[0] && y[0] == z[0] {
        lemma_lex_le_trans(x.drop_first(), y.drop_first(), z.drop_first());
    }
}

/// The display order of ranked entries: higher score first, ties broken by
/// ascending word order.
pub open spec fn entry_le(a: ScoreEntry, b: ScoreEntry) -> bool {
    a.score > b.score || (a.score == b.score && lex_le(a.word@, b.word@))
}

pub proof fn lemma_entry_le_total(a: ScoreEntry, b: ScoreEntry)
    ensures
        entry_le(a, b) || entry_le(b, a),
{
    lemma_lex_le_total(a.word@, b.word@);
}

pub proof fn lemma_entry_le_trans(a: ScoreEntry, b: ScoreEntry, c: ScoreEntry)
    requires
        entry_le(a, b),
        entry_le(b, c),
    ensures
        entry_le(a, c),
{
    if a.score == b.score && b.score == c.score {
        lemma_lex_le_trans(a.word@, b.word@, c.word@);
    }
}

/// Is the ranked list in display order throughout?
pub open spec fn sorted_entries(s: Seq<ScoreEntry>) -> bool {
    forall|p: int, q: int| 0 <= p < q < s.len() ==> #[trigger] entry_le(s[p], s[q])
}

/// The words of a ranked list, in ranked order.
pub open spec fn words_of(s: Seq<ScoreEntry>) -> Seq<Seq<u8>> {
    s.map_values(|e: ScoreEntry| e.word.deep_view())
}

/// Compares two words in lexicographic order at run time.
pub fn word_le(x: &Vec<u8>, y: &Vec<u8>) -> (r: bool)
    ensures
        r == lex_le(x@, y@),
{
    let n = if x.len() < y.len() {
        x.len()
    } else {
        y.len()
    };
    let mut i: usize = 0;
    proof {
        assert(x@.skip(0) =~= x@);
        assert(y@.skip(0) =~= y@);
    }
    while i < n
        invariant
            i <= n,
            n <= x@.len(),
            n <= y@.len(),
            n == x@.len() || n == y@.len(),
            lex_le(x@, y@) == lex_le(x@.skip(i as int), y@.skip(i as int)),
        decreases n - i,
    {
        let ghost xs = x@.skip(i as int);
        let ghost ys = y@.skip(i as int);
        proof {
            assert(xs.len() > 0 && ys.len() > 0);
            assert(xs[0] == x@[i as int]);
            assert(ys[0] == y@[i as int]);
            assert(xs.drop_first() =~= x@.skip(i + 1));
            assert(ys.drop_first() =~= y@.skip(i + 1));
        }
        if x[i] < y[i] {
            return true;
        }
        if x[i] > y[i] {
            return false;
        }
        i = i + 1;
    }
    proof {
        if x@.len() <= y@.len() {
            assert(x@.skip(n as int).len() == 0);
        } else {
            assert(y@.skip(n as int).len() == 0);
            assert(x@.skip(n as int).len() > 0);
        }
    }
    x.len() <= y.len()
}

/// Compares two ranked entries in display order at run time.
pub fn entry_before(a: &ScoreEntry, b: &ScoreEntry) -> (r: bool)
    ensures
        r == entry_le(*a, *b),
{
    if a.score > b.score {
        true
    } else if a.score < b.score {
        false
    } else {
        word_le(&a.word, &b.word)
    }
}

/// Finds where a new entry belongs in an already sorted ranked list.
fn insert_pos(ranked: &Vec<ScoreEntry>, e: &ScoreEntry) -> (pos: usize)
    requires
        sorted_entries(ranked@),
    ensures
        pos <= ranked@.len(),
        forall|j: int| 0 <= j < pos ==> entry_le(#[trigger] ranked@[j], *e),
        pos < ranked@.len() ==> !entry_le(ranked@[pos as int], *e),
{
    let n = ranked.len();
    let mut pos: usize = 0;
    while pos < n
        invariant
            pos <= n,
            n == ranked@.len(),
            forall|j: int| 0 <= j < pos ==> entry_le(#[trigger] ranked@[j], *e),
        decreases n - pos,
    {
        if !entry_before(&ranked[pos], e) {
            return pos;
        }
        pos = pos + 1;
    }
    pos
}

/// Inserting an entry at its found position keeps the list sorted.
proof fn lemma_sorted_insert(s: Seq<ScoreEntry>, pos: int, e: ScoreEntry)
    requires
        sorted_entries(s),
        0 <= pos <= s.len(),
        forall|j: int| 0 <= j < pos ==> entry_le(#[trigger] s[j], e),
        pos < s.len() ==> !entry_le(s[pos], e),
    ensures
        sorted_entries(s.insert(pos, e)),
{
    s.insert_ensures(pos, e);
    let t = s.insert(pos, e);
    if pos < s.len() {
        lemma_entry_le_total(s[pos], e);
    }
    assert forall|p: int, q: int| 0 <= p < q < t.len() implies #[trigger] entry_le(t[p], t[q]) by {
        if q < pos {
        } else if p < pos && q == pos {
            assert(t[p] == s[p] && t[q] == e);
        } else if p < pos && q > pos {
            assert(t[p] == s[p] && t[q] == s[q - 1]);
        } else if p == pos && q > pos {
            assert(t[p] == e && t[q] == s[q - 1]);
            assert(entry_le(e, s[pos]));
            if q - 1 > pos {
                assert(entry_le(s[pos], s[q - 1]));
                lemma_entry_le_trans(e, s[pos], s[q - 1]);
            }
        } else {
            assert(t[p] == s[p - 1] && t[q] == s[q - 1]);
        }
    }
}

/// Inserting an entry adds exactly its word to the multiset of ranked
/// words.
proof fn lemma_words_insert(s: Seq<ScoreEntry>, pos: int, e: ScoreEntry)
    requires
        0 <= pos <= s.len(),
    ensures
        words_of(s.insert(pos, e)).to_multiset() == words_of(s).to_multiset().insert(
            e.word.deep_view(),
        ),
{
    s.insert_ensures(pos, e);
    let w = e.word.deep_view();
    assert(words_of(s.insert(pos, e)) =~= words_of(s).insert(pos, w)) by {
        words_of(s).insert_ensures(pos, w);
    }
}

/// Scores every candidate against the whole set and returns the ranked
/// list: one entry per candidate, highest expected information first,
/// ties broken by word order. An empty candidate set has no defined
/// entropy and is refused.
pub fn score_candidates(cands: &Vec<Vec<u8>>, sz: usize) -> (r: Result<
    Vec<ScoreEntry>,
    ScoreError,
>)
    requires
        sz <= MAX_SCORED_LEN,
        cands@.len() <= MAX_CANDIDATES,
        forall|i: int| 0 <= i < cands@.len() ==> (#[trigger] cands@[i])@.len() == sz,
    ensures
        match r {
            Ok(ranked) => {
                &&& cands@.len() >= 1
                &&& ranked@.len() == cands@.len()
                &&& sorted_entries(ranked@)
                &&& forall|i: int|
                    0 <= i < ranked@.len() ==> (#[trigger] ranked@[i]).score as int
                        == entropy_scaled(cands.deep_view(), ranked@[i].word@)
                &&& words_of(ranked@).to_multiset() == cands.deep_view().to_multiset()
            },
            Err(e) => e == ScoreError::DegenerateInput && cands@.len() == 0,
        },
{
    let n = cands.len();
    if n == 0 {
        return Err(ScoreError::DegenerateInput);
    }
    let ghost deep = cands.deep_view();
    let mut ranked: Vec<ScoreEntry> = Vec::new();
    let mut i: usize = 0;
    proof {
        assert(deep.take(0) =~= Seq::<Seq<u8>>::empty());
        assert(words_of(ranked@) =~= Seq::<Seq<u8>>::empty());
        assert(Seq::<Seq<u8>>::empty().to_multiset() =~= vstd::multiset::Multiset::empty()) by {
            Seq::<Seq<u8>>::empty().to_multiset_ensures();
        }
    }
    while i < n
        invariant
            i <= n,
            n == cands@.len(),
            1 <= n <= MAX_CANDIDATES,
            deep == cands.deep_view(),
            sz <= MAX_SCORED_LEN,
            forall|j: int| 0 <= j < cands@.len() ==> (#[trigger] cands@[j])@.len() == sz,
            ranked@.len() == i,
            sorted_entries(ranked@),
            forall|p: int|
                0 <= p < ranked@.len() ==> (#[trigger] ranked@[p]).score as int == entropy_scaled(
                    deep,
                    ranked@[p].word@,
                ),
            words_of(ranked@).to_multiset() == deep.take(i as int).to_multiset(),
        decreases n - i,
    {
        let w = &cands[i];
        proof {
            assert(cands@[i as int]@.len() == sz);
        }
        let s = score_word(cands, w);
        let cl = w.clone();
        proof {
            assert(cl@ =~= w@);
        }
        let e = ScoreEntry { score: s, word: cl };
        let pos = insert_pos(&ranked, &e);
        let ghost rpre = ranked@;
        proof {
            lemma_sorted_insert(rpre, pos as int, e);
            lemma_words_insert(rpre, pos as int, e);
            assert(e.word.deep_view() =~= deep[i as int]);
            assert(deep.take(i + 1) =~= deep.take(i as int).push(deep[i as int]));
        }
        ranked.insert(pos, e);
        proof {
            rpre.insert_ensures(pos as int, e);
            assert forall|p: int|
                0 <= p < ranked@.len() implies (#[trigger] ranked@[p]).score as int
                == entropy_scaled(deep, ranked@[p].word@) by {
                if p < pos {
                    assert(ranked@[p] == rpre[p]);
                } else if p == pos {
                    assert(ranked@[p] == e);
                } else {
                    assert(ranked@[p] == rpre[p - 1]);
                }
            }
        }
        i = i + 1;
    }
    proof {
        assert(deep.take(n as int) =~= deep);
    }
    Ok(ranked)
}

} // verus!
