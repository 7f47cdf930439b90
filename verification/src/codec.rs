//! Feedback-pattern codec.
//!
//! A word is a sequence of bytes; comparing a guess against an answer of the
//! same length yields one mark per position — absent (0), present elsewhere
//! (1) or exact (2) — combined into a single outcome code in radix 3.
//! Repeated letters use consumption bookkeeping: a guessed letter is marked
//! present only while unconsumed occurrences of it remain in the answer,
//! where exact matches consume their occurrence first and present marks are
//! assigned left to right.
use vstd::prelude::*;
use vstd::multiset::Multiset;

verus! {

/// Greatest word length the codec accepts; keeps every code within `u64`.
pub const MAX_WORD_LEN: usize = 20;

/// 3 to the power `n`: the number of outcome codes for words of length `n`.
pub open spec fn pow3(n: nat) -> nat
    decreases n,
{
    if n == 0 {
        1
    } else {
        3 * pow3((n - 1) as nat)
    }
}

pub proof fn lemma_pow3_pos(n: nat)
    ensures
        pow3(n) >= 1,
    decreases n,
{
    if n > 0 {
        lemma_pow3_pos((n - 1) as nat);
    }
}

pub proof fn lemma_pow3_mono(a: nat, b: nat)
    requires
        a <= b,
    ensures
        pow3(a) <= pow3(b),
    decreases b,
{
    if a < b {
        lemma_pow3_mono(a, (b - 1) as nat);
        lemma_pow3_pos((b - 1) as nat);
    }
}

/// Every code of a word of length at most `MAX_WORD_LEN` fits easily in `u64`.
pub proof fn lemma_pow3_max()
    ensures
        pow3(MAX_WORD_LEN as nat) == 3486784401,
{
    assert(pow3(20) == 3486784401) by {
        reveal_with_fuel(pow3, 21);
    }
}

/// Computes 3^n at run time.
pub fn pow3_u64(n: usize) -> (r: u64)
    requires
        n <= MAX_WORD_LEN,
    ensures
        r as nat == pow3(n as nat),
{
    let mut r: u64 = 1;
    let mut i: usize = 0;
    proof {
        lemma_pow3_max();
    }
    while i < n
        invariant
            i <= n <= MAX_WORD_LEN,
            r as nat == pow3(i as nat),
            pow3(MAX_WORD_LEN as nat) == 3486784401,
        decreases n - i,
    {
        proof {
            lemma_pow3_mono((i + 1) as nat, MAX_WORD_LEN as nat);
        }
        r = r * 3;
        i = i + 1;
    }
    r
}

/// The unconsumed answer letters after the exact-match pass: one occurrence
/// of `a[j]` for every position `j` where guess and answer differ.
pub open spec fn init_avail(g: Seq<u8>, a: Seq<u8>) -> Multiset<u8>
    decreases a.len(),
{
    if a.len() == 0 || g.len() != a.len() {
        Multiset::empty()
    } else {
        let p = a.len() as int - 1;
        let rest = init_avail(g.drop_last(), a.drop_last());
        if g[p] == a[p] {
            rest
        } else {
            rest.insert(a[p])
        }
    }
}

/// The unconsumed answer letters once the present-mark pass has handled the
/// first `i` positions.
pub open spec fn avail_at(g: Seq<u8>, a: Seq<u8>, i: int) -> Multiset<u8>
    decreases i,
{
    if i <= 0 {
        init_avail(g, a)
    } else {
        let prev = avail_at(g, a, i - 1);
        let p = i - 1;
        if g[p] == a[p] {
            prev
        } else if prev.count(g[p]) > 0 {
            prev.remove(g[p])
        } else {
            prev
        }
    }
}

/// The per-position mark: 2 for an exact match, 1 when an unconsumed
/// occurrence of the guessed letter remains, 0 otherwise.
pub open spec fn mark_at(g: Seq<u8>, a: Seq<u8>, i: int) -> nat {
    if g[i] == a[i] {
        2
    } else if avail_at(g, a, i).count(g[i]) > 0 {
        1
    } else {
        0
    }
}

/// The code contributed by the first `i` positions: sum of `mark · 3^p`.
pub open spec fn code_prefix(g: Seq<u8>, a: Seq<u8>, i: int) -> nat
    decreases i,
{
    if i <= 0 {
        0
    } else {
        code_prefix(g, a, i - 1) + mark_at(g, a, i - 1) * pow3((i - 1) as nat)
    }
}

/// The outcome code of guessing `g` when the answer is `a`.
pub open spec fn encode_spec(g: Seq<u8>, a: Seq<u8>) -> nat {
    code_prefix(g, a, g.len() as int)
}

proof fn lemma_code_prefix_bound(g: Seq<u8>, a: Seq<u8>, i: int)
    requires
        i >= 0,
    ensures
        code_prefix(g, a, i) < pow3(i as nat),
    decreases i,
{
    if i == 0 {
    } else {
        lemma_code_prefix_bound(g, a, i - 1);
        lemma_pow3_pos((i - 1) as nat);
        let m = mark_at(g, a, i - 1);
        let p = pow3((i - 1) as nat);
        assert(m <= 2);
        assert(m * p <= 2 * p) by (nonlinear_arith)
            requires
                m <= 2,
        ;
    }
}

/// Every outcome code of a length-`n` guess lies below `3^n`.
pub proof fn lemma_encode_bound(g: Seq<u8>, a: Seq<u8>)
    ensures
        encode_spec(g, a) < pow3(g.len()),
{
    lemma_code_prefix_bound(g, a, g.len() as int);
}

/// No letter can be available more often than the answer is long.
proof fn lemma_init_avail_count_le(g: Seq<u8>, a: Seq<u8>, c: u8)
    ensures
        init_avail(g, a).count(c) <= a.len(),
    decreases a.len(),
{
    if a.len() == 0 || g.len() != a.len() {
    } else {
        lemma_init_avail_count_le(g.drop_last(), a.drop_last(), c);
    }
}

/// A word guessed against itself scores an exact match at every position.
proof fn lemma_self_match_prefix(w: Seq<u8>, i: int)
    requires
        0 <= i <= w.len(),
    ensures
        code_prefix(w, w, i) == pow3(i as nat) - 1,
    decreases i,
{
    if i > 0 {
        lemma_self_match_prefix(w, i - 1);
        assert(mark_at(w, w, i - 1) == 2);
    }
}

/// Self-match law: `encode_spec(w, w)` is the all-exact code `3^len - 1`.
pub proof fn lemma_self_match(w: Seq<u8>)
    ensures
        encode_spec(w, w) == pow3(w.len()) - 1,
{
    lemma_self_match_prefix(w, w.len() as int);
}

/// Computes the outcome code of `guess` against `answer`, following the
/// exact-then-present consumption rule.
pub fn encode(guess: &Vec<u8>, answer: &Vec<u8>) -> (code: u64)
    requires
        guess@.len() == answer@.len(),
        guess@.len() <= MAX_WORD_LEN,
    ensures
        code as nat == encode_spec(guess@, answer@),
        (code as nat) < pow3(guess@.len()),
{
    let n = guess.len();
    proof {
        lemma_pow3_max();
    }
    let mut counts: Vec<u8> = Vec::new();
    let mut b: usize = 0;
    while b < 256
        invariant
            counts@.len() == b,
            b <= 256,
            forall|c: int| 0 <= c < b ==> counts@[c] == 0,
        decreases 256 - b,
    {
        counts.push(0);
        b = b + 1;
    }
    let mut j: usize = 0;
    while j < n
        invariant
            j <= n,
            n == guess@.len(),
            n == answer@.len(),
            n <= MAX_WORD_LEN,
            counts@.len() == 256,
            forall|c: u8| #![trigger counts@[c as int]]
                counts@[c as int] as nat
                    == init_avail(guess@.take(j as int), answer@.take(j as int)).count(c),
        decreases n - j,
    {
        let ghost gpre = guess@.take(j as int);
        let ghost apre = answer@.take(j as int);
        let ghost gnext = guess@.take(j + 1);
        let ghost anext = answer@.take(j + 1);
        proof {
            assert(gnext.drop_last() =~= gpre);
            assert(anext.drop_last() =~= apre);
            assert(gnext[j as int] == guess@[j as int]);
            assert(anext[j as int] == answer@[j as int]);
            lemma_init_avail_count_le(gpre, apre, answer@[j as int]);
        }
        let gj = guess[j];
        let aj = answer[j];
        if gj != aj {
            let idx = aj as usize;
            let cur = counts[idx];
            counts.set(idx, cur + 1);
        }
        j = j + 1;
    }
    proof {
        assert(guess@.take(n as int) =~= guess@);
        assert(answer@.take(n as int) =~= answer@);
    }
    let mut code: u64 = 0;
    let mut p3: u64 = 1;
    let mut i: usize = 0;
    while i < n
        invariant
            i <= n,
            n == guess@.len(),
            n == answer@.len(),
            n <= MAX_WORD_LEN,
            counts@.len() == 256,
            pow3(MAX_WORD_LEN as nat) == 3486784401,
            p3 as nat == pow3(i as nat),
            code as nat == code_prefix(guess@, answer@, i as int),
            (code as nat) < pow3(i as nat),
            forall|c: u8| #![trigger counts@[c as int]]
                counts@[c as int] as nat == avail_at(guess@, answer@, i as int).count(c),
        decreases n - i,
    {
        proof {
            lemma_pow3_mono((i + 1) as nat, MAX_WORD_LEN as nat);
            assert(code_prefix(guess@, answer@, i + 1)
                == code_prefix(guess@, answer@, i as int)
                    + mark_at(guess@, answer@, i as int) * pow3(i as nat));
        }
        let gi = guess[i];
        let ai = answer[i];
        if gi == ai {
            proof {
                assert(mark_at(guess@, answer@, i as int) == 2);
            }
            code = code + 2 * p3;
        } else {
            let idx = gi as usize;
            let cur = counts[idx];
            if cur > 0 {
                proof {
                    assert(mark_at(guess@, answer@, i as int) == 1);
                }
                counts.set(idx, cur - 1);
                code = code + p3;
            } else {
                proof {
                    assert(mark_at(guess@, answer@, i as int) == 0);
                }
            }
        }
        p3 = p3 * 3;
        i = i + 1;
    }
    code
}

/// Do all marks lie in the ternary range {0, 1, 2}?
pub open spec fn valid_marks(m: Seq<u8>) -> bool {
    forall|i: int| 0 <= i < m.len() ==> m[i] < 3
}

/// The code a sequence of per-position marks denotes, in radix 3.
pub open spec fn code_of_marks(m: Seq<u8>) -> nat
    decreases m.len(),
{
    if m.len() == 0 {
        0
    } else {
        code_of_marks(m.drop_last()) + (m.last() as nat) * pow3((m.len() - 1) as nat)
    }
}

pub proof fn lemma_code_of_marks_bound(m: Seq<u8>)
    requires
        valid_marks(m),
    ensures
        code_of_marks(m) < pow3(m.len()),
    decreases m.len(),
{
    if m.len() > 0 {
        assert(valid_marks(m.drop_last()));
        lemma_code_of_marks_bound(m.drop_last());
        lemma_pow3_pos((m.len() - 1) as nat);
        let d = m.last() as nat;
        let p = pow3((m.len() - 1) as nat);
        assert(d <= 2);
        assert(d * p <= 2 * p) by (nonlinear_arith)
            requires
                d <= 2,
        ;
    }
}

/// Radix-3 uniqueness: two valid mark rows of one length denoting the same
/// code are the same row, so decoding a code is unambiguous.
pub proof fn lemma_marks_unique(m1: Seq<u8>, m2: Seq<u8>)
    requires
        valid_marks(m1),
        valid_marks(m2),
        m1.len() == m2.len(),
        code_of_marks(m1) == code_of_marks(m2),
    ensures
        m1 == m2,
    decreases m1.len(),
{
    if m1.len() == 0 {
        assert(m1 =~= m2);
    } else {
        assert(valid_marks(m1.drop_last()));
        assert(valid_marks(m2.drop_last()));
        lemma_code_of_marks_bound(m1.drop_last());
        lemma_code_of_marks_bound(m2.drop_last());
        let p = pow3((m1.len() - 1) as nat);
        let r1 = code_of_marks(m1.drop_last());
        let r2 = code_of_marks(m2.drop_last());
        let d1 = m1.last() as nat;
        let d2 = m2.last() as nat;
        lemma_pow3_pos((m1.len() - 1) as nat);
        assert(d1 == d2) by {
            if d1 < d2 {
                assert((d2 - d1) * p >= p) by (nonlinear_arith)
                    requires
                        d2 - d1 >= 1,
                        p >= 1,
                ;
                assert(r1 == r2 + (d2 - d1) * p) by (nonlinear_arith)
                    requires
                        r1 + d1 * p == r2 + d2 * p,
                ;
                assert(false);
            }
            if d2 < d1 {
                assert((d1 - d2) * p >= p) by (nonlinear_arith)
                    requires
                        d1 - d2 >= 1,
                        p >= 1,
                ;
                assert(r2 == r1 + (d1 - d2) * p) by (nonlinear_arith)
                    requires
                        r1 + d1 * p == r2 + d2 * p,
                ;
                assert(false);
            }
        }
        lemma_marks_unique(m1.drop_last(), m2.drop_last());
        assert(m1 =~= m2) by {
            assert(forall|i: int|
                0 <= i < m1.len() - 1 ==> m1[i] == m1.drop_last()[i] && m2[i] == m2.drop_last()[i]);
        }
    }
}

/// Combines explicit per-position marks into the outcome code they denote.
pub fn marks_to_code(marks: &Vec<u8>) -> (code: u64)
    requires
        marks@.len() <= MAX_WORD_LEN,
        valid_marks(marks@),
    ensures
        code as nat == code_of_marks(marks@),
        (code as nat) < pow3(marks@.len()),
{
    let n = marks.len();
    proof {
        lemma_pow3_max();
    }
    let mut code: u64 = 0;
    let mut p3: u64 = 1;
    let mut i: usize = 0;
    while i < n
        invariant
            i <= n,
            n == marks@.len(),
            n <= MAX_WORD_LEN,
            valid_marks(marks@),
            pow3(MAX_WORD_LEN as nat) == 3486784401,
            p3 as nat == pow3(i as nat),
            code as nat == code_of_marks(marks@.take(i as int)),
            (code as nat) < pow3(i as nat),
        decreases n - i,
    {
        proof {
            lemma_pow3_mono((i + 1) as nat, MAX_WORD_LEN as nat);
            assert(marks@.take(i + 1).drop_last() =~= marks@.take(i as int));
            assert(marks@.take(i + 1).last() == marks@[i as int]);
            let d = marks@[i as int] as nat;
            let p = pow3(i as nat);
            assert(d <= 2);
            assert(d * p <= 2 * p) by (nonlinear_arith)
                requires
                    d <= 2,
            ;
        }
        let m = marks[i];
        code = code + (m as u64) * p3;
        p3 = p3 * 3;
        i = i + 1;
    }
    proof {
        assert(marks@.take(n as int) =~= marks@);
    }
    code
}

/// Splits an outcome code back into its `len` per-position marks.
pub fn code_to_marks(code: u64, len: usize) -> (marks: Vec<u8>)
    requires
        len <= MAX_WORD_LEN,
        (code as nat) < pow3(len as nat),
    ensures
        marks@.len() == len,
        valid_marks(marks@),
        code_of_marks(marks@) == code as nat,
{
    let mut marks: Vec<u8> = Vec::new();
    let mut rest: u64 = code;
    let mut p3: u64 = 1;
    let mut i: usize = 0;
    proof {
        lemma_pow3_max();
    }
    while i < len
        invariant
            i <= len,
            len <= MAX_WORD_LEN,
            pow3(MAX_WORD_LEN as nat) == 3486784401,
            marks@.len() == i,
            valid_marks(marks@),
            p3 as nat == pow3(i as nat),
            code_of_marks(marks@) + (rest as nat) * pow3(i as nat) == code as nat,
            (rest as nat) * pow3(i as nat) < pow3(len as nat),
        decreases len - i,
    {
        proof {
            lemma_pow3_mono((i + 1) as nat, MAX_WORD_LEN as nat);
            lemma_pow3_mono(i as nat, MAX_WORD_LEN as nat);
        }
        let d = (rest % 3) as u8;
        let q = rest / 3;
        let ghost mpre = marks@;
        marks.push(d);
        proof {
            assert(marks@.drop_last() =~= mpre);
            assert(marks@.last() == d);
            assert(rest as nat == (q as nat) * 3 + (d as nat));
            assert((q as nat) * 3 * pow3(i as nat) == (q as nat) * pow3((i + 1) as nat))
                by (nonlinear_arith);
            assert((rest as nat) * pow3(i as nat)
                == (q as nat) * pow3((i + 1) as nat) + (d as nat) * pow3(i as nat))
                by (nonlinear_arith)
                requires
                    rest as nat == (q as nat) * 3 + (d as nat),
            ;
        }
        rest = q;
        p3 = p3 * 3;
        i = i + 1;
    }
    proof {
        lemma_pow3_pos(len as nat);
        if rest as nat >= 1 {
            assert((rest as nat) * pow3(len as nat) >= pow3(len as nat))
                by (nonlinear_arith)
                requires
                    rest as nat >= 1,
                    pow3(len as nat) >= 1,
            ;
        }
        assert(rest == 0);
    }
    marks
}

} // verus!
