//! The referee's rule: what each letter of a guess is told about the secret.
use vstd::prelude::*;

use crate::word::{chars_of, WORD_LEN};

verus! {

/// What the referee reports for one letter of a guess.
#[derive(Debug, Clone, Copy, PartialEq, Eq, Structural)]
pub enum Correctness {
    /// The letter stands at this very position of the secret (green).
    Correct,
    /// The letter occurs elsewhere in the secret, at a position not yet
    /// credited to another letter of the guess (yellow).
    Misplaced,
    /// No uncredited occurrence of the letter is left in the secret (gray).
    Wrong,
}

/// Number of positions `k < n` at which `x[k] == c` and where secret and
/// guess differ, that is, positions that are not green.
pub open spec fn open_count(
    x: Seq<char>,
    secret: Seq<char>,
    guess: Seq<char>,
    c: char,
    n: int,
) -> nat
    decreases n,
{
    if n <= 0 {
        0
    } else {
        open_count(x, secret, guess, c, n - 1) + if x[n - 1] == c && secret[n - 1]
            != guess[n - 1] {
            1nat
        } else {
            0nat
        }
    }
}

/// Feedback at position `i`. Green where the letters agree. Otherwise the
/// non-green occurrences of the letter in the secret are credited to the
/// non-green occurrences in the guess from left to right: the letter is
/// yellow while some remain, gray after.
pub open spec fn feedback_at(secret: Seq<char>, guess: Seq<char>, i: int) -> Correctness {
    if secret[i] == guess[i] {
        Correctness::Correct
    } else if open_count(guess, secret, guess, guess[i], i) < open_count(
        secret,
        secret,
        guess,
        guess[i],
        5,
    ) {
        Correctness::Misplaced
    } else {
        Correctness::Wrong
    }
}

/// The feedback that guessing `guess` earns when the secret is `secret`.
pub open spec fn feedback(secret: Seq<char>, guess: Seq<char>) -> Seq<Correctness> {
    Seq::new(5, |i: int| feedback_at(secret, guess, i))
}

/// The feedback of a word that is all green.
pub open spec fn all_correct() -> Seq<Correctness> {
    Seq::new(5, |i: int| Correctness::Correct)
}

/// Guessing the secret itself is answered green at every position.
pub proof fn lemma_feedback_of_secret(w: Seq<char>)
    requires
        w.len() == 5,
    ensures
        feedback(w, w) == all_correct(),
{
    assert(feedback(w, w) =~= all_correct());
}

/// Number of positions `k < n` of the secret that hold `c`, are not green,
/// and are already credited in the ledger `used`.
pub open spec fn credited_count(
    secret: Seq<char>,
    guess: Seq<char>,
    used: Seq<bool>,
    c: char,
    n: int,
) -> nat
    decreases n,
{
    if n <= 0 {
        0
    } else {
        credited_count(secret, guess, used, c, n - 1) + if used[n - 1] && secret[n - 1] == c
            && secret[n - 1] != guess[n - 1] {
            1nat
        } else {
            0nat
        }
    }
}

/// Position `k` of the secret holds `c`, is not green and is not credited.
pub open spec fn is_free(secret: Seq<char>, guess: Seq<char>, used: Seq<bool>, c: char, k: int) -> bool {
    secret[k] == c && secret[k] != guess[k] && !used[k]
}

proof fn lemma_credited_bounded(
    secret: Seq<char>,
    guess: Seq<char>,
    used: Seq<bool>,
    c: char,
    n: int,
)
    requires
        0 <= n <= 5,
        secret.len() == 5,
        guess.len() == 5,
        used.len() == 5,
    ensures
        credited_count(secret, guess, used, c, n) <= open_count(secret, secret, guess, c, n),
        credited_count(secret, guess, used, c, n) == open_count(secret, secret, guess, c, n) <==> !exists|k: int|
            0 <= k < n && is_free(secret, guess, used, c, k),
    decreases n,
{
    if n > 0 {
        lemma_credited_bounded(secret, guess, used, c, n - 1);
        if exists|k: int| 0 <= k < n - 1 && is_free(secret, guess, used, c, k) {
            let k = choose|k: int| 0 <= k < n - 1 && is_free(secret, guess, used, c, k);
            assert(0 <= k < n && is_free(secret, guess, used, c, k));
        }
        if is_free(secret, guess, used, c, n - 1) {
            assert(0 <= n - 1 < n && is_free(secret, guess, used, c, n - 1));
        }
        if exists|k: int| 0 <= k < n && is_free(secret, guess, used, c, k) {
            let k = choose|k: int| 0 <= k < n && is_free(secret, guess, used, c, k);
            if k < n - 1 {
                assert(0 <= k < n - 1 && is_free(secret, guess, used, c, k));
            }
        }
    }
}

proof fn lemma_credit_one(
    secret: Seq<char>,
    guess: Seq<char>,
    used: Seq<bool>,
    k: int,
    c: char,
    n: int,
)
    requires
        0 <= n <= 5,
        0 <= k < 5,
        secret.len() == 5,
        guess.len() == 5,
        used.len() == 5,
        !used[k],
    ensures
        credited_count(secret, guess, used.update(k, true), c, n) == credited_count(
            secret,
            guess,
            used,
            c,
            n,
        ) + if k < n && secret[k] == c && secret[k] != guess[k] {
            1nat
        } else {
            0nat
        },
    decreases n,
{
    if n > 0 {
        lemma_credit_one(secret, guess, used, k, c, n - 1);
    }
}

proof fn lemma_greens_credit_nothing(
    secret: Seq<char>,
    guess: Seq<char>,
    used: Seq<bool>,
    c: char,
    n: int,
)
    requires
        0 <= n <= 5,
        secret.len() == 5,
        guess.len() == 5,
        used.len() == 5,
        forall|k: int| 0 <= k < 5 ==> used[k] == (secret[k] == guess[k]),
    ensures
        credited_count(secret, guess, used, c, n) == 0,
    decreases n,
{
    if n > 0 {
        lemma_greens_credit_nothing(secret, guess, used, c, n - 1);
    }
}

proof fn lemma_open_count_step(x: Seq<char>, secret: Seq<char>, guess: Seq<char>, c: char, n: int)
    requires
        0 <= n,
    ensures
        open_count(x, secret, guess, c, n + 1) == open_count(x, secret, guess, c, n) + if x[n]
            == c && secret[n] != guess[n] {
            1nat
        } else {
            0nat
        },
{
}

impl Correctness {
    /// The feedback for `guess` against the secret `answer`. A first pass
    /// marks the green letters and credits their secret positions; a second
    /// pass gives each other guess letter, left to right, the first
    /// uncredited secret position holding it (yellow), or none (gray).
    pub fn compute(answer: &str, guess: &str) -> (r: [Correctness; 5])
        requires
            answer@.len() == WORD_LEN,
            guess@.len() == WORD_LEN,
        ensures
            r@ == feedback(answer@, guess@),
    {
        let a = chars_of(answer);
        let g = chars_of(guess);
        // Greens: their secret positions are credited from the start.
        let mut used: Vec<bool> = Vec::new();
        let mut k: usize = 0;
        while k < WORD_LEN
            invariant
                a@.len() == WORD_LEN,
                g@.len() == WORD_LEN,
                k <= WORD_LEN,
                used@.len() == k,
                forall|j: int| 0 <= j < k ==> used@[j] == (a@[j] == g@[j]),
            decreases WORD_LEN - k,
        {
            used.push(a[k] == g[k]);
            k += 1;
        }
        proof {
            assert forall|c: char| #[trigger]
                credited_count(a@, g@, used@, c, 5) == 0nat by {
                lemma_greens_credit_nothing(a@, g@, used@, c, 5);
            }
        }
        // The other letters, left to right.
        let mut hits: Vec<Correctness> = Vec::new();
        let mut i: usize = 0;
        while i < WORD_LEN
            invariant
                a@.len() == WORD_LEN,
                g@.len() == WORD_LEN,
                i <= WORD_LEN,
                used@.len() == WORD_LEN,
                hits@.len() == i,
                forall|j: int| 0 <= j < 5 && a@[j] == g@[j] ==> used@[j],
                forall|c: char| #[trigger]
                    credited_count(a@, g@, used@, c, 5) == if open_count(g@, a@, g@, c, i as int)
                        < open_count(a@, a@, g@, c, 5) {
                        open_count(g@, a@, g@, c, i as int)
                    } else {
                        open_count(a@, a@, g@, c, 5)
                    },
                forall|j: int| 0 <= j < i ==> hits@[j] == feedback_at(a@, g@, j),
            decreases WORD_LEN - i,
        {
            let ghost old_used = used@;
            let ghost ii = i as int;
            proof {
                assert forall|c: char| #[trigger]
                    open_count(g@, a@, g@, c, ii + 1) == open_count(g@, a@, g@, c, ii) + if g@[ii]
                        == c && a@[ii] != g@[ii] {
                        1nat
                    } else {
                        0nat
                    } by {
                    lemma_open_count_step(g@, a@, g@, c, ii);
                }
            }
            if a[i] == g[i] {
                hits.push(Correctness::Correct);
            } else {
                let c = g[i];
                let mut k: usize = 0;
                while k < WORD_LEN && !(a[k] == c && !used[k])
                    invariant
                        a@.len() == WORD_LEN,
                        used@.len() == WORD_LEN,
                        k <= WORD_LEN,
                        forall|j: int| 0 <= j < k ==> !(a@[j] == c && !used@[j]),
                    decreases WORD_LEN - k,
                {
                    k += 1;
                }
                proof {
                    lemma_credited_bounded(a@, g@, used@, c, 5);
                    if k < WORD_LEN {
                        assert(a@[k as int] != g@[k as int]);
                        assert(is_free(a@, g@, used@, c, k as int));
                    } else {
                        assert forall|j: int| 0 <= j < 5 implies !is_free(a@, g@, used@, c, j) by {
                            assert(!(a@[j] == c && !used@[j]));
                        }
                    }
                }
                if k < WORD_LEN {
                    used.set(k, true);
                    hits.push(Correctness::Misplaced);
                    proof {
                        assert forall|c2: char| #[trigger]
                            credited_count(a@, g@, used@, c2, 5) == credited_count(
                                a@,
                                g@,
                                old_used,
                                c2,
                                5,
                            ) + if c2 == c {
                                1nat
                            } else {
                                0nat
                            } by {
                            lemma_credit_one(a@, g@, old_used, k as int, c2, 5);
                            assert(used@ == old_used.update(k as int, true));
                        }
                    }
                } else {
                    hits.push(Correctness::Wrong);
                }
            }
            i += 1;
        }
        let r = [hits[0], hits[1], hits[2], hits[3], hits[4]];
        assert(r@ =~= feedback(answer@, guess@));
        r
    }
}

} // verus!
