//! A past guess with its feedback, and the test of whether a candidate
//! word is still possible after it.
use vstd::prelude::*;

use crate::feedback::{all_correct, feedback, lemma_feedback_of_secret, Correctness};
use crate::word::WORD_LEN;

verus! {

/// A guessed word together with the feedback the referee gave it.
pub struct Guess {
    pub word: String,
    pub mask: [Correctness; 5],
}

impl Guess {
    /// A guess that the referee could have produced: a word of the game's
    /// length (the mask has that length by its type).
    pub open spec fn wf(&self) -> bool {
        self.word@.len() == WORD_LEN
    }
}

/// Whether `cand` could still be the secret after `word` was guessed and
/// answered with `mask`: taken as the secret, it earns `word` exactly that
/// feedback.
pub open spec fn consistent(word: Seq<char>, mask: Seq<Correctness>, cand: Seq<char>) -> bool {
    feedback(cand, word) == mask
}

/// A guess answered all green admits its own word and no other.
pub proof fn lemma_all_green_admits_only_itself(w: Seq<char>, cand: Seq<char>)
    requires
        w.len() == 5,
        cand.len() == 5,
    ensures
        consistent(w, all_correct(), cand) <==> cand == w,
{
    if cand == w {
        lemma_feedback_of_secret(w);
    }
    if consistent(w, all_correct(), cand) {
        assert forall|i: int| 0 <= i < 5 implies cand[i] == w[i] by {
            assert(feedback(cand, w)[i] == all_correct()[i]);
        }
        assert(cand =~= w);
    }
}

impl Guess {
    /// Whether `word` could still be the secret, given that `self.word` was
    /// guessed and answered with `self.mask`.
    pub fn matches(&self, word: &str) -> (r: bool)
        requires
            self.wf(),
            word@.len() == WORD_LEN,
        ensures
            r == consistent(self.word@, self.mask@, word@),
    {
        let f = Correctness::compute(word, self.word.as_str());
        let mut i: usize = 0;
        while i < WORD_LEN
            invariant
                i <= WORD_LEN,
                f@ == feedback(word@, self.word@),
                forall|k: int| 0 <= k < i ==> f@[k] == self.mask@[k],
            decreases WORD_LEN - i,
        {
            if f[i] != self.mask[i] {
                assert(f@[i as int] != self.mask@[i as int]);
                return false;
            }
            i += 1;
        }
        assert(f@ =~= self.mask@);
        true
    }
}

} // verus!
