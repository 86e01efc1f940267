//! The reference strategy: keep every dictionary word that is still
//! possible, and propose the most frequent one.
use vstd::prelude::*;

use crate::game::{entries_of, Guesser, Wordle};
use crate::guess::{consistent, Guess};
use crate::word::WORD_LEN;

verus! {

/// A guesser that narrows its candidates with each feedback and proposes
/// the candidate of highest frequency, the earliest in dictionary order
/// among equals.
pub struct Naive {
    words: Vec<String>,
    frequencies: Vec<u64>,
}

/// Index of the candidate to propose: one of highest frequency, and no
/// earlier candidate as frequent.
pub open spec fn is_best(cands: Seq<(Seq<char>, u64)>, b: int) -> bool {
    &&& 0 <= b < cands.len()
    &&& forall|k: int| 0 <= k < cands.len() ==> (#[trigger] cands[k]).1 <= cands[b].1
    &&& forall|k: int| 0 <= k < b ==> (#[trigger] cands[k]).1 < cands[b].1
}

/// At most one index is best, so the proposal depends on the candidates
/// alone: two guessers with the same candidates propose the same word.
pub proof fn lemma_best_is_unique(cands: Seq<(Seq<char>, u64)>, b1: int, b2: int)
    requires
        is_best(cands, b1),
        is_best(cands, b2),
    ensures
        b1 == b2,
{
    if b1 < b2 {
        assert(cands[b1].1 < cands[b2].1);
        assert(cands[b1].1 <= cands[b1].1);
    } else if b2 < b1 {
        assert(cands[b2].1 < cands[b1].1);
    }
}

impl Naive {
    #[verifier::type_invariant]
    spec fn inv(self) -> bool {
        &&& self.words@.len() == self.frequencies@.len()
        &&& forall|i: int| 0 <= i < self.words@.len() ==> (#[trigger] self.words@[i])@.len() == WORD_LEN
    }

    /// The remaining candidates with their frequencies, in dictionary order.
    pub closed spec fn candidates(&self) -> Seq<(Seq<char>, u64)> {
        entries_of(self.words@, self.frequencies@)
    }

    /// A guesser whose candidates are the whole dictionary.
    pub fn new(wordle: &Wordle) -> (r: Naive)
        requires
            wordle.wf(),
        ensures
            r.candidates() == wordle.entries(),
    {
        let mut words: Vec<String> = Vec::new();
        let mut frequencies: Vec<u64> = Vec::new();
        let mut i: usize = 0;
        while i < wordle.words.len()
            invariant
                wordle.wf(),
                i <= wordle.words@.len(),
                words@.len() == i,
                frequencies@.len() == i,
                forall|k: int| 0 <= k < i ==> (#[trigger] words@[k]) == wordle.words@[k],
                forall|k: int| 0 <= k < i ==> (#[trigger] frequencies@[k]) == wordle.frequencies@[k],
            decreases wordle.words@.len() - i,
        {
            words.push(wordle.words[i].clone());
            frequencies.push(wordle.frequencies[i]);
            i += 1;
        }
        let r = Naive { words, frequencies };
        assert(r.candidates() =~= wordle.entries());
        r
    }

    /// Drops the candidates that `last` rules out, keeping the order of the
    /// others.
    pub fn prune(&mut self, last: &Guess)
        requires
            last.wf(),
        ensures
            final(self).candidates() == old(self).candidates().filter(
                |e: (Seq<char>, u64)| consistent(last.word@, last.mask@, e.0),
            ),
    {
        proof {
            use_type_invariant(&*self);
        }
        let ghost pred = |e: (Seq<char>, u64)| consistent(last.word@, last.mask@, e.0);
        let ghost cands = self.candidates();
        let mut words: Vec<String> = Vec::new();
        let mut frequencies: Vec<u64> = Vec::new();
        let mut i: usize = 0;
        while i < self.words.len()
            invariant
                last.wf(),
                cands == self.candidates(),
                pred == (|e: (Seq<char>, u64)| consistent(last.word@, last.mask@, e.0)),
                self.words@.len() == self.frequencies@.len(),
                forall|k: int| 0 <= k < self.words@.len() ==> (#[trigger] self.words@[k])@.len() == WORD_LEN,
                i <= self.words@.len(),
                words@.len() == frequencies@.len(),
                forall|k: int| 0 <= k < words@.len() ==> (#[trigger] words@[k])@.len() == WORD_LEN,
                entries_of(words@, frequencies@) == cands.subrange(0, i as int).filter(pred),
            decreases self.words@.len() - i,
        {
            let ghost before = entries_of(words@, frequencies@);
            assert(cands.subrange(0, i + 1).drop_last() =~= cands.subrange(0, i as int));
            assert(cands.subrange(0, i + 1).last() == cands[i as int]);
            proof {
                reveal(Seq::filter);
                let next = cands.subrange(0, i + 1);
                assert(next.filter(pred) == (if pred(next.last()) {
                    next.drop_last().filter(pred).push(next.last())
                } else {
                    next.drop_last().filter(pred)
                }));
                assert(cands[i as int].0 == self.words@[i as int]@);
            }
            if last.matches(self.words[i].as_str()) {
                words.push(self.words[i].clone());
                frequencies.push(self.frequencies[i]);
                assert(entries_of(words@, frequencies@) =~= before.push(cands[i as int]));
            } else {
                assert(entries_of(words@, frequencies@) =~= before);
            }
            i += 1;
        }
        assert(cands.subrange(0, i as int) =~= cands);
        *self = Naive { words, frequencies };
    }

    /// The candidate to propose: the most frequent, the earliest among
    /// equals. Empty when no candidate is left.
    pub fn best(&self) -> (r: String)
        ensures
            self.candidates().len() == 0 ==> r@.len() == 0,
            self.candidates().len() > 0 ==> exists|b: int|
                is_best(self.candidates(), b) && r@ == self.candidates()[b].0,
    {
        proof {
            use_type_invariant(self);
        }
        let ghost cands = self.candidates();
        if self.words.len() == 0 {
            return String::new();
        }
        let mut b: usize = 0;
        let mut i: usize = 1;
        while i < self.words.len()
            invariant
                cands == self.candidates(),
                self.words@.len() == self.frequencies@.len(),
                1 <= i <= self.words@.len(),
                b < i,
                forall|k: int| 0 <= k < i ==> (#[trigger] cands[k]).1 <= cands[b as int].1,
                forall|k: int| 0 <= k < b ==> (#[trigger] cands[k]).1 < cands[b as int].1,
            decreases self.words@.len() - i,
        {
            if self.frequencies[i] > self.frequencies[b] {
                b = i;
            }
            i += 1;
        }
        assert(is_best(cands, b as int));
        self.words[b].clone()
    }
}

impl Guesser for Naive {
    /// Prunes by the latest guess, if any, then proposes the best
    /// candidate.
    fn guess(&mut self, history: &[Guess]) -> (r: String)
        ensures
            history@.len() > 0 ==> final(self).candidates() == old(self).candidates().filter(
                |e: (Seq<char>, u64)|
                    consistent(history@.last().word@, history@.last().mask@, e.0),
            ),
            history@.len() == 0 ==> final(self).candidates() == old(self).candidates(),
            final(self).candidates().len() == 0 ==> r@.len() == 0,
            final(self).candidates().len() > 0 ==> exists|b: int|
                is_best(final(self).candidates(), b) && r@ == final(self).candidates()[b].0,
    {
        if history.len() > 0 {
            self.prune(&history[history.len() - 1]);
        }
        self.best()
    }
}

} // verus!
