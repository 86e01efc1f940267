//! The referee: a dictionary of valid words and the game loop that plays a
//! guesser against a secret.
use vstd::prelude::*;
use vstd::string::StringSliceAdditionalSpecFns;

use crate::dictionary::{find_line_end, parse_dictionary, parse_record, records_from};
use crate::feedback::{feedback, Correctness};
use crate::guess::Guess;
use crate::word::{chars_of, same_chars, same_word, WORD_LEN};

verus! {

/// The most rounds a game lasts. Far more than the six of the physical
/// game, so that slow strategies can still be scored.
pub const MAX_ROUNDS: usize = 32;

/// A guessing strategy: given all the guesses so far with their feedback,
/// in order, it proposes the next word.
// There is no impl for plain `fn(&[Guess]) -> String` values: Verus does not
// support function pointer types. Wrap such a function in a struct.
pub trait Guesser {
    fn guess(&mut self, history: &[Guess]) -> (r: String)
        requires
            forall|i: int| 0 <= i < history@.len() ==> (#[trigger] history@[i]).wf(),
    ;
}

/// The game's dictionary: the valid words, each with its frequency.
pub struct Wordle {
    pub(crate) words: Vec<String>,
    pub(crate) frequencies: Vec<u64>,
}

/// Why a game was stopped: the guesser proposed a word that is neither the
/// secret nor in the dictionary.
#[derive(Debug, PartialEq, Eq)]
pub struct InvalidGuess {
    /// The round, counted from 1, in which the word was proposed.
    pub round: usize,
    /// The word proposed.
    pub word: String,
}

/// What the referee makes of one proposed word.
#[derive(Debug, PartialEq, Eq)]
pub enum Round {
    /// The word is the secret: the game is won in this round.
    Found(usize),
    /// The word is neither the secret nor in the dictionary.
    Invalid,
    /// A dictionary word other than the secret, with the feedback it earns.
    Next([Correctness; 5]),
}

/// No word occurs in two entries.
pub open spec fn distinct_words(e: Seq<(Seq<char>, u64)>) -> bool {
    forall|i: int, j: int| 0 <= i < j < e.len() ==> (#[trigger] e[i]).0 != (#[trigger] e[j]).0
}

/// The entries that parallel lists of words and frequencies hold.
pub open spec fn entries_of(words: Seq<String>, frequencies: Seq<u64>) -> Seq<(Seq<char>, u64)> {
    Seq::new(words.len(), |i: int| (words[i]@, frequencies[i]))
}

/// The first index of `seen` that holds `letters`, if any.
fn position_of(seen: &Vec<Vec<char>>, letters: &Vec<char>) -> (r: Option<usize>)
    ensures
        r matches Some(k) ==> k < seen@.len() && seen@[k as int]@ == letters@,
        r is None ==> forall|k: int| 0 <= k < seen@.len() ==> (#[trigger] seen@[k])@ != letters@,
{
    let mut k: usize = 0;
    while k < seen.len()
        invariant
            k <= seen@.len(),
            forall|j: int| 0 <= j < k ==> (#[trigger] seen@[j])@ != letters@,
        decreases seen@.len() - k,
    {
        if same_chars(&seen[k], letters) {
            return Some(k);
        }
        k += 1;
    }
    None
}

impl Wordle {
    /// The dictionary's entries, word and frequency, in the order of its
    /// records.
    pub open(crate) spec fn entries(&self) -> Seq<(Seq<char>, u64)> {
        entries_of(self.words@, self.frequencies@)
    }

    /// The words of the dictionary, in the order of its records.
    pub open(crate) spec fn dictionary(&self) -> Seq<Seq<char>> {
        Seq::new(self.words@.len(), |i: int| self.words@[i]@)
    }

    /// One frequency per word, every word of the game's length, and no word
    /// twice.
    pub open(crate) spec fn wf(&self) -> bool {
        &&& self.words@.len() == self.frequencies@.len()
        &&& forall|i: int| 0 <= i < self.words@.len() ==> (#[trigger] self.words@[i])@.len() == WORD_LEN
        &&& distinct_words(self.entries())
    }

    /// Builds the dictionary from its text, one `<word> <frequency>` record
    /// per line. `None` when a record is malformed or a word occurs twice.
    pub fn new(dictionary: &str) -> (r: Option<Wordle>)
        ensures
            r is Some <==> (parse_dictionary(dictionary.spec_bytes()) matches Some(e)
                && distinct_words(e)),
            r matches Some(w) ==> w.wf() && parse_dictionary(dictionary.spec_bytes()) == Some(
                w.entries(),
            ),
    {
        let t = dictionary.as_bytes();
        let n = t.len();
        let mut words: Vec<String> = Vec::new();
        let mut frequencies: Vec<u64> = Vec::new();
        let mut seen: Vec<Vec<char>> = Vec::new();
        let mut pos: usize = 0;
        while pos < n
            invariant
                t@ == dictionary.spec_bytes(),
                n == t@.len(),
                pos <= n,
                words@.len() == frequencies@.len(),
                forall|i: int| 0 <= i < words@.len() ==> (#[trigger] words@[i])@.len() == WORD_LEN,
                seen@.len() == words@.len(),
                forall|i: int| 0 <= i < words@.len() ==> (#[trigger] seen@[i])@ == words@[i]@,
                distinct_words(entries_of(words@, frequencies@)),
                match records_from(t@, pos as int) {
                    Some(rest) => parse_dictionary(t@) == Some(
                        entries_of(words@, frequencies@) + rest,
                    ),
                    None => parse_dictionary(t@) is None,
                },
            decreases n - pos,
        {
            let e = find_line_end(t, pos);
            let ghost acc = entries_of(words@, frequencies@);
            match parse_record(t, pos, e) {
                None => {
                    return None;
                },
                Some((word, frequency)) => {
                    let ghost entry = (word@, frequency);
                    let letters = chars_of(word.as_str());
                    if let Some(k) = position_of(&seen, &letters) {
                        proof {
                            if let Some(rest) = records_from(t@, pos as int) {
                                let all = acc + rest;
                                assert(rest[0] == entry);
                                assert(all[k as int] == acc[k as int]);
                                assert(all[acc.len() as int] == entry);
                                assert(!distinct_words(all));
                            }
                        }
                        return None;
                    }
                    seen.push(letters);
                    words.push(word);
                    frequencies.push(frequency);
                    assert(entries_of(words@, frequencies@) =~= acc.push(entry));
                    assert(distinct_words(entries_of(words@, frequencies@))) by {
                        assert forall|a: int, b: int|
                            0 <= a < b < acc.len() + 1 implies acc.push(entry)[a].0 != acc.push(
                            entry,
                        )[b].0 by {
                            if b == acc.len() {
                                assert(seen@[a]@ == words@[a]@);
                            }
                        }
                    }
                    if e == n {
                        pos = n;
                        assert(acc + seq![entry] =~= acc.push(entry) + Seq::empty());
                    } else {
                        pos = e + 1;
                        proof {
                            if let Some(rest) = records_from(t@, pos as int) {
                                assert(acc + (seq![entry] + rest) =~= acc.push(entry) + rest);
                            }
                        }
                    }
                },
            }
        }
        let w = Wordle { words, frequencies };
        assert(entries_of(w.words@, w.frequencies@) + Seq::empty() =~= w.entries());
        Some(w)
    }

    /// Whether `word` is in the dictionary.
    pub fn contains(&self, word: &str) -> (r: bool)
        ensures
            r == self.dictionary().contains(word@),
    {
        let mut i: usize = 0;
        while i < self.words.len()
            invariant
                i <= self.words@.len(),
                forall|k: int| 0 <= k < i ==> self.words@[k]@ != word@,
            decreases self.words@.len() - i,
        {
            if same_word(self.words[i].as_str(), word) {
                assert(self.dictionary()[i as int] == word@);
                return true;
            }
            i += 1;
        }
        assert(!self.dictionary().contains(word@)) by {
            if self.dictionary().contains(word@) {
                let k = choose|k: int| 0 <= k < self.dictionary().len() && self.dictionary()[k] == word@;
                assert(self.words@[k]@ == word@);
            }
        }
        false
    }

    /// The referee's decision on `word`, proposed in round `round` of a game
    /// whose secret is `answer`.
    pub fn judge(&self, answer: &str, word: &str, round: usize) -> (r: Round)
        requires
            self.wf(),
            answer@.len() == WORD_LEN,
        ensures
            word@ == answer@ ==> r == Round::Found(round),
            word@ != answer@ && !self.dictionary().contains(word@) ==> r == Round::Invalid,
            word@ != answer@ && self.dictionary().contains(word@) ==> (r matches Round::Next(m)
                && m@ == feedback(answer@, word@)),
    {
        if same_word(word, answer) {
            return Round::Found(round);
        }
        if !self.contains(word) {
            return Round::Invalid;
        }
        proof {
            let k = choose|k: int| 0 <= k < self.dictionary().len() && self.dictionary()[k] == word@;
            assert(self.words@[k]@.len() == WORD_LEN);
        }
        Round::Next(Correctness::compute(answer, word))
    }

    /// Plays `guesser` against the secret `answer` for at most
    /// `MAX_ROUNDS` rounds. Each round the guesser sees the history so far;
    /// a guess equal to the secret ends the game with the round's number. A
    /// guess outside the dictionary stops the game with an error, the
    /// guesser being at fault; any other guess is answered with its
    /// feedback, which joins the history. `None` when no round found the
    /// secret.
    pub fn play<G: Guesser>(&self, answer: &str, mut guesser: G) -> (r: Result<
        Option<usize>,
        InvalidGuess,
    >)
        requires
            self.wf(),
            answer@.len() == WORD_LEN,
        ensures
            r matches Err(e) ==> 1 <= e.round <= MAX_ROUNDS && e.word@ != answer@
                && !self.dictionary().contains(e.word@),
            r matches Ok(Some(n)) ==> 1 <= n <= MAX_ROUNDS,
    {
        let mut history: Vec<Guess> = Vec::new();
        let mut i: usize = 1;
        while i <= MAX_ROUNDS
            invariant
                1 <= i <= MAX_ROUNDS + 1,
                self.wf(),
                answer@.len() == WORD_LEN,
                history@.len() == i - 1,
                forall|k: int| 0 <= k < history@.len() ==> (#[trigger] history@[k]).wf(),
                forall|k: int|
                    0 <= k < history@.len() ==> (#[trigger] history@[k]).mask@ == feedback(
                        answer@,
                        history@[k].word@,
                    ),
            decreases MAX_ROUNDS + 1 - i,
        {
            let word = guesser.guess(history.as_slice());
            match self.judge(answer, word.as_str(), i) {
                Round::Found(n) => {
                    return Ok(Some(n));
                },
                Round::Invalid => {
                    return Err(InvalidGuess { round: i, word });
                },
                Round::Next(mask) => {
                    proof {
                        let k = choose|k: int|
                            0 <= k < self.dictionary().len() && self.dictionary()[k] == word@;
                        assert(self.words@[k]@.len() == WORD_LEN);
                    }
                    history.push(Guess { word, mask });
                },
            }
            i += 1;
        }
        Ok(None)
    }
}

} // verus!
