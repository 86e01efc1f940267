use wordle_from_roget::algorithms::Naive;
use wordle_from_roget::Correctness::{Correct as C, Misplaced as M, Wrong as W};
use wordle_from_roget::{Guess, Guesser, InvalidGuess, Round, Wordle};

const DICTIONARY: &str = "moved 120\nright 90\nwrong 40\n";

struct Scripted {
    right_at: usize,
}

impl Guesser for Scripted {
    fn guess(&mut self, history: &[Guess]) -> String {
        if history.len() == self.right_at {
            "right".to_string()
        } else {
            "wrong".to_string()
        }
    }
}

struct Always(&'static str);

impl Guesser for Always {
    fn guess(&mut self, _history: &[Guess]) -> String {
        self.0.to_string()
    }
}

fn wordle() -> Wordle {
    Wordle::new(DICTIONARY).unwrap()
}

#[test]
fn test_first_try_match() {
    let w = wordle();
    assert_eq!(w.play("moved", Always("moved")), Ok(Some(1)));
}

#[test]
fn test_second_try_match() {
    let w = wordle();
    assert_eq!(w.play("right", Scripted { right_at: 1 }), Ok(Some(2)));
}

#[test]
fn test_third_try_match() {
    let w = wordle();
    assert_eq!(w.play("right", Scripted { right_at: 2 }), Ok(Some(3)));
}

#[test]
fn test_fourth_try_match() {
    let w = wordle();
    assert_eq!(w.play("right", Scripted { right_at: 3 }), Ok(Some(4)));
}

#[test]
fn test_fifth_try_match() {
    let w = wordle();
    assert_eq!(w.play("right", Scripted { right_at: 4 }), Ok(Some(5)));
}

#[test]
fn test_sixth_try_match() {
    let w = wordle();
    assert_eq!(w.play("right", Scripted { right_at: 5 }), Ok(Some(6)));
}

#[test]
fn test_no_match_found() {
    let w = wordle();
    assert_eq!(w.play("right", Always("wrong")), Ok(None));
}

#[test]
fn last_round_still_counts() {
    let w = wordle();
    assert_eq!(w.play("right", Scripted { right_at: 31 }), Ok(Some(32)));
    assert_eq!(w.play("right", Scripted { right_at: 32 }), Ok(None));
}

#[test]
fn guess_outside_dictionary_stops_the_game() {
    let w = wordle();
    assert_eq!(
        w.play("right", Always("zzzzz")),
        Err(InvalidGuess {
            round: 1,
            word: "zzzzz".to_string()
        })
    );
    assert_eq!(
        w.play("right", Always("wron")),
        Err(InvalidGuess {
            round: 1,
            word: "wron".to_string()
        })
    );
}

#[test]
fn secret_outside_dictionary_can_still_be_guessed() {
    let w = wordle();
    assert_eq!(w.play("zzzzz", Always("zzzzz")), Ok(Some(1)));
}

#[test]
fn dictionary_records_are_checked() {
    assert!(Wordle::new("").is_some());
    assert!(Wordle::new("abcde 0").is_some());
    assert!(Wordle::new("abcde 18446744073709551615\n").is_some());
    assert!(Wordle::new("abcde 18446744073709551616\n").is_none());
    assert!(Wordle::new("abcd 12\n").is_none());
    assert!(Wordle::new("abcdef 12\n").is_none());
    assert!(Wordle::new("Abcde 12\n").is_none());
    assert!(Wordle::new("abcde\n").is_none());
    assert!(Wordle::new("abcde \n").is_none());
    assert!(Wordle::new("abcde  1\n").is_none());
    assert!(Wordle::new("abcde 1x\n").is_none());
    assert!(Wordle::new("abcde 1\n\nfghij 2\n").is_none());
}

#[test]
fn dictionary_words_are_playable() {
    let w = Wordle::new("abcde 1\nfghij 2").unwrap();
    assert_eq!(w.play("abcde", Always("fghij")), Ok(None));
    assert_eq!(
        w.play("abcde", Always("fghik")),
        Err(InvalidGuess {
            round: 1,
            word: "fghik".to_string()
        })
    );
}

#[test]
fn naive_proposes_most_frequent_then_narrows() {
    let w = Wordle::new("abcde 5\nfghij 9\nfghik 9\nxyzab 1\n").unwrap();
    assert_eq!(w.play("xyzab", Naive::new(&w)), Ok(Some(3)));
    assert_eq!(w.play("fghij", Naive::new(&w)), Ok(Some(1)));
    assert_eq!(w.play("fghik", Naive::new(&w)), Ok(Some(2)));
}

#[test]
fn naive_first_guess_prefers_earliest_among_equals() {
    let w = Wordle::new("abcde 5\nfghij 9\nfghik 9\n").unwrap();
    let mut n = Naive::new(&w);
    assert_eq!(n.guess(&[]), "fghij".to_string());
}

#[test]
fn naive_on_empty_dictionary_proposes_nothing() {
    let w = Wordle::new("").unwrap();
    let mut n = Naive::new(&w);
    assert_eq!(n.guess(&[]), String::new());
}

#[test]
fn dictionary_rejects_repeated_words() {
    assert!(Wordle::new("abcde 1\nfghij 2\nabcde 3\n").is_none());
    assert!(Wordle::new("abcde 1\nabcdf 2\n").is_some());
}

#[test]
fn judge_decides_each_round() {
    let w = wordle();
    assert_eq!(w.judge("right", "right", 4), Round::Found(4));
    assert_eq!(w.judge("right", "zzzzz", 2), Round::Invalid);
    assert_eq!(w.judge("right", "wrong", 1), Round::Next([W, M, W, W, M]));
    assert_eq!(w.judge("moved", "right", 1), Round::Next([W, W, W, W, W]));
    assert_eq!(w.judge("wrong", "wrong", 7), Round::Found(7));
}

struct Recorder {
    seen: Vec<(String, [wordle_from_roget::Correctness; 5])>,
    calls: usize,
}

impl Guesser for Recorder {
    fn guess(&mut self, history: &[Guess]) -> String {
        assert_eq!(history.len(), self.calls);
        for (k, g) in history.iter().enumerate() {
            assert_eq!(g.word, self.seen[k].0);
            assert_eq!(g.mask, self.seen[k].1);
        }
        self.calls += 1;
        let word = if self.calls % 2 == 0 { "moved" } else { "wrong" };
        let mask = wordle_from_roget::Correctness::compute("right", word);
        self.seen.push((word.to_string(), mask));
        word.to_string()
    }
}

#[test]
fn history_holds_past_guesses_with_their_feedback() {
    let w = wordle();
    let r = Recorder { seen: Vec::new(), calls: 0 };
    assert_eq!(w.play("right", r), Ok(None));
}

#[test]
fn naive_guessers_with_same_history_agree() {
    let w = Wordle::new("abcde 5\nfghij 9\nfghik 9\nxyzab 1\n").unwrap();
    let mut a = Naive::new(&w);
    let mut b = Naive::new(&w);
    let h = vec![Guess { word: "fghij".to_string(), mask: [W, W, W, W, W] }];
    assert_eq!(a.guess(&h), b.guess(&h));
    assert_eq!(a.guess(&h), "abcde".to_string());
    let h2 = vec![Guess { word: "fghij".to_string(), mask: [C, C, C, C, W] }];
    assert_eq!(Naive::new(&w).guess(&h2), "fghik".to_string());
}
