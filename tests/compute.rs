use wordle_from_roget::Correctness;
use wordle_from_roget::Correctness::{Correct as C, Misplaced as M, Wrong as W};

#[test]
fn test_if_all_correct() {
    let (answer, guess) = ("abcde", "abcde");
    assert_eq!(Correctness::compute(answer, guess), [C, C, C, C, C])
}

#[test]
fn test_if_it_finds_all_misplaced_chars() {
    let (answer, guess) = ("abcde", "bcdea");
    assert_eq!(Correctness::compute(answer, guess), [M, M, M, M, M])
}

#[test]
fn test_if_it_finds_all_wrongs_chars() {
    let (answer, guess) = ("aaaaa", "bbbbb");
    assert_eq!(Correctness::compute(answer, guess), [W, W, W, W, W])
}

#[test]
fn test_if_finds_only_one_correct() {
    let (answer, guess) = ("abcde", "edcba");
    assert_eq!(Correctness::compute(answer, guess), [M, M, C, M, M])
}

#[test]
fn test_if_it_finds_misplaced_chars_with_right_and_wrong_chars() {
    let (answer, guess) = ("aabbc", "ababw");
    assert_eq!(Correctness::compute(answer, guess), [C, M, M, C, W])
}

#[test]
fn repeated_letters_against_themselves_are_all_green() {
    assert_eq!(Correctness::compute("aabba", "aabba"), [C, C, C, C, C]);
}

#[test]
fn a_secret_letter_is_credited_once() {
    // One 'e' in the secret: only the first unmatched 'e' of the guess is yellow.
    assert_eq!(Correctness::compute("crane", "eerie"), [W, W, M, W, C]);
    assert_eq!(Correctness::compute("abcde", "eeeee"), [W, W, W, W, C]);
    assert_eq!(Correctness::compute("eabcd", "xeeee"), [W, M, W, W, W]);
}

#[test]
fn feedback_is_not_symmetric() {
    assert_eq!(Correctness::compute("aabbc", "ababw"), [C, M, M, C, W]);
    assert_eq!(Correctness::compute("ababw", "aabbc"), [C, M, M, C, W]);
    assert_eq!(Correctness::compute("aaaab", "abbbb"), [C, W, W, W, C]);
    assert_eq!(Correctness::compute("abbbb", "aaaab"), [C, W, W, W, C]);
    assert_eq!(Correctness::compute("abcde", "aaaaa"), [C, W, W, W, W]);
    assert_eq!(Correctness::compute("baaaa", "abbbb"), [M, M, W, W, W]);
    assert_eq!(Correctness::compute("abbbb", "baaaa"), [M, M, W, W, W]);
}
