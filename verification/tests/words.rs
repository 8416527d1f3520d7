use rs_wordle_solver::data::GroupedWords;
use rs_wordle_solver::{
    get_result_for_guess, GuessResult, LetterResult, WordBank, WordRestrictions, WordleError,
};
use std::sync::Arc;

use LetterResult::{Correct, NotPresent, PresentNotHere};

fn texts(words: &[Arc<str>]) -> Vec<&str> {
    words.iter().map(|word| word.as_ref()).collect()
}

#[test]
fn all_letters_of_the_word_itself_are_correct() {
    let result = get_result_for_guess("piano", "piano").unwrap();
    assert_eq!(result.guess, "piano");
    assert_eq!(result.results, vec![Correct; 5]);
}

#[test]
fn misplaced_letters_are_present() {
    let result = get_result_for_guess("abb", "bba").unwrap();
    assert_eq!(result.results, vec![PresentNotHere, Correct, PresentNotHere]);
}

#[test]
fn repeated_letters_are_present_as_often_as_the_word_has_them() {
    let result = get_result_for_guess("abc", "aab").unwrap();
    assert_eq!(result.results, vec![Correct, NotPresent, PresentNotHere]);
    let result = get_result_for_guess("xyaa", "aazz").unwrap();
    assert_eq!(result.results, vec![PresentNotHere, PresentNotHere, NotPresent, NotPresent]);
    let result = get_result_for_guess("xyza", "aazz").unwrap();
    assert_eq!(result.results, vec![PresentNotHere, NotPresent, Correct, NotPresent]);
}

#[test]
fn letters_are_counted_not_bytes() {
    let result = get_result_for_guess("né", "én").unwrap();
    assert_eq!(result.results, vec![PresentNotHere, PresentNotHere]);
}

#[test]
fn guesses_of_another_length_have_no_result() {
    let error = get_result_for_guess("abc", "abcd").unwrap_err();
    assert_eq!(error, WordleError::WordLength(3));
}

#[test]
fn bank_keeps_words_of_one_length() {
    let bank = WordBank::from_iterator(&["abc", "def"]).unwrap();
    assert_eq!(bank.word_length(), 3);
    assert_eq!(bank.clone().word_length(), 3);
    assert_eq!(WordBank::from_iterator(&[]).unwrap().word_length(), 0);
}

#[test]
fn bank_rejects_words_of_other_lengths() {
    let error = WordBank::from_iterator(&["abc", "def", "long"]).unwrap_err();
    assert_eq!(error, WordleError::WordLength(3));
}

#[test]
fn restrictions_accept_words_that_agree_with_all_results() {
    let mut restrictions = WordRestrictions::new(3);
    assert!(restrictions.is_satisfied_by("abc"));
    assert!(!restrictions.is_satisfied_by("abcd"));
    restrictions
        .update(&GuessResult { guess: "abc", results: vec![Correct, NotPresent, PresentNotHere] })
        .unwrap();
    assert!(restrictions.is_satisfied_by("acd"));
    assert!(!restrictions.is_satisfied_by("abc"));
    assert!(!restrictions.is_satisfied_by("add"));
    assert!(!restrictions.is_satisfied_by("adc"));
    let copy = restrictions.clone();
    restrictions
        .update(&GuessResult { guess: "acd", results: vec![Correct, Correct, NotPresent] })
        .unwrap();
    assert!(!restrictions.is_satisfied_by("acd"));
    assert!(restrictions.is_satisfied_by("ace"));
    assert!(copy.is_satisfied_by("acd"));
}

#[test]
fn restrictions_reject_faulty_results() {
    let mut restrictions = WordRestrictions::new(3);
    let outcome = restrictions.update(&GuessResult { guess: "abcd", results: vec![Correct; 4] });
    assert_eq!(outcome, Err(WordleError::WordLength(3)));
    let outcome = restrictions.update(&GuessResult { guess: "abc", results: vec![Correct; 2] });
    assert_eq!(outcome, Err(WordleError::InvalidResults));
    assert!(restrictions.is_satisfied_by("xyz"));
}

#[test]
fn correct_guess_leaves_only_itself() {
    let mut restrictions = WordRestrictions::new(3);
    restrictions.update(&GuessResult { guess: "abc", results: vec![Correct; 3] }).unwrap();
    assert!(restrictions.is_satisfied_by("abc"));
    assert!(!restrictions.is_satisfied_by("abd"));
}

#[test]
fn groups_follow_guesses_and_results() {
    let bank = WordBank::from_iterator(&["abc", "abd", "xyz", "xbz"]).unwrap();
    let mut groups = GroupedWords::new(bank);
    assert_eq!(texts(groups.possible_words()), ["abc", "abd", "xyz", "xbz"]);
    assert_eq!(texts(groups.unguessed_words()), ["abc", "abd", "xyz", "xbz"]);
    assert!(groups.possible_words_lead());

    groups.remove_guess_if_present("abd");
    assert_eq!(texts(groups.possible_words()), ["abd", "abc", "xyz", "xbz"]);
    assert_eq!(texts(groups.unguessed_words()), ["abc", "xyz", "xbz"]);
    assert!(!groups.possible_words_lead());

    let mut restrictions = WordRestrictions::new(3);
    let result = get_result_for_guess("xbz", "abd").unwrap();
    restrictions.update(&result).unwrap();
    groups.filter_possible_words(&restrictions);
    assert_eq!(texts(groups.possible_words()), ["xbz"]);
    assert_eq!(texts(groups.unguessed_words()), ["xbz", "abc", "xyz"]);
    assert_eq!(groups.num_possible_words(), 1);
    assert_eq!(groups.num_unguessed_words(), 3);
    assert!(groups.possible_words_lead());

    groups.remove_guess_if_present("abc");
    groups.remove_guess_if_present("not a word");
    assert_eq!(texts(groups.unguessed_words()), ["xbz", "xyz"]);
    assert_eq!(texts(groups.possible_words()), ["xbz"]);
    assert_eq!(texts(groups.clone().unguessed_words()), ["xbz", "xyz"]);
}

#[test]
fn equal_words_are_guessed_together() {
    let bank = WordBank::from_iterator(&["abc", "xyz", "abc", "xbz"]).unwrap();
    let mut groups = GroupedWords::new(bank);
    groups.remove_guess_if_present("abc");
    assert_eq!(texts(groups.possible_words()), ["abc", "abc", "xyz", "xbz"]);
    assert_eq!(texts(groups.unguessed_words()), ["xyz", "xbz"]);
    groups.remove_guess_if_present("ab");
    groups.remove_guess_if_present("abcd");
    assert_eq!(texts(groups.unguessed_words()), ["xyz", "xbz"]);

    // The words that are not possible are guessed together as well.
    let bank = WordBank::from_iterator(&["abc", "xyz", "abc", "xbz"]).unwrap();
    let mut groups = GroupedWords::new(bank);
    let mut restrictions = WordRestrictions::new(3);
    restrictions.update(&get_result_for_guess("xbz", "xyz").unwrap()).unwrap();
    groups.filter_possible_words(&restrictions);
    assert_eq!(texts(groups.unguessed_words()), ["xbz", "abc", "xyz", "abc"]);
    groups.remove_guess_if_present("abc");
    assert_eq!(texts(groups.possible_words()), ["xbz"]);
    assert_eq!(texts(groups.unguessed_words()), ["xbz", "xyz"]);
}

#[test]
fn groups_can_be_taken_apart_and_put_together() {
    let bank = WordBank::from_iterator(&["abc", "abd", "xyz"]).unwrap();
    let mut groups = GroupedWords::new(bank);
    groups.remove_guess_if_present("xyz");
    let (words, num_spent, num_possible) = groups.into_parts();
    assert_eq!(texts(&words), ["xyz", "abc", "abd"]);
    assert_eq!((num_spent, num_possible), (1, 3));
    let groups = GroupedWords::from_parts(words, num_spent, num_possible).unwrap();
    assert_eq!(texts(groups.possible_words()), ["xyz", "abc", "abd"]);
    assert_eq!(texts(groups.unguessed_words()), ["abc", "abd"]);
    assert!(GroupedWords::from_parts(Vec::new(), 0, 1).is_none());
    assert!(GroupedWords::from_parts(vec![Arc::from("abc")], 1, 0).is_none());
}

#[test]
fn restrictions_can_be_taken_apart_and_put_together() {
    let mut restrictions = WordRestrictions::new(3);
    restrictions
        .update(&GuessResult { guess: "abc", results: vec![Correct, NotPresent, PresentNotHere] })
        .unwrap();
    let (word_length, findings) = restrictions.into_parts();
    assert_eq!(word_length, 3);
    assert_eq!(findings, vec![(vec!['a', 'b', 'c'], vec![Correct, NotPresent, PresentNotHere])]);
    let restrictions = WordRestrictions::from_parts(word_length, findings);
    assert!(restrictions.is_satisfied_by("acd"));
    assert!(!restrictions.is_satisfied_by("abc"));
}
