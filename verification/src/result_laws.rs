//! What holds of the results of guesses, and of the words that agree with them.
use vstd::prelude::*;

use crate::data::WordBank;
use crate::restrictions::{RestrictionsView, WordRestrictions};
use crate::results::{
    get_result_for_guess, letter_results, misplaced, unmatched, GuessResult, LetterResult,
    WordleError,
};

verus! {

/// Tells whether a letter of a guess, given with its result, is `letter` and was found in the word.
pub open spec fn found(letter: char) -> spec_fn((char, LetterResult)) -> bool {
    |entry: (char, LetterResult)| entry.0 == letter && entry.1 != LetterResult::NotPresent
}

/// How often a text holds a letter.
pub open spec fn occurrences(text: Seq<char>, letter: char) -> nat {
    text.to_multiset().count(letter)
}

/// One more letter of a text.
proof fn one_more_occurrence(text: Seq<char>, letter: char, end: int)
    requires
        0 < end <= text.len(),
    ensures
        occurrences(text.take(end), letter) == occurrences(text.take(end - 1), letter)
            + if text[end - 1] == letter {
            1nat
        } else {
            0nat
        },
{
    broadcast use vstd::seq_lib::group_to_multiset_ensures;
    assert(text.take(end) =~= text.take(end - 1).push(text[end - 1]));
}

/// Among the first letters of a guess, those that are here are found, and so are as many of the
/// others as the word has letters that the guess misses.
proof fn found_so_far(word: Seq<char>, guess: Seq<char>, letter: char, end: int)
    requires
        word.len() == guess.len(),
        0 <= end <= guess.len(),
    ensures
        ({
            let missed = misplaced(word, guess, letter, end);
            let available = unmatched(word, guess, letter, word.len() as int);
            let here = occurrences(guess.take(end), letter) - missed;
            let entries = guess.zip_with(letter_results(word, guess)).take(end);
            &&& entries.filter(found(letter)).len() == here + if missed < available {
                missed
            } else {
                available
            }
            &&& here == occurrences(word.take(end), letter) - unmatched(word, guess, letter, end)
        }),
    decreases end,
{
    let entries = guess.zip_with(letter_results(word, guess));
    reveal(Seq::filter);
    if end == 0 {
        broadcast use vstd::seq_lib::group_to_multiset_ensures;

        assert(guess.take(0) =~= Seq::empty());
        assert(word.take(0) =~= Seq::empty());
        assert(entries.take(0) =~= Seq::empty());
    } else {
        found_so_far(word, guess, letter, end - 1);
        one_more_occurrence(guess, letter, end);
        one_more_occurrence(word, letter, end);
        assert(entries.take(end).drop_last() =~= entries.take(end - 1));
        assert(entries.take(end).last() == (guess[end - 1], letter_results(word, guess)[end - 1]));
    }
}

/// A letter is found in the word as often as both the guess and the word hold it.
pub proof fn letters_are_found_as_often_as_both_hold_them(
    word: Seq<char>,
    guess: Seq<char>,
    letter: char,
)
    requires
        word.len() == guess.len(),
    ensures
        guess.zip_with(letter_results(word, guess)).filter(found(letter)).len() == if occurrences(
            guess,
            letter,
        ) < occurrences(word, letter) {
            occurrences(guess, letter)
        } else {
            occurrences(word, letter)
        },
{
    let entries = guess.zip_with(letter_results(word, guess));
    found_so_far(word, guess, letter, guess.len() as int);
    assert(guess.take(guess.len() as int) =~= guess);
    assert(word.take(word.len() as int) =~= word);
    assert(entries.take(guess.len() as int) =~= entries);
}

/// The number of misplaced letters does not fall.
proof fn misplaced_grows(word: Seq<char>, guess: Seq<char>, letter: char, i: int, j: int)
    requires
        0 <= i <= j,
    ensures
        misplaced(word, guess, letter, i) <= misplaced(word, guess, letter, j),
    decreases j,
{
    if i < j {
        misplaced_grows(word, guess, letter, i, j - 1);
    }
}

/// There is one result for each letter. A letter is correct exactly where the word holds it too. Of
/// equal letters that are not here, the earlier ones are found first.
pub proof fn each_letter_has_its_result(word: Seq<char>, guess: Seq<char>)
    requires
        word.len() == guess.len(),
    ensures
        letter_results(word, guess).len() == guess.len(),
        forall|i: int|
            0 <= i < guess.len() ==> (#[trigger] letter_results(word, guess)[i]
                == LetterResult::Correct <==> guess[i] == word[i]),
        forall|i: int, j: int|
            0 <= i < j < guess.len() && guess[i] == guess[j] && #[trigger] letter_results(
                word,
                guess,
            )[j] == LetterResult::PresentNotHere ==> #[trigger] letter_results(word, guess)[i]
                != LetterResult::NotPresent,
{
    assert forall|i: int, j: int|
        0 <= i < j < guess.len() && guess[i] == guess[j] && #[trigger] letter_results(
            word,
            guess,
        )[j] == LetterResult::PresentNotHere implies #[trigger] letter_results(word, guess)[i]
        != LetterResult::NotPresent by {
        misplaced_grows(word, guess, guess[j], i, j);
    }
}

/// What a call of [`get_result_for_guess`] gives: there is a result exactly where the lengths
/// agree, and it finds each letter as often as both texts hold it, the correct ones exactly where
/// the texts agree, and of the others the earlier ones first.
pub proof fn results_find_the_common_letters(
    objective: &str,
    guess: &str,
    result: Result<GuessResult<'_>, WordleError>,
)
    requires
        call_ensures(get_result_for_guess, (objective, guess), result),
    ensures
        result is Ok <==> objective@.len() == guess@.len(),
        result matches Err(error) ==> error == WordleError::WordLength(objective@.len() as usize),
        result matches Ok(result) ==> {
            &&& result.guess@ == guess@
            &&& result.results@.len() == guess@.len()
            &&& forall|i: int|
                0 <= i < guess@.len() ==> (#[trigger] result.results@[i] == LetterResult::Correct
                    <==> guess@[i] == objective@[i])
            &&& forall|letter: char|
                guess@.zip_with(result.results@).filter(#[trigger] found(letter)).len()
                    == if occurrences(guess@, letter) < occurrences(objective@, letter) {
                    occurrences(guess@, letter)
                } else {
                    occurrences(objective@, letter)
                }
            &&& forall|i: int, j: int|
                0 <= i < j < guess@.len() && guess@[i] == guess@[j]
                    && #[trigger] result.results@[j] == LetterResult::PresentNotHere
                    ==> #[trigger] result.results@[i] != LetterResult::NotPresent
        },
{
    if let Ok(result) = result {
        each_letter_has_its_result(objective@, guess@);
        assert forall|letter: char|
            guess@.zip_with(result.results@).filter(#[trigger] found(letter)).len()
                == if occurrences(guess@, letter) < occurrences(objective@, letter) {
                occurrences(guess@, letter)
            } else {
                occurrences(objective@, letter)
            } by {
            letters_are_found_as_often_as_both_hold_them(objective@, guess@, letter);
        }
    }
}

/// A letter that the guess holds once is not present exactly where the word does not hold it.
pub proof fn a_single_letter_is_present_if_the_word_holds_it(
    word: Seq<char>,
    guess: Seq<char>,
    i: int,
)
    requires
        word.len() == guess.len(),
        0 <= i < guess.len(),
        forall|j: int| 0 <= j < guess.len() && j != i ==> guess[j] != guess[i],
    ensures
        letter_results(word, guess)[i] == LetterResult::NotPresent <==> !word.contains(guess[i]),
{
    broadcast use vstd::seq_lib::group_to_multiset_ensures;

    let letter = guess[i];
    let entries = guess.zip_with(letter_results(word, guess));
    letters_are_found_as_often_as_both_hold_them(word, guess, letter);
    assert(guess.contains(letter));
    if letter_results(word, guess)[i] == LetterResult::NotPresent {
        if entries.filter(found(letter)).len() > 0 {
            let entry = entries.filter(found(letter))[0];
            entries.lemma_filter_pred(found(letter), 0);
            assert(entries.filter(found(letter)).contains(entry));
            entries.lemma_filter_contains_rev(found(letter), entry);
            let j = entries.index_of(entry);
            assert(entries[j] == (guess[j], letter_results(word, guess)[j]));
        }
    } else {
        assert(entries[i] == (letter, letter_results(word, guess)[i]));
        entries.lemma_filter_contains(found(letter), i);
    }
}

/// Restrictions without results are satisfied by all words of the right length, and by no others.
pub proof fn only_the_length_counts_at_first(word_length: u8, word: Seq<char>)
    ensures
        RestrictionsView::unrestricted(word_length).satisfied_by(word) <==> word.len()
            == word_length,
{
}

/// An update of restrictions succeeds exactly where the guess has the right length and one result
/// per letter. Then exactly those words satisfy the restrictions that did so before and would give
/// the guess the same results. Where it fails, the same words satisfy them as before.
pub proof fn updates_demand_the_same_results(
    restrictions: &mut WordRestrictions,
    result: &GuessResult<'_>,
    outcome: Result<(), WordleError>,
    word: Seq<char>,
)
    requires
        call_ensures(WordRestrictions::update, (restrictions, result), outcome),
    ensures
        final(restrictions)@.word_length == old(restrictions)@.word_length,
        outcome is Ok <==> result.guess@.len() == old(restrictions)@.word_length
            && result.results@.len() == old(restrictions)@.word_length,
        outcome matches Err(error) ==> error == if result.guess@.len() == old(
            restrictions,
        )@.word_length {
            WordleError::InvalidResults
        } else {
            WordleError::WordLength(old(restrictions)@.word_length as usize)
        },
        final(restrictions)@.satisfied_by(word) <==> old(restrictions)@.satisfied_by(word) && (
        outcome is Ok ==> letter_results(word, result.guess@) == result.results@),
{
    let before = old(restrictions)@;
    let after = final(restrictions)@;
    learnt_words_agree(before, result.guess@, result.results@, word);
}

/// What restrictions demand after taking up a result.
pub proof fn learnt_words_agree(
    restrictions: RestrictionsView,
    guess: Seq<char>,
    results: Seq<LetterResult>,
    word: Seq<char>,
)
    ensures
        restrictions.updated(guess, results).word_length == restrictions.word_length,
        restrictions.updated(guess, results).satisfied_by(word) <==> restrictions.satisfied_by(word)
            && (guess.len() == restrictions.word_length && results.len()
            == restrictions.word_length ==> letter_results(word, guess) == results),
{
    let after = restrictions.updated(guess, results);
    if guess.len() == restrictions.word_length && results.len() == restrictions.word_length {
        let last = restrictions.findings.len() as int;
        assert(after.findings[last] == (guess, results));
        if after.satisfied_by(word) {
            assert forall|k: int| 0 <= k < last implies #[trigger] restrictions.findings[k]
                == after.findings[k] by {}
        }
        if restrictions.satisfied_by(word) && letter_results(word, guess) == results {
            assert forall|k: int| 0 <= k < last implies #[trigger] after.findings[k]
                == restrictions.findings[k] by {}
        }
    }
}

/// New restrictions accept exactly the words of their length.
pub proof fn new_restrictions_accept_words_of_their_length(
    word_length: u8,
    restrictions: WordRestrictions,
    word: &str,
    satisfied: bool,
)
    requires
        call_ensures(WordRestrictions::new, (word_length,), restrictions),
        call_ensures(WordRestrictions::is_satisfied_by, (&restrictions, word), satisfied),
    ensures
        satisfied <==> word@.len() == word_length,
{
}

/// A bank is made exactly of words that all have as many letters as the first. It holds them in
/// their order, and none else.
pub proof fn banks_hold_the_given_words(words: &[&str], bank: Result<WordBank, WordleError>)
    requires
        call_ensures(WordBank::from_iterator, (words,), bank),
    ensures
        bank is Ok <==> forall|i: int|
            0 <= i < words@.len() ==> (#[trigger] words@[i])@.len() == words@[0]@.len(),
        bank matches Err(error) ==> error == WordleError::WordLength(words@[0]@.len() as usize),
        bank matches Ok(bank) ==> {
            &&& bank@.len() == words@.len()
            &&& forall|i: int| 0 <= i < words@.len() ==> (#[trigger] bank@[i])@ == words@[i]@
        },
{
    if let Ok(bank) = bank {
        assert forall|i: int| 0 <= i < words@.len() implies (#[trigger] words@[i])@.len()
            == words@[0]@.len() by {
            assert(bank@[i]@.len() == bank@[0]@.len());
        }
    }
}

/// A bank says how long its words are.
pub proof fn banks_know_the_length_of_their_words(
    words: &[&str],
    bank: Result<WordBank, WordleError>,
    word_length: usize,
)
    requires
        call_ensures(WordBank::from_iterator, (words,), bank),
        bank matches Ok(bank) && call_ensures(WordBank::word_length, (&bank,), word_length),
    ensures
        forall|i: int| 0 <= i < words@.len() ==> (#[trigger] words@[i])@.len() == word_length,
        words@.len() == 0 ==> word_length == 0,
{
    let bank = bank->Ok_0;
    assert forall|i: int| 0 <= i < words@.len() implies (#[trigger] words@[i])@.len()
        == word_length by {
        assert(bank@[i]@ == words@[i]@);
    }
}

/// Restrictions that have taken up one good result accept exactly the words of their length for
/// which the guess has the same result.
pub proof fn restrictions_accept_words_with_the_same_result(
    word_length: u8,
    restrictions: &mut WordRestrictions,
    result: &GuessResult<'_>,
    word: &str,
    own_result: Result<GuessResult<'_>, WordleError>,
    satisfied: bool,
)
    requires
        call_ensures(WordRestrictions::new, (word_length,), *old(restrictions)),
        call_ensures(
            WordRestrictions::update,
            (restrictions, result),
            Result::<(), WordleError>::Ok(()),
        ),
        call_ensures(WordRestrictions::is_satisfied_by, (&*final(restrictions), word), satisfied),
        call_ensures(get_result_for_guess, (word, result.guess), own_result),
    ensures
        satisfied <==> word@.len() == word_length && (own_result matches Ok(own_result)
            && own_result.results@ == result.results@),
{
    updates_demand_the_same_results(restrictions, result, Ok(()), word@);
}

} // verus!
