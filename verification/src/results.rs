//! The outcome of guesses and of whole games.
use vstd::prelude::*;

verus! {

/// The result of a single letter of a guess.
#[derive(Clone, Copy, Debug, PartialEq, Eq, Structural, Hash)]
pub enum LetterResult {
    /// The letter goes exactly here in the word.
    Correct,
    /// The letter is in the word, but not here.
    PresentNotHere,
    /// The letter is not in the word, or not as many times as it was guessed.
    NotPresent,
}

/// What can go wrong with words and results.
#[derive(Clone, Copy, Debug, PartialEq, Eq, Structural)]
pub enum WordleError {
    /// A word does not have the expected number of letters, which is given.
    WordLength(usize),
    /// The results of a guess do not have one entry per letter.
    InvalidResults,
}

/// The result of a given word guess.
#[derive(Debug)]
pub struct GuessResult<'a> {
    /// The guess.
    pub guess: &'a str,
    /// The result of each letter, in the order of the letters of the guess.
    pub results: Vec<LetterResult>,
}

/// Data about a single turn of a game.
#[derive(Debug)]
pub struct TurnData {
    /// The number of words that were possible before the guess of this turn.
    pub num_possible_words_before_guess: usize,
    /// The guess of this turn.
    pub guess: Box<str>,
}

/// The data of a game that was played to its end.
#[derive(Debug)]
pub struct GameData {
    /// The turns of the game, in the order in which they were played.
    pub turns: Vec<TurnData>,
}

/// How a game ended.
#[derive(Debug)]
pub enum GameResult {
    /// The word was guessed, by the last of the turns.
    Success(GameData),
    /// The word was not guessed within the maximum number of guesses.
    Failure(GameData),
    /// The word is not one that the guesser knows.
    UnknownWord,
}

/// The number of positions before `end` at which `guess` holds `letter` and misses the letter of
/// `word` there.
pub open spec fn misplaced(word: Seq<char>, guess: Seq<char>, letter: char, end: int) -> nat
    decreases end,
{
    if end <= 0 {
        0
    } else {
        misplaced(word, guess, letter, end - 1) + if guess[end - 1] == letter && word[end - 1]
            != letter {
            1nat
        } else {
            0nat
        }
    }
}

/// The number of positions before `end` at which `word` holds `letter` and `guess` misses it.
pub open spec fn unmatched(word: Seq<char>, guess: Seq<char>, letter: char, end: int) -> nat
    decreases end,
{
    if end <= 0 {
        0
    } else {
        unmatched(word, guess, letter, end - 1) + if word[end - 1] == letter && guess[end - 1]
            != letter {
            1nat
        } else {
            0nat
        }
    }
}

/// The result of the letter at `i` when `guess` is held against `word`: a letter that is not here
/// is present while the word still has an unmatched one that no earlier letter of the guess claims.
pub open spec fn letter_result(word: Seq<char>, guess: Seq<char>, i: int) -> LetterResult {
    if guess[i] == word[i] {
        LetterResult::Correct
    } else if misplaced(word, guess, guess[i], i) < unmatched(
        word,
        guess,
        guess[i],
        word.len() as int,
    ) {
        LetterResult::PresentNotHere
    } else {
        LetterResult::NotPresent
    }
}

/// The results of all letters of `guess` when it is held against `word`.
pub open spec fn letter_results(word: Seq<char>, guess: Seq<char>) -> Seq<LetterResult> {
    Seq::new(guess.len(), |i: int| letter_result(word, guess, i))
}

/// Whether every letter is correct.
pub open spec fn all_correct(results: Seq<LetterResult>) -> bool {
    forall|i: int| 0 <= i < results.len() ==> results[i] == LetterResult::Correct
}

/// Whether `results` is what `guess` gets when the word to guess is `word`.
pub open spec fn truthful(
    word: Seq<char>,
    guess: Seq<char>,
    results: Seq<LetterResult>,
) -> bool {
    &&& word.len() == guess.len()
    &&& results == letter_results(word, guess)
}

/// A guess of the right length has only correct letters exactly when it is the word.
pub proof fn all_correct_iff_same_word(word: Seq<char>, guess: Seq<char>)
    requires
        word.len() == guess.len(),
    ensures
        all_correct(letter_results(word, guess)) <==> guess == word,
{
    let results = letter_results(word, guess);
    if all_correct(results) {
        assert forall|i: int| 0 <= i < guess.len() implies guess[i] == word[i] by {
            assert(results[i] == LetterResult::Correct);
        }
        assert(guess =~= word);
    }
}

/// The letters of a text.
pub(crate) fn letters(text: &str) -> (letters: Vec<char>)
    ensures
        letters@ == text@,
{
    let mut letters: Vec<char> = Vec::new();
    for letter in iter: text.chars()
        invariant
            letters@ == text@.take(iter.index() as int),
            iter.seq() == text@,
    {
        letters.push(letter);
    }
    letters
}

/// Whether two texts have the same letters.
pub(crate) fn same_letters(left: &Vec<char>, right: &Vec<char>) -> (same: bool)
    ensures
        same == (left@ == right@),
{
    if left.len() != right.len() {
        return false;
    }
    for i in 0..left.len()
        invariant
            left@.len() == right@.len(),
            left@.take(i as int) == right@.take(i as int),
    {
        if left[i] != right[i] {
            return false;
        }
        assert(left@.take(i + 1) =~= left@.take(i as int).push(left@[i as int]));
        assert(right@.take(i + 1) =~= right@.take(i as int).push(right@[i as int]));
    }
    assert(left@.take(left@.len() as int) =~= left@);
    assert(right@.take(right@.len() as int) =~= right@);
    true
}

/// Determines the result of each letter of `guess` when the word to guess is `word`.
pub(crate) fn results_of(word: &Vec<char>, guess: &Vec<char>) -> (results: Vec<LetterResult>)
    requires
        word@.len() == guess@.len(),
    ensures
        results@ == letter_results(word@, guess@),
{
    let mut results: Vec<LetterResult> = Vec::new();
    let len = guess.len();
    for i in 0..len
        invariant
            len == guess@.len(),
            word@.len() == guess@.len(),
            results@ == letter_results(word@, guess@).take(i as int),
    {
        let letter = guess[i];
        let result = if word[i] == letter {
            LetterResult::Correct
        } else {
            let mut claimed: usize = 0;
            let mut available: usize = 0;
            for j in 0..len
                invariant
                    i < len,
                    len == guess@.len(),
                    word@.len() == guess@.len(),
                    letter == guess@[i as int],
                    claimed <= j,
                    available <= j,
                    claimed == misplaced(
                        word@,
                        guess@,
                        letter,
                        if j < i {
                            j as int
                        } else {
                            i as int
                        },
                    ),
                    available == unmatched(word@, guess@, letter, j as int),
            {
                if guess[j] == letter {
                    if word[j] != letter && j < i {
                        claimed += 1;
                    }
                } else if word[j] == letter {
                    available += 1;
                }
            }
            if claimed < available {
                LetterResult::PresentNotHere
            } else {
                LetterResult::NotPresent
            }
        };
        results.push(result);
    }
    results
}

/// Whether every letter is correct.
pub(crate) fn is_all_correct(results: &Vec<LetterResult>) -> (correct: bool)
    ensures
        correct == all_correct(results@),
{
    let len = results.len();
    for i in 0..len
        invariant
            len == results@.len(),
            forall|j: int| 0 <= j < i ==> results@[j] == LetterResult::Correct,
    {
        if results[i] != LetterResult::Correct {
            return false;
        }
    }
    true
}

/// Determines the result of `guess` when the word to guess is `objective`.
///
/// The two must have the same number of letters; otherwise this returns
/// [`WordleError::WordLength`] with the number of letters of `objective`.
pub fn get_result_for_guess<'a>(objective: &str, guess: &'a str) -> (result: Result<
    GuessResult<'a>,
    WordleError,
>)
    ensures
        match result {
            Ok(result) => {
                &&& result.guess@ == guess@
                &&& truthful(objective@, guess@, result.results@)
            },
            Err(error) => {
                &&& objective@.len() != guess@.len()
                &&& error == WordleError::WordLength(objective@.len() as usize)
            },
        },
{
    let word_letters = letters(objective);
    let guess_letters = letters(guess);
    if word_letters.len() != guess_letters.len() {
        return Err(WordleError::WordLength(word_letters.len()));
    }
    Ok(GuessResult { guess, results: results_of(&word_letters, &guess_letters) })
}

} // verus!
