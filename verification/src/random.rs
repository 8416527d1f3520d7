//! Guessing at random.
use std::sync::Arc;
use vstd::prelude::*;

use crate::data::{
    guessing_adds_no_word, listed_words_are_held, narrowing_adds_no_word, GroupedWords, GroupsView,
    WordBank,
};
use crate::engine::{GuessFrom, Guesser};
use crate::outside::random_number;
use crate::restrictions::{RestrictionsView, WordRestrictions};
use crate::results::{GuessResult, LetterResult, WordleError};

verus! {

/// Guesses at random from the possible words that meet the restrictions.
///
/// A sample benchmark against a list of common words performed as follows:
///
/// |Num guesses to win|Num games|
/// |------------------|---------|
/// |1|1|
/// |2|106|
/// |3|816|
/// |4|1628|
/// |5|1248|
/// |6|518|
/// |7|180|
/// |8|67|
/// |9|28|
/// |10|7|
/// |11|2|
/// |12|1|
///
/// **Average number of guesses:** 4.49 +/- 1.26
#[derive(Debug)]
pub struct RandomGuesser {
    words: GroupedWords,
    restrictions: WordRestrictions,
}

/// The mathematical content of a [`RandomGuesser`].
pub struct RandomView {
    /// The words that the guesser knows.
    pub groups: GroupsView,
    /// What is known of the word.
    pub restrictions: RestrictionsView,
}

impl RandomView {
    /// A guesser to which every word is possible. The restrictions count letters in a `u8`.
    pub open spec fn initial(words: Seq<Arc<str>>, word_length: usize) -> Self {
        RandomView {
            groups: GroupsView::unguessed_and_possible(words),
            restrictions: RestrictionsView::unrestricted(word_length as u8),
        }
    }

    /// The words to select from. There is none once no word is possible. When every word has been
    /// guessed, they are the possible words.
    pub open spec fn words_to_select(self, from: GuessFrom) -> Seq<Arc<str>> {
        if self.groups.possible().len() == 0 || self.groups.unguessed().len() == 0 {
            self.groups.possible()
        } else {
            match from {
                GuessFrom::AllUnguessedWords => self.groups.unguessed(),
                GuessFrom::PossibleWords => self.groups.possible(),
            }
        }
    }

    /// Whether `guess` may be selected: any of the words to select from, and none if there is none.
    pub open spec fn may_select(self, from: GuessFrom, guess: Option<Arc<str>>) -> bool {
        match guess {
            Some(guess) => self.words_to_select(from).contains(guess),
            None => self.words_to_select(from).len() == 0,
        }
    }

    /// The guesser after an update with the results of a guess; a faulty result changes nothing.
    pub open spec fn updated(self, guess: Seq<char>, results: Seq<LetterResult>) -> Self {
        if self.restrictions.update_outcome(guess, results) is Ok {
            let restrictions = self.restrictions.updated(guess, results);
            RandomView {
                groups: self.groups.without_guess(guess).narrowed(restrictions),
                restrictions,
            }
        } else {
            self
        }
    }

    /// Whether one of the words reads `word`.
    pub open spec fn knows(self, word: Seq<char>) -> bool {
        exists|known: Arc<str>| #[trigger] self.groups.holds(known) && known@ == word
    }

    /// Whether the restrictions fit `word`, if the words are as long.
    pub open spec fn tracks(self, word: Seq<char>) -> bool {
        forall|known: Arc<str>| #[trigger]
            self.groups.holds(known) && known@.len() == word.len() ==> word.len()
                == self.restrictions.word_length
    }
}

impl View for RandomGuesser {
    type V = RandomView;

    closed spec fn view(&self) -> RandomView {
        RandomView { groups: self.words@, restrictions: self.restrictions@ }
    }
}

/// Selects the word at the position that a random number gives.
pub fn select_word_by_number(words: &[Arc<str>], random: usize) -> (word: Option<Arc<str>>)
    ensures
        match word {
            Some(word) => words@.len() > 0 && word == words@[random as int % words@.len() as int],
            None => words@.len() == 0,
        },
{
    if words.is_empty() {
        return None;
    }
    let len = words.len();
    Some(Arc::clone(&words[random % len]))
}

impl RandomGuesser {
    /// Constructs a new `RandomGuesser` using the given word bank.
    ///
    /// This guesser always uses the `GuessFrom::PossibleWords` strategy by default.
    ///
    /// ```
    /// use rs_wordle_solver::RandomGuesser;
    /// use rs_wordle_solver::WordBank;
    ///
    /// let bank = WordBank::from_iterator(&["abc", "def", "ghi"]).unwrap();
    /// let guesser = RandomGuesser::new(bank);
    /// ```
    pub fn new(bank: WordBank) -> (guesser: RandomGuesser)
        ensures
            guesser.inv(),
            guesser@ == RandomView::initial(bank@, bank.letters_per_word()),
            bank.letters_per_word() <= u8::MAX ==> forall|word: Seq<char>| #[trigger]
                guesser.tracks(word),
    {
        let word_length = bank.word_length();
        let ghost words = bank@;
        let guesser = RandomGuesser {
            words: GroupedWords::new(bank),
            restrictions: WordRestrictions::new(#[verifier::truncate] (word_length as u8)),
        };
        assert forall|known: Arc<str>| #[trigger] guesser@.groups.holds(known) implies known@.len()
            == word_length by {
            let i = words.index_of(known);
            assert(words[i] == known);
        }
        guesser
    }

    /// Selects one of the words at random.
    fn select_random_word(words: &[Arc<str>]) -> (word: Option<Arc<str>>)
        ensures
            match word {
                Some(word) => words@.contains(word),
                None => words@.len() == 0,
            },
    {
        if words.is_empty() {
            return None;
        }
        select_word_by_number(words, random_number())
    }
}

impl RandomGuesser {
    /// Takes the guesser apart, for example to store it.
    pub fn into_parts(self) -> (parts: (GroupedWords, WordRestrictions))
        requires
            self.inv(),
        ensures
            parts.0.inv(),
            self@ == (RandomView { groups: parts.0@, restrictions: parts.1@ }),
    {
        (self.words, self.restrictions)
    }

    /// Puts a guesser together again that was taken apart by [`Self::into_parts()`].
    pub fn from_parts(words: GroupedWords, restrictions: WordRestrictions) -> (guesser:
        RandomGuesser)
        requires
            words.inv(),
        ensures
            guesser.inv(),
            guesser@ == (RandomView { groups: words@, restrictions: restrictions@ }),
    {
        RandomGuesser { words, restrictions }
    }
}

impl Guesser for RandomGuesser {
    closed spec fn inv(&self) -> bool {
        self.words.inv()
    }

    open spec fn possible(&self) -> Seq<Arc<str>> {
        self@.groups.possible()
    }

    open spec fn default_mode(&self) -> GuessFrom {
        GuessFrom::PossibleWords
    }

    open spec fn knows(&self, word: Seq<char>) -> bool {
        self@.knows(word)
    }

    open spec fn tracks(&self, word: Seq<char>) -> bool {
        self@.tracks(word)
    }

    open spec fn may_select(&self, from: GuessFrom, guess: Option<Arc<str>>, after: &Self) -> bool {
        &&& self@.may_select(from, guess)
        &&& after@ == self@
    }

    open spec fn may_update(
        &self,
        guess: Seq<char>,
        results: Seq<LetterResult>,
        outcome: Result<(), WordleError>,
        after: &Self,
    ) -> bool {
        &&& outcome == self@.restrictions.update_outcome(guess, results)
        &&& after@ == self@.updated(guess, results)
    }

    fn update(&mut self, result: &GuessResult<'_>) -> (outcome: Result<(), WordleError>) {
        let outcome = self.restrictions.update(result);
        if outcome.is_err() {
            return outcome;
        }
        self.words.remove_guess_if_present(result.guess);
        proof {
            guessing_adds_no_word(old(self)@.groups, result.guess@);
            narrowing_adds_no_word(self@.groups, self@.restrictions);
        }
        self.words.filter_possible_words(&self.restrictions);
        Ok(())
    }

    fn select_next_guess(&mut self) -> (guess: Option<Arc<str>>)
        ensures
            guess is None <==> old(self)@.groups.possible().len() == 0,
    {
        self.select_next_guess_from(GuessFrom::PossibleWords)
    }

    fn select_next_guess_from(&mut self, from: GuessFrom) -> (guess: Option<Arc<str>>)
        ensures
            guess is None <==> old(self)@.groups.possible().len() == 0,
    {
        if self.words.possible_words().is_empty() {
            return None;
        }
        let guess = match from {
            _ if self.words.unguessed_words().is_empty() => {
                RandomGuesser::select_random_word(self.possible_words())
            },
            GuessFrom::AllUnguessedWords => {
                RandomGuesser::select_random_word(self.words.unguessed_words())
            },
            GuessFrom::PossibleWords => RandomGuesser::select_random_word(self.possible_words()),
        };
        proof {
            listed_words_are_held(self@.groups);
        }
        guess
    }

    fn possible_words(&self) -> (words: &[Arc<str>]) {
        self.words.possible_words()
    }
}

impl Clone for RandomGuesser {
    fn clone(&self) -> (copy: Self)
        ensures
            copy@ == self@,
            copy.inv() == self.inv(),
    {
        RandomGuesser { words: self.words.clone(), restrictions: self.restrictions.clone() }
    }
}

} // verus!
