//! Guessers, and games that are played with them.
use std::sync::Arc;
use vstd::prelude::*;

use crate::outside::boxed_text;
use crate::results::{
    all_correct_iff_same_word, get_result_for_guess, is_all_correct, letter_results, truthful,
    GameData, GameResult, GuessResult, LetterResult, TurnData, WordleError,
};

verus! {

/// Indicates which set of words to guess from.
#[derive(Debug, PartialEq, Eq, Structural, Clone, Copy, Hash)]
pub enum GuessFrom {
    /// Choose the next guess from any unguessed word in the whole word list.
    AllUnguessedWords,
    /// Choose the next guess from any possible word based on the current restrictions.
    PossibleWords,
}

/// Guesses words in order to solve a single Wordle.
///
/// A verified guesser gives all of the specification functions. Their default bodies only let a
/// guesser which is not verified leave them out; the contracts do not speak of such a guesser.
pub trait Guesser: Sized {
    /// Whether the parts of this guesser fit together.
    open spec fn inv(&self) -> bool {
        true
    }

    /// The words that are still possible.
    open spec fn possible(&self) -> Seq<Arc<str>> {
        arbitrary()
    }

    /// The set of words that this guesser selects from by default.
    open spec fn default_mode(&self) -> GuessFrom {
        arbitrary()
    }

    /// Whether this guesser may select a word that reads `word`.
    open spec fn knows(&self, word: Seq<char>) -> bool {
        true
    }

    /// Whether no update fails that has the true result of a guess which this guesser knows, when
    /// the word to guess is `word`.
    open spec fn tracks(&self, word: Seq<char>) -> bool {
        false
    }

    /// Whether a selection from the given set may yield `guess`, and leave this guesser as `after`.
    open spec fn may_select(&self, from: GuessFrom, guess: Option<Arc<str>>, after: &Self) -> bool {
        true
    }

    /// Whether an update with the results of a guess may have the given outcome, and leave this
    /// guesser as `after`.
    open spec fn may_update(
        &self,
        guess: Seq<char>,
        results: Seq<LetterResult>,
        outcome: Result<(), WordleError>,
        after: &Self,
    ) -> bool {
        true
    }

    /// Updates this guesser with information about a word.
    fn update(&mut self, result: &GuessResult<'_>) -> (outcome: Result<(), WordleError>)
        requires
            old(self).inv(),
        ensures
            final(self).inv(),
            old(self).may_update(result.guess@, result.results@, outcome, final(self)),
            forall|word: Seq<char>| #[trigger]
                old(self).tracks(word) && old(self).knows(result.guess@) && truthful(
                    word,
                    result.guess@,
                    result.results@,
                ) ==> outcome is Ok && final(self).tracks(word),
    ;

    /// Selects a new guess for the Wordle.
    ///
    /// Returns `None` if no known words are possible given the known restrictions imposed by
    /// previous calls to [`Self::update()`].
    fn select_next_guess(&mut self) -> (guess: Option<Arc<str>>)
        requires
            old(self).inv(),
        ensures
            final(self).inv(),
            old(self).may_select(old(self).default_mode(), guess, final(self)),
            final(self).possible() == old(self).possible(),
            old(self).possible().len() == 0 ==> guess is None,
            guess matches Some(guess) ==> final(self).knows(guess@),
            forall|word: Seq<char>| #[trigger]
                old(self).tracks(word) ==> final(self).tracks(word),
    ;

    /// Selects a new guess for the Wordle using the requested set of possible words instead of
    /// the default set for this guesser.
    ///
    /// Returns `None` if no known words are possible given the known restrictions imposed by
    /// previous calls to [`Self::update()`].
    fn select_next_guess_from(&mut self, from: GuessFrom) -> (guess: Option<Arc<str>>)
        requires
            old(self).inv(),
        ensures
            final(self).inv(),
            old(self).may_select(from, guess, final(self)),
            final(self).possible() == old(self).possible(),
            old(self).possible().len() == 0 ==> guess is None,
            guess matches Some(guess) ==> final(self).knows(guess@),
            forall|word: Seq<char>| #[trigger]
                old(self).tracks(word) ==> final(self).tracks(word),
    ;

    /// Provides read access to the remaining set of possible words in this guesser.
    fn possible_words(&self) -> (words: &[Arc<str>])
        requires
            self.inv(),
        ensures
            words@ == self.possible(),
    ;
}

/// One call by which a guesser may change.
pub enum Step {
    /// A selection from the given set, and what it yielded.
    Selection(GuessFrom, Option<Arc<str>>),
    /// An update with the results of a guess, and its outcome.
    Update(Seq<char>, Seq<LetterResult>, Result<(), WordleError>),
}

impl Step {
    /// Whether this is an update with the results of `guess`.
    pub open spec fn reports(self, guess: Seq<char>) -> bool {
        self matches Step::Update(reported, _, _) && reported == guess
    }

    /// Whether this is an update with the results of `guess` that did not fail.
    pub open spec fn teaches(self, guess: Seq<char>) -> bool {
        self matches Step::Update(reported, _, outcome) && reported == guess && outcome is Ok
    }
}

/// Whether the step may take the guesser from `before` to `after`.
pub open spec fn may_step<G: Guesser>(before: G, step: Step, after: G) -> bool {
    match step {
        Step::Selection(from, guess) => before.may_select(from, guess, &after),
        Step::Update(guess, results, outcome) => before.may_update(
            guess,
            results,
            outcome,
            &after,
        ),
    }
}

/// Whether the steps may take the guesser from `start` to `end`.
pub open spec fn may_go<G: Guesser>(start: G, steps: Seq<Step>, end: G) -> bool
    decreases steps.len(),
{
    if steps.len() == 0 {
        end == start
    } else {
        exists|before: G|
            may_go(start, steps.drop_last(), before) && #[trigger] may_step(
                before,
                steps.last(),
                end,
            )
    }
}

/// Whether the guesser may have selected the guess of the turn, going from `before` to `selected`,
/// with as many possible words as the turn says.
pub open spec fn selects_turn<G: Guesser>(before: G, turn: TurnData, selected: G) -> bool {
    &&& exists|guess: Arc<str>| #[trigger]
        guess@ == turn.guess@ && before.may_select(before.default_mode(), Some(guess), &selected)
    &&& turn.num_possible_words_before_guess == selected.possible().len()
}

/// Whether the guesser may have missed `word` in the turn, and learnt the true result of its guess,
/// going from `before` to `after`.
pub open spec fn misses_turn<G: Guesser>(
    word: Seq<char>,
    before: G,
    turn: TurnData,
    after: G,
) -> bool {
    &&& turn.guess@.len() == word.len()
    &&& turn.guess@ != word
    &&& exists|selected: G| #[trigger]
        selects_turn(before, turn, selected) && selected.may_update(
            turn.guess@,
            letter_results(word, turn.guess@),
            Ok(()),
            &after,
        )
}

/// Whether the guesser may have missed `word` in each of the turns, going from `start` to `end`.
pub open spec fn misses_turns<G: Guesser>(
    word: Seq<char>,
    start: G,
    turns: Seq<TurnData>,
    end: G,
) -> bool
    decreases turns.len(),
{
    if turns.len() == 0 {
        end == start
    } else {
        exists|before: G|
            misses_turns(word, start, turns.drop_last(), before) && #[trigger] misses_turn(
                word,
                before,
                turns.last(),
                end,
            )
    }
}

/// A turn that misses the word makes the turns that miss it one more.
proof fn one_more_miss<G: Guesser>(
    word: Seq<char>,
    start: G,
    turns: Seq<TurnData>,
    before: G,
    turn: TurnData,
    after: G,
)
    requires
        misses_turns(word, start, turns, before),
        misses_turn(word, before, turn, after),
    ensures
        misses_turns(word, start, turns.push(turn), after),
{
    let longer = turns.push(turn);
    assert(longer.drop_last() =~= turns);
    assert(longer.last() == turn);
    assert(misses_turn(word, before, longer.last(), after));
}

/// Whether a game may end with the word guessed by the last of the turns.
pub open spec fn may_succeed<G: Guesser>(
    word: Seq<char>,
    max_num_guesses: u32,
    guesser: G,
    turns: Seq<TurnData>,
) -> bool {
    &&& 0 < turns.len() <= max_num_guesses
    &&& turns.last().guess@ == word
    &&& exists|before: G, selected: G| #[trigger]
        misses_turns(word, guesser, turns.drop_last(), before) && #[trigger] selects_turn(
            before,
            turns.last(),
            selected,
        )
}

/// Whether a game may end with the word missed in as many turns as there may be.
pub open spec fn may_fail<G: Guesser>(
    word: Seq<char>,
    max_num_guesses: u32,
    guesser: G,
    turns: Seq<TurnData>,
) -> bool {
    &&& turns.len() == max_num_guesses
    &&& exists|end: G| #[trigger] misses_turns(word, guesser, turns, end)
}

/// Whether a game may end, after some turns, with no guess, or with one of the wrong length.
pub open spec fn may_not_know<G: Guesser>(
    word: Seq<char>,
    max_num_guesses: u32,
    guesser: G,
) -> bool {
    exists|turns: Seq<TurnData>, before: G, guess: Option<Arc<str>>, selected: G|
        {
            &&& turns.len() < max_num_guesses
            &&& #[trigger] misses_turns(word, guesser, turns, before)
            &&& #[trigger] before.may_select(before.default_mode(), guess, &selected)
            &&& (guess matches Some(guess) ==> guess@.len() != word.len())
        }
}

/// Whether a game may end with the given result.
pub open spec fn may_end<G: Guesser>(
    word: Seq<char>,
    max_num_guesses: u32,
    guesser: G,
    result: GameResult,
) -> bool {
    match result {
        GameResult::Success(data) => may_succeed(word, max_num_guesses, guesser, data.turns@),
        GameResult::Failure(data) => may_fail(word, max_num_guesses, guesser, data.turns@),
        GameResult::UnknownWord => may_not_know(word, max_num_guesses, guesser),
    }
}

/// Attempts to guess the given word within the maximum number of guesses, using the given word
/// guesser.
///
/// ```
/// use rs_wordle_solver::GameResult;
/// use rs_wordle_solver::RandomGuesser;
/// use rs_wordle_solver::WordBank;
/// use rs_wordle_solver::play_game_with_guesser;
///
/// let bank = WordBank::from_iterator(&["abc", "def", "ghi"]).unwrap();
/// let guesser = RandomGuesser::new(bank);
/// let result = play_game_with_guesser("def", 4, guesser.clone());
///
/// assert!(matches!(result, GameResult::Success(_guesses)));
///
/// let result = play_game_with_guesser("zzz", 4, guesser.clone());
///
/// assert!(matches!(result, GameResult::UnknownWord));
///
/// let result = play_game_with_guesser("other", 4, guesser);
///
/// assert!(matches!(result, GameResult::UnknownWord));
/// ```
pub fn play_game_with_guesser<G: Guesser>(
    word_to_guess: &str,
    max_num_guesses: u32,
    guesser: G,
) -> (result: GameResult)
    requires
        guesser.inv(),
        guesser.tracks(word_to_guess@),
    ensures
        may_end(word_to_guess@, max_num_guesses, guesser, result),
{
    let ghost word = word_to_guess@;
    let mut player = guesser;
    let mut turns: Vec<TurnData> = Vec::new();
    let mut played: u32 = 0;
    while played < max_num_guesses
        invariant
            word == word_to_guess@,
            played <= max_num_guesses,
            turns@.len() == played,
            player.inv(),
            player.tracks(word),
            misses_turns(word, guesser, turns@, player),
        decreases max_num_guesses - played,
    {
        let ghost before = player;
        let ghost earlier = turns@;
        let guess = match player.select_next_guess() {
            Some(guess) => guess,
            None => {
                assert(before.may_select(before.default_mode(), None, &player));
                return GameResult::UnknownWord;
            },
        };
        let ghost selected = player;
        let num_possible_words_before_guess = player.possible_words().len();
        let result = match get_result_for_guess(word_to_guess, &*guess) {
            Ok(result) => result,
            Err(_) => {
                assert(before.may_select(before.default_mode(), Some(guess), &selected));
                return GameResult::UnknownWord;
            },
        };
        let turn = TurnData { num_possible_words_before_guess, guess: boxed_text(&*guess) };
        assert(guess@ == turn.guess@);
        assert(selects_turn(before, turn, selected));
        turns.push(turn);
        assert(turns@.drop_last() =~= earlier);
        proof {
            all_correct_iff_same_word(word, guess@);
        }
        if is_all_correct(&result.results) {
            return GameResult::Success(GameData { turns });
        }
        let outcome = player.update(&result);
        outcome.unwrap();
        assert(outcome->Ok_0 == ());
        assert(misses_turn(word, before, turn, player));
        proof {
            one_more_miss(word, guesser, earlier, before, turn, player);
        }
        played += 1;
    }
    GameResult::Failure(GameData { turns })
}

} // verus!
