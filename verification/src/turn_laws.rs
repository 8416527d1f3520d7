//! What games give, in terms of the word, the words of the bank, and the turns.
use std::sync::Arc;
use vstd::prelude::*;

use crate::choice_laws::{
    choices_of, is_best_choice, new_guessers_know_the_bank, scores_by,
    steps_keep_scores_up_to_date, the_best_word_is_selected_at_any_time,
};
use crate::data::{all_of_length, reads, WordBank};
use crate::engine::{
    may_go, may_step, misses_turns, play_game_with_guesser, GuessFrom, Guesser, Step,
};
use crate::game_laws::{
    last_miss, max_score_guesser_does_not_know_other_lengths,
    max_score_guesser_finds_possible_words, max_score_guesser_gives_up_on_unknown_words, on_course,
    random_guesser_does_not_know_other_lengths, random_guesser_finds_possible_words,
    random_guesser_gives_up_on_unknown_words, unknown_ending, winning_turn,
};
use crate::max_score::MaxScoreGuesser;
use crate::random::RandomGuesser;
use crate::results::{letter_results, GameResult, TurnData};
use crate::scorers::WordScorer;
use crate::word_laws::{
    agreeing, agrees, agrees_with_all, filter_counts, max_score_guessers_keep_the_agreeing_words,
    new_random_guessers_know_the_bank, random_guessers_keep_the_agreeing_words, same_filter,
    unreported,
};

verus! {

/// The turns of a game, none if the word was not known.
pub open spec fn turns_of(result: GameResult) -> Seq<TurnData> {
    match result {
        GameResult::Success(data) => data.turns@,
        GameResult::Failure(data) => data.turns@,
        GameResult::UnknownWord => Seq::empty(),
    }
}

/// Whether `known` would have given the first `n` guesses the results that `word` gave them.
pub open spec fn in_line(
    word: Seq<char>,
    turns: Seq<TurnData>,
    n: int,
    known: Seq<char>,
) -> bool {
    forall|k: int|
        0 <= k < n ==> letter_results(known, (#[trigger] turns[k]).guess@) == letter_results(
            word,
            turns[k].guess@,
        )
}

/// Tells whether a word would have given the first `n` guesses the results that `word` gave them.
pub open spec fn fitting(word: Seq<char>, turns: Seq<TurnData>, n: int) -> spec_fn(
    Arc<str>,
) -> bool {
    |known: Arc<str>| in_line(word, turns, n, known@)
}

/// Tells whether a word is none of the first `n` guesses.
pub open spec fn fresh(turns: Seq<TurnData>, n: int) -> spec_fn(Arc<str>) -> bool {
    |known: Arc<str>| forall|k: int| 0 <= k < n ==> (#[trigger] turns[k]).guess@ != known@
}

/// Turns that miss the word have guesses of its length that are not the word.
proof fn misses_are_no_hits<G: Guesser>(word: Seq<char>, start: G, turns: Seq<TurnData>, end: G)
    requires
        misses_turns(word, start, turns, end),
    ensures
        forall|k: int|
            0 <= k < turns.len() ==> (#[trigger] turns[k]).guess@ != word
                && turns[k].guess@.len() == word.len(),
    decreases turns.len(),
{
    if turns.len() > 0 {
        let (before, guess, _) = last_miss(word, start, turns, end);
        misses_are_no_hits(word, start, turns.drop_last(), before);
        assert forall|k: int| 0 <= k < turns.len() implies (#[trigger] turns[k]).guess@ != word
            && turns[k].guess@.len() == word.len() by {
            if k < turns.len() - 1 {
                assert(turns.drop_last()[k] == turns[k]);
            }
        }
    }
}

/// What a game gives, whatever the guesser does. It ends in success with the first guess that is
/// the word, within the maximum number of guesses. It ends in failure after exactly that many
/// guesses, none of which is the word. All guesses in its turns have the length of the word. Where
/// no guess is allowed, it ends in failure without turns.
pub proof fn games_end_by_the_first_hit<G: Guesser>(
    word_to_guess: &str,
    max_num_guesses: u32,
    guesser: G,
    result: GameResult,
)
    requires
        call_ensures(
            play_game_with_guesser::<G>,
            (word_to_guess, max_num_guesses, guesser),
            result,
        ),
    ensures
        result is Success ==> {
            &&& 0 < turns_of(result).len() <= max_num_guesses
            &&& turns_of(result).last().guess@ == word_to_guess@
            &&& forall|k: int|
                0 <= k < turns_of(result).len() - 1 ==> (#[trigger] turns_of(result)[k]).guess@
                    != word_to_guess@
        },
        result is Failure ==> {
            &&& turns_of(result).len() == max_num_guesses
            &&& forall|k: int|
                0 <= k < turns_of(result).len() ==> (#[trigger] turns_of(result)[k]).guess@
                    != word_to_guess@
        },
        forall|k: int|
            0 <= k < turns_of(result).len() ==> (#[trigger] turns_of(result)[k]).guess@.len()
                == word_to_guess@.len(),
        max_num_guesses == 0 ==> result is Failure,
{
    let word = word_to_guess@;
    let turns = turns_of(result);
    match result {
        GameResult::Success(data) => {
            let (before, guess, _) = winning_turn(word, max_num_guesses, guesser, turns);
            misses_are_no_hits(word, guesser, turns.drop_last(), before);
            assert forall|k: int| 0 <= k < turns.len() - 1 implies (#[trigger] turns[k]).guess@
                != word && turns[k].guess@.len() == word.len() by {
                assert(turns.drop_last()[k] == turns[k]);
            }
        },
        GameResult::Failure(data) => {
            let end = choose|end: G| #[trigger] misses_turns(word, guesser, data.turns@, end);
            misses_are_no_hits(word, guesser, data.turns@, end);
        },
        GameResult::UnknownWord => {
            let _ = unknown_ending(word, max_num_guesses, guesser);
        },
    }
}

/// Whether the steps select the guess of each turn, and report its true results.
pub open spec fn steps_of_turns(
    word: Seq<char>,
    turns: Seq<TurnData>,
    steps: Seq<Step>,
) -> bool {
    &&& steps.len() == 2 * turns.len()
    &&& forall|k: int|
        0 <= k < turns.len() ==> {
            &&& steps[2 * k] matches Step::Selection(_, Some(guess)) && guess@
                == (#[trigger] turns[k]).guess@
            &&& steps[2 * k + 1] == Step::Update(
                turns[k].guess@,
                letter_results(word, turns[k].guess@),
                Ok(()),
            )
        }
}

/// One more step leads on.
proof fn one_step_on<G: Guesser>(start: G, steps: Seq<Step>, before: G, step: Step, end: G)
    requires
        may_go(start, steps, before),
        may_step(before, step, end),
    ensures
        may_go(start, steps.push(step), end),
{
    let longer = steps.push(step);
    assert(longer.drop_last() =~= steps);
    assert(longer.last() == step);
    assert(may_step(before, longer.last(), end));
}

/// The steps of turns that miss the word.
proof fn steps_of_misses<G: Guesser>(
    word: Seq<char>,
    start: G,
    turns: Seq<TurnData>,
    end: G,
) -> (steps: Seq<Step>)
    requires
        misses_turns(word, start, turns, end),
    ensures
        may_go(start, steps, end),
        steps_of_turns(word, turns, steps),
    decreases turns.len(),
{
    if turns.len() == 0 {
        Seq::empty()
    } else {
        let (before, guess, selected) = last_miss(word, start, turns, end);
        let init = turns.drop_last();
        let earlier = steps_of_misses(word, start, init, before);
        let selection = Step::Selection(before.default_mode(), Some(guess));
        let update = Step::Update(guess@, letter_results(word, guess@), Ok(()));
        one_step_on(start, earlier, before, selection, selected);
        one_step_on(start, earlier.push(selection), selected, update, end);
        let steps = earlier.push(selection).push(update);
        assert forall|k: int| 0 <= k < turns.len() implies {
            &&& steps[2 * k] matches Step::Selection(_, Some(guess)) && guess@
                == (#[trigger] turns[k]).guess@
            &&& steps[2 * k + 1] == Step::Update(
                turns[k].guess@,
                letter_results(word, turns[k].guess@),
                Ok(()),
            )
        } by {
            if k < init.len() {
                assert(init[k] == turns[k]);
            }
        }
        steps
    }
}

/// The state in which the guess of the turn at `k` was selected, and the guess.
proof fn turn_at<G: Guesser>(
    word: Seq<char>,
    start: G,
    turns: Seq<TurnData>,
    end: G,
    k: int,
) -> (turn: (G, Arc<str>, G))
    requires
        misses_turns(word, start, turns, end),
        0 <= k < turns.len(),
    ensures
        misses_turns(word, start, turns.take(k), turn.0),
        turn.0.may_select(turn.0.default_mode(), Some(turn.1), &turn.2),
        turn.1@ == turns[k].guess@,
        turns[k].num_possible_words_before_guess == turn.2.possible().len(),
    decreases turns.len(),
{
    let (before, guess, selected) = last_miss(word, start, turns, end);
    let init = turns.drop_last();
    if k == turns.len() - 1 {
        assert(turns.take(k) =~= init);
        (before, guess, selected)
    } else {
        assert(init.take(k) =~= turns.take(k));
        assert(init[k] == turns[k]);
        turn_at(word, start, init, before, k)
    }
}

/// The same of the turns of a game.
proof fn game_turn_at<G: Guesser>(
    word_to_guess: &str,
    max_num_guesses: u32,
    guesser: G,
    result: GameResult,
    k: int,
) -> (turn: (G, Arc<str>, G))
    requires
        call_ensures(
            play_game_with_guesser::<G>,
            (word_to_guess, max_num_guesses, guesser),
            result,
        ),
        0 <= k < turns_of(result).len(),
    ensures
        misses_turns(word_to_guess@, guesser, turns_of(result).take(k), turn.0),
        turn.0.may_select(turn.0.default_mode(), Some(turn.1), &turn.2),
        turn.1@ == turns_of(result)[k].guess@,
        turns_of(result)[k].num_possible_words_before_guess == turn.2.possible().len(),
{
    let word = word_to_guess@;
    let turns = turns_of(result);
    match result {
        GameResult::Success(data) => {
            let (before, guess, selected) = winning_turn(word, max_num_guesses, guesser, turns);
            if k == turns.len() - 1 {
                assert(turns.take(k) =~= turns.drop_last());
                (before, guess, selected)
            } else {
                assert(turns.drop_last().take(k) =~= turns.take(k));
                assert(turns.drop_last()[k] == turns[k]);
                turn_at(word, guesser, turns.drop_last(), before, k)
            }
        },
        GameResult::Failure(data) => {
            let end = choose|end: G| #[trigger] misses_turns(word, guesser, data.turns@, end);
            turn_at(word, guesser, turns, end, k)
        },
        GameResult::UnknownWord => (guesser, arbitrary(), guesser),
    }
}

/// A word agrees with the steps of turns exactly where it is in line with the turns.
proof fn agreeing_words_are_in_line(
    word: Seq<char>,
    turns: Seq<TurnData>,
    steps: Seq<Step>,
    known: Seq<char>,
)
    requires
        steps_of_turns(word, turns, steps),
        forall|k: int|
            0 <= k < turns.len() ==> (#[trigger] turns[k]).guess@.len() == word.len(),
    ensures
        agrees_with_all(steps, word.len(), known) <==> in_line(
            word,
            turns,
            turns.len() as int,
            known,
        ),
{
    if agrees_with_all(steps, word.len(), known) {
        assert forall|k: int| 0 <= k < turns.len() implies letter_results(
            known,
            (#[trigger] turns[k]).guess@,
        ) == letter_results(word, turns[k].guess@) by {
            assert(agrees(steps[2 * k + 1], word.len(), known));
        }
    }
    if in_line(word, turns, turns.len() as int, known) {
        assert forall|i: int| 0 <= i < steps.len() implies agrees(
            #[trigger] steps[i],
            word.len(),
            known,
        ) by {
            let k = i / 2;
            assert(turns[k].guess@.len() == word.len());
            if i % 2 == 0 {
                assert(i == 2 * k);
            } else {
                assert(i == 2 * k + 1);
            }
        }
    }
}

/// The words of the bank that agree with the steps of the first turns are those in line with them.
proof fn same_words_in_line(
    words: Seq<Arc<str>>,
    word: Seq<char>,
    turns: Seq<TurnData>,
    n: int,
    steps: Seq<Step>,
)
    requires
        0 <= n <= turns.len(),
        steps_of_turns(word, turns.take(n), steps),
        forall|k: int| 0 <= k < n ==> (#[trigger] turns[k]).guess@.len() == word.len(),
    ensures
        words.filter(agreeing(steps, word.len())).to_multiset() == words.filter(
            fitting(word, turns, n),
        ).to_multiset(),
{
    let first = turns.take(n);
    assert forall|known: Arc<str>| #[trigger]
        agreeing(steps, word.len())(known) == fitting(word, turns, n)(known) by {
        agreeing_words_are_in_line(word, first, steps, known@);
        assert(in_line(word, first, n, known@) <==> in_line(word, turns, n, known@)) by {
            assert(forall|k: int| 0 <= k < n ==> first[k] == #[trigger] turns[k]);
            if in_line(word, first, n, known@) {
                assert forall|k: int| 0 <= k < n implies letter_results(
                    known@,
                    (#[trigger] turns[k]).guess@,
                ) == letter_results(word, turns[k].guess@) by {
                    assert(first[k] == turns[k]);
                }
            }
        }
    }
    same_filter(words, agreeing(steps, word.len()), fitting(word, turns, n));
}

/// The words of the bank that the steps of the first turns do not report are not among their
/// guesses.
proof fn same_fresh_words(
    words: Seq<Arc<str>>,
    word: Seq<char>,
    turns: Seq<TurnData>,
    n: int,
    steps: Seq<Step>,
)
    requires
        0 <= n <= turns.len(),
        steps_of_turns(word, turns.take(n), steps),
    ensures
        words.filter(unreported(steps)).to_multiset() == words.filter(
            fresh(turns, n),
        ).to_multiset(),
{
    let first = turns.take(n);
    assert forall|known: Arc<str>| #[trigger]
        unreported(steps)(known) == fresh(turns, n)(known) by {
        if unreported(steps)(known) {
            assert forall|k: int| 0 <= k < n implies (#[trigger] turns[k]).guess@ != known@ by {
                assert(first[k] == turns[k]);
                assert(!steps[2 * k + 1].reports(known@));
            }
        }
        if fresh(turns, n)(known) {
            assert forall|i: int| 0 <= i < steps.len() implies !(
            #[trigger] steps[i]).reports(known@) by {
                let k = i / 2;
                assert(first[k] == turns[k]);
                if i % 2 == 0 {
                    assert(i == 2 * k);
                } else {
                    assert(i == 2 * k + 1);
                }
            }
        }
    }
    same_filter(words, unreported(steps), fresh(turns, n));
}

/// A list that holds what a filter leaves of another, in any order, holds words of that other.
proof fn counted_words_are_listed(
    words: Seq<Arc<str>>,
    pred: spec_fn(Arc<str>) -> bool,
    list: Seq<Arc<str>>,
    word: Arc<str>,
)
    requires
        list.to_multiset() == words.filter(pred).to_multiset(),
    ensures
        list.contains(word) <==> words.contains(word) && pred(word),
        list.len() == words.filter(pred).len(),
{
    broadcast use vstd::seq_lib::group_to_multiset_ensures;

    filter_counts(words, pred, word);
    assert(list.contains(word) <==> list.to_multiset().count(word) > 0);
    assert(words.contains(word) <==> words.to_multiset().count(word) > 0);
    assert(list.len() == list.to_multiset().len());
    assert(words.filter(pred).len() == words.filter(pred).to_multiset().len());
}

/// In each turn of a game, a new random guesser guesses a word of its bank that would have given
/// all guesses before the results that they had. The turn tells how many such words there were.
pub proof fn random_guessers_guess_words_in_line(
    bank: WordBank,
    guesser: RandomGuesser,
    word_to_guess: &str,
    max_num_guesses: u32,
    result: GameResult,
    k: int,
)
    requires
        call_ensures(RandomGuesser::new, (bank,), guesser),
        all_of_length(bank@, bank.letters_per_word() as nat),
        bank.letters_per_word() <= u8::MAX,
        bank.letters_per_word() == word_to_guess@.len(),
        call_ensures(
            play_game_with_guesser::<RandomGuesser>,
            (word_to_guess, max_num_guesses, guesser),
            result,
        ),
        0 <= k < turns_of(result).len(),
    ensures
        turns_of(result)[k].num_possible_words_before_guess == bank@.filter(
            fitting(word_to_guess@, turns_of(result), k),
        ).len(),
        in_line(word_to_guess@, turns_of(result), k, turns_of(result)[k].guess@),
        reads(bank@, turns_of(result)[k].guess@),
{
    let word = word_to_guess@;
    let turns = turns_of(result);
    games_end_by_the_first_hit(word_to_guess, max_num_guesses, guesser, result);
    let (before, guess, selected) = game_turn_at(
        word_to_guess,
        max_num_guesses,
        guesser,
        result,
        k,
    );
    let steps = steps_of_misses(word, guesser, turns.take(k), before);
    random_guessers_keep_the_agreeing_words(bank, guesser, steps, before);
    same_words_in_line(bank@, word, turns, k, steps);
    counted_words_are_listed(bank@, fitting(word, turns, k), before.possible(), guess);
    assert(before.possible().contains(guess));
    assert(bank@[bank@.index_of(guess)]@ == turns[k].guess@);
}

/// In each turn of a game, a new guesser that scores words guesses the first of the best words, by
/// what the scorer gives them then, among those that it chooses from. The possible words are those
/// of its bank that would have given all guesses before the results that they had, and the turn
/// tells how many these were. The unguessed words are those that are none of these guesses.
pub proof fn max_score_guessers_guess_the_best_words<T: WordScorer + Clone + Sync>(
    guess_mode: GuessFrom,
    bank: WordBank,
    scorer: T,
    available_parallelism: Option<usize>,
    guesser: MaxScoreGuesser<T>,
    word_to_guess: &str,
    max_num_guesses: u32,
    result: GameResult,
    k: int,
)
    requires
        call_ensures(
            MaxScoreGuesser::<T>::new,
            (guess_mode, bank, scorer, available_parallelism),
            guesser,
        ),
        all_of_length(bank@, bank.letters_per_word() as nat),
        bank.letters_per_word() <= u8::MAX,
        bank.letters_per_word() == word_to_guess@.len(),
        call_ensures(
            play_game_with_guesser::<MaxScoreGuesser<T>>,
            (word_to_guess, max_num_guesses, guesser),
            result,
        ),
        0 <= k < turns_of(result).len(),
    ensures
        turns_of(result)[k].num_possible_words_before_guess == bank@.filter(
            fitting(word_to_guess@, turns_of(result), k),
        ).len(),
        reads(bank@, turns_of(result)[k].guess@),
        exists|before: MaxScoreGuesser<T>, guess: Arc<str>|
            {
                &&& guess@ == turns_of(result)[k].guess@
                &&& before.possible().to_multiset() == bank@.filter(
                    fitting(word_to_guess@, turns_of(result), k),
                ).to_multiset()
                &&& before@.groups.unguessed().to_multiset() == bank@.filter(
                    fresh(turns_of(result), k),
                ).to_multiset()
                &&& #[trigger] is_best_choice(
                    choices_of(before@, guess_mode),
                    scores_by(before@.scorer, choices_of(before@, guess_mode)),
                    guess,
                )
                &&& k == 0 ==> before@.scorer == scorer
            },
{
    let word = word_to_guess@;
    let turns = turns_of(result);
    let words = bank@;
    games_end_by_the_first_hit(word_to_guess, max_num_guesses, guesser, result);
    let (before, guess, selected) = game_turn_at(
        word_to_guess,
        max_num_guesses,
        guesser,
        result,
        k,
    );
    let steps = steps_of_misses(word, guesser, turns.take(k), before);
    max_score_guessers_keep_the_agreeing_words(
        guess_mode,
        bank,
        scorer,
        available_parallelism,
        guesser,
        steps,
        before,
    );
    same_words_in_line(words, word, turns, k, steps);
    same_fresh_words(words, word, turns, k, steps);
    steps_keep_scores_up_to_date(guesser, steps, before);
    the_best_word_is_selected_at_any_time(
        guess_mode,
        bank,
        scorer,
        available_parallelism,
        guesser,
        steps,
        before,
        guess_mode,
        guess,
        selected,
    );
    counted_words_are_listed(words, fitting(word, turns, k), before.possible(), guess);
    counted_words_are_listed(words, fresh(turns, k), before@.groups.unguessed(), guess);
    let chosen = choices_of(before@, guess_mode);
    let i = choose|i: int| #![trigger chosen[i]] 0 <= i < chosen.len() && chosen[i] == guess;
    assert(chosen[i] == guess);
    assert(chosen.contains(guess));
    assert(words[words.index_of(guess)]@ == turns[k].guess@);
}

/// Where a list of words holds all that are in line, and the word is one of the bank, it is held.
proof fn the_word_is_in_line(
    words: Seq<Arc<str>>,
    word: Seq<char>,
    turns: Seq<TurnData>,
    list: Seq<Arc<str>>,
)
    requires
        reads(words, word),
        list.to_multiset() == words.filter(
            fitting(word, turns, turns.len() as int),
        ).to_multiset(),
    ensures
        reads(list, word),
        words.filter(fitting(word, turns, turns.len() as int)).len() > 0,
{
    let i = choose|i: int| 0 <= i < words.len() && (#[trigger] words[i])@ == word;
    let known = words[i];
    assert(words.contains(known));
    assert(in_line(word, turns, turns.len() as int, known@));
    counted_words_are_listed(words, fitting(word, turns, turns.len() as int), list, known);
    assert(list[list.index_of(known)]@ == word);
}

/// A game of a new random guesser with a word of the right length ends with no guess only once no
/// word of the bank is in line with the guesses, so never with a word of the bank. It ends in
/// success only with a word of the bank.
pub proof fn random_guessers_give_up_only_without_words(
    bank: WordBank,
    guesser: RandomGuesser,
    word_to_guess: &str,
    max_num_guesses: u32,
    result: GameResult,
)
    requires
        call_ensures(RandomGuesser::new, (bank,), guesser),
        all_of_length(bank@, bank.letters_per_word() as nat),
        bank.letters_per_word() <= u8::MAX,
        bank.letters_per_word() == word_to_guess@.len(),
        call_ensures(
            play_game_with_guesser::<RandomGuesser>,
            (word_to_guess, max_num_guesses, guesser),
            result,
        ),
    ensures
        result is UnknownWord ==> !reads(bank@, word_to_guess@),
        result is UnknownWord ==> exists|turns: Seq<TurnData>|
            turns.len() < max_num_guesses && bank@.filter(
                #[trigger] fitting(word_to_guess@, turns, turns.len() as int),
            ).len() == 0,
        result is Success ==> reads(bank@, word_to_guess@),
{
    let word = word_to_guess@;
    if result is UnknownWord {
        let (turns, before, guess, _) = unknown_ending(word, max_num_guesses, guesser);
        misses_are_no_hits(word, guesser, turns, before);
        let steps = steps_of_misses(word, guesser, turns, before);
        random_guessers_keep_the_agreeing_words(bank, guesser, steps, before);
        let n = turns.len() as int;
        assert(turns.take(n) =~= turns);
        same_words_in_line(bank@, word, turns, n, steps);
        if let Some(guess) = guess {
            counted_words_are_listed(bank@, fitting(word, turns, n), before.possible(), guess);
            assert(before.possible().contains(guess));
            assert(bank@[bank@.index_of(guess)]@.len() == word.len());
        } else {
            counted_words_are_listed(
                bank@,
                fitting(word, turns, n),
                before.possible(),
                arbitrary(),
            );
            if reads(bank@, word) {
                the_word_is_in_line(bank@, word, turns, before.possible());
            }
        }
    }
    if result is Success {
        let k = turns_of(result).len() - 1;
        games_end_by_the_first_hit(word_to_guess, max_num_guesses, guesser, result);
        random_guessers_guess_words_in_line(
            bank,
            guesser,
            word_to_guess,
            max_num_guesses,
            result,
            k,
        );
    }
}

/// A game of a new guesser that scores words, with a word of the right length, ends with no guess
/// only once no word of the bank is in line with the guesses, so never with a word of the bank. It
/// ends in success only with a word of the bank.
pub proof fn max_score_guessers_give_up_only_without_words<T: WordScorer + Clone + Sync>(
    guess_mode: GuessFrom,
    bank: WordBank,
    scorer: T,
    available_parallelism: Option<usize>,
    guesser: MaxScoreGuesser<T>,
    word_to_guess: &str,
    max_num_guesses: u32,
    result: GameResult,
)
    requires
        call_ensures(
            MaxScoreGuesser::<T>::new,
            (guess_mode, bank, scorer, available_parallelism),
            guesser,
        ),
        all_of_length(bank@, bank.letters_per_word() as nat),
        bank.letters_per_word() <= u8::MAX,
        bank.letters_per_word() == word_to_guess@.len(),
        call_ensures(
            play_game_with_guesser::<MaxScoreGuesser<T>>,
            (word_to_guess, max_num_guesses, guesser),
            result,
        ),
    ensures
        result is UnknownWord ==> !reads(bank@, word_to_guess@),
        result is UnknownWord ==> exists|turns: Seq<TurnData>|
            turns.len() < max_num_guesses && bank@.filter(
                #[trigger] fitting(word_to_guess@, turns, turns.len() as int),
            ).len() == 0,
        result is Success ==> reads(bank@, word_to_guess@),
{
    let word = word_to_guess@;
    if result is UnknownWord {
        let (turns, before, guess, selected) = unknown_ending(word, max_num_guesses, guesser);
        misses_are_no_hits(word, guesser, turns, before);
        let steps = steps_of_misses(word, guesser, turns, before);
        max_score_guessers_keep_the_agreeing_words(
            guess_mode,
            bank,
            scorer,
            available_parallelism,
            guesser,
            steps,
            before,
        );
        let n = turns.len() as int;
        assert(turns.take(n) =~= turns);
        same_words_in_line(bank@, word, turns, n, steps);
        same_fresh_words(bank@, word, turns, n, steps);
        if let Some(guess) = guess {
            let from = before.default_mode();
            the_best_word_is_selected_at_any_time(
                guess_mode,
                bank,
                scorer,
                available_parallelism,
                guesser,
                steps,
                before,
                from,
                guess,
                selected,
            );
            let chosen = choices_of(before@, from);
            let i = choose|i: int|
                #![trigger chosen[i]]
                0 <= i < chosen.len() && chosen[i] == guess;
            assert(chosen.contains(guess));
            counted_words_are_listed(bank@, fitting(word, turns, n), before.possible(), guess);
            counted_words_are_listed(
                bank@,
                fresh(turns, n),
                before@.groups.unguessed(),
                guess,
            );
            assert(bank@[bank@.index_of(guess)]@.len() == word.len());
        } else {
            counted_words_are_listed(
                bank@,
                fitting(word, turns, n),
                before.possible(),
                arbitrary(),
            );
            if reads(bank@, word) {
                the_word_is_in_line(bank@, word, turns, before.possible());
            }
        }
    }
    if result is Success {
        let k = turns_of(result).len() - 1;
        games_end_by_the_first_hit(word_to_guess, max_num_guesses, guesser, result);
        max_score_guessers_guess_the_best_words(
            guess_mode,
            bank,
            scorer,
            available_parallelism,
            guesser,
            word_to_guess,
            max_num_guesses,
            result,
            k,
        );
    }
}

/// A game is played turn by turn, whatever the guesser does: in each turn the guesser selects the
/// guess from the words that it selects from by default, after it was told the true results of all
/// guesses before. The turn tells how many words were possible then.
pub proof fn games_are_played_turn_by_turn<G: Guesser>(
    word_to_guess: &str,
    max_num_guesses: u32,
    guesser: G,
    result: GameResult,
    k: int,
)
    requires
        call_ensures(
            play_game_with_guesser::<G>,
            (word_to_guess, max_num_guesses, guesser),
            result,
        ),
        0 <= k < turns_of(result).len(),
    ensures
        exists|steps: Seq<Step>, before: G, guess: Arc<str>, selected: G|
            {
                &&& #[trigger] may_go(guesser, steps, before)
                &&& steps_of_turns(word_to_guess@, turns_of(result).take(k), steps)
                &&& #[trigger] before.may_select(before.default_mode(), Some(guess), &selected)
                &&& guess@ == turns_of(result)[k].guess@
                &&& turns_of(result)[k].num_possible_words_before_guess
                    == selected.possible().len()
            },
{
    let word = word_to_guess@;
    let turns = turns_of(result);
    let (before, guess, selected) = game_turn_at(
        word_to_guess,
        max_num_guesses,
        guesser,
        result,
        k,
    );
    let steps = steps_of_misses(word, guesser, turns.take(k), before);
    assert(may_go(guesser, steps, before));
    assert(before.may_select(before.default_mode(), Some(guess), &selected));
}

/// A game ends without turns only where the guesser, after it was told the true results of fewer
/// guesses than there may be, selects no word, or one of another length than the word.
pub proof fn games_are_given_up_without_a_guess<G: Guesser>(
    word_to_guess: &str,
    max_num_guesses: u32,
    guesser: G,
)
    requires
        call_ensures(
            play_game_with_guesser::<G>,
            (word_to_guess, max_num_guesses, guesser),
            GameResult::UnknownWord,
        ),
    ensures
        exists|
            turns: Seq<TurnData>,
            steps: Seq<Step>,
            before: G,
            guess: Option<Arc<str>>,
            selected: G,
        |
            {
                &&& turns.len() < max_num_guesses
                &&& #[trigger] may_go(guesser, steps, before)
                &&& #[trigger] steps_of_turns(word_to_guess@, turns, steps)
                &&& #[trigger] before.may_select(before.default_mode(), guess, &selected)
                &&& guess matches Some(guess) ==> guess@.len() != word_to_guess@.len()
            },
{
    let word = word_to_guess@;
    let (turns, before, guess, selected) = unknown_ending(word, max_num_guesses, guesser);
    let steps = steps_of_misses(word, guesser, turns, before);
    assert(may_go(guesser, steps, before));
    assert(steps_of_turns(word, turns, steps));
    assert(before.may_select(before.default_mode(), guess, &selected));
}

/// A new random guesser finds every word of its bank within as many guesses as there are words. It
/// does not know a word of another length, and gives up on other words after trying all.
pub proof fn new_random_guessers_find_the_words_of_their_bank(
    bank: WordBank,
    guesser: RandomGuesser,
    word_to_guess: &str,
    max_num_guesses: u32,
    result: GameResult,
)
    requires
        call_ensures(RandomGuesser::new, (bank,), guesser),
        all_of_length(bank@, bank.letters_per_word() as nat),
        bank.letters_per_word() <= u8::MAX,
        call_ensures(
            play_game_with_guesser::<RandomGuesser>,
            (word_to_guess, max_num_guesses, guesser),
            result,
        ),
    ensures
        reads(bank@, word_to_guess@) && max_num_guesses >= bank@.len() ==> result is Success,
        !reads(bank@, word_to_guess@) && max_num_guesses > bank@.len() ==> result is UnknownWord,
        word_to_guess@.len() != bank.letters_per_word() && max_num_guesses > 0
            ==> result is UnknownWord,
{
    let word = word_to_guess@;
    let word_length = bank.letters_per_word() as nat;
    new_random_guessers_know_the_bank(bank, guesser);
    if word.len() != word_length {
        if max_num_guesses > 0 {
            random_guesser_does_not_know_other_lengths(
                word,
                word_length,
                max_num_guesses,
                guesser,
                result,
            );
        }
        if reads(bank@, word) {
            let i = choose|i: int| 0 <= i < bank@.len() && (#[trigger] bank@[i])@ == word;
            assert(bank@[i]@.len() == word_length);
        }
    } else {
        assert(guesser@.restrictions.satisfied_by(word));
        if reads(bank@, word) && max_num_guesses >= bank@.len() {
            random_guesser_finds_possible_words(word, max_num_guesses, guesser, result);
        }
        if !reads(bank@, word) && max_num_guesses > bank@.len() {
            random_guesser_gives_up_on_unknown_words(word, max_num_guesses, guesser, result);
        }
    }
}

/// A new guesser that scores words finds every word of its bank within as many guesses as there are
/// words. It does not know a word of another length, and gives up on other words after trying all.
pub proof fn new_max_score_guessers_find_the_words_of_their_bank<T: WordScorer + Clone + Sync>(
    guess_mode: GuessFrom,
    bank: WordBank,
    scorer: T,
    available_parallelism: Option<usize>,
    guesser: MaxScoreGuesser<T>,
    word_to_guess: &str,
    max_num_guesses: u32,
    result: GameResult,
)
    requires
        call_ensures(
            MaxScoreGuesser::<T>::new,
            (guess_mode, bank, scorer, available_parallelism),
            guesser,
        ),
        all_of_length(bank@, bank.letters_per_word() as nat),
        bank.letters_per_word() <= u8::MAX,
        call_ensures(
            play_game_with_guesser::<MaxScoreGuesser<T>>,
            (word_to_guess, max_num_guesses, guesser),
            result,
        ),
    ensures
        reads(bank@, word_to_guess@) && max_num_guesses >= bank@.len() ==> result is Success,
        !reads(bank@, word_to_guess@) && max_num_guesses > bank@.len() ==> result is UnknownWord,
        word_to_guess@.len() != bank.letters_per_word() && max_num_guesses > 0
            ==> result is UnknownWord,
{
    let word = word_to_guess@;
    let word_length = bank.letters_per_word() as nat;
    new_guessers_know_the_bank(guess_mode, bank, scorer, available_parallelism, guesser);
    assert forall|known: Arc<str>| #[trigger] guesser@.groups.holds(known) implies bank@.contains(
        known,
    ) && known@.len() == word_length by {
        assert(bank@[bank@.index_of(known)] == known);
    }
    if word.len() != word_length {
        if max_num_guesses > 0 {
            max_score_guesser_does_not_know_other_lengths(word, max_num_guesses, guesser, result);
        }
        if reads(bank@, word) {
            let i = choose|i: int| 0 <= i < bank@.len() && (#[trigger] bank@[i])@ == word;
            assert(bank@[i]@.len() == word_length);
        }
    } else {
        assert(on_course(guesser@, word));
        if reads(bank@, word) && max_num_guesses >= bank@.len() {
            max_score_guesser_finds_possible_words(word, max_num_guesses, guesser, result);
        }
        if !reads(bank@, word) && max_num_guesses > bank@.len() {
            if guesser.knows(word) {
                let known = choose|known: Arc<str>| #[trigger]
                    guesser@.groups.holds(known) && known@ == word;
                assert(bank@[bank@.index_of(known)]@ == word);
            }
            max_score_guesser_gives_up_on_unknown_words(word, max_num_guesses, guesser, result);
        }
    }
}

/// A game can be played with a new random guesser and any word.
pub proof fn new_random_guessers_can_play(
    bank: WordBank,
    guesser: RandomGuesser,
    word_to_guess: &str,
    max_num_guesses: u32,
)
    requires
        call_ensures(RandomGuesser::new, (bank,), guesser),
        bank.letters_per_word() <= u8::MAX,
    ensures
        call_requires(
            play_game_with_guesser::<RandomGuesser>,
            (word_to_guess, max_num_guesses, guesser),
        ),
{
    assert(guesser.tracks(word_to_guess@));
}

/// A game can be played with a new guesser that scores words, and any word that its scorer follows,
/// or any word at all if the scorer never fails.
pub proof fn new_max_score_guessers_can_play<T: WordScorer + Clone + Sync>(
    guess_mode: GuessFrom,
    bank: WordBank,
    scorer: T,
    available_parallelism: Option<usize>,
    guesser: MaxScoreGuesser<T>,
    word_to_guess: &str,
    max_num_guesses: u32,
)
    requires
        call_ensures(
            MaxScoreGuesser::<T>::new,
            (guess_mode, bank, scorer, available_parallelism),
            guesser,
        ),
        bank.letters_per_word() <= u8::MAX,
        scorer.never_fails() || scorer.follows(word_to_guess@),
    ensures
        call_requires(
            play_game_with_guesser::<MaxScoreGuesser<T>>,
            (word_to_guess, max_num_guesses, guesser),
        ),
{
    assert(guesser.tracks(word_to_guess@));
}

} // verus!
