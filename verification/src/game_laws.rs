//! What holds of updates and of games as a whole.
use std::sync::Arc;
use vstd::prelude::*;

use crate::data::{
    all_of_length, fails, guessing_adds_no_word, listed_words_are_held, narrowing_adds_no_word,
    not_reading, reading, reads, satisfies, GroupsView,
};
use crate::engine::{
    may_end, may_go, may_not_know, may_step, may_succeed, misses_turn, misses_turns, selects_turn,
    GuessFrom, Guesser, Step,
};
use crate::max_score::{known_scores_fit, MaxScoreGuesser, MaxScoreView};
use crate::random::{RandomGuesser, RandomView};
use crate::ranking::is_first_best;
use crate::restrictions::RestrictionsView;
use crate::results::{
    all_correct, all_correct_iff_same_word, letter_results, truthful, GameResult, LetterResult,
    TurnData, WordleError,
};
use crate::scorers::WordScorer;

verus! {

/// A filter drops at least the item that does not pass it.
proof fn filter_drops<A>(items: Seq<A>, pred: spec_fn(A) -> bool, item: A)
    requires
        items.contains(item),
        !pred(item),
    ensures
        items.filter(pred).len() < items.len(),
    decreases items.len(),
{
    reveal(Seq::filter);
    items.lemma_filter_len(pred);
    items.drop_last().lemma_filter_len(pred);
    if items.last() != item {
        let i = items.index_of(item);
        assert(items.drop_last()[i] == item);
        filter_drops(items.drop_last(), pred, item);
    }
}

/// A filter and its opposite leave each item in one of the two lists.
proof fn splitting_loses_nothing<A>(
    items: Seq<A>,
    pred: spec_fn(A) -> bool,
    opposite: spec_fn(A) -> bool,
)
    requires
        forall|item: A| #[trigger] pred(item) != opposite(item),
    ensures
        items.filter(pred).len() + items.filter(opposite).len() == items.len(),
        forall|item: A| #[trigger]
            items.contains(item) <==> items.filter(pred).contains(item) || items.filter(
                opposite,
            ).contains(item),
    decreases items.len(),
{
    broadcast use Seq::lemma_filter_contains_rev;
    assert forall|item: A| #[trigger] items.contains(item) implies items.filter(pred).contains(item)
        || items.filter(opposite).contains(item) by {
        let i = items.index_of(item);
        if pred(item) {
            items.lemma_filter_contains(pred, i);
        } else {
            items.lemma_filter_contains(opposite, i);
        }
    }
    reveal(Seq::filter);
    if items.len() > 0 {
        splitting_loses_nothing(items.drop_last(), pred, opposite);
        assert(pred(items.last()) != opposite(items.last()));
    }
}

/// The possible words of narrowed groups are those possible words that satisfy the restrictions.
pub proof fn narrowing_filters_the_possible_words(
    groups: GroupsView,
    restrictions: RestrictionsView,
)
    ensures
        groups.narrowed(restrictions).possible() == groups.possible().filter(
            satisfies(restrictions),
        ),
{
    Seq::filter_distributes_over_add(groups.spent, groups.open, satisfies(restrictions));
}

/// What is learnt from the true result of a guess never speaks against the word.
pub proof fn true_results_fit_the_word(
    restrictions: RestrictionsView,
    word: Seq<char>,
    guess: Seq<char>,
    results: Seq<LetterResult>,
)
    requires
        restrictions.satisfied_by(word),
        truthful(word, guess, results),
    ensures
        restrictions.update_outcome(guess, results) is Ok,
        restrictions.updated(guess, results).satisfied_by(word),
{
    let after = restrictions.updated(guess, results);
    assert forall|k: int| 0 <= k < after.findings.len() implies truthful(
        word,
        (#[trigger] after.findings[k]).0,
        after.findings[k].1,
    ) by {
        if k < restrictions.findings.len() {
            assert(after.findings[k] == restrictions.findings[k]);
        }
    }
}

/// A guess that misses the word does not satisfy what is learnt from it.
pub proof fn a_miss_rules_itself_out(
    restrictions: RestrictionsView,
    word: Seq<char>,
    guess: Seq<char>,
)
    requires
        word.len() == guess.len(),
        guess != word,
        restrictions.update_outcome(guess, letter_results(word, guess)) is Ok,
    ensures
        !restrictions.updated(guess, letter_results(word, guess)).satisfied_by(guess),
{
    let results = letter_results(word, guess);
    let after = restrictions.updated(guess, results);
    all_correct_iff_same_word(word, guess);
    all_correct_iff_same_word(guess, guess);
    assert(after.findings[restrictions.findings.len() as int] == (guess, results));
}

/// The word stays possible when only restrictions that it satisfies narrow down the words.
pub proof fn the_word_stays_possible(
    groups: GroupsView,
    restrictions: RestrictionsView,
    word: Seq<char>,
)
    requires
        restrictions.satisfied_by(word),
    ensures
        reads(groups.possible(), word) ==> reads(groups.narrowed(restrictions).possible(), word),
        reads(groups.open, word) ==> reads(groups.narrowed(restrictions).open, word),
{
    narrowing_filters_the_possible_words(groups, restrictions);
    if reads(groups.possible(), word) {
        passing_word_stays(groups.possible(), restrictions, word);
    }
    if reads(groups.open, word) {
        passing_word_stays(groups.open, restrictions, word);
    }
}

proof fn passing_word_stays(
    words: Seq<Arc<str>>,
    restrictions: RestrictionsView,
    word: Seq<char>,
)
    requires
        restrictions.satisfied_by(word),
        reads(words, word),
    ensures
        reads(words.filter(satisfies(restrictions)), word),
{
    let i = choose|i: int| 0 <= i < words.len() && (#[trigger] words[i])@ == word;
    words.lemma_filter_contains(satisfies(restrictions), i);
    let kept = words.filter(satisfies(restrictions));
    let k = kept.index_of(words[i]);
    assert(kept[k]@ == word);
}

/// Narrowing leaves no possible word that was not possible, and none that does not satisfy the
/// restrictions.
pub proof fn only_fitting_words_stay_possible(
    groups: GroupsView,
    restrictions: RestrictionsView,
    word: Arc<str>,
)
    requires
        groups.narrowed(restrictions).possible().contains(word),
    ensures
        groups.possible().contains(word),
        restrictions.satisfied_by(word@),
{
    narrowing_filters_the_possible_words(groups, restrictions);
    groups.possible().lemma_filter_contains_rev(satisfies(restrictions), word);
    let kept = groups.possible().filter(satisfies(restrictions));
    groups.possible().lemma_filter_pred(satisfies(restrictions), kept.index_of(word));
}

/// Guessing a word changes at most the order of the possible words.
pub proof fn guessing_reorders_possible_words(groups: GroupsView, guess: Seq<char>)
    ensures
        groups.without_guess(guess).possible().len() == groups.possible().len(),
        forall|word: Arc<str>| #[trigger]
            groups.without_guess(guess).possible().contains(word) <==> groups.possible().contains(
                word,
            ),
{
    let after = groups.without_guess(guess).possible();
    let alike = groups.open.filter(reading(guess));
    let others = groups.open.filter(not_reading(guess));
    splitting_loses_nothing(groups.open, reading(guess), not_reading(guess));
    assert(after =~= groups.spent + (alike + others));
    assert forall|word: Arc<str>| #[trigger]
        after.contains(word) <==> groups.possible().contains(word) by {
        add_contains(groups.spent, alike + others, word);
        add_contains(alike, others, word);
        add_contains(groups.spent, groups.open, word);
    }
}

/// A list that is put together from two holds what they hold.
proof fn add_contains<A>(left: Seq<A>, right: Seq<A>, item: A)
    ensures
        (left + right).contains(item) <==> left.contains(item) || right.contains(item),
{
    if left.contains(item) {
        assert((left + right)[left.index_of(item)] == item);
    }
    if right.contains(item) {
        assert((left + right)[left.len() + right.index_of(item)] == item);
    }
    if (left + right).contains(item) {
        let k = (left + right).index_of(item);
        if k < left.len() {
            assert(left[k] == item);
        } else {
            assert(right[k - left.len()] == item);
        }
    }
}

/// Guessing a word takes away no possible word.
pub proof fn guessing_keeps_possible_words(groups: GroupsView, guess: Seq<char>, word: Seq<char>)
    requires
        reads(groups.possible(), word),
    ensures
        reads(groups.without_guess(guess).possible(), word),
{
    let after = groups.without_guess(guess).possible();
    let k = choose|k: int|
        0 <= k < groups.possible().len() && (#[trigger] groups.possible()[k])@ == word;
    let known = groups.possible()[k];
    guessing_reorders_possible_words(groups, guess);
    assert(groups.possible().contains(known));
    assert(after.contains(known));
    assert(after[after.index_of(known)]@ == word);
}

/// The true result of a guess is accepted, and never makes the word impossible to a random guesser.
pub proof fn true_updates_keep_the_word_possible_to_random_guessers(
    view: RandomView,
    word: Seq<char>,
    guess: Seq<char>,
    results: Seq<LetterResult>,
)
    requires
        view.restrictions.satisfied_by(word),
        reads(view.groups.possible(), word),
        truthful(word, guess, results),
    ensures
        view.restrictions.update_outcome(guess, results) is Ok,
        view.updated(guess, results).restrictions.satisfied_by(word),
        reads(view.updated(guess, results).groups.possible(), word),
{
    true_results_fit_the_word(view.restrictions, word, guess, results);
    guessing_keeps_possible_words(view.groups, guess, word);
    the_word_stays_possible(
        view.groups.without_guess(guess),
        view.restrictions.updated(guess, results),
        word,
    );
}

/// The true result of a guess is accepted, and never makes the word impossible to a guesser that
/// scores words, whatever becomes of the scorer.
pub proof fn true_updates_keep_the_word_possible_to_max_score_guessers<T: WordScorer>(
    view: MaxScoreView<T>,
    word: Seq<char>,
    guess: Seq<char>,
    results: Seq<LetterResult>,
    outcome: Result<(), WordleError>,
    after: MaxScoreView<T>,
)
    requires
        view.restrictions.satisfied_by(word),
        reads(view.groups.possible(), word),
        truthful(word, guess, results),
        view.may_update(guess, results, outcome, after),
    ensures
        after.restrictions.satisfied_by(word),
        reads(after.groups.possible(), word),
{
    true_results_fit_the_word(view.restrictions, word, guess, results);
    guessing_keeps_possible_words(view.groups, guess, word);
    the_word_stays_possible(
        view.groups.without_guess(guess),
        view.restrictions.updated(guess, results),
        word,
    );
}

/// Once all letters of a guess are correct, no other word satisfies the restrictions.
pub proof fn a_correct_guess_leaves_only_itself(
    restrictions: RestrictionsView,
    guess: Seq<char>,
    results: Seq<LetterResult>,
    word: Seq<char>,
)
    requires
        restrictions.update_outcome(guess, results) is Ok,
        all_correct(results),
        restrictions.updated(guess, results).satisfied_by(word),
    ensures
        word == guess,
{
    let after = restrictions.updated(guess, results);
    assert(after.findings[restrictions.findings.len() as int] == (guess, results));
    all_correct_iff_same_word(word, guess);
}

/// Takes the last of the turns that miss the word apart: the guesser before it, the guess, and the
/// guesser after the selection.
pub(crate) proof fn last_miss<G: Guesser>(
    word: Seq<char>,
    start: G,
    turns: Seq<TurnData>,
    end: G,
) -> (miss: (G, Arc<str>, G))
    requires
        turns.len() > 0,
        misses_turns(word, start, turns, end),
    ensures
        misses_turns(word, start, turns.drop_last(), miss.0),
        miss.0.may_select(miss.0.default_mode(), Some(miss.1), &miss.2),
        miss.1@ == turns.last().guess@,
        turns.last().num_possible_words_before_guess == miss.2.possible().len(),
        miss.1@.len() == word.len(),
        miss.1@ != word,
        miss.2.may_update(miss.1@, letter_results(word, miss.1@), Ok(()), &end),
{
    let turn = turns.last();
    let before = choose|before: G|
        misses_turns(word, start, turns.drop_last(), before) && #[trigger] misses_turn(
            word,
            before,
            turn,
            end,
        );
    let selected = choose|selected: G| #[trigger]
        selects_turn(before, turn, selected) && selected.may_update(
            turn.guess@,
            letter_results(word, turn.guess@),
            Ok(()),
            &end,
        );
    (before, turn_guess(before, turn, selected), selected)
}

/// The word that was selected in a turn.
proof fn turn_guess<G: Guesser>(before: G, turn: TurnData, selected: G) -> (guess: Arc<str>)
    requires
        selects_turn(before, turn, selected),
    ensures
        guess@ == turn.guess@,
        before.may_select(before.default_mode(), Some(guess), &selected),
{
    choose|guess: Arc<str>| #[trigger]
        guess@ == turn.guess@ && before.may_select(before.default_mode(), Some(guess), &selected)
}

/// Takes the turn that finds the word apart: the guesser before it, the guess, and the guesser
/// after the selection.
pub(crate) proof fn winning_turn<G: Guesser>(
    word: Seq<char>,
    max_num_guesses: u32,
    guesser: G,
    turns: Seq<TurnData>,
) -> (win: (G, Arc<str>, G))
    requires
        may_succeed(word, max_num_guesses, guesser, turns),
    ensures
        misses_turns(word, guesser, turns.drop_last(), win.0),
        win.0.may_select(win.0.default_mode(), Some(win.1), &win.2),
        win.1@ == word,
        turns.last().num_possible_words_before_guess == win.2.possible().len(),
{
    let (before, selected) = choose|before: G, selected: G| #[trigger]
        misses_turns(word, guesser, turns.drop_last(), before) && #[trigger] selects_turn(
            before,
            turns.last(),
            selected,
        );
    (before, turn_guess(before, turns.last(), selected), selected)
}

/// Takes a game apart that ends with no guess, or with one of the wrong length: the turns before,
/// the guesser after them, what it selects, and the guesser after the selection.
pub(crate) proof fn unknown_ending<G: Guesser>(
    word: Seq<char>,
    max_num_guesses: u32,
    guesser: G,
) -> (last: (Seq<TurnData>, G, Option<Arc<str>>, G))
    requires
        may_not_know(word, max_num_guesses, guesser),
    ensures
        last.0.len() < max_num_guesses,
        misses_turns(word, guesser, last.0, last.1),
        last.1.may_select(last.1.default_mode(), last.2, &last.3),
        last.2 matches Some(guess) ==> guess@.len() != word.len(),
{
    choose|turns: Seq<TurnData>, before: G, guess: Option<Arc<str>>, selected: G|
        {
            &&& turns.len() < max_num_guesses
            &&& #[trigger] misses_turns(word, guesser, turns, before)
            &&& #[trigger] before.may_select(before.default_mode(), guess, &selected)
            &&& (guess matches Some(guess) ==> guess@.len() != word.len())
        }
}

/// One turn of a random guesser that misses the word: fewer words are possible, and the word still
/// is if it was.
proof fn random_miss(view: RandomView, word: Seq<char>, guess: Arc<str>)
    requires
        view.restrictions.satisfied_by(word),
        view.groups.possible().contains(guess),
        guess@.len() == word.len(),
        guess@ != word,
    ensures
        ({
            let after = view.updated(guess@, letter_results(word, guess@));
            &&& after.restrictions.satisfied_by(word)
            &&& after.groups.possible().len() < view.groups.possible().len()
            &&& reads(view.groups.possible(), word) ==> reads(after.groups.possible(), word)
            &&& forall|known: Arc<str>| #[trigger]
                after.groups.possible().contains(known) ==> view.groups.possible().contains(known)
        }),
{
    let results = letter_results(word, guess@);
    true_results_fit_the_word(view.restrictions, word, guess@, results);
    a_miss_rules_itself_out(view.restrictions, word, guess@);
    let restrictions = view.restrictions.updated(guess@, results);
    let guessed = view.groups.without_guess(guess@);
    guessing_reorders_possible_words(view.groups, guess@);
    narrowing_filters_the_possible_words(guessed, restrictions);
    assert(guessed.possible().contains(guess));
    filter_drops(guessed.possible(), satisfies(restrictions), guess);
    if reads(view.groups.possible(), word) {
        guessing_keeps_possible_words(view.groups, guess@, word);
    }
    the_word_stays_possible(guessed, restrictions, word);
    let after = view.updated(guess@, results);
    assert forall|known: Arc<str>| #[trigger]
        after.groups.possible().contains(known) implies view.groups.possible().contains(known) by {
        only_fitting_words_stay_possible(guessed, restrictions, known);
        assert(guessed.possible().contains(known));
    }
}

/// The turns of a random guesser that miss the word.
proof fn random_misses(
    word: Seq<char>,
    start: RandomGuesser,
    turns: Seq<TurnData>,
    end: RandomGuesser,
)
    requires
        misses_turns(word, start, turns, end),
        start@.restrictions.satisfied_by(word),
    ensures
        end@.restrictions.satisfied_by(word),
        end.possible().len() + turns.len() <= start.possible().len(),
        reads(start.possible(), word) ==> reads(end.possible(), word),
        forall|known: Arc<str>| #[trigger]
            end.possible().contains(known) ==> start.possible().contains(known),
    decreases turns.len(),
{
    if turns.len() > 0 {
        let (before, guess, _) = last_miss(word, start, turns, end);
        random_misses(word, start, turns.drop_last(), before);
        random_miss(before@, word, guess);
    }
}

/// A random guesser always finds a word that is possible to it, if it may guess as often as there
/// are possible words.
pub proof fn random_guesser_finds_possible_words(
    word: Seq<char>,
    max_num_guesses: u32,
    guesser: RandomGuesser,
    result: GameResult,
)
    requires
        guesser@.restrictions.satisfied_by(word),
        all_of_length(guesser.possible(), word.len()),
        reads(guesser.possible(), word),
        max_num_guesses >= guesser.possible().len(),
        may_end(word, max_num_guesses, guesser, result),
    ensures
        result is Success,
{
    match result {
        GameResult::Success(_) => {},
        GameResult::Failure(data) => {
            let end = choose|end: RandomGuesser| #[trigger]
                misses_turns(word, guesser, data.turns@, end);
            random_misses(word, guesser, data.turns@, end);
        },
        GameResult::UnknownWord => {
            let (turns, before, guess, _) = unknown_ending(word, max_num_guesses, guesser);
            random_misses(word, guesser, turns, before);
            if let Some(guess) = guess {
                assert(before.possible().contains(guess));
                let i = guesser.possible().index_of(guess);
                assert(guesser.possible()[i]@.len() == word.len());
            }
        },
    }
}

/// A random guesser never finds a word that is not possible to it, and gives up once it has ruled
/// out all words.
pub proof fn random_guesser_gives_up_on_unknown_words(
    word: Seq<char>,
    max_num_guesses: u32,
    guesser: RandomGuesser,
    result: GameResult,
)
    requires
        guesser@.restrictions.satisfied_by(word),
        !reads(guesser.possible(), word),
        max_num_guesses > guesser.possible().len(),
        may_end(word, max_num_guesses, guesser, result),
    ensures
        result is UnknownWord,
{
    match result {
        GameResult::Success(data) => {
            let turns = data.turns@;
            let (before, guess, _) = winning_turn(word, max_num_guesses, guesser, turns);
            random_misses(word, guesser, turns.drop_last(), before);
            assert(before.possible().contains(guess));
            let i = guesser.possible().index_of(guess);
            assert(guesser.possible()[i]@ == word);
        },
        GameResult::Failure(data) => {
            let end = choose|end: RandomGuesser| #[trigger]
                misses_turns(word, guesser, data.turns@, end);
            random_misses(word, guesser, data.turns@, end);
        },
        GameResult::UnknownWord => {},
    }
}

/// No turn of a random guesser misses a word of another length than its words have.
proof fn random_guesser_takes_no_turn(
    word: Seq<char>,
    word_length: nat,
    start: RandomGuesser,
    turns: Seq<TurnData>,
    end: RandomGuesser,
)
    requires
        misses_turns(word, start, turns, end),
        all_of_length(start.possible(), word_length),
        word.len() != word_length,
    ensures
        turns.len() == 0,
    decreases turns.len(),
{
    if turns.len() > 0 {
        let (before, guess, _) = last_miss(word, start, turns, end);
        random_guesser_takes_no_turn(word, word_length, start, turns.drop_last(), before);
        let i = start.possible().index_of(guess);
        assert(start.possible()[i]@.len() == word_length);
    }
}

/// A random guesser does not know a word of another length than its words have.
pub proof fn random_guesser_does_not_know_other_lengths(
    word: Seq<char>,
    word_length: nat,
    max_num_guesses: u32,
    guesser: RandomGuesser,
    result: GameResult,
)
    requires
        all_of_length(guesser.possible(), word_length),
        word.len() != word_length,
        max_num_guesses > 0,
        may_end(word, max_num_guesses, guesser, result),
    ensures
        result is UnknownWord,
{
    match result {
        GameResult::Success(data) => {
            let turns = data.turns@;
            let (before, guess, _) = winning_turn(word, max_num_guesses, guesser, turns);
            random_guesser_takes_no_turn(word, word_length, guesser, turns.drop_last(), before);
            let i = guesser.possible().index_of(guess);
            assert(guesser.possible()[i]@.len() == word_length);
        },
        GameResult::Failure(data) => {
            let end = choose|end: RandomGuesser| #[trigger]
                misses_turns(word, guesser, data.turns@, end);
            random_guesser_takes_no_turn(word, word_length, guesser, data.turns@, end);
        },
        GameResult::UnknownWord => {},
    }
}

/// Guessing one of the unguessed words makes them fewer, and leaves the other possible words as
/// they were.
pub proof fn guessing_uses_up_a_word(groups: GroupsView, guess: Seq<char>)
    requires
        reads(groups.unguessed(), guess),
    ensures
        groups.without_guess(guess).unguessed().len() < groups.unguessed().len(),
        forall|word: Seq<char>|
            word != guess && #[trigger] reads(groups.open, word) ==> reads(
                groups.without_guess(guess).open,
                word,
            ),
        forall|k: int|
            groups.spent.len() <= k < groups.without_guess(guess).spent.len()
                ==> groups.without_guess(guess).spent[k]@ == guess,
        groups.without_guess(guess).spent.take(groups.spent.len() as int) == groups.spent,
{
    let after = groups.without_guess(guess);
    let u = choose|u: int|
        0 <= u < groups.unguessed().len() && (#[trigger] groups.unguessed()[u])@ == guess;
    groups.open.lemma_filter_len(not_reading(guess));
    groups.ruled_out.lemma_filter_len(not_reading(guess));
    if u < groups.open.len() {
        filter_drops(groups.open, not_reading(guess), groups.open[u]);
    } else {
        let r = u - groups.open.len();
        filter_drops(groups.ruled_out, not_reading(guess), groups.ruled_out[r]);
    }
    assert(after.spent.take(groups.spent.len() as int) =~= groups.spent);
    assert forall|k: int| groups.spent.len() <= k < after.spent.len() implies after.spent[k]@
        == guess by {
        groups.open.lemma_filter_pred(reading(guess), k - groups.spent.len());
    }
    assert forall|word: Seq<char>|
        word != guess && #[trigger] reads(groups.open, word) implies reads(after.open, word) by {
        let k = choose|k: int| 0 <= k < groups.open.len() && (#[trigger] groups.open[k])@ == word;
        groups.open.lemma_filter_contains(not_reading(guess), k);
        assert(after.open[after.open.index_of(groups.open[k])]@ == word);
    }
}

/// Narrowing down the possible words keeps the number of unguessed words.
pub proof fn narrowing_keeps_unguessed_words(groups: GroupsView, restrictions: RestrictionsView)
    ensures
        groups.narrowed(restrictions).unguessed().len() == groups.unguessed().len(),
{
    splitting_loses_nothing(groups.open, satisfies(restrictions), fails(restrictions));
}

/// Whether a guesser has no possible word that was guessed, and knows nothing that speaks against
/// `word`.
pub open spec fn on_course<T: WordScorer>(view: MaxScoreView<T>, word: Seq<char>) -> bool {
    &&& view.groups.spent.len() == 0
    &&& view.restrictions.satisfied_by(word)
}

/// What a guesser that scores words selects is one of the words that it looks at, and so one of its
/// words.
proof fn selection_is_held<T: WordScorer>(view: MaxScoreView<T>, from: GuessFrom, guess: Arc<str>)
    requires
        view.scores_fit(),
        view.may_select(from, Some(guess)),
    ensures
        view.words_to_score(from).contains(guess),
        view.groups.holds(guess),
{
    let words = view.words_to_score(from);
    let i = choose|i: int| #[trigger]
        is_first_best(view.scores(from), i) && guess == words[i];
    assert(words[i] == guess);
    listed_words_are_held(view.groups);
}

/// What a guesser on course selects is one of the unguessed words.
proof fn selection_is_unguessed<T: WordScorer>(
    view: MaxScoreView<T>,
    from: GuessFrom,
    guess: Arc<str>,
)
    requires
        view.groups.spent.len() == 0,
        view.scores_fit(),
        view.may_select(from, Some(guess)),
    ensures
        view.groups.unguessed().contains(guess),
{
    selection_is_held(view, from, guess);
    let i = view.words_to_score(from).index_of(guess);
    assert(view.groups.possible() =~= view.groups.open);
    assert(view.groups.unguessed()[i] == guess);
}

/// One turn of a guesser that misses the word: fewer words are unguessed, and the word is still
/// possible if it was.
proof fn max_score_miss<T: WordScorer>(
    view: MaxScoreView<T>,
    word: Seq<char>,
    guess: Arc<str>,
    scorer: T,
)
    requires
        on_course(view, word),
        view.groups.unguessed().contains(guess),
        guess@.len() == word.len(),
        guess@ != word,
    ensures
        ({
            let after = view.after_result(guess@, letter_results(word, guess@), scorer);
            &&& on_course(after, word)
            &&& after.groups.unguessed().len() < view.groups.unguessed().len()
            &&& reads(view.groups.open, word) ==> reads(after.groups.open, word)
            &&& forall|known: Arc<str>| #[trigger]
                after.groups.holds(known) ==> view.groups.holds(known)
        }),
{
    let results = letter_results(word, guess@);
    true_results_fit_the_word(view.restrictions, word, guess@, results);
    a_miss_rules_itself_out(view.restrictions, word, guess@);
    let restrictions = view.restrictions.updated(guess@, results);
    let guessed = view.groups.without_guess(guess@);
    let u = view.groups.unguessed().index_of(guess);
    assert(view.groups.unguessed()[u]@ == guess@);
    guessing_uses_up_a_word(view.groups, guess@);
    guessing_adds_no_word(view.groups, guess@);
    narrowing_adds_no_word(guessed, restrictions);
    narrowing_keeps_unguessed_words(guessed, restrictions);
    the_word_stays_possible(guessed, restrictions, word);
    let after = view.after_result(guess@, results, scorer);
    if after.groups.spent.len() > 0 {
        let kept = after.groups.spent[0];
        guessed.spent.lemma_filter_pred(satisfies(restrictions), 0);
        assert(guessed.spent.filter(satisfies(restrictions)).contains(kept));
        guessed.spent.lemma_filter_contains_rev(satisfies(restrictions), kept);
        let k = guessed.spent.index_of(kept);
        assert(guessed.spent[k]@ == guess@);
    }
}

/// The turns of a guesser that miss the word.
proof fn max_score_misses<T: WordScorer + Clone + Sync>(
    word: Seq<char>,
    start: MaxScoreGuesser<T>,
    turns: Seq<TurnData>,
    end: MaxScoreGuesser<T>,
)
    requires
        misses_turns(word, start, turns, end),
        on_course(start@, word),
        start@.scores_fit(),
    ensures
        on_course(end@, word),
        end@.scores_fit(),
        end@.default_guess_mode == start@.default_guess_mode,
        end@.groups.unguessed().len() + turns.len() <= start@.groups.unguessed().len(),
        reads(start@.groups.open, word) ==> reads(end@.groups.open, word),
        forall|known: Arc<str>| #[trigger]
            end@.groups.holds(known) ==> start@.groups.holds(known),
    decreases turns.len(),
{
    if turns.len() > 0 {
        let (before, guess, selected) = last_miss(word, start, turns, end);
        max_score_misses(word, start, turns.drop_last(), before);
        selection_is_unguessed(before@, before.default_mode(), guess);
        max_score_miss(selected@, word, guess, end@.scorer);
        true_results_fit_the_word(
            selected@.restrictions,
            word,
            guess@,
            letter_results(word, guess@),
        );
    }
}

/// A guesser that scores words always finds a word that is possible to it, if it may guess as often
/// as there are unguessed words.
pub proof fn max_score_guesser_finds_possible_words<T: WordScorer + Clone + Sync>(
    word: Seq<char>,
    max_num_guesses: u32,
    guesser: MaxScoreGuesser<T>,
    result: GameResult,
)
    requires
        guesser.inv(),
        on_course(guesser@, word),
        forall|known: Arc<str>| #[trigger]
            guesser@.groups.holds(known) ==> known@.len() == word.len(),
        reads(guesser@.groups.open, word),
        max_num_guesses >= guesser@.groups.unguessed().len(),
        may_end(word, max_num_guesses, guesser, result),
    ensures
        result is Success,
{
    known_scores_fit(guesser);
    match result {
        GameResult::Success(_) => {},
        GameResult::Failure(data) => {
            let end = choose|end: MaxScoreGuesser<T>| #[trigger]
                misses_turns(word, guesser, data.turns@, end);
            max_score_misses(word, guesser, data.turns@, end);
        },
        GameResult::UnknownWord => {
            let (turns, before, guess, _) = unknown_ending(word, max_num_guesses, guesser);
            max_score_misses(word, guesser, turns, before);
            let from = before@.default_guess_mode;
            match guess {
                Some(guess) => {
                    selection_is_unguessed(before@, from, guess);
                    listed_words_are_held(before@.groups);
                },
                None => {
                    let open = before@.groups.open;
                    let k = choose|k: int| 0 <= k < open.len() && (#[trigger] open[k])@ == word;
                    assert(before@.groups.possible().len() > 0);
                },
            }
        },
    }
}

/// A guesser that scores words never finds a word that it does not know, and gives up once it has
/// used up all words.
pub proof fn max_score_guesser_gives_up_on_unknown_words<T: WordScorer + Clone + Sync>(
    word: Seq<char>,
    max_num_guesses: u32,
    guesser: MaxScoreGuesser<T>,
    result: GameResult,
)
    requires
        guesser.inv(),
        on_course(guesser@, word),
        !guesser.knows(word),
        max_num_guesses > guesser@.groups.unguessed().len(),
        may_end(word, max_num_guesses, guesser, result),
    ensures
        result is UnknownWord,
{
    known_scores_fit(guesser);
    match result {
        GameResult::Success(data) => {
            let turns = data.turns@;
            let (before, guess, _) = winning_turn(word, max_num_guesses, guesser, turns);
            max_score_misses(word, guesser, turns.drop_last(), before);
            selection_is_unguessed(before@, before.default_mode(), guess);
            listed_words_are_held(before@.groups);
            assert(guesser@.groups.holds(guess));
        },
        GameResult::Failure(data) => {
            let end = choose|end: MaxScoreGuesser<T>| #[trigger]
                misses_turns(word, guesser, data.turns@, end);
            max_score_misses(word, guesser, data.turns@, end);
        },
        GameResult::UnknownWord => {},
    }
}

/// No turn of a guesser that scores words misses a word of another length than its words have.
proof fn max_score_guesser_takes_no_turn<T: WordScorer + Clone + Sync>(
    word: Seq<char>,
    start: MaxScoreGuesser<T>,
    turns: Seq<TurnData>,
    end: MaxScoreGuesser<T>,
)
    requires
        misses_turns(word, start, turns, end),
        start@.scores_fit(),
        forall|known: Arc<str>| #[trigger]
            start@.groups.holds(known) ==> known@.len() != word.len(),
    ensures
        turns.len() == 0,
    decreases turns.len(),
{
    if turns.len() > 0 {
        let (before, guess, _) = last_miss(word, start, turns, end);
        max_score_guesser_takes_no_turn(word, start, turns.drop_last(), before);
        selection_is_held(start@, start.default_mode(), guess);
    }
}

/// A guesser that scores words does not know a word of another length than its words have.
pub proof fn max_score_guesser_does_not_know_other_lengths<T: WordScorer + Clone + Sync>(
    word: Seq<char>,
    max_num_guesses: u32,
    guesser: MaxScoreGuesser<T>,
    result: GameResult,
)
    requires
        guesser.inv(),
        forall|known: Arc<str>| #[trigger]
            guesser@.groups.holds(known) ==> known@.len() != word.len(),
        max_num_guesses > 0,
        may_end(word, max_num_guesses, guesser, result),
    ensures
        result is UnknownWord,
{
    known_scores_fit(guesser);
    match result {
        GameResult::Success(data) => {
            let turns = data.turns@;
            let (before, guess, _) = winning_turn(word, max_num_guesses, guesser, turns);
            max_score_guesser_takes_no_turn(word, guesser, turns.drop_last(), before);
            selection_is_held(guesser@, guesser.default_mode(), guess);
        },
        GameResult::Failure(data) => {
            let end = choose|end: MaxScoreGuesser<T>| #[trigger]
                misses_turns(word, guesser, data.turns@, end);
            max_score_guesser_takes_no_turn(word, guesser, data.turns@, end);
        },
        GameResult::UnknownWord => {},
    }
}

/// Once a word has been guessed, no unguessed word reads like it, and no unguessed word is new.
pub proof fn a_guess_is_not_left_unguessed(groups: GroupsView, guess: Seq<char>)
    ensures
        !reads(groups.without_guess(guess).unguessed(), guess),
        forall|text: Seq<char>| #[trigger]
            reads(groups.without_guess(guess).unguessed(), text) ==> reads(
                groups.unguessed(),
                text,
            ),
{
    Seq::filter_distributes_over_add(groups.open, groups.ruled_out, not_reading(guess));
    let words = groups.unguessed();
    let after = groups.without_guess(guess).unguessed();
    assert(after == words.filter(not_reading(guess)));
    assert forall|k: int| 0 <= k < after.len() implies (#[trigger] after[k])@ != guess by {
        words.lemma_filter_pred(not_reading(guess), k);
    }
    assert forall|text: Seq<char>| #[trigger] reads(after, text) implies reads(words, text) by {
        let k = choose|k: int| 0 <= k < after.len() && (#[trigger] after[k])@ == text;
        assert(after.contains(after[k]));
        words.lemma_filter_contains_rev(not_reading(guess), after[k]);
        assert(words[words.index_of(after[k])]@ == text);
    }
}

/// Narrowing down the possible words adds none to the unguessed words.
pub proof fn narrowing_adds_no_unguessed_word(groups: GroupsView, restrictions: RestrictionsView)
    ensures
        forall|text: Seq<char>| #[trigger]
            reads(groups.narrowed(restrictions).unguessed(), text) ==> reads(
                groups.unguessed(),
                text,
            ),
{
    let words = groups.unguessed();
    let kept = groups.open.filter(satisfies(restrictions));
    let rejected = groups.open.filter(fails(restrictions));
    let after = groups.narrowed(restrictions).unguessed();
    splitting_loses_nothing(groups.open, satisfies(restrictions), fails(restrictions));
    assert(after =~= kept + rejected + groups.ruled_out);
    assert forall|text: Seq<char>| #[trigger] reads(after, text) implies reads(words, text) by {
        let k = choose|k: int| 0 <= k < after.len() && (#[trigger] after[k])@ == text;
        let word = after[k];
        assert(after.contains(word));
        add_contains(kept + rejected, groups.ruled_out, word);
        add_contains(kept, rejected, word);
        add_contains(groups.open, groups.ruled_out, word);
        assert(words[words.index_of(word)]@ == text);
    }
}

/// The guesser before the last of the steps.
proof fn before_last_step<G: Guesser>(start: G, steps: Seq<Step>, end: G) -> (before: G)
    requires
        steps.len() > 0,
        may_go(start, steps, end),
    ensures
        may_go(start, steps.drop_last(), before),
        may_step(before, steps.last(), end),
{
    choose|before: G|
        may_go(start, steps.drop_last(), before) && #[trigger] may_step(before, steps.last(), end)
}

/// What steps leave of the words of a random guesser.
proof fn random_steps(start: RandomGuesser, steps: Seq<Step>, end: RandomGuesser)
    requires
        may_go(start, steps, end),
    ensures
        forall|known: Arc<str>| #[trigger]
            end@.groups.holds(known) ==> start@.groups.holds(known),
        forall|k: int, guess: Seq<char>|
            0 <= k < steps.len() && #[trigger] steps[k].teaches(guess) ==> !reads(
                end@.groups.unguessed(),
                guess,
            ),
    decreases steps.len(),
{
    if steps.len() > 0 {
        let before = before_last_step(start, steps, end);
        random_steps(start, steps.drop_last(), before);
        if let Step::Update(guess, results, _) = steps.last() {
            let restrictions = before@.restrictions.updated(guess, results);
            let guessed = before@.groups.without_guess(guess);
            guessing_adds_no_word(before@.groups, guess);
            narrowing_adds_no_word(guessed, restrictions);
            a_guess_is_not_left_unguessed(before@.groups, guess);
            narrowing_adds_no_unguessed_word(guessed, restrictions);
        }
        assert forall|k: int, guess: Seq<char>|
            0 <= k < steps.len() && #[trigger] steps[k].teaches(guess) implies !reads(
            end@.groups.unguessed(),
            guess,
        ) by {
            if k < steps.len() - 1 {
                assert(steps.drop_last()[k].teaches(guess));
            }
        }
    }
}

/// Whatever a random guesser has selected and learnt before, it selects one of its words, a
/// possible one if it selects from those, and none that it guessed before unless that is still
/// possible.
pub proof fn random_guesser_does_not_repeat_itself(
    words: Seq<Arc<str>>,
    start: RandomGuesser,
    steps: Seq<Step>,
    end: RandomGuesser,
    from: GuessFrom,
    guess: Arc<str>,
    after: RandomGuesser,
)
    requires
        start@.groups == GroupsView::unguessed_and_possible(words),
        may_go(start, steps, end),
        end.may_select(from, Some(guess), &after),
    ensures
        words.contains(guess),
        from == GuessFrom::PossibleWords ==> end.possible().contains(guess),
        forall|k: int|
            0 <= k < steps.len() && (#[trigger] steps[k]).teaches(guess@)
                ==> end.possible().contains(guess),
{
    assert(start@.groups.unguessed() =~= words);
    random_steps(start, steps, end);
    listed_words_are_held(end@.groups);
    assert(end@.groups.holds(guess));
    if end@.groups.unguessed().contains(guess) {
        let u = end@.groups.unguessed().index_of(guess);
        assert(end@.groups.unguessed()[u]@ == guess@);
    }
}

/// What steps leave of the words of a guesser that scores words.
proof fn max_score_steps<T: WordScorer + Clone + Sync>(
    start: MaxScoreGuesser<T>,
    steps: Seq<Step>,
    end: MaxScoreGuesser<T>,
)
    requires
        start@.scores_fit(),
        may_go(start, steps, end),
    ensures
        end@.scores_fit(),
        forall|known: Arc<str>| #[trigger]
            end@.groups.holds(known) ==> start@.groups.holds(known),
        forall|k: int, guess: Seq<char>|
            0 <= k < steps.len() && #[trigger] steps[k].reports(guess) ==> !reads(
                end@.groups.unguessed(),
                guess,
            ),
    decreases steps.len(),
{
    if steps.len() > 0 {
        let before = before_last_step(start, steps, end);
        max_score_steps(start, steps.drop_last(), before);
        if let Step::Update(guess, results, _) = steps.last() {
            let restrictions = before@.restrictions.updated(guess, results);
            let guessed = before@.groups.without_guess(guess);
            guessing_adds_no_word(before@.groups, guess);
            narrowing_adds_no_word(guessed, restrictions);
            a_guess_is_not_left_unguessed(before@.groups, guess);
            narrowing_adds_no_unguessed_word(guessed, restrictions);
        }
        assert forall|k: int, guess: Seq<char>|
            0 <= k < steps.len() && #[trigger] steps[k].reports(guess) implies !reads(
            end@.groups.unguessed(),
            guess,
        ) by {
            if k < steps.len() - 1 {
                assert(steps.drop_last()[k].reports(guess));
            }
        }
    }
}

/// Whatever a guesser that scores words has selected and learnt before, it selects one of its
/// words, a possible one if it selects from those or at most two are possible, and none that it
/// guessed before unless that is still possible.
pub proof fn max_score_guesser_does_not_repeat_itself<T: WordScorer + Clone + Sync>(
    words: Seq<Arc<str>>,
    start: MaxScoreGuesser<T>,
    steps: Seq<Step>,
    end: MaxScoreGuesser<T>,
    from: GuessFrom,
    guess: Arc<str>,
    after: MaxScoreGuesser<T>,
)
    requires
        start@.groups == GroupsView::unguessed_and_possible(words),
        start@.scores_fit(),
        may_go(start, steps, end),
        end.may_select(from, Some(guess), &after),
    ensures
        words.contains(guess),
        from == GuessFrom::PossibleWords || end.possible().len() <= 2 ==> end.possible().contains(
            guess,
        ),
        forall|k: int|
            0 <= k < steps.len() && (#[trigger] steps[k]).reports(guess@)
                ==> end.possible().contains(guess),
{
    assert(start@.groups.unguessed() =~= words);
    max_score_steps(start, steps, end);
    selection_is_held(end@, from, guess);
    if end@.groups.unguessed().contains(guess) {
        let u = end@.groups.unguessed().index_of(guess);
        assert(end@.groups.unguessed()[u]@ == guess@);
    }
}

/// Whether the possible words are exactly those of `words` that satisfy the restrictions.
pub open spec fn possible_words_fit(
    groups: GroupsView,
    restrictions: RestrictionsView,
    words: Seq<Arc<str>>,
) -> bool {
    forall|word: Arc<str>| #[trigger]
        groups.possible().contains(word) <==> words.contains(word) && restrictions.satisfied_by(
            word@,
        )
}

/// Whether the possible words are some of `words`, among them all that satisfy the restrictions.
spec fn no_fitting_word_is_missed(
    groups: GroupsView,
    restrictions: RestrictionsView,
    words: Seq<Arc<str>>,
) -> bool {
    &&& forall|word: Arc<str>| #[trigger] groups.possible().contains(word) ==> words.contains(word)
    &&& forall|word: Arc<str>| #[trigger]
        words.contains(word) && restrictions.satisfied_by(word@) ==> groups.possible().contains(
            word,
        )
}

/// Once a good result is taken up, the possible words are those that satisfy the restrictions.
proof fn a_good_result_leaves_fitting_words(
    groups: GroupsView,
    restrictions: RestrictionsView,
    words: Seq<Arc<str>>,
    guess: Seq<char>,
    results: Seq<LetterResult>,
)
    requires
        no_fitting_word_is_missed(groups, restrictions, words),
        restrictions.update_outcome(guess, results) is Ok,
    ensures
        possible_words_fit(
            groups.without_guess(guess).narrowed(restrictions.updated(guess, results)),
            restrictions.updated(guess, results),
            words,
        ),
{
    let learnt = restrictions.updated(guess, results);
    let guessed = groups.without_guess(guess);
    let after = guessed.narrowed(learnt);
    guessing_reorders_possible_words(groups, guess);
    narrowing_filters_the_possible_words(guessed, learnt);
    assert forall|word: Arc<str>| #[trigger]
        after.possible().contains(word) <==> words.contains(word) && learnt.satisfied_by(word@) by {
        if after.possible().contains(word) {
            only_fitting_words_stay_possible(guessed, learnt, word);
            assert(guessed.possible().contains(word));
        }
        if words.contains(word) && learnt.satisfied_by(word@) {
            assert forall|k: int| 0 <= k < restrictions.findings.len() implies truthful(
                word@,
                (#[trigger] restrictions.findings[k]).0,
                restrictions.findings[k].1,
            ) by {
                assert(learnt.findings[k] == restrictions.findings[k]);
            }
            assert(restrictions.satisfied_by(word@));
            assert(guessed.possible().contains(word));
            let i = guessed.possible().index_of(word);
            guessed.possible().lemma_filter_contains(satisfies(learnt), i);
        }
    }
}

/// Without restrictions, words are possible that satisfy them, unless they are longer than the
/// restrictions can count.
proof fn all_words_fit_at_first(words: Seq<Arc<str>>, word_length: usize)
    requires
        all_of_length(words, word_length as nat),
    ensures
        ({
            let groups = GroupsView::unguessed_and_possible(words);
            let restrictions = RestrictionsView::unrestricted(word_length as u8);
            &&& no_fitting_word_is_missed(groups, restrictions, words)
            &&& word_length <= u8::MAX ==> possible_words_fit(groups, restrictions, words)
        }),
{
    let groups = GroupsView::unguessed_and_possible(words);
    assert(groups.possible() =~= words);
    assert forall|word: Arc<str>| #[trigger] words.contains(word) implies word@.len()
        == word_length by {
        assert(words[words.index_of(word)] == word);
    }
}

/// What steps leave possible to a random guesser.
proof fn random_steps_leave_fitting_words(
    words: Seq<Arc<str>>,
    word_length: usize,
    start: RandomGuesser,
    steps: Seq<Step>,
    end: RandomGuesser,
)
    requires
        all_of_length(words, word_length as nat),
        start@ == RandomView::initial(words, word_length),
        may_go(start, steps, end),
    ensures
        no_fitting_word_is_missed(end@.groups, end@.restrictions, words),
        word_length <= u8::MAX || end@.restrictions.findings.len() > 0 ==> possible_words_fit(
            end@.groups,
            end@.restrictions,
            words,
        ),
    decreases steps.len(),
{
    if steps.len() == 0 {
        all_words_fit_at_first(words, word_length);
    } else {
        let before = before_last_step(start, steps, end);
        random_steps_leave_fitting_words(words, word_length, start, steps.drop_last(), before);
        if let Step::Update(guess, results, _) = steps.last() {
            if before@.restrictions.update_outcome(guess, results) is Ok {
                a_good_result_leaves_fitting_words(
                    before@.groups,
                    before@.restrictions,
                    words,
                    guess,
                    results,
                );
            }
        }
    }
}

/// Whatever a random guesser has selected and learnt, the words that are possible to it are exactly
/// those of the bank that satisfy the present restrictions. Words that are longer than the
/// restrictions can count stay possible until a result is taken up.
pub proof fn possible_words_of_random_guessers_fit(
    words: Seq<Arc<str>>,
    word_length: usize,
    start: RandomGuesser,
    steps: Seq<Step>,
    end: RandomGuesser,
)
    requires
        all_of_length(words, word_length as nat),
        start@ == RandomView::initial(words, word_length),
        may_go(start, steps, end),
        word_length <= u8::MAX || end@.restrictions.findings.len() > 0,
    ensures
        possible_words_fit(end@.groups, end@.restrictions, words),
{
    random_steps_leave_fitting_words(words, word_length, start, steps, end);
}

/// What steps leave possible to a guesser that scores words.
proof fn max_score_steps_leave_fitting_words<T: WordScorer + Clone + Sync>(
    words: Seq<Arc<str>>,
    word_length: usize,
    start: MaxScoreGuesser<T>,
    steps: Seq<Step>,
    end: MaxScoreGuesser<T>,
)
    requires
        all_of_length(words, word_length as nat),
        start@.groups == GroupsView::unguessed_and_possible(words),
        start@.restrictions == RestrictionsView::unrestricted(word_length as u8),
        may_go(start, steps, end),
    ensures
        no_fitting_word_is_missed(end@.groups, end@.restrictions, words),
        word_length <= u8::MAX || end@.restrictions.findings.len() > 0 ==> possible_words_fit(
            end@.groups,
            end@.restrictions,
            words,
        ),
    decreases steps.len(),
{
    if steps.len() == 0 {
        all_words_fit_at_first(words, word_length);
    } else {
        let before = before_last_step(start, steps, end);
        max_score_steps_leave_fitting_words(words, word_length, start, steps.drop_last(), before);
        if let Step::Update(guess, results, _) = steps.last() {
            guessing_reorders_possible_words(before@.groups, guess);
            if before@.restrictions.update_outcome(guess, results) is Ok {
                a_good_result_leaves_fitting_words(
                    before@.groups,
                    before@.restrictions,
                    words,
                    guess,
                    results,
                );
            }
        }
    }
}

/// Whatever a guesser that scores words has selected and learnt, the words that are possible to it
/// are exactly those of the bank that satisfy the present restrictions. Words that are longer than
/// the restrictions can count stay possible until a result is taken up.
pub proof fn possible_words_of_max_score_guessers_fit<T: WordScorer + Clone + Sync>(
    words: Seq<Arc<str>>,
    word_length: usize,
    start: MaxScoreGuesser<T>,
    steps: Seq<Step>,
    end: MaxScoreGuesser<T>,
)
    requires
        all_of_length(words, word_length as nat),
        start@.groups == GroupsView::unguessed_and_possible(words),
        start@.restrictions == RestrictionsView::unrestricted(word_length as u8),
        may_go(start, steps, end),
        word_length <= u8::MAX || end@.restrictions.findings.len() > 0,
    ensures
        possible_words_fit(end@.groups, end@.restrictions, words),
{
    max_score_steps_leave_fitting_words(words, word_length, start, steps, end);
}

} // verus!
