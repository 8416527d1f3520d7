//! What calls of a guesser that scores words give, in terms of its words and of the scores that
//! they get.
use std::collections::HashMap;
use std::sync::Arc;
use vstd::prelude::*;

use crate::data::WordBank;
use crate::engine::{may_go, may_step, GuessFrom, Guesser, Step};
use crate::max_score::{
    are_top_guesses, content, heads_ranking, side_by_side, table_of, MaxScoreGuesser,
    MaxScoreParts, MaxScoreView, ScoredGuess,
};
use crate::ranking::{
    best_index_in_parallel, best_index_in_sequence, has_score, is_first_best, is_ranking,
    ranking_holds_the_entries, scoring,
};
use crate::score_laws::{
    known_scores_are_those_of_the_scorer, table_holds_the_entries, up_to_date,
    updates_forget_scores,
};
use crate::scorers::WordScorer;

verus! {

/// The words among which a guess is chosen: the possible words if these were asked for, or at most
/// two are possible, or no word is unguessed; otherwise the unguessed words.
pub open spec fn choices(
    possible: Seq<Arc<str>>,
    unguessed: Seq<Arc<str>>,
    from: GuessFrom,
) -> Seq<Arc<str>> {
    if from == GuessFrom::PossibleWords || possible.len() <= 2 || unguessed.len() == 0 {
        possible
    } else {
        unguessed
    }
}

/// The words among which a guesser chooses its guess.
pub open spec fn choices_of<T: WordScorer>(view: MaxScoreView<T>, from: GuessFrom) -> Seq<
    Arc<str>,
> {
    choices(view.groups.possible(), view.groups.unguessed(), from)
}

/// Whether `guess` is the first of the words to which none is preferred by their scores.
pub open spec fn is_best_choice(words: Seq<Arc<str>>, scores: Seq<i64>, guess: Arc<str>) -> bool {
    exists|i: int|
        #![trigger words[i]]
        {
            &&& 0 <= i < words.len()
            &&& words[i] == guess
            &&& forall|j: int| 0 <= j < words.len() ==> #[trigger] scores[j] <= scores[i]
            &&& forall|j: int| 0 <= j < i ==> #[trigger] scores[j] < scores[i]
        }
}

/// The scores that a scorer gives to words.
pub open spec fn scores_by<T: WordScorer>(scorer: T, words: Seq<Arc<str>>) -> Seq<i64> {
    Seq::new(words.len(), |i: int| scorer.score(words[i]@))
}

/// Whether `score` is the score of a word by a table: the value of a key that reads like it, and if
/// there is no such key, what the scorer gives.
pub open spec fn has_given_score<T: WordScorer>(
    table: Map<Arc<str>, i64>,
    scorer: T,
    word: Seq<char>,
    score: i64,
) -> bool {
    if exists|key: Arc<str>| #[trigger] table.contains_key(key) && key@ == word {
        exists|key: Arc<str>| #[trigger]
            table.contains_key(key) && key@ == word && table[key] == score
    } else {
        score == scorer.score(word)
    }
}

/// The guesses and their scores.
pub open spec fn listed(guesses: Seq<ScoredGuess>) -> Seq<(Arc<str>, i64)> {
    guesses.map_values(|guess: ScoredGuess| (guess.guess, guess.score))
}

/// Tells whether an entry has the given score.
pub open spec fn worth(score: i64) -> spec_fn((Arc<str>, i64)) -> bool {
    |entry: (Arc<str>, i64)| entry.1 == score
}

/// Whether the list holds up to `n` of the entries, the best first, each entry at most as often as
/// it is there, and of those with the same score the first ones in their order. No entry that is
/// left out has a better score than one in the list.
pub open spec fn lists_the_best(
    entries: Seq<(Arc<str>, i64)>,
    n: nat,
    list: Seq<(Arc<str>, i64)>,
) -> bool {
    &&& list.len() == if n < entries.len() {
        n
    } else {
        entries.len()
    }
    &&& n >= entries.len() ==> list.to_multiset() == entries.to_multiset()
    &&& exists|rest: Seq<(Arc<str>, i64)>|
        {
            &&& #[trigger] (list + rest).to_multiset() == entries.to_multiset()
            &&& forall|i: int, j: int|
                0 <= i < list.len() && 0 <= j < rest.len() ==> (#[trigger] list[i]).1 >= (
                #[trigger] rest[j]).1
        }
    &&& forall|i: int, j: int|
        0 <= i < j < list.len() ==> (#[trigger] list[i]).1 >= (#[trigger] list[j]).1
    &&& forall|score: i64|
        list.filter(#[trigger] worth(score)).is_prefix_of(entries.filter(worth(score)))
}

/// The words that a selection looks at are the ones among which a guess is chosen.
proof fn words_to_score_are_choices<T: WordScorer>(view: MaxScoreView<T>, from: GuessFrom)
    ensures
        view.words_to_score(from) == choices_of(view, from),
{
}

/// Scores that are up to date are what the scorer gives to the words among which a guess is chosen.
proof fn current_scores_are_by_the_scorer<T: WordScorer>(view: MaxScoreView<T>, from: GuessFrom)
    requires
        up_to_date(view),
    ensures
        view.scores(from) == scores_by(view.scorer, choices_of(view, from)),
        view.entries(from) == side_by_side(
            choices_of(view, from),
            scores_by(view.scorer, choices_of(view, from)),
        ),
        view.scores_fit(),
{
    known_scores_are_those_of_the_scorer(view, from);
    assert(view.scores(from) =~= scores_by(view.scorer, choices_of(view, from)));
}

/// A selection is the best choice by the scores.
proof fn selections_are_best_choices<T: WordScorer>(
    view: MaxScoreView<T>,
    from: GuessFrom,
    guess: Arc<str>,
)
    requires
        view.may_select(from, Some(guess)),
        view.scores(from).len() == choices_of(view, from).len(),
    ensures
        is_best_choice(choices_of(view, from), view.scores(from), guess),
{
    let words = choices_of(view, from);
    let scores = view.scores(from);
    let i = choose|i: int| #[trigger] is_first_best(scores, i) && guess == words[i];
    assert(words[i] == guess);
    assert(forall|j: int| 0 <= j < words.len() ==> #[trigger] scores[j] <= scores[i]);
    assert(forall|j: int| 0 <= j < i ==> #[trigger] scores[j] < scores[i]);
}

/// A filter of the start of a list is the start of the filtered list.
proof fn filter_of_start<A>(items: Seq<A>, pred: spec_fn(A) -> bool, n: int)
    requires
        0 <= n <= items.len(),
    ensures
        items.take(n).filter(pred).is_prefix_of(items.filter(pred)),
{
    Seq::filter_distributes_over_add(items.take(n), items.skip(n), pred);
    assert(items =~= items.take(n) + items.skip(n));
    assert(items.take(n).filter(pred) =~= items.filter(pred).take(
        items.take(n).filter(pred).len() as int,
    ));
}

/// Top guesses list the best entries.
pub proof fn top_guesses_list_the_best(
    entries: Seq<(Arc<str>, i64)>,
    n: usize,
    guesses: Seq<ScoredGuess>,
)
    requires
        are_top_guesses(entries, n, guesses),
    ensures
        lists_the_best(entries, n as nat, listed(guesses)),
{
    let ranking = choose|ranking: Seq<(Arc<str>, i64)>| #[trigger]
        is_ranking(entries, ranking) && heads_ranking(ranking, n, guesses);
    ranking_holds_the_entries(entries, ranking);
    let list = listed(guesses);
    let len = list.len() as int;
    assert forall|i: int| 0 <= i < len implies list[i] == #[trigger] ranking[i] by {
        assert(guesses[i].guess == ranking[i].0);
    }
    assert(list =~= ranking.take(len));
    let rest = ranking.skip(len);
    assert(list + rest =~= ranking);
    assert((list + rest).to_multiset() == entries.to_multiset());
    assert forall|i: int, j: int| 0 <= i < len && 0 <= j < rest.len() implies (
    #[trigger] list[i]).1 >= (#[trigger] rest[j]).1 by {
        assert(ranking[i].1 >= ranking[len + j].1);
    }
    assert forall|i: int, j: int| 0 <= i < j < len implies (#[trigger] list[i]).1 >= (
    #[trigger] list[j]).1 by {
        assert(ranking[i].1 >= ranking[j].1);
    }
    if n >= entries.len() {
        assert(list =~= ranking);
    }
    assert forall|score: i64|
        list.filter(#[trigger] worth(score)).is_prefix_of(entries.filter(worth(score))) by {
        assert(worth(score) =~= has_score(score));
        filter_of_start(ranking, has_score(score), len);
        assert(scoring(ranking, score) == scoring(entries, score));
    }
}

/// Where no scores are known but what the scorer gives, a selection yields the first of the words
/// with the best score by the scorer, among those that were asked for. It yields none only if no
/// word is possible.
pub proof fn the_best_word_is_selected<T: WordScorer + Clone + Sync>(
    guesser: &mut MaxScoreGuesser<T>,
    from: GuessFrom,
    guess: Option<Arc<str>>,
)
    requires
        up_to_date(old(guesser)@),
        call_ensures(
            <MaxScoreGuesser<T> as Guesser>::select_next_guess_from,
            (guesser, from),
            guess,
        ),
    ensures
        match guess {
            Some(guess) => is_best_choice(
                choices_of(old(guesser)@, from),
                scores_by(old(guesser)@.scorer, choices_of(old(guesser)@, from)),
                guess,
            ),
            None => old(guesser).possible().len() == 0,
        },
        final(guesser)@.groups == old(guesser)@.groups,
        final(guesser)@.restrictions == old(guesser)@.restrictions,
        final(guesser)@.scorer == old(guesser)@.scorer,
        up_to_date(final(guesser)@),
{
    current_scores_are_by_the_scorer(old(guesser)@, from);
    known_scores_are_those_of_the_scorer(old(guesser)@, from);
    if let Some(guess) = guess {
        selections_are_best_choices(old(guesser)@, from, guess);
    }
}

/// A selection that does not say from which words is one from the words that the guesser was made
/// for.
pub proof fn the_best_word_is_selected_by_default<T: WordScorer + Clone + Sync>(
    guesser: &mut MaxScoreGuesser<T>,
    guess: Option<Arc<str>>,
)
    requires
        up_to_date(old(guesser)@),
        call_ensures(<MaxScoreGuesser<T> as Guesser>::select_next_guess, (guesser,), guess),
    ensures
        match guess {
            Some(guess) => is_best_choice(
                choices_of(old(guesser)@, old(guesser)@.default_guess_mode),
                scores_by(
                    old(guesser)@.scorer,
                    choices_of(old(guesser)@, old(guesser)@.default_guess_mode),
                ),
                guess,
            ),
            None => old(guesser).possible().len() == 0,
        },
        final(guesser)@.groups == old(guesser)@.groups,
        final(guesser)@.restrictions == old(guesser)@.restrictions,
        final(guesser)@.scorer == old(guesser)@.scorer,
        up_to_date(final(guesser)@),
{
    let from = old(guesser)@.default_guess_mode;
    current_scores_are_by_the_scorer(old(guesser)@, from);
    known_scores_are_those_of_the_scorer(old(guesser)@, from);
    if let Some(guess) = guess {
        selections_are_best_choices(old(guesser)@, from, guess);
    }
}

/// Selections and updates leave no scores known but what the scorer gives.
pub proof fn steps_keep_scores_up_to_date<T: WordScorer + Clone + Sync>(
    start: MaxScoreGuesser<T>,
    steps: Seq<Step>,
    end: MaxScoreGuesser<T>,
)
    requires
        up_to_date(start@),
        may_go(start, steps, end),
    ensures
        up_to_date(end@),
        end@.default_guess_mode == start@.default_guess_mode,
    decreases steps.len(),
{
    if steps.len() > 0 {
        let before = choose|before: MaxScoreGuesser<T>|
            may_go(start, steps.drop_last(), before) && #[trigger] may_step(
                before,
                steps.last(),
                end,
            );
        steps_keep_scores_up_to_date(start, steps.drop_last(), before);
        match steps.last() {
            Step::Selection(from, _) => known_scores_are_those_of_the_scorer(before@, from),
            Step::Update(guess, results, outcome) => updates_forget_scores(
                before@,
                guess,
                results,
                outcome,
                end@,
            ),
        }
    }
}

/// A new guesser selects the best word by its scorer after any selections and updates.
pub proof fn the_best_word_is_selected_at_any_time<T: WordScorer + Clone + Sync>(
    guess_mode: GuessFrom,
    bank: WordBank,
    scorer: T,
    available_parallelism: Option<usize>,
    start: MaxScoreGuesser<T>,
    steps: Seq<Step>,
    end: MaxScoreGuesser<T>,
    from: GuessFrom,
    guess: Arc<str>,
    after: MaxScoreGuesser<T>,
)
    requires
        call_ensures(
            MaxScoreGuesser::<T>::new,
            (guess_mode, bank, scorer, available_parallelism),
            start,
        ),
        may_go(start, steps, end),
        may_step(end, Step::Selection(from, Some(guess)), after),
    ensures
        is_best_choice(
            choices_of(end@, from),
            scores_by(end@.scorer, choices_of(end@, from)),
            guess,
        ),
        end@.default_guess_mode == guess_mode,
{
    steps_keep_scores_up_to_date(start, steps, end);
    current_scores_are_by_the_scorer(end@, from);
    selections_are_best_choices(end@, from, guess);
}

/// A new guesser finds all words of the bank possible and unguessed, in their order. It knows no
/// scores, and selects from the words that it was made for.
pub proof fn new_guessers_know_the_bank<T: WordScorer + Clone + Sync>(
    guess_mode: GuessFrom,
    bank: WordBank,
    scorer: T,
    available_parallelism: Option<usize>,
    guesser: MaxScoreGuesser<T>,
)
    requires
        call_ensures(
            MaxScoreGuesser::<T>::new,
            (guess_mode, bank, scorer, available_parallelism),
            guesser,
        ),
    ensures
        guesser.possible() == bank@,
        guesser@.groups.unguessed() == bank@,
        guesser.default_mode() == guess_mode,
        guesser@.scorer == scorer,
        guesser@.unguessed_scores is None,
        guesser@.possible_scores is None,
        guesser@.parallelisation_limit == available_parallelism.unwrap_or(1),
        up_to_date(guesser@),
{
    assert(guesser.possible() =~= bank@);
    assert(guesser@.groups.unguessed() =~= bank@);
}

/// Setting the parallelisation limit changes nothing else.
pub proof fn only_the_limit_is_set<T: WordScorer + Clone + Sync>(
    guesser: MaxScoreGuesser<T>,
    parallelisation_limit: usize,
    limited: MaxScoreGuesser<T>,
)
    requires
        call_ensures(
            MaxScoreGuesser::<T>::with_parallelisation_limit,
            (guesser, parallelisation_limit),
            limited,
        ),
    ensures
        limited@.parallelisation_limit == parallelisation_limit,
        limited@.default_guess_mode == guesser@.default_guess_mode,
        limited@.groups == guesser@.groups,
        limited@.restrictions == guesser@.restrictions,
        limited@.scorer == guesser@.scorer,
        limited@.unguessed_scores == guesser@.unguessed_scores,
        limited@.possible_scores == guesser@.possible_scores,
{
}

/// Where no scores are known but what the scorer gives, the top guesses list the best words by the
/// scorer among those that were asked for.
pub proof fn top_guesses_are_the_best_words<T: WordScorer + Clone + Sync>(
    guesser: &mut MaxScoreGuesser<T>,
    n: usize,
    from: GuessFrom,
    guesses: Vec<ScoredGuess>,
)
    requires
        up_to_date(old(guesser)@),
        call_ensures(
            MaxScoreGuesser::<T>::select_top_n_guesses_from,
            (guesser, n, from),
            guesses,
        ),
    ensures
        ({
            let words = choices_of(old(guesser)@, from);
            let scorer = old(guesser)@.scorer;
            lists_the_best(
                Seq::new(words.len(), |i: int| (words[i], scorer.score(words[i]@))),
                n as nat,
                listed(guesses@),
            )
        }),
        final(guesser)@.groups == old(guesser)@.groups,
        final(guesser)@.scorer == old(guesser)@.scorer,
        up_to_date(final(guesser)@),
{
    let words = choices_of(old(guesser)@, from);
    let scorer = old(guesser)@.scorer;
    current_scores_are_by_the_scorer(old(guesser)@, from);
    known_scores_are_those_of_the_scorer(old(guesser)@, from);
    top_guesses_list_the_best(old(guesser)@.entries(from), n, guesses@);
    assert(old(guesser)@.entries(from) =~= Seq::new(
        words.len(),
        |i: int| (words[i], scorer.score(words[i]@)),
    ));
}

/// The same of the words that the guesser was made for.
pub proof fn top_guesses_are_the_best_words_by_default<T: WordScorer + Clone + Sync>(
    guesser: &mut MaxScoreGuesser<T>,
    n: usize,
    guesses: Vec<ScoredGuess>,
)
    requires
        up_to_date(old(guesser)@),
        call_ensures(MaxScoreGuesser::<T>::select_top_n_guesses, (guesser, n), guesses),
    ensures
        ({
            let words = choices_of(old(guesser)@, old(guesser)@.default_guess_mode);
            let scorer = old(guesser)@.scorer;
            lists_the_best(
                Seq::new(words.len(), |i: int| (words[i], scorer.score(words[i]@))),
                n as nat,
                listed(guesses@),
            )
        }),
        final(guesser)@.groups == old(guesser)@.groups,
        final(guesser)@.scorer == old(guesser)@.scorer,
        up_to_date(final(guesser)@),
{
    let from = old(guesser)@.default_guess_mode;
    let words = choices_of(old(guesser)@, from);
    let scorer = old(guesser)@.scorer;
    current_scores_are_by_the_scorer(old(guesser)@, from);
    known_scores_are_those_of_the_scorer(old(guesser)@, from);
    top_guesses_list_the_best(old(guesser)@.entries(from), n, guesses@);
    assert(old(guesser)@.entries(from) =~= Seq::new(
        words.len(),
        |i: int| (words[i], scorer.score(words[i]@)),
    ));
}

/// The table of scores has the words that the guesser was made for as its keys, and for each of
/// them what the scorer gives, where no other scores are known.
pub proof fn score_tables_hold_what_the_scorer_gives<T: WordScorer + Clone + Sync>(
    guesser: &mut MaxScoreGuesser<T>,
    table: HashMap<Arc<str>, i64>,
)
    requires
        up_to_date(old(guesser)@),
        call_ensures(MaxScoreGuesser::<T>::get_or_compute_scores, (guesser,), table),
    ensures
        forall|word: Arc<str>| #[trigger]
            table@.contains_key(word) <==> choices_of(
                old(guesser)@,
                old(guesser)@.default_guess_mode,
            ).contains(word),
        forall|word: Arc<str>| #[trigger]
            table@.contains_key(word) ==> table@[word] == old(guesser)@.scorer.score(word@),
        final(guesser)@.groups == old(guesser)@.groups,
        final(guesser)@.scorer == old(guesser)@.scorer,
        up_to_date(final(guesser)@),
{
    let from = old(guesser)@.default_guess_mode;
    let words = choices_of(old(guesser)@, from);
    let entries = old(guesser)@.entries(from);
    current_scores_are_by_the_scorer(old(guesser)@, from);
    known_scores_are_those_of_the_scorer(old(guesser)@, from);
    tables_pair_words_with_scores(words, old(guesser)@.scores(from));
    assert forall|word: Arc<str>| #[trigger] table@.contains_key(word) implies table@[word]
        == old(guesser)@.scorer.score(word@) by {
        let i = choose|i: int|
            0 <= i < words.len() && #[trigger] words[i] == word && old(guesser)@.scores(from)[i]
                == table@[word];
    }
}

/// A table of words with scores has the words as its keys, and for each of them one of its scores.
proof fn tables_pair_words_with_scores(words: Seq<Arc<str>>, scores: Seq<i64>)
    requires
        scores.len() == words.len(),
    ensures
        forall|word: Arc<str>| #[trigger]
            table_of(side_by_side(words, scores)).contains_key(word) <==> words.contains(word),
        forall|word: Arc<str>| #[trigger]
            table_of(side_by_side(words, scores)).contains_key(word) ==> exists|i: int|
                0 <= i < words.len() && #[trigger] words[i] == word && scores[i] == table_of(
                    side_by_side(words, scores),
                )[word],
{
    let entries = side_by_side(words, scores);
    let table = table_of(entries);
    table_holds_the_entries(entries);
    assert forall|word: Arc<str>| #[trigger] table.contains_key(word) <==> words.contains(word) by {
        if words.contains(word) {
            assert(entries[words.index_of(word)].0 == word);
        }
        if table.contains_key(word) {
            let i = choose|i: int| 0 <= i < entries.len() && (#[trigger] entries[i]).0 == word;
            assert(words[i] == word);
        }
    }
    assert forall|word: Arc<str>| #[trigger] table.contains_key(word) implies exists|i: int|
        0 <= i < words.len() && #[trigger] words[i] == word && scores[i] == table[word] by {
        let i = choose|i: int|
            0 <= i < entries.len() && #[trigger] entries[i] == (word, table[word]);
        assert(words[i] == word);
    }
}

/// Computing scores finds what the scorer gives to each word, in the order of the words, where no
/// other scores are known. Nothing else changes.
pub proof fn computed_scores_are_what_the_scorer_gives<T: WordScorer + Clone + Sync>(
    guesser: &mut MaxScoreGuesser<T>,
    from: GuessFrom,
)
    requires
        up_to_date(old(guesser)@),
        call_ensures(
            MaxScoreGuesser::<T>::compute_scores_if_needed_from,
            (guesser, from),
            (),
        ),
    ensures
        final(guesser)@.word_scores(from) == Some(
            scores_by(old(guesser)@.scorer, choices_of(old(guesser)@, from)),
        ),
        final(guesser)@.groups == old(guesser)@.groups,
        final(guesser)@.restrictions == old(guesser)@.restrictions,
        final(guesser)@.scorer == old(guesser)@.scorer,
        final(guesser)@.default_guess_mode == old(guesser)@.default_guess_mode,
        up_to_date(final(guesser)@),
{
    current_scores_are_by_the_scorer(old(guesser)@, from);
    known_scores_are_those_of_the_scorer(old(guesser)@, from);
}

/// The same of the words that the guesser was made for.
pub proof fn computed_scores_are_what_the_scorer_gives_by_default<T: WordScorer + Clone + Sync>(
    guesser: &mut MaxScoreGuesser<T>,
)
    requires
        up_to_date(old(guesser)@),
        call_ensures(MaxScoreGuesser::<T>::compute_scores_if_unknown, (guesser,), ()),
    ensures
        final(guesser)@.word_scores(old(guesser)@.default_guess_mode) == Some(
            scores_by(
                old(guesser)@.scorer,
                choices_of(old(guesser)@, old(guesser)@.default_guess_mode),
            ),
        ),
        final(guesser)@.groups == old(guesser)@.groups,
        final(guesser)@.restrictions == old(guesser)@.restrictions,
        final(guesser)@.scorer == old(guesser)@.scorer,
        final(guesser)@.default_guess_mode == old(guesser)@.default_guess_mode,
        up_to_date(final(guesser)@),
{
    let from = old(guesser)@.default_guess_mode;
    current_scores_are_by_the_scorer(old(guesser)@, from);
    known_scores_are_those_of_the_scorer(old(guesser)@, from);
}

/// Whether each word has the score that the table gives to it.
pub open spec fn have_given_scores<T: WordScorer>(
    table: Map<Arc<str>, i64>,
    scorer: T,
    words: Seq<Arc<str>>,
    scores: Seq<i64>,
) -> bool {
    &&& scores.len() == words.len()
    &&& forall|i: int|
        0 <= i < words.len() ==> has_given_score(
            table,
            scorer,
            words[i]@,
            #[trigger] scores[i],
        )
}

/// Scores that are set are known for the words that the guesser was made for: the value of the key
/// that reads like the word, and what the scorer gives where there is none. Nothing else changes.
pub proof fn given_scores_are_known<T: WordScorer + Clone + Sync>(
    guesser: MaxScoreGuesser<T>,
    table: &HashMap<Arc<str>, i64>,
    knowing: MaxScoreGuesser<T>,
)
    requires
        call_ensures(MaxScoreGuesser::<T>::with_scores, (guesser, table), knowing),
    ensures
        knowing@.word_scores(guesser@.default_guess_mode) matches Some(scores)
            && have_given_scores(
            table@,
            guesser@.scorer,
            choices_of(guesser@, guesser@.default_guess_mode),
            scores,
        ),
        forall|i: int, key: Arc<str>|
            0 <= i < choices_of(guesser@, guesser@.default_guess_mode).len()
                && #[trigger] table@.contains_key(key) && key@ == (#[trigger] choices_of(
                guesser@,
                guesser@.default_guess_mode,
            )[i])@ && one_value_per_text(table@) ==> knowing@.word_scores(
                guesser@.default_guess_mode,
            ).unwrap()[i] == table@[key],
        knowing@.groups == guesser@.groups,
        knowing@.restrictions == guesser@.restrictions,
        knowing@.scorer == guesser@.scorer,
        knowing@.default_guess_mode == guesser@.default_guess_mode,
        knowing@.parallelisation_limit == guesser@.parallelisation_limit,
{
    let from = guesser@.default_guess_mode;
    let words = choices_of(guesser@, from);
    let scores = knowing@.word_scores(from).unwrap();
    assert forall|i: int| 0 <= i < words.len() implies has_given_score(
        table@,
        guesser@.scorer,
        words[i]@,
        #[trigger] scores[i],
    ) by {
        if exists|key: Arc<str>| #[trigger] table@.contains_key(key) && key@ == words[i]@ {
            let key = choose|key: Arc<str>| #[trigger]
                table@.contains_key(key) && key@ == words[i]@;
            assert(table@.contains_key(key) && key@ == words[i]@ && table@[key] == scores[i]);
        }
    }
}

/// Whether keys that read the same have the same value, as in every table with one key per text.
pub open spec fn one_value_per_text(table: Map<Arc<str>, i64>) -> bool {
    forall|left: Arc<str>, right: Arc<str>| #[trigger]
        table.contains_key(left) && #[trigger] table.contains_key(right) && left@ == right@
            ==> table[left] == table[right]
}

/// After scores were set, the selection is the best word by the given scores.
pub proof fn given_scores_decide_the_selection<T: WordScorer + Clone + Sync>(
    guesser: MaxScoreGuesser<T>,
    table: &HashMap<Arc<str>, i64>,
    knowing: &mut MaxScoreGuesser<T>,
    guess: Option<Arc<str>>,
)
    requires
        call_ensures(MaxScoreGuesser::<T>::with_scores, (guesser, table), *old(knowing)),
        call_ensures(<MaxScoreGuesser<T> as Guesser>::select_next_guess, (knowing,), guess),
    ensures
        guess is None <==> guesser.possible().len() == 0,
        guess matches Some(guess) ==> exists|scores: Seq<i64>| #[trigger]
            have_given_scores(
                table@,
                guesser@.scorer,
                choices_of(guesser@, guesser@.default_guess_mode),
                scores,
            ) && is_best_choice(
                choices_of(guesser@, guesser@.default_guess_mode),
                scores,
                guess,
            ),
{
    let from = guesser@.default_guess_mode;
    given_scores_are_known(guesser, table, *old(knowing));
    if let Some(guess) = guess {
        let scores = old(knowing)@.word_scores(from).unwrap();
        assert(old(knowing)@.scores(from) == scores);
        selections_are_best_choices(old(knowing)@, from, guess);
        assert(have_given_scores(table@, guesser@.scorer, choices_of(guesser@, from), scores));
    }
}

/// After scores were set for the words that the guesser was made for, a selection from other words
/// goes by given scores only where the two begin with the same words, and otherwise by the scorer.
pub proof fn given_scores_do_not_reach_other_words<T: WordScorer + Clone + Sync>(
    guesser: MaxScoreGuesser<T>,
    table: &HashMap<Arc<str>, i64>,
    knowing: &mut MaxScoreGuesser<T>,
    from: GuessFrom,
    guess: Option<Arc<str>>,
)
    requires
        up_to_date(guesser@),
        call_ensures(MaxScoreGuesser::<T>::with_scores, (guesser, table), *old(knowing)),
        from != guesser@.default_guess_mode,
        call_ensures(
            <MaxScoreGuesser<T> as Guesser>::select_next_guess_from,
            (knowing, from),
            guess,
        ),
    ensures
        guess is None <==> guesser.possible().len() == 0,
        guess matches Some(guess) ==> {
            let words = choices_of(guesser@, from);
            ||| is_best_choice(words, scores_by(guesser@.scorer, words), guess)
            ||| from == GuessFrom::PossibleWords && words.is_prefix_of(
                choices_of(guesser@, guesser@.default_guess_mode),
            ) && exists|scores: Seq<i64>| #[trigger]
                have_given_scores(table@, guesser@.scorer, words, scores) && is_best_choice(
                    words,
                    scores,
                    guess,
                )
        },
{
    let default = guesser@.default_guess_mode;
    let words = choices_of(guesser@, from);
    let all = choices_of(guesser@, default);
    let view = old(knowing)@;
    given_scores_are_known(guesser, table, *old(knowing));
    let given = view.word_scores(default).unwrap();
    if let Some(guess) = guess {
        if from == GuessFrom::PossibleWords && guesser@.possible_scores is None
            && guesser@.possible_scores_lead() {
            assert(words =~= all.take(words.len() as int)) by {
                if guesser@.groups.spent.len() == 0 {
                    assert(guesser@.groups.possible() =~= guesser@.groups.open);
                }
            }
            assert(view.scores(from) =~= given.take(words.len() as int));
            assert forall|i: int| 0 <= i < words.len() implies has_given_score(
                table@,
                guesser@.scorer,
                words[i]@,
                #[trigger] view.scores(from)[i],
            ) by {
                assert(has_given_score(table@, guesser@.scorer, all[i]@, given[i]));
            }
            assert(have_given_scores(table@, guesser@.scorer, words, view.scores(from)));
        } else {
            assert(view.scores(from) =~= scores_by(guesser@.scorer, words));
        }
        selections_are_best_choices(view, from, guess);
    }
}

/// After scores were set, the top guesses list the best words by the given scores.
pub proof fn given_scores_decide_the_top_guesses<T: WordScorer + Clone + Sync>(
    guesser: MaxScoreGuesser<T>,
    table: &HashMap<Arc<str>, i64>,
    knowing: &mut MaxScoreGuesser<T>,
    n: usize,
    guesses: Vec<ScoredGuess>,
)
    requires
        call_ensures(MaxScoreGuesser::<T>::with_scores, (guesser, table), *old(knowing)),
        call_ensures(MaxScoreGuesser::<T>::select_top_n_guesses, (knowing, n), guesses),
    ensures
        exists|scores: Seq<i64>| #[trigger]
            have_given_scores(
                table@,
                guesser@.scorer,
                choices_of(guesser@, guesser@.default_guess_mode),
                scores,
            ) && lists_the_best(
                Seq::new(
                    scores.len(),
                    |i: int|
                        (choices_of(guesser@, guesser@.default_guess_mode)[i], scores[i]),
                ),
                n as nat,
                listed(guesses@),
            ),
{
    let from = guesser@.default_guess_mode;
    given_scores_are_known(guesser, table, *old(knowing));
    let scores = old(knowing)@.word_scores(from).unwrap();
    top_guesses_list_the_best(old(knowing)@.entries(from), n, guesses@);
    assert(old(knowing)@.entries(from) =~= Seq::new(
        scores.len(),
        |i: int| (choices_of(guesser@, from)[i], scores[i]),
    ));
    assert(have_given_scores(table@, guesser@.scorer, choices_of(guesser@, from), scores));
}

/// After scores were set, the table of scores has the given ones, and gaps filled by the scorer.
pub proof fn given_scores_can_be_read_back<T: WordScorer + Clone + Sync>(
    guesser: MaxScoreGuesser<T>,
    table: &HashMap<Arc<str>, i64>,
    knowing: &mut MaxScoreGuesser<T>,
    read: HashMap<Arc<str>, i64>,
)
    requires
        call_ensures(MaxScoreGuesser::<T>::with_scores, (guesser, table), *old(knowing)),
        call_ensures(MaxScoreGuesser::<T>::get_or_compute_scores, (knowing,), read),
    ensures
        forall|word: Arc<str>| #[trigger]
            read@.contains_key(word) <==> choices_of(
                guesser@,
                guesser@.default_guess_mode,
            ).contains(word),
        forall|word: Arc<str>| #[trigger]
            read@.contains_key(word) ==> has_given_score(
                table@,
                guesser@.scorer,
                word@,
                read@[word],
            ),
{
    let from = guesser@.default_guess_mode;
    let words = choices_of(guesser@, from);
    given_scores_are_known(guesser, table, *old(knowing));
    let scores = old(knowing)@.word_scores(from).unwrap();
    tables_pair_words_with_scores(words, scores);
    assert forall|word: Arc<str>| #[trigger] read@.contains_key(word) implies has_given_score(
        table@,
        guesser@.scorer,
        word@,
        read@[word],
    ) by {
        let i = choose|i: int|
            0 <= i < words.len() && #[trigger] words[i] == word && scores[i] == read@[word];
        assert(has_given_score(table@, guesser@.scorer, words[i]@, scores[i]));
    }
}

/// The two ways to look for the best score find the first of the best, and none only among none.
pub proof fn searches_find_the_first_of_the_best(
    scores: &[i64],
    in_parallel: Option<usize>,
    in_sequence: Option<usize>,
)
    requires
        call_ensures(best_index_in_parallel, (scores,), in_parallel),
        call_ensures(best_index_in_sequence, (scores,), in_sequence),
    ensures
        in_parallel == in_sequence,
        in_parallel is None <==> scores@.len() == 0,
        in_parallel matches Some(i) ==> {
            &&& i < scores@.len()
            &&& forall|j: int|
                0 <= j < scores@.len() ==> #[trigger] scores@[j] <= scores@[i as int]
            &&& forall|j: int| 0 <= j < i ==> #[trigger] scores@[j] < scores@[i as int]
        },
{
    if in_parallel is Some && in_sequence is Some {
        let i = in_parallel.unwrap() as int;
        let j = in_sequence.unwrap() as int;
        assert(is_first_best(scores@, i) && is_first_best(scores@, j));
        assert(scores@[i] <= scores@[j] && scores@[j] <= scores@[i]);
    }
}

/// The score of a single word is what the scorer gives.
pub proof fn single_words_are_scored_by_the_scorer<T: WordScorer + Clone + Sync>(
    guesser: MaxScoreGuesser<T>,
    word: Arc<str>,
    score: i64,
)
    requires
        call_ensures(MaxScoreGuesser::<T>::score_word, (&guesser, &word), score),
    ensures
        score == guesser@.scorer.score(word@),
{
}

/// A copy of a guesser differs from it only in its scorer, which is a copy too.
pub proof fn copies_differ_only_in_the_scorer<T: WordScorer + Clone + Sync>(
    guesser: MaxScoreGuesser<T>,
    copy: MaxScoreGuesser<T>,
)
    requires
        call_ensures(<MaxScoreGuesser<T> as Clone>::clone, (&guesser,), copy),
    ensures
        cloned(guesser@.scorer, copy@.scorer),
        copy.possible() == guesser.possible(),
        copy@.groups == guesser@.groups,
        copy@.restrictions == guesser@.restrictions,
        copy@.default_guess_mode == guesser@.default_guess_mode,
        copy@.parallelisation_limit == guesser@.parallelisation_limit,
        copy@.unguessed_scores == guesser@.unguessed_scores,
        copy@.possible_scores == guesser@.possible_scores,
{
}

/// Whether all of the steps are selections.
pub open spec fn only_selections(steps: Seq<Step>) -> bool {
    forall|k: int| 0 <= k < steps.len() ==> (#[trigger] steps[k]) is Selection
}

/// What steps leave of the scores that were known for the default selection.
proof fn scores_stay_until_an_update<T: WordScorer + Clone + Sync>(
    start: MaxScoreGuesser<T>,
    steps: Seq<Step>,
    end: MaxScoreGuesser<T>,
)
    requires
        start@.word_scores(start@.default_guess_mode) is Some,
        start@.possible_scores is Some || start@.default_guess_mode
            == GuessFrom::AllUnguessedWords,
        may_go(start, steps, end),
    ensures
        end@.default_guess_mode == start@.default_guess_mode,
        only_selections(steps) ==> {
            &&& end@.word_scores(end@.default_guess_mode) == start@.word_scores(
                start@.default_guess_mode,
            )
            &&& end@.possible_scores is Some || end@.default_guess_mode
                == GuessFrom::AllUnguessedWords
            &&& end@.groups == start@.groups
            &&& end@.scorer == start@.scorer
        },
        !only_selections(steps) ==> up_to_date(end@),
    decreases steps.len(),
{
    if steps.len() > 0 {
        let earlier = steps.drop_last();
        let before = choose|before: MaxScoreGuesser<T>|
            may_go(start, earlier, before) && #[trigger] may_step(before, steps.last(), end);
        scores_stay_until_an_update(start, earlier, before);
        if only_selections(steps) {
            assert(forall|k: int| 0 <= k < earlier.len() ==> #[trigger] earlier[k] == steps[k]);
            assert(steps[steps.len() - 1] is Selection);
        }
        match steps.last() {
            Step::Selection(from, _) => {
                if only_selections(earlier) {
                    assert forall|k: int| 0 <= k < steps.len() implies (
                    #[trigger] steps[k]) is Selection by {
                        if k < earlier.len() {
                            assert(earlier[k] == steps[k]);
                        }
                    }
                } else {
                    known_scores_are_those_of_the_scorer(before@, from);
                }
            },
            Step::Update(guess, results, outcome) => {
                assert(!(steps[steps.len() - 1] is Selection));
                updates_forget_scores(before@, guess, results, outcome, end@);
            },
        }
    }
}

/// Scores that were set decide every selection from the words that the guesser was made for until
/// the next update. From then on the scorer decides.
pub proof fn given_scores_are_used_until_an_update<T: WordScorer + Clone + Sync>(
    guesser: MaxScoreGuesser<T>,
    table: &HashMap<Arc<str>, i64>,
    knowing: MaxScoreGuesser<T>,
    steps: Seq<Step>,
    end: MaxScoreGuesser<T>,
    guess: Arc<str>,
    after: MaxScoreGuesser<T>,
)
    requires
        call_ensures(MaxScoreGuesser::<T>::with_scores, (guesser, table), knowing),
        may_go(knowing, steps, end),
        may_step(end, Step::Selection(guesser@.default_guess_mode, Some(guess)), after),
    ensures
        only_selections(steps) ==> exists|scores: Seq<i64>| #[trigger]
            have_given_scores(
                table@,
                guesser@.scorer,
                choices_of(guesser@, guesser@.default_guess_mode),
                scores,
            ) && is_best_choice(
                choices_of(guesser@, guesser@.default_guess_mode),
                scores,
                guess,
            ),
        !only_selections(steps) ==> is_best_choice(
            choices_of(end@, guesser@.default_guess_mode),
            scores_by(end@.scorer, choices_of(end@, guesser@.default_guess_mode)),
            guess,
        ),
{
    let from = guesser@.default_guess_mode;
    given_scores_are_known(guesser, table, knowing);
    scores_stay_until_an_update(knowing, steps, end);
    if only_selections(steps) {
        let scores = knowing@.word_scores(from).unwrap();
        assert(end@.scores(from) == scores);
        assert(have_given_scores(table@, guesser@.scorer, choices_of(guesser@, from), scores));
    } else {
        current_scores_are_by_the_scorer(end@, from);
    }
    selections_are_best_choices(end@, from, guess);
}

/// A guesser can be put together exactly where there is one score for each word that it chooses
/// from, where they are known.
pub proof fn stored_scores_must_fit<T: WordScorer + Clone + Sync>(
    parts: MaxScoreParts<T>,
    guesser: Option<MaxScoreGuesser<T>>,
)
    requires
        call_ensures(MaxScoreGuesser::<T>::from_parts, (parts,), guesser),
    ensures
        guesser is Some <==> {
            &&& content(parts.all_unguessed_word_scores) matches Some(scores) ==> scores.len()
                == choices_of(parts@, GuessFrom::AllUnguessedWords).len()
            &&& content(parts.possible_word_scores) matches Some(scores) ==> scores.len()
                == choices_of(parts@, GuessFrom::PossibleWords).len()
        },
        guesser matches Some(guesser) ==> {
            &&& guesser.possible() == parts.grouped_words@.possible()
            &&& guesser@.groups == parts.grouped_words@
            &&& guesser@.restrictions == parts.restrictions@
            &&& guesser@.scorer == parts.scorer
            &&& guesser@.default_guess_mode == parts.default_guess_mode
            &&& guesser@.parallelisation_limit == parts.parallelisation_limit
        },
{
}

} // verus!
