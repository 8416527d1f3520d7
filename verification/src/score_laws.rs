//! What holds of scores, and of the guesses that are selected by them.
use std::sync::Arc;
use vstd::prelude::*;

use crate::engine::GuessFrom;
use crate::max_score::{are_top_guesses, heads_ranking, table_of, MaxScoreView, ScoredGuess};
use crate::ranking::{
    best_ranks_first, first_best_is_unique, first_of_filter, has_score, is_first_best,
    is_ranking, ranking_holds_the_entries, ranking_is_unique, scores_of, scoring,
};
use crate::results::{LetterResult, WordleError};
use crate::scorers::WordScorer;

verus! {

/// There is one score for each word that a selection looks at.
pub proof fn each_word_has_a_score<T: WordScorer>(view: MaxScoreView<T>, from: GuessFrom)
    requires
        view.scores_fit(),
    ensures
        view.scored(from).word_scores(from) is Some,
        view.scores(from).len() == view.words_to_score(from).len(),
        view.scored(from).scores_fit(),
{
}

/// Computing scores changes nothing but what is known of them, and a second time nothing at all.
pub proof fn computing_scores_twice_is_computing_once<T: WordScorer>(
    view: MaxScoreView<T>,
    from: GuessFrom,
)
    ensures
        view.scored(from).scored(from) == view.scored(from),
        view.scored(from).scores(from) == view.scores(from),
        view.scored(from) == (MaxScoreView {
            unguessed_scores: view.scored(from).unguessed_scores,
            possible_scores: view.scored(from).possible_scores,
            ..view
        }),
{
}

/// Precomputing the scores does not change what is selected.
pub proof fn precomputing_does_not_change_the_selection<T: WordScorer>(
    view: MaxScoreView<T>,
    from: GuessFrom,
    guess: Option<Arc<str>>,
)
    ensures
        view.scored(from).may_select(from, guess) == view.may_select(from, guess),
        view.scored(from).entries(from) == view.entries(from),
{
}

/// Whether the known scores are those that the scorer gives now.
pub open spec fn up_to_date<T: WordScorer>(view: MaxScoreView<T>) -> bool {
    &&& view.unguessed_scores matches Some(scores) ==> scores == view.computed_scores(
        GuessFrom::AllUnguessedWords,
    )
    &&& view.possible_scores matches Some(scores) ==> scores == view.computed_scores(
        GuessFrom::PossibleWords,
    )
}

/// Where the known scores are those of the scorer, every selection goes by the score that the
/// scorer gives to each word, in the order of the words, whatever scores are known.
pub proof fn known_scores_are_those_of_the_scorer<T: WordScorer>(
    view: MaxScoreView<T>,
    from: GuessFrom,
)
    requires
        up_to_date(view),
    ensures
        view.scores(from) == view.computed_scores(from),
        up_to_date(view.scored(from)),
{
    if view.possible_scores_lead() && view.groups.possible().len() > 2 {
        assert(view.groups.possible() =~= view.groups.open);
    }
    assert(view.possible_scores_lead() ==> view.computed_scores(GuessFrom::AllUnguessedWords).take(
        view.groups.possible().len() as int,
    ) =~= view.computed_scores(GuessFrom::PossibleWords));
}

/// A new guesser has no scores that are out of date.
pub proof fn new_guessers_are_up_to_date<T: WordScorer>(
    guess_mode: GuessFrom,
    words: Seq<Arc<str>>,
    word_length: usize,
    scorer: T,
    parallelisation_limit: usize,
)
    ensures
        up_to_date(
            MaxScoreView::initial(guess_mode, words, word_length, scorer, parallelisation_limit),
        ),
{
}

/// An update forgets all scores, also where it fails, so that none are used after it but those that
/// the scorer gives then.
pub proof fn updates_forget_scores<T: WordScorer>(
    view: MaxScoreView<T>,
    guess: Seq<char>,
    results: Seq<LetterResult>,
    outcome: Result<(), WordleError>,
    after: MaxScoreView<T>,
)
    requires
        view.may_update(guess, results, outcome, after),
    ensures
        after.word_scores(GuessFrom::AllUnguessedWords) is None,
        after.word_scores(GuessFrom::PossibleWords) is None,
        up_to_date(after),
{
}

/// Scores that are set are the ones that the default selection goes by.
pub proof fn given_scores_are_used<T: WordScorer>(
    view: MaxScoreView<T>,
    table: Map<Arc<str>, i64>,
)
    ensures
        view.knowing(view.default_guess_mode, view.scores_with_table(table)).scores(
            view.default_guess_mode,
        ) == view.scores_with_table(table),
{
}

/// A table has the words of its entries, and for each word the score of one of its entries.
pub proof fn table_holds_the_entries(entries: Seq<(Arc<str>, i64)>)
    ensures
        forall|word: Arc<str>| #[trigger]
            table_of(entries).contains_key(word) <==> exists|i: int|
                0 <= i < entries.len() && (#[trigger] entries[i]).0 == word,
        forall|word: Arc<str>| #[trigger]
            table_of(entries).contains_key(word) ==> exists|i: int|
                0 <= i < entries.len() && #[trigger] entries[i] == (word, table_of(entries)[word]),
    decreases entries.len(),
{
    if entries.len() > 0 {
        let init = entries.drop_last();
        table_holds_the_entries(init);
        let last = entries.last();
        assert(entries[entries.len() - 1] == last);
        assert forall|word: Arc<str>| #[trigger]
            table_of(entries).contains_key(word) <==> exists|i: int|
                0 <= i < entries.len() && (#[trigger] entries[i]).0 == word by {
            if word != last.0 {
                if table_of(init).contains_key(word) {
                    let i = choose|i: int| 0 <= i < init.len() && (#[trigger] init[i]).0 == word;
                    assert(entries[i].0 == word);
                }
                if exists|i: int| 0 <= i < entries.len() && (#[trigger] entries[i]).0 == word {
                    let i = choose|i: int|
                        0 <= i < entries.len() && (#[trigger] entries[i]).0 == word;
                    assert(init[i].0 == word);
                }
            }
        }
        assert forall|word: Arc<str>| #[trigger]
            table_of(entries).contains_key(word) implies exists|i: int|
            0 <= i < entries.len() && #[trigger] entries[i] == (word, table_of(entries)[word]) by {
            if word != last.0 {
                assert(table_of(init).contains_key(word));
                let i = choose|i: int|
                    0 <= i < init.len() && #[trigger] init[i] == (word, table_of(init)[word]);
                assert(entries[i] == (word, table_of(entries)[word]));
            }
        }
    }
}

/// The table of scores has exactly the words of the default selection as its keys.
pub proof fn score_table_has_the_available_guesses<T: WordScorer>(
    view: MaxScoreView<T>,
    word: Arc<str>,
)
    ensures
        table_of(view.entries(view.default_guess_mode)).contains_key(word)
            == view.words_to_score(view.default_guess_mode).contains(word),
{
    let words = view.words_to_score(view.default_guess_mode);
    let entries = view.entries(view.default_guess_mode);
    table_holds_the_entries(entries);
    if words.contains(word) {
        assert(entries[words.index_of(word)].0 == word);
    }
    if table_of(entries).contains_key(word) {
        let i = choose|i: int| 0 <= i < entries.len() && (#[trigger] entries[i]).0 == word;
        assert(words[i] == word);
    }
}

/// Setting the scores that a guesser without scores has computed is the same as computing them.
pub proof fn computed_scores_can_be_set_again<T: WordScorer>(view: MaxScoreView<T>)
    requires
        view.word_scores(view.default_guess_mode) is None,
    ensures
        view.knowing(
            view.default_guess_mode,
            view.scores_with_table(table_of(view.entries(view.default_guess_mode))),
        ) == view.scored(view.default_guess_mode),
{
    let from = view.default_guess_mode;
    let words = view.words_to_score(from);
    let entries = view.entries(from);
    let table = table_of(entries);
    table_holds_the_entries(entries);
    assert(view.scores(from) == view.computed_scores(from));
    assert forall|i: int| 0 <= i < words.len() implies view.scores_with_table(table)[i]
        == view.computed_scores(from)[i] by {
        assert(entries[i].0 == words[i]);
        assert(table.contains_key(words[i]) && words[i]@ == words[i]@);
        let key = choose|key: Arc<str>| #[trigger] table.contains_key(key) && key@ == words[i]@;
        let j = choose|j: int| 0 <= j < entries.len() && #[trigger] entries[j] == (key, table[key]);
        assert(entries[j] == (words[j], view.computed_scores(from)[j]));
    }
    assert(view.scores_with_table(table) =~= view.computed_scores(from));
}

/// The scores of the words do not depend on what is looked at in parallel.
pub proof fn scores_do_not_depend_on_parallelism<T: WordScorer>(
    view: MaxScoreView<T>,
    parallelisation_limit: usize,
    from: GuessFrom,
)
    ensures
        (MaxScoreView { parallelisation_limit, ..view }).entries(from) == view.entries(from),
        (MaxScoreView { parallelisation_limit, ..view }).scored(from) == (MaxScoreView {
            parallelisation_limit,
            ..view.scored(from)
        }),
{
    let other = MaxScoreView { parallelisation_limit, ..view };
    assert(other.computed_scores(from) =~= view.computed_scores(from));
}

/// What is selected does not depend on what is looked at in parallel.
pub proof fn selection_does_not_depend_on_parallelism<T: WordScorer>(
    view: MaxScoreView<T>,
    parallelisation_limit: usize,
    from: GuessFrom,
    guess: Option<Arc<str>>,
)
    ensures
        (MaxScoreView { parallelisation_limit, ..view }).may_select(from, guess)
            == view.may_select(from, guess),
{
    scores_do_not_depend_on_parallelism(view, parallelisation_limit, from);
}

/// At most one guess can be selected.
pub proof fn selection_is_unique<T: WordScorer>(
    view: MaxScoreView<T>,
    from: GuessFrom,
    left: Option<Arc<str>>,
    right: Option<Arc<str>>,
)
    requires
        view.scores_fit(),
        view.may_select(from, left),
        view.may_select(from, right),
    ensures
        left == right,
{
    let scores = view.scores(from);
    let words = view.words_to_score(from);
    if let Some(a) = left {
        let i = choose|i: int| #[trigger] is_first_best(scores, i) && a == words[i];
        if let Some(b) = right {
            let j = choose|j: int| #[trigger] is_first_best(scores, j) && b == words[j];
            first_best_is_unique(scores, i, j);
        }
    }
}

/// A guess is selected exactly where a word is possible, whatever the scores are.
pub proof fn a_guess_is_selected_where_a_word_is_possible<T: WordScorer>(
    view: MaxScoreView<T>,
    from: GuessFrom,
    guess: Option<Arc<str>>,
)
    requires
        view.scores_fit(),
        view.may_select(from, guess),
    ensures
        guess is Some <==> view.groups.possible().len() > 0,
{
}

/// With at most two possible words left, one of them is selected, whatever set was asked for.
pub proof fn the_last_two_words_are_guessed<T: WordScorer>(
    view: MaxScoreView<T>,
    from: GuessFrom,
    guess: Arc<str>,
)
    requires
        view.scores_fit(),
        view.groups.possible().len() <= 2,
        view.may_select(from, Some(guess)),
    ensures
        view.groups.possible().contains(guess),
{
    let words = view.words_to_score(from);
    let i = choose|i: int| #[trigger] is_first_best(view.scores(from), i) && guess == words[i];
    assert(words[i] == guess);
}

/// A word that is not possible is selected only if it has a better score than each possible word
/// that has not been guessed.
pub proof fn possible_words_are_preferred<T: WordScorer>(
    view: MaxScoreView<T>,
    from: GuessFrom,
    guess: Arc<str>,
    i: int,
)
    requires
        view.scores_fit(),
        view.may_select(from, Some(guess)),
        !view.groups.possible().contains(guess),
        0 <= i < view.groups.open.len(),
    ensures
        view.words_to_score(from)[i] == view.groups.open[i],
        exists|k: int| #[trigger]
            is_first_best(view.scores(from), k) && view.words_to_score(from)[k] == guess
                && view.scores(from)[i] < view.scores(from)[k],
{
    let words = view.words_to_score(from);
    let k = choose|k: int| #[trigger] is_first_best(view.scores(from), k) && guess == words[k];
    if words == view.groups.possible() {
        assert(words[k] == guess);
    } else if k < view.groups.open.len() {
        assert(view.groups.possible()[view.groups.spent.len() + k] == guess);
    }
}

/// The top guess is the one that is selected.
pub proof fn top_guess_is_the_selection<T: WordScorer>(
    view: MaxScoreView<T>,
    from: GuessFrom,
    n: usize,
    guesses: Seq<ScoredGuess>,
    guess: Arc<str>,
)
    requires
        view.scores_fit(),
        n > 0,
        are_top_guesses(view.entries(from), n, guesses),
        view.may_select(from, Some(guess)),
    ensures
        guesses.len() > 0,
        guesses[0].guess == guess,
{
    let entries = view.entries(from);
    let scores = view.scores(from);
    let words = view.words_to_score(from);
    let ranking = choose|ranking: Seq<(Arc<str>, i64)>| #[trigger]
        is_ranking(entries, ranking) && heads_ranking(ranking, n, guesses);
    let i = choose|i: int| #[trigger] is_first_best(scores, i) && guess == words[i];
    assert(scores_of(entries) =~= scores);
    best_ranks_first(entries, ranking, i);
}

/// Asking for more top guesses only adds guesses at the end, up to all words that there are.
pub proof fn more_top_guesses_extend_fewer(
    entries: Seq<(Arc<str>, i64)>,
    n: usize,
    fewer: Seq<ScoredGuess>,
    m: usize,
    more: Seq<ScoredGuess>,
)
    requires
        n <= m,
        are_top_guesses(entries, n, fewer),
        are_top_guesses(entries, m, more),
    ensures
        fewer.len() == if n < entries.len() {
            n as nat
        } else {
            entries.len()
        },
        fewer.len() <= more.len(),
        more.take(fewer.len() as int) == fewer,
{
    let left = choose|ranking: Seq<(Arc<str>, i64)>| #[trigger]
        is_ranking(entries, ranking) && heads_ranking(ranking, n, fewer);
    let right = choose|ranking: Seq<(Arc<str>, i64)>| #[trigger]
        is_ranking(entries, ranking) && heads_ranking(ranking, m, more);
    ranking_is_unique(entries, left, right);
    ranking_holds_the_entries(entries, left);
    assert forall|i: int| 0 <= i < fewer.len() implies more[i] == fewer[i] by {
        assert(more[i].guess == left[i].0);
        assert(fewer[i].guess == left[i].0);
    }
    assert(more.take(fewer.len() as int) =~= fewer);
}

/// Top guesses come from the best score to the worst.
pub proof fn top_guesses_descend(
    entries: Seq<(Arc<str>, i64)>,
    n: usize,
    guesses: Seq<ScoredGuess>,
    i: int,
    j: int,
)
    requires
        are_top_guesses(entries, n, guesses),
        0 <= i < j < guesses.len(),
    ensures
        guesses[i].score >= guesses[j].score,
        entries.contains((guesses[i].guess, guesses[i].score)),
{
    let ranking = choose|ranking: Seq<(Arc<str>, i64)>| #[trigger]
        is_ranking(entries, ranking) && heads_ranking(ranking, n, guesses);
    ranking_holds_the_entries(entries, ranking);
    assert(guesses[i].guess == ranking[i].0);
    assert(guesses[j].guess == ranking[j].0);
    assert(ranking[i] == (guesses[i].guess, guesses[i].score));
}

/// Of two items that pass a filter, the earlier one stays before the other.
proof fn filter_keeps_order<A>(items: Seq<A>, pred: spec_fn(A) -> bool, p: int, q: int)
    requires
        0 <= p < q < items.len(),
        pred(items[p]),
        pred(items[q]),
    ensures
        exists|a: int, b: int|
            0 <= a < b < items.filter(pred).len() && #[trigger] items.filter(pred)[a] == items[p]
                && #[trigger] items.filter(pred)[b] == items[q],
{
    let head = items.take(q);
    let tail = items.skip(q);
    assert(items =~= head + tail);
    Seq::filter_distributes_over_add(head, tail, pred);
    head.lemma_filter_contains(pred, p);
    assert(head[p] == items[p]);
    let a = head.filter(pred).index_of(items[p]);
    let b = head.filter(pred).len() as int;
    first_of_filter(tail, pred, 0);
    assert(items.filter(pred)[a] == items[p]);
    assert(items.filter(pred)[b] == items[q]);
}

/// Among the top guesses, a word that is not possible comes before one that is only if it has a
/// better score.
pub proof fn possible_words_rank_first<T: WordScorer>(
    view: MaxScoreView<T>,
    n: usize,
    guesses: Seq<ScoredGuess>,
    i: int,
    j: int,
)
    requires
        view.scores_fit(),
        view.groups.possible().len() > 2,
        are_top_guesses(view.entries(GuessFrom::AllUnguessedWords), n, guesses),
        0 <= i < j < guesses.len(),
        !view.groups.possible().contains(guesses[i].guess),
        !view.groups.ruled_out.contains(guesses[j].guess),
    ensures
        guesses[i].score > guesses[j].score,
{
    let from = GuessFrom::AllUnguessedWords;
    let entries = view.entries(from);
    let words = view.groups.unguessed();
    top_guesses_descend(entries, n, guesses, i, j);
    let score = guesses[i].score;
    if guesses[j].score == score {
        let ranking = choose|ranking: Seq<(Arc<str>, i64)>| #[trigger]
            is_ranking(entries, ranking) && heads_ranking(ranking, n, guesses);
        assert(guesses[i].guess == ranking[i].0);
        assert(guesses[j].guess == ranking[j].0);
        ranking_holds_the_entries(entries, ranking);
        let e = entries.index_of(ranking[i]);
        assert(view.words_to_score(from)[e] == guesses[i].guess);
        filter_keeps_order(ranking, has_score(score), i, j);
        let ranked = scoring(ranking, score);
        let (a, b) = choose|a: int, b: int|
            0 <= a < b < ranked.len() && #[trigger] ranked[a] == ranking[i]
                && #[trigger] ranked[b] == ranking[j];
        assert(ranked == scoring(entries, score));
        let num_open = view.groups.open.len() as int;
        let first = entries.take(num_open);
        let second = entries.skip(num_open);
        assert(entries =~= first + second);
        Seq::filter_distributes_over_add(first, second, has_score(score));
        let split = scoring(first, score).len();
        if a < split {
            assert(scoring(first, score).contains(ranking[i])) by {
                assert(scoring(first, score)[a] == ranking[i]);
            }
            first.lemma_filter_contains_rev(has_score(score), ranking[i]);
            let k = first.index_of(ranking[i]);
            assert(first[k] == (words[k], view.scores(from)[k]));
            assert(view.groups.open[k] == ranking[i].0);
            assert(view.groups.possible()[view.groups.spent.len() + k] == ranking[i].0);
        } else {
            assert(scoring(second, score).contains(ranking[j])) by {
                assert(scoring(second, score)[b - split] == ranking[j]);
            }
            second.lemma_filter_contains_rev(has_score(score), ranking[j]);
            let k = second.index_of(ranking[j]);
            assert(second[k] == (words[num_open + k], view.scores(from)[num_open + k]));
            assert(view.groups.ruled_out[k] == ranking[j].0);
        }
    }
}

} // verus!
