//! What holds of the words of a guesser after any calls: which are possible, which are unguessed,
//! and how they are ordered.
use std::sync::Arc;
use vstd::prelude::*;

use crate::data::{
    all_of_length, fails, not_reading, reading, satisfies, GroupedWords, GroupsView, WordBank,
};
use crate::engine::{may_go, may_step, GuessFrom, Guesser, Step};
use crate::max_score::{MaxScoreGuesser, MaxScoreParts};
use crate::random::{select_word_by_number, RandomGuesser};
use crate::restrictions::{RestrictionsView, WordRestrictions};
use crate::result_laws::learnt_words_agree;
use crate::results::{letter_results, GuessResult, LetterResult, WordleError};
use crate::scorers::WordScorer;

verus! {

/// Whether `word` would give the same results as the step reports, if these are one per letter of a
/// guess of the right length. A selection reports nothing.
pub open spec fn agrees(step: Step, word_length: nat, word: Seq<char>) -> bool {
    step matches Step::Update(guess, results, _) ==> guess.len() == word_length && results.len()
        == word_length ==> letter_results(word, guess) == results
}

/// Whether `word` would give the same results as all of the steps report.
pub open spec fn agrees_with_all(steps: Seq<Step>, word_length: nat, word: Seq<char>) -> bool {
    forall|k: int| 0 <= k < steps.len() ==> agrees(#[trigger] steps[k], word_length, word)
}

/// Tells whether a word would give the same results as all of the steps report.
pub open spec fn agreeing(steps: Seq<Step>, word_length: nat) -> spec_fn(Arc<str>) -> bool {
    |word: Arc<str>| agrees_with_all(steps, word_length, word@)
}

/// Tells whether none of the steps reports a word.
pub open spec fn unreported(steps: Seq<Step>) -> spec_fn(Arc<str>) -> bool {
    |word: Arc<str>| forall|k: int| 0 <= k < steps.len() ==> !(#[trigger] steps[k]).reports(word@)
}

/// Tells whether none of the steps reports a word without failing.
pub open spec fn untaught(steps: Seq<Step>) -> spec_fn(Arc<str>) -> bool {
    |word: Arc<str>| forall|k: int| 0 <= k < steps.len() ==> !(#[trigger] steps[k]).teaches(word@)
}

/// A filter keeps an item as often as it is there if the item passes, and otherwise not at all.
pub proof fn filter_counts<A>(items: Seq<A>, pred: spec_fn(A) -> bool, item: A)
    ensures
        items.filter(pred).to_multiset().count(item) == if pred(item) {
            items.to_multiset().count(item)
        } else {
            0
        },
    decreases items.len(),
{
    broadcast use vstd::seq_lib::group_to_multiset_ensures;

    reveal(Seq::filter);
    if items.len() > 0 {
        filter_counts(items.drop_last(), pred, item);
        assert(items =~= items.drop_last().push(items.last()));
    }
}

/// Guessing a word leaves the possible words as they are but for their order, and takes all that
/// read like it out of the unguessed words.
pub proof fn guessing_counts(groups: GroupsView, guess: Seq<char>)
    ensures
        groups.without_guess(guess).possible().to_multiset() == groups.possible().to_multiset(),
        groups.without_guess(guess).unguessed() == groups.unguessed().filter(not_reading(guess)),
{
    broadcast use vstd::seq_lib::lemma_multiset_commutative;

    let after = groups.without_guess(guess);
    Seq::filter_distributes_over_add(groups.open, groups.ruled_out, not_reading(guess));
    assert forall|word: Arc<str>| #[trigger]
        after.possible().to_multiset().count(word) == groups.possible().to_multiset().count(
            word,
        ) by {
        filter_counts(groups.open, reading(guess), word);
        filter_counts(groups.open, not_reading(guess), word);
    }
    assert(after.possible().to_multiset() =~= groups.possible().to_multiset());
}

/// Narrowing down the possible words keeps those that satisfy the restrictions, and leaves the
/// unguessed words as they are but for their order.
pub proof fn narrowing_counts(groups: GroupsView, restrictions: RestrictionsView)
    ensures
        groups.narrowed(restrictions).possible() == groups.possible().filter(
            satisfies(restrictions),
        ),
        groups.narrowed(restrictions).unguessed().to_multiset()
            == groups.unguessed().to_multiset(),
{
    broadcast use vstd::seq_lib::lemma_multiset_commutative;

    let after = groups.narrowed(restrictions);
    Seq::filter_distributes_over_add(groups.spent, groups.open, satisfies(restrictions));
    assert forall|word: Arc<str>| #[trigger]
        after.unguessed().to_multiset().count(word) == groups.unguessed().to_multiset().count(
            word,
        ) by {
        filter_counts(groups.open, satisfies(restrictions), word);
        filter_counts(groups.open, fails(restrictions), word);
    }
    assert(after.unguessed().to_multiset() =~= groups.unguessed().to_multiset());
}

/// Whether the unguessed words that satisfy the restrictions are the open ones.
spec fn well_grouped(groups: GroupsView, restrictions: RestrictionsView) -> bool {
    &&& forall|i: int|
        0 <= i < groups.open.len() ==> restrictions.satisfied_by((#[trigger] groups.open[i])@)
    &&& forall|i: int|
        0 <= i < groups.ruled_out.len() ==> !restrictions.satisfied_by(
            (#[trigger] groups.ruled_out[i])@,
        )
}

/// Whether the groups of the words are those that the steps lead to.
spec fn grouped_by(
    words: Seq<Arc<str>>,
    word_length: nat,
    groups: GroupsView,
    restrictions: RestrictionsView,
    steps: Seq<Step>,
    untried: spec_fn(Arc<str>) -> bool,
) -> bool {
    &&& restrictions.word_length == word_length
    &&& groups.possible().to_multiset() == words.filter(
        agreeing(steps, word_length),
    ).to_multiset()
    &&& groups.unguessed().to_multiset() == words.filter(untried).to_multiset()
    &&& forall|text: Seq<char>|
        text.len() == word_length ==> (restrictions.satisfied_by(text)
            <==> #[trigger] agrees_with_all(steps, word_length, text))
    &&& well_grouped(groups, restrictions)
}

/// What is left of a list by a filter keeps what holds of all of its items.
proof fn filtered_words_are_listed(words: Seq<Arc<str>>, pred: spec_fn(Arc<str>) -> bool)
    ensures
        forall|i: int|
            0 <= i < words.filter(pred).len() ==> words.contains(#[trigger] words.filter(pred)[i])
                && pred(words.filter(pred)[i]),
{
    assert forall|i: int| 0 <= i < words.filter(pred).len() implies words.contains(
        #[trigger] words.filter(pred)[i],
    ) && pred(words.filter(pred)[i]) by {
        words.lemma_filter_pred(pred, i);
        assert(words.filter(pred).contains(words.filter(pred)[i]));
        words.lemma_filter_contains_rev(pred, words.filter(pred)[i]);
    }
}

/// Guessing a word leaves the words well grouped.
proof fn guessing_keeps_words_grouped(
    groups: GroupsView,
    restrictions: RestrictionsView,
    guess: Seq<char>,
)
    requires
        well_grouped(groups, restrictions),
    ensures
        well_grouped(groups.without_guess(guess), restrictions),
{
    filtered_words_are_listed(groups.open, not_reading(guess));
    filtered_words_are_listed(groups.ruled_out, not_reading(guess));
}

/// Taking up a result leaves the words well grouped.
proof fn learning_keeps_words_grouped(
    groups: GroupsView,
    restrictions: RestrictionsView,
    guess: Seq<char>,
    results: Seq<LetterResult>,
)
    requires
        well_grouped(groups, restrictions),
    ensures
        well_grouped(
            groups.narrowed(restrictions.updated(guess, results)),
            restrictions.updated(guess, results),
        ),
{
    let learnt = restrictions.updated(guess, results);
    let after = groups.narrowed(learnt);
    filtered_words_are_listed(groups.open, satisfies(learnt));
    filtered_words_are_listed(groups.open, fails(learnt));
    let rejected = groups.open.filter(fails(learnt));
    assert forall|i: int| 0 <= i < after.ruled_out.len() implies !learnt.satisfied_by(
        (#[trigger] after.ruled_out[i])@,
    ) by {
        if i < rejected.len() {
            assert(after.ruled_out[i] == rejected[i]);
        } else {
            let word = groups.ruled_out[i - rejected.len()];
            assert(after.ruled_out[i] == word);
            learnt_words_agree(restrictions, guess, results, word@);
        }
    }
}

/// One more step adds what it reports.
proof fn one_more_step(steps: Seq<Step>, step: Step, word_length: nat, word: Seq<char>)
    ensures
        agrees_with_all(steps.push(step), word_length, word) <==> agrees_with_all(
            steps,
            word_length,
            word,
        ) && agrees(step, word_length, word),
{
    let all = steps.push(step);
    if agrees_with_all(all, word_length, word) {
        assert(all[steps.len() as int] == step);
        assert forall|k: int| 0 <= k < steps.len() implies agrees(
            #[trigger] steps[k],
            word_length,
            word,
        ) by {
            assert(all[k] == steps[k]);
        }
    }
}

/// A step that reports no good results, and by which at most a word is guessed.
proof fn nothing_is_learnt(
    words: Seq<Arc<str>>,
    word_length: nat,
    groups: GroupsView,
    restrictions: RestrictionsView,
    steps: Seq<Step>,
    untried: spec_fn(Arc<str>) -> bool,
    step: Step,
    after: GroupsView,
    still_untried: spec_fn(Arc<str>) -> bool,
)
    requires
        grouped_by(words, word_length, groups, restrictions, steps, untried),
        forall|text: Seq<char>| agrees(step, word_length, text),
        after.possible().to_multiset() == groups.possible().to_multiset(),
        after.unguessed().to_multiset() == words.filter(still_untried).to_multiset(),
        well_grouped(after, restrictions),
    ensures
        grouped_by(words, word_length, after, restrictions, steps.push(step), still_untried),
{
    let now = steps.push(step);
    assert forall|text: Seq<char>| #[trigger]
        agrees_with_all(now, word_length, text) <==> agrees_with_all(
            steps,
            word_length,
            text,
        ) by {
        one_more_step(steps, step, word_length, text);
        assert(agrees(step, word_length, text));
    }
    let before = words.filter(agreeing(steps, word_length));
    let after_step = words.filter(agreeing(now, word_length));
    assert forall|word: Arc<str>| #[trigger]
        before.to_multiset().count(word) == after_step.to_multiset().count(word) by {
        filter_counts(words, agreeing(steps, word_length), word);
        filter_counts(words, agreeing(now, word_length), word);
        assert(agrees_with_all(now, word_length, word@) == agrees_with_all(
            steps,
            word_length,
            word@,
        ));
    }
    assert(before.to_multiset() =~= after_step.to_multiset());
}

/// The words that are left untried when one more is guessed.
proof fn one_more_try(
    words: Seq<Arc<str>>,
    groups: GroupsView,
    untried: spec_fn(Arc<str>) -> bool,
    guess: Seq<char>,
    still_untried: spec_fn(Arc<str>) -> bool,
)
    requires
        groups.unguessed().to_multiset() == words.filter(untried).to_multiset(),
        forall|word: Arc<str>| #[trigger]
            still_untried(word) <==> untried(word) && word@ != guess,
    ensures
        groups.without_guess(guess).unguessed().to_multiset() == words.filter(
            still_untried,
        ).to_multiset(),
{
    guessing_counts(groups, guess);
    let after = groups.without_guess(guess).unguessed();
    assert forall|word: Arc<str>| #[trigger]
        after.to_multiset().count(word) == words.filter(still_untried).to_multiset().count(
            word,
        ) by {
        filter_counts(groups.unguessed(), not_reading(guess), word);
        filter_counts(words, untried, word);
        filter_counts(words, still_untried, word);
    }
    assert(after.to_multiset() =~= words.filter(still_untried).to_multiset());
}

/// A step that reports good results.
proof fn something_is_learnt(
    words: Seq<Arc<str>>,
    word_length: nat,
    groups: GroupsView,
    restrictions: RestrictionsView,
    steps: Seq<Step>,
    untried: spec_fn(Arc<str>) -> bool,
    guess: Seq<char>,
    results: Seq<LetterResult>,
    outcome: Result<(), WordleError>,
    still_untried: spec_fn(Arc<str>) -> bool,
)
    requires
        all_of_length(words, word_length),
        grouped_by(words, word_length, groups, restrictions, steps, untried),
        guess.len() == word_length,
        results.len() == word_length,
        forall|word: Arc<str>| #[trigger]
            still_untried(word) <==> untried(word) && word@ != guess,
    ensures
        grouped_by(
            words,
            word_length,
            groups.without_guess(guess).narrowed(restrictions.updated(guess, results)),
            restrictions.updated(guess, results),
            steps.push(Step::Update(guess, results, outcome)),
            still_untried,
        ),
{
    let step = Step::Update(guess, results, outcome);
    let now = steps.push(step);
    let learnt = restrictions.updated(guess, results);
    let guessed = groups.without_guess(guess);
    let after = guessed.narrowed(learnt);
    one_more_try(words, groups, untried, guess, still_untried);
    guessing_counts(groups, guess);
    narrowing_counts(guessed, learnt);
    guessing_keeps_words_grouped(groups, restrictions, guess);
    learning_keeps_words_grouped(guessed, restrictions, guess, results);
    assert forall|text: Seq<char>| text.len() == word_length implies (learnt.satisfied_by(text)
        <==> #[trigger] agrees_with_all(now, word_length, text)) by {
        one_more_step(steps, step, word_length, text);
        learnt_words_agree(restrictions, guess, results, text);
        assert(restrictions.satisfied_by(text) <==> agrees_with_all(steps, word_length, text));
    }
    learnt_words_agree(restrictions, guess, results, guess);
    let kept = words.filter(agreeing(now, word_length));
    let earlier = words.filter(agreeing(steps, word_length));
    assert forall|word: Arc<str>| #[trigger]
        after.possible().to_multiset().count(word) == kept.to_multiset().count(word) by {
        broadcast use vstd::seq_lib::group_to_multiset_ensures;

        filter_counts(guessed.possible(), satisfies(learnt), word);
        filter_counts(words, agreeing(now, word_length), word);
        filter_counts(words, agreeing(steps, word_length), word);
        one_more_step(steps, step, word_length, word@);
        if words.contains(word) {
            assert(words[words.index_of(word)]@.len() == word_length);
            assert(learnt.satisfied_by(word@) <==> agrees_with_all(now, word_length, word@));
        } else {
            assert(words.to_multiset().count(word) == 0);
        }
    }
    assert(after.possible().to_multiset() =~= kept.to_multiset());
}

/// Before the first step, every word is possible and unguessed.
proof fn all_words_are_open_at_first(
    words: Seq<Arc<str>>,
    word_length: usize,
    untried: spec_fn(Arc<str>) -> bool,
)
    requires
        all_of_length(words, word_length as nat),
        word_length <= u8::MAX,
        forall|word: Arc<str>| #[trigger] untried(word),
    ensures
        grouped_by(
            words,
            word_length as nat,
            GroupsView::unguessed_and_possible(words),
            RestrictionsView::unrestricted(word_length as u8),
            Seq::empty(),
            untried,
        ),
{
    let groups = GroupsView::unguessed_and_possible(words);
    assert(groups.possible() =~= words);
    assert(groups.unguessed() =~= words);
    let none: Seq<Step> = Seq::empty();
    assert forall|word: Arc<str>| #[trigger]
        words.to_multiset().count(word) == words.filter(
            agreeing(none, word_length as nat),
        ).to_multiset().count(word) by {
        filter_counts(words, agreeing(none, word_length as nat), word);
    }
    assert forall|word: Arc<str>| #[trigger]
        words.to_multiset().count(word) == words.filter(untried).to_multiset().count(word) by {
        filter_counts(words, untried, word);
    }
    assert(words.to_multiset() =~= words.filter(
        agreeing(none, word_length as nat),
    ).to_multiset());
    assert(words.to_multiset() =~= words.filter(untried).to_multiset());
}

/// What steps leave of the words of a random guesser.
proof fn random_guessers_are_grouped(
    words: Seq<Arc<str>>,
    word_length: usize,
    start: RandomGuesser,
    steps: Seq<Step>,
    end: RandomGuesser,
)
    requires
        all_of_length(words, word_length as nat),
        word_length <= u8::MAX,
        start@.groups == GroupsView::unguessed_and_possible(words),
        start@.restrictions == RestrictionsView::unrestricted(word_length as u8),
        may_go(start, steps, end),
    ensures
        grouped_by(
            words,
            word_length as nat,
            end@.groups,
            end@.restrictions,
            steps,
            untaught(steps),
        ),
    decreases steps.len(),
{
    if steps.len() == 0 {
        assert(steps =~= Seq::empty());
        all_words_are_open_at_first(words, word_length, untaught(steps));
    } else {
        let earlier = steps.drop_last();
        let step = steps.last();
        let before = choose|before: RandomGuesser|
            may_go(start, earlier, before) && #[trigger] may_step(before, step, end);
        random_guessers_are_grouped(words, word_length, start, earlier, before);
        assert(steps =~= earlier.push(step));
        assert forall|word: Arc<str>| #[trigger]
            untaught(steps)(word) <==> untaught(earlier)(word) && !step.teaches(word@) by {
            if untaught(steps)(word) {
                assert(!steps[steps.len() - 1].teaches(word@));
                assert forall|k: int| 0 <= k < earlier.len() implies !(
                #[trigger] earlier[k]).teaches(word@) by {
                    assert(steps[k] == earlier[k]);
                }
            }
        }
        let good = match step {
            Step::Update(guess, results, _) => guess.len() == word_length && results.len()
                == word_length,
            Step::Selection(_, _) => false,
        };
        if good {
            if let Step::Update(guess, results, outcome) = step {
                assert(before@.restrictions.update_outcome(guess, results) is Ok);
                assert(outcome is Ok);
                something_is_learnt(
                    words,
                    word_length as nat,
                    before@.groups,
                    before@.restrictions,
                    earlier,
                    untaught(earlier),
                    guess,
                    results,
                    outcome,
                    untaught(steps),
                );
            }
        } else {
            assert(end@ == before@);
            assert forall|word: Arc<str>| untaught(steps)(word) == #[trigger] untaught(earlier)(
                word,
            ) by {
                assert(untaught(steps)(word) == untaught(earlier)(word));
            }
            same_filter(words, untaught(earlier), untaught(steps));
            nothing_is_learnt(
                words,
                word_length as nat,
                before@.groups,
                before@.restrictions,
                earlier,
                untaught(earlier),
                step,
                before@.groups,
                untaught(steps),
            );
        }
    }
}

/// Filters that tell the same leave the same.
pub proof fn same_filter<A>(items: Seq<A>, left: spec_fn(A) -> bool, right: spec_fn(A) -> bool)
    requires
        forall|item: A| #[trigger] left(item) == right(item),
    ensures
        items.filter(left).to_multiset() == items.filter(right).to_multiset(),
{
    assert forall|item: A| #[trigger]
        items.filter(left).to_multiset().count(item) == items.filter(right).to_multiset().count(
            item,
        ) by {
        filter_counts(items, left, item);
        filter_counts(items, right, item);
        assert(left(item) == right(item));
    }
    assert(items.filter(left).to_multiset() =~= items.filter(right).to_multiset());
}

/// What steps leave of the words of a guesser that scores words.
proof fn max_score_guessers_are_grouped<T: WordScorer + Clone + Sync>(
    words: Seq<Arc<str>>,
    word_length: usize,
    start: MaxScoreGuesser<T>,
    steps: Seq<Step>,
    end: MaxScoreGuesser<T>,
)
    requires
        all_of_length(words, word_length as nat),
        word_length <= u8::MAX,
        start@.groups == GroupsView::unguessed_and_possible(words),
        start@.restrictions == RestrictionsView::unrestricted(word_length as u8),
        may_go(start, steps, end),
    ensures
        grouped_by(
            words,
            word_length as nat,
            end@.groups,
            end@.restrictions,
            steps,
            unreported(steps),
        ),
    decreases steps.len(),
{
    if steps.len() == 0 {
        assert(steps =~= Seq::empty());
        all_words_are_open_at_first(words, word_length, unreported(steps));
    } else {
        let earlier = steps.drop_last();
        let step = steps.last();
        let before = choose|before: MaxScoreGuesser<T>|
            may_go(start, earlier, before) && #[trigger] may_step(before, step, end);
        max_score_guessers_are_grouped(words, word_length, start, earlier, before);
        assert(steps =~= earlier.push(step));
        assert forall|word: Arc<str>| #[trigger]
            unreported(steps)(word) <==> unreported(earlier)(word) && !step.reports(word@) by {
            if unreported(steps)(word) {
                assert(!steps[steps.len() - 1].reports(word@));
                assert forall|k: int| 0 <= k < earlier.len() implies !(
                #[trigger] earlier[k]).reports(word@) by {
                    assert(steps[k] == earlier[k]);
                }
            }
        }
        match step {
            Step::Update(guess, results, outcome) => {
                if guess.len() == word_length && results.len() == word_length {
                    assert(before@.restrictions.update_outcome(guess, results) is Ok);
                    something_is_learnt(
                        words,
                        word_length as nat,
                        before@.groups,
                        before@.restrictions,
                        earlier,
                        unreported(earlier),
                        guess,
                        results,
                        outcome,
                        unreported(steps),
                    );
                } else {
                    one_more_try(
                        words,
                        before@.groups,
                        unreported(earlier),
                        guess,
                        unreported(steps),
                    );
                    guessing_counts(before@.groups, guess);
                    guessing_keeps_words_grouped(before@.groups, before@.restrictions, guess);
                    nothing_is_learnt(
                        words,
                        word_length as nat,
                        before@.groups,
                        before@.restrictions,
                        earlier,
                        unreported(earlier),
                        step,
                        before@.groups.without_guess(guess),
                        unreported(steps),
                    );
                }
            },
            Step::Selection(_, _) => {
                assert forall|word: Arc<str>| unreported(steps)(word) == #[trigger] unreported(
                    earlier,
                )(word) by {
                    assert(unreported(steps)(word) == unreported(earlier)(word));
                }
                same_filter(words, unreported(earlier), unreported(steps));
                nothing_is_learnt(
                    words,
                    word_length as nat,
                    before@.groups,
                    before@.restrictions,
                    earlier,
                    unreported(earlier),
                    step,
                    before@.groups,
                    unreported(steps),
                );
            },
        }
    }
}

/// Well grouped unguessed words begin with those that agree with what was learnt.
proof fn agreeing_words_come_first(
    words: Seq<Arc<str>>,
    word_length: nat,
    groups: GroupsView,
    restrictions: RestrictionsView,
    steps: Seq<Step>,
    untried: spec_fn(Arc<str>) -> bool,
)
    requires
        all_of_length(words, word_length),
        grouped_by(words, word_length, groups, restrictions, steps, untried),
    ensures
        forall|i: int, j: int|
            0 <= i < j < groups.unguessed().len() && agrees_with_all(
                steps,
                word_length,
                (#[trigger] groups.unguessed()[j])@,
            ) ==> agrees_with_all(steps, word_length, (#[trigger] groups.unguessed()[i])@),
{
    broadcast use vstd::seq_lib::group_to_multiset_ensures;

    let unguessed = groups.unguessed();
    assert forall|i: int| 0 <= i < unguessed.len() implies (#[trigger] unguessed[i])@.len()
        == word_length by {
        let word = unguessed[i];
        assert(unguessed.contains(word));
        assert(unguessed.to_multiset().count(word) > 0);
        filter_counts(words, untried, word);
        assert(words.contains(word));
        assert(words[words.index_of(word)]@.len() == word_length);
    }
    assert forall|i: int, j: int|
        0 <= i < j < unguessed.len() && agrees_with_all(
            steps,
            word_length,
            (#[trigger] unguessed[j])@,
        ) implies agrees_with_all(steps, word_length, (#[trigger] unguessed[i])@) by {
        assert(restrictions.satisfied_by(unguessed[j]@));
        if j >= groups.open.len() {
            assert(groups.ruled_out[j - groups.open.len()] == unguessed[j]);
        }
        assert(groups.open[i] == unguessed[i]);
        assert(restrictions.satisfied_by(unguessed[i]@));
    }
}

/// After any selections and updates, the words that are possible to a random guesser are exactly
/// those of its bank that would give every guess the results that were reported. The unguessed
/// words are those that no good update has reported. Among them the possible ones come first.
pub proof fn random_guessers_keep_the_agreeing_words(
    bank: WordBank,
    start: RandomGuesser,
    steps: Seq<Step>,
    end: RandomGuesser,
)
    requires
        call_ensures(RandomGuesser::new, (bank,), start),
        all_of_length(bank@, bank.letters_per_word() as nat),
        bank.letters_per_word() <= u8::MAX,
        may_go(start, steps, end),
    ensures
        end.possible().to_multiset() == bank@.filter(
            agreeing(steps, bank.letters_per_word() as nat),
        ).to_multiset(),
        end@.groups.unguessed().to_multiset() == bank@.filter(untaught(steps)).to_multiset(),
        forall|i: int, j: int|
            0 <= i < j < end@.groups.unguessed().len() && agrees_with_all(
                steps,
                bank.letters_per_word() as nat,
                (#[trigger] end@.groups.unguessed()[j])@,
            ) ==> agrees_with_all(
                steps,
                bank.letters_per_word() as nat,
                (#[trigger] end@.groups.unguessed()[i])@,
            ),
{
    let word_length = bank.letters_per_word();
    random_guessers_are_grouped(bank@, word_length, start, steps, end);
    agreeing_words_come_first(
        bank@,
        word_length as nat,
        end@.groups,
        end@.restrictions,
        steps,
        untaught(steps),
    );
}

/// After any selections and updates, the words that are possible to a guesser that scores words are
/// exactly those of its bank that would give every guess the results that were reported. The
/// unguessed words are those that no update has reported. Among them the possible ones come first.
pub proof fn max_score_guessers_keep_the_agreeing_words<T: WordScorer + Clone + Sync>(
    guess_mode: GuessFrom,
    bank: WordBank,
    scorer: T,
    available_parallelism: Option<usize>,
    start: MaxScoreGuesser<T>,
    steps: Seq<Step>,
    end: MaxScoreGuesser<T>,
)
    requires
        call_ensures(
            MaxScoreGuesser::<T>::new,
            (guess_mode, bank, scorer, available_parallelism),
            start,
        ),
        all_of_length(bank@, bank.letters_per_word() as nat),
        bank.letters_per_word() <= u8::MAX,
        may_go(start, steps, end),
    ensures
        end.possible().to_multiset() == bank@.filter(
            agreeing(steps, bank.letters_per_word() as nat),
        ).to_multiset(),
        end@.groups.unguessed().to_multiset() == bank@.filter(unreported(steps)).to_multiset(),
        forall|i: int, j: int|
            0 <= i < j < end@.groups.unguessed().len() && agrees_with_all(
                steps,
                bank.letters_per_word() as nat,
                (#[trigger] end@.groups.unguessed()[j])@,
            ) ==> agrees_with_all(
                steps,
                bank.letters_per_word() as nat,
                (#[trigger] end@.groups.unguessed()[i])@,
            ),
{
    let word_length = bank.letters_per_word();
    max_score_guessers_are_grouped(bank@, word_length, start, steps, end);
    agreeing_words_come_first(
        bank@,
        word_length as nat,
        end@.groups,
        end@.restrictions,
        steps,
        unreported(steps),
    );
}

/// A selection is a step.
pub proof fn selections_are_steps<G: Guesser>(
    guesser: &mut G,
    from: GuessFrom,
    guess: Option<Arc<str>>,
)
    requires
        call_ensures(<G as Guesser>::select_next_guess_from, (guesser, from), guess),
    ensures
        may_step(*old(guesser), Step::Selection(from, guess), *final(guesser)),
        final(guesser).possible() == old(guesser).possible(),
        old(guesser).possible().len() == 0 ==> guess is None,
{
}

/// A selection that does not say from which words is a step too.
pub proof fn default_selections_are_steps<G: Guesser>(guesser: &mut G, guess: Option<Arc<str>>)
    requires
        call_ensures(<G as Guesser>::select_next_guess, (guesser,), guess),
    ensures
        may_step(
            *old(guesser),
            Step::Selection(old(guesser).default_mode(), guess),
            *final(guesser),
        ),
        final(guesser).possible() == old(guesser).possible(),
        old(guesser).possible().len() == 0 ==> guess is None,
{
}

/// An update is a step.
pub proof fn updates_are_steps<G: Guesser>(
    guesser: &mut G,
    result: &GuessResult<'_>,
    outcome: Result<(), WordleError>,
)
    requires
        call_ensures(<G as Guesser>::update, (guesser, result), outcome),
    ensures
        may_step(
            *old(guesser),
            Step::Update(result.guess@, result.results@, outcome),
            *final(guesser),
        ),
{
}

/// The error of an update, by the number of letters that words have.
pub open spec fn fault(
    word_length: u8,
    guess: Seq<char>,
    results: Seq<LetterResult>,
) -> Option<WordleError> {
    if guess.len() != word_length {
        Some(WordleError::WordLength(word_length as usize))
    } else if results.len() != word_length {
        Some(WordleError::InvalidResults)
    } else {
        None
    }
}

/// An update of a random guesser fails exactly where the guess has not the right length, or not one
/// result per letter. Then nothing changes.
pub proof fn random_guessers_reject_faulty_results(
    guesser: &mut RandomGuesser,
    result: &GuessResult<'_>,
    outcome: Result<(), WordleError>,
)
    requires
        call_ensures(<RandomGuesser as Guesser>::update, (guesser, result), outcome),
    ensures
        ({
            let fault = fault(
                old(guesser)@.restrictions.word_length,
                result.guess@,
                result.results@,
            );
            &&& outcome is Ok <==> fault is None
            &&& outcome matches Err(error) ==> fault == Some(error) && final(guesser)@ == old(
                guesser,
            )@
        }),
        final(guesser)@.restrictions.word_length == old(guesser)@.restrictions.word_length,
{
}

/// An update of a guesser that scores words fails where the guess has not the right length, or not
/// one result per letter. Then the guess counts as guessed, and the scorer is not told. Otherwise
/// the scorer is told the guess, restrictions that demand its results, and the words that are still
/// possible, and its outcome is that of the update. All scores are forgotten either way.
pub proof fn max_score_guessers_tell_the_scorer<T: WordScorer + Clone + Sync>(
    guesser: &mut MaxScoreGuesser<T>,
    result: &GuessResult<'_>,
    outcome: Result<(), WordleError>,
)
    requires
        call_ensures(<MaxScoreGuesser<T> as Guesser>::update, (guesser, result), outcome),
    ensures
        match fault(old(guesser)@.restrictions.word_length, result.guess@, result.results@) {
            Some(fault) => {
                &&& outcome == Result::<(), WordleError>::Err(fault)
                &&& final(guesser)@.scorer == old(guesser)@.scorer
                &&& final(guesser)@.restrictions == old(guesser)@.restrictions
                &&& final(guesser).possible().to_multiset() == old(
                    guesser,
                ).possible().to_multiset()
            },
            None => {
                &&& old(guesser)@.scorer.may_update(
                    result.guess@,
                    final(guesser)@.restrictions,
                    final(guesser).possible(),
                    outcome,
                    &final(guesser)@.scorer,
                )
                &&& forall|word: Seq<char>| #[trigger]
                    final(guesser)@.restrictions.satisfied_by(word) <==> old(
                        guesser,
                    )@.restrictions.satisfied_by(word) && letter_results(word, result.guess@)
                        == result.results@
            },
        },
        final(guesser)@.unguessed_scores is None,
        final(guesser)@.possible_scores is None,
        final(guesser)@.default_guess_mode == old(guesser)@.default_guess_mode,
        final(guesser)@.parallelisation_limit == old(guesser)@.parallelisation_limit,
        final(guesser)@.restrictions.word_length == old(guesser)@.restrictions.word_length,
{
    let restrictions = old(guesser)@.restrictions;
    guessing_counts(old(guesser)@.groups, result.guess@);
    assert forall|word: Seq<char>|
        restrictions.updated(result.guess@, result.results@).satisfied_by(word) <==> (
        #[trigger] restrictions.satisfied_by(word) && (result.guess@.len()
            == restrictions.word_length && result.results@.len() == restrictions.word_length
            ==> letter_results(word, result.guess@) == result.results@)) by {
        learnt_words_agree(restrictions, result.guess@, result.results@, word);
    }
    learnt_words_agree(restrictions, result.guess@, result.results@, result.guess@);
}

/// A new random guesser finds all words of the bank possible and unguessed, in their order.
pub proof fn new_random_guessers_know_the_bank(bank: WordBank, guesser: RandomGuesser)
    requires
        call_ensures(RandomGuesser::new, (bank,), guesser),
    ensures
        guesser.possible() == bank@,
        guesser@.groups.unguessed() == bank@,
        guesser.default_mode() == GuessFrom::PossibleWords,
{
    assert(guesser.possible() =~= bank@);
    assert(guesser@.groups.unguessed() =~= bank@);
}

/// A random guesser selects a possible word if it is asked for those, or no word is unguessed, and
/// otherwise an unguessed one. It selects none only if no word is possible, and changes nothing.
pub proof fn random_guessers_select_what_was_asked_for(
    guesser: &mut RandomGuesser,
    from: GuessFrom,
    guess: Option<Arc<str>>,
)
    requires
        call_ensures(
            <RandomGuesser as Guesser>::select_next_guess_from,
            (guesser, from),
            guess,
        ),
    ensures
        guess is None <==> old(guesser).possible().len() == 0,
        guess matches Some(guess) ==> if from == GuessFrom::PossibleWords || old(
            guesser,
        )@.groups.unguessed().len() == 0 {
            old(guesser).possible().contains(guess)
        } else {
            old(guesser)@.groups.unguessed().contains(guess)
        },
        final(guesser)@ == old(guesser)@,
{
}

/// A random guesser selects from the possible words by default.
pub proof fn random_guessers_select_possible_words(
    guesser: &mut RandomGuesser,
    guess: Option<Arc<str>>,
)
    requires
        call_ensures(<RandomGuesser as Guesser>::select_next_guess, (guesser,), guess),
    ensures
        guess is None <==> old(guesser).possible().len() == 0,
        guess matches Some(guess) ==> old(guesser).possible().contains(guess),
        final(guesser)@ == old(guesser)@,
{
}

/// Any of the words that were asked for may be selected.
pub proof fn any_word_may_be_drawn(guesser: RandomGuesser, guess: Arc<str>)
    ensures
        guesser.possible().contains(guess) ==> may_step(
            guesser,
            Step::Selection(GuessFrom::PossibleWords, Some(guess)),
            guesser,
        ),
        guesser@.groups.unguessed().contains(guess) && guesser.possible().len() > 0 ==> may_step(
            guesser,
            Step::Selection(GuessFrom::AllUnguessedWords, Some(guess)),
            guesser,
        ),
{
}

/// A number below the number of words selects the word at that position, and numbers that differ by
/// the number of words select the same.
pub proof fn numbers_select_all_words(
    words: &[Arc<str>],
    random: usize,
    word: Option<Arc<str>>,
    rounds: nat,
    position: int,
)
    requires
        call_ensures(select_word_by_number, (words, random), word),
        0 <= position < words@.len(),
        random == rounds * words@.len() + position,
    ensures
        word == Some(words@[position]),
{
    let len = words@.len() as int;
    vstd::arithmetic::div_mod::lemma_fundamental_div_mod_converse(
        random as int,
        len,
        rounds as int,
        position,
    );
}

/// Removing a guess leaves the possible words as they are but for their order, and takes all words
/// that read like it out of the unguessed words, which keep their order.
pub proof fn removed_guesses_stay_possible(groups: &mut GroupedWords, guess: &str)
    requires
        call_ensures(GroupedWords::remove_guess_if_present, (groups, guess), ()),
    ensures
        final(groups)@.possible().to_multiset() == old(groups)@.possible().to_multiset(),
        final(groups)@.unguessed() == old(groups)@.unguessed().filter(
            |word: Arc<str>| word@ != guess@,
        ),
{
    guessing_counts(old(groups)@, guess@);
    assert(not_reading(guess@) =~= (|word: Arc<str>| word@ != guess@));
}

/// Filtering keeps the possible words that satisfy the restrictions, in their order, and leaves the
/// unguessed words as they are but for their order.
pub proof fn filtered_words_satisfy_the_restrictions(
    groups: &mut GroupedWords,
    restrictions: &WordRestrictions,
)
    requires
        call_ensures(GroupedWords::filter_possible_words, (groups, restrictions), ()),
    ensures
        final(groups)@.possible() == old(groups)@.possible().filter(
            |word: Arc<str>| restrictions@.satisfied_by(word@),
        ),
        final(groups)@.unguessed().to_multiset() == old(groups)@.unguessed().to_multiset(),
{
    narrowing_counts(old(groups)@, restrictions@);
    assert(satisfies(restrictions@) =~= (|word: Arc<str>| restrictions@.satisfied_by(word@)));
}

/// Groups that are taken apart can be put together again: the list, the number of possible words at
/// its start, and the number of words before the unguessed ones.
pub proof fn groups_can_be_put_together_again(
    groups: GroupedWords,
    parts: (Vec<Arc<str>>, usize, usize),
    again: Option<GroupedWords>,
)
    requires
        call_ensures(GroupedWords::into_parts, (groups,), parts),
        call_ensures(GroupedWords::from_parts, parts, again),
    ensures
        parts.0@.take(parts.2 as int) == groups@.possible(),
        parts.0@.skip(parts.1 as int) == groups@.unguessed(),
        again matches Some(again) && again@ == groups@,
{
    assert(parts.0@.take(parts.2 as int) =~= groups@.possible());
    assert(parts.0@.skip(parts.1 as int) =~= groups@.unguessed());
}

/// A random guesser that is taken apart can be put together again.
pub proof fn random_guessers_can_be_put_together_again(
    guesser: RandomGuesser,
    parts: (GroupedWords, WordRestrictions),
    again: RandomGuesser,
)
    requires
        call_ensures(RandomGuesser::into_parts, (guesser,), parts),
        call_ensures(RandomGuesser::from_parts, parts, again),
    ensures
        again@ == guesser@,
        parts.0@.possible() == guesser.possible(),
{
}

/// A guesser that scores words and is taken apart can be put together again.
pub proof fn max_score_guessers_can_be_put_together_again<T: WordScorer + Clone + Sync>(
    guesser: MaxScoreGuesser<T>,
    parts: MaxScoreParts<T>,
    again: Option<MaxScoreGuesser<T>>,
)
    requires
        call_ensures(MaxScoreGuesser::<T>::into_parts, (guesser,), parts),
        call_ensures(MaxScoreGuesser::<T>::from_parts, (parts,), again),
    ensures
        again matches Some(again) && again@ == guesser@,
        parts.grouped_words@.possible() == guesser.possible(),
        parts.scorer == guesser@.scorer,
        parts.default_guess_mode == guesser.default_mode(),
{
}

/// Restrictions that are taken apart can be put together again.
pub proof fn restrictions_can_be_put_together_again(
    restrictions: WordRestrictions,
    parts: (u8, Vec<(Vec<char>, Vec<LetterResult>)>),
    again: WordRestrictions,
)
    requires
        call_ensures(WordRestrictions::into_parts, (restrictions,), parts),
        call_ensures(WordRestrictions::from_parts, parts, again),
    ensures
        again@ == restrictions@,
        parts.0 == restrictions@.word_length,
{
}

/// What can be read of groups: the possible words, the unguessed words, and how many there are.
pub proof fn groups_can_be_read(
    groups: GroupedWords,
    possible: &[Arc<str>],
    unguessed: &[Arc<str>],
    num_possible: usize,
    num_unguessed: usize,
    lead: bool,
)
    requires
        call_ensures(GroupedWords::possible_words, (&groups,), possible),
        call_ensures(GroupedWords::unguessed_words, (&groups,), unguessed),
        call_ensures(GroupedWords::num_possible_words, (&groups,), num_possible),
        call_ensures(GroupedWords::num_unguessed_words, (&groups,), num_unguessed),
        call_ensures(GroupedWords::possible_words_lead, (&groups,), lead),
    ensures
        possible@ == groups@.possible(),
        unguessed@ == groups@.unguessed(),
        num_possible == possible@.len(),
        num_unguessed == unguessed@.len(),
        lead ==> possible@.is_prefix_of(unguessed@),
{
    if lead {
        assert(possible@ =~= unguessed@.take(possible@.len() as int));
    }
}

/// New groups hold the words of the bank as possible and unguessed, in their order.
pub proof fn new_groups_hold_the_bank(bank: WordBank, groups: GroupedWords)
    requires
        call_ensures(GroupedWords::new, (bank,), groups),
    ensures
        groups@.possible() == bank@,
        groups@.unguessed() == bank@,
{
    assert(groups@.possible() =~= bank@);
    assert(groups@.unguessed() =~= bank@);
}

/// The possible words of a guesser can be read.
pub proof fn possible_words_can_be_read<G: Guesser>(guesser: G, words: &[Arc<str>])
    requires
        call_ensures(<G as Guesser>::possible_words, (&guesser,), words),
    ensures
        words@ == guesser.possible(),
{
}

/// A copy of a random guesser is the same guesser.
pub proof fn copies_of_random_guessers_are_the_same(guesser: RandomGuesser, copy: RandomGuesser)
    requires
        call_ensures(<RandomGuesser as Clone>::clone, (&guesser,), copy),
    ensures
        copy@ == guesser@,
        copy.possible() == guesser.possible(),
{
}

/// Groups can be put together exactly where they lie within the list.
pub proof fn stored_groups_must_lie_within_the_list(
    words: Vec<Arc<str>>,
    num_spent: usize,
    num_possible: usize,
    groups: Option<GroupedWords>,
)
    requires
        call_ensures(GroupedWords::from_parts, (words, num_spent, num_possible), groups),
    ensures
        groups is Some <==> num_spent <= num_possible <= words@.len(),
        groups matches Some(groups) ==> {
            &&& groups@.possible() == words@.take(num_possible as int)
            &&& groups@.unguessed() == words@.skip(num_spent as int)
        },
{
    if let Some(groups) = groups {
        assert(groups@.possible() =~= words@.take(num_possible as int));
        assert(groups@.unguessed() =~= words@.skip(num_spent as int));
    }
}

/// Tells whether a word passes both of two tests.
pub open spec fn both(
    left: spec_fn(Arc<str>) -> bool,
    right: spec_fn(Arc<str>) -> bool,
) -> spec_fn(Arc<str>) -> bool {
    |word: Arc<str>| left(word) && right(word)
}

/// Whether the words that are possible and untried have the order that they have in the list, and
/// the other possible words have been tried.
spec fn ordered_by(
    words: Seq<Arc<str>>,
    groups: GroupsView,
    agree: spec_fn(Arc<str>) -> bool,
    untried: spec_fn(Arc<str>) -> bool,
) -> bool {
    &&& groups.open == words.filter(both(agree, untried))
    &&& forall|i: int| 0 <= i < groups.spent.len() ==> !untried(#[trigger] groups.spent[i])
}

/// A filter that all items pass leaves them all.
proof fn all_pass<A>(items: Seq<A>, pred: spec_fn(A) -> bool)
    requires
        forall|i: int| 0 <= i < items.len() ==> pred(#[trigger] items[i]),
    ensures
        items.filter(pred) == items,
    decreases items.len(),
{
    reveal(Seq::filter);
    if items.len() > 0 {
        all_pass(items.drop_last(), pred);
        assert(items.drop_last().push(items.last()) =~= items);
    }
}

/// A filter that no item passes leaves none.
proof fn none_pass<A>(items: Seq<A>, pred: spec_fn(A) -> bool)
    requires
        forall|i: int| 0 <= i < items.len() ==> !pred(#[trigger] items[i]),
    ensures
        items.filter(pred) == Seq::<A>::empty(),
    decreases items.len(),
{
    reveal(Seq::filter);
    if items.len() > 0 {
        none_pass(items.drop_last(), pred);
    }
}

/// Two filters leave what passes both.
proof fn two_filters<A>(
    items: Seq<A>,
    first: spec_fn(A) -> bool,
    second: spec_fn(A) -> bool,
    both_of_them: spec_fn(A) -> bool,
)
    requires
        forall|i: int|
            0 <= i < items.len() ==> (both_of_them(#[trigger] items[i]) <==> first(items[i])
                && second(items[i])),
    ensures
        items.filter(first).filter(second) == items.filter(both_of_them),
    decreases items.len(),
{
    reveal(Seq::filter);
    if items.len() > 0 {
        let init = items.drop_last();
        assert forall|i: int| 0 <= i < init.len() implies (both_of_them(#[trigger] init[i])
            <==> first(init[i]) && second(init[i])) by {
            assert(init[i] == items[i]);
        }
        two_filters(init, first, second, both_of_them);
        let last = items.last();
        assert(items[items.len() - 1] == last);
        if first(last) {
            let kept = init.filter(first).push(last);
            assert(kept.drop_last() =~= init.filter(first));
            assert(kept.last() == last);
        }
    }
}

/// Nothing changes for the words of the list.
proof fn no_change_keeps_order(
    words: Seq<Arc<str>>,
    groups: GroupsView,
    agree: spec_fn(Arc<str>) -> bool,
    untried: spec_fn(Arc<str>) -> bool,
    now_agree: spec_fn(Arc<str>) -> bool,
    still_untried: spec_fn(Arc<str>) -> bool,
)
    requires
        ordered_by(words, groups, agree, untried),
        forall|word: Arc<str>| #[trigger]
            words.contains(word) ==> now_agree(word) == agree(word),
        forall|word: Arc<str>| #[trigger] still_untried(word) == untried(word),
    ensures
        ordered_by(words, groups, now_agree, still_untried),
{
    let kept = words.filter(both(agree, untried));
    assert forall|i: int| 0 <= i < kept.len() implies both(now_agree, still_untried)(
        #[trigger] kept[i],
    ) by {
        filtered_words_are_listed(words, both(agree, untried));
    }
    assert forall|i: int| 0 <= i < words.len() implies (both(now_agree, still_untried)(
        #[trigger] words[i],
    ) <==> both(agree, untried)(words[i]) && both(now_agree, still_untried)(words[i])) by {
        assert(words.contains(words[i]));
    }
    two_filters(words, both(agree, untried), both(now_agree, still_untried), both(
        now_agree,
        still_untried,
    ));
    all_pass(kept, both(now_agree, still_untried));
}

/// Guessing a word keeps the order of the others.
proof fn guessing_keeps_order(
    words: Seq<Arc<str>>,
    groups: GroupsView,
    agree: spec_fn(Arc<str>) -> bool,
    untried: spec_fn(Arc<str>) -> bool,
    guess: Seq<char>,
    now_agree: spec_fn(Arc<str>) -> bool,
    still_untried: spec_fn(Arc<str>) -> bool,
)
    requires
        ordered_by(words, groups, agree, untried),
        forall|word: Arc<str>| #[trigger]
            words.contains(word) ==> now_agree(word) == agree(word),
        forall|word: Arc<str>| #[trigger]
            still_untried(word) <==> untried(word) && word@ != guess,
    ensures
        ordered_by(words, groups.without_guess(guess), now_agree, still_untried),
{
    let after = groups.without_guess(guess);
    assert forall|i: int| 0 <= i < words.len() implies (both(now_agree, still_untried)(
        #[trigger] words[i],
    ) <==> both(agree, untried)(words[i]) && not_reading(guess)(words[i])) by {
        assert(words.contains(words[i]));
    }
    two_filters(
        words,
        both(agree, untried),
        not_reading(guess),
        both(now_agree, still_untried),
    );
    let alike = groups.open.filter(reading(guess));
    filtered_words_are_listed(groups.open, reading(guess));
    assert forall|i: int| 0 <= i < after.spent.len() implies !still_untried(
        #[trigger] after.spent[i],
    ) by {
        if i < groups.spent.len() {
            assert(after.spent[i] == groups.spent[i]);
        } else {
            assert(after.spent[i] == alike[i - groups.spent.len()]);
        }
    }
}

/// Guessing a word and taking up its result keeps the order of the words that are left.
proof fn learning_keeps_order(
    words: Seq<Arc<str>>,
    groups: GroupsView,
    agree: spec_fn(Arc<str>) -> bool,
    untried: spec_fn(Arc<str>) -> bool,
    guess: Seq<char>,
    learnt: RestrictionsView,
    now_agree: spec_fn(Arc<str>) -> bool,
    still_untried: spec_fn(Arc<str>) -> bool,
)
    requires
        ordered_by(words, groups, agree, untried),
        forall|word: Arc<str>| #[trigger]
            words.contains(word) ==> (now_agree(word) ==> agree(word)) && (now_agree(word)
                <==> learnt.satisfied_by(word@)),
        forall|word: Arc<str>| #[trigger]
            still_untried(word) <==> untried(word) && word@ != guess,
    ensures
        ordered_by(
            words,
            groups.without_guess(guess).narrowed(learnt),
            now_agree,
            still_untried,
        ),
{
    let guessed = groups.without_guess(guess);
    let after = guessed.narrowed(learnt);
    guessing_keeps_order(words, groups, agree, untried, guess, agree, still_untried);
    assert forall|i: int| 0 <= i < words.len() implies (both(now_agree, still_untried)(
        #[trigger] words[i],
    ) <==> both(agree, still_untried)(words[i]) && satisfies(learnt)(words[i])) by {
        assert(words.contains(words[i]));
    }
    two_filters(
        words,
        both(agree, still_untried),
        satisfies(learnt),
        both(now_agree, still_untried),
    );
    filtered_words_are_listed(guessed.spent, satisfies(learnt));
    assert forall|i: int| 0 <= i < after.spent.len() implies !still_untried(
        #[trigger] after.spent[i],
    ) by {
        let k = guessed.spent.index_of(after.spent[i]);
        assert(guessed.spent[k] == after.spent[i]);
    }
}

/// What steps leave of the order of the words of a random guesser.
proof fn random_guessers_are_ordered(
    words: Seq<Arc<str>>,
    word_length: usize,
    start: RandomGuesser,
    steps: Seq<Step>,
    end: RandomGuesser,
)
    requires
        all_of_length(words, word_length as nat),
        word_length <= u8::MAX,
        start@.groups == GroupsView::unguessed_and_possible(words),
        start@.restrictions == RestrictionsView::unrestricted(word_length as u8),
        may_go(start, steps, end),
    ensures
        ordered_by(
            words,
            end@.groups,
            agreeing(steps, word_length as nat),
            untaught(steps),
        ),
    decreases steps.len(),
{
    let length = word_length as nat;
    if steps.len() == 0 {
        all_pass(words, both(agreeing(steps, length), untaught(steps)));
    } else {
        let earlier = steps.drop_last();
        let step = steps.last();
        let before = choose|before: RandomGuesser|
            may_go(start, earlier, before) && #[trigger] may_step(before, step, end);
        random_guessers_are_ordered(words, word_length, start, earlier, before);
        random_guessers_are_grouped(words, word_length, start, earlier, before);
        random_guessers_are_grouped(words, word_length, start, steps, end);
        assert(steps =~= earlier.push(step));
        assert forall|word: Arc<str>| #[trigger]
            untaught(steps)(word) <==> untaught(earlier)(word) && !step.teaches(word@) by {
            if untaught(steps)(word) {
                assert(!steps[steps.len() - 1].teaches(word@));
                assert forall|k: int| 0 <= k < earlier.len() implies !(
                #[trigger] earlier[k]).teaches(word@) by {
                    assert(steps[k] == earlier[k]);
                }
            }
        }
        assert forall|word: Arc<str>| #[trigger] words.contains(word) implies word@.len()
            == length && (agreeing(steps, length)(word) <==> agreeing(earlier, length)(word)
            && agrees(step, length, word@)) by {
            assert(words[words.index_of(word)]@.len() == length);
            one_more_step(earlier, step, length, word@);
        }
        let good = match step {
            Step::Update(guess, results, _) => guess.len() == word_length && results.len()
                == word_length,
            Step::Selection(_, _) => false,
        };
        if good {
            if let Step::Update(guess, results, _) = step {
                assert(before@.restrictions.update_outcome(guess, results) is Ok);
                learning_keeps_order(
                    words,
                    before@.groups,
                    agreeing(earlier, length),
                    untaught(earlier),
                    guess,
                    end@.restrictions,
                    agreeing(steps, length),
                    untaught(steps),
                );
            }
        } else {
            assert(end@ == before@);
            no_change_keeps_order(
                words,
                before@.groups,
                agreeing(earlier, length),
                untaught(earlier),
                agreeing(steps, length),
                untaught(steps),
            );
        }
    }
}

/// What steps leave of the order of the words of a guesser that scores words.
proof fn max_score_guessers_are_ordered<T: WordScorer + Clone + Sync>(
    words: Seq<Arc<str>>,
    word_length: usize,
    start: MaxScoreGuesser<T>,
    steps: Seq<Step>,
    end: MaxScoreGuesser<T>,
)
    requires
        all_of_length(words, word_length as nat),
        word_length <= u8::MAX,
        start@.groups == GroupsView::unguessed_and_possible(words),
        start@.restrictions == RestrictionsView::unrestricted(word_length as u8),
        may_go(start, steps, end),
    ensures
        ordered_by(
            words,
            end@.groups,
            agreeing(steps, word_length as nat),
            unreported(steps),
        ),
    decreases steps.len(),
{
    let length = word_length as nat;
    if steps.len() == 0 {
        all_pass(words, both(agreeing(steps, length), unreported(steps)));
    } else {
        let earlier = steps.drop_last();
        let step = steps.last();
        let before = choose|before: MaxScoreGuesser<T>|
            may_go(start, earlier, before) && #[trigger] may_step(before, step, end);
        max_score_guessers_are_ordered(words, word_length, start, earlier, before);
        max_score_guessers_are_grouped(words, word_length, start, earlier, before);
        max_score_guessers_are_grouped(words, word_length, start, steps, end);
        assert(steps =~= earlier.push(step));
        assert forall|word: Arc<str>| #[trigger]
            unreported(steps)(word) <==> unreported(earlier)(word) && !step.reports(word@) by {
            if unreported(steps)(word) {
                assert(!steps[steps.len() - 1].reports(word@));
                assert forall|k: int| 0 <= k < earlier.len() implies !(
                #[trigger] earlier[k]).reports(word@) by {
                    assert(steps[k] == earlier[k]);
                }
            }
        }
        assert forall|word: Arc<str>| #[trigger] words.contains(word) implies word@.len()
            == length && (agreeing(steps, length)(word) <==> agreeing(earlier, length)(word)
            && agrees(step, length, word@)) by {
            assert(words[words.index_of(word)]@.len() == length);
            one_more_step(earlier, step, length, word@);
        }
        match step {
            Step::Update(guess, results, _) => {
                if guess.len() == word_length && results.len() == word_length {
                    assert(before@.restrictions.update_outcome(guess, results) is Ok);
                    learning_keeps_order(
                        words,
                        before@.groups,
                        agreeing(earlier, length),
                        unreported(earlier),
                        guess,
                        end@.restrictions,
                        agreeing(steps, length),
                        unreported(steps),
                    );
                } else {
                    guessing_keeps_order(
                        words,
                        before@.groups,
                        agreeing(earlier, length),
                        unreported(earlier),
                        guess,
                        agreeing(steps, length),
                        unreported(steps),
                    );
                }
            },
            Step::Selection(_, _) => {
                no_change_keeps_order(
                    words,
                    before@.groups,
                    agreeing(earlier, length),
                    unreported(earlier),
                    agreeing(steps, length),
                    unreported(steps),
                );
            },
        }
    }
}

/// Where the words are grouped and ordered by the steps, those that agree and are untried have the
/// order of the bank, both among the unguessed and among the possible words.
proof fn agreeing_words_keep_their_order(
    words: Seq<Arc<str>>,
    word_length: nat,
    groups: GroupsView,
    restrictions: RestrictionsView,
    steps: Seq<Step>,
    untried: spec_fn(Arc<str>) -> bool,
)
    requires
        all_of_length(words, word_length),
        grouped_by(words, word_length, groups, restrictions, steps, untried),
        ordered_by(words, groups, agreeing(steps, word_length), untried),
    ensures
        groups.unguessed().filter(agreeing(steps, word_length)) == words.filter(
            both(agreeing(steps, word_length), untried),
        ),
        groups.possible().filter(untried) == words.filter(
            both(agreeing(steps, word_length), untried),
        ),
{
    broadcast use vstd::seq_lib::group_to_multiset_ensures;

    let agree = agreeing(steps, word_length);
    filtered_words_are_listed(words, both(agree, untried));
    all_pass(groups.open, agree);
    all_pass(groups.open, untried);
    assert forall|i: int| 0 <= i < groups.ruled_out.len() implies !agree(
        #[trigger] groups.ruled_out[i],
    ) by {
        let word = groups.ruled_out[i];
        assert(groups.unguessed()[groups.open.len() + i] == word);
        assert(groups.unguessed().contains(word));
        assert(groups.unguessed().to_multiset().count(word) > 0);
        filter_counts(words, untried, word);
        assert(words.contains(word));
        assert(words[words.index_of(word)]@.len() == word_length);
        assert(!restrictions.satisfied_by(word@));
        assert(!agrees_with_all(steps, word_length, word@));
    }
    none_pass(groups.ruled_out, agree);
    none_pass(groups.spent, untried);
    Seq::filter_distributes_over_add(groups.open, groups.ruled_out, agree);
    Seq::filter_distributes_over_add(groups.spent, groups.open, untried);
    assert(groups.unguessed().filter(agree) =~= groups.open);
    assert(groups.possible().filter(untried) =~= groups.open);
}

/// After any selections and updates, the words of a random guesser that are possible and that no
/// good update has reported have the order of the bank, both among the unguessed and among the
/// possible words.
pub proof fn random_guessers_keep_the_order_of_the_bank(
    bank: WordBank,
    start: RandomGuesser,
    steps: Seq<Step>,
    end: RandomGuesser,
)
    requires
        call_ensures(RandomGuesser::new, (bank,), start),
        all_of_length(bank@, bank.letters_per_word() as nat),
        bank.letters_per_word() <= u8::MAX,
        may_go(start, steps, end),
    ensures
        end@.groups.unguessed().filter(agreeing(steps, bank.letters_per_word() as nat))
            == bank@.filter(
            both(agreeing(steps, bank.letters_per_word() as nat), untaught(steps)),
        ),
        end.possible().filter(untaught(steps)) == bank@.filter(
            both(agreeing(steps, bank.letters_per_word() as nat), untaught(steps)),
        ),
{
    let word_length = bank.letters_per_word();
    let length = word_length as nat;
    let words = bank@;
    let groups = end@.groups;
    let restrictions = end@.restrictions;
    assert(grouped_by(words, length, groups, restrictions, steps, untaught(steps))) by {
        random_guessers_are_grouped(words, word_length, start, steps, end);
    }
    assert(ordered_by(words, groups, agreeing(steps, length), untaught(steps))) by {
        random_guessers_are_ordered(words, word_length, start, steps, end);
    }
    agreeing_words_keep_their_order(words, length, groups, restrictions, steps, untaught(steps));
}

/// After any selections and updates, the words of a guesser that scores words that are possible and
/// that no update has reported have the order of the bank, both among the unguessed and among the
/// possible words.
pub proof fn max_score_guessers_keep_the_order_of_the_bank<T: WordScorer + Clone + Sync>(
    guess_mode: GuessFrom,
    bank: WordBank,
    scorer: T,
    available_parallelism: Option<usize>,
    start: MaxScoreGuesser<T>,
    steps: Seq<Step>,
    end: MaxScoreGuesser<T>,
)
    requires
        call_ensures(
            MaxScoreGuesser::<T>::new,
            (guess_mode, bank, scorer, available_parallelism),
            start,
        ),
        all_of_length(bank@, bank.letters_per_word() as nat),
        bank.letters_per_word() <= u8::MAX,
        may_go(start, steps, end),
    ensures
        end@.groups.unguessed().filter(agreeing(steps, bank.letters_per_word() as nat))
            == bank@.filter(
            both(agreeing(steps, bank.letters_per_word() as nat), unreported(steps)),
        ),
        end.possible().filter(unreported(steps)) == bank@.filter(
            both(agreeing(steps, bank.letters_per_word() as nat), unreported(steps)),
        ),
{
    let word_length = bank.letters_per_word();
    let length = word_length as nat;
    let words = bank@;
    let groups = end@.groups;
    let restrictions = end@.restrictions;
    assert(grouped_by(words, length, groups, restrictions, steps, unreported(steps))) by {
        max_score_guessers_are_grouped(words, word_length, start, steps, end);
    }
    assert(ordered_by(words, groups, agreeing(steps, length), unreported(steps))) by {
        max_score_guessers_are_ordered(words, word_length, start, steps, end);
    }
    agreeing_words_keep_their_order(words, length, groups, restrictions, steps, unreported(steps));
}

} // verus!
