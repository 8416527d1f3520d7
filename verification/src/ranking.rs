//! Comparing scores: the best of a list, and lists ordered from the best to the worst.
use std::sync::Arc;
use vstd::prelude::*;

use crate::outside::par_best_candidate;

verus! {

/// Whether the score at `i` is the highest, and the first of those that are as high.
pub open spec fn is_first_best(scores: Seq<i64>, i: int) -> bool {
    &&& 0 <= i < scores.len()
    &&& forall|j: int| 0 <= j < scores.len() ==> scores[j] <= scores[i]
    &&& forall|j: int| 0 <= j < i ==> scores[j] < scores[i]
}

/// There is at most one first best score.
pub proof fn first_best_is_unique(scores: Seq<i64>, i: int, j: int)
    requires
        is_first_best(scores, i),
        is_first_best(scores, j),
    ensures
        i == j,
{
    assert(scores[i] <= scores[j]);
    assert(scores[j] <= scores[i]);
}

/// The candidate that no other is compared with yet: worse than every score at an index.
pub open spec fn no_candidate() -> (usize, i64) {
    (usize::MAX, i64::MIN)
}

/// The better of two candidates, each an index with its score: the one with the higher score, and
/// of two with the same score the one with the lower index.
pub open spec fn better(best: (usize, i64), next: (usize, i64)) -> (usize, i64) {
    if next.1 > best.1 || (next.1 == best.1 && next.0 < best.0) {
        next
    } else {
        best
    }
}

/// Each score with its index.
pub open spec fn candidates(scores: Seq<i64>) -> Seq<(usize, i64)> {
    Seq::new(scores.len(), |i: int| (i as usize, scores[i]))
}

/// The best of all candidates, taking up one after the other.
pub open spec fn best_candidate(scores: Seq<i64>) -> (usize, i64) {
    candidates(scores).fold_left(
        no_candidate(),
        |best: (usize, i64), next: (usize, i64)| better(best, next),
    )
}

/// It does not matter in which order neighbouring candidates are compared.
pub proof fn better_is_associative(a: (usize, i64), b: (usize, i64), c: (usize, i64))
    ensures
        better(better(a, b), c) == better(a, better(b, c)),
{
}

/// Comparing with [`no_candidate`] changes nothing.
pub proof fn no_candidate_is_neutral(a: (usize, i64))
    ensures
        better(no_candidate(), a) == a,
        better(a, no_candidate()) == a,
{
}

/// The best candidate is the first best score.
pub proof fn best_candidate_is_first_best(scores: Seq<i64>)
    requires
        scores.len() <= usize::MAX,
    ensures
        scores.len() == 0 ==> best_candidate(scores) == no_candidate(),
        scores.len() > 0 ==> {
            &&& is_first_best(scores, best_candidate(scores).0 as int)
            &&& best_candidate(scores).1 == scores[best_candidate(scores).0 as int]
        },
    decreases scores.len(),
{
    reveal_with_fuel(Seq::fold_left, 2);
    if scores.len() > 0 {
        let init = scores.drop_last();
        best_candidate_is_first_best(init);
        assert(candidates(scores).drop_last() =~= candidates(init));
        let best = best_candidate(init);
        let last = (scores.len() - 1) as usize;
        assert(best_candidate(scores) == better(best, (last, scores.last())));
        assert forall|j: int| 0 <= j < init.len() implies init[j] == scores[j] by {}
    }
}

/// The start of a search for the best candidate.
pub(crate) fn start_of_search() -> (start: (usize, i64))
    ensures
        start == no_candidate(),
{
    (usize::MAX, i64::MIN)
}

/// Selects the better of two candidates.
pub(crate) fn better_of(best: (usize, i64), next: (usize, i64)) -> (chosen: (usize, i64))
    ensures
        chosen == better(best, next),
{
    if next.1 > best.1 {
        return next;
    }
    // Use the lower index, because it is more likely to be a possible word.
    if next.1 == best.1 && next.0 < best.0 {
        return next;
    }
    best
}

/// Finds the first best score, looking at all scores in parallel.
pub fn best_index_in_parallel(scores: &[i64]) -> (best: Option<usize>)
    ensures
        match best {
            Some(i) => is_first_best(scores@, i as int),
            None => scores@.len() == 0,
        },
{
    let (best_index, _) = par_best_candidate(scores);
    let len = scores.len();
    proof {
        best_candidate_is_first_best(scores@);
    }
    if best_index < len {
        Some(best_index)
    } else {
        None
    }
}

/// Finds the first best score, looking at one score after the other.
pub fn best_index_in_sequence(scores: &[i64]) -> (best: Option<usize>)
    ensures
        match best {
            Some(i) => is_first_best(scores@, i as int),
            None => scores@.len() == 0,
        },
{
    let mut best_score = i64::MIN;
    let mut best_index: Option<usize> = None;
    for i in 0..scores.len()
        invariant
            match best_index {
                Some(best) => {
                    &&& is_first_best(scores@.take(i as int), best as int)
                    &&& best_score == scores@[best as int]
                },
                None => i == 0,
            },
    {
        let score = scores[i];
        let ghost before = scores@.take(i as int);
        let ghost after = scores@.take(i + 1);
        assert(forall|j: int| 0 <= j < i ==> before[j] == after[j]);
        if best_index.is_none() || score > best_score {
            best_score = score;
            best_index = Some(i);
        }
    }
    assert(scores@.take(scores@.len() as int) =~= scores@);
    best_index
}

/// Tells whether an entry has the given score.
pub open spec fn has_score(score: i64) -> spec_fn((Arc<str>, i64)) -> bool {
    |entry: (Arc<str>, i64)| entry.1 == score
}

/// The entries that have the given score, in their order.
pub open spec fn scoring(entries: Seq<(Arc<str>, i64)>, score: i64) -> Seq<(Arc<str>, i64)> {
    entries.filter(has_score(score))
}

/// Whether `ranking` holds the entries from the highest score to the lowest, and those with the
/// same score in the order in which they were.
pub open spec fn is_ranking(
    entries: Seq<(Arc<str>, i64)>,
    ranking: Seq<(Arc<str>, i64)>,
) -> bool {
    &&& ranking.to_multiset() == entries.to_multiset()
    &&& forall|i: int, j: int| 0 <= i < j < ranking.len() ==> ranking[i].1 >= ranking[j].1
    &&& forall|score: i64| #[trigger] scoring(ranking, score) == scoring(entries, score)
}

/// The key by which entries are ordered from the highest score to the lowest. Unlike the negated
/// score, it fits for every score.
pub(crate) fn descending_key(entry: &(Arc<str>, i64)) -> (key: i64)
    ensures
        key == -1 - entry.1,
{
    -1 - entry.1
}

/// What passes the filter first is the first that passes it.
pub proof fn first_of_filter<A>(items: Seq<A>, pred: spec_fn(A) -> bool, i: int)
    requires
        0 <= i < items.len(),
        pred(items[i]),
        forall|j: int| 0 <= j < i ==> !pred(items[j]),
    ensures
        items.filter(pred).len() > 0,
        items.filter(pred)[0] == items[i],
{
    let head = items.take(i);
    let tail = items.skip(i + 1);
    assert(items =~= head + (seq![items[i]] + tail));
    Seq::filter_distributes_over_add(head, seq![items[i]] + tail, pred);
    Seq::filter_distributes_over_add(seq![items[i]], tail, pred);
    nothing_passes(head, pred);
    reveal_with_fuel(Seq::filter, 2);
    assert(seq![items[i]].drop_last() =~= Seq::empty());
    assert(seq![items[i]].filter(pred) =~= seq![items[i]]);
}

/// A filter that no item passes leaves nothing.
proof fn nothing_passes<A>(items: Seq<A>, pred: spec_fn(A) -> bool)
    requires
        forall|j: int| 0 <= j < items.len() ==> !pred(items[j]),
    ensures
        items.filter(pred) == Seq::<A>::empty(),
    decreases items.len(),
{
    reveal(Seq::filter);
    if items.len() > 0 {
        nothing_passes(items.drop_last(), pred);
    }
}

/// The entries of a ranking are those that it ranks.
pub proof fn ranking_holds_the_entries(
    entries: Seq<(Arc<str>, i64)>,
    ranking: Seq<(Arc<str>, i64)>,
)
    requires
        is_ranking(entries, ranking),
    ensures
        ranking.len() == entries.len(),
        forall|i: int| 0 <= i < ranking.len() ==> entries.contains(#[trigger] ranking[i]),
        forall|i: int| 0 <= i < entries.len() ==> ranking.contains(#[trigger] entries[i]),
{
    broadcast use vstd::seq_lib::group_to_multiset_ensures;
    assert(ranking.to_multiset().len() == ranking.len());
    assert(entries.to_multiset().len() == entries.len());
    assert forall|i: int| 0 <= i < ranking.len() implies entries.contains(
        #[trigger] ranking[i],
    ) by {
        assert(ranking.contains(ranking[i]));
        assert(ranking.to_multiset().count(ranking[i]) > 0);
    }
    assert forall|i: int| 0 <= i < entries.len() implies ranking.contains(
        #[trigger] entries[i],
    ) by {
        assert(entries.contains(entries[i]));
        assert(entries.to_multiset().count(entries[i]) > 0);
    }
}

/// The scores of entries.
pub open spec fn scores_of(entries: Seq<(Arc<str>, i64)>) -> Seq<i64> {
    entries.map_values(|entry: (Arc<str>, i64)| entry.1)
}

/// The first entry of a ranking is the first of those with the best score.
pub proof fn best_ranks_first(
    entries: Seq<(Arc<str>, i64)>,
    ranking: Seq<(Arc<str>, i64)>,
    i: int,
)
    requires
        is_ranking(entries, ranking),
        is_first_best(scores_of(entries), i),
    ensures
        ranking.len() > 0,
        ranking[0] == entries[i],
{
    ranking_holds_the_entries(entries, ranking);
    let scores = scores_of(entries);
    let best = scores[i];
    let pred = has_score(best);
    let k = choose|k: int| 0 <= k < ranking.len() && ranking[k] == entries[i];
    assert(ranking[0].1 >= ranking[k].1);
    let m = choose|m: int| 0 <= m < entries.len() && entries[m] == ranking[0];
    assert(scores[m] <= best);
    assert forall|j: int| 0 <= j < i implies !pred(entries[j]) by {
        assert(scores[j] < best);
    }
    first_of_filter(ranking, pred, 0);
    first_of_filter(entries, pred, i);
    assert(scoring(ranking, best) == scoring(entries, best));
}

/// Entries can be ranked in one way only.
pub proof fn ranking_is_unique(
    entries: Seq<(Arc<str>, i64)>,
    left: Seq<(Arc<str>, i64)>,
    right: Seq<(Arc<str>, i64)>,
)
    requires
        is_ranking(entries, left),
        is_ranking(entries, right),
    ensures
        left == right,
{
    ranking_holds_the_entries(entries, left);
    ranking_holds_the_entries(entries, right);
    assert forall|score: i64| scoring(left, score) == scoring(right, score) by {
        assert(scoring(left, score) == scoring(entries, score));
        assert(scoring(right, score) == scoring(entries, score));
    }
    same_descents(left, right);
}

/// Two descending lists in which each score has the same entries are the same.
proof fn same_descents(left: Seq<(Arc<str>, i64)>, right: Seq<(Arc<str>, i64)>)
    requires
        left.len() == right.len(),
        forall|i: int, j: int| 0 <= i < j < left.len() ==> left[i].1 >= left[j].1,
        forall|i: int, j: int| 0 <= i < j < right.len() ==> right[i].1 >= right[j].1,
        forall|score: i64| #[trigger] scoring(left, score) == scoring(right, score),
    ensures
        left == right,
    decreases left.len(),
{
    if left.len() > 0 {
        let s = left[0].1;
        let t = right[0].1;
        let has_s = has_score(s);
        let has_t = has_score(t);
        first_of_filter(left, has_s, 0);
        first_of_filter(right, has_t, 0);
        assert(scoring(left, s) == scoring(right, s));
        assert(scoring(left, t) == scoring(right, t));
        if s > t {
            nothing_passes(right, has_s);
        } else if t > s {
            nothing_passes(left, has_t);
        }
        assert(left[0] == right[0]);
        let rest_left = left.drop_first();
        let rest_right = right.drop_first();
        assert(left =~= seq![left[0]] + rest_left);
        assert(right =~= seq![right[0]] + rest_right);
        assert forall|score: i64| #[trigger]
            scoring(rest_left, score) == scoring(rest_right, score) by {
            let pred = has_score(score);
            Seq::filter_distributes_over_add(seq![left[0]], rest_left, pred);
            Seq::filter_distributes_over_add(seq![right[0]], rest_right, pred);
            let head = seq![left[0]].filter(pred);
            assert(scoring(left, score) == scoring(right, score));
            assert(scoring(rest_left, score) =~= scoring(left, score).skip(head.len() as int));
            assert(scoring(rest_right, score) =~= scoring(right, score).skip(head.len() as int));
        }
        same_descents(rest_left, rest_right);
    } else {
        assert(left =~= right);
    }
}

} // verus!
