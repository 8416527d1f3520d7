//! The calls into the standard library and into other crates that the rest of this crate relies on
//! without a proof.
use rayon::iter::{IndexedParallelIterator, IntoParallelRefIterator, ParallelIterator};
use rayon::slice::ParallelSliceMut;
use std::collections::HashMap;
use std::sync::Arc;
use vstd::prelude::*;

use crate::max_score::score_in;
use crate::ranking::{best_candidate, better_of, descending_key, is_ranking, start_of_search};
use crate::scorers::WordScorer;

verus! {

/// Calls `Arc::<str>::from`, which makes a shared copy of a text.
#[verifier::external_body]
pub(crate) fn shared_text(text: &str) -> (shared: Arc<str>)
    ensures
        shared@ == text@,
{
    Arc::from(text)
}

/// Calls `Box::<str>::from`, which makes an owned copy of a text.
#[verifier::external_body]
pub(crate) fn boxed_text(text: &str) -> (boxed: Box<str>)
    ensures
        boxed@ == text@,
{
    Box::from(text)
}

/// Calls `rand::random`, which draws a number at random. Nothing is said of the number.
#[verifier::external_body]
pub(crate) fn random_number() -> usize {
    rand::random()
}

/// Calls `rayon::iter::ParallelIterator::map` on the words, and collects what it yields: the score
/// of each word, in the order of the words.
#[verifier::external_body]
pub(crate) fn par_scores<T: WordScorer + Sync>(
    words: &[Arc<str>],
    scorer: &T,
) -> (scores: Vec<i64>)
    ensures
        scores@ == Seq::new(words@.len(), |i: int| scorer.score(words@[i]@)),
{
    words.par_iter().map(|word| scorer.score_word(word)).collect()
}

/// Calls `rayon::iter::ParallelIterator::reduce` on the scores with their indices.
///
/// It combines neighbouring items in an order that is left open, and may combine any of them with
/// the start. Since [`better`](crate::ranking::better) is associative and the start neutral for it,
/// the outcome is that of taking up one item after the other.
#[verifier::external_body]
pub(crate) fn par_best_candidate(scores: &[i64]) -> (best: (usize, i64))
    ensures
        best == best_candidate(scores@),
{
    scores.par_iter().copied().enumerate().reduce(start_of_search, better_of)
}

/// Calls `rayon::slice::ParallelSliceMut::par_sort_by_key`, a stable sort. The entries come out
/// from the highest score to the lowest, and those with the same score in the order in which they
/// were.
#[verifier::external_body]
pub(crate) fn par_rank(entries: &mut Vec<(Arc<str>, i64)>)
    ensures
        is_ranking(old(entries)@, final(entries)@),
{
    entries.par_sort_by_key(descending_key);
}

/// Calls `sort_by_key` of slices, a stable sort. The entries come out from the highest score to the
/// lowest, and those with the same score in the order in which they were.
#[verifier::external_body]
pub(crate) fn rank(entries: &mut Vec<(Arc<str>, i64)>)
    ensures
        is_ranking(old(entries)@, final(entries)@),
{
    entries.sort_by_key(descending_key);
}

/// Calls `HashMap::get`, which finds the value of the key that is equal to the given word. Shared
/// texts are equal if they read the same, so at most one key is.
#[verifier::external_body]
pub(crate) fn score_in_table(table: &HashMap<Arc<str>, i64>, word: &Arc<str>) -> (score: Option<
    i64,
>)
    ensures
        score == score_in(table@, word@),
{
    table.get(word).copied()
}

/// Calls `HashMap::insert`, which sets the value of a key, in place of the value that the key may
/// have had.
#[verifier::external_body]
pub(crate) fn enter_score(table: &mut HashMap<Arc<str>, i64>, word: Arc<str>, score: i64)
    ensures
        final(table)@ == old(table)@.insert(word, score),
{
    table.insert(word, score);
}

} // verus!
