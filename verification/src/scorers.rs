//! Estimating how useful a guess is.
use std::sync::Arc;
use vstd::prelude::*;

use crate::restrictions::{RestrictionsView, WordRestrictions};
use crate::results::WordleError;

verus! {

/// Gives words a score that estimates how useful they are as the next guess. Higher scores are
/// better.
///
/// A verified scorer gives all of the specification functions. Their default bodies only let a
/// scorer which is not verified leave them out; the contracts do not speak of such a scorer. Any
/// scorer has to score a word in the same way until it is updated.
pub trait WordScorer: Sized {
    /// The score of a word in the present state of the scorer.
    open spec fn score(&self, word: Seq<char>) -> i64 {
        arbitrary()
    }

    /// Whether the scorer fails on no update that `word` satisfies.
    open spec fn follows(&self, word: Seq<char>) -> bool {
        false
    }

    /// Whether the scorer fails on no update at all.
    open spec fn never_fails(&self) -> bool {
        false
    }

    /// Whether an update with the given arguments may have the given outcome, and leave the scorer
    /// as `after`.
    open spec fn may_update(
        &self,
        latest_guess: Seq<char>,
        restrictions: RestrictionsView,
        possible_words: Seq<Arc<str>>,
        outcome: Result<(), WordleError>,
        after: &Self,
    ) -> bool {
        true
    }

    /// Updates the scorer with the latest guess, the updated restrictions, and the words that are
    /// still possible.
    fn update(
        &mut self,
        latest_guess: &str,
        restrictions: &WordRestrictions,
        possible_words: &[Arc<str>],
    ) -> (outcome: Result<(), WordleError>)
        ensures
            old(self).may_update(
                latest_guess@,
                restrictions@,
                possible_words@,
                outcome,
                final(self),
            ),
            old(self).never_fails() ==> outcome is Ok && final(self).never_fails(),
            forall|word: Seq<char>| #[trigger]
                old(self).follows(word) && restrictions@.satisfied_by(word) ==> outcome is Ok
                    && final(self).follows(word),
    ;

    /// Determines the score of a word.
    fn score_word(&self, word: &Arc<str>) -> (score: i64)
        ensures
            score == self.score(word@),
    ;
}

} // verus!
