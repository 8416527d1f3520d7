//! Guessing the word with the best score.
use std::collections::HashMap;
use std::sync::Arc;
use vstd::prelude::*;

use crate::data::{
    guessing_adds_no_word, listed_words_are_held, narrowing_adds_no_word, GroupedWords, GroupsView,
    WordBank,
};
use crate::engine::{GuessFrom, Guesser};
use crate::outside::{enter_score, par_rank, par_scores, rank, score_in_table};
use crate::ranking::{
    best_index_in_parallel, best_index_in_sequence, is_first_best, is_ranking,
    ranking_holds_the_entries,
};
use crate::restrictions::{RestrictionsView, WordRestrictions};
use crate::results::{GuessResult, LetterResult, WordleError};
use crate::scorers::WordScorer;

verus! {

/// Represents a guess with a 'score' estimating how useful the guess is. Higher scores are better.
#[derive(Clone, Debug, PartialEq, Eq, PartialOrd, Ord, Hash)]
pub struct ScoredGuess {
    pub score: i64,
    pub guess: Arc<str>,
}

/// Selects the next guess that maximizes the score according to the owned scorer.
///
/// See [`WordScorer`] for more information about possible scoring algorithms.
#[derive(Debug)]
pub struct MaxScoreGuesser<T> where T: WordScorer + Clone + Sync {
    default_guess_mode: GuessFrom,
    grouped_words: GroupedWords,
    restrictions: WordRestrictions,
    scorer: T,
    parallelisation_limit: usize,
    all_unguessed_word_scores: Option<Vec<i64>>,
    possible_word_scores: Option<Vec<i64>>,
}

/// The parts of a [`MaxScoreGuesser`], for example to store it.
#[derive(Debug)]
pub struct MaxScoreParts<T> {
    /// The set of words to select from by default.
    pub default_guess_mode: GuessFrom,
    /// The words that the guesser knows.
    pub grouped_words: GroupedWords,
    /// What is known of the word.
    pub restrictions: WordRestrictions,
    /// What gives the words their scores.
    pub scorer: T,
    /// How many words are worth looking at in parallel.
    pub parallelisation_limit: usize,
    /// The scores for a selection from the unguessed words, if they are known.
    pub all_unguessed_word_scores: Option<Vec<i64>>,
    /// The scores for a selection from the possible words, if they are known.
    pub possible_word_scores: Option<Vec<i64>>,
}

impl<T> View for MaxScoreParts<T> {
    type V = MaxScoreView<T>;

    open spec fn view(&self) -> MaxScoreView<T> {
        MaxScoreView {
            default_guess_mode: self.default_guess_mode,
            groups: self.grouped_words@,
            restrictions: self.restrictions@,
            scorer: self.scorer,
            parallelisation_limit: self.parallelisation_limit,
            unguessed_scores: content(self.all_unguessed_word_scores),
            possible_scores: content(self.possible_word_scores),
        }
    }
}

/// The mathematical content of a [`MaxScoreGuesser`].
pub struct MaxScoreView<T> {
    /// The set of words to select from by default.
    pub default_guess_mode: GuessFrom,
    /// The words that the guesser knows.
    pub groups: GroupsView,
    /// What is known of the word.
    pub restrictions: RestrictionsView,
    /// What gives the words their scores.
    pub scorer: T,
    /// How many words are worth looking at in parallel.
    pub parallelisation_limit: usize,
    /// The scores for a selection from the unguessed words, if they are known.
    pub unguessed_scores: Option<Seq<i64>>,
    /// The scores for a selection from the possible words, if they are known.
    pub possible_scores: Option<Seq<i64>>,
}

/// The words and their scores, side by side.
pub open spec fn side_by_side(words: Seq<Arc<str>>, scores: Seq<i64>) -> Seq<(Arc<str>, i64)> {
    Seq::new(words.len(), |i: int| (words[i], scores[i]))
}

/// The scores keyed by word. Where a word occurs more than once, its last score counts.
pub open spec fn table_of(entries: Seq<(Arc<str>, i64)>) -> Map<Arc<str>, i64>
    decreases entries.len(),
{
    if entries.len() == 0 {
        Map::empty()
    } else {
        table_of(entries.drop_last()).insert(entries.last().0, entries.last().1)
    }
}

/// The score that a table has for the text of a word, if it has one.
pub open spec fn score_in(table: Map<Arc<str>, i64>, text: Seq<char>) -> Option<i64> {
    if exists|key: Arc<str>| #[trigger] table.contains_key(key) && key@ == text {
        Some(table[choose|key: Arc<str>| #[trigger] table.contains_key(key) && key@ == text])
    } else {
        None
    }
}

/// The content of scores that may be known.
pub open spec fn content(scores: Option<Vec<i64>>) -> Option<Seq<i64>> {
    match scores {
        Some(scores) => Some(scores@),
        None => None,
    }
}

/// Whether `guess` is the selection: the first of the words with the best score, and none only if
/// there is no word.
pub open spec fn is_selection(
    words: Seq<Arc<str>>,
    scores: Seq<i64>,
    guess: Option<Arc<str>>,
) -> bool {
    match guess {
        Some(guess) => exists|i: int| #[trigger] is_first_best(scores, i) && guess == words[i],
        None => words.len() == 0,
    }
}

/// Whether `guesses` are up to the first `n` of the ranking.
pub open spec fn heads_ranking(
    ranking: Seq<(Arc<str>, i64)>,
    n: usize,
    guesses: Seq<ScoredGuess>,
) -> bool {
    &&& guesses.len() == if n < ranking.len() {
        n as nat
    } else {
        ranking.len()
    }
    &&& forall|i: int|
        0 <= i < guesses.len() ==> (#[trigger] guesses[i]).guess == ranking[i].0
            && guesses[i].score == ranking[i].1
}

/// Whether `guesses` are up to the first `n` of the entries from the best to the worst.
pub open spec fn are_top_guesses(
    entries: Seq<(Arc<str>, i64)>,
    n: usize,
    guesses: Seq<ScoredGuess>,
) -> bool {
    exists|ranking: Seq<(Arc<str>, i64)>| #[trigger]
        is_ranking(entries, ranking) && heads_ranking(ranking, n, guesses)
}

impl<T: WordScorer> MaxScoreView<T> {
    /// A guesser to which every word is possible. The restrictions count letters in a `u8`.
    pub open spec fn initial(
        guess_mode: GuessFrom,
        words: Seq<Arc<str>>,
        word_length: usize,
        scorer: T,
        parallelisation_limit: usize,
    ) -> Self {
        MaxScoreView {
            default_guess_mode: guess_mode,
            groups: GroupsView::unguessed_and_possible(words),
            restrictions: RestrictionsView::unrestricted(word_length as u8),
            scorer,
            parallelisation_limit,
            unguessed_scores: None,
            possible_scores: None,
        }
    }

    /// The words that a selection looks at. When at most two words are possible, or every word has
    /// been guessed, it looks at the possible words.
    pub open spec fn words_to_score(self, from: GuessFrom) -> Seq<Arc<str>> {
        if self.groups.possible().len() <= 2 || self.groups.unguessed().len() == 0 {
            self.groups.possible()
        } else {
            match from {
                GuessFrom::AllUnguessedWords => self.groups.unguessed(),
                GuessFrom::PossibleWords => self.groups.possible(),
            }
        }
    }

    /// Whether the scores for a selection from the unguessed words begin with those for a selection
    /// from the possible words.
    pub open spec fn possible_scores_lead(self) -> bool {
        &&& self.groups.possible().len() <= self.groups.unguessed().len()
        &&& self.groups.possible().len() <= 2 || self.groups.spent.len() == 0
    }

    /// The scores of the words that a selection looks at, if they are known.
    pub open spec fn word_scores(self, from: GuessFrom) -> Option<Seq<i64>> {
        match from {
            GuessFrom::AllUnguessedWords => self.unguessed_scores,
            GuessFrom::PossibleWords => if self.possible_scores is Some {
                self.possible_scores
            } else if self.unguessed_scores is Some && self.possible_scores_lead() {
                Some(self.unguessed_scores.unwrap().take(self.groups.possible().len() as int))
            } else {
                None
            },
        }
    }

    /// The scores that the scorer gives to the words that a selection looks at.
    pub open spec fn computed_scores(self, from: GuessFrom) -> Seq<i64> {
        let words = self.words_to_score(from);
        Seq::new(words.len(), |i: int| self.scorer.score(words[i]@))
    }

    /// The guesser with the given scores for a selection.
    pub open spec fn knowing(self, from: GuessFrom, scores: Seq<i64>) -> Self {
        match from {
            GuessFrom::AllUnguessedWords => MaxScoreView {
                unguessed_scores: Some(scores),
                ..self
            },
            GuessFrom::PossibleWords => MaxScoreView { possible_scores: Some(scores), ..self },
        }
    }

    /// The guesser with the scores for a selection, which are computed if they are not known.
    pub open spec fn scored(self, from: GuessFrom) -> Self {
        if self.word_scores(from) is Some {
            self
        } else {
            self.knowing(from, self.computed_scores(from))
        }
    }

    /// The scores for a selection: those that are known, or else those that the scorer gives.
    pub open spec fn scores(self, from: GuessFrom) -> Seq<i64> {
        self.scored(from).word_scores(from).unwrap()
    }

    /// The words that a selection looks at, with their scores.
    pub open spec fn entries(self, from: GuessFrom) -> Seq<(Arc<str>, i64)> {
        side_by_side(self.words_to_score(from), self.scores(from))
    }

    /// The scores that a table gives to the words of the default selection, and where it has none,
    /// the scorer.
    pub open spec fn scores_with_table(self, table: Map<Arc<str>, i64>) -> Seq<i64> {
        let words = self.words_to_score(self.default_guess_mode);
        Seq::new(
            words.len(),
            |i: int|
                match score_in(table, words[i]@) {
                    Some(score) => score,
                    None => self.scorer.score(words[i]@),
                },
        )
    }

    /// Whether there is one score for each word that a selection looks at, where they are known.
    pub open spec fn scores_fit(self) -> bool {
        &&& self.unguessed_scores matches Some(scores) ==> scores.len() == self.words_to_score(
            GuessFrom::AllUnguessedWords,
        ).len()
        &&& self.possible_scores matches Some(scores) ==> scores.len() == self.words_to_score(
            GuessFrom::PossibleWords,
        ).len()
    }

    /// The guesser after `guess` was guessed, before its result is known.
    pub open spec fn after_guess(self, guess: Seq<char>) -> Self {
        MaxScoreView {
            groups: self.groups.without_guess(guess),
            unguessed_scores: None,
            possible_scores: None,
            ..self
        }
    }

    /// The guesser after a good result of a guess, with the scorer as `scorer`.
    pub open spec fn after_result(
        self,
        guess: Seq<char>,
        results: Seq<LetterResult>,
        scorer: T,
    ) -> Self {
        let restrictions = self.restrictions.updated(guess, results);
        MaxScoreView {
            groups: self.groups.without_guess(guess).narrowed(restrictions),
            restrictions,
            scorer,
            ..self.after_guess(guess)
        }
    }

    /// Whether an update with the results of a guess may have the given outcome, and leave the
    /// guesser as `after`. Where the result is faulty, the guess counts as guessed; otherwise the
    /// outcome is that of the scorer.
    pub open spec fn may_update(
        self,
        guess: Seq<char>,
        results: Seq<LetterResult>,
        outcome: Result<(), WordleError>,
        after: Self,
    ) -> bool {
        if self.restrictions.update_outcome(guess, results) is Ok {
            &&& after == self.after_result(guess, results, after.scorer)
            &&& self.scorer.may_update(
                guess,
                after.restrictions,
                after.groups.possible(),
                outcome,
                &after.scorer,
            )
        } else {
            &&& outcome == self.restrictions.update_outcome(guess, results)
            &&& after == self.after_guess(guess)
        }
    }

    /// Whether `guess` is the selection from the given set.
    pub open spec fn may_select(self, from: GuessFrom, guess: Option<Arc<str>>) -> bool {
        is_selection(self.words_to_score(from), self.scores(from), guess)
    }

    /// Whether one of the words reads `word`.
    pub open spec fn knows(self, word: Seq<char>) -> bool {
        exists|known: Arc<str>| #[trigger] self.groups.holds(known) && known@ == word
    }

    /// Whether the restrictions fit the length of `word`, if the words are as long. Unless the
    /// scorer never fails, they have to fit `word` itself then, and the scorer has to follow it.
    pub open spec fn tracks(self, word: Seq<char>) -> bool {
        &&& forall|known: Arc<str>| #[trigger]
            self.groups.holds(known) && known@.len() == word.len() ==> word.len()
                == self.restrictions.word_length
        &&& self.scorer.never_fails() || {
            &&& word.len() == self.restrictions.word_length ==> self.restrictions.satisfied_by(word)
            &&& self.scorer.follows(word)
        }
    }
}

impl<T> View for MaxScoreGuesser<T> where T: WordScorer + Clone + Sync {
    type V = MaxScoreView<T>;

    closed spec fn view(&self) -> MaxScoreView<T> {
        MaxScoreView {
            default_guess_mode: self.default_guess_mode,
            groups: self.grouped_words@,
            restrictions: self.restrictions@,
            scorer: self.scorer,
            parallelisation_limit: self.parallelisation_limit,
            unguessed_scores: content(self.all_unguessed_word_scores),
            possible_scores: content(self.possible_word_scores),
        }
    }
}

impl<T> MaxScoreGuesser<T> where T: WordScorer + Clone + Sync {
    /// Constructs a new `MaxScoreGuesser` that will guess the word with the maximum score
    /// according to the given [`WordScorer`]. This will only score and guess from the words in the
    /// `word_bank` according to the given `guess_from` strategy.
    ///
    /// If in doubt, you probably want to use `GuessFrom::AllUnguessedWords` for better performance.
    ///
    /// `available_parallelism` is the number of threads that the machine offers, if it is known. It
    /// is the parallelisation limit until another is set; where it is not known, the limit is 1.
    ///
    /// See [`WordScorer`] for more information about possible scoring algorithms.
    pub fn new(
        guess_mode: GuessFrom,
        word_bank: WordBank,
        scorer: T,
        available_parallelism: Option<usize>,
    ) -> (guesser: MaxScoreGuesser<T>)
        ensures
            guesser.inv(),
            guesser@ == MaxScoreView::initial(
                guess_mode,
                word_bank@,
                word_bank.letters_per_word(),
                scorer,
                match available_parallelism {
                    Some(limit) => limit,
                    None => 1,
                },
            ),
            word_bank.letters_per_word() <= u8::MAX ==> forall|word: Seq<char>|
                scorer.never_fails() || scorer.follows(word) ==> #[trigger] guesser.tracks(word),
    {
        let word_length = word_bank.word_length();
        let ghost words = word_bank@;
        let guesser = MaxScoreGuesser {
            default_guess_mode: guess_mode,
            grouped_words: GroupedWords::new(word_bank),
            restrictions: WordRestrictions::new(#[verifier::truncate] (word_length as u8)),
            scorer,
            parallelisation_limit: match available_parallelism {
                Some(limit) => limit,
                None => 1,
            },
            all_unguessed_word_scores: None,
            possible_word_scores: None,
        };
        assert forall|known: Arc<str>| #[trigger] guesser@.groups.holds(known) implies known@.len()
            == word_length by {
            let i = words.index_of(known);
            assert(words[i] == known);
        }
        guesser
    }

    /// Sets the parallelisation limit. Various internal operations may be parallelised if operating
    /// on lists larger than this limit.
    pub fn with_parallelisation_limit(self, parallelisation_limit: usize) -> (guesser: Self)
        requires
            self.inv(),
        ensures
            guesser.inv(),
            guesser@ == (MaxScoreView { parallelisation_limit, ..self@ }),
    {
        let mut guesser = self;
        guesser.parallelisation_limit = parallelisation_limit;
        guesser
    }

    /// Sets the precomputed word scores based on the provided map. If the map is missing scores
    /// for any words, they will be computed to fill the gaps. These scores will be used until the
    /// next call to [`Guesser::update()`].
    ///
    /// This is handy to initialise the guesser with precomputed scores for the first guess. You
    /// can retrieve this data by calling [`Self::get_or_compute_scores()`] on a newly constructed
    /// guesser.
    pub fn with_scores(self, scores: &HashMap<Arc<str>, i64>) -> (guesser: Self)
        requires
            self.inv(),
        ensures
            guesser.inv(),
            guesser@ == self@.knowing(
                self@.default_guess_mode,
                self@.scores_with_table(scores@),
            ),
    {
        let mut guesser = self;
        let words_to_score = guesser.words_to_score(guesser.default_guess_mode);
        let mut ordered_scores: Vec<i64> = Vec::new();
        for i in 0..words_to_score.len()
            invariant
                guesser@ == self@,
                words_to_score@ == self@.words_to_score(self@.default_guess_mode),
                ordered_scores@ == self@.scores_with_table(scores@).take(i as int),
        {
            let word = &words_to_score[i];
            let score = match score_in_table(scores, word) {
                Some(score) => score,
                None => guesser.scorer.score_word(word),
            };
            ordered_scores.push(score);
        }
        assert(ordered_scores@ =~= self@.scores_with_table(scores@));
        match guesser.default_guess_mode {
            GuessFrom::AllUnguessedWords => {
                guesser.all_unguessed_word_scores = Some(ordered_scores);
            },
            GuessFrom::PossibleWords => {
                guesser.possible_word_scores = Some(ordered_scores);
            },
        }
        guesser
    }

    /// Gets the score for each available guess, keyed by guess. This computes the scores if they
    /// have not already been computed. The set of words is limited by the [`GuessFrom`] value used
    /// in this guesser, and by the updates that have been provided so far.
    pub fn get_or_compute_scores(&mut self) -> (table: HashMap<Arc<str>, i64>)
        requires
            old(self).inv(),
        ensures
            final(self).inv(),
            final(self)@ == old(self)@.scored(old(self)@.default_guess_mode),
            table@ == table_of(old(self)@.entries(old(self)@.default_guess_mode)),
    {
        self.compute_scores_if_unknown();
        let entries = self.scored_words(self.default_guess_mode);
        let mut table: HashMap<Arc<str>, i64> = HashMap::new();
        for i in 0..entries.len()
            invariant
                table@ == table_of(entries@.take(i as int)),
        {
            assert(entries@.take(i + 1).drop_last() =~= entries@.take(i as int));
            enter_score(&mut table, Arc::clone(&entries[i].0), entries[i].1);
        }
        assert(entries@.take(entries@.len() as int) =~= entries@);
        table
    }

    /// Returns up-to the top `n` guesses for the wordle, based on the current state.
    ///
    /// Returns an empty vector if no known words are possible given the known restrictions imposed
    /// by previous calls to [`Guesser::update()`].
    pub fn select_top_n_guesses(&mut self, n: usize) -> (guesses: Vec<ScoredGuess>)
        requires
            old(self).inv(),
        ensures
            final(self).inv(),
            final(self)@ == old(self)@.scored(old(self)@.default_guess_mode),
            are_top_guesses(old(self)@.entries(old(self)@.default_guess_mode), n, guesses@),
            old(self)@.groups.possible().len() == 0 ==> guesses@.len() == 0,
    {
        self.select_top_n_guesses_from(n, self.default_guess_mode)
    }

    /// Returns up-to the top `n` guesses for the wordle, based on the current state and the
    /// provided [`GuessFrom`] option.
    ///
    /// Returns an empty vector if no known words are possible given the known restrictions imposed
    /// by previous calls to [`Guesser::update()`].
    pub fn select_top_n_guesses_from(&mut self, n: usize, from: GuessFrom) -> (guesses: Vec<
        ScoredGuess,
    >)
        requires
            old(self).inv(),
        ensures
            final(self).inv(),
            final(self)@ == old(self)@.scored(from),
            are_top_guesses(old(self)@.entries(from), n, guesses@),
            old(self)@.groups.possible().len() == 0 ==> guesses@.len() == 0,
    {
        self.compute_scores_if_needed_from(from);
        let mut scored_words = self.scored_words(from);
        let ghost entries = scored_words@;
        // Use a stable sort, because possible words come before impossible words, and we want to
        // prioritise possible words if we're using GuessFrom::AllUnguessedWords.
        if scored_words.len() >= self.parallelisation_limit {
            par_rank(&mut scored_words);
        } else {
            rank(&mut scored_words);
        }
        let ghost ranking = scored_words@;
        proof {
            ranking_holds_the_entries(entries, ranking);
        }
        let num_guesses = if n < scored_words.len() {
            n
        } else {
            scored_words.len()
        };
        let mut guesses: Vec<ScoredGuess> = Vec::new();
        for i in 0..num_guesses
            invariant
                num_guesses <= scored_words@.len(),
                guesses@.len() == i,
                forall|j: int|
                    0 <= j < i ==> (#[trigger] guesses@[j]).guess == scored_words@[j].0
                        && guesses@[j].score == scored_words@[j].1,
        {
            guesses.push(
                ScoredGuess { score: scored_words[i].1, guess: Arc::clone(&scored_words[i].0) },
            );
        }
        guesses
    }

    /// Computes the word scores if they are not known, using the default [`GuessFrom`] provided on
    /// construction. The result is cached into `Self` until the scorer's state changes.
    ///
    /// This can be useful to precompute the scores for the first guess in a base guesser, and then
    /// clone that guesser for each use.
    pub fn compute_scores_if_unknown(&mut self)
        requires
            old(self).inv(),
        ensures
            final(self).inv(),
            final(self)@ == old(self)@.scored(old(self)@.default_guess_mode),
    {
        self.compute_scores_if_needed_from(self.default_guess_mode);
    }

    /// Computes the word scores if they are not known. The result is cached into `Self` until the
    /// scorer's state changes.
    ///
    /// This can be useful to precompute the scores for the first guess in a base guesser, and then
    /// clone that guesser for each use.
    pub fn compute_scores_if_needed_from(&mut self, from: GuessFrom)
        requires
            old(self).inv(),
        ensures
            final(self).inv(),
            final(self)@ == old(self)@.scored(from),
    {
        if self.word_scores(from).is_some() {
            return;
        }
        let computed_scores = Some(
            Self::score_words(
                self.words_to_score(from),
                &self.scorer,
                self.parallelisation_limit,
            ),
        );
        match from {
            GuessFrom::AllUnguessedWords => {
                self.all_unguessed_word_scores = computed_scores;
            },
            GuessFrom::PossibleWords => {
                self.possible_word_scores = computed_scores;
            },
        }
    }

    /// Scores each of the words, in parallel if there are enough of them.
    fn score_words(
        words_to_score: &[Arc<str>],
        scorer: &T,
        parallelisation_limit: usize,
    ) -> (scores: Vec<i64>)
        ensures
            scores@ == Seq::new(
                words_to_score@.len(),
                |i: int| scorer.score(words_to_score@[i]@),
            ),
    {
        if words_to_score.len() >= parallelisation_limit {
            par_scores(words_to_score, scorer)
        } else {
            let mut scores: Vec<i64> = Vec::new();
            for i in 0..words_to_score.len()
                invariant
                    scores@ == Seq::new(i as nat, |j: int| scorer.score(words_to_score@[j]@)),
            {
                scores.push(scorer.score_word(&words_to_score[i]));
            }
            scores
        }
    }

    /// Retrieves the requested set of word scores, if they have been precomputed, else `None`.
    ///
    /// If present, these are in the same order as the words returned by [`Self::words_to_score()`].
    fn word_scores(&self, from: GuessFrom) -> (scores: Option<&[i64]>)
        requires
            self.inv(),
        ensures
            match scores {
                Some(scores) => {
                    &&& self@.word_scores(from) == Some(scores@)
                    &&& scores@.len() == self@.words_to_score(from).len()
                },
                None => self@.word_scores(from) is None,
            },
    {
        match from {
            GuessFrom::PossibleWords => {
                if let Some(scores) = self.possible_word_scores.as_ref() {
                    Some(scores.as_slice())
                } else if let Some(scores) = self.all_unguessed_word_scores.as_ref() {
                    // The possible words are at the start, so return those, except where a
                    // possible word has already been guessed.
                    let num_possible = self.grouped_words.num_possible_words();
                    if num_possible <= self.grouped_words.num_unguessed_words() && (num_possible
                        <= 2 || self.grouped_words.possible_words_lead()) {
                        Some(vstd::slice::slice_subrange(scores.as_slice(), 0, num_possible))
                    } else {
                        None
                    }
                } else {
                    None
                }
            },
            GuessFrom::AllUnguessedWords => match self.all_unguessed_word_scores.as_ref() {
                Some(scores) => Some(scores.as_slice()),
                None => None,
            },
        }
    }

    /// Retrieves the words that need scoring, in the same order as the precomputed scores, if any.
    ///
    /// Note that if there are two or fewer possible words remaining, or no unguessed words, this
    /// will always return only the possible words.
    fn words_to_score(&self, from: GuessFrom) -> (words: &[Arc<str>])
        requires
            self.inv(),
        ensures
            words@ == self@.words_to_score(from),
    {
        match from {
            // Only score possible words if we're down to the last two guesses.
            _ if self.grouped_words.num_possible_words() <= 2 => {
                self.grouped_words.possible_words()
            },
            _ if self.grouped_words.num_unguessed_words() == 0 => {
                self.grouped_words.possible_words()
            },
            GuessFrom::AllUnguessedWords => self.grouped_words.unguessed_words(),
            GuessFrom::PossibleWords => self.grouped_words.possible_words(),
        }
    }

    /// Pairs the words with their scores, which are known.
    fn scored_words(&self, from: GuessFrom) -> (entries: Vec<(Arc<str>, i64)>)
        requires
            self.inv(),
            self@.word_scores(from) is Some,
        ensures
            entries@ == self@.entries(from),
    {
        let word_scores = self.word_scores(from).unwrap();
        let words = self.words_to_score(from);
        let mut entries: Vec<(Arc<str>, i64)> = Vec::new();
        for i in 0..words.len()
            invariant
                words@.len() == word_scores@.len(),
                entries@ == side_by_side(words@, word_scores@).take(i as int),
        {
            entries.push((Arc::clone(&words[i]), word_scores[i]));
        }
        assert(entries@ =~= side_by_side(words@, word_scores@));
        entries
    }

    /// Takes the guesser apart, for example to store it after the scores were computed.
    pub fn into_parts(self) -> (parts: MaxScoreParts<T>)
        requires
            self.inv(),
        ensures
            parts.grouped_words.inv(),
            parts@ == self@,
            parts@.scores_fit(),
    {
        MaxScoreParts {
            default_guess_mode: self.default_guess_mode,
            grouped_words: self.grouped_words,
            restrictions: self.restrictions,
            scorer: self.scorer,
            parallelisation_limit: self.parallelisation_limit,
            all_unguessed_word_scores: self.all_unguessed_word_scores,
            possible_word_scores: self.possible_word_scores,
        }
    }

    /// Puts a guesser together again that was taken apart by [`Self::into_parts()`].
    ///
    /// Returns `None` if the scores are not as many as the words that they are for.
    pub fn from_parts(parts: MaxScoreParts<T>) -> (guesser: Option<MaxScoreGuesser<T>>)
        requires
            parts.grouped_words.inv(),
        ensures
            match guesser {
                Some(guesser) => guesser.inv() && guesser@ == parts@ && parts@.scores_fit(),
                None => !parts@.scores_fit(),
            },
    {
        let num_possible = parts.grouped_words.num_possible_words();
        let mut num_unguessed = parts.grouped_words.num_unguessed_words();
        if num_possible <= 2 || num_unguessed == 0 {
            num_unguessed = num_possible;
        }
        let unguessed_fit = match &parts.all_unguessed_word_scores {
            Some(scores) => scores.len() == num_unguessed,
            None => true,
        };
        let possible_fit = match &parts.possible_word_scores {
            Some(scores) => scores.len() == num_possible,
            None => true,
        };
        if !unguessed_fit || !possible_fit {
            return None;
        }
        Some(
            MaxScoreGuesser {
                default_guess_mode: parts.default_guess_mode,
                grouped_words: parts.grouped_words,
                restrictions: parts.restrictions,
                scorer: parts.scorer,
                parallelisation_limit: parts.parallelisation_limit,
                all_unguessed_word_scores: parts.all_unguessed_word_scores,
                possible_word_scores: parts.possible_word_scores,
            },
        )
    }

    /// Score a single word.
    pub fn score_word(&self, word: &Arc<str>) -> (score: i64)
        ensures
            score == self@.scorer.score(word@),
    {
        self.scorer.score_word(word)
    }
}

/// A valid guesser has one score for each word that a selection looks at, where they are known.
pub proof fn known_scores_fit<T: WordScorer + Clone + Sync>(guesser: MaxScoreGuesser<T>)
    requires
        guesser.inv(),
    ensures
        guesser@.scores_fit(),
{
}

/// Copies scores that may be known.
fn copy_scores(scores: &Option<Vec<i64>>) -> (copy: Option<Vec<i64>>)
    ensures
        content(copy) == content(*scores),
{
    match scores {
        Some(scores) => {
            let copy = vstd::slice::slice_to_vec(scores.as_slice());
            Some(copy)
        },
        None => None,
    }
}

impl<T> Clone for MaxScoreGuesser<T> where T: WordScorer + Clone + Sync {
    fn clone(&self) -> (copy: Self)
        ensures
            cloned(self@.scorer, copy@.scorer),
            copy@ == (MaxScoreView { scorer: copy@.scorer, ..self@ }),
            copy.inv() == self.inv(),
    {
        MaxScoreGuesser {
            default_guess_mode: self.default_guess_mode,
            grouped_words: self.grouped_words.clone(),
            restrictions: self.restrictions.clone(),
            scorer: self.scorer.clone(),
            parallelisation_limit: self.parallelisation_limit,
            all_unguessed_word_scores: copy_scores(&self.all_unguessed_word_scores),
            possible_word_scores: copy_scores(&self.possible_word_scores),
        }
    }
}

impl<T> Guesser for MaxScoreGuesser<T> where T: WordScorer + Clone + Sync {
    closed spec fn inv(&self) -> bool {
        self.grouped_words.inv() && self@.scores_fit()
    }

    open spec fn possible(&self) -> Seq<Arc<str>> {
        self@.groups.possible()
    }

    open spec fn default_mode(&self) -> GuessFrom {
        self@.default_guess_mode
    }

    open spec fn knows(&self, word: Seq<char>) -> bool {
        self@.knows(word)
    }

    open spec fn tracks(&self, word: Seq<char>) -> bool {
        self@.tracks(word)
    }

    open spec fn may_select(&self, from: GuessFrom, guess: Option<Arc<str>>, after: &Self) -> bool {
        &&& self@.may_select(from, guess)
        &&& after@ == self@.scored(from)
    }

    open spec fn may_update(
        &self,
        guess: Seq<char>,
        results: Seq<LetterResult>,
        outcome: Result<(), WordleError>,
        after: &Self,
    ) -> bool {
        self@.may_update(guess, results, outcome, after@)
    }

    fn update(&mut self, result: &GuessResult<'_>) -> (outcome: Result<(), WordleError>) {
        self.all_unguessed_word_scores = None;
        self.possible_word_scores = None;
        self.grouped_words.remove_guess_if_present(result.guess);
        proof {
            guessing_adds_no_word(old(self)@.groups, result.guess@);
        }
        let outcome = self.restrictions.update(result);
        if outcome.is_err() {
            return outcome;
        }
        proof {
            narrowing_adds_no_word(self@.groups, self@.restrictions);
        }
        self.grouped_words.filter_possible_words(&self.restrictions);
        self.scorer.update(result.guess, &self.restrictions, self.grouped_words.possible_words())
    }

    fn select_next_guess(&mut self) -> (guess: Option<Arc<str>>)
        ensures
            guess is None <==> old(self)@.groups.possible().len() == 0,
    {
        self.select_next_guess_from(self.default_guess_mode)
    }

    fn select_next_guess_from(&mut self, from: GuessFrom) -> (guess: Option<Arc<str>>)
        ensures
            guess is None <==> old(self)@.groups.possible().len() == 0,
    {
        // Compute an owned instance of word_scores if the guess mode has changed.
        self.compute_scores_if_needed_from(from);
        let word_scores = self.word_scores(from).unwrap();
        let words_to_score = self.words_to_score(from);
        let best_index = if words_to_score.len() > self.parallelisation_limit {
            best_index_in_parallel(word_scores)
        } else {
            best_index_in_sequence(word_scores)
        };
        proof {
            listed_words_are_held(self@.groups);
        }
        match best_index {
            Some(best_index) => {
                let guess = Arc::clone(&words_to_score[best_index]);
                assert(words_to_score@.contains(guess));
                Some(guess)
            },
            None => None,
        }
    }

    fn possible_words(&self) -> (words: &[Arc<str>]) {
        self.grouped_words.possible_words()
    }
}

} // verus!
