//! What the results of earlier guesses say about the word.
use vstd::prelude::*;

use crate::results::{letters, results_of, truthful, GuessResult, LetterResult, WordleError};

verus! {

/// Collects the results of guesses, and tells which words agree with all of them.
#[derive(Debug)]
pub struct WordRestrictions {
    word_length: u8,
    findings: Vec<(Vec<char>, Vec<LetterResult>)>,
}

/// The mathematical content of a [`WordRestrictions`].
pub struct RestrictionsView {
    /// The number of letters that a word has.
    pub word_length: u8,
    /// The guesses so far, each with its results.
    pub findings: Seq<(Seq<char>, Seq<LetterResult>)>,
}

impl RestrictionsView {
    /// No guess has been made yet.
    pub open spec fn unrestricted(word_length: u8) -> Self {
        RestrictionsView { word_length, findings: Seq::empty() }
    }

    /// Whether `word` has the right length and would have given every guess the result that it had.
    pub open spec fn satisfied_by(self, word: Seq<char>) -> bool {
        &&& word.len() == self.word_length
        &&& forall|k: int|
            0 <= k < self.findings.len() ==> truthful(
                word,
                (#[trigger] self.findings[k]).0,
                self.findings[k].1,
            )
    }

    /// How taking up the result of a guess turns out.
    pub open spec fn update_outcome(
        self,
        guess: Seq<char>,
        results: Seq<LetterResult>,
    ) -> Result<(), WordleError> {
        if guess.len() != self.word_length {
            Err(WordleError::WordLength(self.word_length as usize))
        } else if results.len() != self.word_length {
            Err(WordleError::InvalidResults)
        } else {
            Ok(())
        }
    }

    /// The restrictions after taking up the result of a guess; a faulty result changes nothing.
    pub open spec fn updated(self, guess: Seq<char>, results: Seq<LetterResult>) -> Self {
        if self.update_outcome(guess, results) is Ok {
            RestrictionsView { findings: self.findings.push((guess, results)), ..self }
        } else {
            self
        }
    }
}

/// The content of guesses with their results.
pub open spec fn content(findings: Seq<(Vec<char>, Vec<LetterResult>)>) -> Seq<
    (Seq<char>, Seq<LetterResult>),
> {
    findings.map_values(|finding: (Vec<char>, Vec<LetterResult>)| (finding.0@, finding.1@))
}

impl View for WordRestrictions {
    type V = RestrictionsView;

    closed spec fn view(&self) -> RestrictionsView {
        RestrictionsView {
            word_length: self.word_length,
            findings: content(self.findings@),
        }
    }
}

impl WordRestrictions {
    /// Constructs restrictions that every word of the given length satisfies.
    pub fn new(word_length: u8) -> (restrictions: WordRestrictions)
        ensures
            restrictions@ == RestrictionsView::unrestricted(word_length),
    {
        let restrictions = WordRestrictions { word_length, findings: Vec::new() };
        assert(restrictions@.findings =~= Seq::empty());
        restrictions
    }

    /// Adds the restrictions that arise from the result of a guess.
    ///
    /// The guess must be as long as the words, and have one result per letter; otherwise this
    /// returns an error, and the restrictions stay as they are.
    pub fn update(&mut self, guess_result: &GuessResult<'_>) -> (outcome: Result<(), WordleError>)
        ensures
            outcome == old(self)@.update_outcome(guess_result.guess@, guess_result.results@),
            final(self)@ == old(self)@.updated(guess_result.guess@, guess_result.results@),
    {
        let guess = letters(guess_result.guess);
        if guess.len() != self.word_length as usize {
            return Err(WordleError::WordLength(self.word_length as usize));
        }
        if guess_result.results.len() != self.word_length as usize {
            return Err(WordleError::InvalidResults);
        }
        let results = copy_results(&guess_result.results);
        self.findings.push((guess, results));
        assert(self@.findings =~= old(self)@.findings.push(
            (guess_result.guess@, guess_result.results@),
        ));
        Ok(())
    }

    /// Whether the given word agrees with everything that is known so far.
    pub fn is_satisfied_by(&self, word: &str) -> (satisfied: bool)
        ensures
            satisfied == self@.satisfied_by(word@),
    {
        let word_letters = letters(word);
        if word_letters.len() != self.word_length as usize {
            return false;
        }
        for k in 0..self.findings.len()
            invariant
                word_letters@ == word@,
                forall|j: int|
                    0 <= j < k ==> truthful(
                        word@,
                        (#[trigger] self@.findings[j]).0,
                        self@.findings[j].1,
                    ),
        {
            let finding = &self.findings[k];
            assert(self@.findings[k as int] == (finding.0@, finding.1@));
            if finding.0.len() != word_letters.len() {
                return false;
            }
            let expected = results_of(&word_letters, &finding.0);
            if !same_results(&expected, &finding.1) {
                return false;
            }
        }
        true
    }
}

impl WordRestrictions {
    /// Takes the restrictions apart, for example to store them: the number of letters of a word,
    /// and the guesses so far, each with its results.
    pub fn into_parts(self) -> (parts: (u8, Vec<(Vec<char>, Vec<LetterResult>)>))
        ensures
            self@ == (RestrictionsView { word_length: parts.0, findings: content(parts.1@) }),
    {
        (self.word_length, self.findings)
    }

    /// Puts restrictions together again that were taken apart by [`Self::into_parts()`].
    pub fn from_parts(
        word_length: u8,
        findings: Vec<(Vec<char>, Vec<LetterResult>)>,
    ) -> (restrictions: WordRestrictions)
        ensures
            restrictions@ == (RestrictionsView { word_length, findings: content(findings@) }),
    {
        WordRestrictions { word_length, findings }
    }
}

impl Clone for WordRestrictions {
    fn clone(&self) -> (copy: Self)
        ensures
            copy@ == self@,
    {
        let mut findings: Vec<(Vec<char>, Vec<LetterResult>)> = Vec::new();
        for k in 0..self.findings.len()
            invariant
                findings@.len() == k,
                forall|j: int|
                    0 <= j < k ==> (#[trigger] findings@[j]).0@ == self.findings@[j].0@
                        && findings@[j].1@ == self.findings@[j].1@,
        {
            let finding = &self.findings[k];
            let mut guess: Vec<char> = Vec::new();
            for i in 0..finding.0.len()
                invariant
                    guess@ == finding.0@.take(i as int),
            {
                guess.push(finding.0[i]);
            }
            assert(guess@ =~= finding.0@);
            let results = copy_results(&finding.1);
            findings.push((guess, results));
        }
        let copy = WordRestrictions { word_length: self.word_length, findings };
        assert(copy@.findings =~= self@.findings);
        copy
    }
}

/// Copies a list of results.
fn copy_results(results: &Vec<LetterResult>) -> (copy: Vec<LetterResult>)
    ensures
        copy@ == results@,
{
    let mut copy: Vec<LetterResult> = Vec::new();
    for i in 0..results.len()
        invariant
            copy@ == results@.take(i as int),
    {
        copy.push(results[i]);
    }
    assert(copy@ =~= results@);
    copy
}

/// Whether two lists of results are the same.
fn same_results(left: &Vec<LetterResult>, right: &Vec<LetterResult>) -> (same: bool)
    ensures
        same == (left@ == right@),
{
    if left.len() != right.len() {
        return false;
    }
    for i in 0..left.len()
        invariant
            left@.len() == right@.len(),
            forall|j: int| 0 <= j < i ==> left@[j] == right@[j],
    {
        if left[i] != right[i] {
            return false;
        }
    }
    assert(left@ =~= right@);
    true
}

} // verus!
