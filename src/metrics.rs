//! Word-level evaluation: word error rate and word accuracy of a predicted
//! sentence against the actual one, as exact fractions.
use vstd::prelude::*;
use crate::distance::{edit_distance, lemma_distance_identity};
use crate::graphemes_struct::{Graphemes, split_on, views_of};
use crate::segment::space;
use crate::sequence::tokens;

pub use crate::distance::levenshtein_distance;

verus! {

/// Why a rate could not be computed.
#[derive(Debug, Clone, Copy, PartialEq, Eq, Structural)]
pub enum MetricError {
    /// The actual sentence is empty, so the rate has no denominator.
    EmptyReference,
}

/// The exact fraction `numerator / denominator`.
#[derive(Debug, Clone, Copy, PartialEq, Eq, Structural)]
pub struct Rate {
    pub numerator: i128,
    pub denominator: usize,
}

/// The words of a sentence: the pieces between its spaces.
pub open spec fn words(s: Seq<Seq<char>>) -> Seq<Seq<Seq<char>>> {
    split_on(s, space())
}

pub proof fn lemma_split_on_len<V>(s: Seq<V>, sep: V)
    ensures
        1 <= split_on(s, sep).len() <= s.len() + 1,
    decreases s.len(),
{
    if s.len() > 0 {
        lemma_split_on_len(s.drop_last(), sep);
    }
}

/// The word-level distance between the two sentences, and the number of
/// words of the actual one.
fn word_errors(actual_sentence: &Graphemes, predict_sentence: &Graphemes) -> (r: (usize, usize))
    requires
        actual_sentence@.len() + predict_sentence@.len() + 2 < usize::MAX,
    ensures
        r.0 == edit_distance(words(actual_sentence@), words(predict_sentence@), 1),
        r.1 == words(actual_sentence@).len(),
{
    let actual_split_sentence = actual_sentence.split(" ");
    let predict_split_sentence = predict_sentence.split(" ");
    proof {
        reveal_strlit(" ");
        assert(" "@ == space());
        lemma_split_on_len(actual_sentence@, space());
        lemma_split_on_len(predict_sentence@, space());
        assert(tokens(&actual_split_sentence) =~= views_of(actual_split_sentence@));
        assert(tokens(&predict_split_sentence) =~= views_of(predict_split_sentence@));
    }
    let lev_distance = levenshtein_distance(&actual_split_sentence, &predict_split_sentence, 1);
    (lev_distance, actual_split_sentence.len())
}

/// (word insertions + deletions + substitutions) / (words of the actual
/// sentence), where words are the pieces between spaces.
pub fn word_error_rate(actual_sentence: &Graphemes, predict_sentence: &Graphemes) -> (r: Result<
    Rate,
    MetricError,
>)
    requires
        actual_sentence@.len() + predict_sentence@.len() + 2 < usize::MAX,
    ensures
        match r {
            Ok(rate) => {
                &&& actual_sentence@.len() > 0
                &&& rate.numerator == edit_distance(
                    words(actual_sentence@),
                    words(predict_sentence@),
                    1,
                )
                &&& rate.denominator == words(actual_sentence@).len()
            },
            Err(e) => actual_sentence@.len() == 0 && e == MetricError::EmptyReference,
        },
{
    if actual_sentence.is_empty() {
        return Err(MetricError::EmptyReference);
    }
    let (errors, count) = word_errors(actual_sentence, predict_sentence);
    Ok(Rate { numerator: errors as i128, denominator: count })
}

/// 1 - (word insertions + deletions + substitutions) / (words of the actual
/// sentence); negative when the errors outnumber the words.
pub fn word_accuracy(actual_sentence: &Graphemes, predict_sentence: &Graphemes) -> (r: Result<
    Rate,
    MetricError,
>)
    requires
        actual_sentence@.len() + predict_sentence@.len() + 2 < usize::MAX,
    ensures
        match r {
            Ok(rate) => {
                &&& actual_sentence@.len() > 0
                &&& rate.numerator == words(actual_sentence@).len() - edit_distance(
                    words(actual_sentence@),
                    words(predict_sentence@),
                    1,
                )
                &&& rate.denominator == words(actual_sentence@).len()
            },
            Err(e) => actual_sentence@.len() == 0 && e == MetricError::EmptyReference,
        },
{
    if actual_sentence.is_empty() {
        return Err(MetricError::EmptyReference);
    }
    let (errors, count) = word_errors(actual_sentence, predict_sentence);
    Ok(Rate { numerator: count as i128 - errors as i128, denominator: count })
}

/// A sentence compared with itself has no word errors.
pub proof fn lemma_word_error_rate_of_itself(s: Seq<Seq<char>>)
    ensures
        edit_distance(words(s), words(s), 1) == 0,
{
    lemma_distance_identity(words(s), 1);
}

} // verus!
