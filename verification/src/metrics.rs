//! Evaluation counting: correct predictions and the confusion counts behind
//! precision, recall and F1.

use vstd::prelude::*;

verus! {

/// Predictions equal to their label among the first `n` pairs.
pub open spec fn correct_upto(p: Seq<usize>, l: Seq<usize>, n: int) -> nat
    decreases n,
{
    if n <= 0 {
        0
    } else {
        correct_upto(p, l, n - 1) + (if p[n - 1] == l[n - 1] {
            1nat
        } else {
            0nat
        })
    }
}

/// Wrong predictions of the positive class among the first `n` pairs.
pub open spec fn false_pos_upto(p: Seq<usize>, l: Seq<usize>, n: int) -> nat
    decreases n,
{
    if n <= 0 {
        0
    } else {
        false_pos_upto(p, l, n - 1) + (if p[n - 1] != l[n - 1] && p[n - 1] == 1 {
            1nat
        } else {
            0nat
        })
    }
}

/// Missed positives among the first `n` pairs.
pub open spec fn false_neg_upto(p: Seq<usize>, l: Seq<usize>, n: int) -> nat
    decreases n,
{
    if n <= 0 {
        0
    } else {
        false_neg_upto(p, l, n - 1) + (if p[n - 1] != l[n - 1] && l[n - 1] == 1 {
            1nat
        } else {
            0nat
        })
    }
}

/// The shorter of the two lengths: predictions and labels pair up only so far.
pub open spec fn paired_len(p: Seq<usize>, l: Seq<usize>) -> int {
    if p.len() <= l.len() {
        p.len() as int
    } else {
        l.len() as int
    }
}

/// Computes the integer counts behind the evaluation metrics; the quotients
/// themselves are taken by the caller.
pub struct Evaluator;

impl Evaluator {
    /// A new evaluator.
    pub fn new() -> (r: Self)
        ensures
            r == (Evaluator {  }),
    {
        Evaluator {  }
    }

    /// How many predictions equal their label.
    pub fn count_correct(&self, predictions: &[usize], labels: &[usize]) -> (r: usize)
        ensures
            r == correct_upto(predictions@, labels@, paired_len(predictions@, labels@)),
    {
        let n = if predictions.len() <= labels.len() {
            predictions.len()
        } else {
            labels.len()
        };
        let mut count: usize = 0;
        let mut i: usize = 0;
        while i < n
            invariant
                n == paired_len(predictions@, labels@),
                i <= n,
                count == correct_upto(predictions@, labels@, i as int),
                count <= i,
            decreases n - i,
        {
            if predictions[i] == labels[i] {
                count += 1;
            }
            i += 1;
        }
        count
    }

    /// The true-positive, false-positive and false-negative counts, with
    /// class 1 taken as the positive class: exact matches count as true
    /// positives, mismatches count by which side named the positive class.
    pub fn prf_counts(&self, predictions: &[usize], labels: &[usize]) -> (r: (usize, usize, usize))
        ensures
            r.0 == correct_upto(predictions@, labels@, paired_len(predictions@, labels@)),
            r.1 == false_pos_upto(predictions@, labels@, paired_len(predictions@, labels@)),
            r.2 == false_neg_upto(predictions@, labels@, paired_len(predictions@, labels@)),
    {
        let n = if predictions.len() <= labels.len() {
            predictions.len()
        } else {
            labels.len()
        };
        let mut tp: usize = 0;
        let mut fp: usize = 0;
        let mut fnc: usize = 0;
        let mut i: usize = 0;
        while i < n
            invariant
                n == paired_len(predictions@, labels@),
                i <= n,
                tp == correct_upto(predictions@, labels@, i as int),
                fp == false_pos_upto(predictions@, labels@, i as int),
                fnc == false_neg_upto(predictions@, labels@, i as int),
                tp <= i,
                fp <= i,
                fnc <= i,
            decreases n - i,
        {
            if predictions[i] == labels[i] {
                tp += 1;
            } else {
                if predictions[i] == 1 {
                    fp += 1;
                }
                if labels[i] == 1 {
                    fnc += 1;
                }
            }
            i += 1;
        }
        (tp, fp, fnc)
    }
}

} // verus!
