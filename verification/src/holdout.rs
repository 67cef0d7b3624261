//! Helpers for checking a classifier against labelled data that it has not
//! learned: a random order for the stored points, and a count of the
//! predictions that agree with the known labels.

use vstd::prelude::*;
use crate::classifier::{item_views, ItemView, KnnClassifier, KnnItem};
use crate::text::string_views;

verus! {

/// `lazyrand::shuffle` on the items. It draws from the crate's shared
/// generator and reorders the slice by swapping pairs of its elements, so
/// the items afterwards are the items before, each as often as before; which
/// order comes out is left open. It fails on an empty slice, which the
/// precondition leaves out.
#[verifier::external_body]
fn shuffle_items(items: &mut Vec<KnnItem>)
    requires
        old(items).len() >= 1,
    ensures
        item_views(final(items)@).to_multiset() == item_views(old(items)@).to_multiset(),
{
    lazyrand::shuffle(items.as_mut_slice());
}

/// At how many of the first `n` places the predicted label is the label of
/// the item.
pub open spec fn agreements(predicted: Seq<Seq<char>>, expected: Seq<ItemView>, n: int) -> nat
    decreases n,
{
    if n <= 0 {
        0
    } else {
        agreements(predicted, expected, n - 1) + if predicted[n - 1] == expected[n - 1].label {
            1nat
        } else {
            0nat
        }
    }
}

/// There are at most as many agreements as places.
pub proof fn lemma_agreements_bound(predicted: Seq<Seq<char>>, expected: Seq<ItemView>, n: int)
    requires
        0 <= n,
    ensures
        agreements(predicted, expected, n) <= n,
    decreases n,
{
    if n > 0 {
        lemma_agreements_bound(predicted, expected, n - 1);
    }
}

/// Counts the places at which the predicted label is the label of the item.
/// Places that only one of the two sequences has are not counted.
pub fn count_correct(predicted: &[String], expected: &[KnnItem]) -> (count: usize)
    ensures
        count == agreements(
            string_views(predicted@),
            item_views(expected@),
            if predicted.len() <= expected.len() {
                predicted.len() as int
            } else {
                expected.len() as int
            },
        ),
{
    let places = if predicted.len() <= expected.len() {
        predicted.len()
    } else {
        expected.len()
    };
    let ghost labels = string_views(predicted@);
    let ghost items = item_views(expected@);
    let mut count: usize = 0;
    let mut i: usize = 0;
    while i < places
        invariant
            i <= places,
            places <= predicted.len(),
            places <= expected.len(),
            labels == string_views(predicted@),
            items == item_views(expected@),
            count == agreements(labels, items, i as int),
        decreases places - i,
    {
        proof {
            lemma_agreements_bound(labels, items, i as int);
        }
        if predicted[i] == expected[i].label {
            count += 1;
        }
        i += 1;
    }
    count
}

impl KnnClassifier {
    /// Puts the stored points into a random order. The points stay the same,
    /// each as often as before, and so does the neighbour count.
    pub fn shuffle(&mut self)
        ensures
            final(self)@.k == old(self)@.k,
            final(self)@.points.to_multiset() == old(self)@.points.to_multiset(),
    {
        if self.items.len() >= 1 {
            shuffle_items(&mut self.items);
        }
    }
}

} // verus!
