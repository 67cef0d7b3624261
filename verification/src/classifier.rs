//! The classifier: labelled points, the number of neighbours asked, and the
//! vote among the nearest.

use vstd::prelude::*;
use vstd::slice::slice_to_vec;
use crate::binary64::{any_nan, is_nan, is_nan_bits, keys_of, order_key};
use crate::error::PredictError;
use crate::ranking::{is_ranking, lemma_ranking_exists, rank, ranking};
use crate::text::string_views;
use crate::vote::{leader, leader_of, leads_at, lemma_leader_exists, texts, winner};

verus! {

/// The neighbour count used where none is asked for.
pub const DEFAULT_K: usize = 5;

/// A labelled point. Each coordinate is the bit pattern of a binary64 number.
#[derive(Debug)]
pub struct KnnItem {
    pub label: String,
    pub data: Vec<u64>,
}

/// What a labelled point holds.
pub ghost struct ItemView {
    pub label: Seq<char>,
    pub data: Seq<u64>,
}

impl View for KnnItem {
    type V = ItemView;

    open spec fn view(&self) -> ItemView {
        ItemView { label: self.label@, data: self.data@ }
    }
}

impl Clone for KnnItem {
    fn clone(&self) -> (copy: KnnItem)
        ensures
            copy@ == self@,
    {
        KnnItem { label: self.label.clone(), data: self.data.clone() }
    }
}

/// What each of the items holds, in their order.
pub open spec fn item_views(items: Seq<KnnItem>) -> Seq<ItemView> {
    Seq::new(items.len(), |i: int| items[i]@)
}

/// The points that pairing coordinates and labels by position gives, as many
/// as the shorter of the two sequences has.
pub open spec fn paired(data: Seq<&[u64]>, labels: Seq<&str>) -> Seq<ItemView> {
    Seq::new(
        if data.len() <= labels.len() {
            data.len()
        } else {
            labels.len()
        },
        |i: int| ItemView { label: labels[i]@, data: data[i]@ },
    )
}

/// The neighbour count that a classifier keeps for a requested one: five in
/// place of zero, and the next odd number in place of an even one.
pub open spec fn normalized_k(k: usize) -> nat {
    let asked = if k > 0 {
        k as nat
    } else {
        DEFAULT_K as nat
    };
    if asked % 2 == 1 {
        asked
    } else {
        asked + 1
    }
}

/// A k-nearest-neighbour classifier: the neighbour count and the points
/// learned, in the order in which they were learned.
#[derive(Debug)]
pub struct KnnClassifier {
    pub k: usize,
    pub items: Vec<KnnItem>,
}

/// What a classifier holds: the neighbour count and the points in the order
/// in which they were learned.
pub ghost struct ClassifierView {
    pub k: nat,
    pub points: Seq<ItemView>,
}

impl ClassifierView {
    /// The neighbour count is odd, hence positive. A new classifier is well
    /// formed, and learning keeps it so.
    pub open spec fn wf(self) -> bool {
        self.k % 2 == 1
    }

    /// How many neighbours vote: `k`, or all points where there are fewer.
    pub open spec fn voters(self) -> nat {
        if self.k <= self.points.len() {
            self.k
        } else {
            self.points.len()
        }
    }

    /// The positions of the points that vote, nearest first; of points equally
    /// far the one learned first comes first. `distances[i]` is the distance
    /// from the query to point `i`.
    pub open spec fn neighbours(self, distances: Seq<u64>) -> Seq<usize> {
        ranking(keys_of(distances)).take(self.voters() as int)
    }

    /// The labels of the points that vote, nearest first.
    pub open spec fn ballot(self, distances: Seq<u64>) -> Seq<Seq<char>> {
        Seq::new(
            self.voters(),
            |p: int| self.points[self.neighbours(distances)[p] as int].label,
        )
    }

    /// The outcome of a prediction: the label with the most votes among the
    /// nearest points, of several such the one whose first vote came from the
    /// nearest point. There is none where no point votes, where the distances
    /// are not one for each point, or where one is not a number. In a well
    /// formed classifier a point votes as soon as one is stored.
    pub open spec fn prediction(self, distances: Seq<u64>) -> Result<Seq<char>, PredictError> {
        if self.voters() == 0 {
            Err(PredictError::EmptyModel)
        } else if distances.len() != self.points.len() {
            Err(PredictError::LengthMismatch)
        } else if any_nan(distances) {
            Err(PredictError::InvalidDistance)
        } else {
            Ok(winner(self.ballot(distances)))
        }
    }
}

/// The distances of each row, row by row.
pub open spec fn row_views(rows: Seq<Vec<u64>>) -> Seq<Seq<u64>> {
    Seq::new(rows.len(), |i: int| rows[i]@)
}

impl ClassifierView {
    /// Every row has a prediction, and `labels` holds them row by row.
    pub open spec fn predicts_all(self, rows: Seq<Seq<u64>>, labels: Seq<Seq<char>>) -> bool {
        &&& labels.len() == rows.len()
        &&& forall|i: int|
            0 <= i < rows.len() ==> self.prediction(#[trigger] rows[i]) == Ok::<Seq<char>, PredictError>(
                labels[i],
            )
    }

    /// Row `at` is the first without a prediction, and `e` is why.
    pub open spec fn refuses_at(self, rows: Seq<Seq<u64>>, at: int, e: PredictError) -> bool {
        &&& 0 <= at < rows.len()
        &&& self.prediction(rows[at]) == Err::<Seq<char>, PredictError>(e)
        &&& forall|i: int| 0 <= i < at ==> self.prediction(#[trigger] rows[i]) is Ok
    }
}

impl View for KnnClassifier {
    type V = ClassifierView;

    open spec fn view(&self) -> ClassifierView {
        ClassifierView { k: self.k as nat, points: item_views(self.items@) }
    }
}

impl Clone for KnnClassifier {
    fn clone(&self) -> (copy: KnnClassifier)
        ensures
            copy@ == self@,
    {
        let mut items: Vec<KnnItem> = Vec::new();
        let mut i: usize = 0;
        while i < self.items.len()
            invariant
                i <= self.items.len(),
                items.len() == i,
                forall|j: int| 0 <= j < i ==> (#[trigger] items[j])@ == self.items[j]@,
            decreases self.items.len() - i,
        {
            items.push(self.items[i].clone());
            i += 1;
        }
        assert(item_views(items@) =~= item_views(self.items@));
        KnnClassifier { k: self.k, items }
    }
}

impl KnnClassifier {
    /// A classifier without points. The neighbour count asked for is
    /// normalized: zero becomes five, an even count the next odd one.
    pub fn new(k: usize) -> (classifier: KnnClassifier)
        ensures
            classifier@.k == normalized_k(k),
            classifier@.points == Seq::<ItemView>::empty(),
            classifier@.wf(),
    {
        let asked = if k > 0 {
            k
        } else {
            DEFAULT_K
        };
        let k = if asked % 2 == 1 {
            asked
        } else {
            assert(asked < usize::MAX) by {
                assert(usize::MAX % 2 == 1) by {
                    assert(usize::MAX == 0xffff_ffff || usize::MAX == 0xffff_ffff_ffff_ffff);
                }
            }
            asked + 1
        };
        let classifier = KnnClassifier { k, items: Vec::new() };
        assert(classifier@.points =~= Seq::<ItemView>::empty());
        classifier
    }

    /// Learns one point.
    pub fn fit_one(&mut self, data: &[u64], label: &str)
        ensures
            final(self)@.k == old(self)@.k,
            final(self)@.points == old(self)@.points.push(ItemView { label: label@, data: data@ }),
    {
        let item = KnnItem { label: label.to_owned(), data: slice_to_vec(data) };
        self.items.push(item);
        assert(self@.points =~= old(self)@.points.push(ItemView { label: label@, data: data@ }));
    }

    /// Learns the points that coordinates and labels give when paired by
    /// position. Where one sequence is longer, what has no partner is left
    /// out.
    pub fn fit(&mut self, data: &[&[u64]], labels: &[&str])
        ensures
            final(self)@.k == old(self)@.k,
            final(self)@.points == old(self)@.points + paired(data@, labels@),
    {
        let count = if data.len() <= labels.len() {
            data.len()
        } else {
            labels.len()
        };
        let mut i: usize = 0;
        while i < count
            invariant
                i <= count,
                count == paired(data@, labels@).len(),
                count <= data.len(),
                count <= labels.len(),
                self@.k == old(self)@.k,
                self@.points == old(self)@.points + paired(data@, labels@).take(i as int),
            decreases count - i,
        {
            self.fit_one(data[i], labels[i]);
            assert(paired(data@, labels@).take(i + 1) =~= paired(data@, labels@).take(i as int).push(
                ItemView { label: labels@[i as int]@, data: data@[i as int]@ },
            ));
            i += 1;
        }
        assert(paired(data@, labels@).take(count as int) =~= paired(data@, labels@));
    }

    /// Names the label of a query point from its distances to the stored
    /// points: `distances[i]` is the bit pattern of the distance to point `i`.
    /// The nearest `k` points vote, or all where fewer are stored. Points
    /// equally far rank in the order in which they were learned, and of labels
    /// with equally many votes the one met first among the nearest wins.
    pub fn predict_one(&self, distances: &[u64]) -> (outcome: Result<String, PredictError>)
        ensures
            match outcome {
                Ok(label) => self@.prediction(distances@) == Ok::<Seq<char>, PredictError>(label@),
                Err(e) => self@.prediction(distances@) == Err::<Seq<char>, PredictError>(e),
            },
    {
        let n = self.items.len();
        if n == 0 || self.k == 0 {
            return Err(PredictError::EmptyModel);
        }
        if distances.len() != n {
            return Err(PredictError::LengthMismatch);
        }
        let mut keys: Vec<u64> = Vec::new();
        let mut i: usize = 0;
        while i < n
            invariant
                i <= n,
                0 < n == self.items.len(),
                0 < self.k,
                n == distances.len(),
                keys@ == keys_of(distances@).take(i as int),
                forall|j: int| 0 <= j < i ==> !is_nan(#[trigger] distances@[j]),
            decreases n - i,
        {
            if is_nan_bits(distances[i]) {
                assert(is_nan(distances@[i as int]));
                return Err(PredictError::InvalidDistance);
            }
            keys.push(order_key(distances[i]));
            assert(keys@ =~= keys_of(distances@).take(i + 1));
            i += 1;
        }
        assert(keys@ =~= keys_of(distances@));
        let order = rank(&keys);
        let voters = if self.k <= n {
            self.k
        } else {
            n
        };
        let mut ballot: Vec<&String> = Vec::new();
        let mut p: usize = 0;
        while p < voters
            invariant
                p <= voters,
                voters == self@.voters(),
                voters <= n,
                n == self.items.len(),
                order.len() == n,
                order@ == ranking(keys_of(distances@)),
                forall|q: int| 0 <= q < order.len() ==> #[trigger] order[q] < n,
                ballot.len() == p,
                forall|q: int| 0 <= q < p ==> (#[trigger] ballot[q])@ == self@.ballot(distances@)[q],
            decreases voters - p,
        {
            ballot.push(&self.items[order[p]].label);
            p += 1;
        }
        assert(texts(ballot@) =~= self@.ballot(distances@));
        match leader(&ballot) {
            Some(w) => Ok(ballot[w].clone()),
            None => Err(PredictError::EmptyModel),
        }
    }

    /// Names the label of each query point in turn, each from its row of
    /// distances to the stored points. If a row has no prediction, the reason
    /// for the first such row is returned.
    pub fn predict(&self, rows: &[Vec<u64>]) -> (outcome: Result<Vec<String>, PredictError>)
        ensures
            match outcome {
                Ok(labels) => self@.predicts_all(row_views(rows@), string_views(labels@)),
                Err(e) => exists|at: int| self@.refuses_at(row_views(rows@), at, e),
            },
    {
        let mut labels: Vec<String> = Vec::new();
        let mut i: usize = 0;
        while i < rows.len()
            invariant
                i <= rows.len(),
                labels.len() == i,
                forall|j: int|
                    0 <= j < i ==> self@.prediction(#[trigger] row_views(rows@)[j]) == Ok::<
                        Seq<char>,
                        PredictError,
                    >(labels[j]@),
            decreases rows.len() - i,
        {
            match self.predict_one(rows[i].as_slice()) {
                Ok(label) => {
                    labels.push(label);
                },
                Err(e) => {
                    assert(self@.refuses_at(row_views(rows@), i as int, e));
                    return Err(e);
                },
            }
            i += 1;
        }
        Ok(labels)
    }
}

/// Equal classifiers name the same label for equal distances.
pub proof fn law_prediction_is_determined(
    a: ClassifierView,
    b: ClassifierView,
    to_a: Seq<u64>,
    to_b: Seq<u64>,
)
    requires
        a.k == b.k,
        a.points == b.points,
        to_a == to_b,
    ensures
        a.prediction(to_a) == b.prediction(to_b),
{
}

/// A classifier with fewer points than neighbours asked still names a label,
/// and all its points vote.
pub proof fn law_few_points_all_vote(store: ClassifierView, distances: Seq<u64>)
    requires
        0 < store.points.len() < store.k,
        store.points.len() <= usize::MAX,
        distances.len() == store.points.len(),
        !any_nan(distances),
    ensures
        store.prediction(distances) is Ok,
        store.voters() == store.points.len(),
        is_ranking(keys_of(distances), store.neighbours(distances)),
{
    lemma_ranking_exists(keys_of(distances));
    let order = ranking(keys_of(distances));
    assert(order.take(order.len() as int) =~= order);
}

/// The label named has the most votes among the points that vote, and more
/// votes than every label whose first vote came from a nearer point.
pub proof fn law_prediction_leads(store: ClassifierView, distances: Seq<u64>)
    requires
        store.prediction(distances) is Ok,
    ensures
        leads_at(store.ballot(distances), leader_of(store.ballot(distances))),
        store.prediction(distances) == Ok::<Seq<char>, PredictError>(
            store.ballot(distances)[leader_of(store.ballot(distances))],
        ),
{
    lemma_leader_exists(store.ballot(distances));
}

} // verus!
