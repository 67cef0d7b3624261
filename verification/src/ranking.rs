//! Ranking of positions by key: ascending keys, equal keys in the order in
//! which they were given.

use vstd::prelude::*;

verus! {

/// Position `i` comes before position `j`: its key is smaller, or the keys
/// are equal and `i` was given first.
pub open spec fn precedes(keys: Seq<u64>, i: int, j: int) -> bool {
    keys[i] < keys[j] || (keys[i] == keys[j] && i < j)
}

/// `order` lists positions from `lo` up to `hi`, as many as there are, each
/// before all that follow it.
pub open spec fn ranks_range(keys: Seq<u64>, order: Seq<usize>, lo: int, hi: int) -> bool {
    &&& order.len() == hi - lo
    &&& forall|p: int| 0 <= p < order.len() ==> lo <= #[trigger] order[p] < hi
    &&& forall|p: int, q: int|
        0 <= p < q < order.len() ==> precedes(keys, #[trigger] order[p] as int, #[trigger] order[q] as int)
}

/// `order` lists all positions of `keys`, each before all that follow it.
pub open spec fn is_ranking(keys: Seq<u64>, order: Seq<usize>) -> bool {
    ranks_range(keys, order, 0, keys.len() as int)
}

/// The ranking of `keys`. There is exactly one: see
/// [`lemma_ranking_unique`] and [`rank`].
pub open spec fn ranking(keys: Seq<u64>) -> Seq<usize> {
    choose|order: Seq<usize>| is_ranking(keys, order)
}

/// Every position occurs in a ranking.
pub proof fn lemma_ranking_covers(keys: Seq<u64>, order: Seq<usize>, x: int)
    requires
        is_ranking(keys, order),
        0 <= x < keys.len(),
    ensures
        exists|p: int| 0 <= p < order.len() && #[trigger] order[p] == x,
{
    let positions = Seq::new(order.len(), |p: int| order[p] as int);
    assert forall|p: int, q: int| 0 <= p < positions.len() && 0 <= q < positions.len() && p != q implies positions[p] != positions[q] by {
        if p < q {
            assert(precedes(keys, order[p] as int, order[q] as int));
        } else {
            assert(precedes(keys, order[q] as int, order[p] as int));
        }
    }
    assert(positions.no_duplicates());
    positions.unique_seq_to_set();
    let all = vstd::set_lib::set_int_range(0, keys.len() as int);
    vstd::set_lib::lemma_int_range(0, keys.len() as int);
    assert forall|v: int| positions.to_set().contains(v) implies all.contains(v) by {
        let p = choose|p: int| 0 <= p < positions.len() && positions[p] == v;
        assert(0 <= order[p] < keys.len());
    }
    assert(positions.to_set().subset_of(all));
    vstd::set_lib::lemma_len_subset(positions.to_set(), all);
    vstd::set_lib::lemma_subset_equality(positions.to_set(), all);
    assert(all.contains(x));
    assert(positions.to_set().contains(x));
    let p = choose|p: int| 0 <= p < positions.len() && positions[p] == x;
    assert(order[p] == x);
}

/// Two rankings of the same keys are the same sequence.
pub proof fn lemma_ranking_unique(keys: Seq<u64>, a: Seq<usize>, b: Seq<usize>)
    requires
        is_ranking(keys, a),
        is_ranking(keys, b),
    ensures
        a == b,
{
    assert forall|p: int| 0 <= p < a.len() implies a[p] == b[p] by {
        lemma_same_up_to(keys, a, b, p);
    }
    assert(a =~= b);
}

proof fn lemma_same_up_to(keys: Seq<u64>, a: Seq<usize>, b: Seq<usize>, p: int)
    requires
        is_ranking(keys, a),
        is_ranking(keys, b),
        0 <= p < a.len(),
    ensures
        a[p] == b[p],
    decreases p,
{
    assert forall|r: int| 0 <= r < p implies a[r] == b[r] by {
        lemma_same_up_to(keys, a, b, r);
    }
    lemma_ranking_covers(keys, b, a[p] as int);
    let q = choose|q: int| 0 <= q < b.len() && b[q] == a[p] as int;
    lemma_ranking_covers(keys, a, b[p] as int);
    let t = choose|t: int| 0 <= t < a.len() && a[t] == b[p] as int;
    if q < p {
        assert(a[q] == b[q]);
        assert(precedes(keys, a[q] as int, a[p] as int));
    } else if q > p {
        assert(precedes(keys, b[p] as int, b[q] as int));
        if t < p {
            assert(a[t] == b[t]);
            assert(precedes(keys, b[t] as int, b[p] as int));
        } else if t > p {
            assert(precedes(keys, a[p] as int, a[t] as int));
        }
    }
}

/// How many of the first `upto` entries of a ranked list stay in front of a
/// new position with the given key that was given after all of them: those
/// whose keys are not larger.
proof fn lemma_slot(keys: Seq<u64>, order: Seq<usize>, key: u64, upto: int) -> (slot: int)
    requires
        0 <= upto <= order.len(),
    ensures
        0 <= slot <= upto,
        forall|i: int| 0 <= i < slot ==> keys[#[trigger] order[i] as int] <= key,
        slot < upto ==> keys[order[slot] as int] > key,
    decreases upto,
{
    if upto == 0 {
        0
    } else {
        let before = lemma_slot(keys, order, key, upto - 1);
        if before < upto - 1 {
            before
        } else if keys[order[upto - 1] as int] <= key {
            upto
        } else {
            upto - 1
        }
    }
}

/// The first `n` positions have a ranking.
proof fn lemma_rank_prefix(keys: Seq<u64>, n: int) -> (order: Seq<usize>)
    requires
        0 <= n <= keys.len(),
        n <= usize::MAX,
    ensures
        ranks_range(keys, order, 0, n),
    decreases n,
{
    if n == 0 {
        Seq::empty()
    } else {
        let before = lemma_rank_prefix(keys, n - 1);
        let x = (n - 1) as usize;
        let slot = lemma_slot(keys, before, keys[x as int], before.len() as int);
        let order = before.insert(slot, x);
        assert forall|p: int, q: int| 0 <= p < q < order.len() implies precedes(
            keys,
            #[trigger] order[p] as int,
            #[trigger] order[q] as int,
        ) by {
            if q < slot {
                assert(order[p] == before[p] && order[q] == before[q]);
            } else if q == slot {
                assert(order[p] == before[p]);
                assert(keys[before[p] as int] <= keys[x as int]);
            } else if p < slot {
                assert(order[p] == before[p] && order[q] == before[q - 1]);
            } else if p == slot {
                assert(order[q] == before[q - 1]);
                if slot < q - 1 {
                    assert(precedes(keys, before[slot] as int, before[q - 1] as int));
                }
            } else {
                assert(order[p] == before[p - 1] && order[q] == before[q - 1]);
            }
        }
        assert forall|p: int| 0 <= p < order.len() implies 0 <= #[trigger] order[p] < n by {
            if p < slot {
                assert(order[p] == before[p]);
            } else if p > slot {
                assert(order[p] == before[p - 1]);
            }
        }
        order
    }
}

/// Keys whose positions can be counted have a ranking, and `ranking` is it.
pub proof fn lemma_ranking_exists(keys: Seq<u64>)
    requires
        keys.len() <= usize::MAX,
    ensures
        is_ranking(keys, ranking(keys)),
{
    let order = lemma_rank_prefix(keys, keys.len() as int);
    assert(is_ranking(keys, order));
}

/// Merges two ranked ranges that lie side by side into one.
fn merge(
    keys: &Vec<u64>,
    left: &Vec<usize>,
    right: &Vec<usize>,
    Ghost(lo): Ghost<int>,
    Ghost(mid): Ghost<int>,
    Ghost(hi): Ghost<int>,
) -> (merged: Vec<usize>)
    requires
        0 <= lo <= mid <= hi <= keys.len(),
        ranks_range(keys@, left@, lo, mid),
        ranks_range(keys@, right@, mid, hi),
    ensures
        ranks_range(keys@, merged@, lo, hi),
{
    let mut merged: Vec<usize> = Vec::new();
    let mut i: usize = 0;
    let mut j: usize = 0;
    while i < left.len() || j < right.len()
        invariant
            0 <= lo <= mid <= hi <= keys.len(),
            ranks_range(keys@, left@, lo, mid),
            ranks_range(keys@, right@, mid, hi),
            i <= left.len(),
            j <= right.len(),
            merged.len() == i + j,
            forall|p: int| 0 <= p < merged.len() ==> lo <= #[trigger] merged[p] < hi,
            forall|p: int, q: int|
                0 <= p < q < merged.len() ==> precedes(
                    keys@,
                    #[trigger] merged[p] as int,
                    #[trigger] merged[q] as int,
                ),
            forall|p: int, x: int|
                0 <= p < merged.len() && i <= x < left.len() ==> precedes(
                    keys@,
                    #[trigger] merged[p] as int,
                    #[trigger] left[x] as int,
                ),
            forall|p: int, y: int|
                0 <= p < merged.len() && j <= y < right.len() ==> precedes(
                    keys@,
                    #[trigger] merged[p] as int,
                    #[trigger] right[y] as int,
                ),
        decreases left.len() - i + right.len() - j,
    {
        let from_left = if i < left.len() && j < right.len() {
            keys[left[i]] <= keys[right[j]]
        } else {
            i < left.len()
        };
        let ghost before = merged@;
        if from_left {
            let x = left[i];
            merged.push(x);
            proof {
                assert forall|y: int| j <= y < right.len() implies precedes(
                    keys@,
                    x as int,
                    #[trigger] right[y] as int,
                ) by {
                    assert(mid <= right[y]);
                    if y > j {
                        assert(precedes(keys@, right[j as int] as int, right[y] as int));
                    }
                }
                assert forall|x2: int| i + 1 <= x2 < left.len() implies precedes(
                    keys@,
                    x as int,
                    #[trigger] left[x2] as int,
                ) by {
                    assert(precedes(keys@, left[i as int] as int, left[x2] as int));
                }
            }
            i += 1;
        } else {
            let y = right[j];
            merged.push(y);
            proof {
                assert forall|x: int| i <= x < left.len() implies precedes(
                    keys@,
                    y as int,
                    #[trigger] left[x] as int,
                ) by {
                    assert(left[x] < mid);
                    if x > i {
                        assert(precedes(keys@, left[i as int] as int, left[x] as int));
                    }
                }
                assert forall|y2: int| j + 1 <= y2 < right.len() implies precedes(
                    keys@,
                    y as int,
                    #[trigger] right[y2] as int,
                ) by {
                    assert(precedes(keys@, right[j as int] as int, right[y2] as int));
                }
            }
            j += 1;
        }
        assert(forall|p: int| 0 <= p < before.len() ==> merged[p] == before[p]);
    }
    merged
}

/// Ranks the positions from `lo` up to `hi` by merging the rankings of the
/// two halves.
fn rank_range(keys: &Vec<u64>, lo: usize, hi: usize) -> (order: Vec<usize>)
    requires
        lo <= hi <= keys.len(),
    ensures
        ranks_range(keys@, order@, lo as int, hi as int),
    decreases hi - lo,
{
    let mut order: Vec<usize> = Vec::new();
    if hi - lo == 0 {
        order
    } else if hi - lo == 1 {
        order.push(lo);
        order
    } else {
        let mid = lo + (hi - lo) / 2;
        let left = rank_range(keys, lo, mid);
        let right = rank_range(keys, mid, hi);
        merge(keys, &left, &right, Ghost(lo as int), Ghost(mid as int), Ghost(hi as int))
    }
}

/// Ranks all positions of `keys`: ascending keys, equal keys in the order
/// given. The number of key comparisons grows as `n log n`.
pub fn rank(keys: &Vec<u64>) -> (order: Vec<usize>)
    ensures
        is_ranking(keys@, order@),
        order@ == ranking(keys@),
{
    let order = rank_range(keys, 0, keys.len());
    proof {
        assert(is_ranking(keys@, order@));
        assert(is_ranking(keys@, ranking(keys@)));
        lemma_ranking_unique(keys@, order@, ranking(keys@));
    }
    order
}

} // verus!
