//! Majority vote over a ballot of labels, with a deterministic rule for ties.

use vstd::prelude::*;

verus! {

/// How often `label` occurs in the ballot.
pub open spec fn tally(ballot: Seq<Seq<char>>, label: Seq<char>) -> nat
    decreases ballot.len(),
{
    if ballot.len() == 0 {
        0
    } else {
        tally(ballot.drop_last(), label) + if ballot.last() == label {
            1nat
        } else {
            0nat
        }
    }
}

/// The label cast at position `w` wins: no label was cast more often, and
/// every label cast before `w` was cast less often. So among the labels with
/// the most votes the one that was cast first wins.
pub open spec fn leads_at(ballot: Seq<Seq<char>>, w: int) -> bool {
    &&& 0 <= w < ballot.len()
    &&& forall|q: int|
        0 <= q < ballot.len() ==> tally(ballot, #[trigger] ballot[q]) <= tally(ballot, ballot[w])
    &&& forall|q: int| 0 <= q < w ==> tally(ballot, #[trigger] ballot[q]) < tally(ballot, ballot[w])
}

/// The position at which the winning label was first cast. A ballot with at
/// least one vote has exactly one: see [`lemma_leader_unique`] and [`leader`].
pub open spec fn leader_of(ballot: Seq<Seq<char>>) -> int {
    choose|w: int| leads_at(ballot, w)
}

/// The winning label of a ballot with at least one vote.
pub open spec fn winner(ballot: Seq<Seq<char>>) -> Seq<char> {
    ballot[leader_of(ballot)]
}

/// The labels of a ballot of strings.
pub open spec fn texts(ballot: Seq<&String>) -> Seq<Seq<char>> {
    Seq::new(ballot.len(), |i: int| ballot[i]@)
}

/// At most one position leads a ballot.
pub proof fn lemma_leader_unique(ballot: Seq<Seq<char>>, v: int, w: int)
    requires
        leads_at(ballot, v),
        leads_at(ballot, w),
    ensures
        v == w,
{
    if v < w {
        assert(tally(ballot, ballot[v]) < tally(ballot, ballot[w]));
        assert(tally(ballot, ballot[w]) <= tally(ballot, ballot[v]));
    } else if w < v {
        assert(tally(ballot, ballot[w]) < tally(ballot, ballot[v]));
        assert(tally(ballot, ballot[v]) <= tally(ballot, ballot[w]));
    }
}

/// Among the first `n` votes one leads: its label has the most votes among
/// theirs, and more than the labels cast before it.
proof fn lemma_leader_among(ballot: Seq<Seq<char>>, n: int) -> (w: int)
    requires
        0 < n <= ballot.len(),
    ensures
        0 <= w < n,
        forall|q: int| 0 <= q < n ==> tally(ballot, #[trigger] ballot[q]) <= tally(ballot, ballot[w]),
        forall|q: int| 0 <= q < w ==> tally(ballot, #[trigger] ballot[q]) < tally(ballot, ballot[w]),
    decreases n,
{
    if n == 1 {
        0
    } else {
        let before = lemma_leader_among(ballot, n - 1);
        if tally(ballot, ballot[n - 1]) > tally(ballot, ballot[before]) {
            n - 1
        } else {
            before
        }
    }
}

/// A ballot with at least one vote has a leader, and `leader_of` is it.
pub proof fn lemma_leader_exists(ballot: Seq<Seq<char>>)
    requires
        ballot.len() > 0,
    ensures
        leads_at(ballot, leader_of(ballot)),
{
    let w = lemma_leader_among(ballot, ballot.len() as int);
    assert(leads_at(ballot, w));
}

/// A label is counted at most once for each vote, and not at all where it
/// was never cast.
pub proof fn lemma_tally_bounds(ballot: Seq<Seq<char>>, label: Seq<char>)
    ensures
        tally(ballot, label) <= ballot.len(),
        (forall|q: int| 0 <= q < ballot.len() ==> ballot[q] != label) ==> tally(ballot, label) == 0,
    decreases ballot.len(),
{
    if ballot.len() > 0 {
        lemma_tally_bounds(ballot.drop_last(), label);
        if forall|q: int| 0 <= q < ballot.len() ==> ballot[q] != label {
            assert forall|q: int| 0 <= q < ballot.drop_last().len() implies ballot.drop_last()[q]
                != label by {
                assert(ballot.drop_last()[q] == ballot[q]);
            }
            assert(ballot.last() == ballot[ballot.len() - 1]);
        }
    }
}

/// Counting one vote more adds one to the label cast and nothing to the
/// others.
pub proof fn lemma_tally_step(ballot: Seq<Seq<char>>, t: int, label: Seq<char>)
    requires
        0 <= t < ballot.len(),
    ensures
        tally(ballot.take(t + 1), label) == tally(ballot.take(t), label) + if ballot[t] == label {
            1nat
        } else {
            0nat
        },
{
    assert(ballot.take(t + 1).drop_last() =~= ballot.take(t));
    assert(ballot.take(t + 1).last() == ballot[t]);
}

/// The books of a count in progress, after `t` votes: `firsts` holds the
/// position of the first vote for each label met, in the order met, `counts`
/// the votes for it so far, and `slot` says for each vote counted which entry
/// of the books it went to.
spec fn tallied(
    cast: Seq<Seq<char>>,
    firsts: Seq<usize>,
    counts: Seq<usize>,
    slot: Seq<int>,
    t: int,
) -> bool {
    &&& 0 <= t <= cast.len()
    &&& firsts.len() == counts.len()
    &&& slot.len() == t
    &&& forall|j: int| 0 <= j < firsts.len() ==> #[trigger] firsts[j] < t
    &&& forall|i: int, j: int| 0 <= i < j < firsts.len() ==> #[trigger] firsts[i] < #[trigger] firsts[j]
    &&& forall|i: int, j: int|
        0 <= i < firsts.len() && 0 <= j < firsts.len() && i != j ==> cast[#[trigger] firsts[i] as int]
            != cast[#[trigger] firsts[j] as int]
    &&& forall|q: int|
        0 <= q < t ==> 0 <= #[trigger] slot[q] < firsts.len() && firsts[slot[q]] <= q
            && cast[firsts[slot[q]] as int] == cast[q]
    &&& forall|j: int|
        0 <= j < firsts.len() ==> #[trigger] counts[j] == tally(cast.take(t), cast[firsts[j] as int])
}

/// Counting a vote for a label not met before opens a new entry with one
/// vote.
proof fn lemma_count_new(
    cast: Seq<Seq<char>>,
    firsts: Seq<usize>,
    counts: Seq<usize>,
    slot: Seq<int>,
    t: usize,
)
    requires
        tallied(cast, firsts, counts, slot, t as int),
        t < cast.len(),
        forall|i: int| 0 <= i < firsts.len() ==> cast[#[trigger] firsts[i] as int] != cast[t as int],
    ensures
        tallied(cast, firsts.push(t), counts.push(1), slot.push(firsts.len() as int), t + 1),
{
    let firsts2 = firsts.push(t);
    let counts2 = counts.push(1);
    let slot2 = slot.push(firsts.len() as int);
    assert forall|q: int| 0 <= q < t implies cast.take(t as int)[q] != cast[t as int] by {
        assert(cast[firsts[slot[q]] as int] == cast[q]);
    }
    lemma_tally_bounds(cast.take(t as int), cast[t as int]);
    lemma_tally_step(cast, t as int, cast[t as int]);
    assert forall|j: int| 0 <= j < firsts2.len() implies #[trigger] counts2[j] == tally(
        cast.take(t + 1),
        cast[firsts2[j] as int],
    ) by {
        if j < firsts.len() {
            assert(firsts2[j] == firsts[j]);
            assert(counts2[j] == counts[j]);
            lemma_tally_step(cast, t as int, cast[firsts[j] as int]);
        }
    }
    assert forall|q: int| 0 <= q < t + 1 implies 0 <= #[trigger] slot2[q] < firsts2.len()
        && firsts2[slot2[q]] <= q && cast[firsts2[slot2[q]] as int] == cast[q] by {
        if q < t {
            assert(slot2[q] == slot[q]);
            assert(firsts2[slot[q]] == firsts[slot[q]]);
        }
    }
    assert forall|i: int, j: int|
        0 <= i < firsts2.len() && 0 <= j < firsts2.len() && i != j implies cast[#[trigger] firsts2[i] as int]
        != cast[#[trigger] firsts2[j] as int] by {
        if i < firsts.len() {
            assert(firsts2[i] == firsts[i]);
        }
        if j < firsts.len() {
            assert(firsts2[j] == firsts[j]);
        }
    }
}

/// Counting a vote for a label met before adds one to its entry.
proof fn lemma_count_known(
    cast: Seq<Seq<char>>,
    firsts: Seq<usize>,
    counts: Seq<usize>,
    slot: Seq<int>,
    t: usize,
    j: int,
)
    requires
        tallied(cast, firsts, counts, slot, t as int),
        t < cast.len() <= usize::MAX,
        0 <= j < firsts.len(),
        cast[firsts[j] as int] == cast[t as int],
    ensures
        counts[j] <= t,
        tallied(cast, firsts, counts.update(j, (counts[j] + 1) as usize), slot.push(j), t + 1),
{
    lemma_tally_bounds(cast.take(t as int), cast[firsts[j] as int]);
    let counts2 = counts.update(j, (counts[j] + 1) as usize);
    let slot2 = slot.push(j);
    assert forall|i: int| 0 <= i < firsts.len() implies #[trigger] counts2[i] == tally(
        cast.take(t + 1),
        cast[firsts[i] as int],
    ) by {
        lemma_tally_step(cast, t as int, cast[firsts[i] as int]);
        if i != j {
            assert(cast[firsts[i] as int] != cast[firsts[j] as int]);
        }
    }
    assert forall|q: int| 0 <= q < t + 1 implies 0 <= #[trigger] slot2[q] < firsts.len()
        && firsts[slot2[q]] <= q && cast[firsts[slot2[q]] as int] == cast[q] by {
        if q < t {
            assert(slot2[q] == slot[q]);
        }
    }
}

/// With all votes counted, the first entry of the books that no entry
/// exceeds marks the leader.
proof fn lemma_best_leads(
    cast: Seq<Seq<char>>,
    firsts: Seq<usize>,
    counts: Seq<usize>,
    slot: Seq<int>,
    best: int,
)
    requires
        tallied(cast, firsts, counts, slot, cast.len() as int),
        0 <= best < firsts.len(),
        forall|i: int| 0 <= i < firsts.len() ==> #[trigger] counts[i] <= counts[best],
        forall|i: int| 0 <= i < best ==> #[trigger] counts[i] < counts[best],
    ensures
        leads_at(cast, firsts[best] as int),
{
    let w = firsts[best] as int;
    assert(cast.take(cast.len() as int) =~= cast);
    assert forall|q: int| 0 <= q < cast.len() implies tally(cast, #[trigger] cast[q]) <= tally(
        cast,
        cast[w],
    ) by {
        assert(counts[slot[q]] <= counts[best]);
    }
    assert forall|q: int| 0 <= q < w implies tally(cast, #[trigger] cast[q]) < tally(cast, cast[w]) by {
        let i = slot[q];
        if i > best {
            assert(firsts[best] < firsts[i]);
        }
        assert(counts[i] < counts[best]);
    }
}

/// Finds the position that leads the ballot, if there is a vote at all. The
/// labels are tallied in the order of their first votes, each with the
/// position of its first vote.
pub fn leader(ballot: &Vec<&String>) -> (found: Option<usize>)
    ensures
        match found {
            Some(w) => leads_at(texts(ballot@), w as int) && w == leader_of(texts(ballot@)),
            None => ballot.len() == 0,
        },
{
    if ballot.len() == 0 {
        return None;
    }
    let ghost cast = texts(ballot@);
    let mut firsts: Vec<usize> = Vec::new();
    let mut counts: Vec<usize> = Vec::new();
    let ghost mut slot: Seq<int> = Seq::empty();
    let mut t: usize = 0;
    while t < ballot.len()
        invariant
            cast == texts(ballot@),
            ballot.len() > 0,
            tallied(cast, firsts@, counts@, slot, t as int),
        decreases ballot.len() - t,
    {
        let mut j: usize = 0;
        while j < firsts.len() && !(*ballot[firsts[j]] == *ballot[t])
            invariant
                cast == texts(ballot@),
                t < ballot.len(),
                j <= firsts.len(),
                forall|i: int| 0 <= i < firsts.len() ==> #[trigger] firsts[i] < t,
                forall|i: int| 0 <= i < j ==> cast[#[trigger] firsts[i] as int] != cast[t as int],
            decreases firsts.len() - j,
        {
            j += 1;
        }
        if j == firsts.len() {
            proof {
                lemma_count_new(cast, firsts@, counts@, slot, t);
                slot = slot.push(firsts.len() as int);
            }
            firsts.push(t);
            counts.push(1);
        } else {
            proof {
                lemma_count_known(cast, firsts@, counts@, slot, t, j as int);
                slot = slot.push(j as int);
            }
            let count = counts[j];
            counts.set(j, count + 1);
        }
        t += 1;
    }
    assert(0 <= slot[0] < firsts.len());
    let mut best: usize = 0;
    let mut j: usize = 1;
    while j < firsts.len()
        invariant
            firsts.len() == counts.len(),
            best < j <= firsts.len(),
            forall|i: int| 0 <= i < j ==> #[trigger] counts[i] <= counts[best as int],
            forall|i: int| 0 <= i < best ==> #[trigger] counts[i] < counts[best as int],
        decreases firsts.len() - j,
    {
        if counts[j] > counts[best] {
            best = j;
        }
        j += 1;
    }
    let w = firsts[best];
    proof {
        lemma_best_leads(cast, firsts@, counts@, slot, best as int);
        assert(leads_at(cast, leader_of(cast)));
        lemma_leader_unique(cast, w as int, leader_of(cast));
    }
    Some(w)
}

} // verus!
