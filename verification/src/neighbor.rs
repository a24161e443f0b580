use vstd::prelude::*;
use crate::descriptor::hamming_distance;

verus! {

/// One answer to a nearest-neighbour query: the position of a reference
/// descriptor and its distance from the probe.
#[derive(Clone, Copy, Debug, PartialEq, Eq, Structural)]
pub struct Neighbor {
    pub index: usize,
    pub distance: u32,
}

/// `e` comes before a record of the given distance and position: it is nearer,
/// or as near at a lower position.
pub open spec fn outranks(e: Neighbor, distance: nat, index: int) -> bool {
    e.distance < distance || (e.distance == distance && e.index < index)
}

/// `a` comes before `b` in a ranking.
pub open spec fn ranks_before(a: Neighbor, b: Neighbor) -> bool {
    outranks(a, b.distance as nat, b.index as int)
}

/// `e` names a descriptor of `reference` and carries its distance from `probe`.
pub open spec fn describes(e: Neighbor, reference: Seq<Seq<u8>>, probe: Seq<u8>) -> bool {
    e.index < reference.len() && e.distance == hamming_distance(probe, reference[e.index as int])
}

/// Reference position `j` is among the answers.
pub open spec fn lists(found: Seq<Neighbor>, j: int) -> bool {
    exists|i: int| 0 <= i < found.len() && (#[trigger] found[i]).index == j
}

/// Distances never decrease along `s`.
pub open spec fn ascending(s: Seq<Neighbor>) -> bool {
    forall|i: int, j: int|
        0 <= i < j < s.len() ==> (#[trigger] s[i]).distance <= (#[trigger] s[j]).distance
}

/// No reference position occurs twice in `s`.
pub open spec fn distinct_positions(s: Seq<Neighbor>) -> bool {
    forall|i: int, j: int|
        0 <= i < j < s.len() ==> (#[trigger] s[i]).index != (#[trigger] s[j]).index
}

/// Entries come in strict ranking order.
pub open spec fn strictly_ranked(s: Seq<Neighbor>) -> bool {
    forall|i: int, j: int| 0 <= i < j < s.len() ==> ranks_before(#[trigger] s[i], #[trigger] s[j])
}

/// A nearest set in distance order: `found` holds `k` distinct reference
/// positions with their distances, nearest first, and no position left out is
/// nearer than the last one listed. Which of several equally distant positions
/// are listed, and in which order, is left open.
pub open spec fn nearest_by_distance(
    found: Seq<Neighbor>,
    reference: Seq<Seq<u8>>,
    probe: Seq<u8>,
    k: nat,
) -> bool {
    &&& found.len() == k
    &&& forall|i: int| 0 <= i < found.len() ==> describes(#[trigger] found[i], reference, probe)
    &&& ascending(found)
    &&& distinct_positions(found)
    &&& forall|j: int|
        0 <= j < reference.len() && k > 0 && !lists(found, j) ==> found[k - 1].distance
            <= hamming_distance(probe, #[trigger] reference[j])
}

/// The ranking of the `k` nearest: `found` holds the `k` reference positions
/// that come first when all are ordered by distance from `probe` and, at equal
/// distance, by position; it holds them in that order, each with its distance.
/// Where the reference set has fewer than `k` descriptors, it holds them all.
pub open spec fn is_ranking(
    found: Seq<Neighbor>,
    reference: Seq<Seq<u8>>,
    probe: Seq<u8>,
    k: nat,
) -> bool {
    &&& found.len() == if k <= reference.len() { k } else { reference.len() }
    &&& forall|i: int| 0 <= i < found.len() ==> describes(#[trigger] found[i], reference, probe)
    &&& strictly_ranked(found)
    &&& forall|j: int|
        0 <= j < reference.len() && found.len() > 0 && !lists(found, j) ==> outranks(
            found.last(),
            hamming_distance(probe, #[trigger] reference[j]),
            j,
        )
}

/// Answers come in order: distances never decrease along a ranking, and among
/// equal distances positions increase.
pub proof fn lemma_ranking_ordered(
    found: Seq<Neighbor>,
    reference: Seq<Seq<u8>>,
    probe: Seq<u8>,
    k: nat,
)
    requires
        is_ranking(found, reference, probe, k),
    ensures
        forall|i: int, j: int|
            0 <= i < j < found.len() ==> (#[trigger] found[i]).distance <= (#[trigger] found[j]).distance,
        forall|i: int, j: int|
            0 <= i < j < found.len() && (#[trigger] found[i]).distance == (#[trigger] found[j]).distance
                ==> found[i].index < found[j].index,
{
    assert forall|i: int, j: int| 0 <= i < j < found.len() implies (#[trigger] found[i]).distance
        <= (#[trigger] found[j]).distance && (found[i].distance == found[j].distance
        ==> found[i].index < found[j].index) by {
        assert(ranks_before(found[i], found[j]));
    }
}

/// A ranking is a nearest set: nothing left out is nearer than what is listed.
pub proof fn lemma_ranking_is_nearest(
    found: Seq<Neighbor>,
    reference: Seq<Seq<u8>>,
    probe: Seq<u8>,
    k: nat,
)
    requires
        is_ranking(found, reference, probe, k),
        k <= reference.len(),
    ensures
        nearest_by_distance(found, reference, probe, k),
{
    assert forall|i: int, j: int| 0 <= i < j < found.len() implies (#[trigger] found[i]).distance
        <= (#[trigger] found[j]).distance && found[i].index != found[j].index by {
        assert(ranks_before(found[i], found[j]));
    }
}

/// In two rankings of one query that agree before position `q`, the entry of
/// the first at `q` does not come before that of the second.
proof fn lemma_not_earlier(
    a: Seq<Neighbor>,
    b: Seq<Neighbor>,
    reference: Seq<Seq<u8>>,
    probe: Seq<u8>,
    k: nat,
    q: int,
)
    requires
        is_ranking(a, reference, probe, k),
        is_ranking(b, reference, probe, k),
        0 <= q < a.len(),
        forall|i: int| 0 <= i < q ==> a[i] == b[i],
    ensures
        !ranks_before(a[q], b[q]),
{
    if ranks_before(a[q], b[q]) {
        let j = a[q].index as int;
        assert(describes(a[q], reference, probe));
        assert(describes(b[q], reference, probe));
        if lists(b, j) {
            let t = choose|t: int| 0 <= t < b.len() && (#[trigger] b[t]).index == j;
            assert(describes(b[t], reference, probe));
            assert(b[t] == a[q]);
            if t < q {
                assert(a[t] == b[t]);
                assert(ranks_before(a[t], a[q]));
            } else if t > q {
                assert(ranks_before(b[q], b[t]));
            }
            assert(false);
        } else {
            assert(outranks(b.last(), hamming_distance(probe, reference[j]), j));
            if q < b.len() - 1 {
                assert(ranks_before(b[q], b[b.len() - 1]));
            }
            assert(false);
        }
    }
}

/// Two rankings of one query agree on their first `p` entries.
proof fn lemma_rankings_agree(
    first: Seq<Neighbor>,
    second: Seq<Neighbor>,
    reference: Seq<Seq<u8>>,
    probe: Seq<u8>,
    k: nat,
    p: nat,
)
    requires
        is_ranking(first, reference, probe, k),
        is_ranking(second, reference, probe, k),
        p <= first.len(),
    ensures
        forall|i: int| 0 <= i < p ==> first[i] == second[i],
    decreases p,
{
    if p > 0 {
        let q = (p - 1) as int;
        lemma_rankings_agree(first, second, reference, probe, k, q as nat);
        lemma_not_earlier(first, second, reference, probe, k, q);
        lemma_not_earlier(second, first, reference, probe, k, q);
        assert(describes(first[q], reference, probe));
        assert(describes(second[q], reference, probe));
        assert(first[q] == second[q]);
    }
}

/// A query has one ranking: whatever meets `is_ranking` for a reference set, a
/// probe and a count is the same sequence, so equal inputs give equal answers.
pub proof fn lemma_ranking_unique(
    first: Seq<Neighbor>,
    second: Seq<Neighbor>,
    reference: Seq<Seq<u8>>,
    probe: Seq<u8>,
    k: nat,
)
    requires
        is_ranking(first, reference, probe, k),
        is_ranking(second, reference, probe, k),
    ensures
        first == second,
{
    lemma_rankings_agree(first, second, reference, probe, k, first.len());
    assert(first =~= second);
}

} // verus!
