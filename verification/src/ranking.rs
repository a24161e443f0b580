use vstd::prelude::*;
use vstd::set_lib::lemma_len_subset;
use crate::descriptor::{distance_between, hamming_distance, views, Descriptor};
use crate::neighbor::{
    ascending, describes, distinct_positions, is_ranking, lists, nearest_by_distance, outranks,
    ranks_before, strictly_ranked, Neighbor,
};

verus! {

/// Number of leading entries that are strictly nearer than the last one.
fn count_nearer(nearest: &Vec<Neighbor>) -> (s: usize)
    requires
        nearest@.len() > 0,
        ascending(nearest@),
    ensures
        s < nearest@.len(),
        forall|t: int| 0 <= t < s ==> (#[trigger] nearest@[t]).distance < nearest@.last().distance,
        forall|t: int|
            s <= t < nearest@.len() ==> (#[trigger] nearest@[t]).distance
                == nearest@.last().distance,
{
    let last = nearest.len() - 1;
    let cut = nearest[last].distance;
    let mut s: usize = 0;
    while s < last && nearest[s].distance < cut
        invariant
            last == nearest@.len() - 1,
            cut == nearest@[last as int].distance,
            s <= last,
            forall|t: int| 0 <= t < s ==> (#[trigger] nearest@[t]).distance < cut,
        decreases last - s,
    {
        s = s + 1;
    }
    proof {
        assert forall|t: int| s <= t < nearest@.len() implies (#[trigger] nearest@[t]).distance
            == cut by {
            if t < last {
                assert(nearest@[t].distance <= nearest@[last as int].distance);
                if s < t {
                    assert(nearest@[s as int].distance <= nearest@[t].distance);
                }
            }
        }
    }
    s
}

/// The first `upto` entries of `nearest`, put into ranking order.
fn sort_leading(nearest: &Vec<Neighbor>, upto: usize) -> (sorted: Vec<Neighbor>)
    requires
        upto <= nearest@.len(),
        distinct_positions(nearest@),
    ensures
        sorted@.len() == upto,
        strictly_ranked(sorted@),
        forall|t: int| 0 <= t < upto ==> sorted@.contains(#[trigger] nearest@[t]),
        forall|i: int|
            0 <= i < upto ==> nearest@.take(upto as int).contains(#[trigger] sorted@[i]),
{
    let mut sorted: Vec<Neighbor> = Vec::new();
    let mut done: usize = 0;
    while done < upto
        invariant
            done <= upto <= nearest@.len(),
            distinct_positions(nearest@),
            sorted@.len() == done,
            strictly_ranked(sorted@),
            forall|t: int| 0 <= t < done ==> sorted@.contains(#[trigger] nearest@[t]),
            forall|i: int|
                0 <= i < done ==> nearest@.take(done as int).contains(#[trigger] sorted@[i]),
        decreases upto - done,
    {
        let entry = nearest[done];
        let mut at: usize = 0;
        while at < sorted.len() && (sorted[at].distance < entry.distance || (sorted[at].distance
            == entry.distance && sorted[at].index < entry.index))
            invariant
                at <= sorted@.len(),
                forall|q: int| 0 <= q < at ==> ranks_before(#[trigger] sorted@[q], entry),
            decreases sorted@.len() - at,
        {
            at = at + 1;
        }
        let ghost before = sorted@;
        proof {
            assert forall|q: int| at <= q < before.len() implies ranks_before(
                entry,
                #[trigger] before[q],
            ) by {
                let w = choose|w: int|
                    0 <= w < done && nearest@.take(done as int)[w] == before[q];
                assert(nearest@[w].index != nearest@[done as int].index);
                assert(!ranks_before(before[at as int], entry));
                if at < q {
                    assert(ranks_before(before[at as int], before[q]));
                }
                let v = choose|v: int|
                    0 <= v < done && nearest@.take(done as int)[v] == before[at as int];
                assert(nearest@[v].index != nearest@[done as int].index);
            }
        }
        sorted.insert(at, entry);
        proof {
            let after = sorted@;
            assert(after == before.insert(at as int, entry));
            assert forall|i: int, j: int| 0 <= i < j < after.len() implies ranks_before(
                #[trigger] after[i],
                #[trigger] after[j],
            ) by {
                if j < at {
                    assert(after[i] == before[i] && after[j] == before[j]);
                } else if j == at {
                    assert(after[i] == before[i]);
                } else if i < at {
                    assert(after[i] == before[i] && after[j] == before[j - 1]);
                } else if i == at {
                    assert(after[j] == before[j - 1]);
                } else {
                    assert(after[i] == before[i - 1] && after[j] == before[j - 1]);
                }
            }
            assert forall|t: int| 0 <= t < done + 1 implies after.contains(
                #[trigger] nearest@[t],
            ) by {
                if t < done {
                    let q = choose|q: int| 0 <= q < before.len() && before[q] == nearest@[t];
                    if q < at {
                        assert(after[q] == nearest@[t]);
                    } else {
                        assert(after[q + 1] == nearest@[t]);
                    }
                } else {
                    assert(after[at as int] == nearest@[t]);
                }
            }
            assert forall|i: int| 0 <= i < done + 1 implies nearest@.take(done + 1).contains(
                #[trigger] after[i],
            ) by {
                if i == at {
                    assert(nearest@.take(done + 1)[done as int] == after[i]);
                } else {
                    let old_i = if i < at {
                        i
                    } else {
                        i - 1
                    };
                    assert(after[i] == before[old_i]);
                    let w = choose|w: int|
                        0 <= w < done && nearest@.take(done as int)[w] == before[old_i];
                    assert(nearest@.take(done + 1)[w] == after[i]);
                }
            }
        }
        done = done + 1;
    }
    sorted
}

/// A sequence that holds every member of a duplicate-free sequence is at least
/// as long.
proof fn lemma_holds_all(holder: Seq<int>, members: Seq<int>)
    requires
        members.no_duplicates(),
        forall|t: int| 0 <= t < members.len() ==> holder.contains(#[trigger] members[t]),
    ensures
        members.len() <= holder.len(),
{
    members.unique_seq_to_set();
    holder.lemma_cardinality_of_set();
    vstd::seq_lib::seq_to_set_is_finite(holder);
    assert(members.to_set().subset_of(holder.to_set())) by {
        assert forall|x: int| members.to_set().contains(x) implies holder.to_set().contains(
            x,
        ) by {
            let t = choose|t: int| 0 <= t < members.len() && members[t] == x;
            assert(holder.contains(members[t]));
        }
    }
    lemma_len_subset(members.to_set(), holder.to_set());
}

/// The positions of the entries of `s`.
pub open spec fn positions(s: Seq<Neighbor>) -> Seq<int> {
    s.map_values(|e: Neighbor| e.index as int)
}

/// The first `wanted` reference positions at distance `cut` from the probe,
/// lowest first. `witness` names that many such positions.
fn first_at_distance(
    reference: &[Descriptor],
    probe: &Descriptor,
    cut: u32,
    wanted: usize,
    Ghost(witness): Ghost<Seq<int>>,
) -> (tied: Vec<Neighbor>)
    requires
        forall|i: int|
            0 <= i < reference@.len() ==> (#[trigger] reference@[i])@.len() == probe@.len(),
        witness.len() == wanted,
        witness.no_duplicates(),
        forall|t: int|
            0 <= t < witness.len() ==> 0 <= #[trigger] witness[t] < reference@.len()
                && hamming_distance(probe@, reference@[witness[t]]@) == cut,
    ensures
        tied@.len() == wanted,
        strictly_ranked(tied@),
        forall|i: int|
            0 <= i < tied@.len() ==> describes(#[trigger] tied@[i], views(reference@), probe@)
                && tied@[i].distance == cut,
        forall|j: int|
            0 <= j < reference@.len() && wanted > 0 && hamming_distance(
                probe@,
                (#[trigger] reference@[j])@,
            ) == cut && !lists(tied@, j) ==> tied@.last().index < j,
{
    let n = reference.len();
    let mut tied: Vec<Neighbor> = Vec::new();
    let mut j: usize = 0;
    while j < n && tied.len() < wanted
        invariant
            n == reference@.len(),
            j <= n,
            tied@.len() <= wanted,
            forall|i: int|
                0 <= i < reference@.len() ==> (#[trigger] reference@[i])@.len() == probe@.len(),
            strictly_ranked(tied@),
            forall|i: int|
                0 <= i < tied@.len() ==> describes(
                    #[trigger] tied@[i],
                    views(reference@),
                    probe@,
                ) && tied@[i].distance == cut && tied@[i].index < j,
            forall|p: int|
                0 <= p < j && hamming_distance(probe@, (#[trigger] reference@[p])@) == cut
                    ==> lists(tied@, p),
        decreases n - j,
    {
        let d = distance_between(probe, &reference[j]);
        let ghost before = tied@;
        if d == cut {
            tied.push(Neighbor { index: j, distance: d });
            proof {
                let after = tied@;
                assert(views(reference@)[j as int] == reference@[j as int]@);
                assert forall|a: int, b: int| 0 <= a < b < after.len() implies ranks_before(
                    #[trigger] after[a],
                    #[trigger] after[b],
                ) by {
                    assert(after[a] == before[a]);
                    if b < before.len() {
                        assert(after[b] == before[b]);
                    }
                }
                assert forall|p: int|
                    0 <= p < j + 1 && hamming_distance(probe@, (#[trigger] reference@[p])@)
                        == cut implies lists(after, p) by {
                    if p < j {
                        assert(lists(before, p));
                        let i = choose|i: int|
                            0 <= i < before.len() && (#[trigger] before[i]).index == p;
                        assert(after[i].index == p);
                    } else {
                        assert(after[before.len() as int].index == p);
                    }
                }
            }
        }
        j = j + 1;
    }
    proof {
        if tied@.len() < wanted {
            let held = positions(tied@);
            assert forall|t: int| 0 <= t < witness.len() implies held.contains(
                #[trigger] witness[t],
            ) by {
                let p = witness[t];
                assert(hamming_distance(probe@, reference@[p]@) == cut);
                assert(lists(tied@, p));
                let i = choose|i: int| 0 <= i < tied@.len() && (#[trigger] tied@[i]).index == p;
                assert(held[i] == p);
            }
            lemma_holds_all(held, witness);
            assert(false);
        }
        assert forall|p: int|
            0 <= p < reference@.len() && wanted > 0 && hamming_distance(
                probe@,
                (#[trigger] reference@[p])@,
            ) == cut && !lists(tied@, p) implies tied@.last().index < p by {
            assert(p >= j);
        }
    }
    tied
}

/// Puts a nearest set into ranking order, and settles by position which of the
/// descriptors that share the greatest listed distance are listed.
pub(crate) fn rank(reference: &[Descriptor], probe: &Descriptor, nearest: Vec<Neighbor>) -> (ranked:
    Vec<Neighbor>)
    requires
        0 < nearest@.len() <= reference@.len(),
        forall|i: int|
            0 <= i < reference@.len() ==> (#[trigger] reference@[i])@.len() == probe@.len(),
        nearest_by_distance(nearest@, views(reference@), probe@, nearest@.len()),
    ensures
        is_ranking(ranked@, views(reference@), probe@, nearest@.len()),
{
    let k = nearest.len();
    let cut = nearest[k - 1].distance;
    let nearer = count_nearer(&nearest);
    let mut ranked = sort_leading(&nearest, nearer);
    let ghost head = ranked@;
    let ghost witness = positions(nearest@.subrange(nearer as int, k as int));
    proof {
        let refs = views(reference@);
        assert forall|t: int| 0 <= t < witness.len() implies 0 <= #[trigger] witness[t]
            < reference@.len() && hamming_distance(probe@, reference@[witness[t]]@) == cut by {
            let e = nearest@[nearer + t];
            assert(describes(e, refs, probe@));
            assert(refs[e.index as int] == reference@[e.index as int]@);
        }
        assert forall|s: int, t: int|
            0 <= s < witness.len() && 0 <= t < witness.len() && s != t implies witness[s]
            != witness[t] by {
            if s < t {
                assert(nearest@[nearer + s].index != nearest@[nearer + t].index);
            } else {
                assert(nearest@[nearer + t].index != nearest@[nearer + s].index);
            }
        }
    }
    let mut tied = first_at_distance(reference, probe, cut, k - nearer, Ghost(witness));
    let ghost tail = tied@;
    ranked.append(&mut tied);
    proof {
        let refs = views(reference@);
        let out = ranked@;
        assert(out == head + tail);
        assert forall|i: int| 0 <= i < head.len() implies describes(
            #[trigger] head[i],
            refs,
            probe@,
        ) && head[i].distance < cut by {
            let w = choose|w: int|
                0 <= w < nearer && nearest@.take(nearer as int)[w] == head[i];
            assert(describes(nearest@[w], refs, probe@));
        }
        assert forall|i: int| 0 <= i < out.len() implies describes(
            #[trigger] out[i],
            refs,
            probe@,
        ) by {
            if i < head.len() {
                assert(out[i] == head[i]);
            } else {
                assert(out[i] == tail[i - head.len()]);
            }
        }
        assert forall|i: int, j: int| 0 <= i < j < out.len() implies ranks_before(
            #[trigger] out[i],
            #[trigger] out[j],
        ) by {
            if j < head.len() {
                assert(out[i] == head[i] && out[j] == head[j]);
            } else if i < head.len() {
                assert(out[i] == head[i] && out[j] == tail[j - head.len()]);
            } else {
                assert(out[i] == tail[i - head.len()] && out[j] == tail[j - head.len()]);
            }
        }
        assert(out.last() == tail.last());
        assert forall|j: int|
            0 <= j < refs.len() && out.len() > 0 && !lists(out, j) implies outranks(
            out.last(),
            hamming_distance(probe@, #[trigger] refs[j]),
            j,
        ) by {
            assert(refs[j] == reference@[j]@);
            let d = hamming_distance(probe@, refs[j]);
            if d < cut {
                if lists(nearest@, j) {
                    let w = choose|w: int|
                        0 <= w < nearest@.len() && (#[trigger] nearest@[w]).index == j;
                    assert(describes(nearest@[w], refs, probe@));
                    assert(w < nearer);
                    assert(head.contains(nearest@[w]));
                    let i = choose|i: int| 0 <= i < head.len() && head[i] == nearest@[w];
                    assert(out[i].index == j);
                    assert(false);
                } else {
                    assert(false);
                }
            } else if d == cut {
                if lists(tail, j) {
                    let i = choose|i: int| 0 <= i < tail.len() && (#[trigger] tail[i]).index == j;
                    assert(out[head.len() + i].index == j);
                    assert(false);
                }
                assert(hamming_distance(probe@, reference@[j]@) == cut);
            }
        }
    }
    ranked
}

} // verus!
