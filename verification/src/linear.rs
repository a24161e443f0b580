use vstd::prelude::*;
use crate::descriptor::{views, Descriptor, MAX_DESCRIPTOR_BYTES};
use crate::neighbor::{nearest_by_distance, Neighbor};

verus! {

/// Linear nearest-neighbour search of the `space` crate, `space::linear_knn`,
/// over the crate's Hamming metric on byte vectors.
///
/// Taken on trust: for a probe as wide as every reference descriptor the search
/// fills all `k` slots it is given, `k` being no more than the size of the
/// reference set, with distinct reference positions and their Hamming distances
/// from the probe, nearest first, and leaves out no position that is nearer
/// than the last one it lists. Between equally distant positions the search
/// promises neither an order nor a choice.
#[verifier::external_body]
pub(crate) fn linear_knn(reference: &[Descriptor], probe: &Descriptor, k: usize) -> (found: Vec<
    Neighbor,
>)
    requires
        k <= reference@.len(),
        probe@.len() <= MAX_DESCRIPTOR_BYTES,
        forall|i: int| 0 <= i < reference@.len() ==> (#[trigger] reference@[i])@.len() == probe@.len(),
    ensures
        nearest_by_distance(found@, views(reference@), probe@, k as nat),
{
    let points: Vec<space::Hamming<Vec<u8>>> = reference.iter().map(
        |d| space::Hamming(d.bytes.clone()),
    ).collect();
    let mut slots = vec![space::Neighbor::invalid(); k];
    let found = space::linear_knn(&space::Hamming(probe.bytes.clone()), &mut slots, &points);
    found.iter().map(|n| Neighbor { index: n.index, distance: n.distance }).collect()
}

} // verus!
