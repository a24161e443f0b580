use vstd::prelude::*;
use crate::descriptor::{views, Descriptor, MAX_DESCRIPTOR_BYTES};
use crate::error::MatchError;
use crate::linear::linear_knn;
use crate::neighbor::{is_ranking, nearest_by_distance, Neighbor};
use crate::ranking::rank;

verus! {

/// A nearest-neighbour index over a fixed reference set of descriptors. It
/// borrows the set and answers queries by exhaustive search. Its view is the
/// sequence of the reference bit vectors.
pub struct NearestNeighborIndex<'a> {
    reference: &'a [Descriptor],
    width: usize,
    uniform: bool,
}

impl<'a> View for NearestNeighborIndex<'a> {
    type V = Seq<Seq<u8>>;

    closed spec fn view(&self) -> Seq<Seq<u8>> {
        views(self.reference@)
    }
}

/// Every descriptor of `set` has `width` bytes.
pub open spec fn all_of_width(set: Seq<Seq<u8>>, width: nat) -> bool {
    forall|i: int| 0 <= i < set.len() ==> (#[trigger] set[i]).len() == width
}

impl<'a> NearestNeighborIndex<'a> {
    #[verifier::type_invariant]
    spec fn consistent(&self) -> bool {
        &&& self.width <= MAX_DESCRIPTOR_BYTES
        &&& self.uniform <==> all_of_width(views(self.reference@), self.width as nat)
        &&& self.reference@.len() > 0 ==> self.reference@[0]@.len() == self.width
    }

    /// Builds the index over `reference`. This never fails; a set whose
    /// descriptors differ in width is accepted and refuses every query.
    pub fn build(reference: &'a [Descriptor]) -> (index: Self)
        ensures
            index@ == views(reference@),
    {
        let n = reference.len();
        if n == 0 {
            return NearestNeighborIndex { reference, width: 0, uniform: true };
        }
        let width = reference[0].byte_len();
        let mut uniform = true;
        let mut i: usize = 1;
        while i < n
            invariant
                n == reference@.len(),
                1 <= i <= n,
                width == reference@[0]@.len(),
                uniform <==> all_of_width(views(reference@).take(i as int), width as nat),
            decreases n - i,
        {
            if reference[i].byte_len() != width {
                uniform = false;
            }
            proof {
                let before = views(reference@).take(i as int);
                let after = views(reference@).take(i + 1);
                assert(after[i as int] == reference@[i as int]@);
                assert forall|t: int| 0 <= t < before.len() implies #[trigger] before[t]
                    == after[t] by {}
                if all_of_width(after, width as nat) {
                    assert forall|t: int| 0 <= t < before.len() implies (#[trigger] before[t]).len()
                        == width by {
                        assert(after[t].len() == width);
                    }
                }
            }
            i = i + 1;
        }
        proof {
            assert(views(reference@).take(n as int) =~= views(reference@));
        }
        NearestNeighborIndex { reference, width, uniform }
    }

    /// Number of descriptors in the reference set.
    pub fn len(&self) -> (n: usize)
        ensures
            n == self@.len(),
    {
        self.reference.len()
    }

    /// Whether `probe` can be measured against the reference set: whether it is
    /// as wide as every descriptor there. An empty set admits every probe.
    pub fn admits(&self, probe: &Descriptor) -> (yes: bool)
        ensures
            yes == all_of_width(self@, probe@.len()),
    {
        proof {
            use_type_invariant(self);
        }
        if self.reference.len() == 0 {
            true
        } else if !self.uniform || probe.byte_len() != self.width {
            proof {
                if self.uniform {
                    assert(self@[0].len() == self.width);
                } else if all_of_width(self@, probe@.len()) {
                    assert(self@[0].len() == probe@.len());
                }
            }
            false
        } else {
            true
        }
    }

    /// The `k` reference descriptors nearest to `probe`, nearest first and, at
    /// equal distance, lowest position first; all of them where the set has
    /// fewer than `k`. A `k` of zero, an empty reference set and a reference
    /// descriptor whose width differs from the probe's are refused, before any
    /// distance is computed.
    pub fn query(&self, probe: &Descriptor, k: usize) -> (answer: Result<Vec<Neighbor>, MatchError>)
        ensures
            answer is Err <==> k == 0 || self@.len() == 0 || !all_of_width(self@, probe@.len()),
            answer matches Ok(found) ==> is_ranking(found@, self@, probe@, k as nat),
            answer matches Err(e) ==> e == MatchError::InvalidArgument,
    {
        match self.scan(probe, k) {
            Ok(nearest) => {
                proof {
                    assert forall|i: int| 0 <= i < self.reference@.len() implies (
                    #[trigger] self.reference@[i])@.len() == probe@.len() by {
                        assert(self@[i].len() == probe@.len());
                    }
                }
                Ok(rank(self.reference, probe, nearest))
            },
            Err(e) => Err(e),
        }
    }

    /// The nearest `k` reference descriptors in distance order, by the linear
    /// search, with ties as that search left them.
    pub(crate) fn scan(&self, probe: &Descriptor, k: usize) -> (answer: Result<
        Vec<Neighbor>,
        MatchError,
    >)
        ensures
            answer is Err <==> k == 0 || self@.len() == 0 || !all_of_width(self@, probe@.len()),
            answer matches Ok(found) ==> nearest_by_distance(
                found@,
                self@,
                probe@,
                if k <= self@.len() {
                    k as nat
                } else {
                    self@.len()
                },
            ),
            answer matches Err(e) ==> e == MatchError::InvalidArgument,
    {
        let n = self.reference.len();
        if k == 0 || n == 0 || !self.admits(probe) {
            return Err(MatchError::InvalidArgument);
        }
        let count = if k <= n {
            k
        } else {
            n
        };
        proof {
            use_type_invariant(self);
            assert(self@[0].len() == probe@.len());
            assert forall|i: int| 0 <= i < self.reference@.len() implies (
            #[trigger] self.reference@[i])@.len() == probe@.len() by {
                assert(self@[i].len() == probe@.len());
            }
        }
        Ok(linear_knn(self.reference, probe, count))
    }
}

} // verus!
