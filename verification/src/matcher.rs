use vstd::prelude::*;
use crate::descriptor::{
    hamming_distance, lemma_hamming_self, views, Descriptor,
};
use crate::error::MatchError;
use crate::index::{all_of_width, NearestNeighborIndex};
use crate::neighbor::{describes, lists, nearest_by_distance, Neighbor};

verus! {

/// Margin used where none is given: the nearest descriptor is accepted only if
/// the second nearest is more than this many bits farther away.
pub const DEFAULT_MARGIN: u32 = 24;

/// Number of neighbours retrieved for each descriptor by the margin test.
pub const NEIGHBOR_COUNT: usize = 2;

/// Reference position `j` is the confident match of `probe`: every other
/// reference descriptor is more than `margin` bits farther from the probe.
pub open spec fn isolated(reference: Seq<Seq<u8>>, probe: Seq<u8>, margin: nat, j: int) -> bool {
    &&& 0 <= j < reference.len()
    &&& forall|l: int|
        0 <= l < reference.len() && l != j ==> hamming_distance(probe, reference[j]) + margin
            < hamming_distance(probe, #[trigger] reference[l])
}

/// The confident match of `probe` in `reference`, if it has one. A reference
/// set of one descriptor matches every probe; an empty one matches none.
pub open spec fn best_match(reference: Seq<Seq<u8>>, probe: Seq<u8>, margin: nat) -> Option<
    usize,
> {
    if exists|j: int| isolated(reference, probe, margin, j) {
        Some((choose|j: int| isolated(reference, probe, margin, j)) as usize)
    } else {
        None
    }
}

/// The margin test on the answers of a two-neighbour query: the nearest is
/// accepted if it stands alone, or if the second is more than `margin` bits
/// farther away.
pub open spec fn accepted(found: Seq<Neighbor>, margin: nat) -> Option<usize> {
    if found.len() == 0 {
        None
    } else if found.len() == 1 {
        Some(found[0].index)
    } else if found[0].distance + margin < found[1].distance {
        Some(found[0].index)
    } else {
        None
    }
}

/// The matches of every descriptor of `a` in `b`, in the order of `a`.
pub open spec fn one_directional(a: Seq<Seq<u8>>, b: Seq<Seq<u8>>, margin: nat) -> Seq<
    Option<usize>,
> {
    Seq::new(a.len(), |i: int| best_match(b, a[i], margin))
}

/// Every descriptor of `a` is as wide as every descriptor of `b`.
pub open spec fn widths_agree(a: Seq<Seq<u8>>, b: Seq<Seq<u8>>) -> bool {
    forall|i: int, j: int|
        0 <= i < a.len() && 0 <= j < b.len() ==> (#[trigger] a[i]).len() == (#[trigger] b[j]).len()
}

/// The match `forward[i]` is answered by the other direction.
pub open spec fn reciprocated(
    forward: Seq<Option<usize>>,
    reverse: Seq<Option<usize>>,
    i: int,
) -> bool {
    forward[i] matches Some(j) && j < reverse.len() && reverse[j as int] == Some(i as usize)
}

/// The reciprocated matches among the first `n` entries of `forward`, each as
/// the pair of its positions, in the order of `forward`.
pub open spec fn mutual_pairs(
    forward: Seq<Option<usize>>,
    reverse: Seq<Option<usize>>,
    n: nat,
) -> Seq<(usize, usize)>
    decreases n,
{
    if n == 0 {
        Seq::empty()
    } else {
        let rest = mutual_pairs(forward, reverse, (n - 1) as nat);
        if reciprocated(forward, reverse, n - 1) {
            rest.push(((n - 1) as usize, forward[n - 1].unwrap()))
        } else {
            rest
        }
    }
}

/// The symmetric matches of `a` and `b`: the pairs of positions whose
/// descriptors are each other's confident match.
pub open spec fn symmetric(a: Seq<Seq<u8>>, b: Seq<Seq<u8>>, margin: nat) -> Seq<(usize, usize)> {
    mutual_pairs(one_directional(a, b, margin), one_directional(b, a, margin), a.len())
}

/// Index pairs as pairs of positions.
pub open spec fn as_pairs(matches: Seq<[usize; 2]>) -> Seq<(usize, usize)> {
    matches.map_values(|m: [usize; 2]| (m[0], m[1]))
}

/// A probe has at most one confident match.
pub proof fn lemma_isolated_unique(
    reference: Seq<Seq<u8>>,
    probe: Seq<u8>,
    margin: nat,
    i: int,
    j: int,
)
    requires
        isolated(reference, probe, margin, i),
        isolated(reference, probe, margin, j),
    ensures
        i == j,
{
    if i != j {
        assert(hamming_distance(probe, reference[j]) + margin < hamming_distance(
            probe,
            reference[i],
        ));
        assert(hamming_distance(probe, reference[i]) + margin < hamming_distance(
            probe,
            reference[j],
        ));
    }
}

/// What `best_match` gives is a reference position that is isolated, and it
/// gives one whenever there is one.
pub proof fn lemma_best_match_isolated(reference: Seq<Seq<u8>>, probe: Seq<u8>, margin: nat)
    requires
        reference.len() <= usize::MAX,
    ensures
        best_match(reference, probe, margin) matches Some(j) ==> isolated(
            reference,
            probe,
            margin,
            j as int,
        ),
        best_match(reference, probe, margin) is None ==> forall|j: int|
            !isolated(reference, probe, margin, j),
{
}

/// The margin test decides the confident match: on the two nearest reference
/// descriptors of a probe, however ties among them were settled, `accepted`
/// gives `best_match`.
pub proof fn lemma_margin_test(
    found: Seq<Neighbor>,
    reference: Seq<Seq<u8>>,
    probe: Seq<u8>,
    margin: nat,
)
    requires
        reference.len() <= usize::MAX,
        nearest_by_distance(
            found,
            reference,
            probe,
            if reference.len() >= 2 {
                2
            } else {
                reference.len()
            },
        ),
    ensures
        accepted(found, margin) == best_match(reference, probe, margin),
{
    if found.len() == 0 {
        assert forall|j: int| !isolated(reference, probe, margin, j) by {}
    } else {
        let first = found[0];
        let j0 = first.index as int;
        assert(describes(first, reference, probe));
        // No other position is nearer than the first listed.
        assert forall|l: int| 0 <= l < reference.len() implies first.distance <= hamming_distance(
            probe,
            #[trigger] reference[l],
        ) by {
            if lists(found, l) {
                let t = choose|t: int| 0 <= t < found.len() && (#[trigger] found[t]).index == l;
                assert(describes(found[t], reference, probe));
                if t > 0 {
                    assert(found[0].distance <= found[t].distance);
                }
            } else {
                assert(found[0].distance <= found[found.len() - 1].distance);
            }
        }
        assert forall|j: int| j != j0 implies !isolated(reference, probe, margin, j) by {
            if isolated(reference, probe, margin, j) {
                assert(hamming_distance(probe, reference[j]) + margin < hamming_distance(
                    probe,
                    reference[j0],
                ));
                assert(first.distance <= hamming_distance(probe, reference[j]));
            }
        }
        let accept = found.len() == 1 || found[0].distance + margin < found[1].distance;
        if accept {
            assert forall|l: int| 0 <= l < reference.len() && l != j0 implies hamming_distance(
                probe,
                reference[j0],
            ) + margin < hamming_distance(probe, #[trigger] reference[l]) by {
                if lists(found, l) {
                    let t = choose|t: int|
                        0 <= t < found.len() && (#[trigger] found[t]).index == l;
                    assert(describes(found[t], reference, probe));
                    assert(t == 1);
                } else {
                    assert(found.len() == 2);
                }
            }
            assert(isolated(reference, probe, margin, j0));
            let chosen = choose|j: int| isolated(reference, probe, margin, j);
            lemma_isolated_unique(reference, probe, margin, chosen, j0);
        } else {
            let second = found[1];
            assert(describes(second, reference, probe));
            assert(second.index != first.index);
            assert(!isolated(reference, probe, margin, j0));
        }
    }
}

/// The margin test on the answers of a two-neighbour query.
pub fn accept(found: &[Neighbor], margin: u32) -> (choice: Option<usize>)
    ensures
        choice == accepted(found@, margin as nat),
{
    if found.len() == 0 {
        None
    } else if found.len() == 1 {
        Some(found[0].index)
    } else if (found[0].distance as u64) + (margin as u64) < (found[1].distance as u64) {
        Some(found[0].index)
    } else {
        None
    }
}

/// The confident match of `probe` in the reference set of `index`, if it has
/// one. A probe whose width differs from that of a reference descriptor is
/// refused.
pub fn match_one(index: &NearestNeighborIndex<'_>, probe: &Descriptor, margin: u32) -> (outcome:
    Result<Option<usize>, MatchError>)
    ensures
        outcome is Ok <==> all_of_width(index@, probe@.len()),
        outcome matches Ok(choice) ==> choice == best_match(index@, probe@, margin as nat),
        outcome matches Err(e) ==> e == MatchError::InvalidArgument,
{
    if index.len() == 0 {
        proof {
            assert forall|j: int| !isolated(index@, probe@, margin as nat, j) by {}
        }
        return Ok(None);
    }
    match index.scan(probe, NEIGHBOR_COUNT) {
        Ok(found) => {
            proof {
                lemma_margin_test(found@, index@, probe@, margin as nat);
            }
            Ok(accept(found.as_slice(), margin))
        },
        Err(e) => Err(e),
    }
}

/// For every descriptor of `a`, its confident match in `b` under `margin`, in
/// the order of `a`. Where `b` is empty no descriptor has a match. A pair of
/// descriptors of different widths, one from each set, is refused before any
/// distance is computed.
pub fn match_one_directional_with_margin(a: &[Descriptor], b: &[Descriptor], margin: u32) -> (outcome:
    Result<Vec<Option<usize>>, MatchError>)
    ensures
        outcome is Ok <==> widths_agree(views(a@), views(b@)),
        outcome matches Ok(matches) ==> matches@ == one_directional(
            views(a@),
            views(b@),
            margin as nat,
        ),
        outcome matches Err(e) ==> e == MatchError::InvalidArgument,
{
    let index = NearestNeighborIndex::build(b);
    let n = a.len();
    let mut checked: usize = 0;
    while checked < n
        invariant
            n == a@.len(),
            checked <= n,
            index@ == views(b@),
            forall|i: int| 0 <= i < checked ==> all_of_width(index@, (#[trigger] a@[i])@.len()),
        decreases n - checked,
    {
        if !index.admits(&a[checked]) {
            proof {
                let i = checked as int;
                let j = choose|j: int|
                    0 <= j < index@.len() && (#[trigger] index@[j]).len() != a@[i]@.len();
                assert(views(a@)[i].len() != views(b@)[j].len());
            }
            return Err(MatchError::InvalidArgument);
        }
        checked = checked + 1;
    }
    proof {
        assert forall|i: int, j: int|
            0 <= i < views(a@).len() && 0 <= j < views(b@).len() implies (#[trigger] views(
            a@,
        )[i]).len() == (#[trigger] views(b@)[j]).len() by {
            assert(all_of_width(index@, a@[i]@.len()));
        }
    }
    let mut matches: Vec<Option<usize>> = Vec::new();
    let mut i: usize = 0;
    while i < n
        invariant
            n == a@.len(),
            i <= n,
            index@ == views(b@),
            forall|t: int| 0 <= t < n ==> all_of_width(index@, (#[trigger] a@[t])@.len()),
            matches@.len() == i,
            forall|t: int|
                0 <= t < i ==> #[trigger] matches@[t] == best_match(
                    index@,
                    a@[t]@,
                    margin as nat,
                ),
        decreases n - i,
    {
        match match_one(&index, &a[i], margin) {
            Ok(choice) => {
                matches.push(choice);
            },
            Err(e) => {
                proof {
                    assert(all_of_width(index@, a@[i as int]@.len()));
                }
                return Err(e);
            },
        }
        i = i + 1;
    }
    proof {
        assert(matches@ =~= one_directional(views(a@), views(b@), margin as nat));
    }
    Ok(matches)
}

/// For every descriptor of `a`, its confident match in `b` under the default
/// margin.
pub fn match_one_directional(a: &[Descriptor], b: &[Descriptor]) -> (outcome: Result<
    Vec<Option<usize>>,
    MatchError,
>)
    ensures
        outcome is Ok <==> widths_agree(views(a@), views(b@)),
        outcome matches Ok(matches) ==> matches@ == one_directional(
            views(a@),
            views(b@),
            DEFAULT_MARGIN as nat,
        ),
        outcome matches Err(e) ==> e == MatchError::InvalidArgument,
{
    match_one_directional_with_margin(a, b, DEFAULT_MARGIN)
}

/// The matches of `forward` that `reverse` answers: each pair `[i, j]` with
/// `forward[i] == Some(j)` and `reverse[j] == Some(i)`, in the order of
/// `forward`.
pub fn intersect(forward: &[Option<usize>], reverse: &[Option<usize>]) -> (pairs: Vec<[usize; 2]>)
    ensures
        as_pairs(pairs@) == mutual_pairs(forward@, reverse@, forward@.len()),
{
    let mut pairs: Vec<[usize; 2]> = Vec::new();
    let mut i: usize = 0;
    while i < forward.len()
        invariant
            i <= forward@.len(),
            as_pairs(pairs@) == mutual_pairs(forward@, reverse@, i as nat),
        decreases forward@.len() - i,
    {
        let ghost before = pairs@;
        if let Some(j) = forward[i] {
            if j < reverse.len() {
                if let Some(back) = reverse[j] {
                    if back == i {
                        let pair: [usize; 2] = [i, j];
                        pairs.push(pair);
                        proof {
                            assert(pair[0] == i && pair[1] == j);
                            assert(as_pairs(pairs@) =~= as_pairs(before).push((i, j)));
                        }
                    }
                }
            }
        }
        i = i + 1;
    }
    pairs
}

/// The symmetric matches of `a` and `b` under `margin`: every pair `[i, j]`
/// such that `b[j]` is the confident match of `a[i]` in `b` and `a[i]` that of
/// `b[j]` in `a`, in ascending order of `i`. Empty sets give no pairs. A pair
/// of descriptors of different widths, one from each set, is refused.
pub fn symmetric_match_with_margin(a: &[Descriptor], b: &[Descriptor], margin: u32) -> (outcome:
    Result<Vec<[usize; 2]>, MatchError>)
    ensures
        outcome is Ok <==> widths_agree(views(a@), views(b@)),
        outcome matches Ok(pairs) ==> as_pairs(pairs@) == symmetric(
            views(a@),
            views(b@),
            margin as nat,
        ),
        outcome matches Err(e) ==> e == MatchError::InvalidArgument,
{
    let forward = match match_one_directional_with_margin(a, b, margin) {
        Ok(matches) => matches,
        Err(e) => {
            return Err(e);
        },
    };
    let reverse = match match_one_directional_with_margin(b, a, margin) {
        Ok(matches) => matches,
        Err(e) => {
            return Err(e);
        },
    };
    Ok(intersect(forward.as_slice(), reverse.as_slice()))
}

/// The symmetric matches of `a` and `b` under the default margin.
pub fn symmetric_match(a: &[Descriptor], b: &[Descriptor]) -> (outcome: Result<
    Vec<[usize; 2]>,
    MatchError,
>)
    ensures
        outcome is Ok <==> widths_agree(views(a@), views(b@)),
        outcome matches Ok(pairs) ==> as_pairs(pairs@) == symmetric(
            views(a@),
            views(b@),
            DEFAULT_MARGIN as nat,
        ),
        outcome matches Err(e) ==> e == MatchError::InvalidArgument,
{
    symmetric_match_with_margin(a, b, DEFAULT_MARGIN)
}

/// Every pair among the reciprocated matches names a match of `forward` and
/// its answer in `reverse`, and lies within the entries looked at.
pub proof fn lemma_mutual_pairs_reciprocated(
    forward: Seq<Option<usize>>,
    reverse: Seq<Option<usize>>,
    n: nat,
    t: int,
)
    requires
        n <= forward.len(),
        n <= usize::MAX,
        0 <= t < mutual_pairs(forward, reverse, n).len(),
    ensures
        mutual_pairs(forward, reverse, n)[t].0 < n,
        mutual_pairs(forward, reverse, n)[t].1 < reverse.len(),
        forward[mutual_pairs(forward, reverse, n)[t].0 as int] == Some(
            mutual_pairs(forward, reverse, n)[t].1,
        ),
        reverse[mutual_pairs(forward, reverse, n)[t].1 as int] == Some(
            mutual_pairs(forward, reverse, n)[t].0,
        ),
    decreases n,
{
    if n > 0 {
        let rest = mutual_pairs(forward, reverse, (n - 1) as nat);
        if t < rest.len() {
            lemma_mutual_pairs_reciprocated(forward, reverse, (n - 1) as nat, t);
        }
    }
}

/// The reciprocated matches come in ascending order of their first position.
pub proof fn lemma_mutual_pairs_ascending(
    forward: Seq<Option<usize>>,
    reverse: Seq<Option<usize>>,
    n: nat,
    s: int,
    t: int,
)
    requires
        n <= forward.len(),
        n <= usize::MAX,
        0 <= s < t < mutual_pairs(forward, reverse, n).len(),
    ensures
        mutual_pairs(forward, reverse, n)[s].0 < mutual_pairs(forward, reverse, n)[t].0,
    decreases n,
{
    if n > 0 {
        let rest = mutual_pairs(forward, reverse, (n - 1) as nat);
        if t < rest.len() {
            lemma_mutual_pairs_ascending(forward, reverse, (n - 1) as nat, s, t);
        } else {
            lemma_mutual_pairs_reciprocated(forward, reverse, (n - 1) as nat, s);
        }
    }
}

/// Every reciprocated match among the first `n` entries of `forward` is among
/// the pairs.
pub proof fn lemma_mutual_pairs_complete(
    forward: Seq<Option<usize>>,
    reverse: Seq<Option<usize>>,
    n: nat,
    i: int,
)
    requires
        n <= forward.len(),
        0 <= i < n,
        reciprocated(forward, reverse, i),
    ensures
        mutual_pairs(forward, reverse, n).contains((i as usize, forward[i].unwrap())),
    decreases n,
{
    let rest = mutual_pairs(forward, reverse, (n - 1) as nat);
    let all = mutual_pairs(forward, reverse, n);
    if i == n - 1 {
        assert(all[rest.len() as int] == (i as usize, forward[i].unwrap()));
    } else {
        lemma_mutual_pairs_complete(forward, reverse, (n - 1) as nat, i);
        let t = choose|t: int| 0 <= t < rest.len() && rest[t] == (i as usize, forward[i].unwrap());
        assert(all[t] == rest[t]);
    }
}

/// Symmetry closure: every pair `(i, j)` of the symmetric matches of `a` and
/// `b` is a match in both directions, `j` being the match of `a[i]` in `b` and
/// `i` that of `b[j]` in `a`; and both positions lie within their sets.
pub proof fn lemma_symmetric_closure(a: Seq<Seq<u8>>, b: Seq<Seq<u8>>, margin: nat, t: int)
    requires
        a.len() <= usize::MAX,
        0 <= t < symmetric(a, b, margin).len(),
    ensures
        symmetric(a, b, margin)[t].0 < a.len(),
        symmetric(a, b, margin)[t].1 < b.len(),
        one_directional(a, b, margin)[symmetric(a, b, margin)[t].0 as int] == Some(
            symmetric(a, b, margin)[t].1,
        ),
        one_directional(b, a, margin)[symmetric(a, b, margin)[t].1 as int] == Some(
            symmetric(a, b, margin)[t].0,
        ),
{
    lemma_mutual_pairs_reciprocated(
        one_directional(a, b, margin),
        one_directional(b, a, margin),
        a.len(),
        t,
    );
}

/// No position takes part in two symmetric matches: two different pairs of the
/// symmetric matches of `a` and `b` differ in their position in `a` and in
/// their position in `b`. The pairs stand in ascending order of the former.
pub proof fn lemma_symmetric_distinct(
    a: Seq<Seq<u8>>,
    b: Seq<Seq<u8>>,
    margin: nat,
    s: int,
    t: int,
)
    requires
        a.len() <= usize::MAX,
        0 <= s < t < symmetric(a, b, margin).len(),
    ensures
        symmetric(a, b, margin)[s].0 < symmetric(a, b, margin)[t].0,
        symmetric(a, b, margin)[s].1 != symmetric(a, b, margin)[t].1,
{
    let forward = one_directional(a, b, margin);
    let reverse = one_directional(b, a, margin);
    lemma_mutual_pairs_ascending(forward, reverse, a.len(), s, t);
    lemma_mutual_pairs_reciprocated(forward, reverse, a.len(), s);
    lemma_mutual_pairs_reciprocated(forward, reverse, a.len(), t);
}

/// Every mutual confident match is among the symmetric matches.
pub proof fn lemma_symmetric_complete(
    a: Seq<Seq<u8>>,
    b: Seq<Seq<u8>>,
    margin: nat,
    i: int,
    j: int,
)
    requires
        a.len() <= usize::MAX,
        b.len() <= usize::MAX,
        isolated(b, a[i], margin, j),
        isolated(a, b[j], margin, i),
    ensures
        symmetric(a, b, margin).contains((i as usize, j as usize)),
{
    let forward = one_directional(a, b, margin);
    let reverse = one_directional(b, a, margin);
    lemma_isolated_unique(b, a[i], margin, choose|x: int| isolated(b, a[i], margin, x), j);
    lemma_isolated_unique(a, b[j], margin, choose|x: int| isolated(a, b[j], margin, x), i);
    assert(forward[i] == Some(j as usize));
    assert(reverse[j] == Some(i as usize));
    lemma_mutual_pairs_complete(forward, reverse, a.len(), i);
}

/// The first `n` entries of a sequence of matches that sends every position to
/// itself give the pairs `(0, 0)` up to `(n - 1, n - 1)`.
proof fn lemma_mutual_pairs_identity(matches: Seq<Option<usize>>, n: nat)
    requires
        n <= matches.len() <= usize::MAX,
        forall|i: int| 0 <= i < matches.len() ==> #[trigger] matches[i] == Some(i as usize),
    ensures
        mutual_pairs(matches, matches, n) == Seq::new(n, |i: int| (i as usize, i as usize)),
    decreases n,
{
    if n > 0 {
        lemma_mutual_pairs_identity(matches, (n - 1) as nat);
        assert(reciprocated(matches, matches, n - 1));
    }
    assert(mutual_pairs(matches, matches, n) =~= Seq::new(n, |i: int| (i as usize, i as usize)));
}

/// Matching a set against itself pairs every descriptor with itself, provided
/// that any two of its descriptors are more than `margin` bits apart: the
/// symmetric matches of `a` with `a` are `(0, 0)`, `(1, 1)` and so on, one for
/// each position. Without the separation a descriptor has a rival within the
/// margin and matches nothing.
pub proof fn lemma_self_match(a: Seq<Seq<u8>>, margin: nat)
    requires
        a.len() <= usize::MAX,
        forall|i: int, l: int|
            0 <= i < a.len() && 0 <= l < a.len() && i != l ==> margin < hamming_distance(
                #[trigger] a[i],
                #[trigger] a[l],
            ),
    ensures
        symmetric(a, a, margin) == Seq::new(a.len(), |i: int| (i as usize, i as usize)),
{
    let matches = one_directional(a, a, margin);
    assert forall|i: int| 0 <= i < matches.len() implies #[trigger] matches[i] == Some(
        i as usize,
    ) by {
        lemma_hamming_self(a[i]);
        assert(isolated(a, a[i], margin, i));
        lemma_isolated_unique(a, a[i], margin, choose|x: int| isolated(a, a[i], margin, x), i);
    }
    lemma_mutual_pairs_identity(matches, a.len());
}

} // verus!
