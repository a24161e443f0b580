use descriptor_match::descriptor::Descriptor;
use descriptor_match::error::MatchError;
use descriptor_match::index::NearestNeighborIndex;
use descriptor_match::matcher::{
    accept, intersect, match_one, match_one_directional, match_one_directional_with_margin,
    symmetric_match, symmetric_match_with_margin, DEFAULT_MARGIN, NEIGHBOR_COUNT,
};
use descriptor_match::neighbor::Neighbor;

/// A 512-bit descriptor whose bits from `from` up to `to` are set.
fn ones_between(from: usize, to: usize) -> Descriptor {
    let mut bytes = vec![0u8; 64];
    for bit in from..to {
        bytes[bit / 8] |= 1 << (bit % 8);
    }
    Descriptor::new(bytes).unwrap()
}

/// A 512-bit descriptor whose first `ones` bits are set.
fn leading_ones(ones: usize) -> Descriptor {
    ones_between(0, ones)
}

fn neighbor(index: usize, distance: u32) -> Neighbor {
    Neighbor { index, distance }
}

#[test]
fn defaults() {
    assert_eq!(DEFAULT_MARGIN, 24);
    assert_eq!(NEIGHBOR_COUNT, 2);
}

#[test]
fn accept_needs_more_than_the_margin() {
    assert_eq!(accept(&[neighbor(4, 10), neighbor(7, 34)], 24), None);
    assert_eq!(accept(&[neighbor(4, 10), neighbor(7, 35)], 24), Some(4));
    assert_eq!(accept(&[neighbor(4, 10), neighbor(7, 10)], 0), None);
    assert_eq!(accept(&[neighbor(4, 10), neighbor(7, 11)], 0), Some(4));
}

#[test]
fn accept_takes_a_lone_neighbour() {
    assert_eq!(accept(&[neighbor(3, 500)], 24), Some(3));
    assert_eq!(accept(&[], 24), None);
}

#[test]
fn accept_does_not_overflow() {
    assert_eq!(accept(&[neighbor(0, u32::MAX - 1), neighbor(1, u32::MAX)], u32::MAX), None);
    assert_eq!(accept(&[neighbor(0, 0), neighbor(1, u32::MAX)], u32::MAX), None);
    assert_eq!(accept(&[neighbor(0, 0), neighbor(1, u32::MAX)], u32::MAX - 1), Some(0));
}

#[test]
fn match_one_margin_boundary() {
    // Distances from the probe: 10 and 34, then 10 and 35.
    let probe = leading_ones(0);
    let at_margin = vec![leading_ones(34), leading_ones(10)];
    let index = NearestNeighborIndex::build(&at_margin);
    assert_eq!(match_one(&index, &probe, 24), Ok(None));
    let past_margin = vec![leading_ones(35), leading_ones(10)];
    let index = NearestNeighborIndex::build(&past_margin);
    assert_eq!(match_one(&index, &probe, 24), Ok(Some(1)));
}

#[test]
fn match_one_with_ties() {
    let probe = leading_ones(0);
    let tied = vec![leading_ones(5), ones_between(100, 105), leading_ones(90)];
    let index = NearestNeighborIndex::build(&tied);
    assert_eq!(match_one(&index, &probe, 0), Ok(None));
    assert_eq!(match_one(&index, &probe, 24), Ok(None));
    let far_ties = vec![leading_ones(90), leading_ones(5), ones_between(100, 190)];
    let index = NearestNeighborIndex::build(&far_ties);
    assert_eq!(match_one(&index, &probe, 24), Ok(Some(1)));
}

#[test]
fn match_one_in_small_sets() {
    let probe = leading_ones(0);
    let none: Vec<Descriptor> = Vec::new();
    assert_eq!(match_one(&NearestNeighborIndex::build(&none), &probe, 24), Ok(None));
    let one = vec![leading_ones(400)];
    assert_eq!(match_one(&NearestNeighborIndex::build(&one), &probe, 24), Ok(Some(0)));
}

#[test]
fn match_one_refuses_another_width() {
    let reference = vec![leading_ones(1), leading_ones(2)];
    let index = NearestNeighborIndex::build(&reference);
    let narrow = Descriptor::new(vec![0u8; 32]).unwrap();
    assert_eq!(match_one(&index, &narrow, 24), Err(MatchError::InvalidArgument));
}

#[test]
fn one_directional_has_an_entry_for_each_source() {
    let a = vec![leading_ones(0), leading_ones(100), leading_ones(48), leading_ones(300)];
    let b = vec![leading_ones(100), leading_ones(2), leading_ones(290)];
    // Distances: a0: 100, 2, 290; a1: 0, 98, 190; a2: 52, 46, 242; a3: 200, 298, 10.
    assert_eq!(match_one_directional(&a, &b), Ok(vec![Some(1), Some(0), None, Some(2)]));
}

#[test]
fn one_directional_with_other_margins() {
    let a = vec![leading_ones(48)];
    let b = vec![leading_ones(100), leading_ones(2)];
    // Distances: 52 and 46.
    assert_eq!(match_one_directional_with_margin(&a, &b, 5), Ok(vec![Some(1)]));
    assert_eq!(match_one_directional_with_margin(&a, &b, 6), Ok(vec![None]));
    assert_eq!(match_one_directional_with_margin(&a, &b, 0), Ok(vec![Some(1)]));
}

#[test]
fn one_directional_with_empty_sets() {
    let some = vec![leading_ones(1), leading_ones(2)];
    let none: Vec<Descriptor> = Vec::new();
    assert_eq!(match_one_directional(&some, &none), Ok(vec![None, None]));
    assert_eq!(match_one_directional(&none, &some), Ok(vec![]));
    assert_eq!(match_one_directional(&none, &none), Ok(vec![]));
}

#[test]
fn one_directional_against_a_single_descriptor() {
    let a = vec![leading_ones(0), leading_ones(512)];
    let b = vec![leading_ones(256)];
    assert_eq!(match_one_directional(&a, &b), Ok(vec![Some(0), Some(0)]));
}

#[test]
fn one_directional_refuses_different_widths() {
    let wide = vec![leading_ones(1), leading_ones(2)];
    let narrow = vec![Descriptor::new(vec![0u8; 8]).unwrap()];
    assert_eq!(match_one_directional(&wide, &narrow), Err(MatchError::InvalidArgument));
    assert_eq!(match_one_directional(&narrow, &wide), Err(MatchError::InvalidArgument));
    let mixed = vec![leading_ones(1), Descriptor::new(vec![0u8; 8]).unwrap()];
    assert_eq!(match_one_directional(&wide, &mixed), Err(MatchError::InvalidArgument));
    assert_eq!(match_one_directional(&mixed, &wide), Err(MatchError::InvalidArgument));
}

#[test]
fn one_directional_with_mixed_widths_and_an_empty_side() {
    let mixed = vec![leading_ones(1), Descriptor::new(vec![0u8; 8]).unwrap()];
    let none: Vec<Descriptor> = Vec::new();
    assert_eq!(match_one_directional(&mixed, &none), Ok(vec![None, None]));
    assert_eq!(match_one_directional(&none, &mixed), Ok(vec![]));
}

#[test]
fn intersect_keeps_reciprocated_matches() {
    let forward = [Some(2), None, Some(0), Some(1)];
    let reverse = [Some(2), Some(0), Some(0)];
    assert_eq!(intersect(&forward, &reverse), vec![[0, 2], [2, 0]]);
}

#[test]
fn intersect_ignores_matches_out_of_range() {
    let forward = [Some(5), Some(0)];
    let reverse = [Some(1)];
    assert_eq!(intersect(&forward, &reverse), vec![[1, 0]]);
    assert_eq!(intersect(&forward, &[]), Vec::<[usize; 2]>::new());
    assert_eq!(intersect(&[], &reverse), Vec::<[usize; 2]>::new());
}

#[test]
fn symmetric_match_of_empty_and_two() {
    let d1 = leading_ones(7);
    let d2 = leading_ones(300);
    let none: Vec<Descriptor> = Vec::new();
    assert_eq!(symmetric_match(&none, &[d1.clone(), d2.clone()]), Ok(vec![]));
    assert_eq!(symmetric_match(&[d1, d2], &none), Ok(vec![]));
    assert_eq!(symmetric_match(&none, &none), Ok(vec![]));
}

#[test]
fn symmetric_match_of_one_and_itself() {
    let d1 = leading_ones(7);
    assert_eq!(symmetric_match(&[d1.clone()], &[d1]), Ok(vec![[0, 0]]));
}

#[test]
fn symmetric_match_on_a_line_with_the_default_margin() {
    // X---------Y--------Z at distances 10 and 9: nothing stands out by 24 bits.
    let line = vec![leading_ones(0), leading_ones(10), leading_ones(19)];
    assert_eq!(match_one_directional(&line, &line), Ok(vec![None, None, None]));
    assert_eq!(symmetric_match(&line, &line), Ok(vec![]));
}

#[test]
fn symmetric_match_rejects_the_one_sided_match() {
    // In `a` stand X and Y, in `b` stand Y and Z, on a line with
    // dist(X, Y) = 10, dist(Y, Z) = 9, dist(X, Z) = 19.
    let x = leading_ones(0);
    let y = leading_ones(10);
    let z = leading_ones(19);
    let a = vec![x.clone(), z.clone()];
    let b = vec![y.clone()];
    // With one candidate each way both X and Z take Y; Y takes Z, the nearer.
    assert_eq!(match_one_directional_with_margin(&a, &b, 0), Ok(vec![Some(0), Some(0)]));
    assert_eq!(match_one_directional_with_margin(&b, &a, 0), Ok(vec![Some(1)]));
    assert_eq!(symmetric_match_with_margin(&a, &b, 0), Ok(vec![[1, 0]]));
}

#[test]
fn symmetric_match_on_a_line_without_margin() {
    let x = leading_ones(0);
    let y = leading_ones(10);
    let z = leading_ones(19);
    // Each looks for its match among the other two.
    let all = vec![x.clone(), y.clone(), z.clone()];
    let others_of_x = vec![y.clone(), z.clone()];
    let others_of_y = vec![x.clone(), z.clone()];
    let others_of_z = vec![x.clone(), y.clone()];
    assert_eq!(match_one_directional_with_margin(&[x], &others_of_x, 0), Ok(vec![Some(0)]));
    assert_eq!(match_one_directional_with_margin(&[y], &others_of_y, 0), Ok(vec![Some(1)]));
    assert_eq!(match_one_directional_with_margin(&[z], &others_of_z, 0), Ok(vec![Some(1)]));
    // Against the whole line each descriptor finds itself.
    assert_eq!(symmetric_match_with_margin(&all, &all, 0), Ok(vec![[0, 0], [1, 1], [2, 2]]));
}

#[test]
fn symmetric_match_of_a_set_with_itself() {
    let a = vec![leading_ones(0), leading_ones(25), leading_ones(50), leading_ones(512)];
    assert_eq!(symmetric_match(&a, &a), Ok(vec![[0, 0], [1, 1], [2, 2], [3, 3]]));
}

#[test]
fn symmetric_match_of_a_crowded_set_with_itself() {
    // The two middle descriptors are 24 bits apart: within the margin.
    let a = vec![leading_ones(0), leading_ones(100), leading_ones(124), leading_ones(512)];
    assert_eq!(symmetric_match(&a, &a), Ok(vec![[0, 0], [3, 3]]));
    assert_eq!(symmetric_match_with_margin(&a, &a, 23), Ok(vec![[0, 0], [1, 1], [2, 2], [3, 3]]));
}

#[test]
fn symmetric_match_of_duplicates_with_themselves() {
    let a = vec![leading_ones(3), leading_ones(3)];
    assert_eq!(symmetric_match_with_margin(&a, &a, 0), Ok(vec![]));
}

#[test]
fn symmetric_match_pairs_are_matches_both_ways() {
    let a = vec![leading_ones(10), leading_ones(200), leading_ones(90), leading_ones(400)];
    let b = vec![leading_ones(405), leading_ones(205), leading_ones(0), leading_ones(500)];
    let forward = match_one_directional(&a, &b).unwrap();
    let reverse = match_one_directional(&b, &a).unwrap();
    let pairs = symmetric_match(&a, &b).unwrap();
    assert_eq!(forward, vec![Some(2), Some(1), Some(2), Some(0)]);
    assert_eq!(reverse, vec![Some(3), Some(1), Some(0), Some(3)]);
    assert_eq!(pairs, vec![[0, 2], [1, 1], [3, 0]]);
    for p in &pairs {
        assert_eq!(forward[p[0]], Some(p[1]));
        assert_eq!(reverse[p[1]], Some(p[0]));
    }
}

#[test]
fn symmetric_match_uses_each_index_once() {
    let a = vec![leading_ones(10), leading_ones(200), leading_ones(90), leading_ones(400)];
    let b = vec![leading_ones(405), leading_ones(205), leading_ones(0), leading_ones(500)];
    let pairs = symmetric_match(&a, &b).unwrap();
    for (s, p) in pairs.iter().enumerate() {
        for q in &pairs[s + 1..] {
            assert!(p[0] < q[0]);
            assert_ne!(p[1], q[1]);
        }
    }
}

#[test]
fn symmetric_match_is_repeatable() {
    let a = vec![leading_ones(10), leading_ones(200), leading_ones(90)];
    let b = vec![leading_ones(205), leading_ones(0)];
    assert_eq!(symmetric_match(&a, &b), symmetric_match(&a, &b));
}

#[test]
fn symmetric_match_refuses_different_widths() {
    let wide = vec![leading_ones(1), leading_ones(2)];
    let narrow = vec![Descriptor::new(vec![0u8; 8]).unwrap()];
    assert_eq!(symmetric_match(&wide, &narrow), Err(MatchError::InvalidArgument));
    assert_eq!(symmetric_match(&narrow, &wide), Err(MatchError::InvalidArgument));
}
