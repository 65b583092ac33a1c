//! Parent-tree reconstruction and sibling selection.

use von_neumann::hierarchy::{reform_parent_tree, Placement};
use von_neumann::influence::{massive_descending, recompute_siblings, select_siblings};
use von_neumann::orbital::SphereOfInfluence;

/// A symmetric distance matrix from the given upper-triangle entries.
fn matrix(n: usize, entries: &[(usize, usize, u64)]) -> Vec<Vec<u64>> {
    let mut m = vec![vec![0u64; n]; n];
    for &(i, j, d) in entries {
        m[i][j] = d;
        m[j][i] = d;
    }
    m
}

#[test]
fn heaviest_body_is_the_unparented_root() {
    // masses descending: body 0 is the root whatever the distances say
    let ids = vec![7usize, 8, 9];
    let masses = vec![1_000_000u64, 1_000, 10];
    let dist = matrix(3, &[(0, 1, 100), (0, 2, 50), (1, 2, 5)]);
    let soi = matrix(3, &[(1, 0, 20), (2, 0, 1), (2, 1, 2)]);
    let r: Vec<Placement> = reform_parent_tree(&ids, &masses, &dist, &soi);
    assert_eq!(r.len(), 3);
    assert_eq!(r[0].parent, None);
    assert_eq!(r[0].soi, SphereOfInfluence::Infinite);
    // every other body got exactly one strictly heavier parent
    assert_eq!(r[1].parent, Some(7));
    assert_eq!(r[2].parent, Some(8));
}

#[test]
fn nearest_capturing_body_wins() {
    // body 2 sits inside body 1's sphere and much nearer to it than to the
    // root, so body 1 captures it and records it as a child
    let ids = vec![0usize, 1, 2];
    let masses = vec![1_000_000u64, 1_000, 10];
    let dist = matrix(3, &[(0, 1, 100), (0, 2, 95), (1, 2, 5)]);
    let soi = matrix(3, &[(1, 0, 20), (2, 0, 7), (2, 1, 3)]);
    let r = reform_parent_tree(&ids, &masses, &dist, &soi);
    assert_eq!(r[1].parent, Some(0));
    assert_eq!(r[1].soi, SphereOfInfluence::Finite(20));
    assert_eq!(r[2].parent, Some(1));
    // the sphere handed back is the one computed against the chosen parent
    assert_eq!(r[2].soi, SphereOfInfluence::Finite(3));
    assert_eq!(r[0].children, vec![1]);
    assert_eq!(r[1].children, vec![2]);
    assert_eq!(r[2].children, Vec::<usize>::new());
}

#[test]
fn capture_needs_strictly_larger_sphere() {
    // body 2 lies at exactly body 1's sphere radius: not captured, so it
    // falls to the root even though body 1 is nearer
    let ids = vec![0usize, 1, 2];
    let masses = vec![1_000_000u64, 1_000, 10];
    let dist = matrix(3, &[(0, 1, 100), (0, 2, 95), (1, 2, 20)]);
    let soi = matrix(3, &[(1, 0, 20), (2, 0, 7), (2, 1, 3)]);
    let r = reform_parent_tree(&ids, &masses, &dist, &soi);
    assert_eq!(r[2].parent, Some(0));
    assert_eq!(r[2].soi, SphereOfInfluence::Finite(7));
    assert_eq!(r[0].children, vec![1, 2]);
}

#[test]
fn distance_ties_go_to_the_earlier_handled_body() {
    // bodies 0 and 1 both capture body 2 at the same distance; the
    // heavier body, handled first, wins the tie
    let ids = vec![0usize, 1, 2];
    let masses = vec![1_000_000u64, 1_000, 10];
    let dist = matrix(3, &[(0, 1, 100), (0, 2, 10), (1, 2, 10)]);
    let soi = matrix(3, &[(1, 0, 30), (2, 0, 4), (2, 1, 5)]);
    let r = reform_parent_tree(&ids, &masses, &dist, &soi);
    assert_eq!(r[2].parent, Some(0));
    assert_eq!(r[2].soi, SphereOfInfluence::Finite(4));
    assert_eq!(r[0].children, vec![1, 2]);
}

#[test]
fn equal_masses_fall_back_to_index_order() {
    // on equal mass keys the smaller index is handled first and becomes root
    let ids = vec![3usize, 4];
    let masses = vec![500u64, 500];
    let dist = matrix(2, &[(0, 1, 10)]);
    let soi = matrix(2, &[(1, 0, 4)]);
    let r = reform_parent_tree(&ids, &masses, &dist, &soi);
    assert_eq!(r[0].parent, None);
    assert_eq!(r[0].soi, SphereOfInfluence::Infinite);
    assert_eq!(r[1].parent, Some(3));
    assert_eq!(r[0].children, vec![4]);
}

#[test]
fn single_body_world() {
    let r = reform_parent_tree(&vec![42usize], &vec![1u64], &vec![vec![0u64]], &vec![vec![0u64]]);
    assert_eq!(r.len(), 1);
    assert_eq!(r[0].parent, None);
    assert_eq!(r[0].soi, SphereOfInfluence::Infinite);
    assert!(r[0].children.is_empty());
}

#[test]
fn empty_world() {
    let r = reform_parent_tree(&Vec::new(), &Vec::new(), &Vec::new(), &Vec::new());
    assert!(r.is_empty());
}

#[test]
fn massive_list_is_filtered_and_mass_ordered() {
    let masses = vec![5u64, 10, 10, 1];
    let order = massive_descending(&masses, 1);
    assert_eq!(order, vec![(1, 10), (2, 10), (0, 5)]);
    // a higher cutoff drops more bodies; the cutoff itself is excluded
    let order2 = massive_descending(&masses, 5);
    assert_eq!(order2, vec![(1, 10), (2, 10)]);
}

#[test]
fn siblings_never_include_the_body_itself() {
    // the body's own entry is in the candidate list and is passed over
    let cands = vec![(3usize, 1_000_000u64), (7, 500_000), (9, 400_000)];
    let sibs = select_siblings(7, &cands);
    assert!(!sibs.contains(&7));
    assert_eq!(sibs, vec![3, 9]);
}

#[test]
fn selection_stops_at_first_weak_candidate() {
    // the third pull is under 0.1% of the accumulated total, so selection
    // stops there and never reaches the strong fourth candidate
    let cands = vec![
        (1usize, 1_000_000u64),
        (2, 600_000),
        (3, 1_500),
        (4, 900_000),
    ];
    let sibs = select_siblings(0, &cands);
    assert_eq!(sibs, vec![1, 2]);
}

#[test]
fn first_candidate_is_always_kept() {
    // even a pull of zero is kept when it is the first one examined
    let cands = vec![(5usize, 0u64), (6, 0)];
    let sibs = select_siblings(0, &cands);
    assert_eq!(sibs, vec![5]);
}

#[test]
fn world_pass_replaces_every_sibling_list() {
    // two heavy bodies and a light one; each body sees the massive list
    // with its own pulls, and its own entry is skipped
    let ids = vec![10usize, 11, 12];
    let cand_ids = vec![10usize, 11];
    let pulls = vec![
        vec![0u64, 800_000],
        vec![900_000, 0],
        vec![500_000, 400_000],
    ];
    let lists = recompute_siblings(&ids, &cand_ids, &pulls);
    assert_eq!(lists.len(), 3);
    assert_eq!(lists[0], vec![11]);
    assert_eq!(lists[1], vec![10]);
    assert_eq!(lists[2], vec![10, 11]);
}

#[test]
fn sibling_relation_need_not_be_symmetric() {
    // seen from the light body, the heavy neighbours both matter; seen from
    // the heavy body, the light one is far below the threshold
    let massive = vec![(0usize, 1_000_000_000u64), (1, 999_000_000)];
    let from_light = select_siblings(2, &massive);
    assert_eq!(from_light, vec![0, 1]);
    let cands_for_heavy = vec![(0usize, 1_000_000_000u64), (1, 999_000_000), (2, 10)];
    let from_heavy = select_siblings(0, &cands_for_heavy);
    assert!(from_heavy.contains(&1));
    assert!(!from_heavy.contains(&2));
}
