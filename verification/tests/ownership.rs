use depthsprite::ownership_fixpoint;

#[test]
fn a_better_kept_candidate_takes_the_sample() {
    let masks = ownership_fixpoint(2, &vec![1, 0], &vec![vec![], vec![1]], &vec![(1, 0)]);
    assert_eq!(masks.kept, vec![false, true]);
    assert_eq!(masks.banned, vec![false, false]);
}

#[test]
fn a_cut_edge_bans_its_far_endpoint_until_nothing_changes() {
    let masks = ownership_fixpoint(3, &vec![0, 1, 2], &vec![vec![], vec![0], vec![]], &vec![(0, 2)]);
    assert_eq!(masks.kept, vec![true, false, false]);
    assert_eq!(masks.banned, vec![false, false, true]);
}

#[test]
fn a_ban_releases_the_samples_it_had_taken() {
    let masks = ownership_fixpoint(3, &vec![0, 1, 2], &vec![vec![], vec![], vec![1]], &vec![(0, 1)]);
    assert_eq!(masks.kept, vec![true, false, true]);
    assert_eq!(masks.banned, vec![false, true, false]);
}

#[test]
fn texels_outside_the_sweep_are_never_kept() {
    let masks = ownership_fixpoint(4, &vec![3, 1], &vec![vec![], vec![]], &vec![]);
    assert_eq!(masks.kept, vec![false, true, false, true]);
    assert_eq!(masks.banned, vec![false; 4]);
}
