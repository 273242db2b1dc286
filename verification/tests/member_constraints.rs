use rustc_utils::member_constraints::{
    add_region, apply_member_constraint, member_choice, AppliedMemberConstraint,
};

fn rel() -> Vec<Vec<bool>> {
    // 0 outlives everything, 1 outlives 2, 2 outlives only itself.
    vec![vec![true, true, true], vec![false, true, true], vec![false, false, true]]
}

#[test]
fn least_fitting_choice() {
    let r = rel();
    assert_eq!(member_choice(&vec![0, 1, 2], &vec![], &vec![], &r), Some(2));
    assert_eq!(member_choice(&vec![0, 1, 2], &vec![1], &vec![], &r), Some(1));
    assert_eq!(member_choice(&vec![0, 1, 2], &vec![1], &vec![1], &r), Some(1));
    assert_eq!(member_choice(&vec![1, 2], &vec![0], &vec![], &r), None);
    let unrelated = vec![vec![true, false], vec![false, true]];
    assert_eq!(member_choice(&vec![0, 1], &vec![], &vec![], &unrelated), None);
}

#[test]
fn applying_grows_the_member_value() {
    let r = rel();
    let scc_of = vec![2, 1, 0];
    let mut values = vec![vec![10], vec![20, 10], vec![30]];
    let mut applied = Vec::new();
    // the choice is region 1, whose SCC holds 20 and 10
    let changed = apply_member_constraint(&mut values, &mut applied, 0, 7, &vec![0, 1], &vec![1], &vec![], &r, &scc_of);
    assert!(changed);
    assert_eq!(values[0], vec![10, 20]);
    assert_eq!(applied, vec![AppliedMemberConstraint { member_region_scc: 0, min_choice: 1, member_constraint_index: 7 }]);
    // choosing region 2 adds its own SCC: nothing new
    let changed = apply_member_constraint(&mut values, &mut applied, 0, 8, &vec![2], &vec![], &vec![], &r, &scc_of);
    assert!(!changed);
    assert_eq!(applied.len(), 1);
    // no choice fits
    let changed = apply_member_constraint(&mut values, &mut applied, 1, 9, &vec![2], &vec![0], &vec![], &r, &scc_of);
    assert!(!changed);
    assert_eq!(values, vec![vec![10, 20], vec![20, 10], vec![30]]);
}

#[test]
fn add_region_unions_values() {
    let mut values = vec![vec![1, 2], vec![2, 3, 3, 4]];
    assert!(add_region(&mut values, 0, 1));
    assert_eq!(values[0], vec![1, 2, 3, 4]);
    assert!(!add_region(&mut values, 0, 1));
}
