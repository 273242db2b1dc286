use rustc_utils::lexical_region_resolve::{GenericKind, Region, RegionResolutionError, ScopeTree};
use rustc_utils::region_errors::{
    bound_is_met, collect_concrete_regions, collect_error_for_expanding_node, collect_errors,
    collect_var_errors, construct_graph, expand_node, expansion_round, free_bound,
    is_subregion_of, Constraint, Direction, VarValue, Verify, VerifyBound,
};

fn scopes() -> ScopeTree {
    // 0 is the root; 1 and 2 are inside 0; 3 and 4 are inside 1.
    ScopeTree {
        parent: vec![None, Some(0), Some(0), Some(1), Some(1)],
        depth: vec![0, 1, 1, 2, 2],
    }
}

fn sorted(mut v: Vec<(Region, u32)>) -> Vec<(Region, u32)> {
    v.sort_by_key(|p| p.1);
    v.dedup();
    v
}

#[test]
fn free_bounds_are_looked_up_by_pair() {
    let a = Region::Free { id: 1, scope: 0 };
    let b = Region::Free { id: 2, scope: 0 };
    let c = Region::Free { id: 3, scope: 0 };
    let tbl = vec![(a, b, c), (a, b, Region::Static), (b, a, a)];
    assert_eq!(free_bound(&tbl, a, b), Some(c));
    assert_eq!(free_bound(&tbl, b, a), Some(a));
    assert_eq!(free_bound(&tbl, a, c), None);
    let t = scopes();
    assert!(is_subregion_of(&t, &tbl, b, a));
    assert!(!is_subregion_of(&t, &tbl, a, b));
    assert!(is_subregion_of(&t, &tbl, Region::Scope(3), Region::Scope(1)));
}

#[test]
fn collect_errors_reports_failures_and_contracts_values() {
    let t = scopes();
    let tbl = Vec::new();
    let constraints = vec![
        (Constraint::RegSubReg(Region::Scope(3), Region::Scope(1)), 1),
        (Constraint::RegSubReg(Region::Scope(1), Region::Scope(3)), 2),
        (Constraint::VarSubReg(0, Region::Scope(3)), 3),
        (Constraint::VarSubReg(1, Region::Scope(1)), 4),
        (Constraint::VarSubVar(0, 1), 5),
        (Constraint::RegSubVar(Region::Scope(4), 1), 6),
    ];
    let verifys = vec![
        Verify {
            origin: 7,
            kind: GenericKind::Param(0),
            region: Region::Var(1),
            bound: VerifyBound::AnyRegion(vec![Region::Scope(2)]),
        },
        Verify {
            origin: 8,
            kind: GenericKind::Param(1),
            region: Region::Var(2),
            bound: VerifyBound::AnyRegion(vec![]),
        },
        Verify {
            origin: 9,
            kind: GenericKind::Projection(0),
            region: Region::Scope(4),
            bound: VerifyBound::AllBounds(vec![]),
        },
        Verify {
            origin: 10,
            kind: GenericKind::Projection(1),
            region: Region::Var(0),
            bound: VerifyBound::AnyRegion(vec![Region::Var(1), Region::Static]),
        },
    ];
    let mut values = vec![
        VarValue::Value(Region::Scope(1)),
        VarValue::Value(Region::Scope(4)),
        VarValue::Value(Region::Empty),
    ];
    let mut errors = Vec::new();
    collect_errors(&t, &tbl, &constraints, &verifys, &mut values, &mut errors);
    assert_eq!(
        values,
        vec![VarValue::ErrorValue, VarValue::Value(Region::Scope(4)), VarValue::Value(Region::Empty)]
    );
    assert_eq!(
        errors,
        vec![
            RegionResolutionError::ConcreteFailure(2, Region::Scope(1), Region::Scope(3)),
            RegionResolutionError::GenericBoundFailure(7, GenericKind::Param(0), Region::Scope(4)),
        ]
    );
}

#[test]
fn nested_bounds() {
    let t = scopes();
    let tbl = Vec::new();
    let values = vec![VarValue::Value(Region::Scope(1)), VarValue::ErrorValue];
    let any = VerifyBound::AnyBound(vec![
        VerifyBound::AllRegions(vec![Region::Scope(0), Region::Scope(2)]),
        VerifyBound::AllRegions(vec![Region::Var(0), Region::Var(1)]),
    ]);
    assert!(bound_is_met(&t, &tbl, &values, &any, Region::Scope(3)));
    let all = VerifyBound::AllBounds(vec![
        VerifyBound::AnyRegion(vec![Region::Var(0)]),
        VerifyBound::AnyRegion(vec![Region::Scope(2)]),
    ]);
    assert!(!bound_is_met(&t, &tbl, &values, &all, Region::Scope(3)));
    assert!(bound_is_met(&t, &tbl, &values, &all, Region::Empty));
}

#[test]
fn concrete_regions_of_a_walk() {
    let constraints = vec![
        (Constraint::RegSubVar(Region::Scope(3), 0), 10),
        (Constraint::VarSubVar(0, 1), 11),
        (Constraint::VarSubReg(1, Region::Scope(2)), 12),
        (Constraint::RegSubVar(Region::Scope(4), 1), 13),
        (Constraint::RegSubReg(Region::Static, Region::Empty), 14),
    ];
    let graph = construct_graph(3, &constraints);
    assert_eq!(graph.edges.len(), 4);
    let mut dup_vec = vec![u32::MAX; 3];
    let (lower, dup) = collect_concrete_regions(&graph, 1, Direction::Incoming, &mut dup_vec);
    assert_eq!(sorted(lower), vec![(Region::Scope(3), 10), (Region::Scope(4), 13)]);
    assert!(!dup);
    assert_eq!(dup_vec, vec![1, 1, u32::MAX]);
    let (upper, dup) = collect_concrete_regions(&graph, 0, Direction::Outgoing, &mut dup_vec);
    assert_eq!(sorted(upper), vec![(Region::Scope(2), 12)]);
    assert!(dup);
    assert_eq!(dup_vec, vec![1, 1, u32::MAX]);
    let (none, dup) = collect_concrete_regions(&graph, 2, Direction::Outgoing, &mut dup_vec);
    assert!(none.is_empty());
    assert!(!dup);
    assert_eq!(dup_vec, vec![1, 1, 2]);
}

#[test]
fn conflict_of_an_error_variable_prefers_free_regions() {
    let t = scopes();
    let tbl = Vec::new();
    let free = Region::Free { id: 5, scope: 0 };
    let constraints = vec![
        (Constraint::RegSubVar(Region::Scope(1), 0), 1),
        (Constraint::VarSubReg(0, Region::Scope(3)), 2),
        (Constraint::RegSubVar(free, 0), 3),
    ];
    let graph = construct_graph(1, &constraints);
    let mut dup_vec = vec![u32::MAX];
    let mut errors = Vec::new();
    collect_error_for_expanding_node(&t, &tbl, &graph, &vec![100], &mut dup_vec, 0, &mut errors);
    assert_eq!(
        errors,
        vec![RegionResolutionError::SubSupConflict(100, 3, free, 2, Region::Scope(3))]
    );
    assert_eq!(dup_vec, vec![0]);
}

#[test]
fn variables_reached_before_are_not_reported_again() {
    let t = scopes();
    let tbl = Vec::new();
    let constraints = vec![
        (Constraint::RegSubVar(Region::Scope(1), 1), 1),
        (Constraint::VarSubVar(1, 0), 2),
        (Constraint::VarSubReg(0, Region::Scope(3)), 3),
        (Constraint::RegSubVar(Region::Scope(4), 2), 4),
        (Constraint::VarSubReg(2, Region::Scope(4)), 5),
    ];
    let graph = construct_graph(3, &constraints);
    let values = vec![VarValue::ErrorValue, VarValue::ErrorValue, VarValue::Value(Region::Scope(4))];
    let mut errors = Vec::new();
    collect_var_errors(&t, &tbl, &graph, &vec![100, 101, 102], &values, &mut errors);
    assert_eq!(
        errors,
        vec![RegionResolutionError::SubSupConflict(100, 1, Region::Scope(1), 3, Region::Scope(3))]
    );
}

#[test]
fn expansion_rounds_reach_a_fixed_point() {
    let t = scopes();
    let tbl = Vec::new();
    let givens = Vec::new();
    let constraints = vec![
        (Constraint::RegSubVar(Region::Scope(3), 0), 1),
        (Constraint::VarSubVar(0, 1), 2),
        (Constraint::RegSubVar(Region::Scope(4), 1), 3),
        (Constraint::VarSubReg(1, Region::Scope(2)), 4),
    ];
    let mut values = vec![VarValue::Value(Region::Empty), VarValue::Value(Region::Empty)];
    assert!(expansion_round(&t, &tbl, &givens, &constraints, &mut values));
    assert_eq!(values, vec![VarValue::Value(Region::Scope(3)), VarValue::Value(Region::Scope(1))]);
    assert!(!expansion_round(&t, &tbl, &givens, &constraints, &mut values));
    assert_eq!(values, vec![VarValue::Value(Region::Scope(3)), VarValue::Value(Region::Scope(1))]);
}

#[test]
fn expanding_a_node() {
    let t = scopes();
    let tbl = Vec::new();
    let free = Region::Free { id: 1, scope: 1 };
    let givens = vec![(free, 0)];
    let mut d = VarValue::Value(Region::Scope(3));
    assert!(!expand_node(&t, &tbl, &givens, free, 0, &mut d));
    assert_eq!(d, VarValue::Value(Region::Scope(3)));
    assert!(expand_node(&t, &tbl, &givens, free, 1, &mut d));
    assert_eq!(d, VarValue::Value(free));
    let mut e = VarValue::ErrorValue;
    assert!(!expand_node(&t, &tbl, &givens, Region::Static, 0, &mut e));
    assert_eq!(e, VarValue::ErrorValue);
}
