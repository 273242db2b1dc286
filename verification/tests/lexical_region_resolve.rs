use rustc_utils::lexical_region_resolve::{
    check_concrete, is_free, is_free_or_static, lub_concrete_regions, lub_free_regions,
    sub_concrete_regions, Region, RegionResolutionError, ScopeTree,
};

fn tree() -> ScopeTree {
    // 0 is the root; 1 and 2 are inside 0; 3 and 4 are inside 1.
    ScopeTree {
        parent: vec![None, Some(0), Some(0), Some(1), Some(1)],
        depth: vec![0, 1, 1, 2, 2],
    }
}

#[test]
fn nearest_common_ancestor_of_scopes() {
    let t = tree();
    assert_eq!(t.nearest_common_ancestor(3, 4), 1);
    assert_eq!(t.nearest_common_ancestor(3, 2), 0);
    assert_eq!(t.nearest_common_ancestor(3, 1), 1);
    assert_eq!(t.nearest_common_ancestor(2, 2), 2);
}

#[test]
fn lub_of_scopes_is_their_common_scope() {
    let t = tree();
    assert_eq!(lub_concrete_regions(&t, Region::Scope(3), Region::Scope(4), None), Region::Scope(1));
    assert_eq!(lub_concrete_regions(&t, Region::Scope(4), Region::Scope(2), None), Region::Scope(0));
}

#[test]
fn static_and_empty() {
    let t = tree();
    assert_eq!(lub_concrete_regions(&t, Region::Static, Region::Scope(3), None), Region::Static);
    assert_eq!(lub_concrete_regions(&t, Region::Empty, Region::Scope(2), None), Region::Scope(2));
    assert_eq!(lub_concrete_regions(&t, Region::Skolemized(1), Region::Empty, None), Region::Skolemized(1));
}

#[test]
fn free_region_against_scope() {
    let t = tree();
    let outer = Region::Free { id: 7, scope: 1 };
    assert_eq!(lub_concrete_regions(&t, outer, Region::Scope(3), None), outer);
    assert_eq!(lub_concrete_regions(&t, Region::Scope(3), outer, None), outer);
    let inner = Region::EarlyBound { id: 8, scope: 3 };
    assert_eq!(lub_concrete_regions(&t, inner, Region::Scope(1), None), Region::Static);
}

#[test]
fn free_regions_and_skolemized() {
    let t = tree();
    let a = Region::Free { id: 1, scope: 0 };
    let b = Region::EarlyBound { id: 2, scope: 0 };
    let c = Region::Free { id: 3, scope: 0 };
    assert_eq!(lub_concrete_regions(&t, a, a, None), a);
    assert_eq!(lub_concrete_regions(&t, a, b, Some(c)), c);
    assert_eq!(lub_concrete_regions(&t, a, b, None), Region::Static);
    assert_eq!(lub_free_regions(a, b, Some(c)), c);
    assert_eq!(lub_concrete_regions(&t, Region::Skolemized(1), Region::Skolemized(1), None), Region::Skolemized(1));
    assert_eq!(lub_concrete_regions(&t, Region::Skolemized(1), Region::Skolemized(2), None), Region::Static);
    assert_eq!(lub_concrete_regions(&t, Region::Skolemized(1), Region::Scope(2), None), Region::Static);
    assert!(is_free(&a) && is_free(&b) && !is_free(&Region::Static));
    assert!(is_free_or_static(&Region::Static) && !is_free_or_static(&Region::Scope(0)));
}

#[test]
fn subregions_and_concrete_failures() {
    let t = tree();
    assert!(sub_concrete_regions(&t, Region::Scope(3), Region::Scope(1), None));
    assert!(!sub_concrete_regions(&t, Region::Scope(1), Region::Scope(3), None));
    assert_eq!(check_concrete(&t, 5, Region::Scope(4), Region::Scope(0), None), None);
    assert_eq!(
        check_concrete(&t, 5, Region::Static, Region::Scope(0), None),
        Some(RegionResolutionError::ConcreteFailure(5, Region::Static, Region::Scope(0)))
    );
}

#[test]
fn lub_is_commutative_and_an_upper_bound() {
    let t = tree();
    let regions = [
        Region::Static,
        Region::Empty,
        Region::Scope(0),
        Region::Scope(2),
        Region::Scope(3),
        Region::Scope(4),
        Region::Free { id: 7, scope: 1 },
        Region::Skolemized(1),
    ];
    for &a in regions.iter() {
        for &b in regions.iter() {
            let l = lub_concrete_regions(&t, a, b, None);
            assert_eq!(l, lub_concrete_regions(&t, b, a, None));
            assert!(sub_concrete_regions(&t, a, l, None));
            assert!(sub_concrete_regions(&t, b, l, None));
        }
        assert_eq!(lub_concrete_regions(&t, a, a, None), a);
        assert_eq!(lub_concrete_regions(&t, Region::Static, a, None), Region::Static);
        assert_eq!(lub_concrete_regions(&t, a, Region::Empty, None), a);
    }
}
