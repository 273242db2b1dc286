use rustc_utils::outlives::{
    components, Component, InferCtxt, InferTy, ParamTy, ProjectionTy, Region, Ty, TyKind,
};

fn leaf(kind: TyKind) -> Ty {
    Ty { kind, regions: vec![], subtys: vec![] }
}

fn free(id: u32) -> Region {
    Region { id, late_bound: false }
}

fn bound(id: u32) -> Region {
    Region { id, late_bound: true }
}

fn param(idx: u32) -> Ty {
    leaf(TyKind::Param(ParamTy { idx }))
}

fn empty_ctxt() -> InferCtxt {
    InferCtxt { type_vars: vec![] }
}

#[test]
fn reference_to_param_gives_region_then_param() {
    // &'1 T0
    let ty = Ty { kind: TyKind::Ref, regions: vec![free(1)], subtys: vec![param(0)] };
    assert_eq!(
        components(&empty_ctxt(), &ty),
        vec![Component::Region(free(1)), Component::Param(ParamTy { idx: 0 })]
    );
}

#[test]
fn scalars_give_nothing() {
    for kind in [TyKind::Bool, TyKind::Char, TyKind::Int, TyKind::Uint, TyKind::Float, TyKind::Str] {
        assert_eq!(components(&empty_ctxt(), &leaf(kind)), vec![]);
    }
}

#[test]
fn bound_regions_are_skipped() {
    let ty = Ty { kind: TyKind::Struct, regions: vec![bound(1), free(2), bound(3)], subtys: vec![] };
    assert_eq!(components(&empty_ctxt(), &ty), vec![Component::Region(free(2))]);
}

#[test]
fn nested_types_are_walked_in_order() {
    // (&'1 T0, Vec<&'2 T1>)
    let first = Ty { kind: TyKind::Ref, regions: vec![free(1)], subtys: vec![param(0)] };
    let inner = Ty { kind: TyKind::Ref, regions: vec![free(2)], subtys: vec![param(1)] };
    let second = Ty { kind: TyKind::Struct, regions: vec![], subtys: vec![inner] };
    let ty = Ty { kind: TyKind::Tuple, regions: vec![], subtys: vec![first, second] };
    assert_eq!(
        components(&empty_ctxt(), &ty),
        vec![
            Component::Region(free(1)),
            Component::Param(ParamTy { idx: 0 }),
            Component::Region(free(2)),
            Component::Param(ParamTy { idx: 1 }),
        ]
    );
}

#[test]
fn function_and_trait_types_are_grouped() {
    // fn(&'1 T0) with a late-bound region, and a trait object with region '3
    let arg = Ty { kind: TyKind::Ref, regions: vec![free(1)], subtys: vec![param(0)] };
    let fn_ty = Ty { kind: TyKind::BareFn, regions: vec![bound(9)], subtys: vec![arg] };
    assert_eq!(
        components(&empty_ctxt(), &fn_ty),
        vec![Component::RFC1214(vec![
            Component::Region(free(1)),
            Component::Param(ParamTy { idx: 0 }),
        ])]
    );
    let obj = Ty { kind: TyKind::Trait, regions: vec![free(3)], subtys: vec![param(2)] };
    assert_eq!(
        components(&empty_ctxt(), &obj),
        vec![Component::RFC1214(vec![
            Component::Region(free(3)),
            Component::Param(ParamTy { idx: 2 }),
        ])]
    );
}

#[test]
fn projections_without_escaping_regions_stand_for_themselves() {
    let data = ProjectionTy { item: 7, escaping_regions: false };
    let ty = Ty { kind: TyKind::Projection(data), regions: vec![free(1)], subtys: vec![param(0)] };
    assert_eq!(components(&empty_ctxt(), &ty), vec![Component::Projection(data)]);
}

#[test]
fn projections_with_escaping_regions_give_their_parts() {
    let data = ProjectionTy { item: 7, escaping_regions: true };
    let ty = Ty {
        kind: TyKind::Projection(data),
        regions: vec![bound(1), free(2)],
        subtys: vec![param(0)],
    };
    assert_eq!(
        components(&empty_ctxt(), &ty),
        vec![Component::EscapingProjection(vec![
            Component::Region(free(2)),
            Component::Param(ParamTy { idx: 0 }),
        ])]
    );
}

#[test]
fn closures_give_the_components_of_their_captures_only() {
    let captured = Ty { kind: TyKind::Ref, regions: vec![free(4)], subtys: vec![param(1)] };
    let ty = Ty {
        kind: TyKind::Closure(vec![captured]),
        regions: vec![free(5)],
        subtys: vec![param(0)],
    };
    assert_eq!(
        components(&empty_ctxt(), &ty),
        vec![Component::Region(free(4)), Component::Param(ParamTy { idx: 1 })]
    );
}

#[test]
fn inference_variables_are_resolved_when_they_can_be() {
    let value = Ty { kind: TyKind::Ref, regions: vec![free(8)], subtys: vec![leaf(TyKind::Int)] };
    let infcx = InferCtxt { type_vars: vec![None, Some(value)] };
    // ?1 has a value, ?0 has none, ?5 is not in the table.
    let ty = Ty {
        kind: TyKind::Tuple,
        regions: vec![],
        subtys: vec![
            leaf(TyKind::Infer(InferTy { var: 1 })),
            leaf(TyKind::Infer(InferTy { var: 0 })),
            leaf(TyKind::Infer(InferTy { var: 5 })),
        ],
    };
    assert_eq!(
        components(&infcx, &ty),
        vec![
            Component::Region(free(8)),
            Component::UnresolvedInferenceVariable(InferTy { var: 0 }),
            Component::UnresolvedInferenceVariable(InferTy { var: 5 }),
        ]
    );
}

#[test]
fn resolved_values_may_hold_unresolved_variables() {
    let value = Ty {
        kind: TyKind::Struct,
        regions: vec![],
        subtys: vec![leaf(TyKind::Infer(InferTy { var: 1 }))],
    };
    let infcx = InferCtxt { type_vars: vec![Some(value), None] };
    let ty = leaf(TyKind::Infer(InferTy { var: 0 }));
    assert_eq!(
        components(&infcx, &ty),
        vec![Component::UnresolvedInferenceVariable(InferTy { var: 1 })]
    );
}
