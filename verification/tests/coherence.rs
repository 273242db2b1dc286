use rustc_utils::coherence::{
    lookup_impl_trait_ref, orphan_check, Ctxt, DefId, ImplTraitRef, OrphanCheckErr, ParamTy,
    TraitRef, Ty, TyKind, LOCAL_CRATE,
};

const OTHER_CRATE: u32 = 3;

fn local(node: u32) -> DefId {
    DefId { krate: LOCAL_CRATE, node }
}

fn foreign(node: u32) -> DefId {
    DefId { krate: OTHER_CRATE, node }
}

fn ty(kind: TyKind, subtys: Vec<Ty>) -> Ty {
    Ty { kind, subtys }
}

fn param(idx: u32) -> Ty {
    ty(TyKind::Param(ParamTy { idx }), vec![])
}

fn check(trait_id: DefId, inputs: Vec<Ty>, owned_box: Option<DefId>) -> Result<(), OrphanCheckErr> {
    let impl_id = local(100);
    let tcx = Ctxt {
        impl_trait_refs: vec![ImplTraitRef {
            impl_def_id: impl_id,
            trait_ref: TraitRef { def_id: trait_id, input_types: inputs },
        }],
        owned_box,
    };
    orphan_check(&tcx, impl_id)
}

#[test]
fn local_traits_may_be_implemented_for_anything() {
    assert_eq!(check(local(1), vec![ty(TyKind::Int, vec![]), param(0)], None), Ok(()));
}

#[test]
fn foreign_traits_need_a_local_input_type() {
    assert_eq!(
        check(foreign(1), vec![ty(TyKind::Int, vec![])], None),
        Err(OrphanCheckErr::NoLocalInputType)
    );
    assert_eq!(
        check(foreign(1), vec![ty(TyKind::Struct(foreign(2)), vec![])], None),
        Err(OrphanCheckErr::NoLocalInputType)
    );
    assert_eq!(check(foreign(1), vec![ty(TyKind::Struct(local(2)), vec![])], None), Ok(()));
    assert_eq!(check(foreign(1), vec![ty(TyKind::Enum(local(2)), vec![])], None), Ok(()));
    assert_eq!(check(foreign(1), vec![ty(TyKind::Trait(local(2)), vec![])], None), Ok(()));
}

#[test]
fn a_local_type_nested_anywhere_counts() {
    // &Vec<Local>
    let inner = ty(TyKind::Struct(local(2)), vec![]);
    let t = ty(TyKind::Rptr, vec![ty(TyKind::Vec, vec![inner])]);
    assert_eq!(check(foreign(1), vec![t], None), Ok(()));
}

#[test]
fn parameters_must_be_covered_by_a_local_type() {
    // impl Foreign for (T0, Local)
    let t = ty(TyKind::Tup, vec![param(0), ty(TyKind::Struct(local(2)), vec![])]);
    assert_eq!(
        check(foreign(1), vec![t], None),
        Err(OrphanCheckErr::UncoveredTypeParameter(ParamTy { idx: 0 }))
    );
    // impl Foreign<T1> for Local<T0>
    let covered = ty(TyKind::Struct(local(2)), vec![param(0)]);
    assert_eq!(
        check(foreign(1), vec![covered, param(1)], None),
        Err(OrphanCheckErr::UncoveredTypeParameter(ParamTy { idx: 1 }))
    );
    // impl Foreign for Local<T0, Vec<T1>>
    let both = ty(TyKind::Struct(local(2)), vec![param(0), ty(TyKind::Vec, vec![param(1)])]);
    assert_eq!(check(foreign(1), vec![both], None), Ok(()));
}

#[test]
fn boxes_are_local_only_when_the_box_lang_item_is() {
    let boxed = || ty(TyKind::Uniq, vec![param(0)]);
    assert_eq!(check(foreign(1), vec![boxed()], Some(local(9))), Ok(()));
    assert_eq!(
        check(foreign(1), vec![boxed()], Some(foreign(9))),
        Err(OrphanCheckErr::NoLocalInputType)
    );
    assert_eq!(check(foreign(1), vec![boxed()], None), Err(OrphanCheckErr::NoLocalInputType));
}

#[test]
fn the_first_entry_for_an_impl_is_used() {
    let tcx = Ctxt {
        impl_trait_refs: vec![
            ImplTraitRef {
                impl_def_id: local(7),
                trait_ref: TraitRef { def_id: local(1), input_types: vec![] },
            },
            ImplTraitRef {
                impl_def_id: local(8),
                trait_ref: TraitRef { def_id: foreign(1), input_types: vec![param(0)] },
            },
            ImplTraitRef {
                impl_def_id: local(8),
                trait_ref: TraitRef { def_id: local(1), input_types: vec![] },
            },
        ],
        owned_box: None,
    };
    assert_eq!(lookup_impl_trait_ref(&tcx, local(8)).map(|t| t.def_id), Some(foreign(1)));
    assert!(lookup_impl_trait_ref(&tcx, local(9)).is_none());
    assert_eq!(orphan_check(&tcx, local(7)), Ok(()));
    assert_eq!(orphan_check(&tcx, local(8)), Err(OrphanCheckErr::NoLocalInputType));
}
