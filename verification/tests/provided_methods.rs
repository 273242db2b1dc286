use rustc_utils::provided_methods::{
    subst_receiver_types_in_method_ty, CoherenceError, CoherenceTables, FnSig, ImplItem, ImplTrait,
    ProvidedMethodInfo, ProvidedMethodSource, TraitMethod,
};
use rustc_utils::vtables::Ty;

fn show(t: &Ty) -> String {
    match t {
        Ty::Param(i) => format!("P{}", i),
        Ty::SelfTy => "Self".to_string(),
        Ty::Infer(v) => format!("?{}", v),
        Ty::Con(c, args) => format!("C{}({})", c, args.iter().map(show).collect::<Vec<_>>().join(",")),
    }
}

fn show_sig(f: &FnSig) -> String {
    format!("fn({}) -> {}", f.inputs.iter().map(show).collect::<Vec<_>>().join(","), show(&f.output))
}

/// A trait method with one own type parameter: `fn(P0, P1) -> Self`, where
/// `P0` is the trait's parameter and `P1` the method's own.
fn method(def_id: u64, ident: u32) -> TraitMethod {
    TraitMethod {
        def_id,
        ident,
        generics: vec![def_id * 10],
        fty: FnSig { inputs: vec![Ty::Param(0), Ty::Param(1)], output: Ty::SelfTy },
        transformed_self_ty: Some(Ty::Con(4, vec![Ty::SelfTy])),
        self_type: 0,
    }
}

fn info(did: u64, m: &TraitMethod) -> ProvidedMethodInfo {
    ProvidedMethodInfo {
        did,
        n_tps: m.generics.len(),
        ident: m.ident,
        self_type: m.self_type,
        trait_method_def_id: m.def_id,
    }
}

fn empty_tables(next_id: u64) -> CoherenceTables {
    CoherenceTables {
        next_id,
        provided_method_sources: vec![],
        provided_methods: vec![],
        tcache: vec![],
        methods: vec![],
        extension_methods: vec![],
        inherent_methods: vec![],
        base_type_def_ids: vec![],
        impls: vec![],
    }
}

#[test]
fn moved_method_gets_trait_arguments_and_shifted_parameters() {
    let m = method(100, 1);
    let trait_tps = vec![Ty::Con(7, vec![])];
    let moved = subst_receiver_types_in_method_ty(2, &trait_tps, &Some(Ty::Con(8, vec![])), 55, &m);
    assert_eq!(moved.def_id, 55);
    assert_eq!(show_sig(&moved.fty), "fn(C7(),P2) -> C8()");
    assert_eq!(show(moved.transformed_self_ty.as_ref().unwrap()), "C4(C8())");
    assert_eq!(moved.generics, vec![1000]);
}

#[test]
fn default_methods_get_fresh_ids_in_trait_order() {
    let methods = vec![method(100, 1), method(101, 2), method(102, 3)];
    let earlier = info(9, &method(90, 9));
    let mut tables = empty_tables(50);
    tables.provided_methods = vec![(7, vec![earlier])];
    let trait_tps = vec![Ty::Con(7, vec![])];
    let self_ty = Some(Ty::Con(8, vec![]));
    tables.instantiate_default_methods(7, &vec![70, 71], Some(3), &trait_tps, &self_ty, &methods, &vec![3, 1]);
    assert_eq!(tables.next_id, 52);
    assert_eq!(
        tables.provided_method_sources,
        vec![
            (50, ProvidedMethodSource { method_id: 100, impl_id: 7 }),
            (51, ProvidedMethodSource { method_id: 102, impl_id: 7 }),
        ]
    );
    assert_eq!(tables.provided_methods, vec![(7, vec![earlier, info(50, &methods[0]), info(51, &methods[2])])]);
    assert_eq!(tables.tcache.len(), 2);
    assert_eq!(tables.tcache[0].0, 50);
    assert_eq!(tables.tcache[0].1.type_param_defs, vec![70, 71, 1000]);
    assert_eq!(tables.tcache[0].1.region_param, Some(3));
    assert_eq!(show_sig(&tables.tcache[0].1.ty), "fn(C7(),P2) -> C8()");
    assert_eq!(tables.tcache[1].1.type_param_defs, vec![70, 71, 1020]);
    assert_eq!(tables.methods.len(), 2);
    assert_eq!(tables.methods[1].0, 51);
    assert_eq!(tables.methods[1].1.def_id, 51);
    assert_eq!(tables.methods[1].1.ident, 3);

    tables.instantiate_default_methods(8, &vec![], None, &trait_tps, &self_ty, &methods, &vec![2]);
    assert_eq!(tables.provided_methods[1], (8, vec![info(52, &methods[1])]));
    assert_eq!(tables.next_id, 53);
    assert_eq!(show_sig(&tables.tcache[2].1.ty), "fn(C7(),P0) -> C8()");

    tables.instantiate_default_methods(9, &vec![], None, &trait_tps, &self_ty, &methods, &vec![]);
    assert_eq!(tables.provided_methods.len(), 2);
    assert_eq!(tables.next_id, 53);
    assert_eq!(tables.tcache.len(), 3);
}

fn trait_of(def_id: u64, methods: Vec<TraitMethod>, provided: Vec<u32>) -> ImplTrait {
    ImplTrait { def_id, methods, provided, tps: vec![Ty::Con(7, vec![])], self_ty: Some(Ty::Con(8, vec![])) }
}

#[test]
fn check_implementation_records_trait_impls() {
    let mut tables = empty_tables(50);
    tables.extension_methods = vec![(300, vec![1])];
    let item = ImplItem {
        id: 20,
        ident: 5,
        methods: vec![(21, 1)],
        generics: vec![70],
        region_param: None,
        base_type: Some(400),
        traits: vec![
            trait_of(300, vec![method(100, 1), method(101, 2), method(102, 3)], vec![2]),
            trait_of(301, vec![method(110, 4), method(111, 5)], vec![5]),
        ],
    };
    let errors = tables.check_implementation(&item);
    assert_eq!(errors, vec![CoherenceError::MissingMethod(300, 3), CoherenceError::MissingMethod(301, 4)]);
    assert_eq!(tables.next_id, 52);
    assert_eq!(
        tables.provided_method_sources,
        vec![
            (50, ProvidedMethodSource { method_id: 101, impl_id: 20 }),
            (51, ProvidedMethodSource { method_id: 111, impl_id: 20 }),
        ]
    );
    assert_eq!(tables.tcache[1].1.type_param_defs, vec![70, 1110]);
    assert_eq!(tables.extension_methods, vec![(300, vec![1, 20]), (301, vec![20])]);
    assert_eq!(tables.impls.len(), 1);
    assert_eq!(tables.impls[0].did, 20);
    assert_eq!(tables.impls[0].methods, vec![21, 50, 50]);
    assert!(tables.inherent_methods.is_empty());
    assert_eq!(tables.base_type_def_ids, vec![(20, 400)]);
}

#[test]
fn check_implementation_of_inherent_impls() {
    let mut tables = empty_tables(50);
    let inherent = ImplItem {
        id: 30,
        ident: 6,
        methods: vec![(31, 1), (32, 2)],
        generics: vec![],
        region_param: None,
        base_type: Some(400),
        traits: vec![],
    };
    assert_eq!(tables.check_implementation(&inherent), vec![]);
    assert_eq!(tables.impls[0].methods, vec![31, 32]);
    assert_eq!(tables.inherent_methods, vec![(400, vec![30])]);
    assert_eq!(tables.base_type_def_ids, vec![(30, 400)]);
    let baseless = ImplItem {
        id: 40,
        ident: 7,
        methods: vec![],
        generics: vec![],
        region_param: None,
        base_type: None,
        traits: vec![],
    };
    assert_eq!(tables.check_implementation(&baseless), vec![CoherenceError::NoBaseType(40)]);
    assert_eq!(tables.impls.len(), 1);
    assert_eq!(tables.next_id, 50);
}
