use rustc_utils::vtables::{
    dummy_substs, find_vtable, resolve_vtable_under_param_substs, resolve_vtables_under_param_substs,
    subst_tps, type_needs_infer, ParamSubsts, SelfRegion, Ty, VtableOrigin,
};

fn con(c: u32, args: Vec<Ty>) -> Ty {
    Ty::Con(c, args)
}

fn substs() -> ParamSubsts {
    ParamSubsts {
        tys: vec![con(1, vec![]), con(2, vec![con(1, vec![])])],
        vtables: Some(vec![
            vec![VtableOrigin::Static(10, vec![], vec![])],
            vec![VtableOrigin::Static(11, vec![], vec![]), VtableOrigin::Static(12, vec![con(1, vec![])], vec![])],
        ]),
        self_ty: Some(con(3, vec![])),
        self_vtable: Some(VtableOrigin::Static(20, vec![], vec![])),
    }
}

fn show(t: &Ty) -> String {
    match t {
        Ty::Param(i) => format!("P{}", i),
        Ty::SelfTy => "Self".to_string(),
        Ty::Infer(v) => format!("?{}", v),
        Ty::Con(c, args) => format!("C{}({})", c, args.iter().map(show).collect::<Vec<_>>().join(",")),
    }
}

fn show_vt(v: &VtableOrigin) -> String {
    match v {
        VtableOrigin::Static(id, tys, sub) => format!(
            "S{}[{}]{{{}}}",
            id,
            tys.iter().map(show).collect::<Vec<_>>().join(","),
            sub.iter().map(|r| r.iter().map(show_vt).collect::<Vec<_>>().join(",")).collect::<Vec<_>>().join(";")
        ),
        VtableOrigin::Param(n, b) => format!("P{}.{}", n, b),
        VtableOrigin::SelfVtable(id) => format!("Self{}", id),
    }
}

#[test]
fn substitutes_parameters_and_self() {
    let ps = substs();
    let t = con(5, vec![Ty::Param(1), Ty::SelfTy, Ty::Infer(4)]);
    assert_eq!(show(&subst_tps(&t, &ps.tys, &ps.self_ty)), "C5(C2(C1()),C3(),?4)");
    assert!(type_needs_infer(&t));
    assert!(!type_needs_infer(&con(5, vec![Ty::Param(0)])));
}

#[test]
fn resolves_vtables() {
    let ps = Some(substs());
    assert_eq!(show_vt(&find_vtable(ps.as_ref().unwrap(), 1, 1)), "S12[C1()]{}");
    let vt = VtableOrigin::Static(
        30,
        vec![Ty::Param(0)],
        vec![vec![VtableOrigin::Param(1, 0), VtableOrigin::SelfVtable(7)]],
    );
    let r = resolve_vtable_under_param_substs(&ps, &vt);
    assert_eq!(show_vt(&r), "S30[C1()]{S11[]{},S20[]{}}");
    let rows = resolve_vtables_under_param_substs(&ps, &vec![vec![VtableOrigin::Param(0, 0)]]);
    assert_eq!(show_vt(&rows[0][0]), "S10[]{}");
    let plain = VtableOrigin::Static(40, vec![con(9, vec![])], vec![]);
    assert_eq!(show_vt(&resolve_vtable_under_param_substs(&None, &plain)), "S40[C9()]{}");
}

#[test]
fn validate_rejects_inference_variables() {
    let mut ps = substs();
    assert!(ps.validate());
    ps.self_ty = Some(Ty::Infer(1));
    assert!(!ps.validate());
    let ps2 = ParamSubsts { tys: vec![con(1, vec![Ty::Infer(0)])], vtables: None, self_ty: None, self_vtable: None };
    assert!(!ps2.validate());
}

#[test]
fn dummy_substs_bind_self() {
    let s = dummy_substs(vec![Ty::Param(0), con(3, vec![])]);
    assert_eq!(s.self_r, Some(SelfRegion::BoundSelf));
    assert!(s.self_ty.is_none());
    assert_eq!(s.tps.len(), 2);
    assert!(matches!(s.tps[0], Ty::Param(0)));
    assert!(matches!(&s.tps[1], Ty::Con(3, args) if args.is_empty()));
}
