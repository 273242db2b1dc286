use rustc_utils::borrowck_errors::{
    cannot_act_on_uninitialized_variable, cannot_assign, cannot_assign_static,
    cannot_assign_to_borrowed, cannot_move_into_closure, cannot_move_out_of,
    cannot_move_out_of_interior_noncopy, cannot_move_out_of_interior_of_drop,
    cannot_move_when_borrowed, cannot_mutably_borrow_multiply, cannot_reassign_immutable,
    cannot_reborrow_already_borrowed, cannot_reborrow_already_uniquely_borrowed,
    cannot_uniquely_borrow_by_one_closure, cannot_uniquely_borrow_by_two_closures,
    cannot_use_when_mutably_borrowed, Span,
};
use rustc_utils::mir::Origin;
use rustc_utils::outlives::TyKind;

const S: Span = Span { lo: 10, hi: 20 };
const B: Span = Span { lo: 1, hi: 5 };

fn labels(d: &rustc_utils::borrowck_errors::Diagnostic) -> Vec<(Span, &str)> {
    d.labels.iter().map(|(s, l)| (*s, l.as_str())).collect()
}

#[test]
fn messages_carry_their_origin() {
    let mir = cannot_move_when_borrowed(S, "x", Origin::Mir, None);
    assert_eq!(mir.code, "E0505");
    assert_eq!(mir.message, "cannot move out of `x` because it is borrowed (Mir)");
    assert_eq!(mir.span, S);
    assert!(mir.labels.is_empty());
    let ast = cannot_move_when_borrowed(S, "x", Origin::Ast, None);
    assert_eq!(ast.message, "cannot move out of `x` because it is borrowed");
    let both = cannot_move_when_borrowed(S, "x", Origin::Ast, Some(true));
    assert_eq!(both.message, "cannot move out of `x` because it is borrowed (Ast)");
}

#[test]
fn borrow_conflicts() {
    let d = cannot_use_when_mutably_borrowed(S, "v", B, "v", Origin::Ast, Some(false));
    assert_eq!(d.code, "E0503");
    assert_eq!(d.message, "cannot use `v` because it was mutably borrowed");
    assert_eq!(labels(&d), vec![(B, "borrow of `v` occurs here"), (S, "use of borrowed `v`")]);
    let d = cannot_mutably_borrow_multiply(S, "v", " (via `v.0`)", Origin::Mir, None);
    assert_eq!(d.code, "E0499");
    assert_eq!(d.message, "cannot borrow `v` (via `v.0`) as mutable more than once at a time (Mir)");
    let d = cannot_reborrow_already_borrowed(S, "a", "", "mutable", "it", "immutable", "", Origin::Ast, None);
    assert_eq!(d.code, "E0502");
    assert_eq!(d.message, "cannot borrow `a` as mutable because it is also borrowed as immutable");
    let d = cannot_reborrow_already_uniquely_borrowed(S, "a", "", "immutable", Origin::Ast, None);
    assert_eq!(d.code, "E0501");
    assert_eq!(d.message, "cannot borrow `a` as immutable because previous closure requires unique access");
}

#[test]
fn closures() {
    let d = cannot_uniquely_borrow_by_two_closures(S, "x", Origin::Ast, None);
    assert_eq!((d.code.as_str(), d.message.as_str()), ("E0524", "two closures require unique access to `x` at the same time"));
    let d = cannot_uniquely_borrow_by_one_closure(S, "x", "it", "", Origin::Ast, None);
    assert_eq!((d.code.as_str(), d.message.as_str()), ("E0500", "closure requires unique access to `x` but it is already borrowed"));
    let d = cannot_move_into_closure(S, "x", Origin::Ast, None);
    assert_eq!((d.code.as_str(), d.message.as_str()), ("E0504", "cannot move `x` into closure because it is borrowed"));
}

#[test]
fn assignments() {
    let d = cannot_assign_to_borrowed(S, B, "x", Origin::Ast, None);
    assert_eq!(d.code, "E0506");
    assert_eq!(d.message, "cannot assign to `x` because it is borrowed");
    assert_eq!(labels(&d), vec![(B, "borrow of `x` occurs here"), (S, "assignment to borrowed `x` occurs here")]);
    let d = cannot_reassign_immutable(S, "x", Origin::Ast, None);
    assert_eq!((d.code.as_str(), d.message.as_str()), ("E0384", "re-assignment of immutable variable `x`"));
    let d = cannot_assign(S, "data in a `&` reference", Origin::Ast, None);
    assert_eq!((d.code.as_str(), d.message.as_str()), ("E0594", "cannot assign to data in a `&` reference"));
    let d = cannot_assign_static(S, "FOO", Origin::Mir, None);
    assert_eq!((d.code.as_str(), d.message.as_str()), ("E0594", "cannot assign to immutable static item `FOO` (Mir)"));
    let d = cannot_act_on_uninitialized_variable(S, "use", "x", Origin::Ast, None);
    assert_eq!((d.code.as_str(), d.message.as_str()), ("E0381", "use of possibly uninitialized variable: `x`"));
}

#[test]
fn moves_out() {
    let d = cannot_move_out_of(S, "borrowed content", Origin::Ast, None);
    assert_eq!((d.code.as_str(), d.message.as_str()), ("E0507", "cannot move out of borrowed content"));
    assert_eq!(labels(&d), vec![(S, "cannot move out of borrowed content")]);
    let d = cannot_move_out_of_interior_noncopy(S, "[String; 2]", &TyKind::Array, true, Origin::Ast, None);
    assert_eq!((d.code.as_str(), d.message.as_str()), ("E0508", "cannot move out of type `[String; 2]`, a non-copy array"));
    assert_eq!(labels(&d), vec![(S, "cannot move out of here")]);
    let d = cannot_move_out_of_interior_noncopy(S, "[String]", &TyKind::Slice, false, Origin::Ast, None);
    assert_eq!(d.message, "cannot move out of type `[String]`, a non-copy slice");
    let d = cannot_move_out_of_interior_of_drop(S, "S", Origin::Mir, None);
    assert_eq!((d.code.as_str(), d.message.as_str()), ("E0509", "cannot move out of type `S`, which implements the `Drop` trait (Mir)"));
    assert_eq!(labels(&d), vec![(S, "cannot move out of here")]);
}
