use rustc_utils::mir::{
    AbstractOperand, AbstractType, Field, Lift, Local, PlaceElem, ProjectionElem,
};
use rustc_utils::outlives::{Ty, TyKind};

fn int_ty() -> Ty {
    Ty { kind: TyKind::Int, regions: vec![], subtys: vec![] }
}

#[test]
fn indices_lift_to_one_abstract_operand() {
    let a: PlaceElem = ProjectionElem::Index(Local(3));
    let b: PlaceElem = ProjectionElem::Index(Local(7));
    assert_eq!(a.lift(), ProjectionElem::Index(AbstractOperand));
    assert_eq!(a.lift(), b.lift());
    assert_eq!(Local(1).lift(), AbstractOperand);
    assert_eq!(int_ty().lift(), AbstractType);
}

#[test]
fn fields_keep_their_index_and_lose_their_type() {
    let f: PlaceElem = ProjectionElem::Field(Field(2), int_ty());
    assert_eq!(f.lift(), ProjectionElem::Field(Field(2), AbstractType));
    let g: PlaceElem = ProjectionElem::Field(Field(3), int_ty());
    assert_ne!(f.lift(), g.lift());
}

#[test]
fn other_steps_are_kept() {
    let d: PlaceElem = ProjectionElem::Deref;
    assert_eq!(d.lift(), ProjectionElem::Deref);
    let c: PlaceElem = ProjectionElem::ConstantIndex { offset: 4, min_length: 6, from_end: true };
    assert_eq!(c.lift(), ProjectionElem::ConstantIndex { offset: 4, min_length: 6, from_end: true });
    let s: PlaceElem = ProjectionElem::Subslice { from: 1, to: 2 };
    assert_eq!(s.lift(), ProjectionElem::Subslice { from: 1, to: 2 });
    let v: PlaceElem = ProjectionElem::Downcast(5, 1);
    assert_eq!(v.lift(), ProjectionElem::Downcast(5, 1));
}
