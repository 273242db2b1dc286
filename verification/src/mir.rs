//! Pieces of the mid-level IR tooling: the step limit of the constant
//! evaluator, the lifting of place projections into the abstract domain
//! of move paths, and the origin of a borrow-check error.

use vstd::prelude::*;
use crate::outlives::Ty;

verus! {

/// Why evaluation stopped.
#[derive(Clone, Copy, Debug, PartialEq, Eq)]
pub enum EvalError {
    /// The evaluator ran out of steps.
    ExecutionTimeLimitReached,
}

/// The part of the evaluator's context that bounds how long it runs.
pub struct EvalContext {
    /// How many steps the evaluator may still take.
    pub steps_remaining: u64,
}

impl EvalContext {
    /// Counts `n` steps: the remaining steps drop by `n` (not below zero),
    /// and evaluation may go on only while some remain.
    pub fn inc_step_counter_and_check_limit(&mut self, n: u64) -> (r: Result<(), EvalError>)
        ensures
            final(self).steps_remaining == (if old(self).steps_remaining >= n {
                old(self).steps_remaining - n
            } else {
                0
            }),
            r == (if final(self).steps_remaining > 0 {
                Ok::<(), EvalError>(())
            } else {
                Err::<(), EvalError>(EvalError::ExecutionTimeLimitReached)
            }),
    {
        self.steps_remaining = self.steps_remaining.saturating_sub(n);
        if self.steps_remaining > 0 {
            Ok(())
        } else {
            Err(EvalError::ExecutionTimeLimitReached)
        }
    }
}

/// An operand abstracted away: all operands of a move path look alike.
#[derive(Clone, Copy, PartialEq, Eq, Hash, Debug)]
pub struct AbstractOperand;

/// A type abstracted away: all types of a move path look alike.
#[derive(Clone, Copy, PartialEq, Eq, Hash, Debug)]
pub struct AbstractType;

/// A local variable of a function body.
#[derive(Clone, Copy, PartialEq, Eq, Hash, Debug)]
pub struct Local(pub u32);

/// The index of a field.
#[derive(Clone, Copy, PartialEq, Eq, Hash, Debug)]
pub struct Field(pub u32);

/// One step of a place projection, over the type `V` of index operands
/// and the type `T` of field types.
#[derive(Clone, Copy, PartialEq, Eq, Hash, Debug)]
pub enum ProjectionElem<V, T> {
    Deref,
    Field(Field, T),
    Index(V),
    ConstantIndex { offset: u32, min_length: u32, from_end: bool },
    Subslice { from: u32, to: u32 },
    /// A downcast to a variant of an enum: the enum and the variant.
    Downcast(u32, u32),
}

/// A projection step of a place: indices are locals, fields carry their
/// types.
pub type PlaceElem = ProjectionElem<Local, Ty>;

/// A projection step in the abstract domain of move paths.
pub type AbstractElem = ProjectionElem<AbstractOperand, AbstractType>;

/// Lifting into the abstract domain of move paths, in which `a[x]`, `a[y]`
/// and `a[13]` are one path.
pub trait Lift {
    type Abstract;

    fn lift(&self) -> Self::Abstract;
}

impl Lift for Local {
    type Abstract = AbstractOperand;

    fn lift(&self) -> (r: AbstractOperand) {
        AbstractOperand
    }
}

impl Lift for Ty {
    type Abstract = AbstractType;

    fn lift(&self) -> (r: AbstractType) {
        AbstractType
    }
}

/// The abstract form of a projection step: an index operand and a field
/// type are abstracted away, everything else is kept.
pub open spec fn abstract_elem(elem: PlaceElem) -> AbstractElem {
    match elem {
        ProjectionElem::Deref => ProjectionElem::Deref,
        ProjectionElem::Field(f, _) => ProjectionElem::Field(f, AbstractType),
        ProjectionElem::Index(_) => ProjectionElem::Index(AbstractOperand),
        ProjectionElem::ConstantIndex { offset, min_length, from_end } =>
            ProjectionElem::ConstantIndex { offset, min_length, from_end },
        ProjectionElem::Subslice { from, to } => ProjectionElem::Subslice { from, to },
        ProjectionElem::Downcast(a, u) => ProjectionElem::Downcast(a, u),
    }
}

impl Lift for PlaceElem {
    type Abstract = AbstractElem;

    fn lift(&self) -> (r: AbstractElem)
        ensures
            r == abstract_elem(*self),
    {
        match self {
            ProjectionElem::Deref => ProjectionElem::Deref,
            ProjectionElem::Field(f, ty) => ProjectionElem::Field(*f, ty.lift()),
            ProjectionElem::Index(i) => ProjectionElem::Index(i.lift()),
            ProjectionElem::Subslice { from, to } => ProjectionElem::Subslice { from: *from, to: *to },
            ProjectionElem::ConstantIndex { offset, min_length, from_end } =>
                ProjectionElem::ConstantIndex {
                    offset: *offset,
                    min_length: *min_length,
                    from_end: *from_end,
                },
            ProjectionElem::Downcast(a, u) => ProjectionElem::Downcast(*a, *u),
        }
    }
}

/// Which borrow checker reported an error.
#[derive(Clone, Copy, PartialEq, Eq, Debug)]
pub enum Origin {
    Ast,
    Mir,
}

impl Origin {
    /// The suffix that marks an error message with its origin. `Mir` is
    /// always marked; `Ast` only when a compiler context is available
    /// (`borrowck_mir` is `Some`) and asks for both checkers' output.
    pub fn suffix(&self, borrowck_mir: Option<bool>) -> (r: &'static str)
        ensures
            r@ == (match self {
                Origin::Mir => " (Mir)"@,
                Origin::Ast => if borrowck_mir == Some(true) {
                    " (Ast)"@
                } else {
                    ""@
                },
            }),
    {
        match self {
            Origin::Mir => " (Mir)",
            Origin::Ast => {
                if let Some(true) = borrowck_mir {
                    " (Ast)"
                } else {
                    ""
                }
            },
        }
    }
}

/// Whether the exhaustiveness checker should build a witness pattern.
#[derive(Clone, Copy, PartialEq, Eq, Debug)]
pub enum WitnessPreference {
    ConstructWitness,
    LeaveOutWitness,
}

} // verus!
