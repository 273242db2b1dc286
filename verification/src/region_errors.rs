//! The expansion of the values of region variables, and the errors that
//! lexical region resolution reports once they have been expanded:
//! requirements between two concrete regions that do not hold, variables
//! whose value outgrew an upper bound, and generic bounds that no region
//! meets; and the walk over the constraint graph that gathers the concrete
//! bounds of a variable.

use vstd::prelude::*;
use crate::lexical_region_resolve::{
    in_tree, is_concrete, is_free, is_free_like, lub_concrete_regions, lub_spec, nca_of, one_tree,
    GenericKind, Region, RegionResolutionError, ScopeTree,
};

verus! {

/// A requirement between regions: the first is a subregion of the second.
/// Variables are region inference variables, by index.
#[derive(Clone, Copy, Debug, PartialEq, Eq, Structural)]
pub enum Constraint {
    VarSubVar(u32, u32),
    RegSubVar(Region, u32),
    VarSubReg(u32, Region),
    RegSubReg(Region, Region),
}

/// The value of a region variable: a region, or an error once the
/// variable has outgrown one of its upper bounds.
#[derive(Clone, Copy, Debug, PartialEq, Eq, Structural)]
pub enum VarValue {
    Value(Region),
    ErrorValue,
}

/// The upper bound that the relation of free regions gives for `a` and
/// `b`: the third region of the first entry of `tbl` for them.
pub open spec fn bound_from(tbl: Seq<(Region, Region, Region)>, a: Region, b: Region, i: int) -> Option<
    Region,
>
    decreases tbl.len() - i,
{
    if i < 0 || i >= tbl.len() {
        None
    } else if tbl[i].0 == a && tbl[i].1 == b {
        Some(tbl[i].2)
    } else {
        bound_from(tbl, a, b, i + 1)
    }
}

/// `a` is a subregion of `b`: their least upper bound is `b`.
pub open spec fn is_sub(t: ScopeTree, tbl: Seq<(Region, Region, Region)>, a: Region, b: Region) -> bool {
    lub_spec(t, a, b, bound_from(tbl, a, b, 0)) == b
}

/// A region that the subregion test can take: concrete and in the tree.
pub open spec fn region_ok(t: ScopeTree, r: Region) -> bool {
    is_concrete(r) && in_tree(t, r)
}

/// The regions of a table of free-region bounds can all be related.
pub open spec fn table_ok(t: ScopeTree, tbl: Seq<(Region, Region, Region)>) -> bool {
    forall|i: int| 0 <= i < tbl.len() ==> region_ok(t, (#[trigger] tbl[i]).2)
}

/// The upper bound that `tbl` gives for `a` and `b`, if any.
pub fn free_bound(tbl: &Vec<(Region, Region, Region)>, a: Region, b: Region) -> (r: Option<Region>)
    ensures
        r == bound_from(tbl@, a, b, 0),
{
    let mut i: usize = tbl.len();
    let mut found: Option<Region> = None;
    while i > 0
        invariant
            i <= tbl@.len(),
            found == bound_from(tbl@, a, b, i as int),
        decreases i,
    {
        i = i - 1;
        if tbl[i].0 == a && tbl[i].1 == b {
            found = Some(tbl[i].2);
        }
    }
    found
}

/// Whether `a` is a subregion of `b`, with the free-region bounds of `tbl`.
pub fn is_subregion_of(t: &ScopeTree, tbl: &Vec<(Region, Region, Region)>, a: Region, b: Region) -> (r:
    bool)
    requires
        t.wf(),
        one_tree(*t),
        region_ok(*t, a),
        region_ok(*t, b),
    ensures
        r == is_sub(*t, tbl@, a, b),
{
    let bound = free_bound(tbl, a, b);
    let lub = lub_concrete_regions(t, a, b, bound);
    lub == b
}

/// The regions and variables of a constraint can be checked: its regions
/// concrete and in the tree, its variables among the `n` variables.
pub open spec fn constraint_ok(t: ScopeTree, c: Constraint, n: nat) -> bool {
    match c {
        Constraint::VarSubVar(a, b) => a < n && b < n,
        Constraint::RegSubVar(r, b) => region_ok(t, r) && b < n,
        Constraint::VarSubReg(a, r) => a < n && region_ok(t, r),
        Constraint::RegSubReg(a, b) => region_ok(t, a) && region_ok(t, b),
    }
}

pub open spec fn constraints_ok(t: ScopeTree, cs: Seq<(Constraint, u32)>, n: nat) -> bool {
    forall|i: int| 0 <= i < cs.len() ==> constraint_ok(t, (#[trigger] cs[i]).0, n)
}

/// Every value that is a region can be related.
pub open spec fn values_ok(t: ScopeTree, vals: Seq<VarValue>) -> bool {
    forall|i: int| 0 <= i < vals.len() ==> match #[trigger] vals[i] {
        VarValue::Value(r) => region_ok(t, r),
        VarValue::ErrorValue => true,
    }
}

/// The failures of the requirements between two concrete regions, in the
/// order of the constraints.
pub open spec fn concrete_failures(
    t: ScopeTree,
    tbl: Seq<(Region, Region, Region)>,
    cs: Seq<(Constraint, u32)>,
) -> Seq<RegionResolutionError>
    decreases cs.len(),
{
    if cs.len() == 0 {
        Seq::empty()
    } else {
        let prev = concrete_failures(t, tbl, cs.drop_last());
        match cs.last().0 {
            Constraint::RegSubReg(sub, sup) => if is_sub(t, tbl, sub, sup) {
                prev
            } else {
                prev.push(RegionResolutionError::ConcreteFailure(cs.last().1, sub, sup))
            },
            _ => prev,
        }
    }
}

/// The values after the upper bounds of the variables are checked in the
/// order of the constraints: a variable whose value is no subregion of an
/// upper bound becomes an error.
pub open spec fn contracted(
    t: ScopeTree,
    tbl: Seq<(Region, Region, Region)>,
    cs: Seq<(Constraint, u32)>,
    vals: Seq<VarValue>,
) -> Seq<VarValue>
    decreases cs.len(),
{
    if cs.len() == 0 {
        vals
    } else {
        let prev = contracted(t, tbl, cs.drop_last(), vals);
        match cs.last().0 {
            Constraint::VarSubReg(a, b) => match prev[a as int] {
                VarValue::Value(r) => if is_sub(t, tbl, r, b) {
                    prev
                } else {
                    prev.update(a as int, VarValue::ErrorValue)
                },
                VarValue::ErrorValue => prev,
            },
            _ => prev,
        }
    }
}

proof fn lemma_contracted_ok(
    t: ScopeTree,
    tbl: Seq<(Region, Region, Region)>,
    cs: Seq<(Constraint, u32)>,
    vals: Seq<VarValue>,
)
    requires
        values_ok(t, vals),
        constraints_ok(t, cs, vals.len()),
    ensures
        contracted(t, tbl, cs, vals).len() == vals.len(),
        values_ok(t, contracted(t, tbl, cs, vals)),
    decreases cs.len(),
{
    if cs.len() > 0 {
        lemma_contracted_ok(t, tbl, cs.drop_last(), vals);
        let prev = contracted(t, tbl, cs.drop_last(), vals);
        assert(constraint_ok(t, cs[cs.len() - 1].0, vals.len()));
        let c = contracted(t, tbl, cs, vals);
        assert forall|i: int| 0 <= i < c.len() implies match #[trigger] c[i] {
            VarValue::Value(r) => region_ok(t, r),
            VarValue::ErrorValue => true,
        } by {
            assert(prev[i] matches VarValue::Value(r) ==> region_ok(t, r));
        }
    }
}

/// Checks the requirements that expansion leaves open: each requirement
/// between two concrete regions that does not hold is an error, and each
/// variable whose value is no subregion of one of its upper bounds becomes
/// an error value (reported later, with its bounds).
fn check_constraints(
    t: &ScopeTree,
    tbl: &Vec<(Region, Region, Region)>,
    constraints: &Vec<(Constraint, u32)>,
    values: &mut Vec<VarValue>,
    errors: &mut Vec<RegionResolutionError>,
)
    requires
        t.wf(),
        one_tree(*t),
        constraints_ok(*t, constraints@, old(values)@.len()),
        values_ok(*t, old(values)@),
    ensures
        final(values)@ == contracted(*t, tbl@, constraints@, old(values)@),
        final(errors)@ == old(errors)@ + concrete_failures(*t, tbl@, constraints@),
{
    let ghost vals0 = values@;
    let ghost errs0 = errors@;
    let mut i: usize = 0;
    while i < constraints.len()
        invariant
            t.wf(),
            one_tree(*t),
            i <= constraints@.len(),
            constraints_ok(*t, constraints@, vals0.len()),
            values_ok(*t, vals0),
            values@ == contracted(*t, tbl@, constraints@.subrange(0, i as int), vals0),
            errors@ == errs0 + concrete_failures(*t, tbl@, constraints@.subrange(0, i as int)),
        decreases constraints@.len() - i,
    {
        let ghost pre = constraints@.subrange(0, i as int);
        let ghost next = constraints@.subrange(0, i + 1);
        assert(next.drop_last() =~= pre);
        assert(next.last() == constraints@[i as int]);
        proof {
            lemma_contracted_ok(*t, tbl@, pre, vals0);
        }
        let (c, origin) = constraints[i];
        assert(constraint_ok(*t, c, vals0.len()));
        match c {
            Constraint::RegSubReg(sub, sup) => {
                if !is_subregion_of(t, tbl, sub, sup) {
                    errors.push(RegionResolutionError::ConcreteFailure(origin, sub, sup));
                }
                proof {
                    assert(errors@ =~= errs0 + concrete_failures(*t, tbl@, next));
                }
            },
            Constraint::VarSubReg(a, b) => {
                let idx = a as usize;
                match values[idx] {
                    VarValue::Value(r) => {
                        assert(region_ok(*t, r)) by {
                            assert(values_ok(*t, values@));
                            assert(values@[idx as int] == VarValue::Value(r));
                        }
                        if !is_subregion_of(t, tbl, r, b) {
                            values.set(idx, VarValue::ErrorValue);
                        }
                    },
                    VarValue::ErrorValue => {},
                }
                proof {
                    assert(errors@ =~= errs0 + concrete_failures(*t, tbl@, next));
                }
            },
            _ => {
                proof {
                    assert(errors@ =~= errs0 + concrete_failures(*t, tbl@, next));
                }
            },
        }
        i = i + 1;
    }
    assert(constraints@.subrange(0, constraints@.len() as int) =~= constraints@);
}

/// What a generic bound requires of a region `min`: that it be a subregion
/// of some or of all of the given regions, or that some or all of the
/// given bounds be met.
#[derive(Debug)]
pub enum VerifyBound {
    AnyRegion(Vec<Region>),
    AllRegions(Vec<Region>),
    AnyBound(Vec<VerifyBound>),
    AllBounds(Vec<VerifyBound>),
}

/// A generic bound to check after expansion: the parameter or projection
/// `kind` must outlive `region`, which the bound shows when it is met.
#[derive(Debug)]
pub struct Verify {
    pub origin: u32,
    pub kind: GenericKind,
    pub region: Region,
    pub bound: VerifyBound,
}

/// A region with each variable replaced by its value (`'static` for an
/// error value).
pub open spec fn normalize(vals: Seq<VarValue>, r: Region) -> Region {
    match r {
        Region::Var(v) => match vals[v as int] {
            VarValue::Value(x) => x,
            VarValue::ErrorValue => Region::Static,
        },
        _ => r,
    }
}

/// A region of a bound: a variable among the `n` variables, or a region
/// that can be related.
pub open spec fn bound_region_ok(t: ScopeTree, r: Region, n: nat) -> bool {
    match r {
        Region::Var(v) => v < n,
        _ => region_ok(t, r),
    }
}

pub open spec fn bound_ok(t: ScopeTree, b: VerifyBound, n: nat) -> bool
    decreases b,
{
    match b {
        VerifyBound::AnyRegion(rs) => forall|i: int| 0 <= i < rs@.len() ==> bound_region_ok(t, #[trigger] rs@[i], n),
        VerifyBound::AllRegions(rs) => forall|i: int| 0 <= i < rs@.len() ==> bound_region_ok(t, #[trigger] rs@[i], n),
        VerifyBound::AnyBound(bs) => forall|i: int| 0 <= i < bs@.len() ==> bound_ok(t, #[trigger] bs@[i], n),
        VerifyBound::AllBounds(bs) => forall|i: int| 0 <= i < bs@.len() ==> bound_ok(t, #[trigger] bs@[i], n),
    }
}

/// Whether `min` meets the bound, the values of the variables given.
pub open spec fn bound_met(
    t: ScopeTree,
    tbl: Seq<(Region, Region, Region)>,
    vals: Seq<VarValue>,
    b: VerifyBound,
    min: Region,
) -> bool
    decreases b,
{
    match b {
        VerifyBound::AnyRegion(rs) => exists|i: int|
            0 <= i < rs@.len() && is_sub(t, tbl, min, normalize(vals, #[trigger] rs@[i])),
        VerifyBound::AllRegions(rs) => forall|i: int|
            0 <= i < rs@.len() ==> is_sub(t, tbl, min, normalize(vals, #[trigger] rs@[i])),
        VerifyBound::AnyBound(bs) => exists|i: int|
            0 <= i < bs@.len() && bound_met(t, tbl, vals, #[trigger] bs@[i], min),
        VerifyBound::AllBounds(bs) => forall|i: int|
            0 <= i < bs@.len() ==> bound_met(t, tbl, vals, #[trigger] bs@[i], min),
    }
}

/// A region of a bound with its variable, if any, replaced by its value.
fn normalize_region(vals: &Vec<VarValue>, r: Region) -> (x: Region)
    requires
        r matches Region::Var(v) ==> v < vals@.len(),
    ensures
        x == normalize(vals@, r),
{
    match r {
        Region::Var(v) => match vals[v as usize] {
            VarValue::Value(x) => x,
            VarValue::ErrorValue => Region::Static,
        },
        _ => r,
    }
}

/// Whether `min` meets the bound.
pub fn bound_is_met(
    t: &ScopeTree,
    tbl: &Vec<(Region, Region, Region)>,
    vals: &Vec<VarValue>,
    b: &VerifyBound,
    min: Region,
) -> (r: bool)
    requires
        t.wf(),
        one_tree(*t),
        region_ok(*t, min),
        values_ok(*t, vals@),
        bound_ok(*t, *b, vals@.len()),
    ensures
        r == bound_met(*t, tbl@, vals@, *b, min),
    decreases b,
{
    match b {
        VerifyBound::AnyRegion(rs) => {
            let mut i: usize = 0;
            while i < rs.len()
                invariant
                    *b == VerifyBound::AnyRegion(*rs),
                    t.wf(),
                    one_tree(*t),
                    region_ok(*t, min),
                    values_ok(*t, vals@),
                    i <= rs@.len(),
                    forall|j: int| 0 <= j < rs@.len() ==> bound_region_ok(*t, #[trigger] rs@[j], vals@.len()),
                    forall|j: int| 0 <= j < i ==> !is_sub(*t, tbl@, min, normalize(vals@, #[trigger] rs@[j])),
                decreases rs@.len() - i,
            {
                let x = normalize_region(vals, rs[i]);
                proof { lemma_normalized_ok(*t, vals@, rs@[i as int]); }
                if is_subregion_of(t, tbl, min, x) {
                    return true;
                }
                i = i + 1;
            }
            false
        },
        VerifyBound::AllRegions(rs) => {
            let mut i: usize = 0;
            while i < rs.len()
                invariant
                    *b == VerifyBound::AllRegions(*rs),
                    t.wf(),
                    one_tree(*t),
                    region_ok(*t, min),
                    values_ok(*t, vals@),
                    i <= rs@.len(),
                    forall|j: int| 0 <= j < rs@.len() ==> bound_region_ok(*t, #[trigger] rs@[j], vals@.len()),
                    forall|j: int| 0 <= j < i ==> is_sub(*t, tbl@, min, normalize(vals@, #[trigger] rs@[j])),
                decreases rs@.len() - i,
            {
                let x = normalize_region(vals, rs[i]);
                proof { lemma_normalized_ok(*t, vals@, rs@[i as int]); }
                if !is_subregion_of(t, tbl, min, x) {
                    return false;
                }
                i = i + 1;
            }
            true
        },
        VerifyBound::AnyBound(bs) => {
            let mut i: usize = 0;
            while i < bs.len()
                invariant
                    *b == VerifyBound::AnyBound(*bs),
                    t.wf(),
                    one_tree(*t),
                    region_ok(*t, min),
                    values_ok(*t, vals@),
                    i <= bs@.len(),
                    forall|j: int| 0 <= j < bs@.len() ==> bound_ok(*t, #[trigger] bs@[j], vals@.len()),
                    forall|j: int| 0 <= j < i ==> !bound_met(*t, tbl@, vals@, #[trigger] bs@[j], min),
                decreases bs@.len() - i,
            {
                proof {
                    lemma_bound_decreases(*b, *bs, i as int);
                }
                if bound_is_met(t, tbl, vals, &bs[i], min) {
                    proof {
                        lemma_bound_witness(*t, tbl@, vals@, *b, *bs, min, i as int);
                    }
                    return true;
                }
                i = i + 1;
            }
            false
        },
        VerifyBound::AllBounds(bs) => {
            let mut i: usize = 0;
            while i < bs.len()
                invariant
                    *b == VerifyBound::AllBounds(*bs),
                    t.wf(),
                    one_tree(*t),
                    region_ok(*t, min),
                    values_ok(*t, vals@),
                    i <= bs@.len(),
                    forall|j: int| 0 <= j < bs@.len() ==> bound_ok(*t, #[trigger] bs@[j], vals@.len()),
                    forall|j: int| 0 <= j < i ==> bound_met(*t, tbl@, vals@, #[trigger] bs@[j], min),
                decreases bs@.len() - i,
            {
                proof {
                    lemma_bound_decreases(*b, *bs, i as int);
                }
                if !bound_is_met(t, tbl, vals, &bs[i], min) {
                    proof {
                        lemma_bound_witness(*t, tbl@, vals@, *b, *bs, min, i as int);
                    }
                    return false;
                }
                i = i + 1;
            }
            true
        },
    }
}

/// One bound of a list decides `AnyBound` when it is met, and `AllBounds`
/// when it is not.
proof fn lemma_bound_witness(
    t: ScopeTree,
    tbl: Seq<(Region, Region, Region)>,
    vals: Seq<VarValue>,
    b: VerifyBound,
    bs: Vec<VerifyBound>,
    min: Region,
    i: int,
)
    requires
        0 <= i < bs@.len(),
    ensures
        b == VerifyBound::AnyBound(bs) && bound_met(t, tbl, vals, bs@[i], min) ==> bound_met(
            t,
            tbl,
            vals,
            b,
            min,
        ),
        b == VerifyBound::AllBounds(bs) && !bound_met(t, tbl, vals, bs@[i], min) ==> !bound_met(
            t,
            tbl,
            vals,
            b,
            min,
        ),
{
    if b == VerifyBound::AnyBound(bs) && bound_met(t, tbl, vals, bs@[i], min) {
        assert(b->AnyBound_0 == bs);
        assert(exists|j: int| 0 <= j < bs@.len() && bound_met(t, tbl, vals, #[trigger] bs@[j], min));
    }
    if b == VerifyBound::AllBounds(bs) && !bound_met(t, tbl, vals, bs@[i], min) {
        assert(b->AllBounds_0 == bs);
        assert(!forall|j: int| 0 <= j < bs@.len() ==> bound_met(t, tbl, vals, #[trigger] bs@[j], min));
    }
}

proof fn lemma_bound_decreases(b: VerifyBound, bs: Vec<VerifyBound>, i: int)
    requires
        b == VerifyBound::AnyBound(bs) || b == VerifyBound::AllBounds(bs),
        0 <= i < bs@.len(),
    ensures
        decreases_to!(b => bs@[i]),
{
    if b is AnyBound {
        assert(decreases_to!(b => b->AnyBound_0));
    } else {
        assert(decreases_to!(b => b->AllBounds_0));
    }
    assert(decreases_to!(bs => bs@));
    assert(decreases_to!(bs@ => bs@[i]));
}

proof fn lemma_normalized_ok(t: ScopeTree, vals: Seq<VarValue>, r: Region)
    requires
        values_ok(t, vals),
        bound_region_ok(t, r, vals.len()),
    ensures
        region_ok(t, normalize(vals, r)),
{
    if let Region::Var(v) = r {
        assert(values_ok(t, vals));
        let x = vals[v as int];
        assert(x matches VarValue::Value(y) ==> region_ok(t, y));
    }
}

/// The region of a generic bound can be normalized and its bound checked.
pub open spec fn verify_ok(t: ScopeTree, v: Verify, n: nat) -> bool {
    bound_region_ok(t, v.region, n) && bound_ok(t, v.bound, n)
}

pub open spec fn verifys_ok(t: ScopeTree, vs: Seq<Verify>, n: nat) -> bool {
    forall|i: int| 0 <= i < vs.len() ==> verify_ok(t, #[trigger] vs[i], n)
}

/// The failures of the generic bounds, in their order: a bound fails when
/// its region, normalized, is not `'empty` (a variable that nothing
/// constrained) and does not meet the bound.
pub open spec fn generic_failures(
    t: ScopeTree,
    tbl: Seq<(Region, Region, Region)>,
    vs: Seq<Verify>,
    vals: Seq<VarValue>,
) -> Seq<RegionResolutionError>
    decreases vs.len(),
{
    if vs.len() == 0 {
        Seq::empty()
    } else {
        let prev = generic_failures(t, tbl, vs.drop_last(), vals);
        let v = vs.last();
        let sub = normalize(vals, v.region);
        if sub is Empty || bound_met(t, tbl, vals, v.bound, sub) {
            prev
        } else {
            prev.push(RegionResolutionError::GenericBoundFailure(v.origin, v.kind, sub))
        }
    }
}

/// Checks the generic bounds against the values of the variables.
fn check_verifys(
    t: &ScopeTree,
    tbl: &Vec<(Region, Region, Region)>,
    verifys: &Vec<Verify>,
    values: &Vec<VarValue>,
    errors: &mut Vec<RegionResolutionError>,
)
    requires
        t.wf(),
        one_tree(*t),
        values_ok(*t, values@),
        verifys_ok(*t, verifys@, values@.len()),
    ensures
        final(errors)@ == old(errors)@ + generic_failures(*t, tbl@, verifys@, values@),
{
    let ghost errs0 = errors@;
    let mut i: usize = 0;
    while i < verifys.len()
        invariant
            t.wf(),
            one_tree(*t),
            i <= verifys@.len(),
            values_ok(*t, values@),
            verifys_ok(*t, verifys@, values@.len()),
            errors@ == errs0 + generic_failures(*t, tbl@, verifys@.subrange(0, i as int), values@),
        decreases verifys@.len() - i,
    {
        let ghost pre = verifys@.subrange(0, i as int);
        let ghost next = verifys@.subrange(0, i + 1);
        assert(next.drop_last() =~= pre);
        assert(next.last() == verifys@[i as int]);
        let v = &verifys[i];
        assert(verify_ok(*t, verifys@[i as int], values@.len()));
        let sub = normalize_region(values, v.region);
        proof {
            lemma_normalized_ok(*t, values@, v.region);
        }
        let skip = match sub {
            Region::Empty => true,
            _ => bound_is_met(t, tbl, values, &v.bound, sub),
        };
        if !skip {
            errors.push(RegionResolutionError::GenericBoundFailure(v.origin, v.kind, sub));
        }
        proof {
            assert(errors@ =~= errs0 + generic_failures(*t, tbl@, next, values@));
        }
        i = i + 1;
    }
    assert(verifys@.subrange(0, verifys@.len() as int) =~= verifys@);
}

/// After expansion, checks what expansion leaves open. Each requirement
/// between two concrete regions that does not hold is reported; each
/// variable whose value is no subregion of one of its upper bounds becomes
/// an error value; then each generic bound whose region, normalized with
/// those values, is not `'empty` and does not meet the bound is reported.
pub fn collect_errors(
    t: &ScopeTree,
    free_bounds: &Vec<(Region, Region, Region)>,
    constraints: &Vec<(Constraint, u32)>,
    verifys: &Vec<Verify>,
    values: &mut Vec<VarValue>,
    errors: &mut Vec<RegionResolutionError>,
)
    requires
        t.wf(),
        one_tree(*t),
        constraints_ok(*t, constraints@, old(values)@.len()),
        verifys_ok(*t, verifys@, old(values)@.len()),
        values_ok(*t, old(values)@),
    ensures
        final(values)@ == contracted(*t, free_bounds@, constraints@, old(values)@),
        final(errors)@ == old(errors)@ + concrete_failures(*t, free_bounds@, constraints@)
            + generic_failures(*t, free_bounds@, verifys@, final(values)@),
{
    proof {
        lemma_contracted_ok(*t, free_bounds@, constraints@, values@);
    }
    check_constraints(t, free_bounds, constraints, values, errors);
    check_verifys(t, free_bounds, verifys, values, errors);
}

/// Which way a walk over the constraint graph follows its edges: from a
/// variable to the regions it is a subregion of, or to those that are
/// subregions of it.
#[derive(Clone, Copy, Debug, PartialEq, Eq, Structural)]
pub enum Direction {
    Outgoing,
    Incoming,
}

/// The constraint graph: one node per variable, and an edge per constraint
/// that involves a variable, in the order of the constraints. A constraint
/// between two concrete regions has no edge.
pub struct ConstraintGraph {
    pub num_vars: usize,
    pub edges: Vec<(Constraint, u32)>,
}

/// The constraints that become edges, in their order.
pub open spec fn graph_edges(cs: Seq<(Constraint, u32)>) -> Seq<(Constraint, u32)>
    decreases cs.len(),
{
    if cs.len() == 0 {
        Seq::empty()
    } else {
        let prev = graph_edges(cs.drop_last());
        if cs.last().0 is RegSubReg {
            prev
        } else {
            prev.push(cs.last())
        }
    }
}

/// Each variable of an edge is a node of the graph; no edge joins two
/// concrete regions.
pub open spec fn graph_ok(g: ConstraintGraph) -> bool {
    forall|j: int| 0 <= j < g.edges@.len() ==> match (#[trigger] g.edges@[j]).0 {
        Constraint::VarSubVar(a, b) => a < g.num_vars && b < g.num_vars,
        Constraint::RegSubVar(_, b) => b < g.num_vars,
        Constraint::VarSubReg(a, _) => a < g.num_vars,
        Constraint::RegSubReg(..) => false,
    }
}

/// Builds the constraint graph of `num_vars` variables.
pub fn construct_graph(num_vars: usize, constraints: &Vec<(Constraint, u32)>) -> (g: ConstraintGraph)
    requires
        forall|j: int| 0 <= j < constraints@.len() ==> match (#[trigger] constraints@[j]).0 {
            Constraint::VarSubVar(a, b) => a < num_vars && b < num_vars,
            Constraint::RegSubVar(_, b) => b < num_vars,
            Constraint::VarSubReg(a, _) => a < num_vars,
            Constraint::RegSubReg(..) => true,
        },
    ensures
        g.num_vars == num_vars,
        g.edges@ == graph_edges(constraints@),
        graph_ok(g),
{
    let mut edges: Vec<(Constraint, u32)> = Vec::new();
    let mut i: usize = 0;
    while i < constraints.len()
        invariant
            i <= constraints@.len(),
            edges@ == graph_edges(constraints@.subrange(0, i as int)),
            forall|j: int| 0 <= j < constraints@.len() ==> match (#[trigger] constraints@[j]).0 {
                Constraint::VarSubVar(a, b) => a < num_vars && b < num_vars,
                Constraint::RegSubVar(_, b) => b < num_vars,
                Constraint::VarSubReg(a, _) => a < num_vars,
                Constraint::RegSubReg(..) => true,
            },
            forall|j: int| 0 <= j < edges@.len() ==> match (#[trigger] edges@[j]).0 {
                Constraint::VarSubVar(a, b) => a < num_vars && b < num_vars,
                Constraint::RegSubVar(_, b) => b < num_vars,
                Constraint::VarSubReg(a, _) => a < num_vars,
                Constraint::RegSubReg(..) => false,
            },
        decreases constraints@.len() - i,
    {
        let ghost next = constraints@.subrange(0, i + 1);
        assert(next.drop_last() =~= constraints@.subrange(0, i as int));
        assert(next.last() == constraints@[i as int]);
        let e = constraints[i];
        match e.0 {
            Constraint::RegSubReg(..) => {},
            _ => {
                edges.push(e);
            },
        }
        i = i + 1;
    }
    assert(constraints@.subrange(0, constraints@.len() as int) =~= constraints@);
    ConstraintGraph { num_vars, edges }
}

/// The edge `c` leads, in direction `dir`, from variable `u` to variable `w`.
pub open spec fn var_step(c: Constraint, dir: Direction, u: int, w: int) -> bool {
    match c {
        Constraint::VarSubVar(a, b) => match dir {
            Direction::Outgoing => a == u && b == w,
            Direction::Incoming => b == u && a == w,
        },
        _ => false,
    }
}

/// The edge `c` leads, in direction `dir`, from variable `u` to the
/// concrete region `r`.
pub open spec fn reg_step(c: Constraint, dir: Direction, u: int, r: Region) -> bool {
    match c {
        Constraint::VarSubReg(a, rr) => dir is Outgoing && a == u && rr == r,
        Constraint::RegSubVar(rr, b) => dir is Incoming && b == u && rr == r,
        _ => false,
    }
}

/// Some edge leads from variable `u` to variable `w`.
pub open spec fn var_edge(es: Seq<(Constraint, u32)>, dir: Direction, u: int, w: int) -> bool {
    exists|j: int| 0 <= j < es.len() && #[trigger] var_step(es[j].0, dir, u, w)
}

/// `p` is a walk from variable to variable along the edges.
pub open spec fn is_walk(es: Seq<(Constraint, u32)>, dir: Direction, p: Seq<int>) -> bool {
    &&& p.len() >= 1
    &&& forall|k: int| 0 <= k < p.len() - 1 ==> var_edge(es, dir, #[trigger] p[k], p[k + 1])
}

/// `p` is a walk from `orig` to `w`.
pub open spec fn walk_between(es: Seq<(Constraint, u32)>, dir: Direction, p: Seq<int>, orig: int, w: int) -> bool {
    is_walk(es, dir, p) && p[0] == orig && p.last() == w
}

/// Variable `w` can be reached from `orig` (`orig` itself among them).
pub open spec fn reachable(es: Seq<(Constraint, u32)>, dir: Direction, orig: int, w: int) -> bool {
    exists|p: Seq<int>| #[trigger] walk_between(es, dir, p, orig, w)
}

/// The concrete regions, each with the origin of its edge, that an edge
/// leads to from a variable that can be reached from `orig`.
pub open spec fn concrete_reachable(es: Seq<(Constraint, u32)>, dir: Direction, orig: int) -> Set<(Region, u32)> {
    Set::new(
        |x: (Region, u32)|
            exists|u: int, j: int|
                0 <= j < es.len() && reachable(es, dir, orig, u) && es[j].1 == x.1 && #[trigger] reg_step(
                    es[j].0,
                    dir,
                    u,
                    x.0,
                ),
    )
}

/// Some edge leads from variable `u` to the concrete region of `x`, and
/// has the origin of `x`.
pub open spec fn from_edge(es: Seq<(Constraint, u32)>, dir: Direction, u: int, x: (Region, u32)) -> bool {
    exists|i: int| 0 <= i < es.len() && es[i].1 == x.1 && #[trigger] reg_step(es[i].0, dir, u, x.0)
}

/// Variable `w` is on the stack.
pub open spec fn on_stack(st: Seq<u32>, w: int) -> bool {
    exists|k: int| 0 <= k < st.len() && st[k] as int == w
}

/// The number of set flags.
pub open spec fn count_true(s: Seq<bool>) -> nat
    decreases s.len(),
{
    if s.len() == 0 {
        0
    } else {
        count_true(s.drop_last()) + if s.last() { 1nat } else { 0nat }
    }
}

proof fn lemma_count_true_le(s: Seq<bool>)
    ensures
        count_true(s) <= s.len(),
    decreases s.len(),
{
    if s.len() > 0 {
        lemma_count_true_le(s.drop_last());
    }
}

proof fn lemma_count_true_set(s: Seq<bool>, i: int)
    requires
        0 <= i < s.len(),
        !s[i],
    ensures
        count_true(s.update(i, true)) == count_true(s) + 1,
    decreases s.len(),
{
    let t = s.update(i, true);
    if i == s.len() - 1 {
        assert(t.drop_last() =~= s.drop_last());
    } else {
        assert(t.drop_last() =~= s.drop_last().update(i, true));
        lemma_count_true_set(s.drop_last(), i);
    }
}

proof fn lemma_reach_self(es: Seq<(Constraint, u32)>, dir: Direction, orig: int)
    ensures
        reachable(es, dir, orig, orig),
{
    let p = seq![orig];
    assert(walk_between(es, dir, p, orig, orig));
}

proof fn lemma_reach_step(es: Seq<(Constraint, u32)>, dir: Direction, orig: int, u: int, w: int)
    requires
        reachable(es, dir, orig, u),
        var_edge(es, dir, u, w),
    ensures
        reachable(es, dir, orig, w),
{
    let p = choose|p: Seq<int>| #[trigger] walk_between(es, dir, p, orig, u);
    let q = p.push(w);
    assert forall|k: int| 0 <= k < q.len() - 1 implies var_edge(es, dir, #[trigger] q[k], q[k + 1]) by {
        if k < p.len() - 1 {
            assert(q[k] == p[k] && q[k + 1] == p[k + 1]);
        } else {
            assert(q[k] == u && q[k + 1] == w);
        }
    }
    assert(walk_between(es, dir, q, orig, w));
}

/// A set of variables that holds `orig` and is closed under the edges
/// holds every variable of a walk from `orig`.
proof fn lemma_closed_walk(es: Seq<(Constraint, u32)>, dir: Direction, vis: Seq<bool>, orig: int, p: Seq<int>)
    requires
        0 <= orig < vis.len(),
        vis[orig],
        forall|u: int, w: int|
            0 <= u < vis.len() && vis[u] && #[trigger] var_edge(es, dir, u, w) ==> 0 <= w < vis.len()
                && vis[w],
        is_walk(es, dir, p),
        p[0] == orig,
    ensures
        0 <= p.last() < vis.len(),
        vis[p.last()],
    decreases p.len(),
{
    if p.len() > 1 {
        let q = p.drop_last();
        assert forall|k: int| 0 <= k < q.len() - 1 implies var_edge(es, dir, #[trigger] q[k], q[k + 1]) by {
            assert(q[k] == p[k] && q[k + 1] == p[k + 1]);
            assert(var_edge(es, dir, p[k], p[k + 1]));
        }
        lemma_closed_walk(es, dir, vis, orig, q);
        assert(var_edge(es, dir, p[p.len() - 2], p[p.len() - 1]));
        assert(q.last() == p[p.len() - 2]);
    }
}

/// Follows the edges of variable `u` in direction `dir`, newest first:
/// a variable seen for the first time is marked and pushed on the stack,
/// and a concrete region is added to the result with its origin.
fn process_edges(
    graph: &ConstraintGraph,
    dir: Direction,
    u: u32,
    visited: &mut Vec<bool>,
    stack: &mut Vec<u32>,
    result: &mut Vec<(Region, u32)>,
)
    requires
        graph_ok(*graph),
        u < graph.num_vars,
        old(visited)@.len() == graph.num_vars,
    ensures
        final(visited)@.len() == graph.num_vars,
        forall|w: int| 0 <= w < graph.num_vars && old(visited)@[w] ==> final(visited)@[w],
        forall|w: int|
            #[trigger] var_edge(graph.edges@, dir, u as int, w) ==> 0 <= w < graph.num_vars
                && final(visited)@[w],
        forall|w: int|
            0 <= w < graph.num_vars && final(visited)@[w] && !old(visited)@[w] ==> var_edge(
                graph.edges@,
                dir,
                u as int,
                w,
            ) && on_stack(final(stack)@, w),
        final(stack)@.len() >= old(stack)@.len(),
        final(stack)@.subrange(0, old(stack)@.len() as int) == old(stack)@,
        forall|k: int|
            old(stack)@.len() <= k < final(stack)@.len() ==> (#[trigger] final(stack)@[k]) < graph.num_vars
                && final(visited)@[final(stack)@[k] as int],
        count_true(final(visited)@) == count_true(old(visited)@) + (final(stack)@.len() - old(stack)@.len()),
        final(result)@.len() >= old(result)@.len(),
        final(result)@.subrange(0, old(result)@.len() as int) == old(result)@,
        forall|k: int|
            old(result)@.len() <= k < final(result)@.len() ==> from_edge(
                graph.edges@,
                dir,
                u as int,
                #[trigger] final(result)@[k],
            ),
        forall|j: int, r: Region|
            0 <= j < graph.edges@.len() && #[trigger] reg_step(graph.edges@[j].0, dir, u as int, r)
                ==> final(result)@.contains((r, graph.edges@[j].1)),
{
    let ghost es = graph.edges@;
    let ghost vis0 = visited@;
    let ghost st0 = stack@;
    let ghost res0 = result@;
    let mut j: usize = graph.edges.len();
    while j > 0
        invariant
            graph_ok(*graph),
            es == graph.edges@,
            u < graph.num_vars,
            j <= es.len(),
            visited@.len() == graph.num_vars,
            forall|w: int| 0 <= w < graph.num_vars && vis0[w] ==> visited@[w],
            forall|i: int, w: int|
                j <= i < es.len() && #[trigger] var_step(es[i].0, dir, u as int, w) ==> 0 <= w
                    < graph.num_vars && visited@[w],
            forall|w: int|
                0 <= w < graph.num_vars && visited@[w] && !vis0[w] ==> var_edge(es, dir, u as int, w)
                    && on_stack(stack@, w),
            stack@.len() >= st0.len(),
            stack@.subrange(0, st0.len() as int) == st0,
            forall|k: int|
                st0.len() <= k < stack@.len() ==> (#[trigger] stack@[k]) < graph.num_vars
                    && visited@[stack@[k] as int],
            count_true(visited@) == count_true(vis0) + (stack@.len() - st0.len()),
            result@.len() >= res0.len(),
            result@.subrange(0, res0.len() as int) == res0,
            forall|k: int|
                res0.len() <= k < result@.len() ==> from_edge(es, dir, u as int, #[trigger] result@[k]),
            forall|i: int, r: Region|
                j <= i < es.len() && #[trigger] reg_step(es[i].0, dir, u as int, r)
                    ==> result@.contains((r, es[i].1)),
        decreases j,
    {
        j = j - 1;
        let (c, origin) = graph.edges[j];
        assert(graph_ok(*graph));
        assert(es[j as int] == (c, origin));
        let opp: Option<u32> = match c {
            Constraint::VarSubVar(a, b) => match dir {
                Direction::Outgoing => if a == u { Some(b) } else { None },
                Direction::Incoming => if b == u { Some(a) } else { None },
            },
            _ => None,
        };
        let reg: Option<Region> = match c {
            Constraint::VarSubReg(a, r) => match dir {
                Direction::Outgoing => if a == u { Some(r) } else { None },
                Direction::Incoming => None,
            },
            Constraint::RegSubVar(r, b) => match dir {
                Direction::Outgoing => None,
                Direction::Incoming => if b == u { Some(r) } else { None },
            },
            _ => None,
        };
        assert(forall|w: int| var_step(c, dir, u as int, w) <==> (opp is Some && w == opp->0 as int));
        assert(forall|r: Region| reg_step(c, dir, u as int, r) <==> reg == Some(r));
        match opp {
            Some(w) => {
                assert(w < graph.num_vars);
                assert(var_edge(es, dir, u as int, w as int)) by {
                    assert(var_step(es[j as int].0, dir, u as int, w as int));
                }
                if !visited[w as usize] {
                    let ghost vb = visited@;
                    let ghost sb = stack@;
                    visited.set(w as usize, true);
                    stack.push(w);
                    proof {
                        lemma_count_true_set(vb, w as int);
                        assert(stack@.subrange(0, st0.len() as int) =~= sb.subrange(0, st0.len() as int));
                        assert(stack@[stack@.len() - 1] == w);
                        assert forall|x: int|
                            0 <= x < graph.num_vars && visited@[x] && !vis0[x] implies var_edge(
                            es,
                            dir,
                            u as int,
                            x,
                        ) && on_stack(stack@, x) by {
                            if x != w as int {
                                assert(vb[x]);
                                let k = choose|k: int| 0 <= k < sb.len() && sb[k] as int == x;
                                assert(stack@[k] == sb[k]);
                            } else {
                                assert(stack@[stack@.len() - 1] as int == x);
                            }
                        }
                        assert forall|k: int|
                            st0.len() <= k < stack@.len() implies (#[trigger] stack@[k]) < graph.num_vars
                            && visited@[stack@[k] as int] by {
                            if k < sb.len() {
                                assert(stack@[k] == sb[k]);
                            }
                        }
                    }
                }
            },
            None => {},
        }
        match reg {
            Some(r) => {
                let ghost rb = result@;
                result.push((r, origin));
                proof {
                    assert(result@.subrange(0, res0.len() as int) =~= rb.subrange(0, res0.len() as int));
                    assert(result@[result@.len() - 1] == (r, origin));
                    assert forall|k: int| res0.len() <= k < result@.len() implies from_edge(
                        es,
                        dir,
                        u as int,
                        #[trigger] result@[k],
                    ) by {
                        if k < rb.len() {
                            assert(result@[k] == rb[k]);
                        } else {
                            assert(reg_step(es[j as int].0, dir, u as int, result@[k].0));
                        }
                    }
                    assert forall|i: int, r2: Region|
                        j <= i < es.len() && #[trigger] reg_step(es[i].0, dir, u as int, r2) implies result@.contains(
                        (r2, es[i].1),
                    ) by {
                        if i == j as int {
                            assert(result@[result@.len() - 1] == (r2, es[i].1));
                        } else {
                            let k = choose|k: int| 0 <= k < rb.len() && rb[k] == (r2, es[i].1);
                            assert(result@[k] == rb[k]);
                        }
                    }
                }
            },
            None => {},
        }
    }
}

/// Walks the constraint graph from variable `orig` in direction `dir` and
/// gathers the concrete regions that the walk reaches, each with the
/// origin of its edge (the lower bounds of `orig` for `Incoming`, its
/// upper bounds for `Outgoing`). `dup_vec` remembers, for each variable,
/// the first walk that visited it (`u32::MAX` for none): each variable
/// visited for the first time is marked with `orig`, and the second result
/// tells whether the walk visited a variable that another walk had
/// visited before.
#[verifier::spinoff_prover]
#[verifier::rlimit(60)]
pub fn collect_concrete_regions(
    graph: &ConstraintGraph,
    orig: u32,
    dir: Direction,
    dup_vec: &mut Vec<u32>,
) -> (r: (Vec<(Region, u32)>, bool))
    requires
        graph_ok(*graph),
        orig < graph.num_vars,
        orig < u32::MAX,
        old(dup_vec)@.len() == graph.num_vars,
    ensures
        r.0@.to_set() == concrete_reachable(graph.edges@, dir, orig as int),
        r.1 == exists|w: int|
            0 <= w < graph.num_vars && #[trigger] reachable(graph.edges@, dir, orig as int, w)
                && old(dup_vec)@[w] != u32::MAX && old(dup_vec)@[w] != orig,
        final(dup_vec)@.len() == old(dup_vec)@.len(),
        forall|w: int|
            0 <= w < graph.num_vars ==> #[trigger] final(dup_vec)@[w] == if reachable(
                graph.edges@,
                dir,
                orig as int,
                w,
            ) && old(dup_vec)@[w] == u32::MAX {
                orig
            } else {
                old(dup_vec)@[w]
            },
{
    let ghost es = graph.edges@;
    let ghost dup0 = dup_vec@;
    let ghost o = orig as int;
    let n = graph.num_vars;
    let mut visited: Vec<bool> = Vec::new();
    while visited.len() < n
        invariant
            visited@.len() <= n,
            forall|w: int| 0 <= w < visited@.len() ==> !(#[trigger] visited@[w]),
        decreases n - visited@.len(),
    {
        visited.push(false);
    }
    proof {
        assert(count_true(visited@) == 0) by {
            lemma_count_false(visited@);
        }
        lemma_count_true_set(visited@, o);
        lemma_reach_self(es, dir, o);
    }
    visited.set(orig as usize, true);
    let mut stack: Vec<u32> = Vec::new();
    stack.push(orig);
    let mut result: Vec<(Region, u32)> = Vec::new();
    let mut dup_found = false;
    let ghost mut done: Set<int> = Set::empty();
    let ghost st_init = stack@;
    process_edges(graph, dir, orig, &mut visited, &mut stack, &mut result);
    proof {
        assert(stack@.subrange(0, 1) == st_init);
        assert(stack@.subrange(0, 1)[0] == stack@[0]);
        assert(stack@[0] == orig);
        assert forall|w: int| 0 <= w < n && visited@[w] implies reachable(es, dir, o, w) by {
            if w != o {
                lemma_reach_step(es, dir, o, o, w);
            }
        }
        assert forall|x: (Region, u32)| result@.contains(x) implies concrete_reachable(es, dir, o).contains(x) by {
            let k = choose|k: int| 0 <= k < result@.len() && result@[k] == x;
            assert(from_edge(es, dir, o, result@[k]));
            let i = choose|i: int| 0 <= i < es.len() && es[i].1 == x.1 && #[trigger] reg_step(es[i].0, dir, o, x.0);
            assert(reachable(es, dir, o, o) && reg_step(es[i].0, dir, o, x.0));
        }
        assert forall|w: int| 0 <= w < n && visited@[w] implies done.contains(w) || on_stack(stack@, w) by {
            if w == o {
                assert(stack@[0] == orig);
            }
        }
        lemma_count_true_le(visited@);
    }
    while stack.len() > 0
        invariant
            graph_ok(*graph),
            es == graph.edges@,
            n == graph.num_vars,
            orig < n,
            o == orig as int,
            visited@.len() == n,
            visited@[o],
            count_true(visited@) <= n,
            forall|k: int| 0 <= k < stack@.len() ==> (#[trigger] stack@[k]) < n && visited@[stack@[k] as int],
            forall|w: int| 0 <= w < n && visited@[w] ==> reachable(es, dir, o, w),
            forall|w: int| 0 <= w < n && visited@[w] ==> done.contains(w) || on_stack(stack@, w),
            forall|u: int| #[trigger] done.contains(u) ==> 0 <= u < n && visited@[u],
            forall|u: int, w: int|
                done.contains(u) && #[trigger] var_edge(es, dir, u, w) ==> 0 <= w < n && visited@[w],
            forall|u: int, j: int, r: Region|
                done.contains(u) && 0 <= j < es.len() && #[trigger] reg_step(es[j].0, dir, u, r)
                    ==> result@.contains((r, es[j].1)),
            forall|j: int, r: Region|
                0 <= j < es.len() && #[trigger] reg_step(es[j].0, dir, o, r) ==> result@.contains(
                    (r, es[j].1),
                ),
            forall|x: (Region, u32)|
                #[trigger] result@.contains(x) ==> concrete_reachable(es, dir, o).contains(x),
            dup_vec@.len() == n,
            dup0.len() == n,
            forall|w: int|
                0 <= w < n ==> #[trigger] dup_vec@[w] == if done.contains(w) && dup0[w] == u32::MAX {
                    orig
                } else {
                    dup0[w]
                },
            dup_found == exists|w: int|
                #[trigger] done.contains(w) && dup0[w] != u32::MAX && dup0[w] != orig,
        decreases 2 * (n - count_true(visited@)) + stack@.len(),
    {
        let ghost st = stack@;
        let node = match stack.pop() {
            Some(x) => x,
            None => orig,
        };
        assert(st.last() == node && stack@ == st.drop_last());
        let idx = node as usize;
        let ghost found_b = dup_found;
        let seen = dup_vec[idx];
        if seen == u32::MAX {
            dup_vec.set(idx, orig);
        } else if seen != orig {
            dup_found = true;
        }
        let ghost vis_b = visited@;
        let ghost res_b = result@;
        let ghost st_b = stack@;
        process_edges(graph, dir, node, &mut visited, &mut stack, &mut result);
        proof {
            let u = node as int;
            let done_b = done;
            done = done.insert(u);
            lemma_count_true_le(visited@);
            assert(reachable(es, dir, o, u));
            assert forall|k: int| 0 <= k < stack@.len() implies (#[trigger] stack@[k]) < n && visited@[stack@[k] as int] by {
                if k < st_b.len() {
                    assert(stack@[k] == st_b[k]);
                    assert(st_b[k] == st[k]);
                }
            }
            assert forall|w: int| 0 <= w < n && visited@[w] implies reachable(es, dir, o, w) by {
                if !vis_b[w] {
                    lemma_reach_step(es, dir, o, u, w);
                }
            }
            assert forall|w: int| 0 <= w < n && visited@[w] implies done.contains(w) || on_stack(stack@, w) by {
                if vis_b[w] && w != u && !done_b.contains(w) {
                    let k = choose|k: int| 0 <= k < st.len() && st[k] as int == w;
                    if k == st.len() - 1 {
                        assert(st[k] == node);
                    } else {
                        assert(st_b[k] == st[k]);
                        assert(stack@.subrange(0, st_b.len() as int)[k] == stack@[k]);
                        assert(stack@[k] as int == w);
                    }
                }
            }
            assert forall|u2: int, w: int| done.contains(u2) && #[trigger] var_edge(es, dir, u2, w) implies 0 <= w < n && visited@[w] by {
                if u2 != u {
                    assert(done_b.contains(u2));
                }
            }
            assert forall|u2: int, j: int, r: Region|
                done.contains(u2) && 0 <= j < es.len() && #[trigger] reg_step(es[j].0, dir, u2, r) implies result@.contains((r, es[j].1)) by {
                if u2 != u {
                    assert(done_b.contains(u2));
                    let k = choose|k: int| 0 <= k < res_b.len() && res_b[k] == (r, es[j].1);
                    assert(result@.subrange(0, res_b.len() as int)[k] == res_b[k]);
                }
            }
            assert forall|j: int, r: Region|
                0 <= j < es.len() && #[trigger] reg_step(es[j].0, dir, o, r) implies result@.contains((r, es[j].1)) by {
                let k = choose|k: int| 0 <= k < res_b.len() && res_b[k] == (r, es[j].1);
                assert(result@.subrange(0, res_b.len() as int)[k] == res_b[k]);
            }
            assert forall|x: (Region, u32)| #[trigger] result@.contains(x) implies concrete_reachable(es, dir, o).contains(x) by {
                let k = choose|k: int| 0 <= k < result@.len() && result@[k] == x;
                if k < res_b.len() {
                    assert(result@.subrange(0, res_b.len() as int)[k] == res_b[k]);
                    assert(res_b.contains(x));
                } else {
                    assert(from_edge(es, dir, u, result@[k]));
                    let i = choose|i: int| 0 <= i < es.len() && es[i].1 == x.1 && #[trigger] reg_step(es[i].0, dir, u, x.0);
                    assert(reachable(es, dir, o, u) && reg_step(es[i].0, dir, u, x.0));
                }
            }
            assert forall|w: int| 0 <= w < n implies #[trigger] dup_vec@[w] == if done.contains(w) && dup0[w] == u32::MAX {
                orig
            } else {
                dup0[w]
            } by {
            }
            assert(dup_found == (found_b || (dup0[u] != u32::MAX && dup0[u] != orig)));
            if dup_found {
                if found_b {
                    let w = choose|w: int| #[trigger] done_b.contains(w) && dup0[w] != u32::MAX && dup0[w] != orig;
                    assert(done.contains(w));
                } else {
                    assert(done.contains(u) && dup0[u] != u32::MAX && dup0[u] != orig);
                }
            } else {
                assert forall|w: int| #[trigger] done.contains(w) implies !(dup0[w] != u32::MAX && dup0[w] != orig) by {
                    if w != u {
                        assert(done_b.contains(w));
                    }
                }
            }
        }
    }
    proof {
        assert forall|u: int, w: int|
            0 <= u < visited@.len() && visited@[u] && #[trigger] var_edge(es, dir, u, w) implies 0 <= w < visited@.len() && visited@[w] by {
            assert(done.contains(u) || on_stack(stack@, u));
        }
        assert forall|w: int| 0 <= w < n implies (#[trigger] reachable(es, dir, o, w) <==> visited@[w]) by {
            if reachable(es, dir, o, w) {
                let p = choose|p: Seq<int>| #[trigger] walk_between(es, dir, p, o, w);
                lemma_closed_walk(es, dir, visited@, o, p);
            }
        }
        assert forall|w: int| 0 <= w < n && visited@[w] implies #[trigger] done.contains(w) by {
            assert(!on_stack(stack@, w));
        }
        assert forall|x: (Region, u32)| concrete_reachable(es, dir, o).contains(x) implies #[trigger] result@.to_set().contains(x) by {
            let (u, j) = choose|u: int, j: int|
                0 <= j < es.len() && reachable(es, dir, o, u) && es[j].1 == x.1 && #[trigger] reg_step(es[j].0, dir, u, x.0);
            let p = choose|p: Seq<int>| #[trigger] walk_between(es, dir, p, o, u);
            lemma_closed_walk(es, dir, visited@, o, p);
            assert(done.contains(u));
            assert(result@.contains((x.0, es[j].1)));
        }
        assert(result@.to_set() =~= concrete_reachable(es, dir, o));
        if dup_found {
            let w = choose|w: int| #[trigger] done.contains(w) && dup0[w] != u32::MAX && dup0[w] != orig;
            assert(reachable(es, dir, o, w));
        } else {
            assert forall|w: int|
                0 <= w < n && #[trigger] reachable(es, dir, o, w) implies !(dup0[w] != u32::MAX && dup0[w] != orig) by {
                assert(done.contains(w));
            }
        }
        assert forall|w: int| 0 <= w < n implies #[trigger] dup_vec@[w] == if reachable(es, dir, o, w) && dup0[w] == u32::MAX {
            orig
        } else {
            dup0[w]
        } by {
            if reachable(es, dir, o, w) {
                assert(done.contains(w));
            } else if done.contains(w) {
                assert(visited@[w]);
            }
        }
    }
    (result, dup_found)
}

proof fn lemma_count_false(s: Seq<bool>)
    requires
        forall|w: int| 0 <= w < s.len() ==> !(#[trigger] s[w]),
    ensures
        count_true(s) == 0,
    decreases s.len(),
{
    if s.len() > 0 {
        lemma_count_false(s.drop_last());
    }
}

/// Free regions come first in an error, early-bound ones before the rest.
pub open spec fn order_key(r: Region) -> int {
    match r {
        Region::EarlyBound { .. } => 0,
        Region::Free { .. } => 1,
        _ => 2,
    }
}

fn region_order_key(r: &Region) -> (k: u8)
    ensures
        k as int == order_key(*r),
{
    match r {
        Region::EarlyBound { .. } => 0,
        Region::Free { .. } => 1,
        _ => 2,
    }
}

/// The pairs of `s` whose region has key `k`, in their order.
pub open spec fn with_key(s: Seq<(Region, u32)>, k: int) -> Seq<(Region, u32)>
    decreases s.len(),
{
    if s.len() == 0 {
        Seq::empty()
    } else if order_key(s.last().0) == k {
        with_key(s.drop_last(), k).push(s.last())
    } else {
        with_key(s.drop_last(), k)
    }
}

/// `s` sorted by the key of its regions, keeping the order of equal keys.
pub open spec fn sorted_by_key(s: Seq<(Region, u32)>) -> Seq<(Region, u32)> {
    with_key(s, 0) + with_key(s, 1) + with_key(s, 2)
}

proof fn lemma_with_key(s: Seq<(Region, u32)>, k: int)
    ensures
        forall|x: (Region, u32)| #[trigger] with_key(s, k).contains(x) <==> s.contains(x) && order_key(x.0) == k,
    decreases s.len(),
{
    if s.len() > 0 {
        lemma_with_key(s.drop_last(), k);
        let w = with_key(s, k);
        let p = with_key(s.drop_last(), k);
        assert forall|x: (Region, u32)| #[trigger] w.contains(x) <==> s.contains(x) && order_key(x.0) == k by {
            if s.contains(x) && order_key(x.0) == k {
                let i = choose|i: int| 0 <= i < s.len() && s[i] == x;
                if i < s.len() - 1 {
                    assert(s.drop_last()[i] == x);
                    assert(p.contains(x));
                    if order_key(s.last().0) == k {
                        let j = choose|j: int| 0 <= j < p.len() && p[j] == x;
                        assert(w[j] == x);
                    }
                } else {
                    assert(w[w.len() - 1] == x);
                }
            }
            if w.contains(x) {
                let j = choose|j: int| 0 <= j < w.len() && w[j] == x;
                if order_key(s.last().0) == k && j == w.len() - 1 {
                    assert(s[s.len() - 1] == x);
                } else {
                    assert(p[j] == x);
                    assert(p.contains(x));
                    let i = choose|i: int| 0 <= i < s.drop_last().len() && s.drop_last()[i] == x;
                    assert(s[i] == x);
                }
            }
        }
    }
}

proof fn lemma_sorted(s: Seq<(Region, u32)>)
    requires
        forall|i: int| 0 <= i < s.len() ==> 0 <= order_key((#[trigger] s[i]).0) <= 2,
    ensures
        forall|x: (Region, u32)| #[trigger] sorted_by_key(s).contains(x) <==> s.contains(x),
        forall|i: int, j: int|
            0 <= i < j < sorted_by_key(s).len() ==> order_key((#[trigger] sorted_by_key(s)[i]).0)
                <= order_key((#[trigger] sorted_by_key(s)[j]).0),
{
    lemma_with_key(s, 0);
    lemma_with_key(s, 1);
    lemma_with_key(s, 2);
    let a = with_key(s, 0);
    let b = with_key(s, 1);
    let c = with_key(s, 2);
    let r = sorted_by_key(s);
    assert(r == a + b + c);
    assert forall|x: (Region, u32)| #[trigger] r.contains(x) <==> s.contains(x) by {
        if s.contains(x) {
            let i = choose|i: int| 0 <= i < s.len() && s[i] == x;
            assert(0 <= order_key(s[i].0) <= 2);
            if order_key(x.0) == 0 {
                assert(a.contains(x));
                let j = choose|j: int| 0 <= j < a.len() && a[j] == x;
                assert((a + b)[j] == x);
                assert(r[j] == x);
            } else if order_key(x.0) == 1 {
                assert(b.contains(x));
                let j = choose|j: int| 0 <= j < b.len() && b[j] == x;
                assert((a + b)[a.len() + j] == x);
                assert(r[a.len() + j] == x);
            } else {
                assert(c.contains(x));
                let j = choose|j: int| 0 <= j < c.len() && c[j] == x;
                assert(r[a.len() + b.len() + j] == x);
            }
        }
        if r.contains(x) {
            let j = choose|j: int| 0 <= j < r.len() && r[j] == x;
            if j < a.len() {
                assert(a[j] == x && a.contains(x));
            } else if j < a.len() + b.len() {
                assert(b[j - a.len()] == x && b.contains(x));
            } else {
                assert(c[j - a.len() - b.len()] == x && c.contains(x));
            }
        }
    }
    assert forall|i: int| 0 <= i < r.len() implies order_key((#[trigger] r[i]).0) == if i < a.len() {
        0int
    } else if i < a.len() + b.len() {
        1int
    } else {
        2int
    } by {
        if i < a.len() {
            assert(a.contains(a[i]));
            assert(r[i] == a[i]);
        } else if i < a.len() + b.len() {
            assert(b.contains(b[i - a.len()]));
            assert(r[i] == b[i - a.len()]);
        } else {
            assert(c.contains(c[i - a.len() - b.len()]));
            assert(r[i] == c[i - a.len() - b.len()]);
        }
    }
}

/// The pairs of `v` sorted by the key of their regions, keeping the order
/// of equal keys.
fn sort_by_region_kind(v: &Vec<(Region, u32)>) -> (r: Vec<(Region, u32)>)
    ensures
        r@ == sorted_by_key(v@),
{
    let mut r: Vec<(Region, u32)> = Vec::new();
    let mut k: u8 = 0;
    while k < 3
        invariant
            k <= 3,
            r@ == if k == 0 {
                Seq::empty()
            } else if k == 1 {
                with_key(v@, 0)
            } else if k == 2 {
                with_key(v@, 0) + with_key(v@, 1)
            } else {
                sorted_by_key(v@)
            },
        decreases 3 - k,
    {
        let ghost r0 = r@;
        let mut i: usize = 0;
        while i < v.len()
            invariant
                i <= v@.len(),
                k < 3,
                r@ == r0 + with_key(v@.subrange(0, i as int), k as int),
            decreases v@.len() - i,
        {
            let ghost next = v@.subrange(0, i + 1);
            assert(next.drop_last() =~= v@.subrange(0, i as int));
            assert(next.last() == v@[i as int]);
            let x = v[i];
            if region_order_key(&x.0) == k {
                r.push(x);
                assert(r@ =~= r0 + with_key(next, k as int));
            } else {
                assert(r@ =~= r0 + with_key(next, k as int));
            }
            i = i + 1;
        }
        assert(v@.subrange(0, v@.len() as int) =~= v@);
        k = k + 1;
        assert(r@ =~= if k == 1 {
            with_key(v@, 0)
        } else if k == 2 {
            with_key(v@, 0) + with_key(v@, 1)
        } else {
            sorted_by_key(v@)
        });
    }
    r
}

/// The concrete regions of the graph's edges can be related.
pub open spec fn graph_regions_ok(t: ScopeTree, g: ConstraintGraph) -> bool {
    forall|j: int| 0 <= j < g.edges@.len() ==> match (#[trigger] g.edges@[j]).0 {
        Constraint::RegSubVar(r, _) => region_ok(t, r),
        Constraint::VarSubReg(_, r) => region_ok(t, r),
        _ => true,
    }
}

/// A variable that the walks from `node` reach, in either direction, was
/// reached before by the walks from another variable.
pub open spec fn walk_dup(g: ConstraintGraph, node: u32, dup0: Seq<u32>) -> bool {
    exists|w: int|
        #![trigger reachable(g.edges@, Direction::Incoming, node as int, w)]
        #![trigger reachable(g.edges@, Direction::Outgoing, node as int, w)]
        0 <= w < g.num_vars && (reachable(g.edges@, Direction::Incoming, node as int, w) || reachable(
            g.edges@,
            Direction::Outgoing,
            node as int,
            w,
        )) && dup0[w] != u32::MAX && dup0[w] != node
}

/// `d` is `dup0` with each variable that the walks from `node` reach, in
/// either direction, marked with `node` where no walk had reached it.
pub open spec fn marked_after(g: ConstraintGraph, node: u32, dup0: Seq<u32>, d: Seq<u32>) -> bool {
    &&& d.len() == dup0.len()
    &&& forall|w: int|
        0 <= w < g.num_vars ==> #[trigger] d[w] == if (reachable(g.edges@, Direction::Incoming, node as int, w)
            || reachable(g.edges@, Direction::Outgoing, node as int, w)) && dup0[w] == u32::MAX {
            node
        } else {
            dup0[w]
        }
}

/// A lower bound of `node` is no subregion of one of its upper bounds.
pub open spec fn conflicting(
    t: ScopeTree,
    tbl: Seq<(Region, Region, Region)>,
    g: ConstraintGraph,
    node: u32,
    lo: (Region, u32),
    up: (Region, u32),
) -> bool {
    &&& concrete_reachable(g.edges@, Direction::Incoming, node as int).contains(lo)
    &&& concrete_reachable(g.edges@, Direction::Outgoing, node as int).contains(up)
    &&& !is_sub(t, tbl, lo.0, up.0)
}

/// `e` reports the lower bound `lo` of `node` and its upper bound `up`:
/// `lo` is no subregion of `up`, no lower bound with a conflict comes
/// before `lo` by the kind of its region, and no upper bound in conflict
/// with `lo` comes before `up`.
pub open spec fn reported_pair(
    t: ScopeTree,
    tbl: Seq<(Region, Region, Region)>,
    g: ConstraintGraph,
    origins: Seq<u32>,
    node: u32,
    e: RegionResolutionError,
    lo: (Region, u32),
    up: (Region, u32),
) -> bool {
    &&& conflicting(t, tbl, g, node, lo, up)
    &&& e == RegionResolutionError::SubSupConflict(origins[node as int], lo.1, lo.0, up.1, up.0)
    &&& forall|lo2: (Region, u32), up2: (Region, u32)|
        #[trigger] conflicting(t, tbl, g, node, lo2, up2) ==> order_key(lo.0) <= order_key(lo2.0)
    &&& forall|up2: (Region, u32)|
        #[trigger] conflicting(t, tbl, g, node, lo, up2) ==> order_key(up.0) <= order_key(up2.0)
}

/// `e` reports a conflict of `node` as `reported_pair` describes.
pub open spec fn conflict_reported(
    t: ScopeTree,
    tbl: Seq<(Region, Region, Region)>,
    g: ConstraintGraph,
    origins: Seq<u32>,
    node: u32,
    e: RegionResolutionError,
) -> bool {
    exists|lo: (Region, u32), up: (Region, u32)| #[trigger] reported_pair(t, tbl, g, origins, node, e, lo, up)
}

proof fn lemma_reached_region_ok(t: ScopeTree, g: ConstraintGraph, dir: Direction, o: int, x: (Region, u32))
    requires
        graph_regions_ok(t, g),
        concrete_reachable(g.edges@, dir, o).contains(x),
    ensures
        region_ok(t, x.0),
{
    let es = g.edges@;
    let (u, j) = choose|u: int, j: int|
        0 <= j < es.len() && reachable(es, dir, o, u) && es[j].1 == x.1 && #[trigger] reg_step(es[j].0, dir, u, x.0);
    assert(graph_regions_ok(t, g));
    assert(match es[j].0 {
        Constraint::RegSubVar(r, _) => region_ok(t, r),
        Constraint::VarSubReg(_, r) => region_ok(t, r),
        _ => true,
    });
}

/// Reports the error of a variable whose value became an error: the walks
/// gather its lower and its upper bounds (marking `dup_vec`), and unless a
/// walk reached a variable that an earlier walk had reached, the first
/// lower bound that is no subregion of an upper bound is reported with
/// the first such upper bound, early-bound and then free regions first.
pub fn collect_error_for_expanding_node(
    t: &ScopeTree,
    tbl: &Vec<(Region, Region, Region)>,
    graph: &ConstraintGraph,
    var_origins: &Vec<u32>,
    dup_vec: &mut Vec<u32>,
    node: u32,
    errors: &mut Vec<RegionResolutionError>,
)
    requires
        t.wf(),
        one_tree(*t),
        graph_ok(*graph),
        graph_regions_ok(*t, *graph),
        node < graph.num_vars,
        node < u32::MAX,
        node < var_origins@.len(),
        old(dup_vec)@.len() == graph.num_vars,
        walk_dup(*graph, node, old(dup_vec)@) || exists|lo: (Region, u32), up: (Region, u32)|
            conflicting(*t, tbl@, *graph, node, lo, up),
    ensures
        marked_after(*graph, node, old(dup_vec)@, final(dup_vec)@),
        walk_dup(*graph, node, old(dup_vec)@) ==> final(errors)@ == old(errors)@,
        !walk_dup(*graph, node, old(dup_vec)@) ==> final(errors)@.len() == old(errors)@.len() + 1
            && final(errors)@.drop_last() == old(errors)@ && conflict_reported(
            *t,
            tbl@,
            *graph,
            var_origins@,
            node,
            final(errors)@.last(),
        ),
{
    let ghost es = graph.edges@;
    let ghost dup0 = dup_vec@;
    let ghost o = node as int;
    let (lower, lower_dup) = collect_concrete_regions(graph, node, Direction::Incoming, dup_vec);
    let ghost dup1 = dup_vec@;
    let (upper, upper_dup) = collect_concrete_regions(graph, node, Direction::Outgoing, dup_vec);
    proof {
        assert forall|w: int| 0 <= w < graph.num_vars && reachable(es, Direction::Outgoing, o, w) implies (dup1[w]
            != u32::MAX && dup1[w] != node) == (dup0[w] != u32::MAX && dup0[w] != node) by {
            assert(dup1[w] == if reachable(es, Direction::Incoming, o, w) && dup0[w] == u32::MAX {
                node
            } else {
                dup0[w]
            });
        }
        assert forall|w: int| 0 <= w < graph.num_vars implies #[trigger] dup_vec@[w] == if (reachable(
            es,
            Direction::Incoming,
            o,
            w,
        ) || reachable(es, Direction::Outgoing, o, w)) && dup0[w] == u32::MAX {
            node
        } else {
            dup0[w]
        } by {
            assert(dup1[w] == if reachable(es, Direction::Incoming, o, w) && dup0[w] == u32::MAX {
                node
            } else {
                dup0[w]
            });
            assert(dup_vec@[w] == if reachable(es, Direction::Outgoing, o, w) && dup1[w] == u32::MAX {
                node
            } else {
                dup1[w]
            });
        }
        if lower_dup || upper_dup {
            if lower_dup {
                let w = choose|w: int|
                    0 <= w < graph.num_vars && #[trigger] reachable(es, Direction::Incoming, o, w) && dup0[w]
                        != u32::MAX && dup0[w] != node;
                assert(walk_dup(*graph, node, dup0));
            } else {
                let w = choose|w: int|
                    0 <= w < graph.num_vars && #[trigger] reachable(es, Direction::Outgoing, o, w) && dup1[w]
                        != u32::MAX && dup1[w] != node;
                assert(dup1[w] == if reachable(es, Direction::Incoming, o, w) && dup0[w] == u32::MAX {
                    node
                } else {
                    dup0[w]
                });
                assert(dup0[w] != u32::MAX && dup0[w] != node);
                assert(walk_dup(*graph, node, dup0));
            }
        } else {
            assert(!walk_dup(*graph, node, dup0)) by {
                if walk_dup(*graph, node, dup0) {
                    let w = choose|w: int|
                        #![trigger reachable(es, Direction::Incoming, o, w)]
                        #![trigger reachable(es, Direction::Outgoing, o, w)]
                        0 <= w < graph.num_vars && (reachable(es, Direction::Incoming, o, w) || reachable(
                            es,
                            Direction::Outgoing,
                            o,
                            w,
                        )) && dup0[w] != u32::MAX && dup0[w] != node;
                    if !reachable(es, Direction::Incoming, o, w) {
                        assert(dup1[w] == dup0[w]);
                    }
                }
            }
        }
    }
    if lower_dup || upper_dup {
        return;
    }
    let lows = sort_by_region_kind(&lower);
    let ups = sort_by_region_kind(&upper);
    let ghost lset = concrete_reachable(es, Direction::Incoming, o);
    let ghost uset = concrete_reachable(es, Direction::Outgoing, o);
    proof {
        lemma_sorted(lower@);
        lemma_sorted(upper@);
        assert forall|x: (Region, u32)| #[trigger] lows@.contains(x) <==> lset.contains(x) by {
            assert(lower@.to_set().contains(x) == lower@.contains(x));
        }
        assert forall|x: (Region, u32)| #[trigger] ups@.contains(x) <==> uset.contains(x) by {
            assert(upper@.to_set().contains(x) == upper@.contains(x));
        }
    }
    let mut i: usize = 0;
    while i < lows.len()
        invariant
            t.wf(),
            one_tree(*t),
            graph_regions_ok(*t, *graph),
            es == graph.edges@,
            o == node as int,
            lset == concrete_reachable(es, Direction::Incoming, o),
            uset == concrete_reachable(es, Direction::Outgoing, o),
            i <= lows@.len(),
            node < var_origins@.len(),
            marked_after(*graph, node, dup0, dup_vec@),
            dup0 == old(dup_vec)@,
            forall|x: (Region, u32)| #[trigger] lows@.contains(x) <==> lset.contains(x),
            forall|x: (Region, u32)| #[trigger] ups@.contains(x) <==> uset.contains(x),
            forall|a: int, b: int| 0 <= a < b < lows@.len() ==> order_key((#[trigger] lows@[a]).0) <= order_key((#[trigger] lows@[b]).0),
            forall|a: int, b: int| 0 <= a < b < ups@.len() ==> order_key((#[trigger] ups@[a]).0) <= order_key((#[trigger] ups@[b]).0),
            forall|a: int, b: int| 0 <= a < i && 0 <= b < ups@.len() ==> is_sub(*t, tbl@, (#[trigger] lows@[a]).0, (#[trigger] ups@[b]).0),
            errors@ == old(errors)@,
            !walk_dup(*graph, node, dup0),
            walk_dup(*graph, node, dup0) || exists|lo: (Region, u32), up: (Region, u32)|
                conflicting(*t, tbl@, *graph, node, lo, up),
        decreases lows@.len() - i,
    {
        let lo = lows[i];
        assert(lows@.contains(lo));
        proof {
            lemma_reached_region_ok(*t, *graph, Direction::Incoming, o, lo);
        }
        let mut j: usize = 0;
        while j < ups.len()
            invariant
                t.wf(),
                one_tree(*t),
                graph_regions_ok(*t, *graph),
                es == graph.edges@,
                o == node as int,
                uset == concrete_reachable(es, Direction::Outgoing, o),
                i < lows@.len(),
                lo == lows@[i as int],
                region_ok(*t, lo.0),
                j <= ups@.len(),
                node < var_origins@.len(),
                marked_after(*graph, node, dup0, dup_vec@),
                dup0 == old(dup_vec)@,
            dup0 == old(dup_vec)@,
                errors@ == old(errors)@,
                lset == concrete_reachable(es, Direction::Incoming, o),
                forall|x: (Region, u32)| #[trigger] lows@.contains(x) <==> lset.contains(x),
                forall|a: int, b: int| 0 <= a < b < lows@.len() ==> order_key((#[trigger] lows@[a]).0) <= order_key((#[trigger] lows@[b]).0),
                forall|a: int, b: int| 0 <= a < b < ups@.len() ==> order_key((#[trigger] ups@[a]).0) <= order_key((#[trigger] ups@[b]).0),
                forall|a: int, b: int| 0 <= a < i && 0 <= b < ups@.len() ==> is_sub(*t, tbl@, (#[trigger] lows@[a]).0, (#[trigger] ups@[b]).0),
                !walk_dup(*graph, node, dup0),
                forall|x: (Region, u32)| #[trigger] ups@.contains(x) <==> uset.contains(x),
                forall|b: int| 0 <= b < j ==> is_sub(*t, tbl@, lo.0, (#[trigger] ups@[b]).0),
            decreases ups@.len() - j,
        {
            let up = ups[j];
            assert(ups@.contains(up));
            proof {
                lemma_reached_region_ok(*t, *graph, Direction::Outgoing, o, up);
            }
            if !is_subregion_of(t, tbl, lo.0, up.0) {
                errors.push(RegionResolutionError::SubSupConflict(var_origins[node as usize], lo.1, lo.0, up.1, up.0));
                assert(errors@.drop_last() =~= old(errors)@);
                proof {
                    assert(lows@.contains(lo));
                    assert(lset.contains(lo));
                    assert(conflicting(*t, tbl@, *graph, node, lo, up));
                    assert forall|lo2: (Region, u32), up2: (Region, u32)|
                        #[trigger] conflicting(*t, tbl@, *graph, node, lo2, up2) implies order_key(lo.0) <= order_key(lo2.0) by {
                        assert(lows@.contains(lo2));
                        let a = choose|a: int| 0 <= a < lows@.len() && lows@[a] == lo2;
                        assert(ups@.contains(up2));
                        let b = choose|b: int| 0 <= b < ups@.len() && ups@[b] == up2;
                        if a < i {
                            assert(is_sub(*t, tbl@, lows@[a].0, ups@[b].0));
                        } else if a > i {
                            assert(order_key(lows@[i as int].0) <= order_key(lows@[a].0));
                        }
                    }
                    assert forall|up2: (Region, u32)|
                        #[trigger] conflicting(*t, tbl@, *graph, node, lo, up2) implies order_key(up.0) <= order_key(up2.0) by {
                        assert(ups@.contains(up2));
                        let b = choose|b: int| 0 <= b < ups@.len() && ups@[b] == up2;
                        if b < j {
                            assert(is_sub(*t, tbl@, lo.0, ups@[b].0));
                        } else if b > j {
                            assert(order_key(ups@[j as int].0) <= order_key(ups@[b].0));
                        }
                    }
                    assert(reported_pair(*t, tbl@, *graph, var_origins@, node, errors@.last(), lo, up));
                }
                return;
            }
            j = j + 1;
        }
        i = i + 1;
    }
    proof {
        let (lo, up) = choose|lo: (Region, u32), up: (Region, u32)| conflicting(*t, tbl@, *graph, node, lo, up);
        assert(lows@.contains(lo));
        let a = choose|a: int| 0 <= a < lows@.len() && lows@[a] == lo;
        assert(ups@.contains(up));
        let b = choose|b: int| 0 <= b < ups@.len() && ups@[b] == up;
        assert(is_sub(*t, tbl@, lows@[a].0, ups@[b].0));
        assert(false);
    }
}

/// `d` with each variable that the walks from `node` reach marked with
/// `node` where no walk had reached it.
pub open spec fn mark_walks(g: ConstraintGraph, node: u32, d: Seq<u32>) -> Seq<u32> {
    Seq::new(
        d.len(),
        |w: int|
            if (reachable(g.edges@, Direction::Incoming, node as int, w) || reachable(
                g.edges@,
                Direction::Outgoing,
                node as int,
                w,
            )) && d[w] == u32::MAX {
                node
            } else {
                d[w]
            },
    )
}

/// The marks after the error variables among the first `k` have been
/// walked from, in order.
pub open spec fn dup_after(g: ConstraintGraph, vals: Seq<VarValue>, k: nat) -> Seq<u32>
    decreases k,
{
    if k == 0 {
        Seq::new(g.num_vars as nat, |w: int| u32::MAX)
    } else {
        let d = dup_after(g, vals, (k - 1) as nat);
        if vals[k - 1] is ErrorValue {
            mark_walks(g, (k - 1) as u32, d)
        } else {
            d
        }
    }
}

/// `e` are the errors reported for the error variables among the first
/// `k`, in order: one conflict for each whose walks reached no variable
/// reached before.
pub open spec fn var_errors(
    t: ScopeTree,
    tbl: Seq<(Region, Region, Region)>,
    g: ConstraintGraph,
    origins: Seq<u32>,
    vals: Seq<VarValue>,
    k: nat,
    e: Seq<RegionResolutionError>,
) -> bool
    decreases k,
{
    if k == 0 {
        e.len() == 0
    } else {
        let node = (k - 1) as u32;
        let d = dup_after(g, vals, (k - 1) as nat);
        if vals[k - 1] is ErrorValue && !walk_dup(g, node, d) {
            e.len() >= 1 && var_errors(t, tbl, g, origins, vals, (k - 1) as nat, e.drop_last())
                && conflict_reported(t, tbl, g, origins, node, e.last())
        } else {
            var_errors(t, tbl, g, origins, vals, (k - 1) as nat, e)
        }
    }
}

/// Each error variable among the first `k` has a conflict to report, or
/// its walks reach a variable that an earlier walk reached.
pub open spec fn errors_found(
    t: ScopeTree,
    tbl: Seq<(Region, Region, Region)>,
    g: ConstraintGraph,
    vals: Seq<VarValue>,
) -> bool {
    forall|k: nat|
        k < vals.len() && #[trigger] vals[k as int] is ErrorValue ==> walk_dup(g, k as u32, dup_after(g, vals, k))
            || has_conflict(t, tbl, g, k as u32)
}

/// Some lower bound of `node` is no subregion of one of its upper bounds.
pub open spec fn has_conflict(t: ScopeTree, tbl: Seq<(Region, Region, Region)>, g: ConstraintGraph, node: u32) -> bool {
    exists|lo: (Region, u32), up: (Region, u32)| #[trigger] conflicting(t, tbl, g, node, lo, up)
}

/// Reports, for each variable whose value became an error, the conflict
/// between one of its lower bounds and one of its upper bounds, skipping
/// a variable whose walks reach a variable that the walks of an earlier
/// one reached.
pub fn collect_var_errors(
    t: &ScopeTree,
    tbl: &Vec<(Region, Region, Region)>,
    graph: &ConstraintGraph,
    var_origins: &Vec<u32>,
    values: &Vec<VarValue>,
    errors: &mut Vec<RegionResolutionError>,
)
    requires
        t.wf(),
        one_tree(*t),
        graph_ok(*graph),
        graph_regions_ok(*t, *graph),
        graph.num_vars < u32::MAX,
        values@.len() == graph.num_vars,
        var_origins@.len() == graph.num_vars,
        errors_found(*t, tbl@, *graph, values@),
    ensures
        final(errors)@.len() >= old(errors)@.len(),
        final(errors)@.subrange(0, old(errors)@.len() as int) == old(errors)@,
        var_errors(
            *t,
            tbl@,
            *graph,
            var_origins@,
            values@,
            values@.len(),
            final(errors)@.subrange(old(errors)@.len() as int, final(errors)@.len() as int),
        ),
{
    let n = graph.num_vars;
    let mut dup_vec: Vec<u32> = Vec::new();
    while dup_vec.len() < n
        invariant
            dup_vec@.len() <= n,
            forall|w: int| 0 <= w < dup_vec@.len() ==> #[trigger] dup_vec@[w] == u32::MAX,
        decreases n - dup_vec@.len(),
    {
        dup_vec.push(u32::MAX);
    }
    assert(dup_vec@ =~= dup_after(*graph, values@, 0));
    let ghost e0 = errors@;
    let mut k: usize = 0;
    while k < n
        invariant
            t.wf(),
            one_tree(*t),
            graph_ok(*graph),
            graph_regions_ok(*t, *graph),
            n == graph.num_vars,
            n < u32::MAX,
            k <= n,
            values@.len() == n,
            var_origins@.len() == n,
            errors_found(*t, tbl@, *graph, values@),
            dup_vec@ == dup_after(*graph, values@, k as nat),
            errors@.len() >= e0.len(),
            errors@.subrange(0, e0.len() as int) == e0,
            var_errors(*t, tbl@, *graph, var_origins@, values@, k as nat, errors@.subrange(e0.len() as int, errors@.len() as int)),
        decreases n - k,
    {
        let ghost d = dup_vec@;
        let ghost eb = errors@;
        proof {
            lemma_dup_after_len(*graph, values@, k as nat);
        }
        match values[k] {
            VarValue::ErrorValue => {
                assert(values@[k as int] is ErrorValue);
                assert(errors_found(*t, tbl@, *graph, values@));
                assert(walk_dup(*graph, k as u32, d) || has_conflict(*t, tbl@, *graph, k as u32)) by {
                    assert(values@[(k as nat) as int] is ErrorValue);
                }
                collect_error_for_expanding_node(t, tbl, graph, var_origins, &mut dup_vec, k as u32, errors);
                proof {
                    assert(dup_vec@ =~= mark_walks(*graph, k as u32, d));
                    let news = errors@.subrange(e0.len() as int, errors@.len() as int);
                    let olds = eb.subrange(e0.len() as int, eb.len() as int);
                    assert(errors@.subrange(0, e0.len() as int) =~= eb.subrange(0, e0.len() as int)) by {
                        if !walk_dup(*graph, k as u32, d) {
                            assert(errors@.drop_last() == eb);
                            assert forall|i: int| 0 <= i < e0.len() implies errors@.subrange(0, e0.len() as int)[i] == eb.subrange(0, e0.len() as int)[i] by {
                                assert(errors@.drop_last()[i] == errors@[i]);
                            }
                        }
                    }
                    if !walk_dup(*graph, k as u32, d) {
                        assert(news.drop_last() =~= olds) by {
                            assert(errors@.drop_last() == eb);
                            assert forall|i: int| 0 <= i < olds.len() implies news.drop_last()[i] == olds[i] by {
                                assert(errors@.drop_last()[e0.len() + i] == errors@[e0.len() + i]);
                            }
                        }
                        assert(news.last() == errors@.last());
                    } else {
                        assert(news =~= olds);
                    }
                }
            },
            VarValue::Value(_) => {},
        }
        k = k + 1;
    }
}

proof fn lemma_dup_after_len(g: ConstraintGraph, vals: Seq<VarValue>, k: nat)
    ensures
        dup_after(g, vals, k).len() == g.num_vars,
    decreases k,
{
    if k > 0 {
        lemma_dup_after_len(g, vals, (k - 1) as nat);
    }
}

/// The least upper bound of two regions, with the free-region bounds of
/// `tbl`.
pub open spec fn lub_with(t: ScopeTree, tbl: Seq<(Region, Region, Region)>, a: Region, b: Region) -> Region {
    lub_spec(t, a, b, bound_from(tbl, a, b, 0))
}

proof fn lemma_lub_ok(t: ScopeTree, tbl: Seq<(Region, Region, Region)>, a: Region, b: Region)
    requires
        t.wf(),
        one_tree(t),
        region_ok(t, a),
        region_ok(t, b),
        table_ok(t, tbl),
    ensures
        region_ok(t, lub_with(t, tbl, a, b)),
{
    lemma_bound_from_ok(t, tbl, a, b, 0);
    if a is Scope && b is Scope {
        let sa = a->Scope_0 as int;
        let sb = b->Scope_0 as int;
        assert(t.root(sa) == t.root(sb));
        t.lemma_nca_exists(sa, sb);
        assert(t.parent@.len() <= usize::MAX) by {
            assert(t.parent.len() == t.parent@.len());
        }
        let m = nca_of(t, sa, sb);
        assert((m as usize) as int == m);
    }
}

proof fn lemma_bound_from_ok(t: ScopeTree, tbl: Seq<(Region, Region, Region)>, a: Region, b: Region, i: int)
    requires
        table_ok(t, tbl),
    ensures
        bound_from(tbl, a, b, i) matches Some(r) ==> region_ok(t, r),
    decreases tbl.len() - i,
{
    if 0 <= i < tbl.len() && !(tbl[i].0 == a && tbl[i].1 == b) {
        lemma_bound_from_ok(t, tbl, a, b, i + 1);
    }
}

/// What expanding variable `b_vid` (with value `b`) by the region `a`
/// gives, and whether it changed: the value grows to the least upper bound
/// of `a` and its region, unless it is an error value, or `a` is a free
/// region that a given already relates to the variable.
pub open spec fn expand_spec(
    t: ScopeTree,
    tbl: Seq<(Region, Region, Region)>,
    givens: Seq<(Region, u32)>,
    a: Region,
    b_vid: u32,
    b: VarValue,
) -> (VarValue, bool) {
    if is_free_like(a) && givens.contains((a, b_vid)) {
        (b, false)
    } else {
        match b {
            VarValue::Value(cur) => {
                let l = lub_with(t, tbl, a, cur);
                if l == cur {
                    (b, false)
                } else {
                    (VarValue::Value(l), true)
                }
            },
            VarValue::ErrorValue => (b, false),
        }
    }
}

/// Whether `givens` holds the pair.
fn given(givens: &Vec<(Region, u32)>, a: Region, b_vid: u32) -> (r: bool)
    ensures
        r == givens@.contains((a, b_vid)),
{
    let mut i: usize = 0;
    while i < givens.len()
        invariant
            i <= givens@.len(),
            forall|j: int| 0 <= j < i ==> givens@[j] != (a, b_vid),
        decreases givens@.len() - i,
    {
        if givens[i].0 == a && givens[i].1 == b_vid {
            assert(givens@[i as int] == (a, b_vid));
            return true;
        }
        i = i + 1;
    }
    false
}

/// Expands the value of variable `b_vid` by the region `a`; tells whether
/// it changed.
pub fn expand_node(
    t: &ScopeTree,
    tbl: &Vec<(Region, Region, Region)>,
    givens: &Vec<(Region, u32)>,
    a: Region,
    b_vid: u32,
    b_data: &mut VarValue,
) -> (changed: bool)
    requires
        t.wf(),
        one_tree(*t),
        region_ok(*t, a),
        *old(b_data) matches VarValue::Value(cur) ==> region_ok(*t, cur),
    ensures
        (*final(b_data), changed) == expand_spec(*t, tbl@, givens@, a, b_vid, *old(b_data)),
{
    if is_free(&a) && given(givens, a, b_vid) {
        return false;
    }
    match *b_data {
        VarValue::Value(cur) => {
            let bound = free_bound(tbl, a, cur);
            let l = lub_concrete_regions(t, a, cur, bound);
            if l == cur {
                false
            } else {
                *b_data = VarValue::Value(l);
                true
            }
        },
        VarValue::ErrorValue => false,
    }
}

/// The values after one round of expansion over the constraints, in their
/// order, and whether any value changed: a variable grows by each region
/// below it, and by the value of each variable below it.
pub open spec fn expansion_round_spec(
    t: ScopeTree,
    tbl: Seq<(Region, Region, Region)>,
    givens: Seq<(Region, u32)>,
    cs: Seq<(Constraint, u32)>,
    vals: Seq<VarValue>,
) -> (Seq<VarValue>, bool)
    decreases cs.len(),
{
    if cs.len() == 0 {
        (vals, false)
    } else {
        let (prev, changed) = expansion_round_spec(t, tbl, givens, cs.drop_last(), vals);
        match cs.last().0 {
            Constraint::RegSubVar(a, b) => {
                let (v, c) = expand_spec(t, tbl, givens, a, b, prev[b as int]);
                (prev.update(b as int, v), changed || c)
            },
            Constraint::VarSubVar(a, b) => match prev[a as int] {
                VarValue::Value(ar) => {
                    let (v, c) = expand_spec(t, tbl, givens, ar, b, prev[b as int]);
                    (prev.update(b as int, v), changed || c)
                },
                VarValue::ErrorValue => (prev, changed),
            },
            _ => (prev, changed),
        }
    }
}

proof fn lemma_expand_ok(
    t: ScopeTree,
    tbl: Seq<(Region, Region, Region)>,
    givens: Seq<(Region, u32)>,
    a: Region,
    b_vid: u32,
    b: VarValue,
)
    requires
        t.wf(),
        one_tree(t),
        table_ok(t, tbl),
        region_ok(t, a),
        b matches VarValue::Value(cur) ==> region_ok(t, cur),
    ensures
        expand_spec(t, tbl, givens, a, b_vid, b).0 matches VarValue::Value(x) ==> region_ok(t, x),
{
    if let VarValue::Value(cur) = b {
        lemma_lub_ok(t, tbl, a, cur);
    }
}

proof fn lemma_round_ok(
    t: ScopeTree,
    tbl: Seq<(Region, Region, Region)>,
    givens: Seq<(Region, u32)>,
    cs: Seq<(Constraint, u32)>,
    vals: Seq<VarValue>,
)
    requires
        t.wf(),
        one_tree(t),
        table_ok(t, tbl),
        values_ok(t, vals),
        constraints_ok(t, cs, vals.len()),
    ensures
        expansion_round_spec(t, tbl, givens, cs, vals).0.len() == vals.len(),
        values_ok(t, expansion_round_spec(t, tbl, givens, cs, vals).0),
    decreases cs.len(),
{
    if cs.len() > 0 {
        lemma_round_ok(t, tbl, givens, cs.drop_last(), vals);
        let prev = expansion_round_spec(t, tbl, givens, cs.drop_last(), vals).0;
        assert(constraint_ok(t, cs[cs.len() - 1].0, vals.len()));
        match cs.last().0 {
            Constraint::RegSubVar(a, b) => {
                assert(prev[b as int] matches VarValue::Value(cur) ==> region_ok(t, cur));
                lemma_expand_ok(t, tbl, givens, a, b, prev[b as int]);
            },
            Constraint::VarSubVar(a, b) => {
                assert(prev[a as int] matches VarValue::Value(x) ==> region_ok(t, x));
                assert(prev[b as int] matches VarValue::Value(cur) ==> region_ok(t, cur));
                if let VarValue::Value(ar) = prev[a as int] {
                    lemma_expand_ok(t, tbl, givens, ar, b, prev[b as int]);
                }
            },
            _ => {},
        }
        let r = expansion_round_spec(t, tbl, givens, cs, vals).0;
        assert forall|i: int| 0 <= i < r.len() implies match #[trigger] r[i] {
            VarValue::Value(x) => region_ok(t, x),
            VarValue::ErrorValue => true,
        } by {
            assert(prev[i] matches VarValue::Value(x) ==> region_ok(t, x));
        }
    }
}

/// One round of expansion over the constraints; tells whether any value
/// changed. Rounds are repeated until none does.
pub fn expansion_round(
    t: &ScopeTree,
    tbl: &Vec<(Region, Region, Region)>,
    givens: &Vec<(Region, u32)>,
    constraints: &Vec<(Constraint, u32)>,
    values: &mut Vec<VarValue>,
) -> (changed: bool)
    requires
        t.wf(),
        one_tree(*t),
        table_ok(*t, tbl@),
        values_ok(*t, old(values)@),
        constraints_ok(*t, constraints@, old(values)@.len()),
    ensures
        (final(values)@, changed) == expansion_round_spec(*t, tbl@, givens@, constraints@, old(values)@),
{
    let ghost vals0 = values@;
    let mut changed = false;
    let mut i: usize = 0;
    while i < constraints.len()
        invariant
            t.wf(),
            one_tree(*t),
            table_ok(*t, tbl@),
            values_ok(*t, vals0),
            constraints_ok(*t, constraints@, vals0.len()),
            i <= constraints@.len(),
            (values@, changed) == expansion_round_spec(*t, tbl@, givens@, constraints@.subrange(0, i as int), vals0),
        decreases constraints@.len() - i,
    {
        let ghost pre = constraints@.subrange(0, i as int);
        let ghost next = constraints@.subrange(0, i + 1);
        assert(next.drop_last() =~= pre);
        assert(next.last() == constraints@[i as int]);
        proof {
            lemma_round_ok(*t, tbl@, givens@, pre, vals0);
        }
        let (c, _origin) = constraints[i];
        assert(constraint_ok(*t, c, vals0.len()));
        match c {
            Constraint::RegSubVar(a, b) => {
                let mut d = values[b as usize];
                assert(d matches VarValue::Value(cur) ==> region_ok(*t, cur));
                let ch = expand_node(t, tbl, givens, a, b, &mut d);
                values.set(b as usize, d);
                changed = changed || ch;
            },
            Constraint::VarSubVar(a, b) => {
                match values[a as usize] {
                    VarValue::Value(ar) => {
                        assert(region_ok(*t, ar)) by {
                            assert(values@[a as int] == VarValue::Value(ar));
                        }
                        let mut d = values[b as usize];
                        assert(d matches VarValue::Value(cur) ==> region_ok(*t, cur));
                        let ch = expand_node(t, tbl, givens, ar, b, &mut d);
                        values.set(b as usize, d);
                        changed = changed || ch;
                    },
                    VarValue::ErrorValue => {},
                }
            },
            _ => {},
        }
        i = i + 1;
    }
    assert(constraints@.subrange(0, constraints@.len() as int) =~= constraints@);
    changed
}

} // verus!
