//! Vtables under type-parameter substitutions in code generation: a
//! vtable found for generic code names the type parameters and the
//! bounds it was found through; once the parameters are known, it is
//! resolved to a static vtable with the parameters substituted.

use vstd::prelude::*;

verus! {

/// A type as vtable resolution reads it: a type parameter by index, the
/// self type, an inference variable, or a type constructor with its
/// arguments.
#[derive(Debug)]
pub enum Ty {
    Param(usize),
    SelfTy,
    Infer(u32),
    Con(u32, Vec<Ty>),
}

/// A type as a value.
pub enum TyView {
    Param(usize),
    SelfTy,
    Infer(u32),
    Con(u32, Seq<TyView>),
}

/// The value of a type.
pub open spec fn ty_view(t: Ty) -> TyView
    decreases t, 0nat,
{
    match t {
        Ty::Param(i) => TyView::Param(i),
        Ty::SelfTy => TyView::SelfTy,
        Ty::Infer(v) => TyView::Infer(v),
        Ty::Con(c, args) => TyView::Con(c, tys_view(args@)),
    }
}

/// The values of some types.
pub open spec fn tys_view(ts: Seq<Ty>) -> Seq<TyView>
    decreases ts, 1nat,
{
    if ts.len() == 0 {
        Seq::empty()
    } else {
        tys_view(ts.subrange(0, ts.len() - 1)).push(ty_view(ts[ts.len() - 1]))
    }
}

/// The type with the parameters replaced by `tys` and the self type by
/// `self_ty`.
pub open spec fn subst(t: TyView, tys: Seq<TyView>, self_ty: Option<TyView>) -> TyView
    decreases t, 0nat,
{
    match t {
        TyView::Param(i) => if i < tys.len() {
            tys[i as int]
        } else {
            t
        },
        TyView::SelfTy => match self_ty {
            Some(s) => s,
            None => t,
        },
        TyView::Infer(_) => t,
        TyView::Con(c, args) => TyView::Con(c, subst_all(args, tys, self_ty)),
    }
}

/// Each of the types substituted.
pub open spec fn subst_all(ts: Seq<TyView>, tys: Seq<TyView>, self_ty: Option<TyView>) -> Seq<TyView>
    decreases ts, 1nat,
{
    if ts.len() == 0 {
        Seq::empty()
    } else {
        subst_all(ts.subrange(0, ts.len() - 1), tys, self_ty).push(subst(ts[ts.len() - 1], tys, self_ty))
    }
}

/// Every parameter of the type is among `n` and the self type occurs only
/// where one is given.
pub open spec fn substitutable(t: TyView, n: nat, has_self: bool) -> bool
    decreases t,
{
    match t {
        TyView::Param(i) => i < n,
        TyView::SelfTy => has_self,
        TyView::Infer(_) => true,
        TyView::Con(_, args) => forall|i: int| 0 <= i < args.len() ==> substitutable(#[trigger] args[i], n, has_self),
    }
}

/// The type holds an inference variable.
pub open spec fn needs_infer(t: TyView) -> bool
    decreases t, 0nat,
{
    match t {
        TyView::Infer(_) => true,
        TyView::Con(_, args) => any_needs_infer_spec(args),
        _ => false,
    }
}

/// One of the types holds an inference variable.
pub open spec fn any_needs_infer_spec(ts: Seq<TyView>) -> bool
    decreases ts, 1nat,
{
    if ts.len() == 0 {
        false
    } else {
        any_needs_infer_spec(ts.subrange(0, ts.len() - 1)) || needs_infer(ts[ts.len() - 1])
    }
}

pub(crate) proof fn lemma_tys_view(ts: Seq<Ty>)
    ensures
        tys_view(ts).len() == ts.len(),
        forall|i: int| 0 <= i < ts.len() ==> #[trigger] tys_view(ts)[i] == ty_view(ts[i]),
    decreases ts.len(),
{
    if ts.len() > 0 {
        let init = ts.subrange(0, ts.len() - 1);
        lemma_tys_view(init);
        assert forall|i: int| 0 <= i < ts.len() implies #[trigger] tys_view(ts)[i] == ty_view(ts[i]) by {
            if i < ts.len() - 1 {
                assert(init[i] == ts[i]);
            }
        }
    }
}

pub(crate) proof fn lemma_subst_all(ts: Seq<TyView>, tys: Seq<TyView>, self_ty: Option<TyView>)
    ensures
        subst_all(ts, tys, self_ty).len() == ts.len(),
        forall|i: int| 0 <= i < ts.len() ==> #[trigger] subst_all(ts, tys, self_ty)[i] == subst(ts[i], tys, self_ty),
    decreases ts.len(),
{
    if ts.len() > 0 {
        let init = ts.subrange(0, ts.len() - 1);
        lemma_subst_all(init, tys, self_ty);
        assert forall|i: int| 0 <= i < ts.len() implies #[trigger] subst_all(ts, tys, self_ty)[i] == subst(ts[i], tys, self_ty) by {
            if i < ts.len() - 1 {
                assert(init[i] == ts[i]);
            }
        }
    }
}

/// The view of a self type, if any.
pub open spec fn self_view(self_ty: Option<Ty>) -> Option<TyView> {
    match self_ty {
        Some(s) => Some(ty_view(s)),
        None => None,
    }
}

/// A copy of a type.
pub fn copy_ty(t: &Ty) -> (r: Ty)
    ensures
        ty_view(r) == ty_view(*t),
    decreases t, 1nat,
{
    match t {
        Ty::Param(i) => Ty::Param(*i),
        Ty::SelfTy => Ty::SelfTy,
        Ty::Infer(v) => Ty::Infer(*v),
        Ty::Con(c, args) => Ty::Con(*c, copy_tys(args)),
    }
}

/// A copy of some types.
pub(crate) fn copy_tys(ts: &Vec<Ty>) -> (r: Vec<Ty>)
    ensures
        tys_view(r@) == tys_view(ts@),
    decreases ts, 1nat,
{
    let ghost tv = tys_view(ts@);
    proof {
        lemma_tys_view(ts@);
    }
    let mut out: Vec<Ty> = Vec::new();
    let mut i: usize = 0;
    while i < ts.len()
        invariant
            i <= ts@.len(),
            tv == tys_view(ts@),
            tv.len() == ts@.len(),
            forall|j: int| 0 <= j < ts@.len() ==> #[trigger] tv[j] == ty_view(ts@[j]),
            tys_view(out@) == tv.subrange(0, i as int),
        decreases ts@.len() - i,
    {
        let x = copy_ty(&ts[i]);
        let ghost before = out@;
        out.push(x);
        proof {
            assert(out@.subrange(0, out@.len() - 1) =~= before);
            assert(tys_view(out@) =~= tv.subrange(0, i + 1));
        }
        i = i + 1;
    }
    assert(tv.subrange(0, ts@.len() as int) =~= tv);
    out
}

/// The type with the parameters replaced by `tys` and the self type by
/// `self_ty`.
pub fn subst_tps(t: &Ty, tys: &Vec<Ty>, self_ty: &Option<Ty>) -> (r: Ty)
    requires
        substitutable(ty_view(*t), tys@.len(), self_ty is Some),
    ensures
        ty_view(r) == subst(ty_view(*t), tys_view(tys@), self_view(*self_ty)),
    decreases t, 1nat,
{
    proof {
        lemma_tys_view(tys@);
    }
    match t {
        Ty::Param(i) => copy_ty(&tys[*i]),
        Ty::SelfTy => match self_ty {
            Some(s) => copy_ty(s),
            None => Ty::SelfTy,
        },
        Ty::Infer(v) => Ty::Infer(*v),
        Ty::Con(c, args) => {
            proof {
                lemma_tys_view(args@);
                assert forall|j: int| 0 <= j < args@.len() implies substitutable(
                    #[trigger] ty_view(args@[j]),
                    tys@.len(),
                    self_ty is Some,
                ) by {
                    assert(tys_view(args@)[j] == ty_view(args@[j]));
                }
            }
            Ty::Con(*c, subst_tys(args, tys, self_ty))
        },
    }
}

/// Each of the types substituted.
pub(crate) fn subst_tys(ts: &Vec<Ty>, tys: &Vec<Ty>, self_ty: &Option<Ty>) -> (r: Vec<Ty>)
    requires
        forall|j: int| 0 <= j < ts@.len() ==> substitutable(#[trigger] ty_view(ts@[j]), tys@.len(), self_ty is Some),
    ensures
        tys_view(r@) == subst_all(tys_view(ts@), tys_view(tys@), self_view(*self_ty)),
    decreases ts, 1nat,
{
    let ghost tv = tys_view(ts@);
    let ghost pv = tys_view(tys@);
    let ghost sv = self_view(*self_ty);
    proof {
        lemma_tys_view(ts@);
        lemma_subst_all(tv, pv, sv);
    }
    let mut out: Vec<Ty> = Vec::new();
    let mut i: usize = 0;
    while i < ts.len()
        invariant
            i <= ts@.len(),
            tv == tys_view(ts@),
            pv == tys_view(tys@),
            sv == self_view(*self_ty),
            tv.len() == ts@.len(),
            forall|j: int| 0 <= j < ts@.len() ==> #[trigger] tv[j] == ty_view(ts@[j]),
            forall|j: int| 0 <= j < ts@.len() ==> substitutable(#[trigger] ty_view(ts@[j]), tys@.len(), self_ty is Some),
            subst_all(tv, pv, sv).len() == tv.len(),
            forall|j: int| 0 <= j < tv.len() ==> #[trigger] subst_all(tv, pv, sv)[j] == subst(tv[j], pv, sv),
            tys_view(out@) == subst_all(tv, pv, sv).subrange(0, i as int),
        decreases ts@.len() - i,
    {
        let x = subst_tps(&ts[i], tys, self_ty);
        let ghost before = out@;
        out.push(x);
        proof {
            assert(out@.subrange(0, out@.len() - 1) =~= before);
            assert(tys_view(out@) =~= subst_all(tv, pv, sv).subrange(0, i + 1));
        }
        i = i + 1;
    }
    assert(subst_all(tv, pv, sv).subrange(0, ts@.len() as int) =~= subst_all(tv, pv, sv));
    out
}

/// Whether the type holds an inference variable.
pub fn type_needs_infer(t: &Ty) -> (r: bool)
    ensures
        r == needs_infer(ty_view(*t)),
    decreases t, 1nat,
{
    match t {
        Ty::Infer(v) => {
            assert(ty_view(*t) == TyView::Infer(*v));
            true
        },
        Ty::Con(c, args) => {
            proof {
                lemma_tys_view(args@);
            }
            let r = any_needs_infer(args);
            assert(ty_view(*t) == TyView::Con(*c, tys_view(args@)));
            r
        },
        Ty::Param(i) => {
            assert(ty_view(*t) == TyView::Param(*i));
            false
        },
        Ty::SelfTy => {
            assert(ty_view(*t) == TyView::SelfTy);
            false
        },
    }
}

/// Whether one of the types holds an inference variable.
fn any_needs_infer(ts: &Vec<Ty>) -> (r: bool)
    ensures
        r == any_needs_infer_spec(tys_view(ts@)),
    decreases ts, 1nat,
{
    proof {
        lemma_tys_view(ts@);
    }
    let ghost tv = tys_view(ts@);
    let mut i: usize = 0;
    while i < ts.len()
        invariant
            i <= ts@.len(),
            tv == tys_view(ts@),
            tv.len() == ts@.len(),
            forall|j: int| 0 <= j < ts@.len() ==> #[trigger] tv[j] == ty_view(ts@[j]),
            !any_needs_infer_spec(tv.subrange(0, i as int)),
        decreases ts@.len() - i,
    {
        let b = type_needs_infer(&ts[i]);
        proof {
            assert(tv.subrange(0, i + 1).subrange(0, i as int) =~= tv.subrange(0, i as int));
            assert(tv.subrange(0, i + 1)[i as int] == tv[i as int]);
        }
        if b {
            proof {
                lemma_any_needs_infer_prefix(tv, i as int + 1);
            }
            return true;
        }
        i = i + 1;
    }
    assert(tv.subrange(0, i as int) =~= tv);
    false
}

/// One of the types holds an inference variable exactly when some type of
/// the list does.
proof fn lemma_any_needs_infer_exists(ts: Seq<TyView>)
    ensures
        any_needs_infer_spec(ts) <==> exists|i: int| 0 <= i < ts.len() && needs_infer(#[trigger] ts[i]),
    decreases ts.len(),
{
    if ts.len() > 0 {
        let init = ts.subrange(0, ts.len() - 1);
        lemma_any_needs_infer_exists(init);
        if exists|i: int| 0 <= i < init.len() && needs_infer(#[trigger] init[i]) {
            let i = choose|i: int| 0 <= i < init.len() && needs_infer(#[trigger] init[i]);
            assert(ts[i] == init[i]);
        }
        if exists|i: int| 0 <= i < ts.len() && needs_infer(#[trigger] ts[i]) {
            let i = choose|i: int| 0 <= i < ts.len() && needs_infer(#[trigger] ts[i]);
            if i < ts.len() - 1 {
                assert(init[i] == ts[i]);
            }
        }
    }
}

/// Law: a type holds an inference variable exactly when it is one, or it
/// is a constructor one of whose arguments (at any depth) holds one; type
/// parameters and the self type hold none.
pub proof fn law_needs_infer(c: u32, args: Seq<TyView>, v: u32, p: usize)
    ensures
        needs_infer(TyView::Infer(v)),
        !needs_infer(TyView::Param(p)),
        !needs_infer(TyView::SelfTy),
        needs_infer(TyView::Con(c, args)) <==> exists|i: int| 0 <= i < args.len() && needs_infer(#[trigger] args[i]),
{
    lemma_any_needs_infer_exists(args);
}

/// Holding an inference variable in a prefix holds it in the whole.
proof fn lemma_any_needs_infer_prefix(ts: Seq<TyView>, k: int)
    requires
        0 <= k <= ts.len(),
        any_needs_infer_spec(ts.subrange(0, k)),
    ensures
        any_needs_infer_spec(ts),
    decreases ts.len() - k,
{
    if k < ts.len() {
        assert(ts.subrange(0, k + 1).subrange(0, k) =~= ts.subrange(0, k));
        lemma_any_needs_infer_prefix(ts, k + 1);
    } else {
        assert(ts.subrange(0, k) =~= ts);
    }
}


/// Where a vtable comes from: a static impl with its type arguments and
/// the vtables of its own bounds; the `bound`-th bound of the `param`-th
/// type parameter; or the self type's vtable for a trait.
#[derive(Debug)]
pub enum VtableOrigin {
    Static(u32, Vec<Ty>, Vec<Vec<VtableOrigin>>),
    Param(usize, usize),
    SelfVtable(u32),
}

/// A vtable origin as a value.
pub enum VtableView {
    Static(u32, Seq<TyView>, Seq<Seq<VtableView>>),
    Param(usize, usize),
    SelfVtable(u32),
}

/// The value of a vtable origin.
pub open spec fn vt_view(v: VtableOrigin) -> VtableView
    decreases v, 0nat,
{
    match v {
        VtableOrigin::Static(id, tys, sub) => VtableView::Static(id, tys_view(tys@), rows_view(sub@)),
        VtableOrigin::Param(n, b) => VtableView::Param(n, b),
        VtableOrigin::SelfVtable(id) => VtableView::SelfVtable(id),
    }
}

/// The values of the rows of vtable origins (one row per type parameter).
pub open spec fn rows_view(rows: Seq<Vec<VtableOrigin>>) -> Seq<Seq<VtableView>>
    decreases rows, 2nat,
{
    if rows.len() == 0 {
        Seq::empty()
    } else {
        rows_view(rows.subrange(0, rows.len() - 1)).push(row_view(rows[rows.len() - 1]@))
    }
}

/// The values of one row of vtable origins.
pub open spec fn row_view(row: Seq<VtableOrigin>) -> Seq<VtableView>
    decreases row, 1nat,
{
    if row.len() == 0 {
        Seq::empty()
    } else {
        row_view(row.subrange(0, row.len() - 1)).push(vt_view(row[row.len() - 1]))
    }
}

proof fn lemma_row_view(row: Seq<VtableOrigin>)
    ensures
        row_view(row).len() == row.len(),
        forall|i: int| 0 <= i < row.len() ==> #[trigger] row_view(row)[i] == vt_view(row[i]),
    decreases row.len(),
{
    if row.len() > 0 {
        let init = row.subrange(0, row.len() - 1);
        lemma_row_view(init);
        assert forall|i: int| 0 <= i < row.len() implies #[trigger] row_view(row)[i] == vt_view(row[i]) by {
            if i < row.len() - 1 {
                assert(init[i] == row[i]);
            }
        }
    }
}

proof fn lemma_rows_view(rows: Seq<Vec<VtableOrigin>>)
    ensures
        rows_view(rows).len() == rows.len(),
        forall|i: int| 0 <= i < rows.len() ==> #[trigger] rows_view(rows)[i] == row_view(rows[i]@),
    decreases rows.len(),
{
    if rows.len() > 0 {
        let init = rows.subrange(0, rows.len() - 1);
        lemma_rows_view(init);
        assert forall|i: int| 0 <= i < rows.len() implies #[trigger] rows_view(rows)[i] == row_view(rows[i]@) by {
            if i < rows.len() - 1 {
                assert(init[i] == rows[i]);
            }
        }
    }
}

/// The region that substitutions give to `self`: the bound region of
/// `self`, or another region by index.
#[derive(Clone, Copy, Debug, PartialEq, Eq, Structural)]
pub enum SelfRegion {
    BoundSelf,
    Other(u32),
}

/// The substitutions of an item: the region of `self`, the self type and
/// the types of the type parameters.
#[derive(Debug)]
pub struct Substs {
    pub self_r: Option<SelfRegion>,
    pub self_ty: Option<Ty>,
    pub tps: Vec<Ty>,
}

/// Substitutions of the given types for the type parameters, with the
/// bound region of `self` for `self` and no self type.
pub fn dummy_substs(tps: Vec<Ty>) -> (s: Substs)
    ensures
        s.self_r == Some(SelfRegion::BoundSelf),
        s.self_ty is None,
        s.tps@ == tps@,
{
    Substs { self_r: Some(SelfRegion::BoundSelf), self_ty: None, tps }
}

/// The substitutions of a piece of generic code: the types of its type
/// parameters, the vtables of their bounds, and its self type and the
/// self type's vtable, where it has them.
#[derive(Debug)]
pub struct ParamSubsts {
    pub tys: Vec<Ty>,
    pub vtables: Option<Vec<Vec<VtableOrigin>>>,
    pub self_ty: Option<Ty>,
    pub self_vtable: Option<VtableOrigin>,
}

/// Substitutions as values.
pub struct SubstsView {
    pub tys: Seq<TyView>,
    pub vtables: Option<Seq<Seq<VtableView>>>,
    pub self_ty: Option<TyView>,
    pub self_vtable: Option<VtableView>,
}

impl View for ParamSubsts {
    type V = SubstsView;

    open spec fn view(&self) -> SubstsView {
        SubstsView {
            tys: tys_view(self.tys@),
            vtables: match self.vtables {
                Some(v) => Some(rows_view(v@)),
                None => None,
            },
            self_ty: self_view(self.self_ty),
            self_vtable: match self.self_vtable {
                Some(v) => Some(vt_view(v)),
                None => None,
            },
        }
    }
}

impl ParamSubsts {
    /// Whether no type of the substitutions holds an inference variable,
    /// as generated code needs.
    pub fn validate(&self) -> (ok: bool)
        ensures
            ok == (!any_needs_infer_spec(tys_view(self.tys@)) && match self.self_ty {
                Some(t) => !needs_infer(ty_view(t)),
                None => true,
            }),
    {
        if any_needs_infer(&self.tys) {
            return false;
        }
        match &self.self_ty {
            Some(t) => !type_needs_infer(t),
            None => true,
        }
    }
}

/// A vtable origin can be resolved under the substitutions: each
/// parameter's vtable and the self vtable it names are there, and its
/// types can be substituted.
pub open spec fn resolvable(v: VtableView, ps: Option<SubstsView>) -> bool
    decreases v, 0nat,
{
    match v {
        VtableView::Static(_, tys, sub) => (match ps {
            Some(p) => forall|i: int|
                0 <= i < tys.len() ==> substitutable(#[trigger] tys[i], p.tys.len(), p.self_ty is Some),
            None => true,
        }) && rows_resolvable(sub, ps),
        VtableView::Param(n, b) => match ps {
            Some(p) => match p.vtables {
                Some(vts) => n < vts.len() && b < vts[n as int].len(),
                None => false,
            },
            None => false,
        },
        VtableView::SelfVtable(_) => match ps {
            Some(p) => p.self_vtable is Some,
            None => false,
        },
    }
}

/// Each origin of the rows can be resolved.
pub open spec fn rows_resolvable(rows: Seq<Seq<VtableView>>, ps: Option<SubstsView>) -> bool
    decreases rows, 2nat,
{
    if rows.len() == 0 {
        true
    } else {
        rows_resolvable(rows.subrange(0, rows.len() - 1), ps) && row_resolvable(rows[rows.len() - 1], ps)
    }
}

/// Each origin of the row can be resolved.
pub open spec fn row_resolvable(row: Seq<VtableView>, ps: Option<SubstsView>) -> bool
    decreases row, 1nat,
{
    if row.len() == 0 {
        true
    } else {
        row_resolvable(row.subrange(0, row.len() - 1), ps) && resolvable(row[row.len() - 1], ps)
    }
}

/// The vtable origin with the substitutions applied: a static vtable
/// gets its types substituted (where there are substitutions) and its
/// bounds' vtables resolved; a parameter's vtable and the self vtable
/// are looked up.
pub open spec fn resolve(v: VtableView, ps: Option<SubstsView>) -> VtableView
    decreases v, 0nat,
{
    match v {
        VtableView::Static(id, tys, sub) => VtableView::Static(
            id,
            match ps {
                Some(p) => subst_all(tys, p.tys, p.self_ty),
                None => tys,
            },
            resolve_rows(sub, ps),
        ),
        VtableView::Param(n, b) => ps->Some_0.vtables->Some_0[n as int][b as int],
        VtableView::SelfVtable(_) => ps->Some_0.self_vtable->Some_0,
    }
}

/// Each row resolved.
pub open spec fn resolve_rows(rows: Seq<Seq<VtableView>>, ps: Option<SubstsView>) -> Seq<Seq<VtableView>>
    decreases rows, 2nat,
{
    if rows.len() == 0 {
        Seq::empty()
    } else {
        resolve_rows(rows.subrange(0, rows.len() - 1), ps).push(resolve_row(rows[rows.len() - 1], ps))
    }
}

/// Each origin of the row resolved.
pub open spec fn resolve_row(row: Seq<VtableView>, ps: Option<SubstsView>) -> Seq<VtableView>
    decreases row, 1nat,
{
    if row.len() == 0 {
        Seq::empty()
    } else {
        resolve_row(row.subrange(0, row.len() - 1), ps).push(resolve(row[row.len() - 1], ps))
    }
}


proof fn lemma_rows_resolvable(rows: Seq<Seq<VtableView>>, ps: Option<SubstsView>)
    ensures
        rows_resolvable(rows, ps) <==> forall|i: int| 0 <= i < rows.len() ==> #[trigger] row_resolvable(rows[i], ps),
    decreases rows.len(),
{
    if rows.len() > 0 {
        let init = rows.subrange(0, rows.len() - 1);
        lemma_rows_resolvable(init, ps);
        assert forall|i: int| 0 <= i < init.len() implies init[i] == rows[i] by {}
        if forall|i: int| 0 <= i < rows.len() ==> #[trigger] row_resolvable(rows[i], ps) {
            assert forall|i: int| 0 <= i < init.len() implies #[trigger] row_resolvable(init[i], ps) by {
                assert(row_resolvable(rows[i], ps));
            }
            assert(row_resolvable(rows[rows.len() - 1], ps));
        }
    }
}

proof fn lemma_row_resolvable(row: Seq<VtableView>, ps: Option<SubstsView>)
    ensures
        row_resolvable(row, ps) <==> forall|i: int| 0 <= i < row.len() ==> #[trigger] resolvable(row[i], ps),
    decreases row.len(),
{
    if row.len() > 0 {
        let init = row.subrange(0, row.len() - 1);
        lemma_row_resolvable(init, ps);
        assert forall|i: int| 0 <= i < init.len() implies init[i] == row[i] by {}
        if forall|i: int| 0 <= i < row.len() ==> #[trigger] resolvable(row[i], ps) {
            assert forall|i: int| 0 <= i < init.len() implies #[trigger] resolvable(init[i], ps) by {
                assert(resolvable(row[i], ps));
            }
            assert(resolvable(row[row.len() - 1], ps));
        }
    }
}

proof fn lemma_resolve_rows(rows: Seq<Seq<VtableView>>, ps: Option<SubstsView>)
    ensures
        resolve_rows(rows, ps).len() == rows.len(),
        forall|i: int| 0 <= i < rows.len() ==> #[trigger] resolve_rows(rows, ps)[i] == resolve_row(rows[i], ps),
    decreases rows.len(),
{
    if rows.len() > 0 {
        let init = rows.subrange(0, rows.len() - 1);
        lemma_resolve_rows(init, ps);
        assert forall|i: int| 0 <= i < rows.len() implies #[trigger] resolve_rows(rows, ps)[i] == resolve_row(rows[i], ps) by {
            if i < rows.len() - 1 {
                assert(init[i] == rows[i]);
            }
        }
    }
}

proof fn lemma_resolve_row(row: Seq<VtableView>, ps: Option<SubstsView>)
    ensures
        resolve_row(row, ps).len() == row.len(),
        forall|i: int| 0 <= i < row.len() ==> #[trigger] resolve_row(row, ps)[i] == resolve(row[i], ps),
    decreases row.len(),
{
    if row.len() > 0 {
        let init = row.subrange(0, row.len() - 1);
        lemma_resolve_row(init, ps);
        assert forall|i: int| 0 <= i < row.len() implies #[trigger] resolve_row(row, ps)[i] == resolve(row[i], ps) by {
            if i < row.len() - 1 {
                assert(init[i] == row[i]);
            }
        }
    }
}

/// A copy of a vtable origin.
pub fn copy_vtable(v: &VtableOrigin) -> (r: VtableOrigin)
    ensures
        vt_view(r) == vt_view(*v),
    decreases v,
{
    match v {
        VtableOrigin::Static(id, tys, sub) => VtableOrigin::Static(*id, copy_tys(tys), copy_rows(sub)),
        VtableOrigin::Param(n, b) => VtableOrigin::Param(*n, *b),
        VtableOrigin::SelfVtable(id) => VtableOrigin::SelfVtable(*id),
    }
}

/// A copy of rows of vtable origins.
fn copy_rows(rows: &Vec<Vec<VtableOrigin>>) -> (r: Vec<Vec<VtableOrigin>>)
    ensures
        rows_view(r@) == rows_view(rows@),
    decreases rows,
{
    let ghost rv = rows_view(rows@);
    proof {
        lemma_rows_view(rows@);
    }
    let mut out: Vec<Vec<VtableOrigin>> = Vec::new();
    let mut i: usize = 0;
    while i < rows.len()
        invariant
            i <= rows@.len(),
            rv == rows_view(rows@),
            rv.len() == rows@.len(),
            forall|j: int| 0 <= j < rows@.len() ==> #[trigger] rv[j] == row_view(rows@[j]@),
            rows_view(out@) == rv.subrange(0, i as int),
        decreases rows@.len() - i,
    {
        let x = copy_row(&rows[i]);
        let ghost before = out@;
        out.push(x);
        proof {
            assert(out@.subrange(0, out@.len() - 1) =~= before);
            assert(rows_view(out@) =~= rv.subrange(0, i + 1));
        }
        i = i + 1;
    }
    assert(rv.subrange(0, rows@.len() as int) =~= rv);
    out
}

/// A copy of a row of vtable origins.
fn copy_row(row: &Vec<VtableOrigin>) -> (r: Vec<VtableOrigin>)
    ensures
        row_view(r@) == row_view(row@),
    decreases row,
{
    let ghost rv = row_view(row@);
    proof {
        lemma_row_view(row@);
    }
    let mut out: Vec<VtableOrigin> = Vec::new();
    let mut i: usize = 0;
    while i < row.len()
        invariant
            i <= row@.len(),
            rv == row_view(row@),
            rv.len() == row@.len(),
            forall|j: int| 0 <= j < row@.len() ==> #[trigger] rv[j] == vt_view(row@[j]),
            row_view(out@) == rv.subrange(0, i as int),
        decreases row@.len() - i,
    {
        let x = copy_vtable(&row[i]);
        let ghost before = out@;
        out.push(x);
        proof {
            assert(out@.subrange(0, out@.len() - 1) =~= before);
            assert(row_view(out@) =~= rv.subrange(0, i + 1));
        }
        i = i + 1;
    }
    assert(rv.subrange(0, row@.len() as int) =~= rv);
    out
}

/// Substitutions as values, where there are some.
pub open spec fn substs_view(ps: Option<ParamSubsts>) -> Option<SubstsView> {
    match ps {
        Some(p) => Some(p@),
        None => None,
    }
}

/// The vtable of the `n_bound`-th bound of the `n_param`-th type
/// parameter.
pub fn find_vtable(ps: &ParamSubsts, n_param: usize, n_bound: usize) -> (r: VtableOrigin)
    requires
        ps@.vtables matches Some(vts) && n_param < vts.len() && n_bound < vts[n_param as int].len(),
    ensures
        vt_view(r) == ps@.vtables->Some_0[n_param as int][n_bound as int],
{
    match &ps.vtables {
        Some(vts) => {
            proof {
                lemma_rows_view(vts@);
                lemma_row_view(vts@[n_param as int]@);
            }
            copy_vtable(&vts[n_param][n_bound])
        },
        None => {
            proof {
                assert(false);
            }
            VtableOrigin::Param(n_param, n_bound)
        },
    }
}

/// The vtable origin with the substitutions applied (see `resolve`).
pub fn resolve_vtable_under_param_substs(ps: &Option<ParamSubsts>, vt: &VtableOrigin) -> (r: VtableOrigin)
    requires
        resolvable(vt_view(*vt), substs_view(*ps)),
    ensures
        vt_view(r) == resolve(vt_view(*vt), substs_view(*ps)),
    decreases vt,
{
    match vt {
        VtableOrigin::Static(id, tys, sub) => {
            proof {
                lemma_tys_view(tys@);
            }
            let new_tys = match ps {
                Some(p) => {
                    proof {
                        assert forall|j: int| 0 <= j < tys@.len() implies substitutable(
                            #[trigger] ty_view(tys@[j]),
                            p.tys@.len(),
                            p.self_ty is Some,
                        ) by {
                            assert(tys_view(tys@)[j] == ty_view(tys@[j]));
                            lemma_tys_view(p.tys@);
                        }
                    }
                    subst_tys(tys, &p.tys, &p.self_ty)
                },
                None => copy_tys(tys),
            };
            let new_sub = resolve_vtables_under_param_substs(ps, sub);
            VtableOrigin::Static(*id, new_tys, new_sub)
        },
        VtableOrigin::Param(n, b) => match ps {
            Some(p) => find_vtable(p, *n, *b),
            None => {
                proof {
                    assert(false);
                }
                VtableOrigin::Param(*n, *b)
            },
        },
        VtableOrigin::SelfVtable(id) => match ps {
            Some(p) => match &p.self_vtable {
                Some(sv) => copy_vtable(sv),
                None => {
                    proof {
                        assert(false);
                    }
                    VtableOrigin::SelfVtable(*id)
                },
            },
            None => {
                proof {
                    assert(false);
                }
                VtableOrigin::SelfVtable(*id)
            },
        },
    }
}

/// Each row of vtable origins with the substitutions applied.
pub fn resolve_vtables_under_param_substs(ps: &Option<ParamSubsts>, rows: &Vec<Vec<VtableOrigin>>) -> (r: Vec<
    Vec<VtableOrigin>,
>)
    requires
        rows_resolvable(rows_view(rows@), substs_view(*ps)),
    ensures
        rows_view(r@) == resolve_rows(rows_view(rows@), substs_view(*ps)),
    decreases rows,
{
    let ghost rv = rows_view(rows@);
    let ghost sp = substs_view(*ps);
    proof {
        lemma_rows_view(rows@);
        lemma_rows_resolvable(rv, sp);
        lemma_resolve_rows(rv, sp);
    }
    let mut out: Vec<Vec<VtableOrigin>> = Vec::new();
    let mut i: usize = 0;
    while i < rows.len()
        invariant
            i <= rows@.len(),
            rv == rows_view(rows@),
            sp == substs_view(*ps),
            rv.len() == rows@.len(),
            forall|j: int| 0 <= j < rows@.len() ==> #[trigger] rv[j] == row_view(rows@[j]@),
            forall|j: int| 0 <= j < rv.len() ==> #[trigger] row_resolvable(rv[j], sp),
            resolve_rows(rv, sp).len() == rv.len(),
            forall|j: int| 0 <= j < rv.len() ==> #[trigger] resolve_rows(rv, sp)[j] == resolve_row(rv[j], sp),
            rows_view(out@) == resolve_rows(rv, sp).subrange(0, i as int),
        decreases rows@.len() - i,
    {
        assert(row_resolvable(rv[i as int], sp));
        let x = resolve_row_under_param_substs(ps, &rows[i]);
        let ghost before = out@;
        out.push(x);
        proof {
            assert(out@.subrange(0, out@.len() - 1) =~= before);
            assert(rows_view(out@) =~= resolve_rows(rv, sp).subrange(0, i + 1));
        }
        i = i + 1;
    }
    assert(resolve_rows(rv, sp).subrange(0, rows@.len() as int) =~= resolve_rows(rv, sp));
    out
}

/// Each origin of a row with the substitutions applied.
fn resolve_row_under_param_substs(ps: &Option<ParamSubsts>, row: &Vec<VtableOrigin>) -> (r: Vec<VtableOrigin>)
    requires
        row_resolvable(row_view(row@), substs_view(*ps)),
    ensures
        row_view(r@) == resolve_row(row_view(row@), substs_view(*ps)),
    decreases row,
{
    let ghost rv = row_view(row@);
    let ghost sp = substs_view(*ps);
    proof {
        lemma_row_view(row@);
        lemma_row_resolvable(rv, sp);
        lemma_resolve_row(rv, sp);
    }
    let mut out: Vec<VtableOrigin> = Vec::new();
    let mut i: usize = 0;
    while i < row.len()
        invariant
            i <= row@.len(),
            rv == row_view(row@),
            sp == substs_view(*ps),
            rv.len() == row@.len(),
            forall|j: int| 0 <= j < row@.len() ==> #[trigger] rv[j] == vt_view(row@[j]),
            forall|j: int| 0 <= j < rv.len() ==> #[trigger] resolvable(rv[j], sp),
            resolve_row(rv, sp).len() == rv.len(),
            forall|j: int| 0 <= j < rv.len() ==> #[trigger] resolve_row(rv, sp)[j] == resolve(rv[j], sp),
            row_view(out@) == resolve_row(rv, sp).subrange(0, i as int),
        decreases row@.len() - i,
    {
        assert(resolvable(rv[i as int], sp));
        let x = resolve_vtable_under_param_substs(ps, &row[i]);
        let ghost before = out@;
        out.push(x);
        proof {
            assert(out@.subrange(0, out@.len() - 1) =~= before);
            assert(row_view(out@) =~= resolve_row(rv, sp).subrange(0, i + 1));
        }
        i = i + 1;
    }
    assert(resolve_row(rv, sp).subrange(0, row@.len() as int) =~= resolve_row(rv, sp));
    out
}

} // verus!
