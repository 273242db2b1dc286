//! The coherence orphan rules: which trait impls a crate may write.
//!
//! A type is given by its kind (with the definition it names, for
//! nominal types and trait objects) and the types it contains. The type
//! context is given by the trait reference of each trait impl and the
//! definition of the box lang item.

use vstd::prelude::*;

verus! {

/// The crate number of the crate being compiled.
pub const LOCAL_CRATE: u32 = 0;

/// A definition: its crate and its node in that crate.
#[derive(Clone, Copy, Debug, PartialEq, Eq)]
pub struct DefId {
    pub krate: u32,
    pub node: u32,
}

/// A type parameter.
#[derive(Clone, Copy, Debug, PartialEq, Eq, Hash)]
pub struct ParamTy {
    pub idx: u32,
}

/// The kind of a type, with the definition that a nominal type or a trait
/// object names.
#[derive(Debug)]
pub enum TyKind {
    Bool,
    Char,
    Int,
    Uint,
    Float,
    Str,
    BareFn,
    Closure,
    Vec,
    Ptr,
    Rptr,
    Tup,
    Param(ParamTy),
    Projection,
    Enum(DefId),
    Struct(DefId),
    Uniq,
    Trait(DefId),
    UnboxedClosure,
    Infer,
    Open,
    Error,
}

/// A type: its kind and the types it contains.
#[derive(Debug)]
pub struct Ty {
    pub kind: TyKind,
    pub subtys: Vec<Ty>,
}

/// A reference to a trait: the trait and its input types (the self type
/// first).
#[derive(Debug)]
pub struct TraitRef {
    pub def_id: DefId,
    pub input_types: Vec<Ty>,
}

/// The trait reference of one trait impl.
#[derive(Debug)]
pub struct ImplTraitRef {
    pub impl_def_id: DefId,
    pub trait_ref: TraitRef,
}

/// The part of the type context that the orphan rules read.
#[derive(Debug)]
pub struct Ctxt {
    /// The trait impls and their trait references.
    pub impl_trait_refs: Vec<ImplTraitRef>,
    /// The definition of the box lang item, if there is one.
    pub owned_box: Option<DefId>,
}

/// Why an impl breaks the orphan rules.
#[derive(Clone, Copy, Debug, PartialEq, Eq)]
pub enum OrphanCheckErr {
    NoLocalInputType,
    UncoveredTypeParameter(ParamTy),
}

/// The kinds that the orphan rules are never asked about.
pub open spec fn unexpected_kind(kind: TyKind) -> bool {
    kind is UnboxedClosure || kind is Infer || kind is Open || kind is Error
}

/// No type reachable from `ty` has an unexpected kind.
pub open spec fn expected(ty: Ty) -> bool
    decreases ty, 0nat,
{
    !unexpected_kind(ty.kind) && all_expected(ty.subtys@)
}

/// No type reachable from a type of the list has an unexpected kind.
pub open spec fn all_expected(tys: Seq<Ty>) -> bool
    decreases tys, 1nat,
{
    if tys.len() == 0 {
        true
    } else {
        all_expected(tys.subrange(0, tys.len() - 1)) && expected(tys[tys.len() - 1])
    }
}

/// Whether a type's outermost constructor is defined in the local crate:
/// a local enum, struct or trait, or a box when the box lang item is
/// local.
pub open spec fn local_constructor(owned_box: Option<DefId>, ty: Ty) -> bool {
    match ty.kind {
        TyKind::Enum(d) => d.krate == LOCAL_CRATE,
        TyKind::Struct(d) => d.krate == LOCAL_CRATE,
        TyKind::Trait(d) => d.krate == LOCAL_CRATE,
        TyKind::Uniq => match owned_box {
            Some(d) => d.krate == LOCAL_CRATE,
            None => false,
        },
        _ => false,
    }
}

/// Some type reachable from `ty` (itself included) has a local
/// constructor.
pub open spec fn reaches_local(owned_box: Option<DefId>, ty: Ty) -> bool
    decreases ty, 0nat,
{
    local_constructor(owned_box, ty) || any_reaches_local(owned_box, ty.subtys@)
}

/// Some type of the list reaches a local constructor.
pub open spec fn any_reaches_local(owned_box: Option<DefId>, tys: Seq<Ty>) -> bool
    decreases tys, 1nat,
{
    if tys.len() == 0 {
        false
    } else {
        any_reaches_local(owned_box, tys.subrange(0, tys.len() - 1)) || reaches_local(
            owned_box,
            tys[tys.len() - 1],
        )
    }
}

/// The type parameters reachable from `ty`.
pub open spec fn reachable_params(ty: Ty) -> Set<ParamTy>
    decreases ty, 0nat,
{
    let own = match ty.kind {
        TyKind::Param(p) => set![p],
        _ => Set::empty(),
    };
    own.union(all_reachable_params(ty.subtys@))
}

/// The type parameters reachable from the types of a list.
pub open spec fn all_reachable_params(tys: Seq<Ty>) -> Set<ParamTy>
    decreases tys, 1nat,
{
    if tys.len() == 0 {
        Set::empty()
    } else {
        all_reachable_params(tys.subrange(0, tys.len() - 1)).union(
            reachable_params(tys[tys.len() - 1]),
        )
    }
}

/// The type parameters of `ty` covered by a local type: those reachable
/// from a type with a local constructor.
pub open spec fn covered_params(owned_box: Option<DefId>, ty: Ty) -> Set<ParamTy>
    decreases ty, 0nat,
{
    if local_constructor(owned_box, ty) {
        reachable_params(ty)
    } else {
        all_covered_params(owned_box, ty.subtys@)
    }
}

/// The type parameters covered by a local type in the types of a list.
pub open spec fn all_covered_params(owned_box: Option<DefId>, tys: Seq<Ty>) -> Set<ParamTy>
    decreases tys, 1nat,
{
    if tys.len() == 0 {
        Set::empty()
    } else {
        all_covered_params(owned_box, tys.subrange(0, tys.len() - 1)).union(
            covered_params(owned_box, tys[tys.len() - 1]),
        )
    }
}

/// The type reached from `t` by following `path`, one index into the
/// contained types per step, if the path leads anywhere.
pub open spec fn subterm_at(t: Ty, path: Seq<int>) -> Option<Ty>
    decreases path.len(),
{
    if path.len() == 0 {
        Some(t)
    } else if 0 <= path[0] < t.subtys@.len() {
        subterm_at(t.subtys@[path[0]], path.drop_first())
    } else {
        None
    }
}

proof fn lemma_covered_in_reachable(owned_box: Option<DefId>, ty: Ty)
    ensures
        covered_params(owned_box, ty).subset_of(reachable_params(ty)),
    decreases ty, 0nat,
{
    if !local_constructor(owned_box, ty) {
        lemma_all_covered_in_reachable(owned_box, ty.subtys@);
    }
}

proof fn lemma_all_covered_in_reachable(owned_box: Option<DefId>, tys: Seq<Ty>)
    ensures
        all_covered_params(owned_box, tys).subset_of(all_reachable_params(tys)),
    decreases tys, 1nat,
{
    if tys.len() > 0 {
        lemma_all_covered_in_reachable(owned_box, tys.subrange(0, tys.len() - 1));
        lemma_covered_in_reachable(owned_box, tys[tys.len() - 1]);
    }
}

proof fn lemma_member_params(owned_box: Option<DefId>, tys: Seq<Ty>, i: int)
    requires
        0 <= i < tys.len(),
    ensures
        reachable_params(tys[i]).subset_of(all_reachable_params(tys)),
        covered_params(owned_box, tys[i]).subset_of(all_covered_params(owned_box, tys)),
    decreases tys.len(),
{
    let init = tys.subrange(0, tys.len() - 1);
    if i < tys.len() - 1 {
        lemma_member_params(owned_box, init, i);
        assert(init[i] == tys[i]);
    }
}

/// Law: coverage reaches through nesting: whatever type `u` lies inside
/// `t` (at any depth, `t` itself included), if `u`'s outermost
/// constructor is local then every type parameter reachable from `u` is
/// covered in `t`.
pub proof fn law_covered_through_nesting(owned_box: Option<DefId>, t: Ty, path: Seq<int>)
    ensures
        subterm_at(t, path) matches Some(u) ==> (local_constructor(owned_box, u) ==> reachable_params(
            u,
        ).subset_of(covered_params(owned_box, t))),
    decreases path.len(),
{
    if path.len() > 0 && 0 <= path[0] < t.subtys@.len() {
        let c = t.subtys@[path[0]];
        law_covered_through_nesting(owned_box, c, path.drop_first());
        lemma_member_params(owned_box, t.subtys@, path[0]);
        lemma_covered_in_reachable(owned_box, c);
    }
}

proof fn lemma_covered_witness(owned_box: Option<DefId>, ty: Ty, p: ParamTy) -> (path: Seq<int>)
    requires
        covered_params(owned_box, ty).contains(p),
    ensures
        subterm_at(ty, path) is Some,
        local_constructor(owned_box, subterm_at(ty, path)->0),
        reachable_params(subterm_at(ty, path)->0).contains(p),
    decreases ty, 0nat,
{
    if local_constructor(owned_box, ty) {
        Seq::empty()
    } else {
        let (i, rest) = lemma_all_covered_witness(owned_box, ty.subtys@, p);
        let path = seq![i] + rest;
        assert(path.drop_first() =~= rest);
        path
    }
}

proof fn lemma_all_covered_witness(owned_box: Option<DefId>, tys: Seq<Ty>, p: ParamTy) -> (r: (int, Seq<int>))
    requires
        all_covered_params(owned_box, tys).contains(p),
    ensures
        0 <= r.0 < tys.len(),
        subterm_at(tys[r.0], r.1) is Some,
        local_constructor(owned_box, subterm_at(tys[r.0], r.1)->0),
        reachable_params(subterm_at(tys[r.0], r.1)->0).contains(p),
    decreases tys, 1nat,
{
    let init = tys.subrange(0, tys.len() - 1);
    if all_covered_params(owned_box, init).contains(p) {
        let (i, path) = lemma_all_covered_witness(owned_box, init, p);
        assert(init[i] == tys[i]);
        (i, path)
    } else {
        let path = lemma_covered_witness(owned_box, tys[tys.len() - 1], p);
        (tys.len() - 1, path)
    }
}

/// Law: a type parameter is covered in `t` only if it is reachable from a
/// type with a local constructor nested somewhere in `t` (`t` itself
/// included).
pub proof fn law_covered_only_under_local(owned_box: Option<DefId>, t: Ty, p: ParamTy)
    ensures
        covered_params(owned_box, t).contains(p) ==> exists|path: Seq<int>|
            #[trigger] subterm_at(t, path) is Some && local_constructor(owned_box, subterm_at(t, path)->0)
                && reachable_params(subterm_at(t, path)->0).contains(p),
{
    if covered_params(owned_box, t).contains(p) {
        let path = lemma_covered_witness(owned_box, t, p);
        assert(subterm_at(t, path) is Some);
    }
}

/// Law: in a list of input types, the parameters reachable from a local
/// type nested anywhere in one of them are covered.
pub proof fn law_inputs_covered(owned_box: Option<DefId>, tys: Seq<Ty>, i: int, path: Seq<int>)
    requires
        0 <= i < tys.len(),
    ensures
        subterm_at(tys[i], path) matches Some(u) ==> (local_constructor(owned_box, u) ==> reachable_params(
            u,
        ).subset_of(all_covered_params(owned_box, tys))),
{
    law_covered_through_nesting(owned_box, tys[i], path);
    lemma_member_params(owned_box, tys, i);
}

/// The trait reference of an impl: that of the first entry for it.
pub open spec fn impl_trait_ref(entries: Seq<ImplTraitRef>, impl_def_id: DefId) -> Option<TraitRef>
    decreases entries.len(),
{
    if entries.len() == 0 {
        None
    } else {
        match impl_trait_ref(entries.drop_last(), impl_def_id) {
            Some(t) => Some(t),
            None => if entries.last().impl_def_id == impl_def_id {
                Some(entries.last().trait_ref)
            } else {
                None
            },
        }
    }
}

proof fn lemma_impl_trait_ref_prefix(entries: Seq<ImplTraitRef>, impl_def_id: DefId, n: int)
    requires
        0 <= n <= entries.len(),
        impl_trait_ref(entries.take(n), impl_def_id) is Some,
    ensures
        impl_trait_ref(entries, impl_def_id) == impl_trait_ref(entries.take(n), impl_def_id),
    decreases entries.len(),
{
    if n == entries.len() {
        assert(entries.take(n) =~= entries);
    } else {
        let init = entries.drop_last();
        assert(init.take(n) =~= entries.take(n));
        lemma_impl_trait_ref_prefix(init, impl_def_id, n);
    }
}

/// The trait reference of an impl.
pub fn lookup_impl_trait_ref<'a>(tcx: &'a Ctxt, impl_def_id: DefId) -> (r: Option<&'a TraitRef>)
    ensures
        match r {
            Some(t) => impl_trait_ref(tcx.impl_trait_refs@, impl_def_id) == Some(*t),
            None => impl_trait_ref(tcx.impl_trait_refs@, impl_def_id) is None,
        },
{
    let ghost entries = tcx.impl_trait_refs@;
    let mut i: usize = 0;
    while i < tcx.impl_trait_refs.len()
        invariant
            entries == tcx.impl_trait_refs@,
            i <= entries.len(),
            impl_trait_ref(entries.take(i as int), impl_def_id) is None,
        decreases entries.len() - i,
    {
        let e = &tcx.impl_trait_refs[i];
        proof {
            assert(entries.take(i + 1).drop_last() =~= entries.take(i as int));
        }
        if e.impl_def_id.krate == impl_def_id.krate && e.impl_def_id.node == impl_def_id.node {
            proof {
                lemma_impl_trait_ref_prefix(entries, impl_def_id, i + 1);
            }
            return Some(&e.trait_ref);
        }
        i += 1;
    }
    assert(entries.take(entries.len() as int) =~= entries);
    None
}

/// Whether a type's outermost constructor is defined in the local crate.
fn ty_is_local_constructor(tcx: &Ctxt, ty: &Ty) -> (r: bool)
    requires
        !unexpected_kind(ty.kind),
    ensures
        r == local_constructor(tcx.owned_box, *ty),
{
    match &ty.kind {
        TyKind::Bool | TyKind::Char | TyKind::Int | TyKind::Uint | TyKind::Float | TyKind::Str
        | TyKind::BareFn | TyKind::Closure | TyKind::Vec | TyKind::Ptr | TyKind::Rptr
        | TyKind::Tup | TyKind::Param(_) | TyKind::Projection => false,
        TyKind::Enum(def_id) | TyKind::Struct(def_id) => def_id.krate == LOCAL_CRATE,
        TyKind::Uniq => match tcx.owned_box {
            Some(d) => d.krate == LOCAL_CRATE,
            None => false,
        },
        TyKind::Trait(def_id) => def_id.krate == LOCAL_CRATE,
        TyKind::UnboxedClosure | TyKind::Infer | TyKind::Open | TyKind::Error => {
            proof {
                assert(false);
            }
            false
        },
    }
}

/// Whether some type reachable from `ty` has a local constructor.
fn ty_reaches_local(tcx: &Ctxt, ty: &Ty) -> (r: bool)
    requires
        expected(*ty),
    ensures
        r == reaches_local(tcx.owned_box, *ty),
    decreases *ty, 1nat,
{
    if ty_is_local_constructor(tcx, ty) {
        true
    } else {
        any_reaches_local_in(tcx, &ty.subtys)
    }
}

/// Whether some type of a list reaches a local constructor.
fn any_reaches_local_in(tcx: &Ctxt, tys: &Vec<Ty>) -> (r: bool)
    requires
        all_expected(tys@),
    ensures
        r == any_reaches_local(tcx.owned_box, tys@),
    decreases *tys, 0nat,
{
    let mut i: usize = 0;
    while i < tys.len()
        invariant
            i <= tys@.len(),
            all_expected(tys@),
            !any_reaches_local(tcx.owned_box, tys@.subrange(0, i as int)),
        decreases tys@.len() - i,
    {
        proof {
            lemma_all_expected(tys@, i as int);
            let next = tys@.subrange(0, i + 1);
            assert(next.subrange(0, i as int) =~= tys@.subrange(0, i as int));
        }
        if ty_reaches_local(tcx, &tys[i]) {
            proof {
                lemma_any_reaches_local_prefix(tcx.owned_box, tys@, i + 1);
            }
            return true;
        }
        i += 1;
    }
    assert(tys@.subrange(0, tys@.len() as int) =~= tys@);
    false
}

proof fn lemma_all_expected(tys: Seq<Ty>, i: int)
    requires
        all_expected(tys),
        0 <= i < tys.len(),
    ensures
        expected(tys[i]),
    decreases tys.len(),
{
    if i < tys.len() - 1 {
        let init = tys.subrange(0, tys.len() - 1);
        lemma_all_expected(init, i);
        assert(init[i] == tys[i]);
    }
}

proof fn lemma_any_reaches_local_prefix(owned_box: Option<DefId>, tys: Seq<Ty>, n: int)
    requires
        0 <= n <= tys.len(),
        any_reaches_local(owned_box, tys.subrange(0, n)),
    ensures
        any_reaches_local(owned_box, tys),
    decreases tys.len(),
{
    if n == tys.len() {
        assert(tys.subrange(0, n) =~= tys);
    } else {
        let init = tys.subrange(0, tys.len() - 1);
        assert(init.subrange(0, n) =~= tys.subrange(0, n));
        lemma_any_reaches_local_prefix(owned_box, init, n);
    }
}

proof fn lemma_push_contains(s: Seq<ParamTy>, x: ParamTy, q: ParamTy)
    ensures
        s.push(x).contains(q) <==> s.contains(q) || q == x,
{
    if s.contains(q) {
        let j = choose|j: int| 0 <= j < s.len() && s[j] == q;
        assert(s.push(x)[j] == q);
    }
    if q == x {
        assert(s.push(x)[s.len() as int] == x);
    }
    if s.push(x).contains(q) {
        let j = choose|j: int| 0 <= j < s.len() + 1 && s.push(x)[j] == q;
        if j < s.len() {
            assert(s[j] == q);
        }
    }
}

/// Adds the type parameters reachable from `ty`.
fn type_parameters_reachable_from_ty(ty: &Ty, out: &mut Vec<ParamTy>)
    ensures
        forall|p: ParamTy|
            #[trigger] final(out)@.contains(p) <==> old(out)@.contains(p)
                || reachable_params(*ty).contains(p),
    decreases *ty, 1nat,
{
    if let TyKind::Param(p) = &ty.kind {
        out.push(*p);
    }
    let ghost mid = out@;
    assert forall|q: ParamTy|
        #[trigger] mid.contains(q) <==> old(out)@.contains(q) || (match ty.kind {
            TyKind::Param(p) => set![p],
            _ => Set::empty(),
        }).contains(q) by {
        if let TyKind::Param(p) = ty.kind {
            lemma_push_contains(old(out)@, p, q);
        }
    }
    type_parameters_reachable_from_all(&ty.subtys, out);
    assert forall|q: ParamTy|
        #[trigger] out@.contains(q) <==> old(out)@.contains(q) || reachable_params(*ty).contains(
            q,
        ) by {
        assert(out@.contains(q) <==> mid.contains(q) || all_reachable_params(ty.subtys@).contains(
            q,
        ));
    }
}

/// Adds the type parameters reachable from the types of a list.
fn type_parameters_reachable_from_all(tys: &Vec<Ty>, out: &mut Vec<ParamTy>)
    ensures
        forall|p: ParamTy|
            #[trigger] final(out)@.contains(p) <==> old(out)@.contains(p)
                || all_reachable_params(tys@).contains(p),
    decreases *tys, 0nat,
{
    let mut i: usize = 0;
    while i < tys.len()
        invariant
            i <= tys@.len(),
            forall|p: ParamTy|
                #[trigger] out@.contains(p) <==> old(out)@.contains(p)
                    || all_reachable_params(tys@.subrange(0, i as int)).contains(p),
        decreases tys@.len() - i,
    {
        proof {
            let next = tys@.subrange(0, i + 1);
            assert(next.subrange(0, i as int) =~= tys@.subrange(0, i as int));
        }
        type_parameters_reachable_from_ty(&tys[i], out);
        i += 1;
    }
    assert(tys@.subrange(0, tys@.len() as int) =~= tys@);
}

/// Adds the type parameters of `ty` covered by a local type.
fn type_parameters_covered_by_ty(tcx: &Ctxt, ty: &Ty, out: &mut Vec<ParamTy>)
    requires
        expected(*ty),
    ensures
        forall|p: ParamTy|
            #[trigger] final(out)@.contains(p) <==> old(out)@.contains(p)
                || covered_params(tcx.owned_box, *ty).contains(p),
    decreases *ty, 1nat,
{
    if ty_is_local_constructor(tcx, ty) {
        type_parameters_reachable_from_ty(ty, out);
    } else {
        type_parameters_covered_by_all(tcx, &ty.subtys, out);
    }
}

/// Adds the type parameters covered by a local type in the types of a
/// list.
fn type_parameters_covered_by_all(tcx: &Ctxt, tys: &Vec<Ty>, out: &mut Vec<ParamTy>)
    requires
        all_expected(tys@),
    ensures
        forall|p: ParamTy|
            #[trigger] final(out)@.contains(p) <==> old(out)@.contains(p)
                || all_covered_params(tcx.owned_box, tys@).contains(p),
    decreases *tys, 0nat,
{
    let mut i: usize = 0;
    while i < tys.len()
        invariant
            i <= tys@.len(),
            all_expected(tys@),
            forall|p: ParamTy|
                #[trigger] out@.contains(p) <==> old(out)@.contains(p)
                    || all_covered_params(tcx.owned_box, tys@.subrange(0, i as int)).contains(p),
        decreases tys@.len() - i,
    {
        proof {
            lemma_all_expected(tys@, i as int);
            let next = tys@.subrange(0, i + 1);
            assert(next.subrange(0, i as int) =~= tys@.subrange(0, i as int));
        }
        type_parameters_covered_by_ty(tcx, &tys[i], out);
        i += 1;
    }
    assert(tys@.subrange(0, tys@.len() as int) =~= tys@);
}

/// Whether a list of type parameters holds `p`.
fn holds_param(params: &Vec<ParamTy>, p: ParamTy) -> (r: bool)
    ensures
        r == params@.contains(p),
{
    let mut i: usize = 0;
    while i < params.len()
        invariant
            i <= params@.len(),
            forall|j: int| 0 <= j < i ==> params@[j] != p,
        decreases params@.len() - i,
    {
        if params[i].idx == p.idx {
            assert(params@[i as int] == p);
            return true;
        }
        i += 1;
    }
    false
}

/// Checks the coherence orphan rules. `impl_def_id` should be the def-id
/// of a trait impl. To pass, either the trait must be local, or else two
/// conditions must be satisfied:
///
/// 1. At least one of the input types must involve a local type.
/// 2. All type parameters must be covered by a local type.
///
/// Which uncovered parameter an error names is left open.
pub fn orphan_check(tcx: &Ctxt, impl_def_id: DefId) -> (r: Result<(), OrphanCheckErr>)
    requires
        impl_trait_ref(tcx.impl_trait_refs@, impl_def_id) is Some,
        impl_trait_ref(tcx.impl_trait_refs@, impl_def_id)->0.def_id.krate != LOCAL_CRATE
            ==> all_expected(impl_trait_ref(tcx.impl_trait_refs@, impl_def_id)->0.input_types@),
    ensures
        ({
            let trait_ref = impl_trait_ref(tcx.impl_trait_refs@, impl_def_id)->0;
            let inputs = trait_ref.input_types@;
            &&& r is Ok <==> (trait_ref.def_id.krate == LOCAL_CRATE || (any_reaches_local(
                tcx.owned_box,
                inputs,
            ) && all_reachable_params(inputs).subset_of(
                all_covered_params(tcx.owned_box, inputs),
            )))
            &&& trait_ref.def_id.krate != LOCAL_CRATE && !any_reaches_local(tcx.owned_box, inputs)
                ==> r == Err::<(), OrphanCheckErr>(OrphanCheckErr::NoLocalInputType)
            &&& trait_ref.def_id.krate != LOCAL_CRATE && any_reaches_local(tcx.owned_box, inputs)
                ==> match r {
                Ok(()) => true,
                Err(OrphanCheckErr::UncoveredTypeParameter(p)) => all_reachable_params(
                    inputs,
                ).contains(p) && !all_covered_params(tcx.owned_box, inputs).contains(p),
                Err(OrphanCheckErr::NoLocalInputType) => false,
            }
        }),
{
    let trait_ref = match lookup_impl_trait_ref(tcx, impl_def_id) {
        Some(t) => t,
        None => {
            proof {
                assert(false);
            }
            return Ok(());
        },
    };
    let ghost inputs = trait_ref.input_types@;
    // If the trait is local to the crate, ok.
    if trait_ref.def_id.krate == LOCAL_CRATE {
        return Ok(());
    }
    // Condition 1: at least one type must be local.
    if !any_reaches_local_in(tcx, &trait_ref.input_types) {
        return Err(OrphanCheckErr::NoLocalInputType);
    }
    // Condition 2: type parameters must be covered by a local type.
    let mut covered_params: Vec<ParamTy> = Vec::new();
    type_parameters_covered_by_all(tcx, &trait_ref.input_types, &mut covered_params);
    let mut all_params: Vec<ParamTy> = Vec::new();
    type_parameters_reachable_from_all(&trait_ref.input_types, &mut all_params);
    let mut i: usize = 0;
    while i < all_params.len()
        invariant
            impl_trait_ref(tcx.impl_trait_refs@, impl_def_id) == Some(*trait_ref),
            inputs == trait_ref.input_types@,
            trait_ref.def_id.krate != LOCAL_CRATE,
            any_reaches_local(tcx.owned_box, inputs),
            i <= all_params@.len(),
            forall|p: ParamTy|
                #[trigger] covered_params@.contains(p) <==> all_covered_params(
                    tcx.owned_box,
                    inputs,
                ).contains(p),
            forall|p: ParamTy|
                #[trigger] all_params@.contains(p) <==> all_reachable_params(inputs).contains(p),
            forall|j: int|
                0 <= j < i ==> all_covered_params(tcx.owned_box, inputs).contains(
                    #[trigger] all_params@[j],
                ),
        decreases all_params@.len() - i,
    {
        let param = all_params[i];
        proof {
            assert(all_params@.contains(all_params@[i as int]));
        }
        if !holds_param(&covered_params, param) {
            proof {
                assert(!all_covered_params(tcx.owned_box, inputs).contains(param));
                assert(all_reachable_params(inputs).contains(param));
                assert(!all_reachable_params(inputs).subset_of(
                    all_covered_params(tcx.owned_box, inputs),
                ));
            }
            return Err(OrphanCheckErr::UncoveredTypeParameter(param));
        }
        i += 1;
    }
    proof {
        assert forall|p: ParamTy| all_reachable_params(inputs).contains(p) implies all_covered_params(
            tcx.owned_box,
            inputs,
        ).contains(p) by {
            assert(all_params@.contains(p));
            let j = choose|j: int| 0 <= j < all_params@.len() && all_params@[j] == p;
            assert(all_covered_params(tcx.owned_box, inputs).contains(all_params@[j]));
        }
    }
    Ok(())
}

} // verus!
