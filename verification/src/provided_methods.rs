//! The default methods that an impl gets from its trait: each method the
//! trait provides gets a fresh id in the impl, its type with the trait's
//! type parameters replaced by the impl's (and the method's own moved
//! after the impl's), a record of where it comes from, and an entry in the
//! impl's list of provided methods. The check of an impl item builds on
//! it: the impl is recorded among the impls of each trait it implements,
//! or among the inherent impls of its base type.

use vstd::prelude::*;
use crate::vtables::{
    Ty, TyView, ty_view, tys_view, subst, subst_all, substitutable, copy_ty, copy_tys, subst_tps, subst_tys,
    lemma_tys_view, self_view,
};

verus! {

/// The signature of a function: its argument types and its return type.
#[derive(Debug)]
pub struct FnSig {
    pub inputs: Vec<Ty>,
    pub output: Ty,
}

/// A method of a trait (or of an impl): its definition, name, own type
/// parameters (by their definitions), signature, transformed self type,
/// and kind of self parameter.
#[derive(Debug)]
pub struct TraitMethod {
    pub def_id: u64,
    pub ident: u32,
    pub generics: Vec<u64>,
    pub fty: FnSig,
    pub transformed_self_ty: Option<Ty>,
    pub self_type: u32,
}

/// The type of an item: its type parameters (impl's first, then the
/// method's), its region parameter, and its function type.
#[derive(Debug)]
pub struct Polytype {
    pub type_param_defs: Vec<u64>,
    pub region_param: Option<u32>,
    pub ty: FnSig,
}

/// A signature as values.
pub struct SigView {
    pub inputs: Seq<TyView>,
    pub output: TyView,
}

/// A method as values.
pub struct MethodView {
    pub def_id: u64,
    pub ident: u32,
    pub generics: Seq<u64>,
    pub fty: SigView,
    pub transformed_self_ty: Option<TyView>,
    pub self_type: u32,
}

/// An item type as values.
pub struct PolyView {
    pub type_param_defs: Seq<u64>,
    pub region_param: Option<u32>,
    pub ty: SigView,
}

/// The values of a signature.
pub open spec fn sig_view(f: FnSig) -> SigView {
    SigView { inputs: tys_view(f.inputs@), output: ty_view(f.output) }
}

/// The values of a method.
pub open spec fn method_view(m: TraitMethod) -> MethodView {
    MethodView {
        def_id: m.def_id,
        ident: m.ident,
        generics: m.generics@,
        fty: sig_view(m.fty),
        transformed_self_ty: self_view(m.transformed_self_ty),
        self_type: m.self_type,
    }
}

/// The values of an item type.
pub open spec fn poly_view(p: Polytype) -> PolyView {
    PolyView { type_param_defs: p.type_param_defs@, region_param: p.region_param, ty: sig_view(p.ty) }
}

/// The signature with the substitutions applied.
pub open spec fn subst_sig(f: SigView, tys: Seq<TyView>, self_ty: Option<TyView>) -> SigView {
    SigView { inputs: subst_all(f.inputs, tys, self_ty), output: subst(f.output, tys, self_ty) }
}

/// The substitutions of a method moved into an impl: the trait's type
/// arguments for the trait's parameters, then, for each of the method's
/// own `n_method` parameters, a parameter after the impl's `n_impl`.
pub open spec fn combined(trait_tps: Seq<TyView>, n_impl: nat, n_method: nat) -> Seq<TyView> {
    trait_tps + Seq::new(n_method, |k: int| TyView::Param((n_impl + k) as usize))
}

/// The method moved into an impl with `n_impl` type parameters, under the
/// trait's substitutions, as the method with id `new_id`.
pub open spec fn moved_method(m: TraitMethod, n_impl: nat, trait_tps: Seq<TyView>, trait_self: Option<TyView>, new_id: u64) -> MethodView {
    MethodView {
        def_id: new_id,
        ident: m.ident,
        generics: m.generics@,
        fty: subst_sig(sig_view(m.fty), combined(trait_tps, n_impl, m.generics@.len()), trait_self),
        transformed_self_ty: match m.transformed_self_ty {
            Some(t) => Some(subst(ty_view(t), trait_tps, trait_self)),
            None => None,
        },
        self_type: m.self_type,
    }
}

/// Every type of the method can take the substitutions of a move into an
/// impl.
pub open spec fn movable(m: TraitMethod, n_trait: nat, has_self: bool) -> bool {
    &&& forall|i: int|
        0 <= i < m.fty.inputs@.len() ==> substitutable(
            #[trigger] ty_view(m.fty.inputs@[i]),
            n_trait + m.generics@.len(),
            has_self,
        )
    &&& substitutable(ty_view(m.fty.output), n_trait + m.generics@.len(), has_self)
    &&& match m.transformed_self_ty {
        Some(t) => substitutable(ty_view(t), n_trait, has_self),
        None => true,
    }
}

/// A method that an impl gets from its trait: the method's new id in the
/// impl, its number of type parameters, name and kind of self parameter,
/// and the trait method it comes from.
#[derive(Clone, Copy, Debug, PartialEq, Eq)]
pub struct ProvidedMethodInfo {
    pub did: u64,
    pub n_tps: usize,
    pub ident: u32,
    pub self_type: u32,
    pub trait_method_def_id: u64,
}

/// Where a synthesized method comes from: the trait method and the impl.
#[derive(Clone, Copy, Debug, PartialEq, Eq)]
pub struct ProvidedMethodSource {
    pub method_id: u64,
    pub impl_id: u64,
}

/// The tables that default methods are recorded in.
pub struct CoherenceTables {
    /// The next id to synthesize.
    pub next_id: u64,
    /// For each synthesized id, where its method comes from.
    pub provided_method_sources: Vec<(u64, ProvidedMethodSource)>,
    /// For each impl that got default methods, those methods in order.
    pub provided_methods: Vec<(u64, Vec<ProvidedMethodInfo>)>,
    /// The type of each item.
    pub tcache: Vec<(u64, Polytype)>,
    /// The method of each method id.
    pub methods: Vec<(u64, TraitMethod)>,
    /// For each trait, the impls of it, by id, in order.
    pub extension_methods: Vec<(u64, Vec<u64>)>,
    /// For each base type, its inherent impls, by id, in order.
    pub inherent_methods: Vec<(u64, Vec<u64>)>,
    /// The base type of each impl that has one.
    pub base_type_def_ids: Vec<(u64, u64)>,
    /// The impls created, in order.
    pub impls: Vec<Impl>,
}

/// The methods of the trait that it provides (whose names are among
/// `provided`), in the trait's order.
pub open spec fn provided_of(methods: Seq<TraitMethod>, provided: Seq<u32>) -> Seq<TraitMethod>
    decreases methods.len(),
{
    if methods.len() == 0 {
        Seq::empty()
    } else {
        let rest = provided_of(methods.drop_last(), provided);
        if provided.contains(methods.last().ident) {
            rest.push(methods.last())
        } else {
            rest
        }
    }
}

/// The records of the provided methods, with ids from `first` on.
pub open spec fn infos(ms: Seq<TraitMethod>, first: u64) -> Seq<ProvidedMethodInfo> {
    Seq::new(
        ms.len(),
        |i: int|
            ProvidedMethodInfo {
                did: (first + i) as u64,
                n_tps: ms[i].generics@.len() as usize,
                ident: ms[i].ident,
                self_type: ms[i].self_type,
                trait_method_def_id: ms[i].def_id,
            },
    )
}

/// The sources of the provided methods, with ids from `first` on.
pub open spec fn sources(ms: Seq<TraitMethod>, first: u64, impl_id: u64) -> Seq<(u64, ProvidedMethodSource)> {
    Seq::new(
        ms.len(),
        |i: int| ((first + i) as u64, ProvidedMethodSource { method_id: ms[i].def_id, impl_id }),
    )
}

/// The method entries of the provided methods, with ids from `first` on.
pub open spec fn method_entries(ms: Seq<TraitMethod>, first: u64, n_impl: nat, trait_tps: Seq<TyView>, trait_self: Option<TyView>) -> Seq<(u64, MethodView)> {
    Seq::new(ms.len(), |i: int| ((first + i) as u64, moved_method(ms[i], n_impl, trait_tps, trait_self, (first + i) as u64)))
}

/// The type entries of the provided methods, with ids from `first` on: the
/// impl's type parameters followed by the method's own, the impl's region
/// parameter, and the moved method's signature.
pub open spec fn type_entries(
    ms: Seq<TraitMethod>,
    first: u64,
    impl_generics: Seq<u64>,
    region_param: Option<u32>,
    trait_tps: Seq<TyView>,
    trait_self: Option<TyView>,
) -> Seq<(u64, PolyView)> {
    Seq::new(
        ms.len(),
        |i: int|
            (
                (first + i) as u64,
                PolyView {
                    type_param_defs: impl_generics + ms[i].generics@,
                    region_param,
                    ty: moved_method(ms[i], impl_generics.len(), trait_tps, trait_self, (first + i) as u64).fty,
                },
            ),
    )
}

/// The method table as values.
pub open spec fn methods_view(v: Seq<(u64, TraitMethod)>) -> Seq<(u64, MethodView)> {
    v.map_values(|e: (u64, TraitMethod)| (e.0, method_view(e.1)))
}

/// The type table as values.
pub open spec fn tcache_view(v: Seq<(u64, Polytype)>) -> Seq<(u64, PolyView)> {
    v.map_values(|e: (u64, Polytype)| (e.0, poly_view(e.1)))
}

/// The index of the entry of `impl_id`, if it has one.
pub open spec fn entry_of(pm: Seq<(u64, Seq<ProvidedMethodInfo>)>, impl_id: u64) -> Option<int>
    decreases pm.len(),
{
    if pm.len() == 0 {
        None
    } else if pm.last().0 == impl_id {
        Some(pm.len() - 1)
    } else {
        entry_of(pm.drop_last(), impl_id)
    }
}

/// The lists of provided methods as values.
pub open spec fn pm_view(pm: Seq<(u64, Vec<ProvidedMethodInfo>)>) -> Seq<(u64, Seq<ProvidedMethodInfo>)> {
    pm.map_values(|e: (u64, Vec<ProvidedMethodInfo>)| (e.0, e.1@))
}

/// The lists with `new` appended to the entry of `impl_id`, or a new
/// entry for it when it has none and `new` is not empty.
pub open spec fn appended(pm: Seq<(u64, Seq<ProvidedMethodInfo>)>, impl_id: u64, new: Seq<ProvidedMethodInfo>) -> Seq<
    (u64, Seq<ProvidedMethodInfo>),
> {
    if new.len() == 0 {
        pm
    } else {
        match entry_of(pm, impl_id) {
            Some(k) => pm.update(k, (impl_id, pm[k].1 + new)),
            None => pm.push((impl_id, new)),
        }
    }
}

proof fn lemma_entry_of(pm: Seq<(u64, Seq<ProvidedMethodInfo>)>, impl_id: u64)
    ensures
        entry_of(pm, impl_id) matches Some(k) ==> 0 <= k < pm.len() && pm[k].0 == impl_id,
    decreases pm.len(),
{
    if pm.len() > 0 && pm.last().0 != impl_id {
        lemma_entry_of(pm.drop_last(), impl_id);
    }
}

/// Whether `v` holds `x`.
fn contains_ident(v: &Vec<u32>, x: u32) -> (r: bool)
    ensures
        r == v@.contains(x),
{
    let mut i: usize = 0;
    while i < v.len()
        invariant
            i <= v@.len(),
            forall|j: int| 0 <= j < i ==> v@[j] != x,
        decreases v@.len() - i,
    {
        if v[i] == x {
            assert(v@[i as int] == x);
            return true;
        }
        i = i + 1;
    }
    false
}

/// The index of the entry of `impl_id`, if it has one.
fn find_entry(pm: &Vec<(u64, Vec<ProvidedMethodInfo>)>, impl_id: u64) -> (r: Option<usize>)
    ensures
        match r {
            Some(k) => entry_of(pm_view(pm@), impl_id) == Some(k as int),
            None => entry_of(pm_view(pm@), impl_id) is None,
        },
{
    let ghost v = pm_view(pm@);
    let mut i: usize = pm.len();
    assert(v.subrange(0, i as int) =~= v);
    while i > 0
        invariant
            i <= pm@.len(),
            v == pm_view(pm@),
            entry_of(v, impl_id) == entry_of(v.subrange(0, i as int), impl_id),
        decreases i,
    {
        let ghost pre = v.subrange(0, i as int);
        assert(pre.drop_last() =~= v.subrange(0, i - 1));
        assert(pre.last() == v[i - 1]);
        if pm[i - 1].0 == impl_id {
            return Some(i - 1);
        }
        i = i - 1;
    }
    assert(v.subrange(0, 0).len() == 0);
    None
}

/// A copy of a signature.
fn copy_sig(f: &FnSig) -> (r: FnSig)
    ensures
        sig_view(r) == sig_view(*f),
{
    FnSig { inputs: copy_tys(&f.inputs), output: copy_ty(&f.output) }
}

/// The impl's type parameters followed by the method's own.
fn concat_defs(a: &Vec<u64>, b: &Vec<u64>) -> (r: Vec<u64>)
    ensures
        r@ == a@ + b@,
{
    let mut r: Vec<u64> = Vec::new();
    let mut i: usize = 0;
    while i < a.len()
        invariant
            i <= a@.len(),
            r@ == a@.subrange(0, i as int),
        decreases a@.len() - i,
    {
        r.push(a[i]);
        i = i + 1;
        assert(r@ =~= a@.subrange(0, i as int));
    }
    let mut j: usize = 0;
    while j < b.len()
        invariant
            j <= b@.len(),
            i == a@.len(),
            r@ == a@.subrange(0, i as int) + b@.subrange(0, j as int),
        decreases b@.len() - j,
    {
        r.push(b[j]);
        j = j + 1;
        assert(r@ =~= a@.subrange(0, i as int) + b@.subrange(0, j as int));
    }
    assert(a@.subrange(0, i as int) + b@.subrange(0, j as int) =~= a@ + b@);
    r
}

/// The method of a trait moved into an impl with `n_impl` type parameters,
/// as the method `new_id`: the trait's type parameters are replaced by the
/// trait's type arguments `trait_tps` (and the self type by `trait_self`)
/// in its signature and its transformed self type, and the method's own
/// type parameters come after the impl's.
pub fn subst_receiver_types_in_method_ty(
    n_impl: usize,
    trait_tps: &Vec<Ty>,
    trait_self: &Option<Ty>,
    new_id: u64,
    m: &TraitMethod,
) -> (r: TraitMethod)
    requires
        n_impl + m.generics@.len() <= usize::MAX,
        movable(*m, trait_tps@.len(), trait_self is Some),
    ensures
        method_view(r) == moved_method(*m, n_impl as nat, tys_view(trait_tps@), self_view(*trait_self), new_id),
{
    let ghost tv = tys_view(trait_tps@);
    let ghost nm = m.generics@.len();
    let mut combined_tps = copy_tys(trait_tps);
    let mut k: usize = 0;
    proof {
        lemma_tys_view(trait_tps@);
    }
    while k < m.generics.len()
        invariant
            k <= nm,
            nm == m.generics@.len(),
            n_impl + nm <= usize::MAX,
            tv == tys_view(trait_tps@),
            tys_view(combined_tps@) == combined(tv, n_impl as nat, k as nat),
        decreases nm - k,
    {
        let ghost before = combined_tps@;
        combined_tps.push(Ty::Param(n_impl + k));
        proof {
            assert(combined_tps@.subrange(0, combined_tps@.len() - 1) =~= before);
            let last = combined_tps@[combined_tps@.len() - 1];
            assert(last == Ty::Param((n_impl + k) as usize));
            assert(ty_view(last) == TyView::Param((n_impl + k) as usize));
            assert(tys_view(combined_tps@) == tys_view(combined_tps@.subrange(0, combined_tps@.len() - 1)).push(
                ty_view(last),
            ));
            assert(tys_view(combined_tps@) == tys_view(before).push(TyView::Param((n_impl + k) as usize)));
            let c1 = combined(tv, n_impl as nat, (k + 1) as nat);
            let c0 = combined(tv, n_impl as nat, k as nat);
            assert forall|j: int| 0 <= j < c1.len() implies #[trigger] c1[j] == c0.push(TyView::Param((n_impl + k) as usize))[j] by {
                if j < tv.len() {
                } else if j < c0.len() {
                } else {
                }
            }
            assert(c1 =~= c0.push(TyView::Param((n_impl + k) as usize)));
        }
        k = k + 1;
    }
    proof {
        lemma_tys_view(combined_tps@);
        assert(tys_view(combined_tps@).len() == tv.len() + nm);
        lemma_tys_view(m.fty.inputs@);
        assert forall|j: int| 0 <= j < m.fty.inputs@.len() implies substitutable(
            #[trigger] ty_view(m.fty.inputs@[j]),
            combined_tps@.len(),
            trait_self is Some,
        ) by {
            assert(substitutable(ty_view(m.fty.inputs@[j]), trait_tps@.len() + nm, trait_self is Some));
        }
    }
    let inputs = subst_tys(&m.fty.inputs, &combined_tps, trait_self);
    let output = subst_tps(&m.fty.output, &combined_tps, trait_self);
    let transformed_self_ty = match &m.transformed_self_ty {
        Some(t) => Some(subst_tps(t, trait_tps, trait_self)),
        None => None,
    };
    let generics = concat_defs(&Vec::new(), &m.generics);
    let r = TraitMethod {
        def_id: new_id,
        ident: m.ident,
        generics,
        fty: FnSig { inputs, output },
        transformed_self_ty,
        self_type: m.self_type,
    };
    assert(Seq::<u64>::empty() + m.generics@ =~= m.generics@);
    assert(method_view(r) == moved_method(*m, n_impl as nat, tv, self_view(*trait_self), new_id));
    r
}

impl CoherenceTables {
    /// Gives the impl `impl_id` (with type parameters `impl_generics` and
    /// region parameter `region_param`) the methods that its trait provides:
    /// the trait's `methods` whose names are among `provided`, in order, the
    /// trait being applied to `trait_tps` and `trait_self`. Each gets a fresh
    /// id (counting on from `next_id`); its type, with the impl's type
    /// parameters followed by its own, in `tcache`; the moved method in
    /// `methods`; a record of its source; and a place at the end of the
    /// impl's list of provided methods (a new list when the impl has none
    /// yet).
    pub fn instantiate_default_methods(
        &mut self,
        impl_id: u64,
        impl_generics: &Vec<u64>,
        region_param: Option<u32>,
        trait_tps: &Vec<Ty>,
        trait_self: &Option<Ty>,
        methods: &Vec<TraitMethod>,
        provided: &Vec<u32>,
    )
        requires
            old(self).next_id + methods@.len() <= u64::MAX,
            forall|i: int|
                0 <= i < methods@.len() ==> impl_generics@.len() + (#[trigger] methods@[i]).generics@.len() <= usize::MAX
                    && movable(methods@[i], trait_tps@.len(), trait_self is Some),
        ensures
            ({
                let ms = provided_of(methods@, provided@);
                let tv = tys_view(trait_tps@);
                let sv = self_view(*trait_self);
                &&& final(self).next_id == old(self).next_id + ms.len()
                &&& final(self).provided_method_sources@ == old(self).provided_method_sources@ + sources(
                    ms,
                    old(self).next_id,
                    impl_id,
                )
                &&& pm_view(final(self).provided_methods@) == appended(
                    pm_view(old(self).provided_methods@),
                    impl_id,
                    infos(ms, old(self).next_id),
                )
                &&& tcache_view(final(self).tcache@) == tcache_view(old(self).tcache@) + type_entries(
                    ms,
                    old(self).next_id,
                    impl_generics@,
                    region_param,
                    tv,
                    sv,
                )
                &&& methods_view(final(self).methods@) == methods_view(old(self).methods@) + method_entries(
                    ms,
                    old(self).next_id,
                    impl_generics@.len(),
                    tv,
                    sv,
                )
            }),
            final(self).extension_methods == old(self).extension_methods,
            final(self).inherent_methods == old(self).inherent_methods,
            final(self).base_type_def_ids == old(self).base_type_def_ids,
            final(self).impls == old(self).impls,
    {
        let ghost first = self.next_id;
        let ghost all = provided_of(methods@, provided@);
        let mut new_infos: Vec<ProvidedMethodInfo> = Vec::new();
        let mut i: usize = 0;
        proof {
            lemma_provided_len(methods@, provided@);
        }
        while i < methods.len()
            invariant
                i <= methods@.len(),
                first == old(self).next_id,
                first + methods@.len() <= u64::MAX,
                all == provided_of(methods@, provided@),
                provided_of(methods@.subrange(0, i as int), provided@).len() <= i,
                self.next_id == first + provided_of(methods@.subrange(0, i as int), provided@).len(),
                self.provided_methods@ == old(self).provided_methods@,
                self.extension_methods == old(self).extension_methods,
                self.inherent_methods == old(self).inherent_methods,
                self.base_type_def_ids == old(self).base_type_def_ids,
                self.impls == old(self).impls,
                self.provided_method_sources@ == old(self).provided_method_sources@ + sources(
                    provided_of(methods@.subrange(0, i as int), provided@),
                    first,
                    impl_id,
                ),
                new_infos@ == infos(provided_of(methods@.subrange(0, i as int), provided@), first),
                tcache_view(self.tcache@) == tcache_view(old(self).tcache@) + type_entries(
                    provided_of(methods@.subrange(0, i as int), provided@),
                    first,
                    impl_generics@,
                    region_param,
                    tys_view(trait_tps@),
                    self_view(*trait_self),
                ),
                methods_view(self.methods@) == methods_view(old(self).methods@) + method_entries(
                    provided_of(methods@.subrange(0, i as int), provided@),
                    first,
                    impl_generics@.len(),
                    tys_view(trait_tps@),
                    self_view(*trait_self),
                ),
                forall|j: int|
                    0 <= j < methods@.len() ==> impl_generics@.len() + (#[trigger] methods@[j]).generics@.len() <= usize::MAX
                        && movable(methods@[j], trait_tps@.len(), trait_self is Some),
            decreases methods@.len() - i,
        {
            let m = &methods[i];
            let ghost pre = provided_of(methods@.subrange(0, i as int), provided@);
            proof {
                assert(methods@.subrange(0, i + 1).drop_last() =~= methods@.subrange(0, i as int));
                assert(methods@.subrange(0, i + 1).last() == *m);
            }
            if contains_ident(provided, m.ident) {
                let new_id = self.next_id;
                let moved = subst_receiver_types_in_method_ty(impl_generics.len(), trait_tps, trait_self, new_id, m);
                let poly = Polytype {
                    type_param_defs: concat_defs(impl_generics, &m.generics),
                    region_param,
                    ty: copy_sig(&moved.fty),
                };
                let ghost t0 = self.tcache@;
                let ghost m0 = self.methods@;
                self.tcache.push((new_id, poly));
                self.methods.push((new_id, moved));
                self.next_id = self.next_id + 1;
                self.provided_method_sources.push(
                    (new_id, ProvidedMethodSource { method_id: m.def_id, impl_id }),
                );
                new_infos.push(
                    ProvidedMethodInfo {
                        did: new_id,
                        n_tps: m.generics.len(),
                        ident: m.ident,
                        self_type: m.self_type,
                        trait_method_def_id: m.def_id,
                    },
                );
                proof {
                    let now = pre.push(*m);
                    let tv = tys_view(trait_tps@);
                    let sv = self_view(*trait_self);
                    assert(tcache_view(self.tcache@) =~= tcache_view(t0).push((new_id, poly_view(self.tcache@.last().1))));
                    assert(type_entries(now, first, impl_generics@, region_param, tv, sv) =~= type_entries(
                        pre, first, impl_generics@, region_param, tv, sv,
                    ).push((new_id, poly_view(self.tcache@.last().1))));
                    assert(methods_view(self.methods@) =~= methods_view(m0).push((new_id, method_view(self.methods@.last().1))));
                    assert(method_entries(now, first, impl_generics@.len(), tv, sv) =~= method_entries(
                        pre, first, impl_generics@.len(), tv, sv,
                    ).push((new_id, method_view(self.methods@.last().1))));
                    assert(provided_of(methods@.subrange(0, i + 1), provided@) == now);
                    assert(sources(now, first, impl_id) =~= sources(pre, first, impl_id).push(
                        (new_id, ProvidedMethodSource { method_id: m.def_id, impl_id }),
                    ));
                    assert(infos(now, first) =~= infos(pre, first).push(
                        ProvidedMethodInfo {
                            did: new_id,
                            n_tps: m.generics@.len() as usize,
                            ident: m.ident,
                            self_type: m.self_type,
                            trait_method_def_id: m.def_id,
                        },
                    ));
                }
            } else {
                assert(provided_of(methods@.subrange(0, i + 1), provided@) == pre);
            }
            i = i + 1;
        }
        proof {
            assert(methods@.subrange(0, methods@.len() as int) =~= methods@);
        }
        if new_infos.len() == 0 {
            assert(infos(all, first).len() == 0);
            return;
        }
        let ghost pv = pm_view(self.provided_methods@);
        match find_entry(&self.provided_methods, impl_id) {
            Some(k) => {
                proof {
                    lemma_entry_of(pv, impl_id);
                }
                let (id, mut list) = self.provided_methods.remove(k);
                let ghost l0 = list@;
                let ghost rest = self.provided_methods@;
                let mut j: usize = 0;
                while j < new_infos.len()
                    invariant
                        j <= new_infos@.len(),
                        list@ == l0 + new_infos@.subrange(0, j as int),
                    decreases new_infos@.len() - j,
                {
                    list.push(new_infos[j]);
                    j = j + 1;
                    assert(list@ =~= l0 + new_infos@.subrange(0, j as int));
                }
                assert(new_infos@.subrange(0, new_infos@.len() as int) =~= new_infos@);
                self.provided_methods.insert(k, (id, list));
                proof {
                    assert(pm_view(self.provided_methods@) =~= pv.update(k as int, (impl_id, pv[k as int].1 + new_infos@)));
                }
            },
            None => {
                self.provided_methods.push((impl_id, new_infos));
                proof {
                    assert(pm_view(self.provided_methods@) =~= pv.push((impl_id, infos(all, first))));
                }
            },
        }
    }
}

proof fn lemma_provided_len(methods: Seq<TraitMethod>, provided: Seq<u32>)
    ensures
        forall|i: int| 0 <= i <= methods.len() ==> #[trigger] provided_of(methods.subrange(0, i), provided).len() <= i,
{
    assert forall|i: int| 0 <= i <= methods.len() implies #[trigger] provided_of(methods.subrange(0, i), provided).len() <= i by {
        lemma_provided_prefix_len(methods.subrange(0, i), provided);
    }
}

proof fn lemma_provided_prefix_len(methods: Seq<TraitMethod>, provided: Seq<u32>)
    ensures
        provided_of(methods, provided).len() <= methods.len(),
    decreases methods.len(),
{
    if methods.len() > 0 {
        lemma_provided_prefix_len(methods.drop_last(), provided);
    }
}

/// An impl as the coherence checker records it: its id, its name and the
/// ids of its methods.
#[derive(Debug)]
pub struct Impl {
    pub did: u64,
    pub ident: u32,
    pub methods: Vec<u64>,
}

/// An impl as values.
pub struct ImplView {
    pub did: u64,
    pub ident: u32,
    pub methods: Seq<u64>,
}

pub open spec fn impl_view(i: Impl) -> ImplView {
    ImplView { did: i.did, ident: i.ident, methods: i.methods@ }
}

pub open spec fn impls_view(v: Seq<Impl>) -> Seq<ImplView> {
    v.map_values(|i: Impl| impl_view(i))
}

/// A trait that an impl implements: its id, its methods in the trait's
/// order, the names of those it provides, and its type arguments and self
/// type in the impl.
#[derive(Debug)]
pub struct ImplTrait {
    pub def_id: u64,
    pub methods: Vec<TraitMethod>,
    pub provided: Vec<u32>,
    pub tps: Vec<Ty>,
    pub self_ty: Option<Ty>,
}

/// An impl item: its id and name, its own methods (id and name), its type
/// parameters and region parameter, the base type of its self type (where
/// it has one), and the traits it implements.
#[derive(Debug)]
pub struct ImplItem {
    pub id: u64,
    pub ident: u32,
    pub methods: Vec<(u64, u32)>,
    pub generics: Vec<u64>,
    pub region_param: Option<u32>,
    pub base_type: Option<u64>,
    pub traits: Vec<ImplTrait>,
}

/// An error that the check of an impl reports.
#[derive(Clone, Copy, Debug, PartialEq, Eq, Structural)]
pub enum CoherenceError {
    /// The impl (by id) implements no trait and its self type has no base
    /// type.
    NoBaseType(u64),
    /// The trait (by id) has a method of this name that the impl neither
    /// defines nor gets from the trait.
    MissingMethod(u64, u32),
}

/// The provided methods of a trait.
pub open spec fn provided_methods_of(tr: ImplTrait) -> Seq<TraitMethod> {
    provided_of(tr.methods@, tr.provided@)
}

/// How many ids the default methods of the traits take.
pub open spec fn ids_used(trs: Seq<ImplTrait>) -> nat
    decreases trs.len(),
{
    if trs.len() == 0 {
        0
    } else {
        ids_used(trs.drop_last()) + provided_methods_of(trs.last()).len()
    }
}

/// How many methods the traits have in all.
pub open spec fn methods_total(trs: Seq<ImplTrait>) -> nat
    decreases trs.len(),
{
    if trs.len() == 0 {
        0
    } else {
        methods_total(trs.drop_last()) + trs.last().methods@.len()
    }
}

proof fn lemma_ids_within_total(trs: Seq<ImplTrait>)
    ensures
        ids_used(trs) <= methods_total(trs),
    decreases trs.len(),
{
    if trs.len() > 0 {
        lemma_ids_within_total(trs.drop_last());
        lemma_provided_prefix_len(trs.last().methods@, trs.last().provided@);
    }
}

proof fn lemma_total_prefix(trs: Seq<ImplTrait>, k: int)
    requires
        0 <= k <= trs.len(),
    ensures
        methods_total(trs.subrange(0, k)) <= methods_total(trs),
    decreases trs.len() - k,
{
    if k < trs.len() {
        lemma_total_prefix(trs, k + 1);
        assert(trs.subrange(0, k + 1).drop_last() =~= trs.subrange(0, k));
    } else {
        assert(trs.subrange(0, k) =~= trs);
    }
}

/// The sources after the default methods of each trait are recorded.
pub open spec fn sources_after(s: Seq<(u64, ProvidedMethodSource)>, first: u64, impl_id: u64, trs: Seq<ImplTrait>) -> Seq<
    (u64, ProvidedMethodSource),
>
    decreases trs.len(),
{
    if trs.len() == 0 {
        s
    } else {
        sources_after(s, first, impl_id, trs.drop_last()) + sources(
            provided_methods_of(trs.last()),
            (first + ids_used(trs.drop_last())) as u64,
            impl_id,
        )
    }
}

/// The lists of provided methods after those of each trait are appended.
pub open spec fn pm_after(pm: Seq<(u64, Seq<ProvidedMethodInfo>)>, first: u64, impl_id: u64, trs: Seq<ImplTrait>) -> Seq<
    (u64, Seq<ProvidedMethodInfo>),
>
    decreases trs.len(),
{
    if trs.len() == 0 {
        pm
    } else {
        appended(
            pm_after(pm, first, impl_id, trs.drop_last()),
            impl_id,
            infos(provided_methods_of(trs.last()), (first + ids_used(trs.drop_last())) as u64),
        )
    }
}

/// The type table after the default methods of each trait are recorded.
pub open spec fn tcache_after(
    tc: Seq<(u64, PolyView)>,
    first: u64,
    generics: Seq<u64>,
    region_param: Option<u32>,
    trs: Seq<ImplTrait>,
) -> Seq<(u64, PolyView)>
    decreases trs.len(),
{
    if trs.len() == 0 {
        tc
    } else {
        tcache_after(tc, first, generics, region_param, trs.drop_last()) + type_entries(
            provided_methods_of(trs.last()),
            (first + ids_used(trs.drop_last())) as u64,
            generics,
            region_param,
            tys_view(trs.last().tps@),
            self_view(trs.last().self_ty),
        )
    }
}

/// The method table after the default methods of each trait are recorded.
pub open spec fn methods_after(ms: Seq<(u64, MethodView)>, first: u64, n_impl: nat, trs: Seq<ImplTrait>) -> Seq<
    (u64, MethodView),
>
    decreases trs.len(),
{
    if trs.len() == 0 {
        ms
    } else {
        methods_after(ms, first, n_impl, trs.drop_last()) + method_entries(
            provided_methods_of(trs.last()),
            (first + ids_used(trs.drop_last())) as u64,
            n_impl,
            tys_view(trs.last().tps@),
            self_view(trs.last().self_ty),
        )
    }
}

/// The index of the list of `key`, if it has one.
pub open spec fn list_entry(lists: Seq<(u64, Seq<u64>)>, key: u64) -> Option<int>
    decreases lists.len(),
{
    if lists.len() == 0 {
        None
    } else if lists.last().0 == key {
        Some(lists.len() - 1)
    } else {
        list_entry(lists.drop_last(), key)
    }
}

/// The lists with `x` added to the list of `key` (a new list when it has
/// none).
pub open spec fn add_to(lists: Seq<(u64, Seq<u64>)>, key: u64, x: u64) -> Seq<(u64, Seq<u64>)> {
    match list_entry(lists, key) {
        Some(k) => lists.update(k, (key, lists[k].1.push(x))),
        None => lists.push((key, seq![x])),
    }
}

pub open spec fn lists_view(v: Seq<(u64, Vec<u64>)>) -> Seq<(u64, Seq<u64>)> {
    v.map_values(|e: (u64, Vec<u64>)| (e.0, e.1@))
}

/// The lists of the traits after the impl is added to each, in order.
pub open spec fn ext_after(lists: Seq<(u64, Seq<u64>)>, impl_id: u64, trs: Seq<ImplTrait>) -> Seq<(u64, Seq<u64>)>
    decreases trs.len(),
{
    if trs.len() == 0 {
        lists
    } else {
        add_to(ext_after(lists, impl_id, trs.drop_last()), trs.last().def_id, impl_id)
    }
}

/// The index of the pair of `key`, if it has one.
pub open spec fn pair_entry(v: Seq<(u64, u64)>, key: u64) -> Option<int>
    decreases v.len(),
{
    if v.len() == 0 {
        None
    } else if v.last().0 == key {
        Some(v.len() - 1)
    } else {
        pair_entry(v.drop_last(), key)
    }
}

/// The pairs with `key` mapped to `value`.
pub open spec fn set_pair(v: Seq<(u64, u64)>, key: u64, value: u64) -> Seq<(u64, u64)> {
    match pair_entry(v, key) {
        Some(k) => v.update(k, (key, value)),
        None => v.push((key, value)),
    }
}

/// The ids of the provided methods listed for `impl_id`.
pub open spec fn provided_ids(pm: Seq<(u64, Seq<ProvidedMethodInfo>)>, impl_id: u64) -> Seq<u64> {
    match entry_of(pm, impl_id) {
        Some(k) => pm[k].1.map_values(|i: ProvidedMethodInfo| i.did),
        None => Seq::empty(),
    }
}

/// `s` repeated `n` times.
pub open spec fn repeated(s: Seq<u64>, n: nat) -> Seq<u64>
    decreases n,
{
    if n == 0 {
        Seq::empty()
    } else {
        repeated(s, (n - 1) as nat) + s
    }
}

/// The methods of `tr` that are missing from the impl: neither among the
/// impl's own names nor provided by the trait, in the trait's order.
pub open spec fn missing_of(methods: Seq<TraitMethod>, tr: ImplTrait, own: Seq<u32>) -> Seq<CoherenceError>
    decreases methods.len(),
{
    if methods.len() == 0 {
        Seq::empty()
    } else {
        let prev = missing_of(methods.drop_last(), tr, own);
        let m = methods.last();
        if own.contains(m.ident) || tr.provided@.contains(m.ident) {
            prev
        } else {
            prev.push(CoherenceError::MissingMethod(tr.def_id, m.ident))
        }
    }
}

/// The missing methods of each trait, trait by trait.
pub open spec fn missing_all(trs: Seq<ImplTrait>, own: Seq<u32>) -> Seq<CoherenceError>
    decreases trs.len(),
{
    if trs.len() == 0 {
        Seq::empty()
    } else {
        missing_all(trs.drop_last(), own) + missing_of(trs.last().methods@, trs.last(), own)
    }
}

pub open spec fn own_ids(ms: Seq<(u64, u32)>) -> Seq<u64> {
    ms.map_values(|m: (u64, u32)| m.0)
}

pub open spec fn own_names(ms: Seq<(u64, u32)>) -> Seq<u32> {
    ms.map_values(|m: (u64, u32)| m.1)
}

/// The methods of a trait can move into the impl, and their ids fit.
pub open spec fn traits_movable(item: ImplItem) -> bool {
    forall|t: int, j: int|
        0 <= t < item.traits@.len() && 0 <= j < item.traits@[t].methods@.len() ==> item.generics@.len()
            + (#[trigger] item.traits@[t].methods@[j]).generics@.len() <= usize::MAX && movable(
            item.traits@[t].methods@[j],
            item.traits@[t].tps@.len(),
            item.traits@[t].self_ty is Some,
        )
}

/// Adds `x` to the list of `key`.
fn add_to_list(lists: &mut Vec<(u64, Vec<u64>)>, key: u64, x: u64)
    ensures
        lists_view(final(lists)@) == add_to(lists_view(old(lists)@), key, x),
{
    let ghost v = lists_view(lists@);
    let mut i: usize = lists.len();
    assert(v.subrange(0, i as int) =~= v);
    while i > 0
        invariant
            i <= lists@.len(),
            v == lists_view(lists@),
            v == lists_view(old(lists)@),
            list_entry(v, key) == list_entry(v.subrange(0, i as int), key),
        decreases i,
    {
        let ghost pre = v.subrange(0, i as int);
        assert(pre.drop_last() =~= v.subrange(0, i - 1));
        assert(pre.last() == v[i - 1]);
        if lists[i - 1].0 == key {
            assert(v[i - 1].0 == key);
            assert(list_entry(pre, key) == Some(i - 1));
            let (k, mut l) = lists.remove(i - 1);
            l.push(x);
            lists.insert(i - 1, (k, l));
            assert(lists_view(lists@) =~= v.update(i - 1, (key, v[i - 1].1.push(x))));
            return;
        }
        assert(v[i - 1].0 != key);
        i = i - 1;
    }
    let mut l: Vec<u64> = Vec::new();
    l.push(x);
    lists.push((key, l));
    assert(lists_view(lists@) =~= v.push((key, seq![x])));
}

/// Maps `key` to `value`.
fn set_base(v: &mut Vec<(u64, u64)>, key: u64, value: u64)
    ensures
        final(v)@ == set_pair(old(v)@, key, value),
{
    let ghost s = v@;
    let mut i: usize = v.len();
    assert(s.subrange(0, i as int) =~= s);
    while i > 0
        invariant
            i <= v@.len(),
            s == v@,
            s == old(v)@,
            pair_entry(s, key) == pair_entry(s.subrange(0, i as int), key),
        decreases i,
    {
        let ghost pre = s.subrange(0, i as int);
        assert(pre.drop_last() =~= s.subrange(0, i - 1));
        assert(pre.last() == s[i - 1]);
        if v[i - 1].0 == key {
            assert(pair_entry(pre, key) == Some(i - 1));
            v.set(i - 1, (key, value));
            return;
        }
        i = i - 1;
    }
    v.push((key, value));
}

/// The missing methods of one trait, appended to `errors`.
fn check_trait_methods(tr: &ImplTrait, own: &Vec<u32>, errors: &mut Vec<CoherenceError>)
    ensures
        final(errors)@ == old(errors)@ + missing_of(tr.methods@, *tr, own@),
{
    let ghost e0 = errors@;
    let mut j: usize = 0;
    while j < tr.methods.len()
        invariant
            j <= tr.methods@.len(),
            errors@ == e0 + missing_of(tr.methods@.subrange(0, j as int), *tr, own@),
        decreases tr.methods@.len() - j,
    {
        let ghost next = tr.methods@.subrange(0, j + 1);
        assert(next.drop_last() =~= tr.methods@.subrange(0, j as int));
        assert(next.last() == tr.methods@[j as int]);
        let ident = tr.methods[j].ident;
        if !contains_ident(own, ident) && !contains_ident(&tr.provided, ident) {
            errors.push(CoherenceError::MissingMethod(tr.def_id, ident));
        }
        assert(errors@ =~= e0 + missing_of(next, *tr, own@));
        j = j + 1;
    }
    assert(tr.methods@.subrange(0, tr.methods@.len() as int) =~= tr.methods@);
}

impl CoherenceTables {
    /// The impl of `item`: its own methods, then, once for each trait it
    /// implements, the provided methods listed for it.
    fn create_impl(&self, item: &ImplItem) -> (r: Impl)
        ensures
            impl_view(r) == (ImplView {
                did: item.id,
                ident: item.ident,
                methods: own_ids(item.methods@) + repeated(
                    provided_ids(pm_view(self.provided_methods@), item.id),
                    item.traits@.len(),
                ),
            }),
    {
        let mut methods: Vec<u64> = Vec::new();
        let mut i: usize = 0;
        while i < item.methods.len()
            invariant
                i <= item.methods@.len(),
                methods@ == own_ids(item.methods@).subrange(0, i as int),
            decreases item.methods@.len() - i,
        {
            methods.push(item.methods[i].0);
            assert(methods@ =~= own_ids(item.methods@).subrange(0, i + 1));
            i = i + 1;
        }
        assert(own_ids(item.methods@).subrange(0, item.methods@.len() as int) =~= own_ids(item.methods@));
        let ghost pv = pm_view(self.provided_methods@);
        let ghost ids = provided_ids(pv, item.id);
        let mut provided: Vec<u64> = Vec::new();
        match find_entry(&self.provided_methods, item.id) {
            Some(k) => {
                proof {
                    lemma_entry_of(pv, item.id);
                }
                let list = &self.provided_methods[k].1;
                let mut j: usize = 0;
                while j < list.len()
                    invariant
                        j <= list@.len(),
                        list@ == pv[k as int].1,
                        ids == pv[k as int].1.map_values(|x: ProvidedMethodInfo| x.did),
                        provided@ == ids.subrange(0, j as int),
                    decreases list@.len() - j,
                {
                    provided.push(list[j].did);
                    assert(provided@ =~= ids.subrange(0, j + 1));
                    j = j + 1;
                }
                assert(ids.subrange(0, list@.len() as int) =~= ids);
            },
            None => {
                assert(provided@ =~= ids);
            },
        }
        let ghost base = methods@;
        let mut t: usize = 0;
        while t < item.traits.len()
            invariant
                t <= item.traits@.len(),
                provided@ == ids,
                methods@ == base + repeated(ids, t as nat),
            decreases item.traits@.len() - t,
        {
            let mut j: usize = 0;
            let ghost before = methods@;
            while j < provided.len()
                invariant
                    j <= provided@.len(),
                    methods@ == before + provided@.subrange(0, j as int),
                decreases provided@.len() - j,
            {
                methods.push(provided[j]);
                assert(methods@ =~= before + provided@.subrange(0, j + 1));
                j = j + 1;
            }
            assert(provided@.subrange(0, provided@.len() as int) =~= provided@);
            t = t + 1;
            assert(methods@ =~= base + repeated(ids, t as nat));
        }
        Impl { did: item.id, ident: item.ident, methods }
    }

    /// Checks an impl item and records it. An impl of no trait whose self
    /// type has no base type is reported. For each trait in turn, the impl
    /// gets the trait's default methods and is added to the impls of the
    /// trait; the impl is created after the first trait's default methods
    /// (reporting each method of each trait that it lacks). An impl of no
    /// trait with a base type is created and added to the inherent impls of
    /// that type, and the base type of every impl that has one is recorded.
    #[verifier::rlimit(40)]
    pub fn check_implementation(&mut self, item: &ImplItem) -> (errors: Vec<CoherenceError>)
        requires
            old(self).next_id + methods_total(item.traits@) <= u64::MAX,
            traits_movable(*item),
        ensures
            errors@ == (if item.traits@.len() == 0 && item.base_type is None {
                seq![CoherenceError::NoBaseType(item.id)]
            } else {
                Seq::empty()
            }) + missing_all(item.traits@, own_names(item.methods@)),
            final(self).next_id == old(self).next_id + ids_used(item.traits@),
            final(self).provided_method_sources@ == sources_after(
                old(self).provided_method_sources@,
                old(self).next_id,
                item.id,
                item.traits@,
            ),
            pm_view(final(self).provided_methods@) == pm_after(
                pm_view(old(self).provided_methods@),
                old(self).next_id,
                item.id,
                item.traits@,
            ),
            tcache_view(final(self).tcache@) == tcache_after(
                tcache_view(old(self).tcache@),
                old(self).next_id,
                item.generics@,
                item.region_param,
                item.traits@,
            ),
            methods_view(final(self).methods@) == methods_after(
                methods_view(old(self).methods@),
                old(self).next_id,
                item.generics@.len(),
                item.traits@,
            ),
            lists_view(final(self).extension_methods@) == ext_after(
                lists_view(old(self).extension_methods@),
                item.id,
                item.traits@,
            ),
            impls_view(final(self).impls@) == impls_view(old(self).impls@) + (if item.traits@.len() > 0 {
                seq![
                    ImplView {
                        did: item.id,
                        ident: item.ident,
                        methods: own_ids(item.methods@) + repeated(
                            provided_ids(
                                pm_after(
                                    pm_view(old(self).provided_methods@),
                                    old(self).next_id,
                                    item.id,
                                    item.traits@.subrange(0, 1),
                                ),
                                item.id,
                            ),
                            item.traits@.len(),
                        ),
                    },
                ]
            } else if item.base_type is Some {
                seq![ImplView { did: item.id, ident: item.ident, methods: own_ids(item.methods@) }]
            } else {
                Seq::empty()
            }),
            lists_view(final(self).inherent_methods@) == (match item.base_type {
                Some(d) => if item.traits@.len() == 0 {
                    add_to(lists_view(old(self).inherent_methods@), d, item.id)
                } else {
                    lists_view(old(self).inherent_methods@)
                },
                None => lists_view(old(self).inherent_methods@),
            }),
            final(self).base_type_def_ids@ == (match item.base_type {
                Some(d) => set_pair(old(self).base_type_def_ids@, item.id, d),
                None => old(self).base_type_def_ids@,
            }),
    {
        let mut errors: Vec<CoherenceError> = Vec::new();
        if item.traits.len() == 0 && item.base_type.is_none() {
            errors.push(CoherenceError::NoBaseType(item.id));
        }
        let ghost e0 = errors@;
        let mut own: Vec<u32> = Vec::new();
        let mut i: usize = 0;
        while i < item.methods.len()
            invariant
                i <= item.methods@.len(),
                own@ == own_names(item.methods@).subrange(0, i as int),
            decreases item.methods@.len() - i,
        {
            own.push(item.methods[i].1);
            assert(own@ =~= own_names(item.methods@).subrange(0, i + 1));
            i = i + 1;
        }
        assert(own_names(item.methods@).subrange(0, item.methods@.len() as int) =~= own_names(item.methods@));
        let ghost n0 = self.next_id;
        let ghost src0 = self.provided_method_sources@;
        let ghost pm0 = pm_view(self.provided_methods@);
        let ghost tc0 = tcache_view(self.tcache@);
        let ghost me0 = methods_view(self.methods@);
        let ghost ext0 = lists_view(self.extension_methods@);
        let ghost imp0 = impls_view(self.impls@);
        let ghost trs = item.traits@;
        let mut k: usize = 0;
        while k < item.traits.len()
            invariant
                k <= trs.len(),
                trs == item.traits@,
                n0 + methods_total(trs) <= u64::MAX,
                traits_movable(*item),
                own@ == own_names(item.methods@),
                self.next_id == n0 + ids_used(trs.subrange(0, k as int)),
                self.provided_method_sources@ == sources_after(src0, n0, item.id, trs.subrange(0, k as int)),
                pm_view(self.provided_methods@) == pm_after(pm0, n0, item.id, trs.subrange(0, k as int)),
                tcache_view(self.tcache@) == tcache_after(tc0, n0, item.generics@, item.region_param, trs.subrange(0, k as int)),
                methods_view(self.methods@) == methods_after(me0, n0, item.generics@.len(), trs.subrange(0, k as int)),
                lists_view(self.extension_methods@) == ext_after(ext0, item.id, trs.subrange(0, k as int)),
                self.inherent_methods == old(self).inherent_methods,
                self.base_type_def_ids == old(self).base_type_def_ids,
                k == 0 ==> impls_view(self.impls@) == imp0,
                k > 0 ==> impls_view(self.impls@) == imp0 + seq![
                    ImplView {
                        did: item.id,
                        ident: item.ident,
                        methods: own_ids(item.methods@) + repeated(
                            provided_ids(pm_after(pm0, n0, item.id, trs.subrange(0, 1)), item.id),
                            trs.len(),
                        ),
                    },
                ],
                k == 0 ==> errors@ == e0,
                k > 0 ==> errors@ == e0 + missing_all(trs, own_names(item.methods@)),
            decreases trs.len() - k,
        {
            let tr = &item.traits[k];
            let ghost pre = trs.subrange(0, k as int);
            let ghost next = trs.subrange(0, k + 1);
            proof {
                assert(next.drop_last() =~= pre);
                assert(next.last() == trs[k as int]);
                lemma_total_prefix(trs, k + 1);
                lemma_ids_within_total(pre);
                assert forall|j: int|
                    0 <= j < tr.methods@.len() implies item.generics@.len() + (#[trigger] tr.methods@[j]).generics@.len()
                        <= usize::MAX && movable(tr.methods@[j], tr.tps@.len(), tr.self_ty is Some) by {
                    assert(item.traits@[k as int].methods@[j] == tr.methods@[j]);
                }
            }
            self.instantiate_default_methods(
                item.id,
                &item.generics,
                item.region_param,
                &tr.tps,
                &tr.self_ty,
                &tr.methods,
                &tr.provided,
            );
            if k == 0 {
                let imp = self.create_impl(item);
                let ghost iv = impls_view(self.impls@);
                self.impls.push(imp);
                let mut t: usize = 0;
                while t < item.traits.len()
                    invariant
                        t <= item.traits@.len(),
                        trs == item.traits@,
                        own@ == own_names(item.methods@),
                        errors@ == e0 + missing_all(item.traits@.subrange(0, t as int), own@),
                    decreases item.traits@.len() - t,
                {
                    let ghost nx = item.traits@.subrange(0, t + 1);
                    assert(nx.drop_last() =~= item.traits@.subrange(0, t as int));
                    assert(nx.last() == item.traits@[t as int]);
                    check_trait_methods(&item.traits[t], &own, &mut errors);
                    t = t + 1;
                }
                proof {
                    assert(item.traits@.subrange(0, item.traits@.len() as int) =~= item.traits@);
                    assert(impls_view(self.impls@) =~= iv.push(impl_view(imp)));
                    assert(trs.subrange(0, 1) =~= next);
                }
            }
            add_to_list(&mut self.extension_methods, tr.def_id, item.id);
            k = k + 1;
        }
        proof {
            assert(trs.subrange(0, trs.len() as int) =~= trs);
            if trs.len() == 0 {
                assert(missing_all(trs, own_names(item.methods@)) =~= Seq::empty());
            }
        }
        match item.base_type {
            Some(d) => {
                if item.traits.len() == 0 {
                    let imp = self.create_impl(item);
                    let ghost iv = impls_view(self.impls@);
                    self.impls.push(imp);
                    add_to_list(&mut self.inherent_methods, d, item.id);
                    proof {
                        assert(impls_view(self.impls@) =~= iv.push(impl_view(imp)));
                        assert(own_ids(item.methods@) + repeated(
                            provided_ids(pm_view(self.provided_methods@), item.id),
                            0,
                        ) =~= own_ids(item.methods@));
                    }
                }
                set_base(&mut self.base_type_def_ids, item.id, d);
            },
            None => {},
        }
        proof {
            assert(errors@ =~= (if item.traits@.len() == 0 && item.base_type is None {
                seq![CoherenceError::NoBaseType(item.id)]
            } else {
                Seq::empty()
            }) + missing_all(item.traits@, own_names(item.methods@)));
        }
        errors
    }
}

} // verus!
