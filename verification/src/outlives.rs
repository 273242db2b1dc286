//! The outlives relation `T: 'a`: what must outlive `'a` for a type to
//! outlive it.
//!
//! A type is given by what the walk reads of it: its kind, the regions it
//! names directly (not those of the types it contains), and the types it
//! contains, in order. A closure keeps the types of its captured variables
//! apart from the types it contains. The inference context is given by the
//! values of its type variables; a value is already resolved as far as the
//! context can resolve it, so it names no variable that has a value.

use vstd::prelude::*;

verus! {

/// A region. Regions bound by a binder inside the type (late-bound
/// regions) constrain nothing on their own.
#[derive(Clone, Copy, Debug, PartialEq, Eq)]
pub struct Region {
    pub id: u32,
    pub late_bound: bool,
}

impl Region {
    /// Whether the region is bound inside the type.
    pub fn is_bound(&self) -> (r: bool)
        ensures
            r == self.late_bound,
    {
        self.late_bound
    }
}

/// A type parameter.
#[derive(Clone, Copy, Debug, PartialEq, Eq)]
pub struct ParamTy {
    pub idx: u32,
}

/// A projection `<P0 as Trait<P1..Pn>>::Item`, with whether its trait
/// reference names a region bound outside it.
#[derive(Clone, Copy, Debug, PartialEq, Eq)]
pub struct ProjectionTy {
    pub item: u32,
    pub escaping_regions: bool,
}

impl ProjectionTy {
    /// Whether the projection names a region bound outside it.
    pub fn has_escaping_regions(&self) -> (r: bool)
        ensures
            r == self.escaping_regions,
    {
        self.escaping_regions
    }
}

/// A type inference variable.
#[derive(Clone, Copy, Debug, PartialEq, Eq)]
pub struct InferTy {
    pub var: u32,
}

/// The kind of a type, as far as the outlives relation tells kinds apart.
#[derive(Debug)]
pub enum TyKind {
    Bool,
    Char,
    Int,
    Uint,
    Float,
    Enum,
    Struct,
    Box,
    Str,
    Array,
    Slice,
    RawPtr,
    Ref,
    Tuple,
    Error,
    BareFn,
    Trait,
    /// A closure, with the types of the variables it captures.
    Closure(Vec<Ty>),
    Param(ParamTy),
    Projection(ProjectionTy),
    Infer(InferTy),
}

/// A type: its kind, the regions it names directly, and the types it
/// contains.
#[derive(Debug)]
pub struct Ty {
    pub kind: TyKind,
    pub regions: Vec<Region>,
    pub subtys: Vec<Ty>,
}

/// The value of an inference variable in a table of values.
pub open spec fn var_value(vars: Seq<Option<Ty>>, v: InferTy) -> Option<Ty> {
    if (v.var as int) < vars.len() {
        vars[v.var as int]
    } else {
        None
    }
}

/// A leaf kind: a type of this kind names no region and contains no
/// type.
pub open spec fn is_leaf(k: TyKind) -> bool {
    k is Bool || k is Char || k is Int || k is Uint || k is Float || k is Str || k is Error || k is Param
        || k is Infer
}

/// Every leaf in the type names no region and contains no type.
pub open spec fn well_shaped(ty: Ty) -> bool
    decreases ty, 0nat,
{
    &&& is_leaf(ty.kind) ==> ty.regions@.len() == 0 && ty.subtys@.len() == 0
    &&& all_well_shaped(ty.subtys@)
    &&& match ty.kind {
        TyKind::Closure(upvars) => all_well_shaped(upvars@),
        _ => true,
    }
}

/// Each type of a list is well shaped.
pub open spec fn all_well_shaped(tys: Seq<Ty>) -> bool
    decreases tys, 1nat,
{
    if tys.len() == 0 {
        true
    } else {
        all_well_shaped(tys.subrange(0, tys.len() - 1)) && well_shaped(tys[tys.len() - 1])
    }
}

/// No variable that has a value in `vars` occurs where the walk looks.
pub open spec fn settled(ty: Ty, vars: Seq<Option<Ty>>) -> bool
    decreases ty, 0nat,
{
    let own = match ty.kind {
        TyKind::Infer(v) => var_value(vars, v) is None,
        TyKind::Closure(upvars) => all_settled(upvars@, vars),
        _ => true,
    };
    own && all_settled(ty.subtys@, vars)
}

/// Each type of a list is settled.
pub open spec fn all_settled(tys: Seq<Ty>, vars: Seq<Option<Ty>>) -> bool
    decreases tys, 1nat,
{
    if tys.len() == 0 {
        true
    } else {
        all_settled(tys.subrange(0, tys.len() - 1), vars) && settled(tys[tys.len() - 1], vars)
    }
}

proof fn lemma_all_settled(tys: Seq<Ty>, vars: Seq<Option<Ty>>)
    ensures
        all_settled(tys, vars) <==> forall|i: int|
            0 <= i < tys.len() ==> #[trigger] settled(tys[i], vars),
    decreases tys.len(),
{
    if tys.len() > 0 {
        let n = tys.len() - 1;
        let init = tys.subrange(0, n);
        lemma_all_settled(init, vars);
        assert(all_settled(tys, vars) == (all_settled(init, vars) && settled(tys[n], vars)));
        if forall|i: int| 0 <= i < tys.len() ==> #[trigger] settled(tys[i], vars) {
            assert forall|i: int| 0 <= i < init.len() implies #[trigger] settled(init[i], vars) by {
                assert(init[i] == tys[i]);
                assert(settled(tys[i], vars));
            }
            assert(settled(tys[n], vars));
        }
        if all_settled(tys, vars) {
            assert forall|i: int| 0 <= i < tys.len() implies #[trigger] settled(tys[i], vars) by {
                if i < n {
                    assert(init[i] == tys[i]);
                    assert(settled(init[i], vars));
                }
            }
        }
    }
}

/// One thing that must outlive `'a` for a type to outlive `'a`.
#[derive(Debug, PartialEq, Eq)]
pub enum Component {
    Region(Region),
    Param(ParamTy),
    UnresolvedInferenceVariable(InferTy),
    /// A projection without escaping regions: the consumer decides how to
    /// show that it outlives `'a`.
    Projection(ProjectionTy),
    /// The components of a projection with escaping regions: all of them
    /// must outlive `'a`.
    EscapingProjection(Vec<Component>),
    /// The components of a function or trait-object type.
    RFC1214(Vec<Component>),
}

/// A component, with the nested lists of components as sequences.
pub enum ComponentView {
    Region(Region),
    Param(ParamTy),
    UnresolvedInferenceVariable(InferTy),
    Projection(ProjectionTy),
    EscapingProjection(Seq<ComponentView>),
    RFC1214(Seq<ComponentView>),
}

/// The view of one component.
pub open spec fn component_view(c: Component) -> ComponentView
    decreases c, 0nat,
{
    match c {
        Component::Region(r) => ComponentView::Region(r),
        Component::Param(p) => ComponentView::Param(p),
        Component::UnresolvedInferenceVariable(v) => ComponentView::UnresolvedInferenceVariable(v),
        Component::Projection(d) => ComponentView::Projection(d),
        Component::EscapingProjection(cs) => ComponentView::EscapingProjection(views(cs@)),
        Component::RFC1214(cs) => ComponentView::RFC1214(views(cs@)),
    }
}

/// The views of a list of components.
pub open spec fn views(cs: Seq<Component>) -> Seq<ComponentView>
    decreases cs, 1nat,
{
    if cs.len() == 0 {
        Seq::empty()
    } else {
        views(cs.subrange(0, cs.len() - 1)).push(component_view(cs[cs.len() - 1]))
    }
}

impl View for Component {
    type V = ComponentView;

    open spec fn view(&self) -> ComponentView {
        component_view(*self)
    }
}

/// The regions of a list that are not bound inside the type, as
/// components.
pub open spec fn unbound_regions(rs: Seq<Region>) -> Seq<ComponentView>
    decreases rs.len(),
{
    if rs.len() == 0 {
        Seq::empty()
    } else {
        let rest = unbound_regions(rs.drop_last());
        if rs.last().late_bound {
            rest
        } else {
            rest.push(ComponentView::Region(rs.last()))
        }
    }
}

/// Everything that must outlive `'a` for `ty: 'a` to hold, in the order
/// of a walk of the type. A scalar, nominal, pointer, array or tuple type
/// gives its own unbound regions and then the components of the types it
/// contains; a closure gives those of the variables it captures; a
/// function or trait-object type gives its unbound regions and the
/// components of what it contains, as one group; a parameter and an
/// unresolved variable give themselves; a projection gives itself, or, if
/// it has escaping regions, a group as a function type does. A variable
/// with a value gives the components of that value, which names no
/// variable with a value.
pub open spec fn components_of(ty: Ty, vars: Seq<Option<Ty>>) -> Seq<ComponentView>
    decreases vars.len(), ty, 0nat,
{
    match ty.kind {
        TyKind::Closure(upvars) => components_of_all(upvars@, vars),
        TyKind::BareFn | TyKind::Trait => seq![
            ComponentView::RFC1214(
                unbound_regions(ty.regions@) + components_of_all(ty.subtys@, vars),
            ),
        ],
        TyKind::Param(p) => seq![ComponentView::Param(p)],
        TyKind::Projection(d) => if !d.escaping_regions {
            seq![ComponentView::Projection(d)]
        } else {
            seq![
                ComponentView::EscapingProjection(
                    unbound_regions(ty.regions@) + components_of_all(ty.subtys@, vars),
                ),
            ]
        },
        TyKind::Infer(v) => match var_value(vars, v) {
            Some(t) => components_of(t, Seq::empty()),
            None => seq![ComponentView::UnresolvedInferenceVariable(v)],
        },
        _ => unbound_regions(ty.regions@) + components_of_all(ty.subtys@, vars),
    }
}

/// The components of a list of types, one after the other.
pub open spec fn components_of_all(tys: Seq<Ty>, vars: Seq<Option<Ty>>) -> Seq<ComponentView>
    decreases vars.len(), tys, 1nat,
{
    if tys.len() == 0 {
        Seq::empty()
    } else {
        components_of_all(tys.subrange(0, tys.len() - 1), vars) + components_of(
            tys[tys.len() - 1],
            vars,
        )
    }
}

/// Under a table in which `ty` is settled, the components of `ty` are
/// those it has under the empty table.
proof fn lemma_settled_components(ty: Ty, vars: Seq<Option<Ty>>)
    requires
        settled(ty, vars),
    ensures
        components_of(ty, vars) == components_of(ty, Seq::empty()),
    decreases ty, 0nat,
{
    match ty.kind {
        TyKind::Closure(upvars) => {
            lemma_settled_components_all(upvars@, vars);
        },
        TyKind::Infer(v) => {},
        TyKind::Param(p) => {},
        _ => {
            lemma_settled_components_all(ty.subtys@, vars);
        },
    }
}

proof fn lemma_settled_components_all(tys: Seq<Ty>, vars: Seq<Option<Ty>>)
    requires
        all_settled(tys, vars),
    ensures
        components_of_all(tys, vars) == components_of_all(tys, Seq::empty()),
    decreases tys, 1nat,
{
    if tys.len() > 0 {
        lemma_settled_components_all(tys.subrange(0, tys.len() - 1), vars);
        lemma_settled_components(tys[tys.len() - 1], vars);
    }
}

proof fn lemma_views_push(cs: Seq<Component>, c: Component)
    ensures
        views(cs.push(c)) == views(cs).push(component_view(c)),
{
    assert(cs.push(c).subrange(0, cs.len() as int) =~= cs);
}

/// The part of an inference context that the outlives relation reads:
/// the value of each type variable, resolved as far as the context can
/// resolve it (`None` for a variable without a value).
pub struct InferCtxt {
    pub type_vars: Vec<Option<Ty>>,
}

impl InferCtxt {
    /// Each value is well shaped and resolved: it names no variable that
    /// has a value.
    pub open spec fn wf(&self) -> bool {
        forall|i: int|
            0 <= i < self.type_vars@.len() && (#[trigger] self.type_vars@[i]) is Some
                ==> settled(self.type_vars@[i]->0, self.type_vars@) && well_shaped(self.type_vars@[i]->0)
    }

    /// The value of an inference variable, if it has one.
    pub fn type_var_value(&self, v: InferTy) -> (r: Option<&Ty>)
        ensures
            match r {
                Some(t) => var_value(self.type_vars@, v) == Some(*t),
                None => var_value(self.type_vars@, v) is None,
            },
    {
        let i = v.var as usize;
        if i < self.type_vars.len() {
            match &self.type_vars[i] {
                Some(t) => Some(t),
                None => None,
            }
        } else {
            None
        }
    }
}

/// Returns all the things that must outlive `'a` for the condition
/// `ty0: 'a` to hold.
pub fn components(infcx: &InferCtxt, ty0: &Ty) -> (r: Vec<Component>)
    requires
        infcx.wf(),
        well_shaped(*ty0),
    ensures
        views(r@) == components_of(*ty0, infcx.type_vars@),
{
    let mut components: Vec<Component> = Vec::new();
    compute_components(infcx, ty0, &mut components, Ghost(false));
    assert(views(components@) =~= components_of(*ty0, infcx.type_vars@));
    components
}

/// Appends the components of `ty`. In settled mode the type names no
/// variable with a value.
fn compute_components(
    infcx: &InferCtxt,
    ty: &Ty,
    out: &mut Vec<Component>,
    Ghost(settled_mode): Ghost<bool>,
)
    requires
        infcx.wf(),
        settled_mode ==> settled(*ty, infcx.type_vars@),
    ensures
        views(final(out)@) == views(old(out)@) + components_of(*ty, infcx.type_vars@),
    decreases (if settled_mode { 0int } else { 1int }), *ty, 2nat,
{
    let ghost vars = infcx.type_vars@;
    match &ty.kind {
        TyKind::Closure(upvars) => {
            compute_all(infcx, upvars, out, Ghost(settled_mode));
        },
        TyKind::BareFn | TyKind::Trait => {
            let subcomponents = capture_components(infcx, ty, Ghost(settled_mode));
            let c = Component::RFC1214(subcomponents);
            proof {
                lemma_views_push(out@, c);
            }
            out.push(c);
        },
        TyKind::Param(p) => {
            let c = Component::Param(*p);
            proof {
                lemma_views_push(out@, c);
            }
            out.push(c);
        },
        TyKind::Projection(data) => {
            if !data.has_escaping_regions() {
                let c = Component::Projection(*data);
                proof {
                    lemma_views_push(out@, c);
                }
                out.push(c);
            } else {
                let subcomponents = capture_components(infcx, ty, Ghost(settled_mode));
                let c = Component::EscapingProjection(subcomponents);
                proof {
                    lemma_views_push(out@, c);
                }
                out.push(c);
            }
        },
        TyKind::Infer(v) => {
            match infcx.type_var_value(*v) {
                Some(t) => {
                    proof {
                        assert(settled(*t, vars));
                        lemma_settled_components(*t, vars);
                    }
                    compute_components(infcx, t, out, Ghost(true));
                },
                None => {
                    let c = Component::UnresolvedInferenceVariable(*v);
                    proof {
                        lemma_views_push(out@, c);
                    }
                    out.push(c);
                },
            }
        },
        _ => {
            push_region_constraints(out, &ty.regions);
            compute_all(infcx, &ty.subtys, out, Ghost(settled_mode));
        },
    }
}

/// The components of a function, trait-object or escaping projection
/// type, gathered apart: its unbound regions, then the components of the
/// types it contains.
fn capture_components(infcx: &InferCtxt, ty: &Ty, Ghost(settled_mode): Ghost<bool>) -> (r: Vec<
    Component,
>)
    requires
        infcx.wf(),
        settled_mode ==> settled(*ty, infcx.type_vars@),
    ensures
        views(r@) == unbound_regions(ty.regions@) + components_of_all(ty.subtys@, infcx.type_vars@),
    decreases (if settled_mode { 0int } else { 1int }), *ty, 1nat,
{
    let mut temp: Vec<Component> = Vec::new();
    push_region_constraints(&mut temp, &ty.regions);
    compute_all(infcx, &ty.subtys, &mut temp, Ghost(settled_mode));
    assert(views(temp@) =~= unbound_regions(ty.regions@) + components_of_all(
        ty.subtys@,
        infcx.type_vars@,
    ));
    temp
}

/// Appends the components of each type of a list, in order.
fn compute_all(
    infcx: &InferCtxt,
    tys: &Vec<Ty>,
    out: &mut Vec<Component>,
    Ghost(settled_mode): Ghost<bool>,
)
    requires
        infcx.wf(),
        settled_mode ==> all_settled(tys@, infcx.type_vars@),
    ensures
        views(final(out)@) == views(old(out)@) + components_of_all(tys@, infcx.type_vars@),
    decreases (if settled_mode { 0int } else { 1int }), *tys, 0nat,
{
    let ghost vars = infcx.type_vars@;
    let mut i: usize = 0;
    assert(tys@.subrange(0, 0) =~= Seq::<Ty>::empty());
    assert(views(out@) =~= views(old(out)@) + components_of_all(tys@.subrange(0, 0), vars));
    while i < tys.len()
        invariant
            infcx.wf(),
            vars == infcx.type_vars@,
            i <= tys@.len(),
            settled_mode ==> all_settled(tys@, vars),
            views(out@) == views(old(out)@) + components_of_all(tys@.subrange(0, i as int), vars),
        decreases tys@.len() - i,
    {
        proof {
            if settled_mode {
                lemma_all_settled(tys@, vars);
                assert(settled(tys@[i as int], vars));
            }
        }
        compute_components(infcx, &tys[i], out, Ghost(settled_mode));
        proof {
            let next = tys@.subrange(0, i + 1);
            assert(next.subrange(0, i as int) =~= tys@.subrange(0, i as int));
            assert(next[i as int] == tys@[i as int]);
        }
        i += 1;
    }
    assert(tys@.subrange(0, tys@.len() as int) =~= tys@);
}

/// Appends the regions of a list that are not bound inside the type.
fn push_region_constraints(out: &mut Vec<Component>, regions: &Vec<Region>)
    ensures
        views(final(out)@) == views(old(out)@) + unbound_regions(regions@),
{
    let mut i: usize = 0;
    assert(regions@.subrange(0, 0) =~= Seq::<Region>::empty());
    assert(views(out@) =~= views(old(out)@) + unbound_regions(regions@.subrange(0, 0)));
    while i < regions.len()
        invariant
            i <= regions@.len(),
            views(out@) == views(old(out)@) + unbound_regions(regions@.subrange(0, i as int)),
        decreases regions@.len() - i,
    {
        let r = regions[i];
        proof {
            let next = regions@.subrange(0, i + 1);
            assert(next.drop_last() =~= regions@.subrange(0, i as int));
            assert(next.last() == r);
        }
        if !r.is_bound() {
            let c = Component::Region(r);
            proof {
                lemma_views_push(out@, c);
            }
            out.push(c);
        }
        i += 1;
    }
    assert(regions@.subrange(0, regions@.len() as int) =~= regions@);
}

} // verus!
