//! Decisions of the code generator's common helpers: cleanup kinds, the
//! classification of monomorphised data, the one-time "do not commit"
//! warning, the constants it asks the backend to build, and the cleanups
//! of a scope (what runs when the scope is left, and the cached cleanup
//! paths that a change of them invalidates). A cleanup's code is given
//! by what it runs (`CleanupAction`).
//!
//! The backend itself is not part of this library: a constant is described
//! here by `ConstValue` (the type, the bits and the sign-extension flag
//! that the backend's integer-constant call takes), and the caller builds
//! it.

use vstd::prelude::*;

verus! {

/// Heap selectors: which heap something should go on.
#[allow(non_camel_case_types)]
#[derive(Clone, Copy, Debug, PartialEq, Eq)]
pub enum heap {
    heap_managed,
    heap_managed_unique,
    heap_exchange,
}

/// When a cleanup runs: on normal exit only, or also while unwinding.
#[allow(non_camel_case_types)]
#[derive(Clone, Copy, Debug, PartialEq, Eq)]
pub enum cleantype {
    normal_exit_only,
    normal_exit_and_unwind,
}

/// The cleanup kind of a value whose type does (`needs_unwind_cleanup`)
/// or does not need cleaning up during unwinding.
pub fn cleanup_type(needs_unwind_cleanup: bool) -> (r: cleantype)
    ensures
        r == (if needs_unwind_cleanup {
            cleantype::normal_exit_and_unwind
        } else {
            cleantype::normal_exit_only
        }),
{
    if needs_unwind_cleanup {
        cleantype::normal_exit_and_unwind
    } else {
        cleantype::normal_exit_only
    }
}

/// How monomorphised data is treated when caching instances.
#[derive(Clone, Copy, Debug, PartialEq, Eq)]
pub enum MonoDataClass {
    /// Anything not treated differently from arbitrary integer data.
    MonoBits,
    /// Non-null pointers (used for the optional-pointer optimisation).
    MonoNonNull,
    /// Floating-point data.
    MonoFloat,
}

/// Where a string or vector is stored.
#[derive(Clone, Copy, Debug, PartialEq, Eq)]
pub enum Vstore {
    Fixed(usize),
    Slice,
    Uniq,
    Box,
}

/// The outermost constructor of a type, as far as the classification of
/// monomorphised data reads it.
#[derive(Clone, Copy, Debug, PartialEq, Eq)]
pub enum TypeShape {
    Float,
    Rptr,
    Uniq,
    Box,
    OpaqueBox,
    Estr(Vstore),
    Evec(Vstore),
    BareFn,
    /// Any other type.
    Other,
}

/// The values of a type of this shape are pointers that are never null:
/// references, owned and managed boxes, bare function pointers, and
/// strings and vectors stored in an owned or managed box.
pub open spec fn never_null(t: TypeShape) -> bool {
    ||| t == TypeShape::Rptr
    ||| t == TypeShape::Uniq
    ||| t == TypeShape::Box
    ||| t == TypeShape::OpaqueBox
    ||| t == TypeShape::BareFn
    ||| t == TypeShape::Estr(Vstore::Uniq)
    ||| t == TypeShape::Estr(Vstore::Box)
    ||| t == TypeShape::Evec(Vstore::Uniq)
    ||| t == TypeShape::Evec(Vstore::Box)
}

/// Law: floating-point data is `MonoFloat`, data that is a never-null
/// pointer is `MonoNonNull`, and everything else (fixed-size or slice
/// strings and vectors among it) is `MonoBits`.
pub proof fn law_mono_class(t: TypeShape)
    ensures
        (mono_class(t) == MonoDataClass::MonoFloat) <==> t == TypeShape::Float,
        (mono_class(t) == MonoDataClass::MonoNonNull) <==> never_null(t),
        (mono_class(t) == MonoDataClass::MonoBits) <==> !(t == TypeShape::Float) && !never_null(t),
{
}

/// Floats are `MonoFloat`; pointers, owned or managed strings and vectors
/// and bare functions are `MonoNonNull`; the rest is `MonoBits`.
pub open spec fn mono_class(t: TypeShape) -> MonoDataClass {
    match t {
        TypeShape::Float => MonoDataClass::MonoFloat,
        TypeShape::Rptr | TypeShape::Uniq | TypeShape::Box | TypeShape::OpaqueBox
        | TypeShape::BareFn => MonoDataClass::MonoNonNull,
        TypeShape::Estr(v) | TypeShape::Evec(v) => match v {
            Vstore::Uniq | Vstore::Box => MonoDataClass::MonoNonNull,
            _ => MonoDataClass::MonoBits,
        },
        TypeShape::Other => MonoDataClass::MonoBits,
    }
}

/// Classifies a type for the cache of monomorphised instances.
pub fn mono_data_classify(t: TypeShape) -> (r: MonoDataClass)
    ensures
        r == mono_class(t),
{
    match t {
        TypeShape::Float => MonoDataClass::MonoFloat,
        TypeShape::Rptr | TypeShape::Uniq | TypeShape::Box | TypeShape::OpaqueBox
        | TypeShape::BareFn => MonoDataClass::MonoNonNull,
        TypeShape::Estr(Vstore::Uniq) | TypeShape::Evec(Vstore::Uniq) | TypeShape::Estr(
            Vstore::Box,
        )
        | TypeShape::Evec(Vstore::Box) => MonoDataClass::MonoNonNull,
        _ => MonoDataClass::MonoBits,
    }
}

/// The backend integer types that constants are built at.
#[derive(Clone, Copy, Debug, PartialEq, Eq)]
pub enum LlType {
    Bool,
    I1,
    I8,
    I32,
    I64,
}

/// A constant for the backend to build.
#[derive(Debug)]
pub enum ConstValue {
    /// An integer of type `ty` with bits `value`; `sign_extend` says
    /// whether the bits are read as signed.
    Integral { ty: LlType, value: u64, sign_extend: bool },
    /// A structure of the given fields.
    Struct(Vec<ConstValue>),
}

/// The state of the crate being compiled that these helpers read.
pub struct CrateContext {
    /// The backend type of the target's `int`.
    pub int_type: LlType,
    /// Whether the "do not commit" warning was already issued.
    pub do_not_commit_warning_issued: bool,
}

/// The empty structure (the unit value).
#[allow(non_snake_case)]
pub fn C_nil() -> (r: ConstValue)
    ensures
        r matches ConstValue::Struct(fields) && fields@.len() == 0,
{
    ConstValue::Struct(Vec::new())
}

/// A boolean, stored as a byte-sized `bool`.
#[allow(non_snake_case)]
pub fn C_bool(val: bool) -> (r: ConstValue)
    ensures
        r == (ConstValue::Integral {
            ty: LlType::Bool,
            value: if val { 1 } else { 0 },
            sign_extend: false,
        }),
{
    ConstValue::Integral { ty: LlType::Bool, value: if val { 1 } else { 0 }, sign_extend: false }
}

/// A boolean, stored as a single bit.
#[allow(non_snake_case)]
pub fn C_i1(val: bool) -> (r: ConstValue)
    ensures
        r == (ConstValue::Integral {
            ty: LlType::I1,
            value: if val { 1 } else { 0 },
            sign_extend: false,
        }),
{
    ConstValue::Integral { ty: LlType::I1, value: if val { 1 } else { 0 }, sign_extend: false }
}

/// A signed 32-bit integer.
#[allow(non_snake_case)]
pub fn C_i32(i: i32) -> (r: ConstValue)
    ensures
        r == (ConstValue::Integral { ty: LlType::I32, value: i as u64, sign_extend: true }),
{
    ConstValue::Integral { ty: LlType::I32, value: i as u64, sign_extend: true }
}

/// A signed 64-bit integer.
#[allow(non_snake_case)]
pub fn C_i64(i: i64) -> (r: ConstValue)
    ensures
        r == (ConstValue::Integral { ty: LlType::I64, value: i as u64, sign_extend: true }),
{
    ConstValue::Integral { ty: LlType::I64, value: i as u64, sign_extend: true }
}

/// A signed integer of the target's `int` type.
#[allow(non_snake_case)]
pub fn C_int(cx: &CrateContext, i: isize) -> (r: ConstValue)
    ensures
        r == (ConstValue::Integral { ty: cx.int_type, value: i as u64, sign_extend: true }),
{
    ConstValue::Integral { ty: cx.int_type, value: i as u64, sign_extend: true }
}

/// An unsigned integer of the target's `int` type.
#[allow(non_snake_case)]
pub fn C_uint(cx: &CrateContext, i: usize) -> (r: ConstValue)
    ensures
        r == (ConstValue::Integral { ty: cx.int_type, value: i as u64, sign_extend: false }),
{
    ConstValue::Integral { ty: cx.int_type, value: i as u64, sign_extend: false }
}

/// A byte.
#[allow(non_snake_case)]
pub fn C_u8(i: usize) -> (r: ConstValue)
    ensures
        r == (ConstValue::Integral { ty: LlType::I8, value: i as u64, sign_extend: false }),
{
    ConstValue::Integral { ty: LlType::I8, value: i as u64, sign_extend: false }
}

/// Issues the "do not commit" warning at most once per crate: the first
/// call returns the warning to emit, `msg` followed by
/// " -- do not commit like this!", and every later call returns `None`.
pub fn warn_not_to_commit(ccx: &mut CrateContext, msg: &str) -> (r: Option<String>)
    ensures
        final(ccx).do_not_commit_warning_issued,
        final(ccx).int_type == old(ccx).int_type,
        old(ccx).do_not_commit_warning_issued ==> r is None,
        !old(ccx).do_not_commit_warning_issued ==> (r matches Some(w) && w@ == msg@
            + " -- do not commit like this!"@),
{
    if !ccx.do_not_commit_warning_issued {
        ccx.do_not_commit_warning_issued = true;
        let mut w = msg.to_owned();
        w.append(" -- do not commit like this!");
        Some(w)
    } else {
        None
    }
}

/// Counters that the code generator keeps about its work.
pub struct Stats {
    pub n_static_tydescs: usize,
    pub n_glues_created: usize,
    pub n_null_glues: usize,
    pub n_real_glues: usize,
    pub n_fns: usize,
    pub n_monos: usize,
    pub n_inlines: usize,
    pub n_closures: usize,
    /// Instruction counts by name.
    pub llvm_insns: Vec<(String, usize)>,
    /// (identifier, time) of each function.
    pub fn_times: Vec<(String, isize)>,
}

// ---------------------------------------------------------------------
// Cleanup scopes
// ---------------------------------------------------------------------

/// A backend value.
#[derive(Clone, Copy, Debug, PartialEq, Eq)]
pub struct ValueRef(pub usize);

/// A backend basic block.
#[derive(Clone, Copy, Debug, PartialEq, Eq)]
pub struct BasicBlockRef(pub usize);

/// A type of the program.
#[derive(Clone, Copy, Debug, PartialEq, Eq)]
pub struct TyId(pub usize);

/// The key of a rooted `@mut` box: the expression and its autoderef count.
#[derive(Clone, Copy, Debug, PartialEq, Eq)]
pub struct RootMapKey {
    pub id: u32,
    pub derefs: u32,
}

/// The code that a cleanup runs.
#[derive(Clone, Copy, Debug, PartialEq, Eq)]
pub enum CleanupAction {
    /// The drop glue of a value of the type, in memory.
    DropTy(ValueRef, TyId),
    /// The drop glue of an immediate value of the type.
    DropTyImmediate(ValueRef, TyId),
    /// Frees a managed box.
    TransFree(ValueRef),
    /// Frees an exchange-heap box.
    TransExchangeFree(ValueRef),
    /// Returns a frozen `@mut` box to mutability.
    ReturnToMut {
        root_key: RootMapKey,
        frozen_val_ref: ValueRef,
        bits_val_ref: ValueRef,
        filename_val: ValueRef,
        line_val: ValueRef,
    },
}

/// A cleanup of a scope: one for a variable, or one for a temporary
/// value that can be revoked.
#[allow(non_camel_case_types)]
#[derive(Clone, Copy, Debug, PartialEq, Eq)]
pub enum cleanup {
    clean(CleanupAction, cleantype),
    clean_temp(ValueRef, CleanupAction, cleantype),
}

/// A cleanup path that can be reused: it runs the first `size` cleanups
/// of the scope, then goes to `target` (resumes unwinding when `None`);
/// `dest` is where it starts.
#[allow(non_camel_case_types)]
#[derive(Clone, Copy, Debug, PartialEq, Eq)]
pub struct cleanup_path {
    pub target: Option<BasicBlockRef>,
    pub size: usize,
    pub dest: BasicBlockRef,
}

/// A scope with cleanups: the block a `break` leaves to and its label,
/// the cleanups to run when leaving it, the cleanup paths built so far,
/// and the landing pad for unwinding.
#[allow(non_camel_case_types)]
pub struct scope_info {
    pub loop_break: Option<usize>,
    pub loop_label: Option<u32>,
    pub cleanups: Vec<cleanup>,
    pub cleanup_paths: Vec<cleanup_path>,
    pub landing_pad: Option<BasicBlockRef>,
}

impl scope_info {
    /// Whether the scope has no cleanups.
    pub fn empty_cleanups(&mut self) -> (r: bool)
        ensures
            r == (old(self).cleanups@.len() == 0),
            *final(self) == *old(self),
    {
        self.cleanups.len() == 0
    }
}

/// The cleanup paths that run at most `size` cleanups: the leading ones
/// up to the first that runs more.
pub open spec fn paths_within(paths: Seq<cleanup_path>, size: usize) -> Seq<cleanup_path>
    decreases paths.len(),
{
    if paths.len() == 0 || paths[0].size > size {
        Seq::empty()
    } else {
        seq![paths[0]] + paths_within(paths.drop_first(), size)
    }
}

/// Forgets the landing pad and the cleanup paths that run more than
/// `size` cleanups, once the scope has fewer cleanups.
pub fn shrink_scope_clean(scope_info: &mut scope_info, size: usize)
    ensures
        final(scope_info).landing_pad is None,
        final(scope_info).cleanup_paths@ == paths_within(old(scope_info).cleanup_paths@, size),
        final(scope_info).cleanups@ == old(scope_info).cleanups@,
        final(scope_info).loop_break == old(scope_info).loop_break,
        final(scope_info).loop_label == old(scope_info).loop_label,
{
    scope_info.landing_pad = None;
    let ghost paths = scope_info.cleanup_paths@;
    let mut kept: Vec<cleanup_path> = Vec::new();
    let mut i: usize = 0;
    assert(paths.subrange(0, paths.len() as int) =~= paths);
    while i < scope_info.cleanup_paths.len() && scope_info.cleanup_paths[i].size <= size
        invariant
            i <= paths.len(),
            paths == scope_info.cleanup_paths@,
            kept@ + paths_within(paths.subrange(i as int, paths.len() as int), size) == paths_within(paths, size),
        decreases paths.len() - i,
    {
        proof {
            let rest = paths.subrange(i as int, paths.len() as int);
            assert(rest[0] == paths[i as int]);
            assert(rest.drop_first() =~= paths.subrange(i + 1, paths.len() as int));
        }
        kept.push(scope_info.cleanup_paths[i]);
        i = i + 1;
        assert(kept@ + paths_within(paths.subrange(i as int, paths.len() as int), size) =~= paths_within(paths, size));
    }
    proof {
        let rest = paths.subrange(i as int, paths.len() as int);
        if i < paths.len() {
            assert(rest[0] == paths[i as int]);
        }
        assert(paths_within(rest, size) =~= Seq::<cleanup_path>::empty());
        assert(kept@ =~= paths_within(paths, size));
    }
    scope_info.cleanup_paths = kept;
}

/// Forgets the landing pad, once the scope has more cleanups.
pub fn grow_scope_clean(scope_info: &mut scope_info)
    ensures
        final(scope_info).landing_pad is None,
        final(scope_info).cleanup_paths@ == old(scope_info).cleanup_paths@,
        final(scope_info).cleanups@ == old(scope_info).cleanups@,
        final(scope_info).loop_break == old(scope_info).loop_break,
        final(scope_info).loop_label == old(scope_info).loop_label,
{
    scope_info.landing_pad = None;
}

/// Adds a cleanup to a scope and forgets its landing pad.
fn push_cleanup(scope_info: &mut scope_info, c: cleanup)
    ensures
        final(scope_info).landing_pad is None,
        final(scope_info).cleanup_paths@ == old(scope_info).cleanup_paths@,
        final(scope_info).cleanups@ == old(scope_info).cleanups@.push(c),
        final(scope_info).loop_break == old(scope_info).loop_break,
        final(scope_info).loop_label == old(scope_info).loop_label,
{
    scope_info.cleanups.push(c);
    grow_scope_clean(scope_info);
}

/// What adding a cleanup does to a scope: the cleanup is pushed and the
/// landing pad forgotten.
pub open spec fn added(old_scope: scope_info, new_scope: scope_info, c: cleanup) -> bool {
    &&& new_scope.landing_pad is None
    &&& new_scope.cleanup_paths@ == old_scope.cleanup_paths@
    &&& new_scope.cleanups@ == old_scope.cleanups@.push(c)
    &&& new_scope.loop_break == old_scope.loop_break
    &&& new_scope.loop_label == old_scope.loop_label
}

/// Schedules the drop glue of a variable `val` of type `t` when the scope
/// ends, if the type needs dropping (`needs_drop`); the cleanup also runs
/// while unwinding when the type needs it (`needs_unwind_cleanup`).
pub fn add_clean(scope_info: &mut scope_info, val: ValueRef, t: TyId, needs_drop: bool, needs_unwind_cleanup: bool)
    ensures
        !needs_drop ==> *final(scope_info) == *old(scope_info),
        needs_drop ==> added(*old(scope_info), *final(scope_info), cleanup::clean(
            CleanupAction::DropTy(val, t),
            if needs_unwind_cleanup { cleantype::normal_exit_and_unwind } else { cleantype::normal_exit_only },
        )),
{
    if !needs_drop {
        return;
    }
    let ct = cleanup_type(needs_unwind_cleanup);
    push_cleanup(scope_info, cleanup::clean(CleanupAction::DropTy(val, t), ct));
}

/// Schedules the drop glue of the immediate temporary `val`, if its type
/// needs dropping; the cleanup can be revoked.
pub fn add_clean_temp_immediate(
    scope_info: &mut scope_info,
    val: ValueRef,
    ty: TyId,
    needs_drop: bool,
    needs_unwind_cleanup: bool,
)
    ensures
        !needs_drop ==> *final(scope_info) == *old(scope_info),
        needs_drop ==> added(*old(scope_info), *final(scope_info), cleanup::clean_temp(
            val,
            CleanupAction::DropTyImmediate(val, ty),
            if needs_unwind_cleanup { cleantype::normal_exit_and_unwind } else { cleantype::normal_exit_only },
        )),
{
    if !needs_drop {
        return;
    }
    let ct = cleanup_type(needs_unwind_cleanup);
    push_cleanup(scope_info, cleanup::clean_temp(val, CleanupAction::DropTyImmediate(val, ty), ct));
}

/// Schedules the drop glue of the temporary `val` in memory, if its type
/// needs dropping; the cleanup can be revoked.
pub fn add_clean_temp_mem(scope_info: &mut scope_info, val: ValueRef, t: TyId, needs_drop: bool, needs_unwind_cleanup: bool)
    ensures
        !needs_drop ==> *final(scope_info) == *old(scope_info),
        needs_drop ==> added(*old(scope_info), *final(scope_info), cleanup::clean_temp(
            val,
            CleanupAction::DropTy(val, t),
            if needs_unwind_cleanup { cleantype::normal_exit_and_unwind } else { cleantype::normal_exit_only },
        )),
{
    if !needs_drop {
        return;
    }
    let ct = cleanup_type(needs_unwind_cleanup);
    push_cleanup(scope_info, cleanup::clean_temp(val, CleanupAction::DropTy(val, t), ct));
}

/// Schedules the return of a frozen `@mut` box to mutability when the
/// scope ends normally.
pub fn add_clean_return_to_mut(
    scope_info: &mut scope_info,
    root_key: RootMapKey,
    frozen_val_ref: ValueRef,
    bits_val_ref: ValueRef,
    filename_val: ValueRef,
    line_val: ValueRef,
)
    ensures
        added(*old(scope_info), *final(scope_info), cleanup::clean_temp(
            frozen_val_ref,
            CleanupAction::ReturnToMut { root_key, frozen_val_ref, bits_val_ref, filename_val, line_val },
            cleantype::normal_exit_only,
        )),
{
    push_cleanup(
        scope_info,
        cleanup::clean_temp(
            frozen_val_ref,
            CleanupAction::ReturnToMut { root_key, frozen_val_ref, bits_val_ref, filename_val, line_val },
            cleantype::normal_exit_only,
        ),
    );
}

/// Schedules freeing the box `ptr` on the given heap, also while
/// unwinding.
pub fn add_clean_free(scope_info: &mut scope_info, ptr: ValueRef, heap: heap)
    ensures
        added(*old(scope_info), *final(scope_info), cleanup::clean_temp(
            ptr,
            match heap {
                heap::heap_managed | heap::heap_managed_unique => CleanupAction::TransFree(ptr),
                heap::heap_exchange => CleanupAction::TransExchangeFree(ptr),
            },
            cleantype::normal_exit_and_unwind,
        )),
{
    let free_fn = match heap {
        heap::heap_managed | heap::heap_managed_unique => CleanupAction::TransFree(ptr),
        heap::heap_exchange => CleanupAction::TransExchangeFree(ptr),
    };
    push_cleanup(scope_info, cleanup::clean_temp(ptr, free_fn, cleantype::normal_exit_and_unwind));
}

/// Whether a cleanup is the revocable cleanup of `val`.
pub open spec fn is_temp_of(c: cleanup, val: ValueRef) -> bool {
    c matches cleanup::clean_temp(v, _, _) && v == val
}

/// The first revocable cleanup of `val`, if there is one.
pub open spec fn first_temp_of(cs: Seq<cleanup>, val: ValueRef, i: int) -> bool {
    &&& 0 <= i < cs.len()
    &&& is_temp_of(cs[i], val)
    &&& forall|j: int| 0 <= j < i ==> !is_temp_of(#[trigger] cs[j], val)
}

/// Revokes the cleanup of the temporary `val`: its first revocable
/// cleanup is removed, and the cleanup paths that ran it or any later one
/// are forgotten with the landing pad. Nothing happens without one.
pub fn revoke_clean(scope_info: &mut scope_info, val: ValueRef)
    ensures
        (forall|i: int| !first_temp_of(old(scope_info).cleanups@, val, i)) ==> *final(scope_info) == *old(scope_info),
        forall|i: int| first_temp_of(old(scope_info).cleanups@, val, i) ==> {
            &&& final(scope_info).cleanups@ == old(scope_info).cleanups@.remove(i)
            &&& final(scope_info).landing_pad is None
            &&& final(scope_info).cleanup_paths@ == paths_within(old(scope_info).cleanup_paths@, i as usize)
            &&& final(scope_info).loop_break == old(scope_info).loop_break
            &&& final(scope_info).loop_label == old(scope_info).loop_label
        },
{
    let ghost cs = scope_info.cleanups@;
    let mut i: usize = 0;
    while i < scope_info.cleanups.len()
        invariant
            i <= cs.len(),
            cs == scope_info.cleanups@,
            *scope_info == *old(scope_info),
            forall|j: int| 0 <= j < i ==> !is_temp_of(#[trigger] cs[j], val),
        decreases cs.len() - i,
    {
        let found = match scope_info.cleanups[i] {
            cleanup::clean_temp(v, _, _) => v.0 == val.0,
            _ => false,
        };
        if found {
            assert(first_temp_of(cs, val, i as int));
            proof {
                assert forall|k: int| first_temp_of(cs, val, k) implies k == i by {
                    if k < i {
                        assert(!is_temp_of(cs[k], val));
                    } else if k > i {
                        assert(!is_temp_of(cs[i as int], val));
                    }
                }
            }
            scope_info.cleanups.remove(i);
            shrink_scope_clean(scope_info, i);
            return;
        }
        i = i + 1;
    }
    assert forall|k: int| !first_temp_of(cs, val, k) by {
        if 0 <= k < cs.len() {
            assert(!is_temp_of(cs[k], val));
        }
    }
}

/// Revoking the cleanup of a temporary just added undoes the addition,
/// when the scope had no revocable cleanup of it before.
pub proof fn law_revoke_undoes_add(cs: Seq<cleanup>, val: ValueRef, action: CleanupAction, ct: cleantype)
    requires
        forall|j: int| 0 <= j < cs.len() ==> !is_temp_of(#[trigger] cs[j], val),
    ensures
        first_temp_of(cs.push(cleanup::clean_temp(val, action, ct)), val, cs.len() as int),
        cs.push(cleanup::clean_temp(val, action, ct)).remove(cs.len() as int) == cs,
{
    let pushed = cs.push(cleanup::clean_temp(val, action, ct));
    assert forall|j: int| 0 <= j < cs.len() implies !is_temp_of(#[trigger] pushed[j], val) by {
        assert(pushed[j] == cs[j]);
    }
    assert(pushed.remove(cs.len() as int) =~= cs);
}

/// The kind of a block: a scope with cleanups, or a block made only to
/// translate control flow.
#[allow(non_camel_case_types)]
pub enum block_kind {
    block_scope(scope_info),
    block_non_scope,
}

/// The cleanups of a block: those of its scope, none for a non-scope
/// block.
pub fn block_cleanups(kind: &block_kind) -> (r: Vec<cleanup>)
    ensures
        r@ == match kind {
            block_kind::block_scope(inf) => inf.cleanups@,
            block_kind::block_non_scope => Seq::empty(),
        },
{
    match kind {
        block_kind::block_non_scope => Vec::new(),
        block_kind::block_scope(inf) => {
            let mut r: Vec<cleanup> = Vec::new();
            let mut i: usize = 0;
            while i < inf.cleanups.len()
                invariant
                    i <= inf.cleanups@.len(),
                    r@ == inf.cleanups@.subrange(0, i as int),
                decreases inf.cleanups@.len() - i,
            {
                r.push(inf.cleanups[i]);
                i = i + 1;
                assert(r@ =~= inf.cleanups@.subrange(0, i as int));
            }
            assert(inf.cleanups@.subrange(0, i as int) =~= inf.cleanups@);
            r
        },
    }
}

/// One element of an item's path: a module or a name, by its text.
#[allow(non_camel_case_types)]
pub enum path_elt {
    path_mod(String),
    path_name(String),
}

/// The text of a path element.
pub open spec fn path_elt_text(e: path_elt) -> Seq<char> {
    match e {
        path_elt::path_mod(s) => s@,
        path_elt::path_name(s) => s@,
    }
}

/// The texts of a path's elements joined by `::`.
pub open spec fn path_text(p: Seq<path_elt>) -> Seq<char>
    decreases p.len(),
{
    if p.len() == 0 {
        Seq::empty()
    } else if p.len() == 1 {
        path_elt_text(p[0])
    } else {
        path_text(p.drop_last()) + "::"@ + path_elt_text(p.last())
    }
}

/// A path as text: its elements joined by `::`.
pub fn path_str(p: &Vec<path_elt>) -> (r: String)
    ensures
        r@ == path_text(p@),
{
    let mut r: Vec<char> = Vec::new();
    let sep = crate::strings::chars_of("::");
    let mut i: usize = 0;
    assert(p@.subrange(0, 0) =~= Seq::<path_elt>::empty());
    while i < p.len()
        invariant
            i <= p@.len(),
            sep@ == "::"@,
            r@ == path_text(p@.subrange(0, i as int)),
        decreases p@.len() - i,
    {
        let name = match &p[i] {
            path_elt::path_mod(s) => s,
            path_elt::path_name(s) => s,
        };
        let ghost before = r@;
        if i > 0 {
            let mut j: usize = 0;
            while j < sep.len()
                invariant
                    j <= sep@.len(),
                    r@ == before + sep@.subrange(0, j as int),
                decreases sep@.len() - j,
            {
                r.push(sep[j]);
                j = j + 1;
                assert(r@ =~= before + sep@.subrange(0, j as int));
            }
            assert(sep@.subrange(0, sep@.len() as int) =~= sep@);
        }
        let ghost mid = r@;
        let cs = crate::strings::chars_of(name.as_str());
        let mut k: usize = 0;
        while k < cs.len()
            invariant
                k <= cs@.len(),
                r@ == mid + cs@.subrange(0, k as int),
            decreases cs@.len() - k,
        {
            r.push(cs[k]);
            k = k + 1;
            assert(r@ =~= mid + cs@.subrange(0, k as int));
        }
        proof {
            assert(cs@.subrange(0, cs@.len() as int) =~= cs@);
            assert(cs@ == path_elt_text(p@[i as int]));
            let next = p@.subrange(0, i + 1);
            assert(next.drop_last() =~= p@.subrange(0, i as int));
            assert(next.last() == p@[i as int]);
            if i == 0 {
                assert(next.len() == 1);
                assert(r@ =~= path_text(next));
            } else {
                assert(r@ =~= path_text(next));
            }
        }
        i = i + 1;
    }
    assert(p@.subrange(0, i as int) =~= p@);
    crate::strings::string_of(&r)
}

} // verus!
