use rustc_utils::mir::{EvalContext, EvalError, Origin};
use rustc_utils::panic_unimplemented::{PanicLint, PanicUnimplemented};
use rustc_utils::trans::{
    cleantype, cleanup_type, mono_data_classify, warn_not_to_commit, ConstValue, CrateContext,
    LlType, MonoDataClass, TypeShape, Vstore, C_bool, C_i1, C_i32, C_i64, C_int, C_nil, C_u8,
    C_uint,
};

#[test]
fn step_limit() {
    let mut ecx = EvalContext { steps_remaining: 3 };
    assert_eq!(ecx.inc_step_counter_and_check_limit(1), Ok(()));
    assert_eq!(ecx.steps_remaining, 2);
    assert_eq!(
        ecx.inc_step_counter_and_check_limit(5),
        Err(EvalError::ExecutionTimeLimitReached)
    );
    assert_eq!(ecx.steps_remaining, 0);
}

#[test]
fn origin_suffix() {
    assert_eq!(Origin::Mir.suffix(None), " (Mir)");
    assert_eq!(Origin::Ast.suffix(None), "");
    assert_eq!(Origin::Ast.suffix(Some(false)), "");
    assert_eq!(Origin::Ast.suffix(Some(true)), " (Ast)");
}

#[test]
fn panic_lints() {
    let pass = PanicUnimplemented { allow_panic_in_tests: true };
    assert_eq!(pass.lint_for(true, false, false, "panic"), Some(PanicLint::Panic));
    assert_eq!(pass.lint_for(true, false, true, "panic"), None);
    assert_eq!(pass.lint_for(true, true, false, "panic"), None);
    let strict = PanicUnimplemented { allow_panic_in_tests: false };
    assert_eq!(strict.lint_for(true, false, true, "panic"), Some(PanicLint::Panic));
    assert_eq!(strict.lint_for(false, false, false, "todo"), Some(PanicLint::Todo));
    assert_eq!(strict.lint_for(false, false, false, "unimplemented"), Some(PanicLint::Unimplemented));
    assert_eq!(strict.lint_for(false, false, false, "unreachable"), Some(PanicLint::Unreachable));
    assert_eq!(strict.lint_for(false, false, false, "vec"), None);
    assert_eq!(PanicLint::Unreachable.message(), "usage of the `unreachable!` macro");
    assert_eq!(PanicLint::Todo.message(), "`todo` should not be present in production code");
}

#[test]
fn cleanup_and_classification() {
    assert_eq!(cleanup_type(true), cleantype::normal_exit_and_unwind);
    assert_eq!(cleanup_type(false), cleantype::normal_exit_only);
    assert_eq!(mono_data_classify(TypeShape::Float), MonoDataClass::MonoFloat);
    assert_eq!(mono_data_classify(TypeShape::Rptr), MonoDataClass::MonoNonNull);
    assert_eq!(mono_data_classify(TypeShape::Estr(Vstore::Uniq)), MonoDataClass::MonoNonNull);
    assert_eq!(mono_data_classify(TypeShape::Evec(Vstore::Box)), MonoDataClass::MonoNonNull);
    assert_eq!(mono_data_classify(TypeShape::Evec(Vstore::Slice)), MonoDataClass::MonoBits);
    assert_eq!(mono_data_classify(TypeShape::Estr(Vstore::Fixed(3))), MonoDataClass::MonoBits);
    assert_eq!(mono_data_classify(TypeShape::Other), MonoDataClass::MonoBits);
}

fn integral(c: ConstValue) -> (LlType, u64, bool) {
    match c {
        ConstValue::Integral { ty, value, sign_extend } => (ty, value, sign_extend),
        ConstValue::Struct(_) => panic!("not an integer"),
    }
}

#[test]
fn constants() {
    assert!(matches!(C_nil(), ConstValue::Struct(f) if f.is_empty()));
    assert_eq!(integral(C_bool(true)), (LlType::Bool, 1, false));
    assert_eq!(integral(C_i1(false)), (LlType::I1, 0, false));
    assert_eq!(integral(C_i32(-1)), (LlType::I32, u64::MAX, true));
    assert_eq!(integral(C_i64(-2)), (LlType::I64, u64::MAX - 1, true));
    assert_eq!(integral(C_u8(255)), (LlType::I8, 255, false));
    let cx = CrateContext { int_type: LlType::I64, do_not_commit_warning_issued: false };
    assert_eq!(integral(C_int(&cx, -3)), (LlType::I64, u64::MAX - 2, true));
    assert_eq!(integral(C_uint(&cx, 7)), (LlType::I64, 7, false));
}

#[test]
fn do_not_commit_warning_only_once() {
    let mut cx = CrateContext { int_type: LlType::I32, do_not_commit_warning_issued: false };
    assert_eq!(
        warn_not_to_commit(&mut cx, "debugging"),
        Some("debugging -- do not commit like this!".to_string())
    );
    assert_eq!(warn_not_to_commit(&mut cx, "again"), None);
    assert!(cx.do_not_commit_warning_issued);
}
