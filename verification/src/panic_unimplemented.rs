//! The linter pass that reports `panic!`, `todo!`, `unimplemented!` and
//! `unreachable!` in production code.

use vstd::prelude::*;
use crate::strings::str_eq;

verus! {

/// The lints that this pass emits.
#[derive(Clone, Copy, PartialEq, Eq, Debug)]
pub enum PanicLint {
    Panic,
    Todo,
    Unimplemented,
    Unreachable,
}

impl PanicLint {
    /// The message that the lint is reported with.
    pub fn message(&self) -> (r: &'static str)
        ensures
            r@ == (match self {
                PanicLint::Panic => "`panic` should not be present in production code"@,
                PanicLint::Todo => "`todo` should not be present in production code"@,
                PanicLint::Unimplemented => "`unimplemented` should not be present in production code"@,
                PanicLint::Unreachable => "usage of the `unreachable!` macro"@,
            }),
    {
        match self {
            PanicLint::Panic => "`panic` should not be present in production code",
            PanicLint::Todo => "`todo` should not be present in production code",
            PanicLint::Unimplemented => "`unimplemented` should not be present in production code",
            PanicLint::Unreachable => "usage of the `unreachable!` macro",
        }
    }
}

/// The configuration of the pass.
#[derive(Clone, Copy, Debug)]
pub struct PanicUnimplemented {
    /// Whether panics inside tests are allowed.
    pub allow_panic_in_tests: bool,
}

/// The lint reported for a macro call: a panic outside constant contexts
/// (and outside tests, where they are allowed); `todo`, `unimplemented`
/// and `unreachable` by name; nothing for other macros.
pub open spec fn panic_lint_for(
    allow_panic_in_tests: bool,
    is_panic: bool,
    in_const_context: bool,
    in_test: bool,
    macro_name: Seq<char>,
) -> Option<PanicLint> {
    if is_panic {
        if in_const_context || (allow_panic_in_tests && in_test) {
            None
        } else {
            Some(PanicLint::Panic)
        }
    } else if macro_name == "todo"@ {
        Some(PanicLint::Todo)
    } else if macro_name == "unimplemented"@ {
        Some(PanicLint::Unimplemented)
    } else if macro_name == "unreachable"@ {
        Some(PanicLint::Unreachable)
    } else {
        None
    }
}

impl PanicUnimplemented {
    /// Decides which lint, if any, a macro call gets: `is_panic` says
    /// whether the macro is one of the panic macros, `in_const_context`
    /// and `in_test` where the call stands, and `macro_name` the name of
    /// the macro.
    pub fn lint_for(
        &self,
        is_panic: bool,
        in_const_context: bool,
        in_test: bool,
        macro_name: &str,
    ) -> (r: Option<PanicLint>)
        ensures
            r == panic_lint_for(
                self.allow_panic_in_tests,
                is_panic,
                in_const_context,
                in_test,
                macro_name@,
            ),
    {
        if is_panic {
            if in_const_context || self.allow_panic_in_tests && in_test {
                return None;
            }
            return Some(PanicLint::Panic);
        }
        if str_eq(macro_name, "todo") {
            Some(PanicLint::Todo)
        } else if str_eq(macro_name, "unimplemented") {
            Some(PanicLint::Unimplemented)
        } else if str_eq(macro_name, "unreachable") {
            Some(PanicLint::Unreachable)
        } else {
            None
        }
    }
}

} // verus!
