//! Verified pieces of a compiler toolchain: the ISAAC random number
//! generators, the printable-character tables, the RBML variable-length
//! integer encoding, an LRU cache, string search (the Two-Way substring
//! searcher and character searchers) with the string operations built on
//! it, the outlives components of a type, the coherence orphan rules, least
//! upper bounds of regions, the region errors found after expansion and
//! member constraints, vtable resolution, the
//! save-analysis signatures of items and types, and the lint
//! bookkeeping of a linter's developer tooling and its lint list.

pub mod isaac;
pub mod isaac64;
pub mod printable;
pub mod unicode;
pub mod rbml;
pub mod trans;
pub mod mir;
pub mod panic_unimplemented;
mod strings;
pub mod lru_cache;
pub mod update_lints;
pub mod lint_metadata;
pub mod lint_list;
pub mod past_names;
pub mod pattern;
pub mod char_pattern;
pub mod lint_source;
pub mod rename_lint;
pub mod str_ops;
pub mod outlives;
pub mod coherence;
pub mod target;
pub mod borrowck_errors;
pub mod sig;
pub mod lexical_region_resolve;
pub mod region_errors;
pub mod member_constraints;
pub mod vtables;
pub mod provided_methods;
mod text_order;
