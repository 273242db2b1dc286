# rustc_utils

Verified pieces of a compiler toolchain and of a linter's developer tooling,
written in Verus. Every function in `src/` carries a contract that Verus
proves; calls into outside crates go through a few small trusted wrappers,
each documented where it is declared.

## Layout

- `src/isaac.rs`, `src/isaac64.rs`: the ISAAC and ISAAC-64 generators as
  exact state machines.
- `src/printable.rs`, `src/unicode.rs`: the printable-character tables and a
  Unicode helper.
- `src/rbml.rs`: RBML tags and variable-length integers, and the encoder that
  back-patches tag sizes into a byte cursor.
- `src/lru_cache.rs`: an LRU cache over a view of entries in recency order.
- `src/pattern.rs`, `src/char_pattern.rs`, `src/str_ops.rs`: the Two-Way
  substring searcher, character searchers, and the string operations built on
  them (`replace`, `replacen`, `repeat`, `join`, ASCII case).
- `src/outlives.rs`: the components a type must outlive.
- `src/coherence.rs`, `src/provided_methods.rs`: the orphan rules for trait
  impls, the default methods an impl gets from its trait, and the check
  that records an impl among the impls of its traits or of its base type.
- `src/lexical_region_resolve.rs`, `src/region_errors.rs`,
  `src/member_constraints.rs`: region inference decisions: the least upper
  bound of two concrete regions over a scope tree and its laws, the rounds
  that expand the values of region variables, the errors reported once
  they are expanded (failed requirements, generic bounds,
  and the conflicts of error variables found by walking the constraint
  graph), and the application of a member constraint.
- `src/vtables.rs`: type substitution and the resolution of vtables under
  the type-parameter substitutions of generic code.
- `src/sig.rs`: save-analysis signatures of items, paths, types and generic
  parameters: their text and the byte ranges of the names they define and
  refer to.
- `src/trans.rs`, `src/mir.rs`, `src/borrowck_errors.rs`, `src/target.rs`:
  smaller decisions of the code generator and the MIR tooling, the borrow
  checker's error reports, and the x86_64 target strings.
- `src/update_lints.rs`, `src/lint_source.rs`, `src/rename_lint.rs`: the
  linter's lint registry files, generated from the lint declarations found in
  its sources, and the renaming of a lint.
- `src/lint_metadata.rs`, `src/lint_list.rs`, `src/past_names.rs`: the lint
  list for the website: documentation clean-up, example outputs,
  configuration sections, ordering, applicability and past names.
- `tests/`: tests of the library on concrete values.
- `app/`: the command-line tool around the library (file walking, reading and
  writing files).
