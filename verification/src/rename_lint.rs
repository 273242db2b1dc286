//! The decisions of renaming a lint: which names are accepted, which lint
//! is renamed, the new entry of the table of renamed lints and the order
//! of that table, and how the lint records change once files have been
//! moved.

use vstd::prelude::*;
use crate::strings::{chars_of, chars_range, str_eq, string_of, range_eq, str_slice, lemma_encode_concat};
use vstd::string::StringSliceAdditionalSpecFns;
use vstd::utf8::{encode_utf8, is_char_boundary, valid_utf8};
use crate::text_order::{text_le, text_lt, lemma_text_le_total, lemma_text_le_trans};
use crate::update_lints::{
    Lint, LintView, DeprecatedLint, RenamedLint, RenamedLintView, lint_views, renamed_views, uppercase,
    to_uppercase,
};

verus! {

/// Why a lint cannot be renamed.
#[derive(Clone, Debug, PartialEq, Eq)]
pub enum RenameError {
    /// The name (first) carries a path prefix (second).
    Prefixed(String, String),
    /// No lint has this name.
    NotFound(String),
    /// The lint has been renamed before.
    AlreadyRenamed(String),
    /// The lint has been deprecated.
    AlreadyDeprecated(String),
}

/// `s` has `::` at index `k`.
pub open spec fn sep_at(s: Seq<char>, k: int) -> bool {
    0 <= k && k + 1 < s.len() && s[k] == ':' && s[k + 1] == ':'
}

/// `s` has `::` somewhere.
pub open spec fn has_path_sep(s: Seq<char>) -> bool {
    exists|k: int| #[trigger] sep_at(s, k)
}

/// The first `::` of `s` is at index `k`.
pub open spec fn first_sep(s: Seq<char>, k: int) -> bool {
    sep_at(s, k) && forall|j: int| 0 <= j < k ==> !#[trigger] sep_at(s, j)
}

/// The text of `s` before its first `::`.
pub open spec fn prefix_before_sep(s: Seq<char>) -> Seq<char> {
    s.subrange(0, choose|k: int| first_sep(s, k))
}

/// The text before the first `::` of `s`, if it has one.
fn path_prefix(s: &str) -> (r: Option<String>)
    ensures
        match r {
            Some(p) => has_path_sep(s@) && p@ == prefix_before_sep(s@),
            None => !has_path_sep(s@),
        },
{
    let cs = chars_of(s);
    let n = cs.len();
    let mut k: usize = 0;
    while k < n && k + 1 < n
        invariant
            n == cs@.len(),
            cs@ == s@,
            k <= n,
            forall|j: int| 0 <= j < k ==> !#[trigger] sep_at(s@, j),
        decreases n - k,
    {
        if cs[k] == ':' && cs[k + 1] == ':' {
            let pre = chars_range(&cs, 0, k);
            proof {
                assert(sep_at(s@, k as int));
                assert(first_sep(s@, k as int));
                let c = choose|c: int| first_sep(s@, c);
                assert(first_sep(s@, c));
                if c < k {
                    assert(!sep_at(s@, c));
                } else if c > k {
                    assert(!sep_at(s@, k as int));
                }
                assert(c == k);
            }
            return Some(string_of(&pre));
        }
        k = k + 1;
    }
    proof {
        if has_path_sep(s@) {
            let w = choose|w: int| #[trigger] sep_at(s@, w);
            assert(w < k || w + 1 >= n);
        }
    }
    None
}

/// The names of a renaming carry no path prefix; otherwise the first
/// offending name, the old name before the new, and its text before the
/// first `::`.
pub fn check_rename_names(old_name: &str, new_name: &str) -> (r: Result<(), RenameError>)
    ensures
        r is Ok <==> !has_path_sep(old_name@) && !has_path_sep(new_name@),
        r matches Err(e) ==> e matches RenameError::Prefixed(name, prefix) && name@ == (if has_path_sep(
            old_name@,
        ) {
            old_name@
        } else {
            new_name@
        }) && prefix@ == prefix_before_sep(name@),
{
    if let Some(prefix) = path_prefix(old_name) {
        return Err(RenameError::Prefixed(String::from_str(old_name), prefix));
    }
    if let Some(prefix) = path_prefix(new_name) {
        return Err(RenameError::Prefixed(String::from_str(new_name), prefix));
    }
    Ok(())
}

/// `"clippy::"` followed by `name`.
pub open spec fn clippy_path(name: Seq<char>) -> Seq<char> {
    "clippy::"@ + name
}

/// The index of the last lint named `name` among `lints`, if any.
pub open spec fn last_named(lints: Seq<LintView>, name: Seq<char>) -> Option<int>
    decreases lints.len(),
{
    if lints.len() == 0 {
        None
    } else if lints.last().name == name {
        Some(lints.len() - 1)
    } else {
        last_named(lints.drop_last(), name)
    }
}

/// Whether a lint other than the last one named `old` is named `new`
/// before the scan meets it; that is, some lint named `new` but not `old`.
pub open spec fn has_other_named(lints: Seq<LintView>, old: Seq<char>, new: Seq<char>) -> bool {
    exists|i: int| 0 <= i < lints.len() && lints[i].name != old && #[trigger] lints[i].name == new
}

/// The entry renames the lint within the linter: its new name carries the
/// linter's path.
pub open spec fn stays_in_linter(l: RenamedLintView) -> bool {
    l.new_name.len() >= 8 && l.new_name.subrange(0, 8) == "clippy::"@
}

/// `a` goes strictly before `b` in the table of renamed lints: renamings
/// within the linter first, then by old name.
pub open spec fn table_before(a: RenamedLintView, b: RenamedLintView) -> bool {
    if stays_in_linter(a) != stays_in_linter(b) {
        stays_in_linter(a)
    } else {
        !text_le(b.old_name, a.old_name)
    }
}

/// `x` inserted into the table `t`: after every entry that does not go
/// after it.
pub open spec fn insert_entry(t: Seq<RenamedLintView>, x: RenamedLintView) -> Seq<RenamedLintView>
    decreases t.len(),
{
    if t.len() == 0 || !table_before(x, t.last()) {
        t.push(x)
    } else {
        insert_entry(t.drop_last(), x).push(t.last())
    }
}

/// The entries in the order of the table, entries that tie keeping their
/// order: each is inserted in turn.
pub open spec fn table_order(s: Seq<RenamedLintView>) -> Seq<RenamedLintView>
    decreases s.len(),
{
    if s.len() == 0 {
        seq![]
    } else {
        insert_entry(table_order(s.drop_last()), s.last())
    }
}

/// No entry of `t` goes before an earlier one.
pub open spec fn table_sorted(t: Seq<RenamedLintView>) -> bool {
    forall|i: int, j: int| 0 <= i < j < t.len() ==> !#[trigger] table_before(t[j], t[i])
}

/// `table_before` orders like a strict weak order: not going before is
/// transitive.
proof fn lemma_not_before_trans(a: RenamedLintView, b: RenamedLintView, c: RenamedLintView)
    ensures
        !table_before(a, b) && !table_before(b, c) ==> !table_before(a, c),
        table_before(a, b) ==> !table_before(b, a),
{
    lemma_text_le_total(a.old_name, b.old_name);
    lemma_text_le_total(b.old_name, c.old_name);
    lemma_text_le_total(a.old_name, c.old_name);
    lemma_text_le_trans(c.old_name, b.old_name, a.old_name);
    lemma_text_le_trans(a.old_name, b.old_name, c.old_name);
}

/// Inserting into a sorted table keeps it sorted, and adds the entry to
/// what the table holds.
proof fn lemma_insert_entry(t: Seq<RenamedLintView>, x: RenamedLintView)
    requires
        table_sorted(t),
    ensures
        table_sorted(insert_entry(t, x)),
        insert_entry(t, x).to_multiset() == t.to_multiset().insert(x),
        insert_entry(t, x).len() == t.len() + 1,
    decreases t.len(),
{
    if t.len() == 0 || !table_before(x, t.last()) {
        vstd::seq_lib::to_multiset_build(t, x);
        assert forall|i: int, j: int| 0 <= i < j < t.push(x).len() implies !#[trigger] table_before(t.push(x)[j], t.push(x)[i]) by {
            if j == t.len() {
                lemma_not_before_trans(x, t.last(), t[i]);
            }
        }
    } else {
        let t0 = t.drop_last();
        let l = t.last();
        assert(table_sorted(t0));
        lemma_insert_entry(t0, x);
        let u = insert_entry(t0, x);
        vstd::seq_lib::to_multiset_build(u, l);
        vstd::seq_lib::to_multiset_build(t0, l);
        assert(t0.push(l) =~= t);
        assert forall|i: int, j: int| 0 <= i < j < u.push(l).len() implies !#[trigger] table_before(u.push(l)[j], u.push(l)[i]) by {
            if j == u.len() {
                let e = u[i];
                assert(u.to_multiset().count(e) > 0) by {
                    vstd::seq_lib::to_multiset_contains(u, e);
                    assert(u.contains(e));
                }
                assert(t0.to_multiset().insert(x).count(e) > 0);
                if e != x {
                    assert(t0.to_multiset().count(e) > 0);
                    vstd::seq_lib::to_multiset_contains(t0, e);
                    let k = choose|k: int| 0 <= k < t0.len() && t0[k] == e;
                    assert(!table_before(t[t.len() - 1], t[k]));
                } else {
                    lemma_not_before_trans(x, l, x);
                }
            }
        }
        assert(t0.to_multiset().insert(x).insert(l) =~= t0.to_multiset().insert(l).insert(x));
    }
}

/// Law: the table of renamed lints is sorted, and holds the same entries
/// as the list it is made from.
pub proof fn law_table_order(s: Seq<RenamedLintView>)
    ensures
        table_sorted(table_order(s)),
        table_order(s).to_multiset() == s.to_multiset(),
    decreases s.len(),
{
    if s.len() == 0 {
        assert(table_order(s) =~= Seq::<RenamedLintView>::empty());
        assert(s =~= Seq::<RenamedLintView>::empty());
    } else {
        law_table_order(s.drop_last());
        lemma_insert_entry(table_order(s.drop_last()), s.last());
        vstd::seq_lib::to_multiset_build(s.drop_last(), s.last());
        assert(s.drop_last().push(s.last()) =~= s);
    }
}

/// Where `x` goes before the entries from `j` on and not before the one at
/// `j - 1`, inserting it puts it at `j`.
proof fn lemma_insert_at(t: Seq<RenamedLintView>, x: RenamedLintView, j: int)
    requires
        0 <= j <= t.len(),
        forall|k: int| j <= k < t.len() ==> #[trigger] table_before(x, t[k]),
        j == 0 || !table_before(x, t[j - 1]),
    ensures
        insert_entry(t, x) == t.insert(j, x),
    decreases t.len(),
{
    if j == t.len() {
        assert(t.push(x) =~= t.insert(j, x));
    } else {
        assert(table_before(x, t[t.len() - 1]));
        lemma_insert_at(t.drop_last(), x, j);
        assert(t.drop_last().insert(j, x).push(t.last()) =~= t.insert(j, x));
    }
}

/// The plan of a renaming: the lint renamed, whether the new name is
/// taken, the new entry of the table of renamed lints, and the new table.
pub struct RenamePlan {
    pub old_index: usize,
    pub found_new_name: bool,
    pub entry: RenamedLint,
    pub renamed: Vec<RenamedLint>,
}

/// The renamed-lint entry of a renaming: the old name within the linter,
/// and the new name within it too unless the lint moves to the compiler.
pub open spec fn rename_entry(old_name: Seq<char>, new_name: Seq<char>, uplift: bool) -> RenamedLintView {
    RenamedLintView {
        old_name: clippy_path(old_name),
        new_name: if uplift { new_name } else { clippy_path(new_name) },
    }
}

/// Plans the renaming of the lint `old_name` to `new_name`: the last lint
/// of that name is the one renamed; the renaming is refused when no lint
/// has the name, or when the table of renamed lints already has the old
/// name, or a deprecated lint is named like the entry's old name. The new
/// table is the old one with the entry added, in the order of the table
/// (see `table_order`).
pub fn plan_rename(
    old_name: &str,
    new_name: &str,
    uplift: bool,
    lints: &[Lint],
    deprecated_lints: &[DeprecatedLint],
    renamed_lints: &[RenamedLint],
) -> (r: Result<RenamePlan, RenameError>)
    ensures
        ({
            let lv = lint_views(lints@);
            let entry = rename_entry(old_name@, new_name@, uplift);
            match last_named(lv, old_name@) {
                None => r matches Err(RenameError::NotFound(n)) && n@ == old_name@,
                Some(i) => if exists|k: int| 0 <= k < renamed_lints@.len() && #[trigger] renamed_lints@[k].old_name@ == entry.old_name {
                    r matches Err(RenameError::AlreadyRenamed(n)) && n@ == old_name@
                } else if exists|k: int| 0 <= k < deprecated_lints@.len() && #[trigger] deprecated_lints@[k].name@ == entry.old_name {
                    r matches Err(RenameError::AlreadyDeprecated(n)) && n@ == old_name@
                } else {
                    r matches Ok(plan) && {
                        &&& plan.old_index == i
                        &&& plan.found_new_name == has_other_named(lv, old_name@, new_name@)
                        &&& plan.entry@ == entry
                        &&& renamed_views(plan.renamed@) == table_order(renamed_views(renamed_lints@).push(entry))
                    }
                },
            }
        }),
{
    let ghost lv = lint_views(lints@);
    let mut old_lint_index: Option<usize> = None;
    let mut found_new_name = false;
    let mut i: usize = 0;
    while i < lints.len()
        invariant
            i <= lints@.len(),
            lv == lint_views(lints@),
            old_lint_index == match last_named(lv.subrange(0, i as int), old_name@) {
                Some(j) => Some(j as usize),
                None => None::<usize>,
            },
            last_named(lv.subrange(0, i as int), old_name@) matches Some(j) ==> 0 <= j < i,
            found_new_name == has_other_named(lv.subrange(0, i as int), old_name@, new_name@),
        decreases lints@.len() - i,
    {
        let ghost pre = lv.subrange(0, i + 1);
        assert(pre.drop_last() =~= lv.subrange(0, i as int));
        assert(pre.last() == lints@[i as int]@);
        if str_eq(lints[i].name.as_str(), old_name) {
            old_lint_index = Some(i);
        } else if str_eq(lints[i].name.as_str(), new_name) {
            found_new_name = true;
            assert(pre[i as int].name == new_name@);
        }
        proof {
            assert forall|k: int| 0 <= k < pre.len() implies (pre[k].name != old_name@ && #[trigger] pre[k].name == new_name@) == (
                (k < i && lv.subrange(0, i as int)[k].name != old_name@ && lv.subrange(0, i as int)[k].name == new_name@)
                || (k == i && lints@[i as int]@.name != old_name@ && lints@[i as int]@.name == new_name@)) by {
                if k < i {
                    assert(pre[k] == lv.subrange(0, i as int)[k]);
                }
            }
        }
        i = i + 1;
    }
    assert(lv.subrange(0, i as int) =~= lv);
    let old_index = match old_lint_index {
        Some(idx) => idx,
        None => {
            return Err(RenameError::NotFound(String::from_str(old_name)));
        },
    };
    let clippy = chars_of("clippy::");
    let entry_old = prefixed(&clippy, old_name);
    let entry_new = if uplift {
        String::from_str(new_name)
    } else {
        prefixed(&clippy, new_name)
    };
    let entry = RenamedLint { old_name: entry_old, new_name: entry_new };
    let mut k: usize = 0;
    while k < renamed_lints.len()
        invariant
            k <= renamed_lints@.len(),
            entry@ == rename_entry(old_name@, new_name@, uplift),
            lv == lint_views(lints@),
            last_named(lv, old_name@) == Some(old_index as int),
            found_new_name == has_other_named(lv, old_name@, new_name@),
            forall|j: int| 0 <= j < k ==> #[trigger] renamed_lints@[j].old_name@ != entry@.old_name,
        decreases renamed_lints@.len() - k,
    {
        if str_eq(entry.old_name.as_str(), renamed_lints[k].old_name.as_str()) {
            assert(renamed_lints@[k as int].old_name@ == entry@.old_name);
            return Err(RenameError::AlreadyRenamed(String::from_str(old_name)));
        }
        k = k + 1;
    }
    let mut k: usize = 0;
    while k < deprecated_lints.len()
        invariant
            k <= deprecated_lints@.len(),
            entry@ == rename_entry(old_name@, new_name@, uplift),
            lv == lint_views(lints@),
            last_named(lv, old_name@) == Some(old_index as int),
            found_new_name == has_other_named(lv, old_name@, new_name@),
            forall|j: int| 0 <= j < renamed_lints@.len() ==> #[trigger] renamed_lints@[j].old_name@ != entry@.old_name,
            forall|j: int| 0 <= j < k ==> #[trigger] deprecated_lints@[j].name@ != entry@.old_name,
        decreases deprecated_lints@.len() - k,
    {
        if str_eq(entry.old_name.as_str(), deprecated_lints[k].name.as_str()) {
            assert(deprecated_lints@[k as int].name@ == entry@.old_name);
            return Err(RenameError::AlreadyDeprecated(String::from_str(old_name)));
        }
        k = k + 1;
    }
    let renamed = sorted_table(renamed_lints, &entry);
    Ok(RenamePlan { old_index, found_new_name, entry, renamed })
}

/// `prefix` followed by `s`.
fn prefixed(prefix: &Vec<char>, s: &str) -> (r: String)
    ensures
        r@ == prefix@ + s@,
{
    let mut cs: Vec<char> = Vec::new();
    let mut i: usize = 0;
    while i < prefix.len()
        invariant
            i <= prefix@.len(),
            cs@ == prefix@.subrange(0, i as int),
        decreases prefix@.len() - i,
    {
        cs.push(prefix[i]);
        i = i + 1;
        assert(cs@ =~= prefix@.subrange(0, i as int));
    }
    let rest = chars_of(s);
    let mut j: usize = 0;
    while j < rest.len()
        invariant
            j <= rest@.len(),
            i == prefix@.len(),
            cs@ == prefix@.subrange(0, i as int) + rest@.subrange(0, j as int),
        decreases rest@.len() - j,
    {
        cs.push(rest[j]);
        j = j + 1;
        assert(cs@ =~= prefix@.subrange(0, i as int) + rest@.subrange(0, j as int));
    }
    assert(prefix@.subrange(0, i as int) + rest@.subrange(0, j as int) =~= prefix@ + s@);
    string_of(&cs)
}

/// Whether `a` goes strictly before `b` in the table.
fn goes_before(a: &RenamedLint, b: &RenamedLint) -> (r: bool)
    ensures
        r == table_before(a@, b@),
{
    let clippy = chars_of("clippy::");
    proof {
        reveal_strlit("clippy::");
    }
    let an = chars_of(a.new_name.as_str());
    let bn = chars_of(b.new_name.as_str());
    let a_in = an.len() >= 8 && range_eq(&an, 0, 8, &clippy);
    let b_in = bn.len() >= 8 && range_eq(&bn, 0, 8, &clippy);
    if a_in != b_in {
        a_in
    } else {
        text_lt(a.old_name.as_str(), b.old_name.as_str())
    }
}

/// A copy of an entry.
fn copy_entry(l: &RenamedLint) -> (r: RenamedLint)
    ensures
        r@ == l@,
{
    RenamedLint { old_name: l.old_name.clone(), new_name: l.new_name.clone() }
}

/// Inserts an entry into the table after every entry that does not go
/// after it.
fn insert_sorted(out: &mut Vec<RenamedLint>, x: RenamedLint)
    ensures
        renamed_views(final(out)@) == insert_entry(renamed_views(old(out)@), x@),
{
    let mut j = out.len();
    while j > 0 && goes_before(&x, &out[j - 1])
        invariant
            j <= out@.len(),
            forall|k: int| j <= k < out@.len() ==> #[trigger] table_before(x@, renamed_views(out@)[k]),
        decreases j,
    {
        j = j - 1;
    }
    let ghost t = renamed_views(out@);
    let ghost xv = x@;
    proof {
        lemma_insert_at(t, xv, j as int);
    }
    out.insert(j, x);
    assert(renamed_views(out@) =~= t.insert(j as int, xv));
}

/// The table with the entry added, in the order of the table.
fn sorted_table(renamed_lints: &[RenamedLint], entry: &RenamedLint) -> (r: Vec<RenamedLint>)
    ensures
        renamed_views(r@) == table_order(renamed_views(renamed_lints@).push(entry@)),
{
    let ghost all = renamed_views(renamed_lints@).push(entry@);
    let mut out: Vec<RenamedLint> = Vec::new();
    let mut i: usize = 0;
    assert(all.subrange(0, 0) =~= Seq::<RenamedLintView>::empty());
    assert(renamed_views(out@) =~= Seq::<RenamedLintView>::empty());
    while i < renamed_lints.len()
        invariant
            i <= renamed_lints@.len(),
            all == renamed_views(renamed_lints@).push(entry@),
            renamed_views(out@) == table_order(all.subrange(0, i as int)),
        decreases renamed_lints@.len() - i,
    {
        let x = copy_entry(&renamed_lints[i]);
        assert(x@ == all[i as int]);
        proof {
            let pre = all.subrange(0, i + 1);
            assert(pre.drop_last() =~= all.subrange(0, i as int));
            assert(pre.last() == x@);
        }
        insert_sorted(&mut out, x);
        i = i + 1;
    }
    let x = copy_entry(entry);
    proof {
        assert(all.drop_last() =~= all.subrange(0, i as int));
        assert(all.last() == x@);
    }
    insert_sorted(&mut out, x);
    out
}

/// The parts joined together.
pub open spec fn concat(parts: Seq<Seq<char>>) -> Seq<char>
    decreases parts.len(),
{
    if parts.len() == 0 {
        seq![]
    } else {
        concat(parts.drop_last()) + parts.last()
    }
}

/// The strings joined together.
fn concat_strs(parts: &Vec<&str>) -> (r: String)
    ensures
        r@ == concat(parts@.map_values(|p: &str| p@)),
{
    let ghost ps = parts@.map_values(|p: &str| p@);
    let mut out: Vec<char> = Vec::new();
    let mut i: usize = 0;
    while i < parts.len()
        invariant
            i <= parts@.len(),
            ps == parts@.map_values(|p: &str| p@),
            out@ == concat(ps.subrange(0, i as int)),
        decreases parts@.len() - i,
    {
        let cs = chars_of(parts[i]);
        let mut j: usize = 0;
        let ghost start = out@;
        while j < cs.len()
            invariant
                j <= cs@.len(),
                out@ == start + cs@.subrange(0, j as int),
            decreases cs@.len() - j,
        {
            out.push(cs[j]);
            j = j + 1;
            assert(out@ =~= start + cs@.subrange(0, j as int));
        }
        proof {
            let pre = ps.subrange(0, i + 1);
            assert(pre.drop_last() =~= ps.subrange(0, i as int));
            assert(cs@.subrange(0, j as int) =~= cs@);
        }
        i = i + 1;
    }
    assert(ps.subrange(0, i as int) =~= ps);
    string_of(&out)
}

/// The source file of a lint module, below the project root.
pub open spec fn module_file(module: Seq<char>) -> Seq<char> {
    concat(seq!["clippy_lints/src/"@, module, ".rs"@])
}

/// The source file of a lint module nested in `parent`.
pub open spec fn nested_module_file(parent: Seq<char>, module: Seq<char>) -> Seq<char> {
    concat(seq!["clippy_lints/src/"@, parent, "/"@, module, ".rs"@])
}

/// The files a renaming may move, as (from, to) paths: the lint's own
/// module file when the module is named like the lint; and, for a lint in a
/// top-level module, a file named like the lint inside that module's
/// directory. The first is tried first; the second only when the first is
/// absent or not moved.
pub fn module_move_candidates(lint: &Lint, old_name: &str, new_name: &str) -> (r: (
    Option<(String, String)>,
    Option<(String, String)>,
))
    ensures
        (lint.module@ == old_name@) == r.0 is Some,
        r.0 matches Some(p) ==> p.0@ == module_file(old_name@) && p.1@ == module_file(new_name@),
        has_path_sep(lint.module@) == r.1 is None,
        r.1 matches Some(p) ==> p.0@ == nested_module_file(lint.module@, old_name@) && p.1@
            == nested_module_file(lint.module@, new_name@),
{
    let first = if str_eq(lint.module.as_str(), old_name) {
        let pf = vec!["clippy_lints/src/", old_name, ".rs"];
        let pt = vec!["clippy_lints/src/", new_name, ".rs"];
        let from = concat_strs(&pf);
        let to = concat_strs(&pt);
        proof {
            assert(pf@.map_values(|p: &str| p@) =~= seq!["clippy_lints/src/"@, old_name@, ".rs"@]);
            assert(pt@.map_values(|p: &str| p@) =~= seq!["clippy_lints/src/"@, new_name@, ".rs"@]);
        }
        Some((from, to))
    } else {
        None
    };
    let second = if path_prefix(lint.module.as_str()).is_none() {
        let m = lint.module.as_str();
        let pf = vec!["clippy_lints/src/", m, "/", old_name, ".rs"];
        let pt = vec!["clippy_lints/src/", m, "/", new_name, ".rs"];
        let from = concat_strs(&pf);
        let to = concat_strs(&pt);
        proof {
            assert(pf@.map_values(|p: &str| p@) =~= seq!["clippy_lints/src/"@, m@, "/"@, old_name@, ".rs"@]);
            assert(pt@.map_values(|p: &str| p@) =~= seq!["clippy_lints/src/"@, m@, "/"@, new_name@, ".rs"@]);
        }
        Some((from, to))
    } else {
        None
    };
    (first, second)
}

/// Which module file a renaming moved.
#[derive(Clone, Copy, Debug, PartialEq, Eq)]
pub enum ModuleMove {
    /// The lint's own module file, named like the lint.
    LintFile,
    /// A file named like the lint inside its module's directory.
    NestedFile,
    /// None.
    Unmoved,
}

/// A lint record with another module.
pub open spec fn with_module(l: LintView, module: Seq<char>) -> LintView {
    LintView { module, ..l }
}

/// The lint records after a renaming: the renamed lint takes the new
/// name; when its module file was moved, the lints of the moved module
/// take the new module path, the renamed module under the same parent.
pub open spec fn renamed_records(lints: Seq<LintView>, index: int, old_name: Seq<char>, new_name: Seq<char>, moved: ModuleMove) -> Seq<LintView> {
    let named = lints.update(index, LintView { name: new_name, ..lints[index] });
    let renamed_mod = concat(seq![lints[index].module, "::"@, old_name]);
    let new_mod = concat(seq![lints[index].module, "::"@, new_name]);
    match moved {
        ModuleMove::LintFile => named.map_values(|l: LintView| if l.module == old_name { with_module(l, new_name) } else { l }),
        ModuleMove::NestedFile => named.map_values(
            |l: LintView| if l.module == renamed_mod { with_module(l, new_mod) } else { l },
        ),
        ModuleMove::Unmoved => named,
    }
}

/// The identifier replacements of a renaming: the lint's constant in upper
/// case, and, when its module file was moved, the module's name too.
pub open spec fn rename_replacements(old_name: Seq<char>, new_name: Seq<char>, moved: ModuleMove) -> Seq<(Seq<char>, Seq<char>)> {
    match moved {
        ModuleMove::Unmoved => seq![(uppercase(old_name), uppercase(new_name))],
        _ => seq![(uppercase(old_name), uppercase(new_name)), (old_name, new_name)],
    }
}

/// Gives lint `i` another name.
fn set_lint_name(lints: &mut Vec<Lint>, i: usize, name: &str)
    requires
        i < old(lints)@.len(),
    ensures
        final(lints)@.len() == old(lints)@.len(),
        lint_views(final(lints)@) == lint_views(old(lints)@).update(
            i as int,
            LintView { name: name@, ..lint_views(old(lints)@)[i as int] },
        ),
{
    let mut l = lints[i].duplicate();
    l.name = String::from_str(name);
    lints.set(i, l);
    assert(lint_views(lints@) =~= lint_views(old(lints)@).update(
        i as int,
        LintView { name: name@, ..lint_views(old(lints)@)[i as int] },
    ));
}

/// Gives lint `i` another module.
fn set_lint_module(lints: &mut Vec<Lint>, i: usize, module: String)
    requires
        i < old(lints)@.len(),
    ensures
        final(lints)@.len() == old(lints)@.len(),
        lint_views(final(lints)@) == lint_views(old(lints)@).update(
            i as int,
            with_module(lint_views(old(lints)@)[i as int], module@),
        ),
{
    let mut l = lints[i].duplicate();
    l.module = module;
    lints.set(i, l);
    assert(lint_views(lints@) =~= lint_views(old(lints)@).update(
        i as int,
        with_module(lint_views(old(lints)@)[i as int], module@),
    ));
}

/// Applies a renaming to the lint records once the files have been moved
/// (see `renamed_records`), and returns the identifier replacements to
/// make in the source files (see `rename_replacements`).
pub fn finish_rename(lints: &mut Vec<Lint>, index: usize, old_name: &str, new_name: &str, moved: ModuleMove) -> (r: Vec<
    (String, String),
>)
    requires
        index < old(lints)@.len(),
    ensures
        lint_views(final(lints)@) == renamed_records(lint_views(old(lints)@), index as int, old_name@, new_name@, moved),
        r@.map_values(|p: (String, String)| (p.0@, p.1@)) == rename_replacements(old_name@, new_name@, moved),
{
    let ghost lv0 = lint_views(lints@);
    let old_upper = to_uppercase(old_name);
    let new_upper = to_uppercase(new_name);
    let old_module = lints[index].module.clone();
    let pm = vec![old_module.as_str(), "::", old_name];
    let renamed_mod = concat_strs(&pm);
    let pn = vec![old_module.as_str(), "::", new_name];
    let new_mod = concat_strs(&pn);
    proof {
        assert(pm@.map_values(|p: &str| p@) =~= seq![lv0[index as int].module, "::"@, old_name@]);
        assert(pn@.map_values(|p: &str| p@) =~= seq![lv0[index as int].module, "::"@, new_name@]);
    }
    set_lint_name(lints, index, new_name);
    let ghost named = lint_views(lints@);
    assert(named =~= lv0.update(index as int, LintView { name: new_name@, ..lv0[index as int] }));
    let mut i: usize = 0;
    while i < lints.len()
        invariant
            i <= lints@.len(),
            lints@.len() == named.len(),
            forall|j: int| i <= j < lints@.len() ==> #[trigger] lint_views(lints@)[j] == named[j],
            forall|j: int| 0 <= j < i ==> #[trigger] lint_views(lints@)[j] == renamed_records(lv0, index as int, old_name@, new_name@, moved)[j],
            named == lv0.update(index as int, LintView { name: new_name@, ..lv0[index as int] }),
            renamed_mod@ == concat(seq![lv0[index as int].module, "::"@, old_name@]),
            new_mod@ == concat(seq![lv0[index as int].module, "::"@, new_name@]),
            index < lv0.len(),
        decreases lints@.len() - i,
    {
        let update = match moved {
            ModuleMove::LintFile => if str_eq(lints[i].module.as_str(), old_name) {
                Some(String::from_str(new_name))
            } else {
                None
            },
            ModuleMove::NestedFile => if str_eq(lints[i].module.as_str(), renamed_mod.as_str()) {
                Some(new_mod.clone())
            } else {
                None
            },
            ModuleMove::Unmoved => None,
        };
        let ghost before = lint_views(lints@);
        if let Some(m) = update {
            set_lint_module(lints, i, m);
        }
        proof {
            assert(before.len() == lints@.len());
            assert forall|j: int| 0 <= j < lints@.len() && j != i implies #[trigger] lint_views(lints@)[j] == before[j] by {
                assert(lint_views(lints@)[j] == before[j]);
            }
            let target = renamed_records(lv0, index as int, old_name@, new_name@, moved);
            assert(lint_views(lints@)[i as int] == target[i as int]);
        }
        i = i + 1;
    }
    assert(lint_views(lints@) =~= renamed_records(lv0, index as int, old_name@, new_name@, moved));
    let mut r: Vec<(String, String)> = Vec::new();
    r.push((old_upper, new_upper));
    match moved {
        ModuleMove::Unmoved => {},
        _ => {
            r.push((String::from_str(old_name), String::from_str(new_name)));
        },
    }
    assert(r@.map_values(|p: (String, String)| (p.0@, p.1@)) =~= rename_replacements(old_name@, new_name@, moved));
    r
}

// ---------------------------------------------------------------------
// Replacing identifiers
// ---------------------------------------------------------------------

/// The matches of `aho_corasick`'s leftmost-longest search for the
/// patterns in the text: for each match in order, the index of its pattern
/// and its byte range; `None` where the search automaton for the patterns
/// does not fit 16-bit state ids.
pub uninterp spec fn leftmost_longest(patterns: Seq<Seq<char>>, text: Seq<char>) -> Option<Seq<(usize, usize, usize)>>;

/// The replaced texts of the replacements.
pub open spec fn pattern_texts(reps: Seq<(String, String)>) -> Seq<Seq<char>> {
    reps.map_values(|p: (String, String)| p.0@)
}

/// `aho_corasick`: builds a DFA with 16-bit state ids for the replaced
/// texts, in leftmost-longest mode, and lists its matches in `text`; the
/// matches are named `leftmost_longest`. As the crate documents, each
/// match names one of the patterns and a byte range of the text, and the
/// matches come in order without overlapping. `None` when the automaton
/// does not fit its state ids, which the name tells too.
#[verifier::external_body]
fn find_leftmost_longest(patterns: &Vec<(String, String)>, text: &str) -> (r: Option<Vec<(usize, usize, usize)>>)
    ensures
        r is None <==> leftmost_longest(pattern_texts(patterns@), text@) is None,
        r matches Some(v) ==> {
            &&& leftmost_longest(pattern_texts(patterns@), text@) == Some(v@)
            &&& forall|k: int|
                0 <= k < v@.len() ==> #[trigger] v@[k].0 < patterns@.len() && v@[k].1 <= v@[k].2 <= text.spec_bytes().len()
            &&& forall|k: int| 0 < k < v@.len() ==> v@[k - 1].2 <= #[trigger] v@[k].1
        },
{
    aho_corasick::AhoCorasickBuilder::new()
        .dfa(true)
        .match_kind(aho_corasick::MatchKind::LeftmostLongest)
        .build_with_size::<u16, _, _>(patterns.iter().map(|p| p.0.as_bytes()))
        .ok()
        .map(|ac| ac.find_iter(text).map(|m| (m.pattern(), m.start(), m.end())).collect())
}

/// Why identifiers could not be replaced.
#[derive(Clone, Copy, Debug, PartialEq, Eq)]
pub enum ReplaceError {
    /// The search automaton does not fit its state ids.
    SearcherTooLarge,
    /// A match starts or ends inside a character.
    NotOnCharBoundary,
}

/// A byte that can be part of an identifier: an ASCII letter, digit or `_`.
pub open spec fn ident_byte(b: u8) -> bool {
    ||| 0x61 <= b <= 0x7a
    ||| 0x41 <= b <= 0x5a
    ||| 0x30 <= b <= 0x39
    ||| b == 0x5f
}

/// The byte at `i`, or 0 outside the text.
pub open spec fn byte_or_zero(h: Seq<u8>, i: int) -> u8 {
    if 0 <= i < h.len() {
        h[i]
    } else {
        0
    }
}

/// The byte range `s..e` of `h` is not bordered by identifier bytes.
pub open spec fn stands_alone(h: Seq<u8>, s: int, e: int) -> bool {
    !ident_byte(byte_or_zero(h, s - 1)) && !ident_byte(byte_or_zero(h, e))
}

/// Every match starts and ends on a character boundary.
pub open spec fn on_boundaries(h: Seq<u8>, ms: Seq<(usize, usize, usize)>) -> bool {
    forall|k: int| 0 <= k < ms.len() ==> is_char_boundary(h, #[trigger] ms[k].1 as int) && is_char_boundary(h, ms[k].2 as int)
}

/// Some match stands alone.
pub open spec fn any_alone(h: Seq<u8>, ms: Seq<(usize, usize, usize)>) -> bool {
    exists|k: int| 0 <= k < ms.len() && stands_alone(h, #[trigger] ms[k].1 as int, ms[k].2 as int)
}

/// The bytes of the text from `pos` on, each match replaced by its new
/// text when it stands alone and kept (as its pattern) otherwise.
pub open spec fn replaced_from(h: Seq<u8>, ms: Seq<(usize, usize, usize)>, reps: Seq<(Seq<u8>, Seq<u8>)>, pos: int) -> Seq<u8>
    decreases ms.len(),
{
    if ms.len() == 0 {
        h.subrange(pos, h.len() as int)
    } else {
        let m = ms[0];
        h.subrange(pos, m.1 as int) + (if stands_alone(h, m.1 as int, m.2 as int) {
            reps[m.0 as int].1
        } else {
            reps[m.0 as int].0
        }) + replaced_from(h, ms.drop_first(), reps, m.2 as int)
    }
}

/// The bytes of both texts of each replacement.
pub open spec fn replacement_bytes(reps: Seq<(String, String)>) -> Seq<(Seq<u8>, Seq<u8>)> {
    reps.map_values(|p: (String, String)| (encode_utf8(p.0@), encode_utf8(p.1@)))
}

/// Whether a byte can be part of an identifier.
fn is_ident_char(c: u8) -> (r: bool)
    ensures
        r == ident_byte(c),
{
    (0x61 <= c && c <= 0x7a) || (0x41 <= c && c <= 0x5a) || (0x30 <= c && c <= 0x39) || c == 0x5f
}

/// Replaces, at each of the matches `ms` (each the index of a pair of
/// `replacements` and a byte range of `contents`, in order and without
/// overlap), the old text by the new one where the match stands alone
/// (no identifier character right before or after it), and keeps it
/// elsewhere. `None` when no match stands alone; an error when a match
/// does not start and end on character boundaries.
pub fn replace_matches(contents: &str, replacements: &Vec<(String, String)>, ms: &Vec<(usize, usize, usize)>) -> (r: Result<
    Option<String>,
    ReplaceError,
>)
    requires
        forall|k: int|
            0 <= k < ms@.len() ==> #[trigger] ms@[k].0 < replacements@.len() && ms@[k].1 <= ms@[k].2
                <= contents.spec_bytes().len(),
        forall|k: int| 0 < k < ms@.len() ==> ms@[k - 1].2 <= #[trigger] ms@[k].1,
    ensures
        ({
            let h = contents.spec_bytes();
            match r {
                Ok(res) => {
                    &&& on_boundaries(h, ms@)
                    &&& (res is Some <==> any_alone(h, ms@))
                    &&& (res matches Some(out) ==> encode_utf8(out@) == replaced_from(
                        h,
                        ms@,
                        replacement_bytes(replacements@),
                        0,
                    ))
                },
                Err(e) => e == ReplaceError::NotOnCharBoundary && !on_boundaries(h, ms@),
            }
        })
{
    let ghost h = contents.spec_bytes();
    let ghost reps = replacement_bytes(replacements@);
    let hb = contents.as_bytes();
    let hl = hb.len();
    proof {
        vstd::utf8::encode_utf8_valid_utf8(contents@);
        vstd::utf8::is_char_boundary_start_end_of_seq(h);
    }
    let mut result = String::new();
    let mut pos: usize = 0;
    let mut edited = false;
    let mut k: usize = 0;
    assert(ms@.subrange(0, ms@.len() as int) =~= ms@);
    while k < ms.len()
        invariant
            k <= ms@.len(),
            hl == h.len(),
            hb@ == h,
            h == contents.spec_bytes(),
            valid_utf8(h),
            reps == replacement_bytes(replacements@),
            forall|j: int| 0 <= j < ms@.len() ==> #[trigger] ms@[j].0 < replacements@.len() && ms@[j].1 <= ms@[j].2 <= h.len(),
            forall|j: int| 0 < j < ms@.len() ==> ms@[j - 1].2 <= #[trigger] ms@[j].1,
            k > 0 ==> pos == ms@[k - 1].2,
            k == 0 ==> pos == 0,
            pos <= hl,
            is_char_boundary(h, pos as int),
            forall|j: int| 0 <= j < k ==> is_char_boundary(h, #[trigger] ms@[j].1 as int) && is_char_boundary(h, ms@[j].2 as int),
            edited == exists|j: int| 0 <= j < k && stands_alone(h, #[trigger] ms@[j].1 as int, ms@[j].2 as int),
            encode_utf8(result@) + replaced_from(h, ms@.subrange(k as int, ms@.len() as int), reps, pos as int)
                == replaced_from(h, ms@, reps, 0),
        decreases ms@.len() - k,
    {
        let (p, s, e) = ms[k];
        if !contents.is_char_boundary(s) || !contents.is_char_boundary(e) {
            return Err(ReplaceError::NotOnCharBoundary);
        }
        assert(is_char_boundary(h, ms@[k as int].1 as int) && is_char_boundary(h, ms@[k as int].2 as int));
        let ghost rest = ms@.subrange(k as int, ms@.len() as int);
        assert(rest[0] == ms@[k as int]);
        assert(rest.drop_first() =~= ms@.subrange(k + 1, ms@.len() as int));
        if k > 0 {
            assert(ms@[k - 1].2 <= ms@[k as int].1);
        }
        let piece = str_slice(contents, pos, s);
        let ghost r0 = result@;
        result.append(piece);
        proof {
            lemma_encode_concat(r0, piece@);
        }
        let before: u8 = if s == 0 {
            0
        } else {
            hb[s - 1]
        };
        let after: u8 = if e < hl {
            hb[e]
        } else {
            0
        };
        let alone = !is_ident_char(before) && !is_ident_char(after);
        assert(alone == stands_alone(h, s as int, e as int));
        let ghost r1 = result@;
        let (old_text, new_text) = (&replacements[p].0, &replacements[p].1);
        if alone {
            edited = true;
            result.append(new_text.as_str());
        } else {
            result.append(old_text.as_str());
        }
        proof {
            let chosen = if alone { new_text@ } else { old_text@ };
            lemma_encode_concat(r1, chosen);
            assert(reps[p as int] == (encode_utf8(old_text@), encode_utf8(new_text@)));
            let x = h.subrange(pos as int, s as int);
            let y = if alone { reps[p as int].1 } else { reps[p as int].0 };
            let z = replaced_from(h, rest.drop_first(), reps, e as int);
            assert(encode_utf8(r0) + (x + y + z) =~= (encode_utf8(r0) + x + y) + z);
            if alone {
                assert(stands_alone(h, ms@[k as int].1 as int, ms@[k as int].2 as int));
            }
        }
        let ghost k0 = k;
        pos = e;
        k = k + 1;
        assert forall|j: int| 0 <= j < k implies is_char_boundary(h, #[trigger] ms@[j].1 as int)
            && is_char_boundary(h, ms@[j].2 as int) by {
            if j < k0 {
            } else {
                assert(ms@[j] == (p, s, e));
            }
        }
    }
    let tail = str_slice(contents, pos, hl);
    let ghost r0 = result@;
    result.append(tail);
    proof {
        lemma_encode_concat(r0, tail@);
        assert(ms@.subrange(k as int, ms@.len() as int) =~= Seq::<(usize, usize, usize)>::empty());
    }
    if edited {
        Ok(Some(result))
    } else {
        Ok(None)
    }
}

/// Replaces the replaced texts by their new texts where they are not
/// bordered by identifier characters (see `replaced_from`); `None` when
/// nothing was replaced.
pub fn replace_ident_like(contents: &str, replacements: &Vec<(String, String)>) -> (r: Result<
    Option<String>,
    ReplaceError,
>)
    ensures
        ({
            let h = contents.spec_bytes();
            match leftmost_longest(pattern_texts(replacements@), contents@) {
                None => r == Err::<Option<String>, ReplaceError>(ReplaceError::SearcherTooLarge),
                Some(ms) => match r {
                    Ok(res) => {
                        &&& on_boundaries(h, ms)
                        &&& (res is Some <==> any_alone(h, ms))
                        &&& (res matches Some(out) ==> encode_utf8(out@) == replaced_from(
                            h,
                            ms,
                            replacement_bytes(replacements@),
                            0,
                        ))
                    },
                    Err(e) => e == ReplaceError::NotOnCharBoundary && !on_boundaries(h, ms),
                },
            }
        }),
{
    match find_leftmost_longest(replacements, contents) {
        Some(ms) => replace_matches(contents, replacements, &ms),
        None => Err(ReplaceError::SearcherTooLarge),
    }
}

} // verus!
