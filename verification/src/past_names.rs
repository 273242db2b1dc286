//! The past names of lints: following the table of renamed lints back
//! from a lint's name, every name it had before, and the section of its
//! documentation that lists them.

use vstd::prelude::*;
use crate::lint_metadata::{LintMetadata, strings_view};
use crate::rename_lint::clippy_path;
use crate::strings::{chars_of, range_eq, string_of, str_eq};
use crate::text_order::{text_le, text_lt, lemma_text_le_total, lemma_text_le_trans};

verus! {

/// The name carries the linter's path.
pub open spec fn has_clippy_prefix(k: Seq<char>) -> bool {
    k.len() >= 8 && k.subrange(0, 8) == "clippy::"@
}

/// The text of each pair of names of the table.
pub open spec fn pairs_view(t: Seq<(&str, &str)>) -> Seq<(Seq<char>, Seq<char>)> {
    t.map_values(|e: (&str, &str)| (e.0@, e.1@))
}

/// The names that the table renames to `name` within the linter, in the
/// order of the table, without the linter's path.
pub open spec fn past_names_of(t: Seq<(Seq<char>, Seq<char>)>, name: Seq<char>) -> Seq<Seq<char>>
    decreases t.len(),
{
    if t.len() == 0 {
        seq![]
    } else {
        let rest = past_names_of(t.drop_last(), name);
        let e = t.last();
        if e.1 == clippy_path(name) && has_clippy_prefix(e.0) {
            rest.push(e.0.subrange(8, e.0.len() as int))
        } else {
            rest
        }
    }
}

/// The names found by the search for past names in at most `fuel` steps,
/// the names still to look at being `stack`, the last first: each step
/// takes the last name and adds its past names, which are found and then
/// looked at in turn.
pub open spec fn found_names(t: Seq<(Seq<char>, Seq<char>)>, stack: Seq<Seq<char>>, fuel: nat) -> Seq<Seq<char>>
    decreases fuel,
{
    if fuel == 0 || stack.len() == 0 {
        seq![]
    } else {
        let p = past_names_of(t, stack.last());
        p + found_names(t, stack.drop_last() + p, (fuel - 1) as nat)
    }
}

/// The search for past names ends within `fuel` steps.
pub open spec fn search_ends(t: Seq<(Seq<char>, Seq<char>)>, stack: Seq<Seq<char>>, fuel: nat) -> bool
    decreases fuel,
{
    if stack.len() == 0 {
        true
    } else if fuel == 0 {
        false
    } else {
        search_ends(t, stack.drop_last() + past_names_of(t, stack.last()), (fuel - 1) as nat)
    }
}

/// Following the entries `path` of the table back from `name`, each one
/// renaming the name reached so far from an earlier one within the
/// linter: the name reached, if every entry does.
pub open spec fn chain_end(t: Seq<(Seq<char>, Seq<char>)>, name: Seq<char>, path: Seq<int>) -> Option<Seq<char>>
    decreases path.len(),
{
    if path.len() == 0 {
        Some(name)
    } else {
        match chain_end(t, name, path.drop_last()) {
            Some(m) => {
                let j = path.last();
                if 0 <= j < t.len() && t[j].1 == clippy_path(m) && has_clippy_prefix(t[j].0) {
                    Some(t[j].0.subrange(8, t[j].0.len() as int))
                } else {
                    None
                }
            },
            None => None,
        }
    }
}

/// No chain of renamings back from `name` is longer than the table; that
/// is, no renamings lead round in a circle back to a name on the way.
pub open spec fn chains_bounded(t: Seq<(Seq<char>, Seq<char>)>, name: Seq<char>) -> bool {
    forall|path: Seq<int>| #[trigger] chain_end(t, name, path) is Some ==> path.len() <= t.len()
}

/// `base` to the power `e`.
pub open spec fn weight(base: nat, e: nat) -> nat
    decreases e,
{
    if e == 0 {
        1
    } else {
        base * weight(base, (e - 1) as nat)
    }
}

/// The sum of the weights of names looked at after `depths` renamings,
/// in a table of `n` entries.
pub open spec fn stack_weight(depths: Seq<nat>, n: nat) -> nat
    decreases depths.len(),
{
    if depths.len() == 0 {
        0
    } else {
        stack_weight(depths.drop_last(), n) + weight(n + 1, (n - depths.last()) as nat)
    }
}

proof fn lemma_weight_pos(base: nat, e: nat)
    requires
        base >= 1,
    ensures
        weight(base, e) >= 1,
    decreases e,
{
    if e > 0 {
        lemma_weight_pos(base, (e - 1) as nat);
        assert(base * weight(base, (e - 1) as nat) >= 1) by (nonlinear_arith)
            requires
                base >= 1,
                weight(base, (e - 1) as nat) >= 1,
        ;
    }
}

/// Whether `v` is `clippy::` followed by `n`; then the name `k` without the
/// linter's path, when it has it.
fn past_name(k: &str, v: &str, n: &str) -> (r: Option<String>)
    ensures
        r is Some <==> (v@ == clippy_path(n@) && has_clippy_prefix(k@)),
        r matches Some(p) ==> p@ == k@.subrange(8, k@.len() as int),
{
    let clippy = chars_of("clippy::");
    proof {
        reveal_strlit("clippy::");
    }
    let vs = chars_of(v);
    let ns = chars_of(n);
    let ks = chars_of(k);
    let v_ok = vs.len() >= 8 && vs.len() - 8 == ns.len() && range_eq(&vs, 0, 8, &clippy) && range_eq(&vs, 8, vs.len(), &ns);
    proof {
        if vs@.len() == 8 + ns@.len() {
            if vs@ == clippy_path(n@) {
                assert(vs@.subrange(0, 8) =~= clippy@);
                assert(vs@.subrange(8, vs@.len() as int) =~= ns@);
            }
            if vs@.subrange(0, 8) == clippy@ && vs@.subrange(8, vs@.len() as int) == ns@ {
                assert(vs@ =~= clippy@ + ns@);
            }
        } else {
            assert(clippy_path(n@).len() == 8 + n@.len());
        }
    }
    if !v_ok {
        return None;
    }
    if ks.len() < 8 || !range_eq(&ks, 0, 8, &clippy) {
        return None;
    }
    let mut rest: Vec<char> = Vec::new();
    let mut i: usize = 8;
    while i < ks.len()
        invariant
            8 <= i <= ks@.len(),
            rest@ == ks@.subrange(8, i as int),
        decreases ks@.len() - i,
    {
        rest.push(ks[i]);
        i = i + 1;
        assert(rest@ =~= ks@.subrange(8, i as int));
    }
    Some(string_of(&rest))
}

/// The number of renamings along each chain.
pub open spec fn depths_of(paths: Seq<Seq<int>>) -> Seq<nat> {
    paths.map_values(|p: Seq<int>| p.len())
}

/// The past names of `name` by the table, in the order in which the search
/// finds them (see `found_names`). The search ends when no chain of
/// renamings back from `name` runs round in a circle.
fn search_past_names(t: &[(&str, &str)], name: &String) -> (r: Vec<String>)
    requires
        chains_bounded(pairs_view(t@), name@),
    ensures
        exists|f: nat|
            #[trigger] search_ends(pairs_view(t@), seq![name@], f) && strings_view(r@) == found_names(
                pairs_view(t@),
                seq![name@],
                f,
            ),
{
    let ghost tv = pairs_view(t@);
    let ghost n: nat = t@.len();
    let ghost start: Seq<Seq<char>> = seq![name@];
    let mut names: Vec<String> = Vec::new();
    names.push(name.clone());
    let mut found: Vec<String> = Vec::new();
    let ghost mut paths: Seq<Seq<int>> = seq![Seq::<int>::empty()];
    let ghost mut steps: nat = 0;
    proof {
        assert(strings_view(names@) =~= start);
        assert(strings_view(found@) =~= Seq::<Seq<char>>::empty());
        assert forall|g: nat| found_names(tv, start, steps + g) == strings_view(found@) + found_names(tv, strings_view(names@), g) by {
            assert(strings_view(found@) + found_names(tv, strings_view(names@), g) =~= found_names(tv, start, g));
        }
    }
    loop
        invariant
            tv == pairs_view(t@),
            n == t@.len(),
            start == seq![name@],
            chains_bounded(tv, name@),
            paths.len() == names@.len(),
            forall|i: int| 0 <= i < paths.len() ==> chain_end(tv, name@, #[trigger] paths[i]) == Some(strings_view(names@)[i]),
            forall|g: nat| found_names(tv, start, steps + g) == strings_view(found@) + found_names(tv, strings_view(names@), g),
            forall|g: nat| search_ends(tv, start, steps + g) == search_ends(tv, strings_view(names@), g),
        ensures
            names@.len() == 0,
        decreases stack_weight(depths_of(paths), n),
    {
        let ghost before = strings_view(names@);
        let ghost bpaths = paths;
        let popped = names.pop();
        if popped.is_none() {
            break;
        }
        let lint_name = popped.unwrap();
        let ghost p0 = bpaths.last();
        let ghost d = p0.len();
        let ghost base_paths = bpaths.drop_last();
        let ghost w0 = stack_weight(depths_of(base_paths), n);
        proof {
            assert(before.len() > 0);
            assert(strings_view(names@) =~= before.drop_last());
            assert(before.last() == lint_name@);
            assert(chain_end(tv, name@, p0) == Some(lint_name@));
            assert(d <= n);
            paths = base_paths;
            assert(depths_of(bpaths) =~= depths_of(base_paths).push(d));
            assert(depths_of(bpaths).drop_last() =~= depths_of(base_paths));
            assert(depths_of(bpaths).last() == d);
            assert(stack_weight(depths_of(bpaths), n) == w0 + weight(n + 1, (n - d) as nat));
            lemma_weight_pos(n + 1, (n - d) as nat);
        }
        let ghost found0 = strings_view(found@);
        let ghost w1: nat = if d < n { weight(n + 1, (n - d - 1) as nat) } else { 0 };
        proof {
            if d < n {
                lemma_weight_pos(n + 1, (n - d - 1) as nat);
            }
        }
        let mut j: usize = 0;
        assert(tv.subrange(0, 0) =~= Seq::<(Seq<char>, Seq<char>)>::empty());
        while j < t.len()
            invariant
                tv == pairs_view(t@),
                n == t@.len(),
                j <= t@.len(),
                chains_bounded(tv, name@),
                chain_end(tv, name@, p0) == Some(lint_name@),
                d == p0.len(),
                d <= n,
                d < n ==> w1 == weight(n + 1, (n - d - 1) as nat),
                paths.len() == names@.len(),
                forall|i: int| 0 <= i < paths.len() ==> chain_end(tv, name@, #[trigger] paths[i]) == Some(strings_view(names@)[i]),
                strings_view(names@) == before.drop_last() + past_names_of(tv.subrange(0, j as int), lint_name@),
                strings_view(found@) == found0 + past_names_of(tv.subrange(0, j as int), lint_name@),
                d < n ==> stack_weight(depths_of(paths), n) <= w0 + j * w1,
                d == n ==> stack_weight(depths_of(paths), n) == w0,
                base_paths.len() <= paths.len(),
            decreases t@.len() - j,
        {
            let (k, v) = t[j];
            let ghost pre = tv.subrange(0, j + 1);
            proof {
                assert(pre.drop_last() =~= tv.subrange(0, j as int));
                assert(pre.last() == tv[j as int]);
                assert(tv[j as int] == (k@, v@));
            }
            match past_name(k, v, lint_name.as_str()) {
                Some(past) => {
                    let ghost np = p0.push(j as int);
                    proof {
                        assert(np.drop_last() =~= p0);
                        assert(chain_end(tv, name@, np) == Some(past@));
                        assert(np.len() <= n);
                    }
                    let ghost names_before = strings_view(names@);
                    let ghost found_before = strings_view(found@);
                    let ghost paths_before = paths;
                    let ghost wb = stack_weight(depths_of(paths), n);
                    names.push(past.clone());
                    found.push(past);
                    proof {
                        paths = paths.push(np);
                        assert(strings_view(names@) =~= names_before.push(past@));
                        assert(strings_view(found@) =~= found_before.push(past@));
                        assert(past_names_of(pre, lint_name@) == past_names_of(tv.subrange(0, j as int), lint_name@).push(past@));
                        assert(before.drop_last() + past_names_of(pre, lint_name@) =~= (before.drop_last() + past_names_of(tv.subrange(0, j as int), lint_name@)).push(past@));
                        assert(found0 + past_names_of(pre, lint_name@) =~= (found0 + past_names_of(tv.subrange(0, j as int), lint_name@)).push(past@));
                        assert(depths_of(paths) =~= depths_of(paths_before).push(np.len()));
                        assert(depths_of(paths).drop_last() =~= depths_of(paths_before));
                        assert(stack_weight(depths_of(paths), n) == wb + weight(n + 1, (n - np.len()) as nat));
                        assert((j + 1) * w1 == j * w1 + w1) by (nonlinear_arith);
                        assert forall|i: int| 0 <= i < paths.len() implies chain_end(tv, name@, #[trigger] paths[i]) == Some(strings_view(names@)[i]) by {
                            if i < paths_before.len() {
                                assert(paths[i] == paths_before[i]);
                                assert(strings_view(names@)[i] == names_before[i]);
                            }
                        }
                    }
                },
                None => {
                    proof {
                        assert((j + 1) * w1 == j * w1 + w1) by (nonlinear_arith);
                        assert(past_names_of(pre, lint_name@) == past_names_of(tv.subrange(0, j as int), lint_name@));
                    }
                },
            }
            j = j + 1;
        }
        proof {
            assert(tv.subrange(0, j as int) =~= tv);
            let pn = past_names_of(tv, lint_name@);
            assert(before.drop_last() + pn == strings_view(names@));
            if d < n {
                assert(n * w1 < (n + 1) * w1) by (nonlinear_arith)
                    requires
                        w1 >= 1,
                ;
                assert(weight(n + 1, (n - d) as nat) == (n + 1) * w1);
            }
            assert(stack_weight(depths_of(bpaths), n) == w0 + weight(n + 1, (n - d) as nat));
            assert forall|g: nat| found_names(tv, start, (steps + 1) + g) == strings_view(found@) + found_names(tv, strings_view(names@), g) by {
                assert(found_names(tv, start, steps + (g + 1)) == found0 + found_names(tv, before, g + 1));
                assert(found_names(tv, before, g + 1) == pn + found_names(tv, before.drop_last() + pn, g));
                assert(found0 + (pn + found_names(tv, strings_view(names@), g)) =~= (found0 + pn) + found_names(tv, strings_view(names@), g));
            }
            assert forall|g: nat| search_ends(tv, start, (steps + 1) + g) == search_ends(tv, strings_view(names@), g) by {
                assert(search_ends(tv, start, steps + (g + 1)) == search_ends(tv, before, g + 1));
            }
            steps = steps + 1;
        }
    }
    proof {
        assert(strings_view(names@) =~= Seq::<Seq<char>>::empty());
        assert(found_names(tv, start, steps + 0) == strings_view(found@) + found_names(tv, strings_view(names@), 0));
        assert(strings_view(found@) + Seq::<Seq<char>>::empty() =~= strings_view(found@));
        assert(search_ends(tv, start, steps + 0) == search_ends(tv, strings_view(names@), 0));
    }
    found
}

/// The strings are in strictly increasing order.
pub open spec fn strictly_increasing(v: Seq<Seq<char>>) -> bool {
    forall|i: int, j: int| 0 <= i < j < v.len() ==> !text_le(#[trigger] v[j], #[trigger] v[i])
}

/// Adds a name to a list of names in increasing order, unless it is there
/// already (the list is a set).
fn insert_name(v: &mut Vec<String>, x: String)
    requires
        strictly_increasing(strings_view(old(v)@)),
    ensures
        strictly_increasing(strings_view(final(v)@)),
        strings_view(final(v)@).to_set() == strings_view(old(v)@).to_set().insert(x@),
{
    let ghost s0 = strings_view(v@);
    let mut i: usize = 0;
    while i < v.len() && text_lt(v[i].as_str(), x.as_str())
        invariant
            i <= v@.len(),
            s0 == strings_view(v@),
            forall|k: int| 0 <= k < i ==> !text_le(x@, #[trigger] s0[k]),
        decreases v@.len() - i,
    {
        i = i + 1;
    }
    if i < v.len() && str_eq(v[i].as_str(), x.as_str()) {
        proof {
            assert(s0[i as int] == x@);
            assert(s0.to_set().insert(x@) =~= s0.to_set());
        }
        return;
    }
    let ghost xv = x@;
    v.insert(i, x);
    proof {
        assert(strings_view(v@) =~= s0.insert(i as int, xv));
        let s1 = strings_view(v@);
        if i < s0.len() {
            lemma_text_le_total(s0[i as int], xv);
            assert(!text_le(s0[i as int], xv));
        }
        assert forall|a: int, b: int| 0 <= a < b < s1.len() implies !text_le(#[trigger] s1[b], #[trigger] s1[a]) by {
            if b < i {
                assert(s1[a] == s0[a] && s1[b] == s0[b]);
            } else if b == i {
                assert(s1[a] == s0[a]);
                assert(!text_le(xv, s0[a]));
            } else if a == i {
                assert(s1[b] == s0[b - 1]);
                assert(text_le(xv, s0[i as int]));
                lemma_text_le_trans(s0[b - 1], xv, s0[i as int]);
                if b - 1 > i {
                    assert(!text_le(s0[b - 1], s0[i as int]));
                }
            } else if a < i {
                assert(s1[a] == s0[a] && s1[b] == s0[b - 1]);
            } else {
                assert(s1[a] == s0[a - 1] && s1[b] == s0[b - 1]);
            }
        }
        assert forall|e: Seq<char>| s1.to_set().contains(e) <==> s0.to_set().insert(xv).contains(e) by {
            if s1.contains(e) {
                let k = choose|k: int| 0 <= k < s1.len() && s1[k] == e;
                if k < i {
                    assert(s0[k] == e);
                } else if k > i {
                    assert(s0[k - 1] == e);
                }
            }
            if s0.contains(e) {
                let k = choose|k: int| 0 <= k < s0.len() && s0[k] == e;
                if k < i {
                    assert(s1[k] == e);
                } else {
                    assert(s1[k + 1] == e);
                }
            }
            if e == xv {
                assert(s1[i as int] == xv);
            }
        }
        assert(s1.to_set() =~= s0.to_set().insert(xv));
    }
}

/// The names as a list, one `* `name`` line each.
pub open spec fn bullets(names: Seq<Seq<char>>) -> Seq<char>
    decreases names.len(),
{
    if names.len() == 0 {
        seq![]
    } else {
        bullets(names.drop_last()) + ("* `"@ + names.last() + "`\n"@)
    }
}

/// The section of a lint's documentation that lists its past names; empty
/// when there are none.
pub open spec fn past_names_section(names: Seq<Seq<char>>) -> Seq<char> {
    if names.len() == 0 {
        seq![]
    } else {
        "\n### Past names\n\n"@ + bullets(names) + "\n"@
    }
}

/// `after` is `before` with its past names, as found by the search in the
/// table, added to its earlier names and listed at the end of its
/// documentation.
pub open spec fn renames_collected(t: Seq<(Seq<char>, Seq<char>)>, before: LintMetadata, after: LintMetadata) -> bool {
    &&& exists|f: nat|
        #[trigger] search_ends(t, seq![before.id@], f) && {
            let found = found_names(t, seq![before.id@], f);
            &&& after.docs@ == before.docs@ + past_names_section(found)
            &&& strings_view(after.former_ids@).to_set() == strings_view(before.former_ids@).to_set() + found.to_set()
        }
    &&& strictly_increasing(strings_view(after.former_ids@))
    &&& after.id@ == before.id@
    &&& after.id_span == before.id_span
    &&& after.group@ == before.group@
    &&& after.level@ == before.level@
    &&& after.version@ == before.version@
    &&& after.applicability == before.applicability
}

/// Collects the past names of one lint.
fn collect_lint_renames(lint: &mut LintMetadata, t: &[(&str, &str)])
    requires
        chains_bounded(pairs_view(t@), old(lint).id@),
        strictly_increasing(strings_view(old(lint).former_ids@)),
    ensures
        renames_collected(pairs_view(t@), *old(lint), *final(lint)),
{
    let ghost tv = pairs_view(t@);
    let found = search_past_names(t, &lint.id);
    let ghost f = choose|f: nat| #[trigger] search_ends(tv, seq![old(lint).id@], f) && strings_view(found@) == found_names(tv, seq![old(lint).id@], f);
    let ghost fv = strings_view(found@);
    let ghost ids0 = strings_view(lint.former_ids@);
    let mut collected = String::new();
    let mut i: usize = 0;
    assert(collected@ =~= bullets(fv.subrange(0, 0)));
    assert(ids0.to_set() + fv.subrange(0, 0).to_set() =~= ids0.to_set()) by {
        assert(fv.subrange(0, 0).to_set() =~= Set::<Seq<char>>::empty());
    }
    while i < found.len()
        invariant
            i <= found@.len(),
            fv == strings_view(found@),
            collected@ == bullets(fv.subrange(0, i as int)),
            strictly_increasing(strings_view(lint.former_ids@)),
            strings_view(lint.former_ids@).to_set() == ids0.to_set() + fv.subrange(0, i as int).to_set(),
            lint.docs@ == old(lint).docs@,
            lint.id@ == old(lint).id@,
            lint.id_span == old(lint).id_span,
            lint.group@ == old(lint).group@,
            lint.level@ == old(lint).level@,
            lint.version@ == old(lint).version@,
            lint.applicability == old(lint).applicability,
        decreases found@.len() - i,
    {
        let name = found[i].clone();
        let ghost pre = fv.subrange(0, i + 1);
        proof {
            assert(pre.drop_last() =~= fv.subrange(0, i as int));
            assert(pre.last() == fv[i as int]);
            assert(name@ == fv[i as int]);
        }
        insert_name(&mut lint.former_ids, name);
        collected.append("* `");
        collected.append(found[i].as_str());
        collected.append("`\n");
        proof {
            assert(collected@ =~= bullets(fv.subrange(0, i as int)) + ("* `"@ + fv[i as int] + "`\n"@));
            assert(pre.to_set() =~= fv.subrange(0, i as int).to_set().insert(fv[i as int])) by {
                assert forall|e: Seq<char>| pre.to_set().contains(e) <==> fv.subrange(0, i as int).to_set().insert(fv[i as int]).contains(e) by {
                    if pre.contains(e) {
                        let k = choose|k: int| 0 <= k < pre.len() && pre[k] == e;
                        if k < i {
                            assert(fv.subrange(0, i as int)[k] == e);
                        }
                    }
                    if fv.subrange(0, i as int).contains(e) {
                        let k = choose|k: int| 0 <= k < i && fv.subrange(0, i as int)[k] == e;
                        assert(pre[k] == e);
                    }
                    if e == fv[i as int] {
                        assert(pre[i as int] == e);
                    }
                }
            }
            assert(ids0.to_set() + pre.to_set() =~= (ids0.to_set() + fv.subrange(0, i as int).to_set()).insert(fv[i as int]));
        }
        i = i + 1;
    }
    assert(fv.subrange(0, i as int) =~= fv);
    if found.len() > 0 {
        lint.docs.append("\n### Past names\n\n");
        lint.docs.append(collected.as_str());
        lint.docs.append("\n");
    }
    proof {
        if fv.len() == 0 {
            assert(lint.docs@ =~= old(lint).docs@ + past_names_section(fv));
        } else {
            assert(lint.docs@ =~= old(lint).docs@ + past_names_section(fv));
        }
    }
}

/// Adds to each lint its past names, as the table of renamed lints gives
/// them: the names it was renamed from within the linter, and in turn
/// theirs. Each lint's earlier names take them in, kept in increasing
/// order, and when there are any, its documentation ends with a list of
/// them. No chain of renamings back from a lint's name may run round in a
/// circle (the search would not end).
pub fn collect_renames(lints: &mut Vec<LintMetadata>, renamed_lints: &[(&str, &str)])
    requires
        forall|i: int| 0 <= i < old(lints)@.len() ==> chains_bounded(pairs_view(renamed_lints@), #[trigger] old(lints)@[i].id@),
        forall|i: int| 0 <= i < old(lints)@.len() ==> strictly_increasing(strings_view(#[trigger] old(lints)@[i].former_ids@)),
    ensures
        final(lints)@.len() == old(lints)@.len(),
        forall|i: int| 0 <= i < old(lints)@.len() ==> renames_collected(pairs_view(renamed_lints@), #[trigger] old(lints)@[i], final(lints)@[i]),
{
    let mut i: usize = 0;
    while i < lints.len()
        invariant
            i <= lints@.len(),
            lints@.len() == old(lints)@.len(),
            forall|j: int| 0 <= j < i ==> renames_collected(pairs_view(renamed_lints@), #[trigger] old(lints)@[j], lints@[j]),
            forall|j: int| i <= j < lints@.len() ==> #[trigger] lints@[j] == old(lints)@[j],
            forall|j: int| 0 <= j < old(lints)@.len() ==> chains_bounded(pairs_view(renamed_lints@), #[trigger] old(lints)@[j].id@),
            forall|j: int| 0 <= j < old(lints)@.len() ==> strictly_increasing(strings_view(#[trigger] old(lints)@[j].former_ids@)),
        decreases lints@.len() - i,
    {
        assert(lints@[i as int] == old(lints)@[i as int]);
        collect_lint_renames(&mut lints[i], renamed_lints);
        i = i + 1;
    }
}

} // verus!
