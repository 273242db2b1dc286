//! Applying a member constraint `R0 member of [R1..Rn]` during region
//! inference: the choice regions that fit the member region's lower and
//! upper bounds, the least of them under the outlives relation of the
//! universal regions, and the growth of the member region's value.

use vstd::prelude::*;

verus! {

/// The universal region `a` outlives the universal region `b`.
pub open spec fn outlives(rel: Seq<Seq<bool>>, a: u32, b: u32) -> bool {
    rel[a as int][b as int]
}

/// `o` outlives every lower bound and every upper bound outlives `o`.
pub open spec fn fits(rel: Seq<Seq<bool>>, lower: Seq<u32>, upper: Seq<u32>, o: u32) -> bool {
    &&& forall|i: int| 0 <= i < lower.len() ==> outlives(rel, o, #[trigger] lower[i])
    &&& forall|i: int| 0 <= i < upper.len() ==> outlives(rel, #[trigger] upper[i], o)
}

/// The choices that fit the bounds, in order.
pub open spec fn candidates(rel: Seq<Seq<bool>>, lower: Seq<u32>, upper: Seq<u32>, choices: Seq<u32>) -> Seq<u32>
    decreases choices.len(),
{
    if choices.len() == 0 {
        Seq::empty()
    } else {
        let rest = candidates(rel, lower, upper, choices.drop_last());
        if fits(rel, lower, upper, choices.last()) {
            rest.push(choices.last())
        } else {
            rest
        }
    }
}

/// The lesser of two regions under the outlives relation: the one the
/// other outlives, the smaller index when each outlives the other, and
/// none when they are unrelated.
pub open spec fn min_region(rel: Seq<Seq<bool>>, r1: u32, r2: u32) -> Option<u32> {
    let a = outlives(rel, r1, r2);
    let b = outlives(rel, r2, r1);
    if a && b {
        Some(if r1 <= r2 { r1 } else { r2 })
    } else if a {
        Some(r2)
    } else if b {
        Some(r1)
    } else {
        None
    }
}

/// The least of the regions, folding `min_region` from the first; none
/// when two of them met along the way are unrelated.
pub open spec fn least(rel: Seq<Seq<bool>>, rs: Seq<u32>) -> Option<u32>
    decreases rs.len(),
{
    if rs.len() == 0 {
        None
    } else if rs.len() == 1 {
        Some(rs[0])
    } else {
        match least(rel, rs.drop_last()) {
            None => None,
            Some(m) => min_region(rel, m, rs.last()),
        }
    }
}

/// The region a member constraint chooses: the least of the choices that
/// fit the bounds, if there is one.
pub open spec fn member_choice_spec(rel: Seq<Seq<bool>>, lower: Seq<u32>, upper: Seq<u32>, choices: Seq<u32>) -> Option<u32> {
    least(rel, candidates(rel, lower, upper, choices))
}

/// The relation is a square table over `n` universal regions, and the
/// regions lie among them.
pub open spec fn universal(rel: Seq<Seq<bool>>, rs: Seq<u32>) -> bool {
    forall|i: int| 0 <= i < rs.len() ==> (#[trigger] rs[i] as int) < rel.len()
}

/// The relation is a square table.
pub open spec fn square(rel: Seq<Seq<bool>>) -> bool {
    forall|i: int| 0 <= i < rel.len() ==> (#[trigger] rel[i]).len() == rel.len()
}

/// Whether `o` fits the bounds.
fn fits_bounds(rel: &Vec<Vec<bool>>, lower: &Vec<u32>, upper: &Vec<u32>, o: u32) -> (r: bool)
    requires
        square(rel@.map_values(|v: Vec<bool>| v@)),
        (o as int) < rel@.len(),
        universal(rel@.map_values(|v: Vec<bool>| v@), lower@),
        universal(rel@.map_values(|v: Vec<bool>| v@), upper@),
    ensures
        r == fits(rel@.map_values(|v: Vec<bool>| v@), lower@, upper@, o),
{
    let ghost t = rel@.map_values(|v: Vec<bool>| v@);
    let mut i: usize = 0;
    while i < lower.len()
        invariant
            i <= lower@.len(),
            t == rel@.map_values(|v: Vec<bool>| v@),
            square(t),
            (o as int) < rel@.len(),
            universal(t, lower@),
            forall|j: int| 0 <= j < i ==> outlives(t, o, #[trigger] lower@[j]),
        decreases lower@.len() - i,
    {
        let lb = lower[i];
        assert(t[o as int] == rel@[o as int]@);
        assert((lb as int) < t.len());
        if !rel[o as usize][lb as usize] {
            return false;
        }
        i = i + 1;
    }
    let mut k: usize = 0;
    while k < upper.len()
        invariant
            k <= upper@.len(),
            t == rel@.map_values(|v: Vec<bool>| v@),
            square(t),
            (o as int) < rel@.len(),
            universal(t, upper@),
            forall|j: int| 0 <= j < lower@.len() ==> outlives(t, o, #[trigger] lower@[j]),
            forall|j: int| 0 <= j < k ==> outlives(t, #[trigger] upper@[j], o),
        decreases upper@.len() - k,
    {
        let ub = upper[k];
        assert((ub as int) < t.len());
        assert(t[ub as int] == rel@[ub as int]@);
        if !rel[ub as usize][o as usize] {
            return false;
        }
        k = k + 1;
    }
    true
}

/// The lesser of two universal regions, if they are related.
fn min_of(rel: &Vec<Vec<bool>>, r1: u32, r2: u32) -> (r: Option<u32>)
    requires
        square(rel@.map_values(|v: Vec<bool>| v@)),
        (r1 as int) < rel@.len(),
        (r2 as int) < rel@.len(),
    ensures
        r == min_region(rel@.map_values(|v: Vec<bool>| v@), r1, r2),
{
    let ghost t = rel@.map_values(|v: Vec<bool>| v@);
    assert(t[r1 as int] == rel@[r1 as int]@);
    assert(t[r2 as int] == rel@[r2 as int]@);
    let a = rel[r1 as usize][r2 as usize];
    let b = rel[r2 as usize][r1 as usize];
    if a && b {
        Some(if r1 <= r2 { r1 } else { r2 })
    } else if a {
        Some(r2)
    } else if b {
        Some(r1)
    } else {
        None
    }
}

/// The region that the member constraint with these choice regions
/// chooses, given the universal regions that the member region's value
/// already outlives (`lower`), the universal regions that must outlive
/// the member region (`upper`), and the outlives relation of the
/// universal regions: the least of the choices that fit, if any.
pub fn member_choice(choices: &Vec<u32>, lower: &Vec<u32>, upper: &Vec<u32>, rel: &Vec<Vec<bool>>) -> (r: Option<u32>)
    requires
        square(rel@.map_values(|v: Vec<bool>| v@)),
        universal(rel@.map_values(|v: Vec<bool>| v@), choices@),
        universal(rel@.map_values(|v: Vec<bool>| v@), lower@),
        universal(rel@.map_values(|v: Vec<bool>| v@), upper@),
    ensures
        r == member_choice_spec(rel@.map_values(|v: Vec<bool>| v@), lower@, upper@, choices@),
{
    let ghost t = rel@.map_values(|v: Vec<bool>| v@);
    let mut cands: Vec<u32> = Vec::new();
    let mut i: usize = 0;
    while i < choices.len()
        invariant
            i <= choices@.len(),
            t == rel@.map_values(|v: Vec<bool>| v@),
            square(t),
            universal(t, choices@),
            universal(t, lower@),
            universal(t, upper@),
            cands@ == candidates(t, lower@, upper@, choices@.subrange(0, i as int)),
            universal(t, cands@),
        decreases choices@.len() - i,
    {
        let o = choices[i];
        assert(choices@.subrange(0, i + 1).drop_last() =~= choices@.subrange(0, i as int));
        assert(choices@.subrange(0, i + 1).last() == o);
        assert((o as int) < t.len());
        if fits_bounds(rel, lower, upper, o) {
            cands.push(o);
        }
        i = i + 1;
    }
    assert(choices@.subrange(0, choices@.len() as int) =~= choices@);
    if cands.len() == 0 {
        return None;
    }
    let mut m = cands[0];
    let mut k: usize = 1;
    assert(cands@.subrange(0, 1) =~= seq![m]);
    while k < cands.len()
        invariant
            1 <= k <= cands@.len(),
            t == rel@.map_values(|v: Vec<bool>| v@),
            square(t),
            universal(t, cands@),
            cands@ == candidates(t, lower@, upper@, choices@),
            least(t, cands@.subrange(0, k as int)) == Some(m),
            (m as int) < t.len(),
        decreases cands@.len() - k,
    {
        let other = cands[k];
        assert(cands@.subrange(0, k + 1).drop_last() =~= cands@.subrange(0, k as int));
        assert(cands@.subrange(0, k + 1).last() == other);
        assert((other as int) < t.len());
        match min_of(rel, m, other) {
            Some(x) => {
                m = x;
            },
            None => {
                assert(least(t, cands@.subrange(0, k + 1)) is None);
                proof {
                    lemma_least_stays_none(t, cands@, k as int + 1);
                }
                assert(cands@.subrange(0, cands@.len() as int) =~= cands@);
                return None;
            },
        }
        k = k + 1;
    }
    assert(cands@.subrange(0, cands@.len() as int) =~= cands@);
    Some(m)
}

/// Once two regions met are unrelated, no least region is found.
proof fn lemma_least_stays_none(rel: Seq<Seq<bool>>, rs: Seq<u32>, k: int)
    requires
        1 <= k <= rs.len(),
        least(rel, rs.subrange(0, k)) is None,
    ensures
        least(rel, rs.subrange(0, rs.len() as int)) is None,
    decreases rs.len() - k,
{
    if k < rs.len() {
        assert(rs.subrange(0, k + 1).drop_last() =~= rs.subrange(0, k));
        lemma_least_stays_none(rel, rs, k + 1);
    }
}

/// The elements of `src` that `dst` lacks, in order.
pub open spec fn missing(src: Seq<u32>, dst: Seq<u32>) -> Seq<u32>
    decreases src.len(),
{
    if src.len() == 0 {
        Seq::empty()
    } else {
        let rest = missing(src.drop_last(), dst);
        if dst.contains(src.last()) || rest.contains(src.last()) {
            rest
        } else {
            rest.push(src.last())
        }
    }
}

/// Adds the elements of the value of `other` to the value of `scc`;
/// whether the value of `scc` grew.
pub fn add_region(values: &mut Vec<Vec<u32>>, scc: usize, other: usize) -> (changed: bool)
    requires
        scc < old(values)@.len(),
        other < old(values)@.len(),
    ensures
        final(values)@.len() == old(values)@.len(),
        forall|i: int| 0 <= i < old(values)@.len() && i != scc ==> #[trigger] final(values)@[i] == old(values)@[i],
        final(values)@[scc as int]@ == old(values)@[scc as int]@ + missing(
            old(values)@[other as int]@,
            old(values)@[scc as int]@,
        ),
        changed == (missing(old(values)@[other as int]@, old(values)@[scc as int]@).len() > 0),
{
    let src = values[other].clone();
    let ghost dst0 = values@[scc as int]@;
    let mut added: Vec<u32> = Vec::new();
    let mut i: usize = 0;
    while i < src.len()
        invariant
            i <= src@.len(),
            src@ == old(values)@[other as int]@,
            values@ == old(values)@,
            scc < values@.len(),
            dst0 == old(values)@[scc as int]@,
            added@ == missing(src@.subrange(0, i as int), dst0),
        decreases src@.len() - i,
    {
        let x = src[i];
        assert(src@.subrange(0, i + 1).drop_last() =~= src@.subrange(0, i as int));
        assert(src@.subrange(0, i + 1).last() == x);
        if !contains_u32(&values[scc], x) && !contains_u32(&added, x) {
            added.push(x);
        }
        i = i + 1;
    }
    assert(src@.subrange(0, src@.len() as int) =~= src@);
    let changed = added.len() > 0;
    let mut row = values[scc].clone();
    let ghost r0 = row@;
    let mut j: usize = 0;
    while j < added.len()
        invariant
            j <= added@.len(),
            row@ == r0 + added@.subrange(0, j as int),
        decreases added@.len() - j,
    {
        row.push(added[j]);
        j = j + 1;
        assert(row@ =~= r0 + added@.subrange(0, j as int));
    }
    assert(added@.subrange(0, added@.len() as int) =~= added@);
    values.set(scc, row);
    changed
}

/// Whether `v` holds `x`.
fn contains_u32(v: &Vec<u32>, x: u32) -> (r: bool)
    ensures
        r == v@.contains(x),
{
    let mut i: usize = 0;
    while i < v.len()
        invariant
            i <= v@.len(),
            forall|j: int| 0 <= j < i ==> v@[j] != x,
        decreases v@.len() - i,
    {
        if v[i] == x {
            assert(v@[i as int] == x);
            return true;
        }
        i = i + 1;
    }
    false
}

/// A member constraint that was applied: the member region's SCC, the
/// region chosen, and the constraint's index.
#[derive(Clone, Copy, Debug, PartialEq, Eq)]
pub struct AppliedMemberConstraint {
    pub member_region_scc: usize,
    pub min_choice: u32,
    pub member_constraint_index: usize,
}

/// Applies the member constraint `member_constraint_index` to the value of
/// SCC `scc`: the chosen region (see `member_choice`), if any, has its
/// SCC's value (`scc_of` gives each region's SCC) added to the value of
/// `scc`; when that grows the value, the application is recorded in
/// `applied`. Returns whether the value grew.
pub fn apply_member_constraint(
    values: &mut Vec<Vec<u32>>,
    applied: &mut Vec<AppliedMemberConstraint>,
    scc: usize,
    member_constraint_index: usize,
    choices: &Vec<u32>,
    lower: &Vec<u32>,
    upper: &Vec<u32>,
    rel: &Vec<Vec<bool>>,
    scc_of: &Vec<usize>,
) -> (changed: bool)
    requires
        scc < old(values)@.len(),
        square(rel@.map_values(|v: Vec<bool>| v@)),
        universal(rel@.map_values(|v: Vec<bool>| v@), choices@),
        universal(rel@.map_values(|v: Vec<bool>| v@), lower@),
        universal(rel@.map_values(|v: Vec<bool>| v@), upper@),
        scc_of@.len() == rel@.len(),
        forall|i: int| 0 <= i < scc_of@.len() ==> #[trigger] scc_of@[i] < old(values)@.len(),
    ensures
        final(values)@.len() == old(values)@.len(),
        match member_choice_spec(rel@.map_values(|v: Vec<bool>| v@), lower@, upper@, choices@) {
            None => {
                &&& !changed
                &&& final(values)@ == old(values)@
                &&& final(applied)@ == old(applied)@
            },
            Some(m) => {
                let other = scc_of@[m as int] as int;
                let grown = missing(old(values)@[other]@, old(values)@[scc as int]@);
                &&& changed == (grown.len() > 0)
                &&& final(values)@[scc as int]@ == old(values)@[scc as int]@ + grown
                &&& forall|i: int| 0 <= i < old(values)@.len() && i != scc ==> #[trigger] final(values)@[i] == old(values)@[i]
                &&& final(applied)@ == if changed {
                    old(applied)@.push(
                        AppliedMemberConstraint { member_region_scc: scc, min_choice: m, member_constraint_index },
                    )
                } else {
                    old(applied)@
                }
            },
        },
{
    match member_choice(choices, lower, upper, rel) {
        None => false,
        Some(m) => {
            proof {
                lemma_choice_universal(rel@.map_values(|v: Vec<bool>| v@), lower@, upper@, choices@);
            }
            let other = scc_of[m as usize];
            let changed = add_region(values, scc, other);
            if changed {
                applied.push(AppliedMemberConstraint { member_region_scc: scc, min_choice: m, member_constraint_index });
            }
            changed
        },
    }
}

/// The chosen region is one of the choices.
proof fn lemma_choice_universal(rel: Seq<Seq<bool>>, lower: Seq<u32>, upper: Seq<u32>, choices: Seq<u32>)
    requires
        universal(rel, choices),
    ensures
        member_choice_spec(rel, lower, upper, choices) matches Some(m) ==> (m as int) < rel.len(),
{
    lemma_candidates_universal(rel, lower, upper, choices);
    lemma_least_universal(rel, candidates(rel, lower, upper, choices));
}

proof fn lemma_candidates_universal(rel: Seq<Seq<bool>>, lower: Seq<u32>, upper: Seq<u32>, choices: Seq<u32>)
    requires
        universal(rel, choices),
    ensures
        universal(rel, candidates(rel, lower, upper, choices)),
    decreases choices.len(),
{
    if choices.len() > 0 {
        let init = choices.drop_last();
        assert forall|i: int| 0 <= i < init.len() implies (#[trigger] init[i] as int) < rel.len() by {
            assert(init[i] == choices[i]);
        }
        lemma_candidates_universal(rel, lower, upper, init);
        assert((choices.last() as int) < rel.len()) by {
            assert(choices.last() == choices[choices.len() - 1]);
        }
    }
}

proof fn lemma_least_universal(rel: Seq<Seq<bool>>, rs: Seq<u32>)
    requires
        universal(rel, rs),
    ensures
        least(rel, rs) matches Some(m) ==> (m as int) < rel.len(),
    decreases rs.len(),
{
    if rs.len() > 1 {
        let init = rs.drop_last();
        assert forall|i: int| 0 <= i < init.len() implies (#[trigger] init[i] as int) < rel.len() by {
            assert(init[i] == rs[i]);
        }
        lemma_least_universal(rel, init);
        assert((rs.last() as int) < rel.len()) by {
            assert(rs.last() == rs[rs.len() - 1]);
        }
    } else if rs.len() == 1 {
        assert((rs[0] as int) < rel.len());
    }
}

/// The least of some regions is one of them.
proof fn lemma_least_member(rel: Seq<Seq<bool>>, rs: Seq<u32>)
    ensures
        least(rel, rs) matches Some(m) ==> rs.contains(m),
    decreases rs.len(),
{
    if rs.len() == 1 {
        assert(rs[0] == rs[0]);
    } else if rs.len() > 1 {
        let init = rs.drop_last();
        lemma_least_member(rel, init);
        if let Some(m) = least(rel, rs) {
            let m0 = least(rel, init)->0;
            let k = choose|k: int| 0 <= k < init.len() && init[k] == m0;
            assert(rs[k] == m0);
            assert(rs[rs.len() - 1] == rs.last());
        }
    }
}

/// Every region of `rs` outlives their least one, when the relation is
/// reflexive and transitive over the regions.
proof fn lemma_least_is_least(rel: Seq<Seq<bool>>, rs: Seq<u32>)
    requires
        universal(rel, rs),
        forall|a: u32| (a as int) < rel.len() ==> #[trigger] rel[a as int][a as int],
        forall|a: u32, b: u32, c: u32|
            (a as int) < rel.len() && (b as int) < rel.len() && (c as int) < rel.len()
                && #[trigger] rel[a as int][b as int] && #[trigger] rel[b as int][c as int]
                ==> rel[a as int][c as int],
    ensures
        least(rel, rs) matches Some(m) ==> forall|i: int| 0 <= i < rs.len() ==> rel[(#[trigger] rs[i]) as int][m as int],
        least(rel, rs) matches Some(m) ==> forall|i: int|
            0 <= i < rs.len() && rel[m as int][(#[trigger] rs[i]) as int] ==> m <= rs[i],
    decreases rs.len(),
{
    if rs.len() == 1 {
        assert((rs[0] as int) < rel.len());
    } else if rs.len() > 1 {
        let init = rs.drop_last();
        assert forall|i: int| 0 <= i < init.len() implies (#[trigger] init[i] as int) < rel.len() by {
            assert(init[i] == rs[i]);
        }
        lemma_least_is_least(rel, init);
        lemma_least_universal(rel, init);
        let last = rs.last();
        assert((last as int) < rel.len()) by {
            assert(last == rs[rs.len() - 1]);
        }
        if let Some(m) = least(rel, rs) {
            let m0 = least(rel, init)->0;
            assert forall|i: int| 0 <= i < rs.len() implies rel[(#[trigger] rs[i]) as int][m as int] by {
                assert((rs[i] as int) < rel.len());
                if i < rs.len() - 1 {
                    assert(rs[i] == init[i]);
                    assert(rel[init[i] as int][m0 as int]);
                } else {
                    assert(rs[i] == last);
                }
            }
            assert forall|i: int| 0 <= i < rs.len() && rel[m as int][(#[trigger] rs[i]) as int] implies m <= rs[i] by {
                assert((rs[i] as int) < rel.len());
                if i < rs.len() - 1 {
                    assert(rs[i] == init[i]);
                    let y = init[i];
                    assert(rel[y as int][m0 as int]);
                    if m == last && !rel[last as int][m0 as int] {
                        // y would lie between `last` and `m0`, so `last` would outlive `m0`
                        assert(rel[m0 as int][last as int]);
                        assert(rel[last as int][y as int]);
                        assert(false);
                    }
                    if m == m0 {
                        assert(rel[m0 as int][init[i] as int]);
                    } else if rel[m0 as int][last as int] && rel[last as int][m0 as int] {
                        assert(rel[m0 as int][y as int]);
                        assert(m0 <= y);
                    }
                } else {
                    assert(rs[i] == last);
                }
            }
        }
    }
}

/// The candidates are the choices that fit.
proof fn lemma_candidates_fit(rel: Seq<Seq<bool>>, lower: Seq<u32>, upper: Seq<u32>, choices: Seq<u32>)
    ensures
        forall|o: u32| #[trigger] candidates(rel, lower, upper, choices).contains(o) <==> choices.contains(o)
            && fits(rel, lower, upper, o),
    decreases choices.len(),
{
    if choices.len() > 0 {
        let init = choices.drop_last();
        lemma_candidates_fit(rel, lower, upper, init);
        let c = candidates(rel, lower, upper, choices);
        let ci = candidates(rel, lower, upper, init);
        assert forall|o: u32| #[trigger] c.contains(o) <==> choices.contains(o) && fits(rel, lower, upper, o) by {
            if c.contains(o) {
                let k = choose|k: int| 0 <= k < c.len() && c[k] == o;
                if k < ci.len() {
                    assert(ci[k] == o);
                    assert(ci.contains(o));
                    let j = choose|j: int| 0 <= j < init.len() && init[j] == o;
                    assert(choices[j] == o);
                } else {
                    assert(choices[choices.len() - 1] == o);
                }
            }
            if choices.contains(o) && fits(rel, lower, upper, o) {
                let j = choose|j: int| 0 <= j < choices.len() && choices[j] == o;
                if j < choices.len() - 1 {
                    assert(init[j] == o);
                    assert(ci.contains(o));
                    let k = choose|k: int| 0 <= k < ci.len() && ci[k] == o;
                    assert(c[k] == o);
                } else {
                    assert(c[c.len() - 1] == o);
                }
            }
        }
    }
}

/// Law: the region a member constraint chooses is one of the choices, it
/// outlives every lower bound, and every upper bound outlives it (in the
/// table, `rel[a][b]` says that `a` outlives `b`). When the relation is
/// reflexive and transitive, every choice that outlives the lower bounds
/// and is outlived by the upper bounds outlives the chosen one: it is the
/// least of them, and the one with the smallest index among those that
/// outlive each other.
pub proof fn law_member_choice_fits(rel: Seq<Seq<bool>>, lower: Seq<u32>, upper: Seq<u32>, choices: Seq<u32>)
    requires
        square(rel),
        universal(rel, choices),
        universal(rel, lower),
        universal(rel, upper),
    ensures
        member_choice_spec(rel, lower, upper, choices) matches Some(m) ==> {
            &&& choices.contains(m)
            &&& forall|i: int| 0 <= i < lower.len() ==> rel[m as int][(#[trigger] lower[i]) as int]
            &&& forall|i: int| 0 <= i < upper.len() ==> rel[(#[trigger] upper[i]) as int][m as int]
        },
        (forall|a: u32| (a as int) < rel.len() ==> #[trigger] rel[a as int][a as int]) && (forall|a: u32, b: u32, c: u32|
            (a as int) < rel.len() && (b as int) < rel.len() && (c as int) < rel.len()
                && #[trigger] rel[a as int][b as int] && #[trigger] rel[b as int][c as int]
                ==> rel[a as int][c as int]) ==> (member_choice_spec(rel, lower, upper, choices) matches Some(m)
            ==> forall|o: u32|
            #![trigger choices.contains(o)]
            choices.contains(o) && (forall|i: int| 0 <= i < lower.len() ==> rel[o as int][(#[trigger] lower[i]) as int])
                && (forall|i: int| 0 <= i < upper.len() ==> rel[(#[trigger] upper[i]) as int][o as int])
                ==> rel[o as int][m as int] && (rel[m as int][o as int] ==> m <= o)),
{
    let c = candidates(rel, lower, upper, choices);
    lemma_candidates_fit(rel, lower, upper, choices);
    lemma_least_member(rel, c);
    lemma_candidates_universal(rel, lower, upper, choices);
    if let Some(m) = member_choice_spec(rel, lower, upper, choices) {
        assert(c.contains(m));
        assert(fits(rel, lower, upper, m));
    }
    if (forall|a: u32| (a as int) < rel.len() ==> #[trigger] rel[a as int][a as int]) && (forall|a: u32, b: u32, c: u32|
        (a as int) < rel.len() && (b as int) < rel.len() && (c as int) < rel.len()
            && #[trigger] rel[a as int][b as int] && #[trigger] rel[b as int][c as int]
            ==> rel[a as int][c as int]) {
        lemma_least_is_least(rel, c);
        if let Some(m) = member_choice_spec(rel, lower, upper, choices) {
            assert forall|o: u32|
                #![trigger choices.contains(o)]
                choices.contains(o) && (forall|i: int| 0 <= i < lower.len() ==> rel[o as int][(#[trigger] lower[i]) as int])
                    && (forall|i: int| 0 <= i < upper.len() ==> rel[(#[trigger] upper[i]) as int][o as int])
                    implies rel[o as int][m as int] && (rel[m as int][o as int] ==> m <= o) by {
                assert(fits(rel, lower, upper, o));
                assert(c.contains(o));
                let k = choose|k: int| 0 <= k < c.len() && c[k] == o;
                assert(rel[(c[k]) as int][m as int]);
                if rel[m as int][o as int] {
                    assert(rel[m as int][(c[k]) as int]);
                }
            }
        }
    }
}

proof fn lemma_least_some(rel: Seq<Seq<bool>>, rs: Seq<u32>)
    requires
        rs.len() > 0,
        universal(rel, rs),
        forall|a: u32, b: u32|
            (a as int) < rel.len() && (b as int) < rel.len() ==> #[trigger] rel[a as int][b as int] || rel[b as int][a as int],
    ensures
        least(rel, rs) is Some,
    decreases rs.len(),
{
    if rs.len() > 1 {
        let init = rs.drop_last();
        assert forall|i: int| 0 <= i < init.len() implies (#[trigger] init[i] as int) < rel.len() by {
            assert(init[i] == rs[i]);
        }
        lemma_least_some(rel, init);
        lemma_least_universal(rel, init);
        let m0 = least(rel, init)->0;
        assert((rs.last() as int) < rel.len()) by {
            assert(rs.last() == rs[rs.len() - 1]);
        }
        assert(rel[m0 as int][rs.last() as int] || rel[rs.last() as int][m0 as int]);
    }
}

/// Law: when any two universal regions are related one way or the other,
/// a member constraint with a choice that outlives every lower bound and
/// is outlived by every upper bound chooses some region.
pub proof fn law_member_choice_exists(rel: Seq<Seq<bool>>, lower: Seq<u32>, upper: Seq<u32>, choices: Seq<u32>, o: u32)
    requires
        square(rel),
        universal(rel, choices),
        forall|a: u32, b: u32|
            (a as int) < rel.len() && (b as int) < rel.len() ==> #[trigger] rel[a as int][b as int] || rel[b as int][a as int],
        choices.contains(o),
        forall|i: int| 0 <= i < lower.len() ==> rel[o as int][(#[trigger] lower[i]) as int],
        forall|i: int| 0 <= i < upper.len() ==> rel[(#[trigger] upper[i]) as int][o as int],
    ensures
        member_choice_spec(rel, lower, upper, choices) is Some,
{
    let c = candidates(rel, lower, upper, choices);
    lemma_candidates_fit(rel, lower, upper, choices);
    lemma_candidates_universal(rel, lower, upper, choices);
    assert(fits(rel, lower, upper, o));
    assert(c.contains(o));
    lemma_least_some(rel, c);
}

} // verus!
