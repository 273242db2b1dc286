//! The lint list: the order of its entries, and the collector that fills
//! it with each lint's metadata and the applicability of its suggestions.

use vstd::prelude::*;
use vstd::relations::{sorted_by, total_ordering};
use crate::lint_metadata::{
    affects, config_lines, configuration_heading, configuration_section, ApplicabilityInfo,
    ClippyConfiguration, LintMetadata,
};
use crate::strings::str_eq;
use crate::text_order::{
    key_le, text_le, text_lt, lemma_key_le_refl, lemma_key_le_total, lemma_key_le_trans,
    lemma_text_le_refl, lemma_text_le_total, lemma_text_le_trans,
};

verus! {

/// What the order of the lint list reads of a lint: all of it.
pub struct LintMetadataView {
    pub id: Seq<char>,
    pub path: Seq<char>,
    pub line: usize,
    pub group: Seq<char>,
    pub level: Seq<char>,
    pub docs: Seq<char>,
    pub version: Seq<char>,
    pub applicability: Option<(bool, Option<usize>)>,
    pub former_ids: Seq<Seq<char>>,
}

/// The view of an applicability: whether a suggestion spans several
/// places, and the applicability's index.
pub open spec fn applicability_view(a: ApplicabilityInfo) -> (bool, Option<usize>) {
    (a.is_multi_part_suggestion, a.applicability)
}

impl View for LintMetadata {
    type V = LintMetadataView;

    open spec fn view(&self) -> LintMetadataView {
        LintMetadataView {
            id: self.id@,
            path: self.id_span.path@,
            line: self.id_span.line,
            group: self.group@,
            level: self.level@,
            docs: self.docs@,
            version: self.version@,
            applicability: match self.applicability {
                Some(a) => Some(applicability_view(a)),
                None => None,
            },
            former_ids: self.former_ids@.map_values(|s: String| s@),
        }
    }
}

/// The order of optional numbers: nothing first, then by value.
pub open spec fn option_le(a: Option<usize>, b: Option<usize>) -> bool {
    match (a, b) {
        (None, _) => true,
        (Some(_), None) => false,
        (Some(x), Some(y)) => x <= y,
    }
}

/// The order of applicabilities: nothing first; then single-place
/// suggestions before multi-place ones, then by the applicability.
pub open spec fn applicability_le(a: Option<(bool, Option<usize>)>, b: Option<(bool, Option<usize>)>) -> bool {
    match (a, b) {
        (None, _) => true,
        (Some(_), None) => false,
        (Some(x), Some(y)) => if x.0 != y.0 {
            !x.0
        } else {
            option_le(x.1, y.1)
        },
    }
}

/// The order of the lint list: by id, then by the place of the
/// declaration (file, then line), group, level, documentation, version,
/// applicability and earlier names.
pub open spec fn lint_le(a: LintMetadataView, b: LintMetadataView) -> bool {
    if a.id != b.id {
        text_le(a.id, b.id)
    } else if a.path != b.path {
        text_le(a.path, b.path)
    } else if a.line != b.line {
        a.line < b.line
    } else if a.group != b.group {
        text_le(a.group, b.group)
    } else if a.level != b.level {
        text_le(a.level, b.level)
    } else if a.docs != b.docs {
        text_le(a.docs, b.docs)
    } else if a.version != b.version {
        text_le(a.version, b.version)
    } else if a.applicability != b.applicability {
        applicability_le(a.applicability, b.applicability)
    } else {
        key_le(a.former_ids, b.former_ids)
    }
}

/// The order of the lint list, as a relation.
pub open spec fn lint_order() -> spec_fn(LintMetadataView, LintMetadataView) -> bool {
    |a: LintMetadataView, b: LintMetadataView| lint_le(a, b)
}

proof fn lemma_lint_le_total(a: LintMetadataView, b: LintMetadataView)
    ensures
        lint_le(a, b) || lint_le(b, a),
        lint_le(a, b) && lint_le(b, a) ==> a == b,
{
    lemma_text_le_total(a.id, b.id);
    lemma_text_le_total(a.path, b.path);
    lemma_text_le_total(a.group, b.group);
    lemma_text_le_total(a.level, b.level);
    lemma_text_le_total(a.docs, b.docs);
    lemma_text_le_total(a.version, b.version);
    lemma_key_le_total(a.former_ids, b.former_ids);
}

proof fn lemma_lint_le_trans(a: LintMetadataView, b: LintMetadataView, c: LintMetadataView)
    ensures
        lint_le(a, b) && lint_le(b, c) ==> lint_le(a, c),
{
    lemma_text_le_total(a.id, b.id);
    lemma_text_le_total(b.id, c.id);
    lemma_text_le_total(a.id, c.id);
    lemma_text_le_trans(a.id, b.id, c.id);
    lemma_text_le_total(a.path, b.path);
    lemma_text_le_total(b.path, c.path);
    lemma_text_le_total(a.path, c.path);
    lemma_text_le_trans(a.path, b.path, c.path);
    lemma_text_le_total(a.group, b.group);
    lemma_text_le_total(b.group, c.group);
    lemma_text_le_total(a.group, c.group);
    lemma_text_le_trans(a.group, b.group, c.group);
    lemma_text_le_total(a.level, b.level);
    lemma_text_le_total(b.level, c.level);
    lemma_text_le_total(a.level, c.level);
    lemma_text_le_trans(a.level, b.level, c.level);
    lemma_text_le_total(a.docs, b.docs);
    lemma_text_le_total(b.docs, c.docs);
    lemma_text_le_total(a.docs, c.docs);
    lemma_text_le_trans(a.docs, b.docs, c.docs);
    lemma_text_le_total(a.version, b.version);
    lemma_text_le_total(b.version, c.version);
    lemma_text_le_total(a.version, c.version);
    lemma_text_le_trans(a.version, b.version, c.version);
    lemma_key_le_total(a.former_ids, b.former_ids);
    lemma_key_le_total(b.former_ids, c.former_ids);
    lemma_key_le_total(a.former_ids, c.former_ids);
    lemma_key_le_trans(a.former_ids, b.former_ids, c.former_ids);
}

/// The order of the lint list is a total order.
pub proof fn lemma_lint_order_total()
    ensures
        total_ordering(lint_order()),
{
    let r = lint_order();
    assert forall|x: LintMetadataView| #[trigger] r(x, x) by {
        lemma_text_le_refl(x.id);
        lemma_key_le_refl(x.former_ids);
    }
    assert forall|x: LintMetadataView, y: LintMetadataView| #[trigger] r(x, y) && #[trigger] r(y, x)
        implies x == y by {
        lemma_lint_le_total(x, y);
    }
    assert forall|x: LintMetadataView, y: LintMetadataView, z: LintMetadataView|
        #[trigger] r(x, y) && #[trigger] r(y, z) implies r(x, z) by {
        lemma_lint_le_trans(x, y, z);
    }
    assert forall|x: LintMetadataView, y: LintMetadataView| #[trigger] r(x, y) || #[trigger] r(y, x) by {
        lemma_lint_le_total(x, y);
    }
}

/// The view of an optional applicability.
pub open spec fn optional_applicability_view(a: Option<ApplicabilityInfo>) -> Option<(bool, Option<usize>)> {
    match a {
        Some(x) => Some(applicability_view(x)),
        None => None,
    }
}

/// The views of some strings.
pub open spec fn texts(v: Seq<String>) -> Seq<Seq<char>> {
    v.map_values(|s: String| s@)
}

/// Whether two optional applicabilities are the same.
fn applicability_eq(a: &Option<ApplicabilityInfo>, b: &Option<ApplicabilityInfo>) -> (r: bool)
    ensures
        r == (optional_applicability_view(*a) == optional_applicability_view(*b)),
{
    match (a, b) {
        (None, None) => true,
        (Some(x), Some(y)) => x.is_multi_part_suggestion == y.is_multi_part_suggestion
            && x.applicability == y.applicability,
        _ => false,
    }
}

/// Whether `a` comes strictly before `b` in the order of applicabilities.
fn applicability_lt(a: &Option<ApplicabilityInfo>, b: &Option<ApplicabilityInfo>) -> (r: bool)
    ensures
        r == !applicability_le(optional_applicability_view(*b), optional_applicability_view(*a)),
{
    match (a, b) {
        (_, None) => false,
        (None, Some(_)) => true,
        (Some(x), Some(y)) => {
            if x.is_multi_part_suggestion != y.is_multi_part_suggestion {
                !x.is_multi_part_suggestion
            } else {
                match (x.applicability, y.applicability) {
                    (_, None) => false,
                    (None, Some(_)) => true,
                    (Some(p), Some(q)) => p < q,
                }
            }
        },
    }
}

/// Whether the list `a` comes strictly before `b` in the order of lists of
/// strings.
fn strings_lt(a: &Vec<String>, b: &Vec<String>) -> (r: bool)
    ensures
        r == !key_le(texts(b@), texts(a@)),
{
    let ghost x = texts(a@);
    let ghost y = texts(b@);
    let mut i: usize = 0;
    assert(y.subrange(0, y.len() as int) =~= y);
    assert(x.subrange(0, x.len() as int) =~= x);
    while i < a.len() && i < b.len() && str_eq(a[i].as_str(), b[i].as_str())
        invariant
            i <= a@.len(),
            i <= b@.len(),
            x == texts(a@),
            y == texts(b@),
            key_le(y, x) == key_le(
                y.subrange(i as int, y.len() as int),
                x.subrange(i as int, x.len() as int),
            ),
        decreases a@.len() - i,
    {
        proof {
            let ys = y.subrange(i as int, y.len() as int);
            let xs = x.subrange(i as int, x.len() as int);
            assert(ys.drop_first() =~= y.subrange(i + 1, y.len() as int));
            assert(xs.drop_first() =~= x.subrange(i + 1, x.len() as int));
            assert(ys[0] == xs[0]);
        }
        i = i + 1;
    }
    let ghost ys = y.subrange(i as int, y.len() as int);
    let ghost xs = x.subrange(i as int, x.len() as int);
    if i == b.len() {
        assert(ys.len() == 0);
        false
    } else if i == a.len() {
        assert(xs.len() == 0);
        true
    } else {
        assert(ys[0] == y[i as int] && xs[0] == x[i as int]);
        assert(x[i as int] != y[i as int]);
        text_lt(a[i].as_str(), b[i].as_str())
    }
}

/// Whether `a` comes strictly before `b` in the lint list.
pub fn lint_lt(a: &LintMetadata, b: &LintMetadata) -> (r: bool)
    ensures
        r == !lint_le(b@, a@),
{
    if !str_eq(a.id.as_str(), b.id.as_str()) {
        return text_lt(a.id.as_str(), b.id.as_str());
    }
    if !str_eq(a.id_span.path.as_str(), b.id_span.path.as_str()) {
        return text_lt(a.id_span.path.as_str(), b.id_span.path.as_str());
    }
    if a.id_span.line != b.id_span.line {
        return a.id_span.line < b.id_span.line;
    }
    if !str_eq(a.group.as_str(), b.group.as_str()) {
        return text_lt(a.group.as_str(), b.group.as_str());
    }
    if !str_eq(a.level.as_str(), b.level.as_str()) {
        return text_lt(a.level.as_str(), b.level.as_str());
    }
    if !str_eq(a.docs.as_str(), b.docs.as_str()) {
        return text_lt(a.docs.as_str(), b.docs.as_str());
    }
    if !str_eq(a.version.as_str(), b.version.as_str()) {
        return text_lt(a.version.as_str(), b.version.as_str());
    }
    if !applicability_eq(&a.applicability, &b.applicability) {
        return applicability_lt(&a.applicability, &b.applicability);
    }
    strings_lt(&a.former_ids, &b.former_ids)
}

/// The views of some lints.
pub open spec fn lint_views(s: Seq<LintMetadata>) -> Seq<LintMetadataView> {
    s.map_values(|l: LintMetadata| l@)
}

/// Sorts lints into the order of the lint list.
pub fn sort_lints(lints: Vec<LintMetadata>) -> (r: Vec<LintMetadata>)
    ensures
        lint_views(r@) == lint_views(lints@).sort_by(lint_order()),
{
    broadcast use vstd::multiset::group_multiset_axioms;
    let ghost all = lint_views(lints@);
    let mut rest = lints;
    let mut out: Vec<LintMetadata> = Vec::new();
    proof {
        assert(lint_views(out@) =~= Seq::<LintMetadataView>::empty());
        assert(lint_views(rest@) =~= all);
        lint_views(out@).to_multiset_ensures();
        vstd::multiset::lemma_multiset_empty_len(lint_views(out@).to_multiset());
        assert(lint_views(out@).to_multiset().add(lint_views(rest@).to_multiset()) =~= all.to_multiset());
    }
    while rest.len() > 0
        invariant
            sorted_by(lint_views(out@), lint_order()),
            lint_views(out@).to_multiset().add(lint_views(rest@).to_multiset()) == all.to_multiset(),
        decreases rest.len(),
    {
        let ghost before_rest = rest@;
        let x = rest.pop().unwrap();
        proof {
            assert(lint_views(before_rest) =~= lint_views(rest@).push(x@));
            vstd::seq_lib::to_multiset_build(lint_views(rest@), x@);
        }
        let mut j: usize = 0;
        while j < out.len() && !lint_lt(&x, &out[j])
            invariant
                j <= out@.len(),
                forall|i: int| 0 <= i < j ==> lint_le(#[trigger] lint_views(out@)[i], x@),
            decreases out@.len() - j,
        {
            j = j + 1;
        }
        let ghost old_out = lint_views(out@);
        proof {
            if j < out.len() {
                lemma_lint_le_total(x@, out@[j as int]@);
            }
        }
        out.insert(j, x);
        proof {
            let new_out = lint_views(out@);
            assert(new_out =~= old_out.insert(j as int, x@));
            vstd::seq_lib::to_multiset_insert(old_out, j as int, x@);
            assert forall|a: int, b: int| 0 <= a < b < new_out.len() implies #[trigger] lint_order()(
                new_out[a],
                new_out[b],
            ) by {
                if b < j {
                    assert(lint_order()(old_out[a], old_out[b]));
                } else if b == j {
                    assert(lint_le(old_out[a], x@));
                } else if a == j {
                    assert(lint_order()(old_out[j as int], old_out[b - 1]) || j == b - 1);
                    if j < b - 1 {
                        lemma_lint_le_trans(x@, old_out[j as int], old_out[b - 1]);
                    }
                } else if a < j {
                    assert(lint_order()(old_out[a], old_out[b - 1]));
                } else {
                    assert(lint_order()(old_out[a - 1], old_out[b - 1]));
                }
            }
            assert(new_out.to_multiset().add(lint_views(rest@).to_multiset()) =~= all.to_multiset());
        }
    }
    proof {
        assert(lint_views(rest@) =~= Seq::<LintMetadataView>::empty());
        assert(lint_views(out@).to_multiset() =~= all.to_multiset());
        lemma_lint_order_total();
        all.lemma_sort_by_ensures(lint_order());
        vstd::seq_lib::lemma_sorted_unique(lint_views(out@), all.sort_by(lint_order()), lint_order());
    }
    out
}

/// The applicability recorded for the lint name `k` in a list of records:
/// that of the first record for it.
pub open spec fn recorded(info: Seq<(String, ApplicabilityInfo)>, k: Seq<char>) -> Option<(bool, Option<usize>)>
    decreases info.len(),
{
    if info.len() == 0 {
        None
    } else {
        match recorded(info.drop_last(), k) {
            Some(a) => Some(a),
            None => if info.last().0@ == k {
                Some(applicability_view(info.last().1))
            } else {
                None
            },
        }
    }
}

proof fn lemma_recorded_update(
    info: Seq<(String, ApplicabilityInfo)>,
    i: int,
    e: (String, ApplicabilityInfo),
    k: Seq<char>,
)
    requires
        0 <= i < info.len(),
        recorded(info.take(i), info[i].0@) is None,
        e.0@ == info[i].0@,
    ensures
        recorded(info.update(i, e), k) == if k == e.0@ {
            Some(applicability_view(e.1))
        } else {
            recorded(info, k)
        },
    decreases info.len(),
{
    let u = info.update(i, e);
    if i == info.len() - 1 {
        assert(u.drop_last() =~= info.drop_last());
        assert(info.take(i) =~= info.drop_last());
    } else {
        assert(u.drop_last() =~= info.drop_last().update(i, e));
        assert(info.drop_last().take(i) =~= info.take(i));
        lemma_recorded_update(info.drop_last(), i, e, k);
        lemma_recorded_prefix(info.drop_last(), i + 1, e.0@);
        assert(info.drop_last().take(i + 1).drop_last() =~= info.take(i));
    }
}

/// A list with a record for `k` at `n - 1` has a record for `k`.
proof fn lemma_recorded_prefix(info: Seq<(String, ApplicabilityInfo)>, n: int, k: Seq<char>)
    requires
        1 <= n <= info.len(),
        info[n - 1].0@ == k,
    ensures
        recorded(info, k) is Some,
    decreases info.len(),
{
    if n == info.len() {
        assert(info.take(n) =~= info);
    } else {
        lemma_recorded_prefix(info.drop_last(), n, k);
    }
}

/// Whether a lint is the first of its id in a list.
pub open spec fn first_with_id(s: Seq<LintMetadataView>, i: int) -> bool {
    forall|j: int| 0 <= j < i ==> #[trigger] s[j].id != s[i].id
}

/// A lint with the given applicability.
pub open spec fn with_applicability(l: LintMetadataView, a: (bool, Option<usize>)) -> LintMetadataView {
    LintMetadataView { applicability: Some(a), ..l }
}

/// The applicability given to the lint at `i` of the sorted list: the one
/// recorded for its id when it is the first lint with that id, else none
/// recorded and no suggestion spanning several places.
pub open spec fn given_applicability(
    sorted: Seq<LintMetadataView>,
    i: int,
    info: Seq<(String, ApplicabilityInfo)>,
) -> (bool, Option<usize>) {
    if first_with_id(sorted, i) && recorded(info, sorted[i].id) is Some {
        recorded(info, sorted[i].id)->0
    } else {
        (false, None)
    }
}

/// The metadata collector: the lints found so far, the applicability
/// recorded for each lint name, and the configuration options.
pub struct MetadataCollector {
    lints: Vec<LintMetadata>,
    applicability_info: Vec<(String, ApplicabilityInfo)>,
    config: Vec<ClippyConfiguration>,
}

impl MetadataCollector {
    /// The lints found so far.
    pub closed spec fn lints_view(&self) -> Seq<LintMetadataView> {
        lint_views(self.lints@)
    }

    /// The records of applicability.
    pub closed spec fn records(&self) -> Seq<(String, ApplicabilityInfo)> {
        self.applicability_info@
    }

    /// The configuration options.
    pub closed spec fn config_view(&self) -> Seq<ClippyConfiguration> {
        self.config@
    }

    /// A collector with no lints and no records yet.
    pub fn new(config: Vec<ClippyConfiguration>) -> (r: Self)
        ensures
            r.lints_view().len() == 0,
            forall|k: Seq<char>| recorded(#[trigger] r.records(), k) is None,
            r.config_view() == config@,
    {
        MetadataCollector { lints: Vec::new(), applicability_info: Vec::new(), config }
    }

    /// Adds a lint found in the code.
    pub fn add_lint(&mut self, lint: LintMetadata)
        ensures
            final(self).lints_view() == old(self).lints_view().push(lint@),
            final(self).records() == old(self).records(),
            final(self).config_view() == old(self).config_view(),
    {
        let ghost before = self.lints@;
        self.lints.push(lint);
        assert(lint_views(self.lints@) =~= lint_views(before).push(lint@));
    }

    /// Records the applicability of one emission of the lint `lint_name`,
    /// in place of what was recorded for it before.
    pub fn record_applicability(&mut self, lint_name: String, applicability: Option<usize>, is_multi_part: bool)
        ensures
            forall|k: Seq<char>| #[trigger] recorded(final(self).records(), k) == if k == lint_name@ {
                Some((is_multi_part, applicability))
            } else {
                recorded(old(self).records(), k)
            },
            final(self).lints_view() == old(self).lints_view(),
            final(self).config_view() == old(self).config_view(),
    {
        let ghost info = self.applicability_info@;
        let ghost name = lint_name@;
        let mut i: usize = 0;
        while i < self.applicability_info.len()
            invariant
                info == self.applicability_info@,
                info == old(self).applicability_info@,
                self.lints@ == old(self).lints@,
                self.config@ == old(self).config@,
                name == lint_name@,
                i <= info.len(),
                recorded(info.take(i as int), name) is None,
            decreases info.len() - i,
        {
            if crate::strings::str_eq(self.applicability_info[i].0.as_str(), lint_name.as_str()) {
                let entry = (
                    lint_name,
                    ApplicabilityInfo { is_multi_part_suggestion: is_multi_part, applicability },
                );
                proof {
                    assert forall|k: Seq<char>| #[trigger] recorded(info.update(i as int, entry), k) == if k == name {
                        Some((is_multi_part, applicability))
                    } else {
                        recorded(info, k)
                    } by {
                        lemma_recorded_update(info, i as int, entry, k);
                    }
                }
                self.applicability_info.set(i, entry);
                return;
            }
            proof {
                assert(info.take(i + 1).drop_last() =~= info.take(i as int));
            }
            i = i + 1;
        }
        assert(info.take(i as int) =~= info);
        let entry = (lint_name, ApplicabilityInfo { is_multi_part_suggestion: is_multi_part, applicability });
        self.applicability_info.push(entry);
        assert(self.applicability_info@.drop_last() =~= info);
    }

    /// The configuration section of a lint's documentation: the heading
    /// and a line for each option that affects the lint. `None` when no
    /// option affects it.
    pub fn get_lint_configs(&self, lint_name: &str) -> (r: Option<String>)
        ensures
            r is None <==> !exists|i: int|
                0 <= i < self.config_view().len() && affects(#[trigger] self.config_view()[i], lint_name@),
            r matches Some(s) ==> s@ == configuration_heading() + config_lines(self.config_view(), lint_name@)
                + "\n"@,
    {
        configuration_section(&self.config, lint_name)
    }

    /// The lint list, once every lint is found: the lints in the order of
    /// the lint list, each with the applicability given to it (see
    /// `given_applicability`); the records are used up. With no lints
    /// found, nothing happens.
    pub fn finish(&mut self) -> (r: Vec<LintMetadata>)
        ensures
            ({
                let sorted = old(self).lints_view().sort_by(lint_order());
                &&& r@.len() == sorted.len()
                &&& forall|i: int|
                    0 <= i < r@.len() ==> #[trigger] r@[i]@ == with_applicability(
                        sorted[i],
                        given_applicability(sorted, i, old(self).records()),
                    )
            }),
            forall|i: int, j: int| 0 <= i < j < r@.len() ==> text_le(r@[i]@.id, r@[j]@.id),
            old(self).lints_view().len() == 0 ==> final(self).records() == old(self).records(),
            old(self).lints_view().len() > 0 ==> final(self).records().len() == 0,
            final(self).lints_view().len() == 0,
            final(self).config_view() == old(self).config_view(),
    {
        if self.lints.len() == 0 {
            proof {
                assert(old(self).lints_view().sort_by(lint_order()).len() == 0) by {
                    lemma_lint_order_total();
                    old(self).lints_view().lemma_sort_by_ensures(lint_order());
                    old(self).lints_view().sort_by(lint_order()).to_multiset_ensures();
                    old(self).lints_view().to_multiset_ensures();
                }
            }
            return Vec::new();
        }
        let mut lints: Vec<LintMetadata> = Vec::new();
        std::mem::swap(&mut lints, &mut self.lints);
        let mut info: Vec<(String, ApplicabilityInfo)> = Vec::new();
        std::mem::swap(&mut info, &mut self.applicability_info);
        let mut sorted = sort_lints(lints);
        let ghost sv = lint_views(sorted@);
        proof {
            lemma_lint_order_total();
            lint_views(lints@).lemma_sort_by_ensures(lint_order());
            assert(sv.subrange(0, sv.len() as int) =~= sv);
        }
        let mut out: Vec<LintMetadata> = Vec::new();
        while sorted.len() > 0
            invariant
                out@.len() + sorted@.len() == sv.len(),
                lint_views(sorted@) == sv.subrange(out@.len() as int, sv.len() as int),
                forall|k: int|
                    0 <= k < out@.len() ==> #[trigger] out@[k]@ == with_applicability(
                        sv[k],
                        given_applicability(sv, k, info@),
                    ),
            decreases sorted@.len(),
        {
            let ghost before = sorted@;
            let mut l = sorted.remove(0);
            let ghost idx = out@.len() as int;
            proof {
                assert(lint_views(before)[0] == sv[idx]);
                assert(sorted@ =~= before.subrange(1, before.len() as int));
                assert forall|m: int| 0 <= m < sorted@.len() implies #[trigger] lint_views(sorted@)[m]
                    == sv[idx + 1 + m] by {
                    assert(lint_views(before)[m + 1] == sv[idx + 1 + m]);
                }
                assert(lint_views(sorted@) =~= sv.subrange(idx + 1, sv.len() as int));
            }
            let seen = id_seen(&out, &l.id);
            proof {
                assert(seen == !first_with_id(sv, idx)) by {
                    if seen {
                        let k = choose|k: int| 0 <= k < out@.len() && #[trigger] out@[k]@.id == l.id@;
                        assert(out@[k]@.id == sv[k].id);
                    } else {
                        assert forall|k: int| 0 <= k < idx implies #[trigger] sv[k].id != sv[idx].id by {
                            assert(out@[k]@.id == sv[k].id);
                        }
                    }
                }
            }
            let found = if seen {
                None
            } else {
                lookup_record(&info, &l.id)
            };
            let a = match found {
                Some((multi, app)) => ApplicabilityInfo { is_multi_part_suggestion: multi, applicability: app },
                None => ApplicabilityInfo { is_multi_part_suggestion: false, applicability: None },
            };
            l.applicability = Some(a);
            out.push(l);
        }
        proof {
            assert forall|i: int, j: int| 0 <= i < j < out@.len() implies text_le(out@[i]@.id, out@[j]@.id) by {
                assert(lint_order()(sv[i], sv[j]));
                lemma_text_le_refl(sv[i].id);
            }
        }
        out
    }
}

/// Whether one of the lints has the id `id`.
fn id_seen(lints: &Vec<LintMetadata>, id: &String) -> (r: bool)
    ensures
        r == exists|k: int| 0 <= k < lints@.len() && #[trigger] lints@[k]@.id == id@,
{
    let mut k: usize = 0;
    while k < lints.len()
        invariant
            k <= lints@.len(),
            forall|m: int| 0 <= m < k ==> #[trigger] lints@[m]@.id != id@,
        decreases lints@.len() - k,
    {
        if crate::strings::str_eq(lints[k].id.as_str(), id.as_str()) {
            assert(lints@[k as int]@.id == id@);
            return true;
        }
        k = k + 1;
    }
    false
}

/// The applicability recorded for the lint name `name`.
fn lookup_record(info: &Vec<(String, ApplicabilityInfo)>, name: &String) -> (r: Option<(bool, Option<usize>)>)
    ensures
        r == recorded(info@, name@),
{
    let mut i: usize = 0;
    while i < info.len()
        invariant
            i <= info@.len(),
            recorded(info@.take(i as int), name@) is None,
        decreases info@.len() - i,
    {
        if crate::strings::str_eq(info[i].0.as_str(), name.as_str()) {
            proof {
                assert(info@.take(i + 1).drop_last() =~= info@.take(i as int));
                lemma_recorded_first(info@, i + 1, name@);
            }
            return Some((info[i].1.is_multi_part_suggestion, info[i].1.applicability));
        }
        proof {
            assert(info@.take(i + 1).drop_last() =~= info@.take(i as int));
        }
        i = i + 1;
    }
    assert(info@.take(i as int) =~= info@);
    None
}

/// A record found in a prefix is the record of the whole list.
proof fn lemma_recorded_first(info: Seq<(String, ApplicabilityInfo)>, n: int, k: Seq<char>)
    requires
        1 <= n <= info.len(),
        recorded(info.take(n), k) is Some,
    ensures
        recorded(info, k) == recorded(info.take(n), k),
    decreases info.len(),
{
    if n == info.len() {
        assert(info.take(n) =~= info);
    } else {
        assert(info.drop_last().take(n) =~= info.take(n));
        lemma_recorded_first(info.drop_last(), n, k);
    }
}

} // verus!
