//! Bookkeeping of the linter's list of lints: the lint records, their
//! selection and grouping, and the text of the source files that register
//! them.

use vstd::prelude::*;
use crate::strings::{chars_of, string_of, str_eq, starts_with};
use crate::text_order::{key_order, keys_view, sort_keys};

verus! {

/// Whether generated files are rewritten or only checked.
#[derive(Clone, Copy, PartialEq, Eq, Debug)]
pub enum UpdateMode {
    Check,
    Change,
}

/// `str::to_lowercase`: the Unicode lower case of a string.
pub uninterp spec fn lowercase(s: Seq<char>) -> Seq<char>;

/// The body of a string literal with each line continuation (a backslash,
/// a newline and the whitespace after it) taken out, as the lexer's
/// unescaping reports it; escapes are kept as written.
pub uninterp spec fn splice_free(s: Seq<char>) -> Seq<char>;

/// `str::to_lowercase`, named `lowercase`.
#[verifier::external_body]
fn to_lowercase(s: &str) -> (r: String)
    ensures
        r@ == lowercase(s@),
{
    s.to_lowercase()
}

/// The lexer's `unescape_literal` in string mode, keeping the source text
/// of every unescaped character or escape it reports; what it skips (line
/// continuations) is left out. The result is named `splice_free`.
#[verifier::external_body]
fn splice_free_text(s: &str) -> (r: String)
    ensures
        r@ == splice_free(s@),
{
    let mut res = String::with_capacity(s.len());
    rustc_ap_rustc_lexer::unescape::unescape_literal(
        s,
        rustc_ap_rustc_lexer::unescape::Mode::Str,
        &mut |range, _| res.push_str(&s[range]),
    );
    res
}

/// `s` without one leading `r`.
pub open spec fn strip_raw_marker(s: Seq<char>) -> Seq<char> {
    if s.len() > 0 && s[0] == 'r' {
        s.drop_first()
    } else {
        s
    }
}

/// `s` without its leading `#`s.
pub open spec fn trim_hashes_start(s: Seq<char>) -> Seq<char>
    decreases s.len(),
{
    if s.len() > 0 && s[0] == '#' {
        trim_hashes_start(s.drop_first())
    } else {
        s
    }
}

/// `s` without its trailing `#`s.
pub open spec fn trim_hashes_end(s: Seq<char>) -> Seq<char>
    decreases s.len(),
{
    if s.len() > 0 && s.last() == '#' {
        trim_hashes_end(s.drop_last())
    } else {
        s
    }
}

/// A literal without its raw marker and hashes.
pub open spec fn trimmed_literal(s: Seq<char>) -> Seq<char> {
    trim_hashes_end(trim_hashes_start(strip_raw_marker(s)))
}

/// `s` is a string literal: once trimmed, it is quoted at both ends.
pub open spec fn is_quoted_literal(s: Seq<char>) -> bool {
    let t = trimmed_literal(s);
    t.len() >= 2 && t[0] == '"' && t.last() == '"'
}

/// The text between the quotes of a string literal.
pub open spec fn literal_body(s: Seq<char>) -> Seq<char> {
    let t = trimmed_literal(s);
    t.subrange(1, t.len() - 1)
}

/// Removes the line continuations and surrounding quotes from a string
/// literal.
pub fn remove_line_splices(s: &str) -> (r: String)
    requires
        is_quoted_literal(s@),
    ensures
        r@ == splice_free(literal_body(s@)),
{
    let cs = chars_of(s);
    let n = cs.len();
    let mut lo: usize = 0;
    if n > 0 && cs[0] == 'r' {
        lo = 1;
        assert(cs@.subrange(1, n as int) =~= cs@.drop_first());
    } else {
        assert(cs@.subrange(0, n as int) =~= cs@);
    }
    while lo < n && cs[lo] == '#'
        invariant
            0 <= lo <= n,
            n == cs@.len(),
            cs@ == s@,
            trim_hashes_start(cs@.subrange(lo as int, n as int)) == trim_hashes_start(
                strip_raw_marker(s@),
            ),
        decreases n - lo,
    {
        assert(cs@.subrange(lo + 1, n as int) =~= cs@.subrange(lo as int, n as int).drop_first());
        lo = lo + 1;
    }
    let mut hi: usize = n;
    while hi > lo && cs[hi - 1] == '#'
        invariant
            0 <= lo <= hi <= n,
            n == cs@.len(),
            cs@ == s@,
            trim_hashes_end(cs@.subrange(lo as int, hi as int)) == trimmed_literal(s@),
        decreases hi,
    {
        assert(cs@.subrange(lo as int, hi - 1) =~= cs@.subrange(lo as int, hi as int).drop_last());
        hi = hi - 1;
    }
    let ghost t = cs@.subrange(lo as int, hi as int);
    assert(t == trimmed_literal(s@));
    let mut body: Vec<char> = Vec::new();
    let mut i: usize = lo + 1;
    while i < hi - 1
        invariant
            lo + 1 <= i <= hi - 1,
            hi - lo >= 2,
            hi <= n,
            n == cs@.len(),
            body@ == cs@.subrange(lo + 1, i as int),
        decreases hi - 1 - i,
    {
        body.push(cs[i]);
        i = i + 1;
        assert(body@ =~= cs@.subrange(lo + 1, i as int));
    }
    assert(body@ =~= literal_body(s@));
    let body_text = string_of(&body);
    splice_free_text(body_text.as_str())
}

/// Lint data parsed from the linter's source code.
#[derive(Clone, PartialEq, Debug)]
pub struct Lint {
    pub name: String,
    pub group: String,
    pub desc: String,
    pub module: String,
}

/// The text of a lint's fields.
pub struct LintView {
    pub name: Seq<char>,
    pub group: Seq<char>,
    pub desc: Seq<char>,
    pub module: Seq<char>,
}

impl View for Lint {
    type V = LintView;

    open spec fn view(&self) -> LintView {
        LintView { name: self.name@, group: self.group@, desc: self.desc@, module: self.module@ }
    }
}

/// The views of a list of lints.
pub open spec fn lint_views(lints: Seq<Lint>) -> Seq<LintView> {
    lints.map_values(|l: Lint| l@)
}

/// Lints whose group starts with `internal` are not usable.
pub open spec fn is_usable(l: LintView) -> bool {
    !(l.group.len() >= 8 && l.group.subrange(0, 8) == "internal"@)
}

/// The usable lints of `s`, in order.
pub open spec fn usable_spec(s: Seq<LintView>) -> Seq<LintView>
    decreases s.len(),
{
    if s.len() == 0 {
        s
    } else {
        let r = usable_spec(s.drop_last());
        if is_usable(s.last()) {
            r.push(s.last())
        } else {
            r
        }
    }
}

/// The lints of `s` whose group is exactly `internal`, in order.
pub open spec fn internal_spec(s: Seq<LintView>) -> Seq<LintView>
    decreases s.len(),
{
    if s.len() == 0 {
        s
    } else {
        let r = internal_spec(s.drop_last());
        if s.last().group == "internal"@ {
            r.push(s.last())
        } else {
            r
        }
    }
}


/// The groups of the lints of `s`, in order of first appearance.
pub open spec fn group_keys(s: Seq<LintView>) -> Seq<Seq<char>>
    decreases s.len(),
{
    if s.len() == 0 {
        Seq::empty()
    } else {
        let k = group_keys(s.drop_last());
        if k.contains(s.last().group) {
            k
        } else {
            k.push(s.last().group)
        }
    }
}

/// The lints of `s` in group `g`, in order.
pub open spec fn group_members(s: Seq<LintView>, g: Seq<char>) -> Seq<LintView>
    decreases s.len(),
{
    if s.len() == 0 {
        s
    } else {
        let r = group_members(s.drop_last(), g);
        if s.last().group == g {
            r.push(s.last())
        } else {
            r
        }
    }
}

proof fn lemma_group_keys(s: Seq<LintView>)
    ensures
        forall|i: int, j: int|
            0 <= i < j < group_keys(s).len() ==> group_keys(s)[i] != group_keys(s)[j],
        forall|g: Seq<char>| !group_keys(s).contains(g) ==> group_members(s, g).len() == 0,
    decreases s.len(),
{
    if s.len() > 0 {
        lemma_group_keys(s.drop_last());
        let k = group_keys(s.drop_last());
        if !k.contains(s.last().group) {
            assert forall|i: int, j: int|
                0 <= i < j < group_keys(s).len() implies group_keys(s)[i] != group_keys(s)[j] by {
                if j == k.len() {
                    assert(k[i] == group_keys(s)[i]);
                    if k[i] == s.last().group {
                        assert(k.contains(s.last().group));
                    }
                }
            }
        }
        assert forall|g: Seq<char>| !group_keys(s).contains(g) implies group_members(
            s,
            g,
        ).len() == 0 by {
            if k.contains(g) {
                let i = choose|i: int| 0 <= i < k.len() && k[i] == g;
                if !k.contains(s.last().group) {
                    assert(group_keys(s)[i] == g);
                }
            }
            if s.last().group == g {
                if !k.contains(s.last().group) {
                    assert(group_keys(s)[k.len() as int] == g);
                }
            }
        }
    }
}

impl Lint {
    /// A lint record: the name in lower case, and the description without
    /// its quotes and line continuations.
    pub fn new(name: &str, group: &str, desc: &str, module: &str) -> (r: Self)
        requires
            is_quoted_literal(desc@),
        ensures
            r@ == (LintView {
                name: lowercase(name@),
                group: group@,
                desc: splice_free(literal_body(desc@)),
                module: module@,
            }),
    {
        Lint {
            name: to_lowercase(name),
            group: group.to_owned(),
            desc: remove_line_splices(desc),
            module: module.to_owned(),
        }
    }

    /// A copy of this lint.
    pub fn duplicate(&self) -> (r: Self)
        ensures
            r@ == self@,
    {
        Lint {
            name: self.name.clone(),
            group: self.group.clone(),
            desc: self.desc.clone(),
            module: self.module.clone(),
        }
    }

    /// Returns all lints that are neither deprecated nor internal: those
    /// whose group does not start with `internal`.
    pub fn usable_lints(lints: &[Self]) -> (r: Vec<Self>)
        ensures
            lint_views(r@) == usable_spec(lint_views(lints@)),
    {
        let mut out: Vec<Lint> = Vec::new();
        let mut i: usize = 0;
        while i < lints.len()
            invariant
                0 <= i <= lints@.len(),
                lint_views(out@) == usable_spec(lint_views(lints@.subrange(0, i as int))),
            decreases lints@.len() - i,
        {
            let l = &lints[i];
            let keep = !starts_with(l.group.as_str(), "internal");
            proof {
                reveal_strlit("internal");
                let p = lints@.subrange(0, i + 1);
                assert(p.drop_last() =~= lints@.subrange(0, i as int));
                assert(lint_views(p).drop_last() =~= lint_views(p.drop_last()));
                assert(lint_views(p).last() == lints@[i as int]@);
            }
            if keep {
                let c = l.duplicate();
                out.push(c);
                proof {
                    assert(lint_views(out@) =~= usable_spec(lint_views(lints@.subrange(0, i + 1))));
                }
            } else {
                proof {
                    assert(lint_views(out@) =~= usable_spec(lint_views(lints@.subrange(0, i + 1))));
                }
            }
            i = i + 1;
        }
        assert(lints@.subrange(0, lints@.len() as int) =~= lints@);
        out
    }

    /// Returns all internal lints: those whose group is exactly `internal`.
    pub fn internal_lints(lints: &[Self]) -> (r: Vec<Self>)
        ensures
            lint_views(r@) == internal_spec(lint_views(lints@)),
    {
        let mut out: Vec<Lint> = Vec::new();
        let mut i: usize = 0;
        while i < lints.len()
            invariant
                0 <= i <= lints@.len(),
                lint_views(out@) == internal_spec(lint_views(lints@.subrange(0, i as int))),
            decreases lints@.len() - i,
        {
            let l = &lints[i];
            let keep = str_eq(l.group.as_str(), "internal");
            proof {
                let p = lints@.subrange(0, i + 1);
                assert(p.drop_last() =~= lints@.subrange(0, i as int));
                assert(lint_views(p).drop_last() =~= lint_views(p.drop_last()));
                assert(lint_views(p).last() == lints@[i as int]@);
            }
            if keep {
                let c = l.duplicate();
                out.push(c);
                proof {
                    assert(lint_views(out@) =~= internal_spec(lint_views(lints@.subrange(0, i + 1))));
                }
            } else {
                proof {
                    assert(lint_views(out@) =~= internal_spec(lint_views(lints@.subrange(0, i + 1))));
                }
            }
            i = i + 1;
        }
        assert(lints@.subrange(0, lints@.len() as int) =~= lints@);
        out
    }
    /// Returns the lints grouped by their lint group: one entry per group,
    /// in order of first appearance, with the group's lints in order.
    pub fn by_lint_group(lints: Vec<Self>) -> (r: Vec<(String, Vec<Self>)>)
        ensures
            r@.len() == group_keys(lint_views(lints@)).len(),
            forall|j: int|
                0 <= j < r@.len() ==> (#[trigger] r@[j]).0@ == group_keys(lint_views(lints@))[j]
                    && lint_views(r@[j].1@) == group_members(
                    lint_views(lints@),
                    group_keys(lint_views(lints@))[j],
                ),
    {
        let mut out: Vec<(String, Vec<Lint>)> = Vec::new();
        let mut i: usize = 0;
        while i < lints.len()
            invariant
                0 <= i <= lints@.len(),
                out@.len() == group_keys(lint_views(lints@.subrange(0, i as int))).len(),
                forall|j: int|
                    0 <= j < out@.len() ==> (#[trigger] out@[j]).0@ == group_keys(
                        lint_views(lints@.subrange(0, i as int)),
                    )[j] && lint_views(out@[j].1@) == group_members(
                        lint_views(lints@.subrange(0, i as int)),
                        group_keys(lint_views(lints@.subrange(0, i as int)))[j],
                    ),
            decreases lints@.len() - i,
        {
            let ghost p = lint_views(lints@.subrange(0, i as int));
            let ghost q = lint_views(lints@.subrange(0, i + 1));
            let l = &lints[i];
            proof {
                let ls = lints@.subrange(0, i + 1);
                assert(ls.drop_last() =~= lints@.subrange(0, i as int));
                assert(q.drop_last() =~= p);
                assert(q.last() == l@);
                lemma_group_keys(p);
            }
            let mut j: usize = 0;
            let mut found = false;
            while j < out.len() && !found
                invariant
                    0 <= j <= out@.len(),
                    forall|m: int| 0 <= m < j ==> (#[trigger] out@[m]).0@ != l.group@,
                    found ==> j < out@.len() && out@[j as int].0@ == l.group@,
                decreases out@.len() - j + (if found { 0int } else { 1int }),
            {
                if str_eq(out[j].0.as_str(), l.group.as_str()) {
                    found = true;
                } else {
                    j = j + 1;
                }
            }
            let ghost keys = group_keys(p);
            if found {
                proof {
                    assert(keys[j as int] == l.group@);
                    assert(keys.contains(l.group@));
                    assert(group_keys(q) == keys);
                }
                let (g, mut members) = out.remove(j);
                members.push(l.duplicate());
                out.insert(j, (g, members));
                proof {
                    assert forall|m: int| 0 <= m < out@.len() implies (#[trigger] out@[m]).0@
                        == group_keys(q)[m] && lint_views(out@[m].1@) == group_members(
                        q,
                        group_keys(q)[m],
                    ) by {
                        if m == j {
                            assert(lint_views(out@[m].1@) =~= group_members(p, keys[m]).push(l@));
                        } else {
                            assert(keys[m] != keys[j as int]);
                        }
                    }
                }
            } else {
                proof {
                    if keys.contains(l.group@) {
                        let m = choose|m: int| 0 <= m < keys.len() && keys[m] == l.group@;
                        assert(out@[m].0@ == l.group@);
                    }
                    assert(group_keys(q) == keys.push(l.group@));
                    assert(group_members(p, l.group@).len() == 0);
                }
                let mut members: Vec<Lint> = Vec::new();
                members.push(l.duplicate());
                out.push((l.group.clone(), members));
                proof {
                    assert forall|m: int| 0 <= m < out@.len() implies (#[trigger] out@[m]).0@
                        == group_keys(q)[m] && lint_views(out@[m].1@) == group_members(
                        q,
                        group_keys(q)[m],
                    ) by {
                        if m == keys.len() {
                            assert(lint_views(out@[m].1@) =~= group_members(p, l.group@).push(l@));
                        } else {
                            assert(keys[m] != l.group@);
                        }
                    }
                }
            }
            i = i + 1;
        }
        assert(lints@.subrange(0, lints@.len() as int) =~= lints@);
        out
    }
}

/// The comment at the top of every file that the tool writes.
pub const GENERATED_FILE_COMMENT: &'static str = "// This file was generated by `cargo dev update_lints`.\n// Use that command to update this file and do not edit by hand.\n// Manual edits will be overwritten.\n\n";

/// A deprecated lint.
#[derive(Clone, PartialEq, Debug)]
pub struct DeprecatedLint {
    pub name: String,
    pub reason: String,
}

/// The text of a deprecated lint's fields.
pub struct DeprecatedLintView {
    pub name: Seq<char>,
    pub reason: Seq<char>,
}

impl View for DeprecatedLint {
    type V = DeprecatedLintView;

    open spec fn view(&self) -> DeprecatedLintView {
        DeprecatedLintView { name: self.name@, reason: self.reason@ }
    }
}

/// The views of a list of deprecated lints.
pub open spec fn deprecated_views(lints: Seq<DeprecatedLint>) -> Seq<DeprecatedLintView> {
    lints.map_values(|l: DeprecatedLint| l@)
}

impl DeprecatedLint {
    /// A deprecated lint record: the name in lower case, and the reason
    /// without its quotes and line continuations.
    pub fn new(name: &str, reason: &str) -> (r: Self)
        requires
            is_quoted_literal(reason@),
        ensures
            r@ == (DeprecatedLintView {
                name: lowercase(name@),
                reason: splice_free(literal_body(reason@)),
            }),
    {
        DeprecatedLint { name: to_lowercase(name), reason: remove_line_splices(reason) }
    }
}

/// A renamed lint.
#[derive(Clone, PartialEq, Debug)]
pub struct RenamedLint {
    pub old_name: String,
    pub new_name: String,
}

/// The text of a renamed lint's fields.
pub struct RenamedLintView {
    pub old_name: Seq<char>,
    pub new_name: Seq<char>,
}

impl View for RenamedLint {
    type V = RenamedLintView;

    open spec fn view(&self) -> RenamedLintView {
        RenamedLintView { old_name: self.old_name@, new_name: self.new_name@ }
    }
}

/// The views of a list of renamed lints.
pub open spec fn renamed_views(lints: Seq<RenamedLint>) -> Seq<RenamedLintView> {
    lints.map_values(|l: RenamedLint| l@)
}

impl RenamedLint {
    /// A renamed lint record: both names without their quotes and line
    /// continuations.
    pub fn new(old_name: &str, new_name: &str) -> (r: Self)
        requires
            is_quoted_literal(old_name@),
            is_quoted_literal(new_name@),
        ensures
            r@ == (RenamedLintView {
                old_name: splice_free(literal_body(old_name@)),
                new_name: splice_free(literal_body(new_name@)),
            }),
    {
        RenamedLint {
            old_name: remove_line_splices(old_name),
            new_name: remove_line_splices(new_name),
        }
    }
}

/// The `register_removed` call of one deprecated lint.
pub open spec fn removed_entry(l: DeprecatedLintView) -> Seq<char> {
    "    store.register_removed(\n        \"clippy::"@ + l.name + "\",\n        \""@ + l.reason
        + "\",\n    );\n"@
}

/// The `register_removed` calls of the deprecated lints, in order.
pub open spec fn removed_entries(s: Seq<DeprecatedLintView>) -> Seq<char>
    decreases s.len(),
{
    if s.len() == 0 {
        Seq::empty()
    } else {
        removed_entries(s.drop_last()) + removed_entry(s.last())
    }
}

/// The code that registers the deprecated lints as removed.
pub open spec fn gen_deprecated_spec(s: Seq<DeprecatedLintView>) -> Seq<char> {
    GENERATED_FILE_COMMENT@ + "{\n"@ + removed_entries(s) + "}\n"@
}

/// Generates the `register_removed` code.
pub fn gen_deprecated(lints: &[DeprecatedLint]) -> (r: String)
    ensures
        r@ == gen_deprecated_spec(deprecated_views(lints@)),
{
    let mut output = String::from_str(GENERATED_FILE_COMMENT);
    output.append("{\n");
    let ghost base = output@;
    let mut i: usize = 0;
    while i < lints.len()
        invariant
            0 <= i <= lints@.len(),
            output@ == base + removed_entries(deprecated_views(lints@.subrange(0, i as int))),
        decreases lints@.len() - i,
    {
        let lint = &lints[i];
        output.append("    store.register_removed(\n        \"clippy::");
        output.append(lint.name.as_str());
        output.append("\",\n        \"");
        output.append(lint.reason.as_str());
        output.append("\",\n    );\n");
        proof {
            let v = deprecated_views(lints@.subrange(0, i + 1));
            assert(v.drop_last() =~= deprecated_views(lints@.subrange(0, i as int)));
            assert(v.last() == lints@[i as int]@);
            assert(output@ =~= base + removed_entries(v));
        }
        i = i + 1;
    }
    output.append("}\n");
    proof {
        assert(lints@.subrange(0, lints@.len() as int) =~= lints@);
        assert(output@ =~= gen_deprecated_spec(deprecated_views(lints@)));
    }
    output
}

/// The `warn` attributes of the deprecated lints, in order.
pub open spec fn warn_lines(s: Seq<DeprecatedLintView>) -> Seq<char>
    decreases s.len(),
{
    if s.len() == 0 {
        Seq::empty()
    } else {
        warn_lines(s.drop_last()) + "#![warn(clippy::"@ + s.last().name + ")]\n"@
    }
}

/// The test file that checks that deprecated lints are reported.
pub open spec fn gen_deprecated_lints_test_spec(s: Seq<DeprecatedLintView>) -> Seq<char> {
    GENERATED_FILE_COMMENT@ + warn_lines(s) + "\nfn main() {}\n"@
}

/// Generates the test file of the deprecated lints.
pub fn gen_deprecated_lints_test(lints: &[DeprecatedLint]) -> (r: String)
    ensures
        r@ == gen_deprecated_lints_test_spec(deprecated_views(lints@)),
{
    let mut res = String::from_str(GENERATED_FILE_COMMENT);
    let ghost base = res@;
    let mut i: usize = 0;
    while i < lints.len()
        invariant
            0 <= i <= lints@.len(),
            res@ == base + warn_lines(deprecated_views(lints@.subrange(0, i as int))),
        decreases lints@.len() - i,
    {
        res.append("#![warn(clippy::");
        res.append(lints[i].name.as_str());
        res.append(")]\n");
        proof {
            let v = deprecated_views(lints@.subrange(0, i + 1));
            assert(v.drop_last() =~= deprecated_views(lints@.subrange(0, i as int)));
            assert(v.last() == lints@[i as int]@);
            assert(res@ =~= base + warn_lines(v));
        }
        i = i + 1;
    }
    res.append("\nfn main() {}\n");
    proof {
        assert(lints@.subrange(0, lints@.len() as int) =~= lints@);
        assert(res@ =~= gen_deprecated_lints_test_spec(deprecated_views(lints@)));
    }
    res
}

/// The entries of the list of renamed lints, in order.
pub open spec fn renamed_entries(s: Seq<RenamedLintView>) -> Seq<char>
    decreases s.len(),
{
    if s.len() == 0 {
        Seq::empty()
    } else {
        renamed_entries(s.drop_last()) + "    (\""@ + s.last().old_name + "\", \""@
            + s.last().new_name + "\"),\n"@
    }
}

/// The header of the list of renamed lints.
pub const RENAMED_LINTS_HEADER: &'static str = "// This file is managed by `cargo dev rename_lint`. Prefer using that when possible.\n\n#[rustfmt::skip]\npub static RENAMED_LINTS: &[(&str, &str)] = &[\n";

/// The source of the list of renamed lints.
pub open spec fn gen_renamed_lints_list_spec(s: Seq<RenamedLintView>) -> Seq<char> {
    RENAMED_LINTS_HEADER@ + renamed_entries(s) + "];\n"@
}

/// Generates the list of renamed lints.
pub fn gen_renamed_lints_list(lints: &[RenamedLint]) -> (r: String)
    ensures
        r@ == gen_renamed_lints_list_spec(renamed_views(lints@)),
{
    let mut res = String::from_str(RENAMED_LINTS_HEADER);
    let ghost base = res@;
    let mut i: usize = 0;
    while i < lints.len()
        invariant
            0 <= i <= lints@.len(),
            res@ == base + renamed_entries(renamed_views(lints@.subrange(0, i as int))),
        decreases lints@.len() - i,
    {
        res.append("    (\"");
        res.append(lints[i].old_name.as_str());
        res.append("\", \"");
        res.append(lints[i].new_name.as_str());
        res.append("\"),\n");
        proof {
            let v = renamed_views(lints@.subrange(0, i + 1));
            assert(v.drop_last() =~= renamed_views(lints@.subrange(0, i as int)));
            assert(v.last() == lints@[i as int]@);
            assert(res@ =~= base + renamed_entries(v));
        }
        i = i + 1;
    }
    res.append("];\n");
    proof {
        assert(lints@.subrange(0, lints@.len() as int) =~= lints@);
        assert(res@ =~= gen_renamed_lints_list_spec(renamed_views(lints@)));
    }
    res
}

/// Whether `names[i]` does not occur before position `i`.
pub open spec fn first_seen(names: Seq<Seq<char>>, i: int) -> bool {
    forall|j: int| 0 <= j < i ==> names[j] != names[i]
}

/// One line `pre + name + post` for each name of the first `k` that does
/// not occur earlier, in order.
pub open spec fn unique_lines(names: Seq<Seq<char>>, pre: Seq<char>, post: Seq<char>, k: nat) -> Seq<
    char,
>
    decreases k,
{
    if k == 0 {
        Seq::empty()
    } else {
        unique_lines(names, pre, post, (k - 1) as nat) + if first_seen(names, k - 1) {
            pre + names[k - 1] + post
        } else {
            Seq::empty()
        }
    }
}

/// The new names of renamed lints.
pub open spec fn new_names(s: Seq<RenamedLintView>) -> Seq<Seq<char>> {
    s.map_values(|l: RenamedLintView| l.new_name)
}

/// The old names of renamed lints.
pub open spec fn old_names(s: Seq<RenamedLintView>) -> Seq<Seq<char>> {
    s.map_values(|l: RenamedLintView| l.old_name)
}

/// The test file of the renamed lints: each new name allowed once, then
/// each old name warned about once.
pub open spec fn gen_renamed_lints_test_spec(s: Seq<RenamedLintView>) -> Seq<char> {
    GENERATED_FILE_COMMENT@ + "// run-rustfix\n\n"@ + unique_lines(
        new_names(s),
        "#![allow("@,
        ")]\n"@,
        s.len(),
    ) + unique_lines(old_names(s), "#![warn("@, ")]\n"@, s.len()) + "\nfn main() {}\n"@
}

/// Whether `names[i]` equals no earlier name.
fn seen_first(names: &Vec<&String>, i: usize) -> (r: bool)
    requires
        i < names@.len(),
    ensures
        r == first_seen(names@.map_values(|n: &String| n@), i as int),
{
    let ghost v = names@.map_values(|n: &String| n@);
    let mut j: usize = 0;
    while j < i
        invariant
            0 <= j <= i < names@.len(),
            v == names@.map_values(|n: &String| n@),
            forall|m: int| 0 <= m < j ==> v[m] != v[i as int],
        decreases i - j,
    {
        if str_eq(names[j].as_str(), names[i].as_str()) {
            assert(v[j as int] == v[i as int]);
            return false;
        }
        j = j + 1;
    }
    true
}

/// Appends `pre + name + post` for every first occurrence of a name.
fn append_unique_lines(res: &mut String, names: &Vec<&String>, pre: &str, post: &str)
    ensures
        final(res)@ == old(res)@ + unique_lines(
            names@.map_values(|n: &String| n@),
            pre@,
            post@,
            names@.len(),
        ),
{
    let ghost v = names@.map_values(|n: &String| n@);
    let mut i: usize = 0;
    while i < names.len()
        invariant
            0 <= i <= names@.len(),
            v == names@.map_values(|n: &String| n@),
            res@ == old(res)@ + unique_lines(v, pre@, post@, i as nat),
        decreases names@.len() - i,
    {
        if seen_first(names, i) {
            res.append(pre);
            res.append(names[i].as_str());
            res.append(post);
            assert(res@ =~= old(res)@ + unique_lines(v, pre@, post@, (i + 1) as nat));
        } else {
            assert(res@ =~= old(res)@ + unique_lines(v, pre@, post@, (i + 1) as nat));
        }
        i = i + 1;
    }
}

/// Generates the test file of the renamed lints.
pub fn gen_renamed_lints_test(lints: &[RenamedLint]) -> (r: String)
    ensures
        r@ == gen_renamed_lints_test_spec(renamed_views(lints@)),
{
    let mut news: Vec<&String> = Vec::new();
    let mut olds: Vec<&String> = Vec::new();
    let mut i: usize = 0;
    while i < lints.len()
        invariant
            0 <= i <= lints@.len(),
            news@.len() == i,
            olds@.len() == i,
            forall|j: int| 0 <= j < i ==> (#[trigger] news@[j])@ == lints@[j].new_name@,
            forall|j: int| 0 <= j < i ==> (#[trigger] olds@[j])@ == lints@[j].old_name@,
        decreases lints@.len() - i,
    {
        news.push(&lints[i].new_name);
        olds.push(&lints[i].old_name);
        i = i + 1;
    }
    let ghost v = renamed_views(lints@);
    assert(news@.map_values(|n: &String| n@) =~= new_names(v));
    assert(olds@.map_values(|n: &String| n@) =~= old_names(v));
    let mut res = String::from_str(GENERATED_FILE_COMMENT);
    res.append("// run-rustfix\n\n");
    append_unique_lines(&mut res, &news, "#![allow(", ")]\n");
    append_unique_lines(&mut res, &olds, "#![warn(", ")]\n");
    res.append("\nfn main() {}\n");
    assert(res@ =~= gen_renamed_lints_test_spec(v));
    res
}

/// `str::to_uppercase`: the Unicode upper case of a string.
pub uninterp spec fn uppercase(s: Seq<char>) -> Seq<char>;

/// `str::to_uppercase`, named `uppercase`.
#[verifier::external_body]
pub(crate) fn to_uppercase(s: &str) -> (r: String)
    ensures
        r@ == uppercase(s@),
{
    s.to_uppercase()
}

/// The decimal digits of `n`, without leading zeros.
pub open spec fn decimal(n: nat) -> Seq<char>
    decreases n,
{
    if n < 10 {
        seq![(48 + n) as char]
    } else {
        decimal(n / 10).push((48 + n % 10) as char)
    }
}

/// The decimal digits of `n`, without leading zeros.
pub(crate) fn usize_to_decimal(n: usize) -> (r: String)
    ensures
        r@ == decimal(n as nat),
    decreases n,
{
    if n < 10 {
        let mut s = String::new();
        crate::strings::push_char(&mut s, crate::strings::char_from_u32_ascii(48 + n as u32));
        assert(s@ =~= decimal(n as nat));
        s
    } else {
        let mut s = usize_to_decimal(n / 10);
        crate::strings::push_char(&mut s, crate::strings::char_from_u32_ascii(48 + (n % 10) as u32));
        s
    }
}

/// The sort key of a lint in a group list: its module and upper-case name.
pub open spec fn group_detail(l: LintView) -> Seq<Seq<char>> {
    seq![l.module, uppercase(l.name)]
}

/// One `LintId::of` line per key `(module, NAME)`, in order.
pub open spec fn lint_id_lines(keys: Seq<Seq<Seq<char>>>) -> Seq<char>
    decreases keys.len(),
{
    if keys.len() == 0 {
        Seq::empty()
    } else {
        lint_id_lines(keys.drop_last()) + "    LintId::of("@ + keys.last()[0] + "::"@
            + keys.last()[1] + "),\n"@
    }
}

/// The code that registers the lints of a group, sorted by module and name.
pub open spec fn gen_lint_group_list_spec(group_name: Seq<char>, lints: Seq<LintView>) -> Seq<char> {
    GENERATED_FILE_COMMENT@ + "store.register_group(true, \"clippy::"@ + group_name
        + "\", Some(\"clippy_"@ + group_name + "\"), vec![\n"@ + lint_id_lines(
        lints.map_values(|l: LintView| group_detail(l)).sort_by(key_order()),
    ) + "])\n"@
}

/// Every key of a sorted list of keys occurs in the unsorted one.
proof fn lemma_sorted_keys_from(s: Seq<Seq<Seq<char>>>)
    ensures
        s.sort_by(key_order()).len() == s.len(),
        forall|i: int|
            0 <= i < s.sort_by(key_order()).len() ==> s.contains(
                #[trigger] s.sort_by(key_order())[i],
            ),
{
    crate::text_order::lemma_key_order_total();
    s.lemma_sort_by_ensures(key_order());
    let t = s.sort_by(key_order());
    broadcast use vstd::seq_lib::group_to_multiset_ensures;

    assert(t.len() == t.to_multiset().len());
    assert forall|i: int| 0 <= i < t.len() implies s.contains(#[trigger] t[i]) by {
        assert(t.contains(t[i]));
    }
}

/// Generates the code for registering a group.
pub fn gen_lint_group_list(group_name: &str, lints: &[Lint]) -> (r: String)
    ensures
        r@ == gen_lint_group_list_spec(group_name@, lint_views(lints@)),
{
    let mut details: Vec<Vec<String>> = Vec::new();
    let mut i: usize = 0;
    while i < lints.len()
        invariant
            0 <= i <= lints@.len(),
            keys_view(details@) == lint_views(lints@).subrange(0, i as int).map_values(
                |l: LintView| group_detail(l),
            ),
        decreases lints@.len() - i,
    {
        let mut key: Vec<String> = Vec::new();
        key.push(lints[i].module.clone());
        key.push(to_uppercase(lints[i].name.as_str()));
        proof {
            assert(key@.map_values(|s: String| s@) =~= group_detail(lints@[i as int]@));
        }
        let ghost prev = keys_view(details@);
        details.push(key);
        proof {
            let f = |l: LintView| group_detail(l);
            assert(keys_view(details@) =~= prev.push(group_detail(lints@[i as int]@)));
            assert(lint_views(lints@).subrange(0, i + 1).map_values(f) =~= lint_views(
                lints@,
            ).subrange(0, i as int).map_values(f).push(group_detail(lints@[i as int]@)));
        }
        i = i + 1;
    }
    let ghost unsorted = lint_views(lints@).map_values(|l: LintView| group_detail(l));
    assert(keys_view(details@) =~= unsorted);
    sort_keys(&mut details);
    proof {
        crate::text_order::lemma_key_order_total();
        lemma_sorted_keys_from(unsorted);
    }
    let ghost sorted = unsorted.sort_by(key_order());
    let mut output = String::from_str(GENERATED_FILE_COMMENT);
    output.append("store.register_group(true, \"clippy::");
    output.append(group_name);
    output.append("\", Some(\"clippy_");
    output.append(group_name);
    output.append("\"), vec![\n");
    let ghost base = output@;
    let mut j: usize = 0;
    while j < details.len()
        invariant
            0 <= j <= details@.len(),
            keys_view(details@) == sorted,
            sorted.len() == unsorted.len(),
            forall|m: int| 0 <= m < sorted.len() ==> unsorted.contains(#[trigger] sorted[m]),
            forall|m: int| 0 <= m < unsorted.len() ==> (#[trigger] unsorted[m]).len() == 2,
            output@ == base + lint_id_lines(sorted.subrange(0, j as int)),
        decreases details@.len() - j,
    {
        let key = &details[j];
        proof {
            assert(unsorted.contains(sorted[j as int]));
            assert(sorted[j as int].len() == 2);
            assert(key@.map_values(|s: String| s@) == sorted[j as int]);
        }
        output.append("    LintId::of(");
        output.append(key[0].as_str());
        output.append("::");
        output.append(key[1].as_str());
        output.append("),\n");
        proof {
            let p = sorted.subrange(0, j + 1);
            assert(p.drop_last() =~= sorted.subrange(0, j as int));
            assert(output@ =~= base + lint_id_lines(p));
        }
        j = j + 1;
    }
    output.append("])\n");
    proof {
        assert(sorted.subrange(0, sorted.len() as int) =~= sorted);
        assert(output@ =~= gen_lint_group_list_spec(group_name@, lint_views(lints@)));
    }
    output
}

/// The sort key of a lint in the list of all lints: whether it is public
/// (`true` after `false`, as the words sort), its module and its
/// upper-case name.
pub open spec fn register_detail(public: bool, l: LintView) -> Seq<Seq<char>> {
    seq![if public { "true"@ } else { "false"@ }, l.module, uppercase(l.name)]
}

/// One registration line per key `(public, module, NAME)`, in order; the
/// lines of internal lints are compiled only with the `internal` feature.
pub open spec fn register_lines(keys: Seq<Seq<Seq<char>>>) -> Seq<char>
    decreases keys.len(),
{
    if keys.len() == 0 {
        Seq::empty()
    } else {
        let k = keys.last();
        register_lines(keys.drop_last()) + (if k[0] == "false"@ {
            "    #[cfg(feature = \"internal\")]\n"@
        } else {
            Seq::empty()
        }) + "    "@ + k[1] + "::"@ + k[2] + ",\n"@
    }
}

/// The code that registers all lints, sorted by kind, module and name.
pub open spec fn gen_register_lint_list_spec(internal: Seq<LintView>, usable: Seq<LintView>) -> Seq<
    char,
> {
    GENERATED_FILE_COMMENT@ + "store.register_lints(&[\n"@ + register_lines(
        (internal.map_values(|l: LintView| register_detail(false, l)) + usable.map_values(
            |l: LintView| register_detail(true, l),
        )).sort_by(key_order()),
    ) + "])\n"@
}

/// Appends the registration key of each lint, with the given kind word.
fn push_register_details(details: &mut Vec<Vec<String>>, lints: &[Lint], public: bool)
    ensures
        keys_view(final(details)@) == keys_view(old(details)@) + lint_views(lints@).map_values(
            |l: LintView| register_detail(public, l),
        ),
{
    let mut i: usize = 0;
    while i < lints.len()
        invariant
            0 <= i <= lints@.len(),
            keys_view(details@) == keys_view(old(details)@) + lint_views(lints@).subrange(
                0,
                i as int,
            ).map_values(|l: LintView| register_detail(public, l)),
        decreases lints@.len() - i,
    {
        let mut key: Vec<String> = Vec::new();
        key.push(String::from_str(if public { "true" } else { "false" }));
        key.push(lints[i].module.clone());
        key.push(to_uppercase(lints[i].name.as_str()));
        proof {
            assert(key@.map_values(|s: String| s@) =~= register_detail(public, lints@[i as int]@));
        }
        let ghost prev = keys_view(details@);
        details.push(key);
        proof {
            let f = |l: LintView| register_detail(public, l);
            assert(keys_view(details@) =~= prev.push(register_detail(public, lints@[i as int]@)));
            assert(lint_views(lints@).subrange(0, i + 1).map_values(f) =~= lint_views(
                lints@,
            ).subrange(0, i as int).map_values(f).push(register_detail(public, lints@[i as int]@)));
        }
        i = i + 1;
    }
    assert(lint_views(lints@).subrange(0, lints@.len() as int) =~= lint_views(lints@));
}

/// Generates the code for registering lints.
pub fn gen_register_lint_list(internal_lints: &[Lint], usable_lints: &[Lint]) -> (r: String)
    ensures
        r@ == gen_register_lint_list_spec(lint_views(internal_lints@), lint_views(usable_lints@)),
{
    let mut details: Vec<Vec<String>> = Vec::new();
    proof {
        assert(keys_view(details@) =~= Seq::empty());
    }
    push_register_details(&mut details, internal_lints, false);
    push_register_details(&mut details, usable_lints, true);
    let ghost unsorted = keys_view(details@);
    assert(unsorted =~= lint_views(internal_lints@).map_values(
        |l: LintView| register_detail(false, l),
    ) + lint_views(usable_lints@).map_values(|l: LintView| register_detail(true, l)));
    sort_keys(&mut details);
    proof {
        crate::text_order::lemma_key_order_total();
        lemma_sorted_keys_from(unsorted);
    }
    let ghost sorted = unsorted.sort_by(key_order());
    let mut output = String::from_str(GENERATED_FILE_COMMENT);
    output.append("store.register_lints(&[\n");
    let ghost base = output@;
    let mut j: usize = 0;
    while j < details.len()
        invariant
            0 <= j <= details@.len(),
            keys_view(details@) == sorted,
            sorted.len() == unsorted.len(),
            forall|m: int| 0 <= m < sorted.len() ==> unsorted.contains(#[trigger] sorted[m]),
            forall|m: int| 0 <= m < unsorted.len() ==> (#[trigger] unsorted[m]).len() == 3,
            output@ == base + register_lines(sorted.subrange(0, j as int)),
        decreases details@.len() - j,
    {
        let key = &details[j];
        proof {
            assert(unsorted.contains(sorted[j as int]));
            assert(sorted[j as int].len() == 3);
            assert(key@.map_values(|s: String| s@) == sorted[j as int]);
        }
        if str_eq(key[0].as_str(), "false") {
            output.append("    #[cfg(feature = \"internal\")]\n");
        }
        output.append("    ");
        output.append(key[1].as_str());
        output.append("::");
        output.append(key[2].as_str());
        output.append(",\n");
        proof {
            let p = sorted.subrange(0, j + 1);
            assert(p.drop_last() =~= sorted.subrange(0, j as int));
            assert(output@ =~= base + register_lines(p));
        }
        j = j + 1;
    }
    output.append("])\n");
    proof {
        assert(sorted.subrange(0, sorted.len() as int) =~= sorted);
        assert(output@ =~= gen_register_lint_list_spec(
            lint_views(internal_lints@),
            lint_views(usable_lints@),
        ));
    }
    output
}

/// `pat` occurs in `s` at position `i`.
pub open spec fn matches_at(s: Seq<char>, pat: Seq<char>, i: int) -> bool {
    0 <= i && i + pat.len() <= s.len() && s.subrange(i, i + pat.len()) == pat
}

/// `i` is the first position at or after `from` where `pat` occurs.
pub open spec fn is_first_match(s: Seq<char>, pat: Seq<char>, from: int, i: int) -> bool {
    from <= i && matches_at(s, pat, i) && forall|j: int| from <= j < i ==> !matches_at(s, pat, j)
}

/// The first position at or after `from` where `pat` occurs, if any.
pub open spec fn first_match(s: Seq<char>, pat: Seq<char>, from: int) -> Option<int> {
    if exists|i: int| is_first_match(s, pat, from, i) {
        Some(choose|i: int| is_first_match(s, pat, from, i))
    } else {
        None
    }
}

/// The text with the region between the first `start` and the first `end`
/// after it replaced by `replacement`; or the delimiter that is missing.
pub open spec fn replace_region_spec(
    text: Seq<char>,
    start: Seq<char>,
    end: Seq<char>,
    replacement: Seq<char>,
) -> Result<Seq<char>, Seq<char>> {
    match first_match(text, start, 0) {
        None => Err(start),
        Some(i) => match first_match(text, end, i + start.len()) {
            None => Err(end),
            Some(j) => Ok(
                text.subrange(0, i) + start + replacement + end + text.subrange(
                    j + end.len(),
                    text.len() as int,
                ),
            ),
        },
    }
}

proof fn lemma_first_match_unique(s: Seq<char>, pat: Seq<char>, from: int, i: int)
    requires
        is_first_match(s, pat, from, i),
    ensures
        first_match(s, pat, from) == Some(i),
{
    let k = choose|k: int| is_first_match(s, pat, from, k);
    assert(is_first_match(s, pat, from, k));
    if k < i {
        assert(!matches_at(s, pat, k));
    } else if i < k {
        assert(!matches_at(s, pat, i));
    }
}

fn matches_at_exec(s: &Vec<char>, pat: &Vec<char>, i: usize) -> (r: bool)
    requires
        i + pat@.len() <= s@.len(),
    ensures
        r == matches_at(s@, pat@, i as int),
{
    let n = s.len();
    let mut k: usize = 0;
    while k < pat.len()
        invariant
            0 <= k <= pat@.len(),
            n == s@.len(),
            i + pat@.len() <= s@.len(),
            forall|m: int| 0 <= m < k ==> s@[i + m] == pat@[m],
        decreases pat@.len() - k,
    {
        if s[i + k] != pat[k] {
            proof {
                if s@.subrange(i as int, i + pat@.len()) == pat@ {
                    assert(s@.subrange(i as int, i + pat@.len())[k as int] == s@[i + k]);
                }
            }
            return false;
        }
        k = k + 1;
    }
    assert(s@.subrange(i as int, i + pat@.len()) =~= pat@);
    true
}

fn find_from(s: &Vec<char>, pat: &Vec<char>, from: usize) -> (r: Option<usize>)
    requires
        from <= s@.len(),
    ensures
        r matches Some(i) ==> is_first_match(s@, pat@, from as int, i as int) && i + pat@.len()
            <= s@.len(),
        r is None ==> first_match(s@, pat@, from as int) is None,
{
    if pat.len() > s.len() {
        assert forall|i: int| !is_first_match(s@, pat@, from as int, i) by {}
        return None;
    }
    let mut i: usize = from;
    let n = s.len();
    let last = n - pat.len();
    while i <= last
        invariant
            from <= i <= s@.len() + 1,
            n == s@.len(),
            pat@.len() <= s@.len(),
            last == s@.len() - pat@.len(),
            forall|j: int| from <= j < i ==> !matches_at(s@, pat@, j),
        decreases s@.len() + 1 - i,
    {
        if matches_at_exec(s, pat, i) {
            return Some(i);
        }
        if i == last {
            assert forall|k: int| !is_first_match(s@, pat@, from as int, k) by {
                if from <= k && k <= i {
                }
            }
            return None;
        }
        i = i + 1;
    }
    assert forall|k: int| !is_first_match(s@, pat@, from as int, k) by {
        if from <= k && k < i {
        }
    }
    None
}

fn push_range(out: &mut String, cs: &Vec<char>, lo: usize, hi: usize)
    requires
        lo <= hi <= cs@.len(),
    ensures
        final(out)@ == old(out)@ + cs@.subrange(lo as int, hi as int),
{
    let mut i: usize = lo;
    while i < hi
        invariant
            lo <= i <= hi <= cs@.len(),
            out@ == old(out)@ + cs@.subrange(lo as int, i as int),
        decreases hi - i,
    {
        crate::strings::push_char(out, cs[i]);
        i = i + 1;
        assert(out@ =~= old(out)@ + cs@.subrange(lo as int, i as int));
    }
}

/// Replaces a region in a text delimited by two strings. Returns the new
/// text if both delimiters were found, or the missing delimiter if not.
pub fn replace_region_in_text(text: &str, start: &str, end: &str, replacement: &str) -> (r: Result<
    String,
    String,
>)
    ensures
        match replace_region_spec(text@, start@, end@, replacement@) {
            Ok(t) => r matches Ok(x) && x@ == t,
            Err(d) => r matches Err(x) && x@ == d,
        },
{
    let t = chars_of(text);
    let st = chars_of(start);
    let en = chars_of(end);
    let tn = t.len();
    match find_from(&t, &st, 0) {
        None => Err(String::from_str(start)),
        Some(i) => {
            proof {
                lemma_first_match_unique(t@, st@, 0, i as int);
            }
            assert(i + st@.len() <= t@.len());
            match find_from(&t, &en, i + st.len()) {
                None => Err(String::from_str(end)),
                Some(j) => {
                    proof {
                        lemma_first_match_unique(t@, en@, i + st@.len(), j as int);
                    }
                    let mut res = String::new();
                    push_range(&mut res, &t, 0, i);
                    res.append(start);
                    res.append(replacement);
                    res.append(end);
                    push_range(&mut res, &t, j + en.len(), t.len());
                    Ok(res)
                },
            }
        },
    }
}

/// The address of the online list of lints.
pub const DOCS_LINK: &'static str = "https://rust-lang.github.io/rust-clippy/master/index.html";

/// One link line per key `(name)`, in order.
pub open spec fn link_lines(keys: Seq<Seq<Seq<char>>>) -> Seq<char>
    decreases keys.len(),
{
    if keys.len() == 0 {
        Seq::empty()
    } else {
        link_lines(keys.drop_last()) + "[`"@ + keys.last()[0] + "`]: "@ + DOCS_LINK@ + "#"@
            + keys.last()[0] + "\n"@
    }
}

/// The names of the usable and the deprecated lints, each as a key.
pub open spec fn changelog_keys(usable: Seq<LintView>, deprecated: Seq<DeprecatedLintView>) -> Seq<
    Seq<Seq<char>>,
> {
    usable.map_values(|l: LintView| seq![l.name]) + deprecated.map_values(
        |d: DeprecatedLintView| seq![d.name],
    )
}

/// The links to the documentation of every usable and deprecated lint,
/// sorted by name.
pub open spec fn changelog_links_spec(usable: Seq<LintView>, deprecated: Seq<DeprecatedLintView>) -> Seq<
    char,
> {
    link_lines(changelog_keys(usable, deprecated).sort_by(key_order()))
}

/// The modules of the lints of `s`, each once, in order of first
/// appearance.
pub open spec fn distinct_modules(s: Seq<LintView>) -> Seq<Seq<char>>
    decreases s.len(),
{
    if s.len() == 0 {
        Seq::empty()
    } else {
        let m = distinct_modules(s.drop_last());
        if m.contains(s.last().module) {
            m
        } else {
            m.push(s.last().module)
        }
    }
}

/// One `mod` line per key `(module)`, in order.
pub open spec fn mod_lines(keys: Seq<Seq<Seq<char>>>) -> Seq<char>
    decreases keys.len(),
{
    if keys.len() == 0 {
        Seq::empty()
    } else {
        mod_lines(keys.drop_last()) + "mod "@ + keys.last()[0] + ";\n"@
    }
}

/// The `mod` declarations of the modules of the usable lints, sorted.
pub open spec fn module_lines_spec(usable: Seq<LintView>) -> Seq<char> {
    mod_lines(distinct_modules(usable).map_values(|m: Seq<char>| seq![m]).sort_by(key_order()))
}

/// Appends one line per single-string key: a `mod` declaration when
/// `mod_form`, a documentation link otherwise.
fn push_single_key_lines(out: &mut String, keys: &Vec<Vec<String>>, mod_form: bool)
    requires
        forall|m: int| 0 <= m < keys@.len() ==> (#[trigger] keys@[m])@.len() == 1,
    ensures
        final(out)@ == old(out)@ + if mod_form {
            mod_lines(keys_view(keys@))
        } else {
            link_lines(keys_view(keys@))
        },
{
    let ghost kv = keys_view(keys@);
    let mut j: usize = 0;
    while j < keys.len()
        invariant
            0 <= j <= keys@.len(),
            kv == keys_view(keys@),
            forall|m: int| 0 <= m < keys@.len() ==> (#[trigger] keys@[m])@.len() == 1,
            out@ == old(out)@ + if mod_form {
                mod_lines(kv.subrange(0, j as int))
            } else {
                link_lines(kv.subrange(0, j as int))
            },
        decreases keys@.len() - j,
    {
        let key = &keys[j];
        proof {
            assert(key@.len() == 1);
            assert(key@.map_values(|s: String| s@) == kv[j as int]);
            let p = kv.subrange(0, j + 1);
            assert(p.drop_last() =~= kv.subrange(0, j as int));
            assert(p.last() == kv[j as int]);
        }
        if mod_form {
            out.append("mod ");
            out.append(key[0].as_str());
            out.append(";\n");
        } else {
            out.append("[`");
            out.append(key[0].as_str());
            out.append("`]: ");
            out.append(DOCS_LINK);
            out.append("#");
            out.append(key[0].as_str());
            out.append("\n");
        }
        proof {
            let p = kv.subrange(0, j + 1);
            if mod_form {
                assert(out@ =~= old(out)@ + mod_lines(p));
            } else {
                assert(out@ =~= old(out)@ + link_lines(p));
            }
        }
        j = j + 1;
    }
    assert(kv.subrange(0, kv.len() as int) =~= kv);
}

/// Every key of the sorted keys has as many parts as every unsorted key.
proof fn lemma_sorted_key_parts(unsorted: Seq<Seq<Seq<char>>>, n: nat)
    requires
        forall|m: int| 0 <= m < unsorted.len() ==> (#[trigger] unsorted[m]).len() == n,
    ensures
        forall|m: int|
            0 <= m < unsorted.sort_by(key_order()).len() ==> (#[trigger] unsorted.sort_by(
                key_order(),
            )[m]).len() == n,
{
    lemma_sorted_keys_from(unsorted);
    let t = unsorted.sort_by(key_order());
    assert forall|m: int| 0 <= m < t.len() implies (#[trigger] t[m]).len() == n by {
        assert(unsorted.contains(t[m]));
    }
}

/// The documentation links of the usable and deprecated lints, sorted by
/// name.
fn changelog_links(usable: &[Lint], deprecated: &[DeprecatedLint]) -> (r: String)
    ensures
        r@ == changelog_links_spec(lint_views(usable@), deprecated_views(deprecated@)),
{
    let mut keys: Vec<Vec<String>> = Vec::new();
    let mut i: usize = 0;
    while i < usable.len()
        invariant
            0 <= i <= usable@.len(),
            keys_view(keys@) == lint_views(usable@).subrange(0, i as int).map_values(
                |l: LintView| seq![l.name],
            ),
        decreases usable@.len() - i,
    {
        let mut key: Vec<String> = Vec::new();
        key.push(usable[i].name.clone());
        proof {
            assert(key@.map_values(|s: String| s@) =~= seq![usable@[i as int].name@]);
        }
        let ghost prev = keys_view(keys@);
        keys.push(key);
        proof {
            let f = |l: LintView| seq![l.name];
            assert(keys_view(keys@) =~= prev.push(seq![usable@[i as int].name@]));
            assert(lint_views(usable@).subrange(0, i + 1).map_values(f) =~= lint_views(
                usable@,
            ).subrange(0, i as int).map_values(f).push(seq![usable@[i as int].name@]));
        }
        i = i + 1;
    }
    let ghost first = keys_view(keys@);
    assert(first =~= lint_views(usable@).map_values(|l: LintView| seq![l.name]));
    let mut i: usize = 0;
    while i < deprecated.len()
        invariant
            0 <= i <= deprecated@.len(),
            keys_view(keys@) == first + deprecated_views(deprecated@).subrange(0, i as int).map_values(
                |d: DeprecatedLintView| seq![d.name],
            ),
        decreases deprecated@.len() - i,
    {
        let mut key: Vec<String> = Vec::new();
        key.push(deprecated[i].name.clone());
        proof {
            assert(key@.map_values(|s: String| s@) =~= seq![deprecated@[i as int].name@]);
        }
        let ghost prev = keys_view(keys@);
        keys.push(key);
        proof {
            let f = |d: DeprecatedLintView| seq![d.name];
            assert(keys_view(keys@) =~= prev.push(seq![deprecated@[i as int].name@]));
            assert(deprecated_views(deprecated@).subrange(0, i + 1).map_values(f) =~= deprecated_views(
                deprecated@,
            ).subrange(0, i as int).map_values(f).push(seq![deprecated@[i as int].name@]));
        }
        i = i + 1;
    }
    let ghost unsorted = keys_view(keys@);
    assert(unsorted =~= changelog_keys(lint_views(usable@), deprecated_views(deprecated@)));
    assert forall|m: int| 0 <= m < unsorted.len() implies (#[trigger] unsorted[m]).len() == 1 by {}
    sort_keys(&mut keys);
    proof {
        crate::text_order::lemma_key_order_total();
        lemma_sorted_key_parts(unsorted, 1);
        assert forall|m: int| 0 <= m < keys@.len() implies (#[trigger] keys@[m])@.len() == 1 by {
            assert(keys_view(keys@)[m] == keys@[m]@.map_values(|s: String| s@));
        }
    }
    let mut out = String::new();
    push_single_key_lines(&mut out, &keys, false);
    assert(out@ =~= changelog_links_spec(lint_views(usable@), deprecated_views(deprecated@)));
    out
}

/// Whether some string of `v` equals `s`.
fn contains_text(v: &Vec<String>, s: &str) -> (r: bool)
    ensures
        r == v@.map_values(|x: String| x@).contains(s@),
{
    let ghost w = v@.map_values(|x: String| x@);
    let mut i: usize = 0;
    while i < v.len()
        invariant
            0 <= i <= v@.len(),
            w == v@.map_values(|x: String| x@),
            forall|j: int| 0 <= j < i ==> w[j] != s@,
        decreases v@.len() - i,
    {
        if str_eq(v[i].as_str(), s) {
            assert(w[i as int] == s@);
            return true;
        }
        i = i + 1;
    }
    false
}

/// The `mod` declarations of the modules of the usable lints, sorted.
fn module_lines(usable: &[Lint]) -> (r: String)
    ensures
        r@ == module_lines_spec(lint_views(usable@)),
{
    let mut mods: Vec<String> = Vec::new();
    let mut i: usize = 0;
    while i < usable.len()
        invariant
            0 <= i <= usable@.len(),
            mods@.map_values(|x: String| x@) == distinct_modules(
                lint_views(usable@).subrange(0, i as int),
            ),
        decreases usable@.len() - i,
    {
        let ghost p = lint_views(usable@).subrange(0, i + 1);
        proof {
            assert(p.drop_last() =~= lint_views(usable@).subrange(0, i as int));
            assert(p.last() == usable@[i as int]@);
        }
        if !contains_text(&mods, usable[i].module.as_str()) {
            let ghost prev = mods@.map_values(|x: String| x@);
            mods.push(usable[i].module.clone());
            assert(mods@.map_values(|x: String| x@) =~= prev.push(usable@[i as int].module@));
        }
        i = i + 1;
    }
    assert(lint_views(usable@).subrange(0, usable@.len() as int) =~= lint_views(usable@));
    let ghost dm = distinct_modules(lint_views(usable@));
    let mut keys: Vec<Vec<String>> = Vec::new();
    let mut j: usize = 0;
    while j < mods.len()
        invariant
            0 <= j <= mods@.len(),
            mods@.map_values(|x: String| x@) == dm,
            keys_view(keys@) == dm.subrange(0, j as int).map_values(|m: Seq<char>| seq![m]),
        decreases mods@.len() - j,
    {
        let mut key: Vec<String> = Vec::new();
        key.push(mods[j].clone());
        proof {
            assert(key@.map_values(|s: String| s@) =~= seq![dm[j as int]]);
        }
        let ghost prev = keys_view(keys@);
        keys.push(key);
        proof {
            let f = |m: Seq<char>| seq![m];
            assert(keys_view(keys@) =~= prev.push(seq![dm[j as int]]));
            assert(dm.subrange(0, j + 1).map_values(f) =~= dm.subrange(0, j as int).map_values(
                f,
            ).push(seq![dm[j as int]]));
        }
        j = j + 1;
    }
    let ghost unsorted = keys_view(keys@);
    assert(unsorted =~= dm.map_values(|m: Seq<char>| seq![m]));
    assert forall|m: int| 0 <= m < unsorted.len() implies (#[trigger] unsorted[m]).len() == 1 by {}
    sort_keys(&mut keys);
    proof {
        crate::text_order::lemma_key_order_total();
        lemma_sorted_key_parts(unsorted, 1);
        assert forall|m: int| 0 <= m < keys@.len() implies (#[trigger] keys@[m])@.len() == 1 by {
            assert(keys_view(keys@)[m] == keys@[m]@.map_values(|s: String| s@));
        }
    }
    let mut out = String::new();
    push_single_key_lines(&mut out, &keys, true);
    assert(out@ =~= module_lines_spec(lint_views(usable@)));
    out
}

/// The groups whose lints are all registered in the `all` group.
pub open spec fn in_all_group(g: Seq<char>) -> bool {
    g == "correctness"@ || g == "suspicious"@ || g == "style"@ || g == "complexity"@ || g
        == "perf"@
}

/// The lints of `s` that belong in the `all` group, in order.
pub open spec fn all_group_spec(s: Seq<LintView>) -> Seq<LintView>
    decreases s.len(),
{
    if s.len() == 0 {
        s
    } else {
        let r = all_group_spec(s.drop_last());
        if in_all_group(s.last().group) {
            r.push(s.last())
        } else {
            r
        }
    }
}

fn all_group_lints(lints: &[Lint]) -> (r: Vec<Lint>)
    ensures
        lint_views(r@) == all_group_spec(lint_views(lints@)),
{
    let mut out: Vec<Lint> = Vec::new();
    let mut i: usize = 0;
    while i < lints.len()
        invariant
            0 <= i <= lints@.len(),
            lint_views(out@) == all_group_spec(lint_views(lints@.subrange(0, i as int))),
        decreases lints@.len() - i,
    {
        let g = lints[i].group.as_str();
        let keep = str_eq(g, "correctness") || str_eq(g, "suspicious") || str_eq(g, "style")
            || str_eq(g, "complexity") || str_eq(g, "perf");
        proof {
            let p = lints@.subrange(0, i + 1);
            assert(p.drop_last() =~= lints@.subrange(0, i as int));
            assert(lint_views(p).drop_last() =~= lint_views(p.drop_last()));
            assert(lint_views(p).last() == lints@[i as int]@);
        }
        if keep {
            out.push(lints[i].duplicate());
        }
        proof {
            assert(lint_views(out@) =~= all_group_spec(lint_views(lints@.subrange(0, i + 1))));
        }
        i = i + 1;
    }
    assert(lints@.subrange(0, lints@.len() as int) =~= lints@);
    out
}

/// The paths and contents of files, as text.
pub open spec fn files_view(v: Seq<(String, String)>) -> Seq<(Seq<char>, Seq<char>)> {
    v.map_values(|f: (String, String)| (f.0@, f.1@))
}

/// The register file of each lint group of `all`, in order of first
/// appearance of the group.
pub open spec fn group_files_spec(all: Seq<LintView>) -> Seq<(Seq<char>, Seq<char>)> {
    group_keys(all).map_values(
        |g: Seq<char>|
            (
                "clippy_lints/src/lib.register_"@ + g + ".rs"@,
                gen_lint_group_list_spec(g, group_members(all, g)),
            ),
    )
}

/// Where the lint count stands in the README.
pub const README_START: &'static str = "[There are over ";

/// Where the lint count ends in the README.
pub const README_END: &'static str = " lints included in this crate!]";

/// Where the lint links start in the changelog.
pub const CHANGELOG_START: &'static str = "<!-- begin autogenerated links to lint list -->\n";

/// Where the lint links end in the changelog.
pub const CHANGELOG_END: &'static str = "<!-- end autogenerated links to lint list -->";

/// Where the lint modules start in the lints crate's root.
pub const MODULES_START: &'static str = "// begin lints modules, do not remove this comment, it\u{2019}s used in `update_lints`\n";

/// Where the lint modules end in the lints crate's root.
pub const MODULES_END: &'static str = "// end lints modules, do not remove this comment, it\u{2019}s used in `update_lints`";

/// Every file that the tool maintains, with its new content; or the region
/// delimiter that is missing from the README, the changelog or the lints
/// crate's root (in that order).
pub open spec fn generate_spec(
    lints: Seq<LintView>,
    deprecated: Seq<DeprecatedLintView>,
    renamed: Seq<RenamedLintView>,
    readme: Seq<char>,
    changelog: Seq<char>,
    lints_root: Seq<char>,
) -> Result<Seq<(Seq<char>, Seq<char>)>, Seq<char>> {
    let internal = internal_spec(lints);
    let usable = usable_spec(lints);
    match replace_region_spec(
        readme,
        README_START@,
        README_END@,
        decimal((usable.len() / 50 * 50) as nat),
    ) {
        Err(d) => Err(d),
        Ok(new_readme) => match replace_region_spec(
            changelog,
            CHANGELOG_START@,
            CHANGELOG_END@,
            changelog_links_spec(usable, deprecated),
        ) {
            Err(d) => Err(d),
            Ok(new_changelog) => match replace_region_spec(
                lints_root,
                MODULES_START@,
                MODULES_END@,
                module_lines_spec(usable),
            ) {
                Err(d) => Err(d),
                Ok(new_root) => Ok(
                    seq![
                        ("README.md"@, new_readme),
                        ("CHANGELOG.md"@, new_changelog),
                        ("clippy_lints/src/lib.rs"@, new_root),
                        (
                            "clippy_lints/src/lib.register_lints.rs"@,
                            gen_register_lint_list_spec(internal, usable),
                        ),
                        ("clippy_lints/src/lib.deprecated.rs"@, gen_deprecated_spec(deprecated)),
                        (
                            "clippy_lints/src/lib.register_all.rs"@,
                            gen_lint_group_list_spec("all"@, all_group_spec(usable)),
                        ),
                    ] + group_files_spec(usable + internal) + seq![
                        ("tests/ui/deprecated.rs"@, gen_deprecated_lints_test_spec(deprecated)),
                        ("tests/ui/rename.rs"@, gen_renamed_lints_test_spec(renamed)),
                    ],
                ),
            },
        },
    }
}

fn push_file(files: &mut Vec<(String, String)>, path: &str, content: String)
    ensures
        files_view(final(files)@) == files_view(old(files)@).push((path@, content@)),
{
    files.push((String::from_str(path), content));
    assert(files_view(files@) =~= files_view(old(files)@).push((path@, content@)));
}

/// The files that are done before the first missing delimiter: the README
/// when the changelog's delimiter is missing, and the changelog too when
/// that of the lints crate's root is.
pub open spec fn done_before_error(
    lints: Seq<LintView>,
    deprecated: Seq<DeprecatedLintView>,
    readme: Seq<char>,
    changelog: Seq<char>,
) -> Seq<(Seq<char>, Seq<char>)> {
    let usable = usable_spec(lints);
    match replace_region_spec(readme, README_START@, README_END@, decimal((usable.len() / 50 * 50) as nat)) {
        Err(_) => Seq::empty(),
        Ok(new_readme) => match replace_region_spec(
            changelog,
            CHANGELOG_START@,
            CHANGELOG_END@,
            changelog_links_spec(usable, deprecated),
        ) {
            Err(_) => seq![("README.md"@, new_readme)],
            Ok(new_changelog) => seq![("README.md"@, new_readme), ("CHANGELOG.md"@, new_changelog)],
        },
    }
}

/// Computes the new content of every file that the tool maintains, in the
/// order in which the tool brings them up to date: the lint count in the
/// README, the lint links in the changelog, the module list of the lints
/// crate, and the generated registration and test files. `readme`,
/// `changelog` and `lints_root` are the current contents of the README,
/// the changelog and the lints crate's root. Where one of them lacks a
/// delimiter of its region, the files before it come back with the
/// missing delimiter.
pub fn generate_lint_files(
    lints: &[Lint],
    deprecated_lints: &[DeprecatedLint],
    renamed_lints: &[RenamedLint],
    readme: &str,
    changelog: &str,
    lints_root: &str,
) -> (r: (Vec<(String, String)>, Option<String>))
    ensures
        match generate_spec(
            lint_views(lints@),
            deprecated_views(deprecated_lints@),
            renamed_views(renamed_lints@),
            readme@,
            changelog@,
            lints_root@,
        ) {
            Ok(files) => files_view(r.0@) == files && r.1 is None,
            Err(d) => r.1 matches Some(x) && x@ == d && files_view(r.0@) == done_before_error(
                lint_views(lints@),
                deprecated_views(deprecated_lints@),
                readme@,
                changelog@,
            ),
        },
{
    let internal_lints = Lint::internal_lints(lints);
    let usable_lints = Lint::usable_lints(lints);
    let ghost usable = usable_spec(lint_views(lints@));
    let ghost internal = internal_spec(lint_views(lints@));
    assert(lint_views(usable_lints@).len() == usable_lints@.len());
    let count = usize_to_decimal(round_to_fifty(usable_lints.len()));
    let mut files: Vec<(String, String)> = Vec::new();
    assert(files_view(files@) =~= Seq::empty());
    match replace_region_in_text(readme, README_START, README_END, count.as_str()) {
        Ok(t) => push_file(&mut files, "README.md", t),
        Err(d) => {
            return (files, Some(d));
        },
    }
    let links = changelog_links(usable_lints.as_slice(), deprecated_lints);
    match replace_region_in_text(changelog, CHANGELOG_START, CHANGELOG_END, links.as_str()) {
        Ok(t) => push_file(&mut files, "CHANGELOG.md", t),
        Err(d) => {
            return (files, Some(d));
        },
    }
    let mods = module_lines(usable_lints.as_slice());
    match replace_region_in_text(lints_root, MODULES_START, MODULES_END, mods.as_str()) {
        Ok(t) => push_file(&mut files, "clippy_lints/src/lib.rs", t),
        Err(d) => {
            return (files, Some(d));
        },
    }
    push_file(
        &mut files,
        "clippy_lints/src/lib.register_lints.rs",
        gen_register_lint_list(internal_lints.as_slice(), usable_lints.as_slice()),
    );
    push_file(&mut files, "clippy_lints/src/lib.deprecated.rs", gen_deprecated(deprecated_lints));
    let all_lints = all_group_lints(usable_lints.as_slice());
    push_file(
        &mut files,
        "clippy_lints/src/lib.register_all.rs",
        gen_lint_group_list("all", all_lints.as_slice()),
    );
    let ghost head = files_view(files@);
    let mut everything: Vec<Lint> = Vec::new();
    let mut i: usize = 0;
    while i < usable_lints.len()
        invariant
            0 <= i <= usable_lints@.len(),
            lint_views(everything@) == lint_views(usable_lints@).subrange(0, i as int),
        decreases usable_lints@.len() - i,
    {
        let ghost prev = lint_views(everything@);
        everything.push(usable_lints[i].duplicate());
        assert(lint_views(everything@) =~= prev.push(usable_lints@[i as int]@));
        assert(lint_views(everything@) =~= lint_views(usable_lints@).subrange(0, i + 1));
        i = i + 1;
    }
    let mut i: usize = 0;
    while i < internal_lints.len()
        invariant
            0 <= i <= internal_lints@.len(),
            lint_views(everything@) == lint_views(usable_lints@) + lint_views(
                internal_lints@,
            ).subrange(0, i as int),
        decreases internal_lints@.len() - i,
    {
        let ghost prev = lint_views(everything@);
        everything.push(internal_lints[i].duplicate());
        assert(lint_views(everything@) =~= prev.push(internal_lints@[i as int]@));
        assert(lint_views(everything@) =~= lint_views(usable_lints@) + lint_views(
            internal_lints@,
        ).subrange(0, i + 1));
        i = i + 1;
    }
    let ghost all = usable + internal;
    assert(lint_views(everything@) =~= all);
    let groups = Lint::by_lint_group(everything);
    let mut j: usize = 0;
    while j < groups.len()
        invariant
            0 <= j <= groups@.len(),
            groups@.len() == group_keys(all).len(),
            forall|m: int|
                0 <= m < groups@.len() ==> (#[trigger] groups@[m]).0@ == group_keys(all)[m]
                    && lint_views(groups@[m].1@) == group_members(all, group_keys(all)[m]),
            files_view(files@) == head + group_files_spec(all).subrange(0, j as int),
        decreases groups@.len() - j,
    {
        let (g, members) = &groups[j];
        let mut path = String::from_str("clippy_lints/src/lib.register_");
        path.append(g.as_str());
        path.append(".rs");
        let content = gen_lint_group_list(g.as_str(), members.as_slice());
        let ghost prev = files_view(files@);
        files.push((path, content));
        proof {
            assert(files_view(files@) =~= prev.push((path@, content@)));
            assert(group_files_spec(all).subrange(0, j + 1) =~= group_files_spec(all).subrange(
                0,
                j as int,
            ).push(group_files_spec(all)[j as int]));
        }
        j = j + 1;
    }
    assert(group_files_spec(all).subrange(0, groups@.len() as int) =~= group_files_spec(all));
    push_file(&mut files, "tests/ui/deprecated.rs", gen_deprecated_lints_test(deprecated_lints));
    push_file(&mut files, "tests/ui/rename.rs", gen_renamed_lints_test(renamed_lints));
    proof {
        let expected = generate_spec(
            lint_views(lints@),
            deprecated_views(deprecated_lints@),
            renamed_views(renamed_lints@),
            readme@,
            changelog@,
            lints_root@,
        );
        if let Ok(f) = expected {
            assert(files_view(files@) =~= f);
        }
    }
    (files, None)
}

/// Why a check of the maintained files failed.
#[derive(Clone, Debug, PartialEq, Eq)]
pub enum UpdateError {
    /// The file at this path could not be read.
    Unreadable(String),
    /// Some file differs from what the tool would write.
    OutOfDate,
}

/// The first file, from position `i` on, that is unreadable or differs
/// from its new content.
pub open spec fn first_stale(
    files: Seq<(Seq<char>, Seq<char>)>,
    current: Seq<Option<Seq<char>>>,
    i: int,
) -> Option<int>
    decreases files.len() - i,
{
    if i >= files.len() || i < 0 {
        None
    } else if current[i] is None || current[i].unwrap() != files[i].1 {
        Some(i)
    } else {
        first_stale(files, current, i + 1)
    }
}

/// The contents that a `Change` run leaves in the files it writes.
pub open spec fn written_contents(files: Seq<(Seq<char>, Seq<char>)>) -> Seq<Option<Seq<char>>> {
    files.map_values(|f: (Seq<char>, Seq<char>)| Some(f.1))
}

proof fn lemma_none_stale_from(files: Seq<(Seq<char>, Seq<char>)>, i: int)
    requires
        0 <= i,
    ensures
        first_stale(files, written_contents(files), i) is None,
    decreases files.len() - i,
{
    if i < files.len() {
        lemma_none_stale_from(files, i + 1);
    }
}

/// Law: once the generated files have been written, checking them against
/// what was written finds no stale file, so a `Check` run succeeds.
pub proof fn law_check_after_change(files: Seq<(Seq<char>, Seq<char>)>)
    ensures
        first_stale(files, written_contents(files), 0) is None,
{
    lemma_none_stale_from(files, 0);
}

/// In `replacement` followed by the end delimiter `end`, the delimiter does
/// not occur before its own place.
pub open spec fn end_not_early(replacement: Seq<char>, end: Seq<char>) -> bool {
    forall|k: int| 0 <= k < replacement.len() ==> !#[trigger] matches_at(replacement + end, end, k)
}

proof fn lemma_first_match_is_first(s: Seq<char>, pat: Seq<char>, from: int)
    requires
        first_match(s, pat, from) is Some,
    ensures
        is_first_match(s, pat, from, first_match(s, pat, from)->Some_0),
{
}

/// Replacing a region again with the same text changes nothing, where the
/// end delimiter does not occur early in the replacement.
proof fn lemma_replace_region_idempotent(text: Seq<char>, start: Seq<char>, end: Seq<char>, replacement: Seq<char>)
    requires
        replace_region_spec(text, start, end, replacement) is Ok,
        end_not_early(replacement, end),
    ensures
        replace_region_spec(replace_region_spec(text, start, end, replacement)->Ok_0, start, end, replacement)
            == replace_region_spec(text, start, end, replacement),
{
    lemma_first_match_is_first(text, start, 0);
    let i = first_match(text, start, 0)->Some_0;
    let sl = start.len() as int;
    let el = end.len() as int;
    let rl = replacement.len() as int;
    lemma_first_match_is_first(text, end, i + sl);
    let j = first_match(text, end, i + sl)->Some_0;
    let t = text.subrange(0, i) + start + replacement + end + text.subrange(j + el, text.len() as int);
    assert(replace_region_spec(text, start, end, replacement) == Ok::<Seq<char>, Seq<char>>(t));
    assert(text.subrange(i, i + sl) == start);
    assert forall|k: int| 0 <= k < i + sl implies t[k] == text[k] by {
        if k >= i {
            assert(text.subrange(i, i + sl)[k - i] == text[k]);
        }
    }
    assert(t.subrange(i, i + sl) =~= start);
    assert forall|q: int| 0 <= q < i implies !#[trigger] matches_at(t, start, q) by {
        if matches_at(t, start, q) {
            assert(t.subrange(q, q + sl) =~= text.subrange(q, q + sl));
            assert(matches_at(text, start, q));
        }
    }
    assert(is_first_match(t, start, 0, i));
    lemma_first_match_unique(t, start, 0, i);
    let p = i + sl + rl;
    let tail = replacement + end;
    assert forall|k: int| 0 <= k < rl + el implies t[i + sl + k] == tail[k] by {}
    assert(t.subrange(p, p + el) =~= end);
    assert forall|q: int| i + sl <= q < p implies !#[trigger] matches_at(t, end, q) by {
        if matches_at(t, end, q) {
            assert(tail.subrange(q - (i + sl), q - (i + sl) + el) =~= t.subrange(q, q + el));
            assert(matches_at(tail, end, q - (i + sl)));
        }
    }
    assert(is_first_match(t, end, i + sl, p));
    lemma_first_match_unique(t, end, i + sl, p);
    assert(t.subrange(0, i) =~= text.subrange(0, i));
    assert(t.subrange(p + el, t.len() as int) =~= text.subrange(j + el, text.len() as int));
}

/// The decimal digits of a number are digits.
proof fn lemma_decimal_digits(n: nat)
    ensures
        forall|k: int| 0 <= k < decimal(n).len() ==> 48 <= #[trigger] (decimal(n)[k] as u32) <= 57,
    decreases n,
{
    if n >= 10 {
        lemma_decimal_digits(n / 10);
        let d = decimal(n / 10);
        assert forall|k: int| 0 <= k < decimal(n).len() implies 48 <= #[trigger] (decimal(n)[k] as u32) <= 57 by {
            if k < d.len() {
                assert(decimal(n)[k] == d[k]);
            }
        }
    }
}

/// Law: a `Change` run is idempotent. Generating the files again from the
/// README, the changelog and the lints crate's root that a first run
/// produced gives the same files, where neither the changelog's links nor
/// the module list hold their region's end delimiter.
pub proof fn law_change_idempotent(
    lints: Seq<LintView>,
    deprecated: Seq<DeprecatedLintView>,
    renamed: Seq<RenamedLintView>,
    readme: Seq<char>,
    changelog: Seq<char>,
    lints_root: Seq<char>,
)
    requires
        end_not_early(changelog_links_spec(usable_spec(lints), deprecated), CHANGELOG_END@),
        end_not_early(module_lines_spec(usable_spec(lints)), MODULES_END@),
    ensures
        generate_spec(lints, deprecated, renamed, readme, changelog, lints_root) matches Ok(files) ==> generate_spec(
            lints,
            deprecated,
            renamed,
            files[0].1,
            files[1].1,
            files[2].1,
        ) == Ok::<Seq<(Seq<char>, Seq<char>)>, Seq<char>>(files),
{
    let usable = usable_spec(lints);
    let count = decimal((usable.len() / 50 * 50) as nat);
    if generate_spec(lints, deprecated, renamed, readme, changelog, lints_root) is Ok {
        lemma_decimal_digits((usable.len() / 50 * 50) as nat);
        reveal_strlit(" lints included in this crate!]");
        assert forall|k: int| 0 <= k < count.len() implies !#[trigger] matches_at(count + README_END@, README_END@, k) by {
            if matches_at(count + README_END@, README_END@, k) {
                assert((count + README_END@).subrange(k, k + README_END@.len())[0] == README_END@[0]);
                assert(count[k] == (count + README_END@)[k]);
                assert(48 <= (count[k] as u32) <= 57);
            }
        }
        lemma_replace_region_idempotent(readme, README_START@, README_END@, count);
        lemma_replace_region_idempotent(
            changelog,
            CHANGELOG_START@,
            CHANGELOG_END@,
            changelog_links_spec(usable, deprecated),
        );
        lemma_replace_region_idempotent(lints_root, MODULES_START@, MODULES_END@, module_lines_spec(usable));
    }
}

/// The text of the current contents of the files.
pub open spec fn current_view(v: Seq<Option<String>>) -> Seq<Option<Seq<char>>> {
    v.map_values(
        |c: Option<String>|
            match c {
                Some(s) => Some(s@),
                None => None,
            },
    )
}

/// Runs the update: in `Change` mode, every generated file is to be
/// written; in `Check` mode nothing is written, and the files' `current`
/// contents (`None` where a file cannot be read), in the order of
/// `generated`, must all equal their new contents; the first file that
/// does not is reported.
pub fn update(update_mode: UpdateMode, generated: &Vec<(String, String)>, current: &Vec<Option<String>>) -> (r: Result<
    Vec<(String, String)>,
    UpdateError,
>)
    requires
        update_mode == UpdateMode::Check ==> current@.len() == generated@.len(),
    ensures
        update_mode == UpdateMode::Change ==> (r matches Ok(v) && files_view(v@) == files_view(
            generated@,
        )),
        update_mode == UpdateMode::Check ==> match first_stale(
            files_view(generated@),
            current_view(current@),
            0,
        ) {
            None => (r matches Ok(v) && v@.len() == 0),
            Some(k) => if current@[k] is None {
                (r matches Err(UpdateError::Unreadable(p)) && p@ == generated@[k].0@)
            } else {
                r == Err::<Vec<(String, String)>, UpdateError>(UpdateError::OutOfDate)
            },
        },
{
    match update_mode {
        UpdateMode::Change => {
            let mut out: Vec<(String, String)> = Vec::new();
            let mut i: usize = 0;
            while i < generated.len()
                invariant
                    0 <= i <= generated@.len(),
                    files_view(out@) == files_view(generated@).subrange(0, i as int),
                decreases generated@.len() - i,
            {
                let ghost prev = files_view(out@);
                out.push((generated[i].0.clone(), generated[i].1.clone()));
                assert(files_view(out@) =~= prev.push(files_view(generated@)[i as int]));
                assert(files_view(generated@).subrange(0, i + 1) =~= files_view(generated@).subrange(
                    0,
                    i as int,
                ).push(files_view(generated@)[i as int]));
                i = i + 1;
            }
            assert(files_view(generated@).subrange(0, generated@.len() as int) =~= files_view(
                generated@,
            ));
            Ok(out)
        },
        UpdateMode::Check => {
            let ghost fv = files_view(generated@);
            let ghost cv = current_view(current@);
            let mut i: usize = 0;
            while i < generated.len()
                invariant
                    0 <= i <= generated@.len(),
                    update_mode == UpdateMode::Check,
                    current@.len() == generated@.len(),
                    fv == files_view(generated@),
                    cv == current_view(current@),
                    first_stale(fv, cv, 0) == first_stale(fv, cv, i as int),
                decreases generated@.len() - i,
            {
                match &current[i] {
                    None => {
                        return Err(UpdateError::Unreadable(generated[i].0.clone()));
                    },
                    Some(c) => {
                        if !str_eq(c.as_str(), generated[i].1.as_str()) {
                            return Err(UpdateError::OutOfDate);
                        }
                    },
                }
                i = i + 1;
            }
            Ok(Vec::new())
        },
    }
}

/// Rounds a count down to a multiple of fifty.
pub fn round_to_fifty(count: usize) -> (r: usize)
    ensures
        r == count / 50 * 50,
        r <= count < r + 50,
        r % 50 == 0,
{
    count / 50 * 50
}

} // verus!
