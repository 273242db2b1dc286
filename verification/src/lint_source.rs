//! Reading the lint declarations out of the linter's source files: the
//! `declare_clippy_lint!` and `declare_deprecated_lint!` invocations, and
//! the table of renamed lints, found in the token stream of each file.

use vstd::prelude::*;
use rustc_ap_rustc_lexer::{LiteralKind, TokenKind};
use crate::strings::{chars_of, chars_eq, str_eq, lines_of, split_lines, string_of, range_eq, chars_range};
use crate::update_lints::{
    Lint, LintView, DeprecatedLint, DeprecatedLintView, RenamedLint, RenamedLintView, lowercase,
    splice_free, literal_body, is_quoted_literal, trimmed_literal, trim_hashes_start,
    trim_hashes_end, strip_raw_marker, lint_views, deprecated_views, renamed_views,
};

verus! {

// ---------------------------------------------------------------------
// Tokens
// ---------------------------------------------------------------------

/// The kinds of token that the parsers tell apart.
#[derive(Clone, Copy, PartialEq, Eq, Structural, Debug)]
pub enum TokKind {
    Whitespace,
    LineComment,
    Ident,
    /// A string literal `"..."` (not raw, not a byte string).
    StrLiteral,
    /// Any other literal.
    Literal,
    /// Punctuation and every other token; one-character punctuation is
    /// told apart by its text.
    Other,
}

/// The tokens of `s` as the Rust lexer splits it: each token's kind and
/// source text, in order.
pub uninterp spec fn lexed(s: Seq<char>) -> Seq<(TokKind, Seq<char>)>;

/// The kinds and texts of a vector of tokens.
pub open spec fn toks_view(v: Seq<(TokKind, String)>) -> Seq<(TokKind, Seq<char>)> {
    v.map_values(|t: (TokKind, String)| (t.0, t.1@))
}

/// The lexer's `tokenize`, each token's length turned into its source
/// text; the result is named `lexed`.
#[verifier::external_body]
fn tokenize_text(s: &str) -> (r: Vec<(TokKind, String)>)
    ensures
        toks_view(r@) == lexed(s@),
{
    let mut rest = s;
    rustc_ap_rustc_lexer::tokenize(s).map(|t| {
        let kind = match t.kind {
            TokenKind::Whitespace => TokKind::Whitespace,
            TokenKind::LineComment { .. } => TokKind::LineComment,
            TokenKind::Ident => TokKind::Ident,
            TokenKind::Literal { kind: LiteralKind::Str { .. }, .. } => TokKind::StrLiteral,
            TokenKind::Literal { .. } => TokKind::Literal,
            _ => TokKind::Other,
        };
        let (text, after) = rest.split_at(t.len);
        rest = after;
        (kind, text.to_string())
    }).collect()
}

/// What the parsers expect of the next token.
#[derive(Clone, Copy, PartialEq, Eq, Structural, Debug)]
pub enum Expect {
    /// White space.
    Ws,
    /// An identifier.
    Ident,
    /// A string literal.
    Str,
    /// Any literal.
    Lit,
    /// One punctuation character.
    Punct(char),
}

/// Whether a token is what is expected.
pub open spec fn expect_holds(t: (TokKind, Seq<char>), e: Expect) -> bool {
    match e {
        Expect::Ws => t.0 == TokKind::Whitespace,
        Expect::Ident => t.0 == TokKind::Ident,
        Expect::Str => t.0 == TokKind::StrLiteral,
        Expect::Lit => t.0 == TokKind::StrLiteral || t.0 == TokKind::Literal,
        Expect::Punct(c) => t.0 == TokKind::Other && t.1 == seq![c],
    }
}

/// Tokens that the declaration parsers pass over.
pub open spec fn skippable(k: TokKind) -> bool {
    k == TokKind::Whitespace || k == TokKind::LineComment
}

/// The first token at or after `pos` that is not white space or a line
/// comment (the length when there is none).
pub open spec fn next_sig(toks: Seq<(TokKind, Seq<char>)>, pos: int) -> int
    decreases toks.len() - pos,
{
    if pos < 0 || pos >= toks.len() {
        pos
    } else if skippable(toks[pos].0) {
        next_sig(toks, pos + 1)
    } else {
        pos
    }
}

/// The outcome of matching tokens against expectations.
pub enum Scan {
    /// All matched: the position after the last, and the index of the
    /// token that met each expectation.
    Matched(int, Seq<int>),
    /// A token failed (or the tokens ran out): where scanning resumes,
    /// just after the token that failed.
    Mismatch(int),
}

/// Matching `es` against the tokens from `pos` on, each expectation
/// taking the next token (the next significant one when `filtered`).
pub open spec fn match_toks(toks: Seq<(TokKind, Seq<char>)>, pos: int, es: Seq<Expect>, filtered: bool) -> Scan
    decreases es.len(),
{
    if es.len() == 0 {
        Scan::Matched(pos, seq![])
    } else {
        let k = if filtered {
            next_sig(toks, pos)
        } else {
            pos
        };
        if k < 0 || k >= toks.len() {
            Scan::Mismatch(k)
        } else if expect_holds(toks[k], es[0]) {
            match match_toks(toks, k + 1, es.drop_first(), filtered) {
                Scan::Matched(e, idx) => Scan::Matched(e, seq![k] + idx),
                Scan::Mismatch(r) => Scan::Mismatch(r),
            }
        } else {
            Scan::Mismatch(k + 1)
        }
    }
}

/// The first identifier token `name` at or after `pos` (the length when
/// there is none).
pub open spec fn find_ident(toks: Seq<(TokKind, Seq<char>)>, pos: int, name: Seq<char>) -> int
    decreases toks.len() - pos,
{
    if pos < 0 || pos >= toks.len() {
        pos
    } else if toks[pos].0 == TokKind::Ident && toks[pos].1 == name {
        pos
    } else {
        find_ident(toks, pos + 1, name)
    }
}

pub proof fn lemma_next_sig(toks: Seq<(TokKind, Seq<char>)>, pos: int)
    requires
        0 <= pos,
    ensures
        pos <= next_sig(toks, pos),
        pos <= toks.len() ==> next_sig(toks, pos) <= toks.len(),
        next_sig(toks, pos) < toks.len() ==> !skippable(toks[next_sig(toks, pos)].0),
        forall|j: int| pos <= j < next_sig(toks, pos) && j < toks.len() ==> #[trigger] skippable(toks[j].0),
    decreases toks.len() - pos,
{
    if pos < toks.len() && skippable(toks[pos].0) {
        lemma_next_sig(toks, pos + 1);
    }
}

pub proof fn lemma_find_ident(toks: Seq<(TokKind, Seq<char>)>, pos: int, name: Seq<char>)
    requires
        0 <= pos,
    ensures
        pos <= find_ident(toks, pos, name),
        pos <= toks.len() ==> find_ident(toks, pos, name) <= toks.len(),
        find_ident(toks, pos, name) < toks.len() ==> toks[find_ident(toks, pos, name)].0 == TokKind::Ident
            && toks[find_ident(toks, pos, name)].1 == name,
        forall|j: int| pos <= j < find_ident(toks, pos, name) && j < toks.len() ==> !(#[trigger] toks[j].0
            == TokKind::Ident && toks[j].1 == name),
    decreases toks.len() - pos,
{
    if pos < toks.len() && !(toks[pos].0 == TokKind::Ident && toks[pos].1 == name) {
        lemma_find_ident(toks, pos + 1, name);
    }
}

/// Matching moves forward: past `pos` when anything was expected, with
/// the matched tokens in increasing order inside the range.
pub proof fn lemma_match_toks(toks: Seq<(TokKind, Seq<char>)>, pos: int, es: Seq<Expect>, filtered: bool)
    requires
        0 <= pos <= toks.len(),
    ensures
        match match_toks(toks, pos, es, filtered) {
            Scan::Matched(e, idx) => {
                &&& pos <= e <= toks.len()
                &&& (es.len() > 0 ==> pos < e)
                &&& idx.len() == es.len()
                &&& forall|m: int| 0 <= m < idx.len() ==> pos <= #[trigger] idx[m] < e && idx[m] < toks.len()
                    && expect_holds(toks[idx[m]], es[m])
            },
            Scan::Mismatch(r) => es.len() > 0 && pos <= r <= toks.len() && (pos < r || r == toks.len()),
        },
    decreases es.len(),
{
    if es.len() > 0 {
        let k = if filtered {
            next_sig(toks, pos)
        } else {
            pos
        };
        if filtered {
            lemma_next_sig(toks, pos);
        }
        if 0 <= k < toks.len() && expect_holds(toks[k], es[0]) {
            lemma_match_toks(toks, k + 1, es.drop_first(), filtered);
            match match_toks(toks, k + 1, es.drop_first(), filtered) {
                Scan::Matched(e, idx) => {
                    let all = seq![k] + idx;
                    assert forall|m: int| 0 <= m < all.len() implies pos <= #[trigger] all[m] < e && all[m]
                        < toks.len() && expect_holds(toks[all[m]], es[m]) by {
                        if m > 0 {
                            assert(all[m] == idx[m - 1]);
                            assert(es[m] == es.drop_first()[m - 1]);
                        }
                    }
                },
                Scan::Mismatch(r) => {},
            }
        }
    }
}

// ---------------------------------------------------------------------
// `declare_clippy_lint!`
// ---------------------------------------------------------------------

/// `!{` after the macro's name.
pub open spec fn bang_brace() -> Seq<Expect> {
    seq![Expect::Punct('!'), Expect::Punct('{')]
}

/// `[clippy::version = "..."] pub` after its `#`.
pub open spec fn version_attr() -> Seq<Expect> {
    seq![
        Expect::Punct('['),
        Expect::Ident,
        Expect::Punct(':'),
        Expect::Punct(':'),
        Expect::Ident,
        Expect::Punct('='),
        Expect::Lit,
        Expect::Punct(']'),
        Expect::Ident,
    ]
}

/// `NAME, group, "description" }`.
pub open spec fn lint_fields() -> Seq<Expect> {
    seq![
        Expect::Ident,
        Expect::Punct(','),
        Expect::Ident,
        Expect::Punct(','),
        Expect::Lit,
        Expect::Punct('}'),
    ]
}

/// After `declare_clippy_lint!{`: either a version attribute and `pub`,
/// or just `pub` (any identifier).
pub open spec fn after_visibility(toks: Seq<(TokKind, Seq<char>)>, p: int) -> Scan {
    let k = next_sig(toks, p);
    if k < 0 || k >= toks.len() {
        Scan::Mismatch(k)
    } else if expect_holds(toks[k], Expect::Punct('#')) {
        match_toks(toks, k + 1, version_attr(), true)
    } else if toks[k].0 == TokKind::Ident {
        Scan::Matched(k + 1, seq![])
    } else {
        Scan::Mismatch(k + 1)
    }
}

pub proof fn lemma_after_visibility(toks: Seq<(TokKind, Seq<char>)>, p: int)
    requires
        0 <= p <= toks.len(),
    ensures
        match after_visibility(toks, p) {
            Scan::Matched(e, _) => p < e <= toks.len(),
            Scan::Mismatch(r) => p <= r <= toks.len(),
        },
{
    lemma_next_sig(toks, p);
    let k = next_sig(toks, p);
    if 0 <= k < toks.len() && expect_holds(toks[k], Expect::Punct('#')) {
        lemma_match_toks(toks, k + 1, version_attr(), true);
    }
}

/// The raw texts (name, group, description) of the lints declared in the
/// tokens from `pos` on: each `declare_clippy_lint` identifier starts a
/// declaration; a declaration that does not have the expected shape is
/// given up at the first token that breaks it, and the search for the
/// next one resumes after that token.
pub open spec fn lint_decls(toks: Seq<(TokKind, Seq<char>)>, pos: int) -> Seq<(Seq<char>, Seq<char>, Seq<char>)>
    decreases toks.len() - pos,
{
    if pos < 0 || pos >= toks.len() {
        seq![]
    } else {
        let j = find_ident(toks, pos, "declare_clippy_lint"@);
        if j >= toks.len() {
            seq![]
        } else {
            proof {
                lemma_find_ident(toks, pos, "declare_clippy_lint"@);
                lemma_match_toks(toks, j + 1, bang_brace(), true);
            }
            match match_toks(toks, j + 1, bang_brace(), true) {
                Scan::Mismatch(r) => lint_decls(toks, r),
                Scan::Matched(p, _) => {
                    proof {
                        lemma_after_visibility(toks, p);
                    }
                    match after_visibility(toks, p) {
                        Scan::Mismatch(r) => lint_decls(toks, r),
                        Scan::Matched(q, _) => {
                            proof {
                                lemma_match_toks(toks, q, lint_fields(), true);
                            }
                            match match_toks(toks, q, lint_fields(), true) {
                                Scan::Mismatch(r) => lint_decls(toks, r),
                                Scan::Matched(e, idx) => seq![
                                    (toks[idx[0]].1, toks[idx[2]].1, toks[idx[4]].1),
                                ] + lint_decls(toks, e),
                            }
                        },
                    }
                },
            }
        }
    }
}

/// The lint record of a declaration's raw texts.
pub open spec fn decl_lint(d: (Seq<char>, Seq<char>, Seq<char>), module: Seq<char>) -> LintView {
    LintView { name: lowercase(d.0), group: d.1, desc: splice_free(literal_body(d.2)), module }
}

// ---------------------------------------------------------------------
// Scanning tokens
// ---------------------------------------------------------------------

/// The exec form of `Scan`.
pub enum ScanResult {
    Matched(usize, Vec<usize>),
    Mismatch(usize),
}

pub open spec fn scan_view(r: ScanResult) -> Scan {
    match r {
        ScanResult::Matched(e, idx) => Scan::Matched(e as int, idx@.map_values(|u: usize| u as int)),
        ScanResult::Mismatch(k) => Scan::Mismatch(k as int),
    }
}

/// `prefix` put in front of the indices of a successful scan.
pub open spec fn after_prefix(prefix: Seq<int>, s: Scan) -> Scan {
    match s {
        Scan::Matched(e, idx) => Scan::Matched(e, prefix + idx),
        Scan::Mismatch(r) => Scan::Mismatch(r),
    }
}

/// Whether a token is what is expected.
fn tok_holds(t: &(TokKind, String), e: Expect) -> (r: bool)
    ensures
        r == expect_holds((t.0, t.1@), e),
{
    match e {
        Expect::Ws => matches!(t.0, TokKind::Whitespace),
        Expect::Ident => matches!(t.0, TokKind::Ident),
        Expect::Str => matches!(t.0, TokKind::StrLiteral),
        Expect::Lit => matches!(t.0, TokKind::StrLiteral) || matches!(t.0, TokKind::Literal),
        Expect::Punct(c) => {
            if !matches!(t.0, TokKind::Other) {
                return false;
            }
            let cs = chars_of(t.1.as_str());
            if cs.len() == 1 && cs[0] == c {
                assert(cs@ =~= seq![c]);
                true
            } else {
                proof {
                    if t.1@ == seq![c] {
                        assert(cs@.len() == 1 && cs@[0] == c);
                    }
                }
                false
            }
        },
    }
}

/// The exec form of `next_sig`.
fn next_sig_exec(toks: &Vec<(TokKind, String)>, pos: usize) -> (r: usize)
    requires
        pos <= toks@.len(),
    ensures
        r as int == next_sig(toks_view(toks@), pos as int),
        pos <= r <= toks@.len(),
{
    let ghost t = toks_view(toks@);
    proof {
        lemma_next_sig(t, pos as int);
    }
    let mut k = pos;
    while k < toks.len() && (matches!(toks[k].0, TokKind::Whitespace) || matches!(toks[k].0, TokKind::LineComment))
        invariant
            pos <= k <= toks@.len(),
            t == toks_view(toks@),
            next_sig(t, pos as int) == next_sig(t, k as int),
        decreases toks@.len() - k,
    {
        assert(t[k as int].0 == toks@[k as int].0);
        k = k + 1;
    }
    proof {
        if k < toks@.len() {
            assert(t[k as int].0 == toks@[k as int].0);
        }
    }
    k
}

/// The exec form of `match_toks`.
fn match_toks_exec(toks: &Vec<(TokKind, String)>, pos: usize, es: &Vec<Expect>, filtered: bool) -> (r: ScanResult)
    requires
        pos <= toks@.len(),
    ensures
        scan_view(r) == match_toks(toks_view(toks@), pos as int, es@, filtered),
        match r {
            ScanResult::Matched(e, idx) => e <= toks@.len() && idx@.len() == es@.len() && forall|m: int|
                0 <= m < idx@.len() ==> #[trigger] idx@[m] < toks@.len(),
            ScanResult::Mismatch(k) => k <= toks@.len(),
        },
{
    let ghost t = toks_view(toks@);
    let mut idx: Vec<usize> = Vec::new();
    let mut cur = pos;
    let mut i: usize = 0;
    proof {
        assert(es@.subrange(0, es@.len() as int) =~= es@);
        assert(Seq::<int>::empty() + Seq::<int>::empty() =~= Seq::<int>::empty());
        lemma_match_toks(t, pos as int, es@, filtered);
        match match_toks(t, pos as int, es@, filtered) {
            Scan::Matched(e, ix) => {
                assert(Seq::<int>::empty() + ix =~= ix);
            },
            _ => {},
        }
    }
    while i < es.len()
        invariant
            i <= es@.len(),
            pos <= cur <= toks@.len(),
            t == toks_view(toks@),
            idx@.len() == i,
            forall|m: int| 0 <= m < idx@.len() ==> #[trigger] idx@[m] < toks@.len(),
            match_toks(t, pos as int, es@, filtered) == after_prefix(
                idx@.map_values(|u: usize| u as int),
                match_toks(t, cur as int, es@.subrange(i as int, es@.len() as int), filtered),
            ),
        decreases es@.len() - i,
    {
        let ghost rest = es@.subrange(i as int, es@.len() as int);
        let ghost before = idx@.map_values(|u: usize| u as int);
        let k = if filtered {
            next_sig_exec(toks, cur)
        } else {
            cur
        };
        if k >= toks.len() {
            return ScanResult::Mismatch(k);
        }
        assert(t[k as int] == (toks@[k as int].0, toks@[k as int].1@));
        if !tok_holds(&toks[k], es[i]) {
            return ScanResult::Mismatch(k + 1);
        }
        idx.push(k);
        proof {
            assert(rest[0] == es@[i as int]);
            assert(rest.drop_first() =~= es@.subrange(i + 1, es@.len() as int));
            assert(idx@.map_values(|u: usize| u as int) =~= before.push(k as int));
            match match_toks(t, k + 1, rest.drop_first(), filtered) {
                Scan::Matched(e, ix) => {
                    assert(before + (seq![k as int] + ix) =~= before.push(k as int) + ix);
                },
                _ => {},
            }
        }
        cur = k + 1;
        i = i + 1;
    }
    proof {
        assert(es@.subrange(i as int, es@.len() as int) =~= Seq::<Expect>::empty());
        assert(idx@.map_values(|u: usize| u as int) + Seq::<int>::empty() =~= idx@.map_values(|u: usize| u as int));
    }
    ScanResult::Matched(cur, idx)
}

/// The exec form of `find_ident`.
fn find_ident_exec(toks: &Vec<(TokKind, String)>, pos: usize, name: &str) -> (r: usize)
    requires
        pos <= toks@.len(),
    ensures
        r as int == find_ident(toks_view(toks@), pos as int, name@),
        r <= toks@.len(),
{
    let ghost t = toks_view(toks@);
    let mut k = pos;
    while k < toks.len()
        invariant
            pos <= k <= toks@.len(),
            t == toks_view(toks@),
            find_ident(t, pos as int, name@) == find_ident(t, k as int, name@),
        decreases toks@.len() - k,
    {
        assert(t[k as int] == (toks@[k as int].0, toks@[k as int].1@));
        if matches!(toks[k].0, TokKind::Ident) && str_eq(toks[k].1.as_str(), name) {
            return k;
        }
        k = k + 1;
    }
    k
}

/// The exec form of `after_visibility`.
fn after_visibility_exec(toks: &Vec<(TokKind, String)>, p: usize) -> (r: ScanResult)
    requires
        p <= toks@.len(),
    ensures
        scan_view(r) == after_visibility(toks_view(toks@), p as int),
        match r {
            ScanResult::Matched(e, _) => e <= toks@.len(),
            ScanResult::Mismatch(k) => k <= toks@.len(),
        },
{
    let ghost t = toks_view(toks@);
    let k = next_sig_exec(toks, p);
    if k >= toks.len() {
        return ScanResult::Mismatch(k);
    }
    assert(t[k as int] == (toks@[k as int].0, toks@[k as int].1@));
    if tok_holds(&toks[k], Expect::Punct('#')) {
        let es = vec![
            Expect::Punct('['),
            Expect::Ident,
            Expect::Punct(':'),
            Expect::Punct(':'),
            Expect::Ident,
            Expect::Punct('='),
            Expect::Lit,
            Expect::Punct(']'),
            Expect::Ident,
        ];
        assert(es@ =~= version_attr());
        match_toks_exec(toks, k + 1, &es, true)
    } else if matches!(toks[k].0, TokKind::Ident) {
        let v: Vec<usize> = Vec::new();
        assert(v@.map_values(|u: usize| u as int) =~= Seq::<int>::empty());
        ScanResult::Matched(k + 1, v)
    } else {
        ScanResult::Mismatch(k + 1)
    }
}

/// Whether `s` is a quoted string literal (see `is_quoted_literal`).
pub fn quoted_literal(s: &str) -> (r: bool)
    ensures
        r == is_quoted_literal(s@),
{
    let cs = chars_of(s);
    let n = cs.len();
    let mut lo: usize = 0;
    if n > 0 && cs[0] == 'r' {
        lo = 1;
        assert(cs@.subrange(1, n as int) =~= cs@.drop_first());
    } else {
        assert(cs@.subrange(0, n as int) =~= cs@);
    }
    while lo < n && cs[lo] == '#'
        invariant
            0 <= lo <= n,
            n == cs@.len(),
            cs@ == s@,
            trim_hashes_start(cs@.subrange(lo as int, n as int)) == trim_hashes_start(strip_raw_marker(s@)),
        decreases n - lo,
    {
        assert(cs@.subrange(lo + 1, n as int) =~= cs@.subrange(lo as int, n as int).drop_first());
        lo = lo + 1;
    }
    let mut hi: usize = n;
    while hi > lo && cs[hi - 1] == '#'
        invariant
            0 <= lo <= hi <= n,
            n == cs@.len(),
            cs@ == s@,
            trim_hashes_end(cs@.subrange(lo as int, hi as int)) == trimmed_literal(s@),
        decreases hi,
    {
        assert(cs@.subrange(lo as int, hi - 1) =~= cs@.subrange(lo as int, hi as int).drop_last());
        hi = hi - 1;
    }
    let ghost t = cs@.subrange(lo as int, hi as int);
    assert(t == trimmed_literal(s@));
    hi - lo >= 2 && cs[lo] == '"' && cs[hi - 1] == '"'
}

// ---------------------------------------------------------------------
// Parsing
// ---------------------------------------------------------------------

/// The first declaration among `decls` whose text at `pick` is not a
/// quoted literal, after only quoted ones.
pub open spec fn first_unquoted<T>(decls: Seq<T>, quoted: spec_fn(T) -> bool, bad: Seq<char>, text: spec_fn(T) -> Seq<char>) -> bool {
    exists|k: int|
        0 <= k < decls.len() && !quoted(#[trigger] decls[k]) && text(decls[k]) == bad && forall|k2: int|
            0 <= k2 < k ==> quoted(#[trigger] decls[k2])
}

/// Collects the lints that `declare_clippy_lint!` declares in the tokens
/// `toks`, recording `module` as their module. A description that is not a
/// quoted string literal stops the collection: it is returned as the error.
pub fn parse_lint_tokens(toks: &Vec<(TokKind, String)>, module: &str, lints: &mut Vec<Lint>) -> (r: Result<(), String>)
    ensures
        ({
            let decls = lint_decls(toks_view(toks@), 0);
            let quoted = |d: (Seq<char>, Seq<char>, Seq<char>)| is_quoted_literal(d.2);
            match r {
                Ok(()) => {
                    &&& forall|k: int| 0 <= k < decls.len() ==> is_quoted_literal(#[trigger] decls[k].2)
                    &&& lint_views(final(lints)@) == lint_views(old(lints)@) + decls.map_values(
                        |d: (Seq<char>, Seq<char>, Seq<char>)| decl_lint(d, module@),
                    )
                },
                Err(bad) => first_unquoted(decls, quoted, bad@, |d: (Seq<char>, Seq<char>, Seq<char>)| d.2),
            }
        }),
{
    let ghost t = toks_view(toks@);
    let ghost all = lint_decls(t, 0);
    let ghost mut done: Seq<(Seq<char>, Seq<char>, Seq<char>)> = seq![];
    let n = toks.len();
    let bang = vec![Expect::Punct('!'), Expect::Punct('{')];
    let fields = vec![
        Expect::Ident,
        Expect::Punct(','),
        Expect::Ident,
        Expect::Punct(','),
        Expect::Lit,
        Expect::Punct('}'),
    ];
    assert(bang@ =~= bang_brace());
    assert(fields@ =~= lint_fields());
    let mut pos: usize = 0;
    assert(done + lint_decls(t, 0) =~= all);
    while pos < n
        invariant
            pos <= n,
            n == toks@.len(),
            t == toks_view(toks@),
            all == lint_decls(t, 0),
            bang@ == bang_brace(),
            fields@ == lint_fields(),
            done + lint_decls(t, pos as int) == all,
            forall|k: int| 0 <= k < done.len() ==> is_quoted_literal(#[trigger] done[k].2),
            lint_views(lints@) == lint_views(old(lints)@) + done.map_values(
                |d: (Seq<char>, Seq<char>, Seq<char>)| decl_lint(d, module@),
            ),
        decreases n - pos,
    {
        let ghost here = lint_decls(t, pos as int);
        let j = find_ident_exec(toks, pos, "declare_clippy_lint");
        proof {
            lemma_find_ident(t, pos as int, "declare_clippy_lint"@);
        }
        if j >= n {
            proof {
                assert(here == Seq::<(Seq<char>, Seq<char>, Seq<char>)>::empty());
                assert(done + lint_decls(t, n as int) =~= done + here);
            }
            pos = n;
            continue;
        }
        proof {
            lemma_match_toks(t, j + 1, bang_brace(), true);
        }
        let m1 = match_toks_exec(toks, j + 1, &bang, true);
        let p = match m1 {
            ScanResult::Mismatch(r) => {
                pos = r;
                continue;
            },
            ScanResult::Matched(p, _) => p,
        };
        proof {
            lemma_after_visibility(t, p as int);
        }
        let m2 = after_visibility_exec(toks, p);
        let q = match m2 {
            ScanResult::Mismatch(r) => {
                pos = r;
                continue;
            },
            ScanResult::Matched(q, _) => q,
        };
        proof {
            lemma_match_toks(t, q as int, lint_fields(), true);
        }
        let m3 = match_toks_exec(toks, q, &fields, true);
        match m3 {
            ScanResult::Mismatch(r) => {
                pos = r;
            },
            ScanResult::Matched(e, idx) => {
                let ghost d = (t[idx@[0] as int].1, t[idx@[2] as int].1, t[idx@[4] as int].1);
                assert(here == seq![d] + lint_decls(t, e as int));
                let name = &toks[idx[0]].1;
                let group = &toks[idx[2]].1;
                let desc = &toks[idx[4]].1;
                if !quoted_literal(desc.as_str()) {
                    let bad = desc.clone();
                    proof {
                        let k = done.len() as int;
                        assert(all[k] == d);
                        assert forall|k2: int| 0 <= k2 < k implies is_quoted_literal(#[trigger] all[k2].2) by {
                            assert(all[k2] == done[k2]);
                        }
                    }
                    return Err(bad);
                }
                let lint = Lint::new(name.as_str(), group.as_str(), desc.as_str(), module);
                let ghost before = lints@;
                lints.push(lint);
                proof {
                    assert(lint_views(lints@) =~= lint_views(before).push(decl_lint(d, module@)));
                    assert(done.push(d).map_values(|d: (Seq<char>, Seq<char>, Seq<char>)| decl_lint(d, module@))
                        =~= done.map_values(|d: (Seq<char>, Seq<char>, Seq<char>)| decl_lint(d, module@)).push(decl_lint(d, module@)));
                    assert(done.push(d) + lint_decls(t, e as int) =~= done + here);
                    done = done.push(d);
                }
                pos = e;
            },
        }
    }
    proof {
        assert(lint_decls(t, pos as int) =~= Seq::<(Seq<char>, Seq<char>, Seq<char>)>::empty());
        assert(done =~= all);
    }
    Ok(())
}

/// Collects the lints that `declare_clippy_lint!` declares in `contents`,
/// recording `module` as their module. A description that is not a quoted
/// string literal stops the collection: it is returned as the error.
pub fn parse_contents(contents: &str, module: &str, lints: &mut Vec<Lint>) -> (r: Result<(), String>)
    ensures
        ({
            let decls = lint_decls(lexed(contents@), 0);
            let quoted = |d: (Seq<char>, Seq<char>, Seq<char>)| is_quoted_literal(d.2);
            match r {
                Ok(()) => {
                    &&& forall|k: int| 0 <= k < decls.len() ==> is_quoted_literal(#[trigger] decls[k].2)
                    &&& lint_views(final(lints)@) == lint_views(old(lints)@) + decls.map_values(
                        |d: (Seq<char>, Seq<char>, Seq<char>)| decl_lint(d, module@),
                    )
                },
                Err(bad) => first_unquoted(decls, quoted, bad@, |d: (Seq<char>, Seq<char>, Seq<char>)| d.2),
            }
        }),
{
    let toks = tokenize_text(contents);
    parse_lint_tokens(&toks, module, lints)
}

// ---------------------------------------------------------------------
// `declare_deprecated_lint!`
// ---------------------------------------------------------------------

/// `!{ #[clippy::version = "..."] pub NAME, "reason" }` after the
/// macro's name.
pub open spec fn deprecated_pattern() -> Seq<Expect> {
    seq![
        Expect::Punct('!'),
        Expect::Punct('{'),
        Expect::Punct('#'),
        Expect::Punct('['),
        Expect::Ident,
        Expect::Punct(':'),
        Expect::Punct(':'),
        Expect::Ident,
        Expect::Punct('='),
        Expect::Lit,
        Expect::Punct(']'),
        Expect::Ident,
        Expect::Ident,
        Expect::Punct(','),
        Expect::Str,
        Expect::Punct('}'),
    ]
}

/// The raw texts (name, reason) of the deprecated lints declared in the
/// tokens from `pos` on, read as `lint_decls` reads lint declarations.
pub open spec fn deprecated_decls(toks: Seq<(TokKind, Seq<char>)>, pos: int) -> Seq<(Seq<char>, Seq<char>)>
    decreases toks.len() - pos,
{
    if pos < 0 || pos >= toks.len() {
        seq![]
    } else {
        let j = find_ident(toks, pos, "declare_deprecated_lint"@);
        if j >= toks.len() {
            seq![]
        } else {
            proof {
                lemma_find_ident(toks, pos, "declare_deprecated_lint"@);
                lemma_match_toks(toks, j + 1, deprecated_pattern(), true);
            }
            match match_toks(toks, j + 1, deprecated_pattern(), true) {
                Scan::Mismatch(r) => deprecated_decls(toks, r),
                Scan::Matched(e, idx) => seq![(toks[idx[12]].1, toks[idx[14]].1)] + deprecated_decls(toks, e),
            }
        }
    }
}

/// The deprecated-lint record of a declaration's raw texts.
pub open spec fn decl_deprecated(d: (Seq<char>, Seq<char>)) -> DeprecatedLintView {
    DeprecatedLintView { name: lowercase(d.0), reason: splice_free(literal_body(d.1)) }
}

/// Collects the deprecated lints that `declare_deprecated_lint!` declares
/// in the tokens `toks`. A reason that is not a quoted string literal stops
/// the collection: it is returned as the error.
pub fn parse_deprecated_tokens(toks: &Vec<(TokKind, String)>, lints: &mut Vec<DeprecatedLint>) -> (r: Result<(), String>)
    ensures
        ({
            let decls = deprecated_decls(toks_view(toks@), 0);
            match r {
                Ok(()) => {
                    &&& forall|k: int| 0 <= k < decls.len() ==> is_quoted_literal(#[trigger] decls[k].1)
                    &&& deprecated_views(final(lints)@) == deprecated_views(old(lints)@) + decls.map_values(
                        |d: (Seq<char>, Seq<char>)| decl_deprecated(d),
                    )
                },
                Err(bad) => first_unquoted(
                    decls,
                    |d: (Seq<char>, Seq<char>)| is_quoted_literal(d.1),
                    bad@,
                    |d: (Seq<char>, Seq<char>)| d.1,
                ),
            }
        }),
{
    let ghost t = toks_view(toks@);
    let ghost all = deprecated_decls(t, 0);
    let ghost mut done: Seq<(Seq<char>, Seq<char>)> = seq![];
    let n = toks.len();
    let pattern = vec![
        Expect::Punct('!'),
        Expect::Punct('{'),
        Expect::Punct('#'),
        Expect::Punct('['),
        Expect::Ident,
        Expect::Punct(':'),
        Expect::Punct(':'),
        Expect::Ident,
        Expect::Punct('='),
        Expect::Lit,
        Expect::Punct(']'),
        Expect::Ident,
        Expect::Ident,
        Expect::Punct(','),
        Expect::Str,
        Expect::Punct('}'),
    ];
    assert(pattern@ =~= deprecated_pattern());
    let mut pos: usize = 0;
    assert(done + deprecated_decls(t, 0) =~= all);
    while pos < n
        invariant
            pos <= n,
            n == toks@.len(),
            t == toks_view(toks@),
            all == deprecated_decls(t, 0),
            pattern@ == deprecated_pattern(),
            done + deprecated_decls(t, pos as int) == all,
            forall|k: int| 0 <= k < done.len() ==> is_quoted_literal(#[trigger] done[k].1),
            deprecated_views(lints@) == deprecated_views(old(lints)@) + done.map_values(
                |d: (Seq<char>, Seq<char>)| decl_deprecated(d),
            ),
        decreases n - pos,
    {
        let ghost here = deprecated_decls(t, pos as int);
        let j = find_ident_exec(toks, pos, "declare_deprecated_lint");
        proof {
            lemma_find_ident(t, pos as int, "declare_deprecated_lint"@);
        }
        if j >= n {
            proof {
                assert(here == Seq::<(Seq<char>, Seq<char>)>::empty());
                assert(done + deprecated_decls(t, n as int) =~= done + here);
            }
            pos = n;
            continue;
        }
        proof {
            lemma_match_toks(t, j + 1, deprecated_pattern(), true);
        }
        let m = match_toks_exec(toks, j + 1, &pattern, true);
        match m {
            ScanResult::Mismatch(r) => {
                pos = r;
            },
            ScanResult::Matched(e, idx) => {
                let ghost d = (t[idx@[12] as int].1, t[idx@[14] as int].1);
                assert(here == seq![d] + deprecated_decls(t, e as int));
                let name = &toks[idx[12]].1;
                let reason = &toks[idx[14]].1;
                if !quoted_literal(reason.as_str()) {
                    let bad = reason.clone();
                    proof {
                        let k = done.len() as int;
                        assert(all[k] == d);
                        assert forall|k2: int| 0 <= k2 < k implies is_quoted_literal(#[trigger] all[k2].1) by {
                            assert(all[k2] == done[k2]);
                        }
                    }
                    return Err(bad);
                }
                let lint = DeprecatedLint::new(name.as_str(), reason.as_str());
                let ghost before = lints@;
                lints.push(lint);
                proof {
                    assert(deprecated_views(lints@) =~= deprecated_views(before).push(decl_deprecated(d)));
                    assert(done.push(d).map_values(|d: (Seq<char>, Seq<char>)| decl_deprecated(d))
                        =~= done.map_values(|d: (Seq<char>, Seq<char>)| decl_deprecated(d)).push(decl_deprecated(d)));
                    assert(done.push(d) + deprecated_decls(t, e as int) =~= done + here);
                    done = done.push(d);
                }
                pos = e;
            },
        }
    }
    proof {
        assert(deprecated_decls(t, pos as int) =~= Seq::<(Seq<char>, Seq<char>)>::empty());
        assert(done =~= all);
    }
    Ok(())
}

/// Collects the deprecated lints that `declare_deprecated_lint!` declares
/// in `contents`. A reason that is not a quoted string literal stops the
/// collection: it is returned as the error.
pub fn parse_deprecated_contents(contents: &str, lints: &mut Vec<DeprecatedLint>) -> (r: Result<(), String>)
    ensures
        ({
            let decls = deprecated_decls(lexed(contents@), 0);
            match r {
                Ok(()) => {
                    &&& forall|k: int| 0 <= k < decls.len() ==> is_quoted_literal(#[trigger] decls[k].1)
                    &&& deprecated_views(final(lints)@) == deprecated_views(old(lints)@) + decls.map_values(
                        |d: (Seq<char>, Seq<char>)| decl_deprecated(d),
                    )
                },
                Err(bad) => first_unquoted(
                    decls,
                    |d: (Seq<char>, Seq<char>)| is_quoted_literal(d.1),
                    bad@,
                    |d: (Seq<char>, Seq<char>)| d.1,
                ),
            }
        }),
{
    let toks = tokenize_text(contents);
    parse_deprecated_tokens(&toks, lints)
}

// ---------------------------------------------------------------------
// The table of renamed lints
// ---------------------------------------------------------------------

/// ` ("old", "new"),` on one line.
pub open spec fn renamed_pattern() -> Seq<Expect> {
    seq![
        Expect::Ws,
        Expect::Punct('('),
        Expect::Str,
        Expect::Punct(','),
        Expect::Ws,
        Expect::Str,
        Expect::Punct(')'),
        Expect::Punct(','),
    ]
}

/// The raw texts (old name, new name) of one line of the table, if the
/// line is an entry.
pub open spec fn renamed_line(line: Seq<char>) -> Option<(Seq<char>, Seq<char>)> {
    renamed_entry(lexed(line))
}

/// The raw texts (old name, new name) of the entry that the tokens of a
/// line make, if they make one.
pub open spec fn renamed_entry(toks: Seq<(TokKind, Seq<char>)>) -> Option<(Seq<char>, Seq<char>)> {
    match match_toks(toks, 0, renamed_pattern(), false) {
        Scan::Matched(_, idx) => Some((toks[idx[2]].1, toks[idx[5]].1)),
        Scan::Mismatch(_) => None,
    }
}

/// The raw texts (old name, new name) of the entry that the tokens of a
/// line of the table make, if they make one.
pub fn renamed_entry_tokens(toks: &Vec<(TokKind, String)>) -> (r: Option<(String, String)>)
    ensures
        match r {
            Some((a, b)) => renamed_entry(toks_view(toks@)) == Some((a@, b@)),
            None => renamed_entry(toks_view(toks@)) is None,
        },
{
    let ghost t = toks_view(toks@);
    let pattern = vec![
        Expect::Ws,
        Expect::Punct('('),
        Expect::Str,
        Expect::Punct(','),
        Expect::Ws,
        Expect::Str,
        Expect::Punct(')'),
        Expect::Punct(','),
    ];
    assert(pattern@ =~= renamed_pattern());
    proof {
        lemma_match_toks(t, 0, renamed_pattern(), false);
    }
    match match_toks_exec(toks, 0, &pattern, false) {
        ScanResult::Mismatch(_) => None,
        ScanResult::Matched(_, idx) => {
            let old_name = toks[idx[2]].1.clone();
            let new_name = toks[idx[5]].1.clone();
            Some((old_name, new_name))
        },
    }
}

/// The entries of the table among `lines`, in order.
pub open spec fn renamed_decls(lines: Seq<Seq<char>>) -> Seq<(Seq<char>, Seq<char>)>
    decreases lines.len(),
{
    if lines.len() == 0 {
        seq![]
    } else {
        let rest = renamed_decls(lines.drop_last());
        match renamed_line(lines.last()) {
            Some(d) => rest.push(d),
            None => rest,
        }
    }
}

/// The renamed-lint record of an entry's raw texts.
pub open spec fn decl_renamed(d: (Seq<char>, Seq<char>)) -> RenamedLintView {
    RenamedLintView { old_name: splice_free(literal_body(d.0)), new_name: splice_free(literal_body(d.1)) }
}

/// Both names of an entry are quoted string literals.
pub open spec fn renamed_quoted(d: (Seq<char>, Seq<char>)) -> bool {
    is_quoted_literal(d.0) && is_quoted_literal(d.1)
}

/// Collects the renamed lints of the table in `contents`, one entry per
/// line. A name that is not a quoted string literal stops the collection:
/// it is returned as the error.
pub fn parse_renamed_contents(contents: &str, lints: &mut Vec<RenamedLint>) -> (r: Result<(), String>)
    ensures
        ({
            let decls = renamed_decls(lines_of(contents@));
            match r {
                Ok(()) => {
                    &&& forall|k: int| 0 <= k < decls.len() ==> renamed_quoted(#[trigger] decls[k])
                    &&& renamed_views(final(lints)@) == renamed_views(old(lints)@) + decls.map_values(
                        |d: (Seq<char>, Seq<char>)| decl_renamed(d),
                    )
                },
                Err(bad) => exists|k: int|
                    0 <= k < decls.len() && !renamed_quoted(#[trigger] decls[k]) && (bad@ == decls[k].0
                        || bad@ == decls[k].1) && !is_quoted_literal(bad@) && forall|k2: int|
                        0 <= k2 < k ==> renamed_quoted(#[trigger] decls[k2]),
            }
        }),
{
    let lines = split_lines(contents);
    let ghost ls = lines@.map_values(|l: Vec<char>| l@);
    let ghost mut done: Seq<(Seq<char>, Seq<char>)> = seq![];
    let mut i: usize = 0;
    assert(ls.subrange(0, 0) =~= Seq::<Seq<char>>::empty());
    while i < lines.len()
        invariant
            i <= lines@.len(),
            ls == lines@.map_values(|l: Vec<char>| l@),
            ls == lines_of(contents@),
            done == renamed_decls(ls.subrange(0, i as int)),
            forall|k: int| 0 <= k < done.len() ==> renamed_quoted(#[trigger] done[k]),
            renamed_views(lints@) == renamed_views(old(lints)@) + done.map_values(
                |d: (Seq<char>, Seq<char>)| decl_renamed(d),
            ),
        decreases lines@.len() - i,
    {
        let line = string_of(&lines[i]);
        let ghost lv = ls[i as int];
        assert(line@ == lv);
        proof {
            let pre = ls.subrange(0, i + 1);
            assert(pre.drop_last() =~= ls.subrange(0, i as int));
            assert(pre.last() == lv);
        }
        let toks = tokenize_text(line.as_str());
        match renamed_entry_tokens(&toks) {
            None => {},
            Some((old_name, new_name)) => {
                let ghost d = (old_name@, new_name@);
                assert(renamed_line(lv) == Some(d));
                if !quoted_literal(old_name.as_str()) {
                    proof {
                        let all = renamed_decls(ls);
                        lemma_renamed_decls_prefix(ls, i as int + 1);
                        assert(renamed_decls(ls.subrange(0, i + 1)) == done.push(d));
                        let k = done.len() as int;
                        assert(all[k] == d);
                        assert forall|k2: int| 0 <= k2 < k implies renamed_quoted(#[trigger] all[k2]) by {
                            assert(all[k2] == done[k2]);
                        }
                    }
                    return Err(old_name);
                }
                if !quoted_literal(new_name.as_str()) {
                    proof {
                        let all = renamed_decls(ls);
                        lemma_renamed_decls_prefix(ls, i as int + 1);
                        assert(renamed_decls(ls.subrange(0, i + 1)) == done.push(d));
                        let k = done.len() as int;
                        assert(all[k] == d);
                        assert forall|k2: int| 0 <= k2 < k implies renamed_quoted(#[trigger] all[k2]) by {
                            assert(all[k2] == done[k2]);
                        }
                    }
                    return Err(new_name);
                }
                let lint = RenamedLint::new(old_name.as_str(), new_name.as_str());
                let ghost before = lints@;
                lints.push(lint);
                proof {
                    assert(renamed_views(lints@) =~= renamed_views(before).push(decl_renamed(d)));
                    assert(done.push(d).map_values(|d: (Seq<char>, Seq<char>)| decl_renamed(d))
                        =~= done.map_values(|d: (Seq<char>, Seq<char>)| decl_renamed(d)).push(decl_renamed(d)));
                    done = done.push(d);
                }
            },
        }
        i = i + 1;
    }
    assert(ls.subrange(0, i as int) =~= ls);
    Ok(())
}

/// The entries of a prefix of the lines are a prefix of all the entries.
proof fn lemma_renamed_decls_prefix(ls: Seq<Seq<char>>, i: int)
    requires
        0 <= i <= ls.len(),
    ensures
        renamed_decls(ls.subrange(0, i)).len() <= renamed_decls(ls).len(),
        forall|k: int| 0 <= k < renamed_decls(ls.subrange(0, i)).len() ==> #[trigger] renamed_decls(ls)[k]
            == renamed_decls(ls.subrange(0, i))[k],
    decreases ls.len() - i,
{
    if i < ls.len() {
        lemma_renamed_decls_prefix(ls, i + 1);
        let pre = ls.subrange(0, i + 1);
        assert(pre.drop_last() =~= ls.subrange(0, i));
    } else {
        assert(ls.subrange(0, i) =~= ls);
    }
}

// ---------------------------------------------------------------------
// Source files
// ---------------------------------------------------------------------

/// The parts joined with `::` between them.
pub open spec fn joined(parts: Seq<Seq<char>>) -> Seq<char>
    decreases parts.len(),
{
    if parts.len() == 0 {
        seq![]
    } else if parts.len() == 1 {
        parts[0]
    } else {
        joined(parts.drop_last()) + "::"@ + parts.last()
    }
}

/// Whether `s` ends with `suffix`.
pub open spec fn ends_with(s: Seq<char>, suffix: Seq<char>) -> bool {
    suffix.len() <= s.len() && s.subrange(s.len() - suffix.len(), s.len() as int) == suffix
}

/// The module of a source file from the components of its path below the
/// source root: the components joined with `::`, without `::mod.rs` (a
/// module stored in its directory) or else without `.rs`.
pub open spec fn module_of(parts: Seq<Seq<char>>) -> Seq<char> {
    let m = joined(parts);
    if ends_with(m, "::mod.rs"@) {
        m.subrange(0, m.len() - "::mod.rs"@.len())
    } else if ends_with(m, ".rs"@) {
        m.subrange(0, m.len() - ".rs"@.len())
    } else {
        m
    }
}

/// The text of each string.
pub open spec fn texts(v: Seq<String>) -> Seq<Seq<char>> {
    v.map_values(|s: String| s@)
}

/// Appends all of `s` to `out`.
fn append_all(out: &mut Vec<char>, s: &Vec<char>)
    ensures
        final(out)@ == old(out)@ + s@,
{
    let mut i: usize = 0;
    let ghost start = out@;
    while i < s.len()
        invariant
            i <= s@.len(),
            out@ == start + s@.subrange(0, i as int),
        decreases s@.len() - i,
    {
        out.push(s[i]);
        i = i + 1;
        assert(out@ =~= start + s@.subrange(0, i as int));
    }
    assert(s@.subrange(0, i as int) =~= s@);
}

/// The module of a source file from the components of its path below the
/// source root (see `module_of`).
pub fn lint_module_name(components: &Vec<String>) -> (r: String)
    ensures
        r@ == module_of(texts(components@)),
{
    let ghost parts = texts(components@);
    let sep = chars_of("::");
    let mut m: Vec<char> = Vec::new();
    let mut i: usize = 0;
    while i < components.len()
        invariant
            i <= components@.len(),
            parts == texts(components@),
            sep@ == "::"@,
            m@ == joined(parts.subrange(0, i as int)),
        decreases components@.len() - i,
    {
        let part = chars_of(components[i].as_str());
        let ghost pre = parts.subrange(0, i + 1);
        assert(pre.drop_last() =~= parts.subrange(0, i as int));
        assert(pre.last() == part@);
        if i > 0 {
            append_all(&mut m, &sep);
        } else {
            assert(m@ =~= Seq::<char>::empty());
        }
        append_all(&mut m, &part);
        proof {
            if i == 0 {
                assert(m@ =~= part@);
            } else {
                assert(m@ =~= joined(parts.subrange(0, i as int)) + "::"@ + part@);
            }
        }
        i = i + 1;
    }
    assert(parts.subrange(0, i as int) =~= parts);
    let n = m.len();
    let mod_rs = chars_of("::mod.rs");
    let rs = chars_of(".rs");
    if mod_rs.len() <= n && range_eq(&m, n - mod_rs.len(), n, &mod_rs) {
        let cut = chars_range(&m, 0, n - mod_rs.len());
        return string_of(&cut);
    }
    if rs.len() <= n && range_eq(&m, n - rs.len(), n, &rs) {
        let cut = chars_range(&m, 0, n - rs.len());
        return string_of(&cut);
    }
    string_of(&m)
}

/// The components of a source file's path and its text.
pub open spec fn sources_view(files: Seq<(Vec<String>, String)>) -> Seq<(Seq<Seq<char>>, Seq<char>)> {
    files.map_values(|f: (Vec<String>, String)| (texts(f.0@), f.1@))
}

/// The module of the deprecated lints.
pub open spec fn is_deprecated_module(m: Seq<char>) -> bool {
    m == "deprecated_lints"@
}

/// The module of the table of renamed lints.
pub open spec fn is_renamed_module(m: Seq<char>) -> bool {
    m == "renamed_lints"@
}

/// Every literal that a source file's declarations need quoted is quoted.
pub open spec fn file_quoted(f: (Seq<Seq<char>>, Seq<char>)) -> bool {
    let m = module_of(f.0);
    if is_deprecated_module(m) {
        let ds = deprecated_decls(lexed(f.1), 0);
        forall|k: int| 0 <= k < ds.len() ==> is_quoted_literal(#[trigger] ds[k].1)
    } else if is_renamed_module(m) {
        let ds = renamed_decls(lines_of(f.1));
        forall|k: int| 0 <= k < ds.len() ==> renamed_quoted(#[trigger] ds[k])
    } else {
        let ds = lint_decls(lexed(f.1), 0);
        forall|k: int| 0 <= k < ds.len() ==> is_quoted_literal(#[trigger] ds[k].2)
    }
}

/// The lints declared in the source files, file after file.
pub open spec fn gathered_lints(files: Seq<(Seq<Seq<char>>, Seq<char>)>) -> Seq<LintView>
    decreases files.len(),
{
    if files.len() == 0 {
        seq![]
    } else {
        let f = files.last();
        let m = module_of(f.0);
        gathered_lints(files.drop_last()) + if is_deprecated_module(m) || is_renamed_module(m) {
            seq![]
        } else {
            lint_decls(lexed(f.1), 0).map_values(|d: (Seq<char>, Seq<char>, Seq<char>)| decl_lint(d, m))
        }
    }
}

/// The deprecated lints declared in the source files.
pub open spec fn gathered_deprecated(files: Seq<(Seq<Seq<char>>, Seq<char>)>) -> Seq<DeprecatedLintView>
    decreases files.len(),
{
    if files.len() == 0 {
        seq![]
    } else {
        let f = files.last();
        gathered_deprecated(files.drop_last()) + if is_deprecated_module(module_of(f.0)) {
            deprecated_decls(lexed(f.1), 0).map_values(|d: (Seq<char>, Seq<char>)| decl_deprecated(d))
        } else {
            seq![]
        }
    }
}

/// The renamed lints listed in the source files.
pub open spec fn gathered_renamed(files: Seq<(Seq<Seq<char>>, Seq<char>)>) -> Seq<RenamedLintView>
    decreases files.len(),
{
    if files.len() == 0 {
        seq![]
    } else {
        let f = files.last();
        let m = module_of(f.0);
        gathered_renamed(files.drop_last()) + if !is_deprecated_module(m) && is_renamed_module(m) {
            renamed_decls(lines_of(f.1)).map_values(|d: (Seq<char>, Seq<char>)| decl_renamed(d))
        } else {
            seq![]
        }
    }
}

/// The lints, deprecated lints and renamed lints declared in the source
/// files, each file given by the components of its path below the source
/// root and its text. A literal that is not quoted where a quoted string is
/// expected is the error.
#[verifier::spinoff_prover]
pub fn gather_from_sources(files: &Vec<(Vec<String>, String)>) -> (r: Result<
    (Vec<Lint>, Vec<DeprecatedLint>, Vec<RenamedLint>),
    String,
>)
    ensures
        ({
            let fs = sources_view(files@);
            &&& r is Ok <==> forall|i: int| 0 <= i < fs.len() ==> file_quoted(#[trigger] fs[i])
            &&& match r {
                Ok((l, d, rn)) => {
                    &&& lint_views(l@) == gathered_lints(fs)
                    &&& deprecated_views(d@) == gathered_deprecated(fs)
                    &&& renamed_views(rn@) == gathered_renamed(fs)
                },
                Err(bad) => !is_quoted_literal(bad@),
            }
        }),
{
    let ghost fs = sources_view(files@);
    let mut lints: Vec<Lint> = Vec::new();
    let mut deprecated: Vec<DeprecatedLint> = Vec::new();
    let mut renamed: Vec<RenamedLint> = Vec::new();
    let mut i: usize = 0;
    while i < files.len()
        invariant
            i <= files@.len(),
            fs == sources_view(files@),
            lint_views(lints@) == gathered_lints(fs.subrange(0, i as int)),
            deprecated_views(deprecated@) == gathered_deprecated(fs.subrange(0, i as int)),
            renamed_views(renamed@) == gathered_renamed(fs.subrange(0, i as int)),
            forall|k: int| 0 <= k < i ==> file_quoted(#[trigger] fs[k]),
        decreases files@.len() - i,
    {
        let ghost pre = fs.subrange(0, i + 1);
        let ghost f = fs[i as int];
        assert(pre.drop_last() =~= fs.subrange(0, i as int));
        assert(pre.last() == f);
        let module = lint_module_name(&files[i].0);
        let contents = files[i].1.as_str();
        assert(f == (texts(files@[i as int].0@), files@[i as int].1@));
        let ghost m = module_of(f.0);
        let ghost l0 = lint_views(lints@);
        let ghost d0 = deprecated_views(deprecated@);
        let ghost r0 = renamed_views(renamed@);
        if str_eq(module.as_str(), "deprecated_lints") {
            match parse_deprecated_contents(contents, &mut deprecated) {
                Ok(()) => {
                    assert(l0 + Seq::<LintView>::empty() =~= l0);
                    assert(r0 + Seq::<RenamedLintView>::empty() =~= r0);
                },
                Err(bad) => {
                    proof {
                        let ds = deprecated_decls(lexed(f.1), 0);
                        let quoted = |d: (Seq<char>, Seq<char>)| is_quoted_literal(d.1);
                        let k = choose|k: int| 0 <= k < ds.len() && !quoted(#[trigger] ds[k]) && (|d: (Seq<char>, Seq<char>)| d.1)(ds[k]) == bad@ && forall|k2: int| 0 <= k2 < k ==> quoted(#[trigger] ds[k2]);
                        assert(!is_quoted_literal(ds[k].1));
                        assert(!file_quoted(f));
                    }
                    return Err(bad);
                },
            }
        } else if str_eq(module.as_str(), "renamed_lints") {
            match parse_renamed_contents(contents, &mut renamed) {
                Ok(()) => {
                    assert(l0 + Seq::<LintView>::empty() =~= l0);
                    assert(d0 + Seq::<DeprecatedLintView>::empty() =~= d0);
                },
                Err(bad) => {
                    proof {
                        let ds = renamed_decls(lines_of(f.1));
                        let k = choose|k: int| 0 <= k < ds.len() && !renamed_quoted(#[trigger] ds[k]) && (bad@ == ds[k].0 || bad@ == ds[k].1) && !is_quoted_literal(bad@) && forall|k2: int| 0 <= k2 < k ==> renamed_quoted(#[trigger] ds[k2]);
                        assert(!renamed_quoted(ds[k]));
                        assert(!file_quoted(f));
                    }
                    return Err(bad);
                },
            }
        } else {
            match parse_contents(contents, module.as_str(), &mut lints) {
                Ok(()) => {
                    assert(d0 + Seq::<DeprecatedLintView>::empty() =~= d0);
                    assert(r0 + Seq::<RenamedLintView>::empty() =~= r0);
                },
                Err(bad) => {
                    proof {
                        let ds = lint_decls(lexed(f.1), 0);
                        let quoted = |d: (Seq<char>, Seq<char>, Seq<char>)| is_quoted_literal(d.2);
                        let k = choose|k: int| 0 <= k < ds.len() && !quoted(#[trigger] ds[k]) && (|d: (Seq<char>, Seq<char>, Seq<char>)| d.2)(ds[k]) == bad@ && forall|k2: int| 0 <= k2 < k ==> quoted(#[trigger] ds[k2]);
                        assert(!is_quoted_literal(ds[k].2));
                        assert(!is_deprecated_module(m) && !is_renamed_module(m));
                        assert(!file_quoted(f));
                    }
                    return Err(bad);
                },
            }
        }
        i = i + 1;
    }
    assert(fs.subrange(0, i as int) =~= fs);
    Ok((lints, deprecated, renamed))
}

} // verus!
