//! The text work of the lint metadata collector: the default level of each
//! lint group, the clean-up of lint documentation for the lint list, the
//! `{{produces}}` markers that ask for the output of an example, the
//! configuration section of a lint's documentation, and the links to the
//! configuration documentation in the changelog.
//!
//! Running an example through the linter is I/O and stays with the caller:
//! `produces_sites` says which lines make up each example and where its
//! output goes, `lint_example_source` writes the source file that runs an
//! example, `lint_output` reads the lint's output from the compiler's
//! messages, and `fill_produces` puts the outputs in and cleans the text.

use vstd::prelude::*;
use vstd::utf8::encode_utf8;
use crate::str_ops::{replace, replaced};
use crate::strings::{
    chars_of, chars_eq, chars_range, has_prefix, has_prefix_at, trim_start_ws, trim_end_ws,
    trim_ws, trim_start_index, trim_end_index, range_eq, range_eq_ignore_ascii_case,
    contains_chars, occurs_in, eq_ignore_ascii_case, first_of, lemma_first_of_at, lines_of,
    split_lines, str_eq,
};

verus! {

// ---------------------------------------------------------------------
// Lint levels and applicability
// ---------------------------------------------------------------------

/// The default level of each lint group; `None` for a group without one.
pub open spec fn default_lint_level(group: Seq<char>) -> Option<Seq<char>> {
    if group == "correctness"@ {
        Some("deny"@)
    } else if group == "suspicious"@ {
        Some("warn"@)
    } else if group == "restriction"@ {
        Some("allow"@)
    } else if group == "style"@ {
        Some("warn"@)
    } else if group == "pedantic"@ {
        Some("allow"@)
    } else if group == "complexity"@ {
        Some("warn"@)
    } else if group == "perf"@ {
        Some("warn"@)
    } else if group == "cargo"@ {
        Some("allow"@)
    } else if group == "nursery"@ {
        Some("allow"@)
    } else {
        None
    }
}

/// The default level of the lints of a group.
pub fn get_lint_level_from_group(lint_group: &str) -> (r: Option<&'static str>)
    ensures
        match r {
            Some(level) => default_lint_level(lint_group@) == Some(level@),
            None => default_lint_level(lint_group@) is None,
        },
{
    if str_eq(lint_group, "correctness") {
        Some("deny")
    } else if str_eq(lint_group, "suspicious") {
        Some("warn")
    } else if str_eq(lint_group, "restriction") {
        Some("allow")
    } else if str_eq(lint_group, "style") {
        Some("warn")
    } else if str_eq(lint_group, "pedantic") {
        Some("allow")
    } else if str_eq(lint_group, "complexity") {
        Some("warn")
    } else if str_eq(lint_group, "perf") {
        Some("warn")
    } else if str_eq(lint_group, "cargo") {
        Some("allow")
    } else if str_eq(lint_group, "nursery") {
        Some("allow")
    } else {
        None
    }
}

/// The higher of two applicability indices, where a missing second one
/// counts as 0 and a missing first one gives the second unchanged.
pub fn take_higher_applicability(a: Option<usize>, b: Option<usize>) -> (r: Option<usize>)
    ensures
        r == match a {
            None => b,
            Some(x) => {
                let y: usize = match b {
                    Some(y) => y,
                    None => 0,
                };
                Some(if x >= y { x } else { y })
            },
        },
{
    match a {
        None => b,
        Some(x) => {
            let y: usize = match b {
                Some(y) => y,
                None => 0,
            };
            Some(if x >= y { x } else { y })
        },
    }
}

/// Where a lint is declared: the file and the line.
pub struct SerializableSpan {
    pub path: String,
    pub line: usize,
}

/// How the suggestions of a lint can be applied.
pub struct ApplicabilityInfo {
    /// Whether one of the lint's suggestions spans several places.
    pub is_multi_part_suggestion: bool,
    /// The index of the applicability, if it could be resolved.
    pub applicability: Option<usize>,
}

/// What the lint list shows of one lint.
pub struct LintMetadata {
    pub id: String,
    pub id_span: SerializableSpan,
    pub group: String,
    pub level: String,
    pub docs: String,
    pub version: String,
    /// Only filled in just before the list is written out.
    pub applicability: Option<ApplicabilityInfo>,
    /// The earlier names of the lint, in increasing order.
    pub former_ids: Vec<String>,
}

impl LintMetadata {
    /// A lint with no applicability known yet and no earlier names.
    pub fn new(
        id: String,
        id_span: SerializableSpan,
        group: String,
        level: &'static str,
        version: String,
        docs: String,
    ) -> (r: Self)
        ensures
            r.id@ == id@,
            r.id_span == id_span,
            r.group@ == group@,
            r.level@ == level@,
            r.version@ == version@,
            r.docs@ == docs@,
            r.applicability is None,
            r.former_ids@.len() == 0,
    {
        LintMetadata {
            id,
            id_span,
            group,
            level: level.to_owned(),
            version,
            docs,
            applicability: None,
            former_ids: Vec::new(),
        }
    }
}

// ---------------------------------------------------------------------
// Documentation clean-up
// ---------------------------------------------------------------------

/// A code-block fence.
pub open spec fn fence() -> Seq<char> {
    "```"@
}

/// Words of a fence's info string that are rustdoc directives, not a
/// language.
pub open spec fn is_doc_directive(word: Seq<char>) -> bool {
    ||| word.len() == 0
    ||| word == "ignore"@
    ||| word == "no_run"@
    ||| word == "should_panic"@
}

/// The language of a code block, from the trimmed info string after its
/// opening fence: the first comma-separated word that is not a directive,
/// or `rust` when there is none.
pub open spec fn block_language(info: Seq<char>) -> Seq<char>
    decreases info.len(),
{
    let k = first_of(info, ',') as int;
    if k >= info.len() {
        if is_doc_directive(info) {
            "rust"@
        } else {
            info
        }
    } else {
        let word = info.subrange(0, k);
        if !is_doc_directive(word) {
            word
        } else {
            block_language(info.subrange(k + 1, info.len() as int))
        }
    }
}

/// A documentation line as the lint list shows it: without the one space
/// that the doc-comment syntax leaves in front of it.
pub open spec fn doc_line_text(line: Seq<char>) -> Seq<char> {
    if line.len() > 0 && line[0] == ' ' {
        line.drop_first()
    } else {
        line
    }
}

/// What one documentation line adds to the cleaned text, read inside a
/// code block when `in_code` holds and inside a Rust one when `is_rust`
/// holds, and whether the next line is then inside a (Rust) code block.
/// Lines that rustdoc hides in Rust code blocks add nothing; an opening
/// fence keeps only the block's language; any other line adds a newline
/// and its text.
pub open spec fn cleanup_step(line: Seq<char>, in_code: bool, is_rust: bool) -> (Seq<char>, bool, bool) {
    let t = trim_start_ws(line);
    if is_rust && has_prefix(t, "# "@) {
        (seq![], in_code, is_rust)
    } else if has_prefix(t, fence()) && !in_code {
        let lang = block_language(trim_ws(t.subrange(3, t.len() as int)));
        (seq!['\n'] + fence() + lang, true, lang == "rust"@)
    } else if has_prefix(t, fence()) {
        (seq!['\n'] + doc_line_text(line), false, false)
    } else {
        (seq!['\n'] + doc_line_text(line), in_code, is_rust)
    }
}

/// The cleaned text of `lines`, starting in the given code-block state.
pub open spec fn cleanup_lines(lines: Seq<Seq<char>>, in_code: bool, is_rust: bool) -> Seq<char>
    decreases lines.len(),
{
    if lines.len() == 0 {
        seq![]
    } else {
        let (text, c, r) = cleanup_step(lines[0], in_code, is_rust);
        text + cleanup_lines(lines.drop_first(), c, r)
    }
}

/// The characters of each string.
pub open spec fn strings_view(v: Seq<String>) -> Seq<Seq<char>> {
    v.map_values(|s: String| s@)
}

/// The characters of each character vector.
pub open spec fn char_vecs_view(v: Seq<Vec<char>>) -> Seq<Seq<char>> {
    v.map_values(|l: Vec<char>| l@)
}

/// Whether a word is a rustdoc directive.
fn doc_directive(word: &Vec<char>) -> (r: bool)
    ensures
        r == is_doc_directive(word@),
{
    if word.len() == 0 {
        return true;
    }
    let ignore = chars_of("ignore");
    let no_run = chars_of("no_run");
    let should_panic = chars_of("should_panic");
    chars_eq(word, &ignore) || chars_eq(word, &no_run) || chars_eq(word, &should_panic)
}

/// The language of a code block whose opening fence is followed by `info`.
fn block_language_of(info: &Vec<char>) -> (r: Vec<char>)
    ensures
        r@ == block_language(trim_ws(info@)),
{
    let n = info.len();
    let is = trim_start_index(info);
    let ie = trim_end_index(info, is, n);
    assert(trim_ws(info@) == info@.subrange(is as int, ie as int));
    let mut pos: usize = is;
    loop
        invariant
            is <= pos <= ie <= n,
            n == info@.len(),
            block_language(trim_ws(info@)) == block_language(info@.subrange(pos as int, ie as int)),
        decreases ie - pos,
    {
        let ghost s = info@.subrange(pos as int, ie as int);
        let mut k: usize = pos;
        while k < ie && info[k] != ','
            invariant
                pos <= k <= ie <= n,
                n == info@.len(),
                forall|j: int| pos <= j < k ==> info@[j] != ',',
            decreases ie - k,
        {
            k = k + 1;
        }
        proof {
            assert forall|j: int| 0 <= j < k - pos implies s[j] != ',' by {
                assert(s[j] == info@[pos + j]);
            }
            if k < ie {
                assert(s[k - pos] == info@[k as int]);
            }
            lemma_first_of_at(s, ',', k - pos);
        }
        let word = chars_range(info, pos, k);
        assert(word@ == s.subrange(0, k - pos));
        if k >= ie {
            assert(s.subrange(0, k - pos) =~= s);
            if doc_directive(&word) {
                return chars_of("rust");
            } else {
                return word;
            }
        }
        if !doc_directive(&word) {
            return word;
        }
        assert(s.subrange(k - pos + 1, s.len() as int) =~= info@.subrange(k + 1, ie as int));
        pos = k + 1;
    }
}

/// Appends `s[lo..]` to `out`.
fn append_from(out: &mut Vec<char>, s: &Vec<char>, lo: usize)
    requires
        lo <= s@.len(),
    ensures
        final(out)@ == old(out)@ + s@.subrange(lo as int, s@.len() as int),
{
    let n = s.len();
    let mut i: usize = lo;
    let ghost start = out@;
    while i < n
        invariant
            lo <= i <= n,
            n == s@.len(),
            out@ == start + s@.subrange(lo as int, i as int),
        decreases n - i,
    {
        out.push(s[i]);
        i = i + 1;
        assert(out@ =~= start + s@.subrange(lo as int, i as int));
    }
}

/// Appends what one line adds to the cleaned text.
fn clean_line(
    out: &mut Vec<char>,
    line: &Vec<char>,
    fence_chars: &Vec<char>,
    hidden: &Vec<char>,
    rust: &Vec<char>,
    in_code: bool,
    is_rust: bool,
) -> (r: (bool, bool))
    requires
        fence_chars@ == fence(),
        fence_chars@.len() == 3,
        hidden@ == "# "@,
        rust@ == "rust"@,
    ensures
        final(out)@ == old(out)@ + cleanup_step(line@, in_code, is_rust).0,
        r.0 == cleanup_step(line@, in_code, is_rust).1,
        r.1 == cleanup_step(line@, in_code, is_rust).2,
{
    let ts = trim_start_index(line);
    let ghost t = trim_start_ws(line@);
    assert(t == line@.subrange(ts as int, line@.len() as int));
    if is_rust && has_prefix_at(line, ts, hidden) {
        assert(old(out)@ + Seq::<char>::empty() =~= old(out)@);
        return (in_code, is_rust);
    }
    out.push('\n');
    let is_fence = has_prefix_at(line, ts, fence_chars);
    if is_fence && !in_code {
        let ll = line.len();
        let info = chars_range(line, ts + 3, ll);
        assert(info@ =~= t.subrange(3, t.len() as int));
        let lang = block_language_of(&info);
        append_from(out, fence_chars, 0);
        append_from(out, &lang, 0);
        let now_rust = chars_eq(&lang, rust);
        assert(fence_chars@.subrange(0, fence_chars@.len() as int) =~= fence_chars@);
        assert(lang@.subrange(0, lang@.len() as int) =~= lang@);
        assert(out@ =~= old(out)@ + (seq!['\n'] + fence() + lang@));
        return (true, now_rust);
    }
    if line.len() > 0 && line[0] == ' ' {
        append_from(out, line, 1);
        assert(line@.subrange(1, line@.len() as int) =~= line@.drop_first());
    } else {
        append_from(out, line, 0);
        assert(line@.subrange(0, line@.len() as int) =~= line@);
    }
    assert(out@ =~= old(out)@ + (seq!['\n'] + doc_line_text(line@)));
    if is_fence {
        (false, false)
    } else {
        (in_code, is_rust)
    }
}

/// Cleans lines given as character vectors.
fn cleanup_doc_lines(lines: &Vec<Vec<char>>) -> (r: Vec<char>)
    ensures
        r@ == cleanup_lines(char_vecs_view(lines@), false, false),
{
    let ghost all = char_vecs_view(lines@);
    proof {
        reveal_strlit("```");
    }
    let fence_chars = chars_of("```");
    let hidden = chars_of("# ");
    let rust = chars_of("rust");
    let n = lines.len();
    let mut out: Vec<char> = Vec::new();
    let mut in_code = false;
    let mut is_rust = false;
    let mut i: usize = 0;
    assert(all.subrange(0, n as int) =~= all);
    while i < n
        invariant
            i <= n,
            n == lines@.len(),
            all == char_vecs_view(lines@),
            fence_chars@ == fence(),
            fence_chars@.len() == 3,
            hidden@ == "# "@,
            rust@ == "rust"@,
            out@ + cleanup_lines(all.subrange(i as int, n as int), in_code, is_rust)
                == cleanup_lines(all, false, false),
        decreases n - i,
    {
        let ghost rest = all.subrange(i as int, n as int);
        let ghost before = out@;
        assert(rest[0] == lines@[i as int]@);
        assert(rest.drop_first() =~= all.subrange(i + 1, n as int));
        let (c, r) = clean_line(&mut out, &lines[i], &fence_chars, &hidden, &rust, in_code, is_rust);
        proof {
            let step = cleanup_step(rest[0], in_code, is_rust);
            assert(cleanup_lines(rest, in_code, is_rust) == step.0 + cleanup_lines(rest.drop_first(), c, r));
            assert(before + (step.0 + cleanup_lines(rest.drop_first(), c, r))
                =~= (before + step.0) + cleanup_lines(rest.drop_first(), c, r));
        }
        in_code = c;
        is_rust = r;
        i = i + 1;
    }
    assert(all.subrange(n as int, n as int) =~= Seq::<Seq<char>>::empty());
    assert(out@ + Seq::<char>::empty() =~= out@);
    out
}

/// Cleans lint documentation for the lint list (see `cleanup_lines`).
pub fn cleanup_docs(docs_collection: &Vec<String>) -> (r: String)
    ensures
        r@ == cleanup_lines(strings_view(docs_collection@), false, false),
{
    let mut lines: Vec<Vec<char>> = Vec::new();
    let mut i: usize = 0;
    while i < docs_collection.len()
        invariant
            i <= docs_collection@.len(),
            char_vecs_view(lines@) == strings_view(docs_collection@).subrange(0, i as int),
        decreases docs_collection@.len() - i,
    {
        let line = chars_of(docs_collection[i].as_str());
        assert(line@ == strings_view(docs_collection@)[i as int]);
        let ghost before = lines@;
        lines.push(line);
        assert(char_vecs_view(lines@) =~= char_vecs_view(before).push(line@));
        assert(strings_view(docs_collection@).subrange(0, i + 1) =~= strings_view(docs_collection@).subrange(0, i as int).push(line@));
        i = i + 1;
        assert(char_vecs_view(lines@) =~= strings_view(docs_collection@).subrange(0, i as int));
    }
    assert(strings_view(docs_collection@).subrange(0, i as int) =~= strings_view(docs_collection@));
    let out = cleanup_doc_lines(&lines);
    crate::strings::string_of(&out)
}

// ---------------------------------------------------------------------
// `{{produces}}` markers
// ---------------------------------------------------------------------

/// Why the examples of a lint's documentation cannot be read.
#[derive(Clone, Copy, PartialEq, Eq, Debug)]
pub enum ProducesError {
    /// A code block is opened and never closed.
    UnterminatedCodeBlock,
    /// A `{{produces}}` marker stands where no example precedes it.
    MisplacedProducesMarker,
}

/// One example whose output is asked for: the indices of its lines, and
/// the index of the `{{produces}}` line that the output replaces.
pub struct ProducesSite {
    pub example: Vec<usize>,
    pub marker: usize,
}

impl View for ProducesSite {
    type V = (Seq<usize>, usize);

    open spec fn view(&self) -> (Seq<usize>, usize) {
        (self.example@, self.marker)
    }
}

/// Where the scan of the documentation stands.
pub enum ScanMode {
    /// Looking for the next Rust example.
    Seek,
    /// Inside an example that is not run, looking for its end.
    Skip,
    /// Inside an example; the indices of its lines so far.
    Collect(Seq<usize>),
    /// After an example, looking for its `{{produces}}` marker.
    Produce(Seq<usize>),
}

/// What one line does to the scan.
pub enum ScanMove {
    /// The scan goes on in the given mode.
    Go(ScanMode),
    /// The line is the marker of the given example; the scan then seeks.
    Found(Seq<usize>),
    /// The examples end here.
    Finish,
    /// The documentation is malformed.
    Fail(ProducesError),
}

/// A line that opens a Rust example.
pub open spec fn is_example_start(line: Seq<char>) -> bool {
    has_prefix(trim_start_ws(line), "```rust"@)
}

/// An example that is not run.
pub open spec fn is_ignored_example(line: Seq<char>) -> bool {
    occurs_in(line, "ignore"@) || occurs_in(line, "no_run"@)
}

/// The heading that starts the corrected code, after which no example
/// is looked at.
pub open spec fn ends_examples(line: Seq<char>) -> bool {
    let t = trim_ws(line);
    eq_ignore_ascii_case(t, "Use instead:"@) || eq_ignore_ascii_case(t, "Could be written as:"@)
}

/// The marker that asks for an example's output.
pub open spec fn produces_marker() -> Seq<char> {
    "{{produces}}"@
}

/// What line `i`, `line`, does to a scan in `mode`.
pub open spec fn scan_move(line: Seq<char>, i: usize, mode: ScanMode) -> ScanMove {
    match mode {
        ScanMode::Seek => {
            if is_example_start(line) {
                if is_ignored_example(line) {
                    ScanMove::Go(ScanMode::Skip)
                } else {
                    ScanMove::Go(ScanMode::Collect(seq![]))
                }
            } else if trim_start_ws(line) == produces_marker() {
                ScanMove::Fail(ProducesError::MisplacedProducesMarker)
            } else if ends_examples(line) {
                ScanMove::Finish
            } else {
                ScanMove::Go(ScanMode::Seek)
            }
        },
        ScanMode::Skip => {
            if has_prefix(trim_start_ws(line), fence()) {
                ScanMove::Go(ScanMode::Seek)
            } else {
                ScanMove::Go(ScanMode::Skip)
            }
        },
        ScanMode::Collect(ex) => {
            if trim_start_ws(line) == fence() {
                ScanMove::Go(ScanMode::Produce(ex))
            } else {
                ScanMove::Go(ScanMode::Collect(ex.push(i)))
            }
        },
        ScanMode::Produce(ex) => {
            if line.len() == 0 {
                ScanMove::Go(ScanMode::Produce(ex))
            } else if trim_ws(line) == produces_marker() {
                ScanMove::Found(ex)
            } else {
                ScanMove::Go(ScanMode::Seek)
            }
        },
    }
}

/// The examples with a `{{produces}}` marker among `lines`, scanning from
/// line `i` in `mode`; an error where the documentation is malformed.
pub open spec fn produces_scan(lines: Seq<Seq<char>>, i: int, mode: ScanMode) -> Result<
    Seq<(Seq<usize>, usize)>,
    ProducesError,
>
    decreases lines.len() - i,
{
    if i < 0 || i >= lines.len() {
        match mode {
            ScanMode::Skip => Err(ProducesError::UnterminatedCodeBlock),
            ScanMode::Collect(_) => Err(ProducesError::UnterminatedCodeBlock),
            _ => Ok(seq![]),
        }
    } else {
        match scan_move(lines[i], i as usize, mode) {
            ScanMove::Go(next) => produces_scan(lines, i + 1, next),
            ScanMove::Found(ex) => match produces_scan(lines, i + 1, ScanMode::Seek) {
                Ok(rest) => Ok(seq![(ex, i as usize)] + rest),
                Err(e) => Err(e),
            },
            ScanMove::Finish => Ok(seq![]),
            ScanMove::Fail(e) => Err(e),
        }
    }
}

/// `found` followed by what a scan gives.
pub open spec fn after_found(
    found: Seq<(Seq<usize>, usize)>,
    r: Result<Seq<(Seq<usize>, usize)>, ProducesError>,
) -> Result<Seq<(Seq<usize>, usize)>, ProducesError> {
    match r {
        Ok(rest) => Ok(found + rest),
        Err(e) => Err(e),
    }
}

/// The views of the sites.
pub open spec fn sites_view(v: Seq<ProducesSite>) -> Seq<(Seq<usize>, usize)> {
    v.map_values(|s: ProducesSite| s@)
}

/// The mode of the scan as the loop below holds it.
#[derive(Clone, Copy)]
enum Mode {
    Seek,
    Skip,
    Collect,
    Produce,
}

spec fn scan_mode_of(mode: Mode, example: Seq<usize>) -> ScanMode {
    match mode {
        Mode::Seek => ScanMode::Seek,
        Mode::Skip => ScanMode::Skip,
        Mode::Collect => ScanMode::Collect(example),
        Mode::Produce => ScanMode::Produce(example),
    }
}

/// Whether `line`, once its leading white space is gone, equals `p`.
fn trim_start_is(line: &Vec<char>, p: &Vec<char>) -> (r: bool)
    ensures
        r == (trim_start_ws(line@) == p@),
{
    let ts = trim_start_index(line);
    let n = line.len();
    range_eq(line, ts, n, p)
}

/// Whether `line`, trimmed at both ends, equals `p` (up to ASCII case when
/// `ignore_case` holds).
fn trim_is(line: &Vec<char>, p: &Vec<char>, ignore_case: bool) -> (r: bool)
    ensures
        ignore_case ==> r == eq_ignore_ascii_case(trim_ws(line@), p@),
        !ignore_case ==> r == (trim_ws(line@) == p@),
{
    let ts = trim_start_index(line);
    let n = line.len();
    let te = trim_end_index(line, ts, n);
    assert(trim_ws(line@) == line@.subrange(ts as int, te as int));
    if ignore_case {
        range_eq_ignore_ascii_case(line, ts, te, p)
    } else {
        range_eq(line, ts, te, p)
    }
}

/// Whether `line`, once its leading white space is gone, begins with `p`.
fn trim_start_has_prefix(line: &Vec<char>, p: &Vec<char>) -> (r: bool)
    ensures
        r == has_prefix(trim_start_ws(line@), p@),
{
    let ts = trim_start_index(line);
    has_prefix_at(line, ts, p)
}

/// The literal texts that the scan looks for.
struct ScanWords {
    rust_fence: Vec<char>,
    fence: Vec<char>,
    ignore: Vec<char>,
    no_run: Vec<char>,
    marker: Vec<char>,
    use_instead: Vec<char>,
    written_as: Vec<char>,
}

impl ScanWords {
    spec fn wf(&self) -> bool {
        &&& self.rust_fence@ == "```rust"@
        &&& self.fence@ == fence()
        &&& self.ignore@ == "ignore"@
        &&& self.no_run@ == "no_run"@
        &&& self.marker@ == produces_marker()
        &&& self.use_instead@ == "Use instead:"@
        &&& self.written_as@ == "Could be written as:"@
    }

    fn new() -> (r: Self)
        ensures
            r.wf(),
    {
        ScanWords {
            rust_fence: chars_of("```rust"),
            fence: chars_of("```"),
            ignore: chars_of("ignore"),
            no_run: chars_of("no_run"),
            marker: chars_of("{{produces}}"),
            use_instead: chars_of("Use instead:"),
            written_as: chars_of("Could be written as:"),
        }
    }
}

/// What line `i` does to a scan in `mode`, in the loop's terms: the next
/// mode, whether the line is a marker, and whether the scan stops (with
/// the error, if any).
fn scan_line(words: &ScanWords, line: &Vec<char>, i: usize, mode: Mode, example: &mut Vec<usize>) -> (r: (
    Mode,
    bool,
    Option<Result<(), ProducesError>>,
))
    requires
        words.wf(),
    ensures
        ({
            let mv = scan_move(line@, i, scan_mode_of(mode, old(example)@));
            match r.2 {
                Some(Ok(())) => mv is Finish,
                Some(Err(e)) => mv == ScanMove::Fail(e),
                None => if r.1 {
                    mv == ScanMove::Found(old(example)@) && r.0 == Mode::Seek && final(example)@
                        == old(example)@
                } else {
                    mv == ScanMove::Go(scan_mode_of(r.0, final(example)@))
                },
            }
        }),
{
    match mode {
        Mode::Seek => {
            if trim_start_has_prefix(line, &words.rust_fence) {
                if contains_chars(line, &words.ignore) || contains_chars(line, &words.no_run) {
                    (Mode::Skip, false, None)
                } else {
                    example.clear();
                    assert(example@ =~= Seq::<usize>::empty());
                    (Mode::Collect, false, None)
                }
            } else if trim_start_is(line, &words.marker) {
                (Mode::Seek, false, Some(Err(ProducesError::MisplacedProducesMarker)))
            } else if trim_is(line, &words.use_instead, true) || trim_is(line, &words.written_as, true) {
                (Mode::Seek, false, Some(Ok(())))
            } else {
                (Mode::Seek, false, None)
            }
        },
        Mode::Skip => {
            if trim_start_has_prefix(line, &words.fence) {
                (Mode::Seek, false, None)
            } else {
                (Mode::Skip, false, None)
            }
        },
        Mode::Collect => {
            if trim_start_is(line, &words.fence) {
                (Mode::Produce, false, None)
            } else {
                example.push(i);
                (Mode::Collect, false, None)
            }
        },
        Mode::Produce => {
            if line.len() == 0 {
                (Mode::Produce, false, None)
            } else if trim_is(line, &words.marker, false) {
                (Mode::Seek, true, None)
            } else {
                (Mode::Seek, false, None)
            }
        },
    }
}

/// The examples of `docs` whose output is asked for by a `{{produces}}`
/// marker, as `produces_scan` reads the lines of `docs`.
pub fn produces_sites(docs: &str) -> (r: Result<Vec<ProducesSite>, ProducesError>)
    ensures
        match r {
            Ok(v) => produces_scan(lines_of(docs@), 0, ScanMode::Seek) == Ok::<
                Seq<(Seq<usize>, usize)>,
                ProducesError,
            >(sites_view(v@)),
            Err(e) => produces_scan(lines_of(docs@), 0, ScanMode::Seek) == Err::<
                Seq<(Seq<usize>, usize)>,
                ProducesError,
            >(e),
        },
{
    let lines = split_lines(docs);
    let ghost all = char_vecs_view(lines@);
    let words = ScanWords::new();
    let n = lines.len();
    let mut found: Vec<ProducesSite> = Vec::new();
    let mut example: Vec<usize> = Vec::new();
    let mut mode = Mode::Seek;
    let mut i: usize = 0;
    assert(after_found(Seq::empty(), produces_scan(all, 0, ScanMode::Seek)) == produces_scan(all, 0, ScanMode::Seek)) by {
        match produces_scan(all, 0, ScanMode::Seek) {
            Ok(rest) => {
                assert(Seq::<(Seq<usize>, usize)>::empty() + rest =~= rest);
            },
            Err(e) => {},
        }
    }
    while i < n
        invariant
            i <= n,
            n == lines@.len(),
            all == char_vecs_view(lines@),
            all == lines_of(docs@),
            words.wf(),
            after_found(sites_view(found@), produces_scan(all, i as int, scan_mode_of(mode, example@)))
                == produces_scan(all, 0, ScanMode::Seek),
        decreases n - i,
    {
        let ghost before = sites_view(found@);
        let ghost m0 = scan_mode_of(mode, example@);
        let ghost ex0 = example@;
        assert(all[i as int] == lines@[i as int]@);
        let (next, is_marker, stop) = scan_line(&words, &lines[i], i, mode, &mut example);
        match stop {
            Some(Ok(())) => {
                proof {
                    assert(produces_scan(all, i as int, m0) == Ok::<Seq<(Seq<usize>, usize)>, ProducesError>(seq![]));
                    assert(before + Seq::<(Seq<usize>, usize)>::empty() =~= before);
                }
                return Ok(found);
            },
            Some(Err(e)) => {
                return Err(e);
            },
            None => {},
        }
        if is_marker {
            let site = ProducesSite { example: example.clone(), marker: i };
            assert(site.example@ =~= ex0);
            found.push(site);
            proof {
                assert(sites_view(found@) =~= before.push((ex0, i)));
                match produces_scan(all, i + 1, ScanMode::Seek) {
                    Ok(rest) => {
                        assert(before + (seq![(ex0, i)] + rest) =~= before.push((ex0, i)) + rest);
                    },
                    Err(e) => {},
                }
            }
        }
        mode = next;
        i = i + 1;
    }
    proof {
        match mode {
            Mode::Skip => {},
            Mode::Collect => {},
            _ => {
                assert(sites_view(found@) + Seq::<(Seq<usize>, usize)>::empty() =~= sites_view(found@));
            },
        }
    }
    match mode {
        Mode::Skip => Err(ProducesError::UnterminatedCodeBlock),
        Mode::Collect => Err(ProducesError::UnterminatedCodeBlock),
        _ => Ok(found),
    }
}

/// What replaces a `{{produces}}` marker: the example's output in a
/// collapsed text block.
pub open spec fn produces_details(output: Seq<char>) -> Seq<char> {
    "<details><summary>Produces</summary>\n\n```text\n"@ + output + "\n```\n</details>"@
}

/// `lines` with the marker line of each site replaced by the details of
/// the corresponding output.
pub open spec fn fill_markers(
    lines: Seq<Seq<char>>,
    sites: Seq<(Seq<usize>, usize)>,
    outputs: Seq<Seq<char>>,
) -> Seq<Seq<char>>
    decreases sites.len(),
{
    if sites.len() == 0 || outputs.len() == 0 {
        lines
    } else {
        fill_markers(
            lines.update(sites[0].1 as int, produces_details(outputs[0])),
            sites.drop_first(),
            outputs.drop_first(),
        )
    }
}

/// The documentation `docs` with the output of each example put in place
/// of its marker, cleaned for the lint list.
pub fn fill_produces(docs: &str, sites: &Vec<ProducesSite>, outputs: &Vec<String>) -> (r: String)
    requires
        sites@.len() == outputs@.len(),
        forall|k: int| 0 <= k < sites@.len() ==> sites@[k].marker < lines_of(docs@).len(),
    ensures
        r@ == cleanup_lines(
            fill_markers(lines_of(docs@), sites_view(sites@), strings_view(outputs@)),
            false,
            false,
        ),
{
    let mut lines = split_lines(docs);
    let ghost all = char_vecs_view(lines@);
    let ghost sv = sites_view(sites@);
    let ghost ov = strings_view(outputs@);
    let n = sites.len();
    let mut k: usize = 0;
    assert(sv.subrange(0, n as int) =~= sv);
    assert(ov.subrange(0, n as int) =~= ov);
    while k < n
        invariant
            k <= n,
            n == sites@.len(),
            n == outputs@.len(),
            sv == sites_view(sites@),
            ov == strings_view(outputs@),
            lines@.len() == all.len(),
            all == lines_of(docs@),
            forall|j: int| 0 <= j < sites@.len() ==> sites@[j].marker < all.len(),
            fill_markers(all, sv, ov) == fill_markers(
                char_vecs_view(lines@),
                sv.subrange(k as int, n as int),
                ov.subrange(k as int, n as int),
            ),
        decreases n - k,
    {
        let ghost cur = char_vecs_view(lines@);
        let mut details = chars_of("<details><summary>Produces</summary>\n\n```text\n");
        let out = chars_of(outputs[k].as_str());
        let tail = chars_of("\n```\n</details>");
        append_from(&mut details, &out, 0);
        append_from(&mut details, &tail, 0);
        proof {
            assert(out@.subrange(0, out@.len() as int) =~= out@);
            assert(tail@.subrange(0, tail@.len() as int) =~= tail@);
            assert(details@ =~= produces_details(ov[k as int]));
        }
        let m = sites[k].marker;
        lines.set(m, details);
        proof {
            let ss = sv.subrange(k as int, n as int);
            let os = ov.subrange(k as int, n as int);
            assert(ss[0] == sv[k as int]);
            assert(os[0] == ov[k as int]);
            assert(ss.drop_first() =~= sv.subrange(k + 1, n as int));
            assert(os.drop_first() =~= ov.subrange(k + 1, n as int));
            assert(char_vecs_view(lines@) =~= cur.update(m as int, produces_details(ov[k as int])));
        }
        k = k + 1;
    }
    proof {
        assert(sv.subrange(n as int, n as int) =~= Seq::<(Seq<usize>, usize)>::empty());
    }
    let out = cleanup_doc_lines(&lines);
    crate::strings::string_of(&out)
}

// ---------------------------------------------------------------------
// Running an example
// ---------------------------------------------------------------------

/// A line of an example as the compiler sees it: a line that starts
/// (after white space) with `# ` is hidden in the documentation but
/// compiled, without that mark.
pub open spec fn unhidden(line: Seq<char>) -> Seq<char> {
    let t = trim_start_ws(line);
    if has_prefix(t, "# "@) {
        t.subrange(2, t.len() as int)
    } else {
        line
    }
}

/// How many lines at the start of a list are crate attributes (`#!`).
pub open spec fn attribute_lines(lines: Seq<Seq<char>>) -> nat
    decreases lines.len(),
{
    if lines.len() > 0 && has_prefix(lines[0], "#!"@) {
        1 + attribute_lines(lines.drop_first())
    } else {
        0
    }
}

/// Lines, each followed by a newline.
pub open spec fn lines_text(lines: Seq<Seq<char>>) -> Seq<char>
    decreases lines.len(),
{
    if lines.len() == 0 {
        Seq::empty()
    } else {
        lines_text(lines.drop_last()) + lines.last() + seq!['\n']
    }
}

/// Whether an example has a `main` function of its own.
pub open spec fn has_main(example: Seq<Seq<char>>) -> bool {
    exists|i: int| 0 <= i < example.len() && occurs_in(#[trigger] example[i], "fn main"@)
}

/// The source file that runs an example: its leading attribute lines,
/// then its other lines, these wrapped in `fn main() { .. }` unless the
/// example has a `main` of its own. Hidden lines are compiled too.
pub open spec fn example_source(example: Seq<Seq<char>>) -> Seq<char> {
    let lines = example.map_values(|l: Seq<char>| unhidden(l));
    let n = attribute_lines(lines) as int;
    let wrap = !has_main(example);
    lines_text(lines.subrange(0, n)) + (if wrap {
        "fn main() {\n"@
    } else {
        Seq::empty()
    }) + lines_text(lines.subrange(n, lines.len() as int)) + (if wrap {
        "}\n"@
    } else {
        Seq::empty()
    })
}

/// A line of an example without its hiding mark.
fn unhide(line: &Vec<char>) -> (r: Vec<char>)
    ensures
        r@ == unhidden(line@),
{
    let start = trim_start_index(line);
    let mark = chars_of("# ");
    proof {
        reveal_strlit("# ");
    }
    if has_prefix_at(line, start, &mark) {
        let ghost t = line@.subrange(start as int, line@.len() as int);
        assert(mark@.len() <= t.len());
        assert(t.len() == line@.len() - start);
        assert(t.subrange(2, t.len() as int) =~= line@.subrange(start + 2, line@.len() as int));
        let skip = mark.len();
        assert(start + skip <= line.len());
        chars_range(line, start + skip, line.len())
    } else {
        assert(line@.subrange(0, line@.len() as int) =~= line@);
        chars_range(line, 0, line.len())
    }
}

/// Appends the lines `lines[lo..hi]`, each followed by a newline.
fn push_lines(out: &mut Vec<char>, lines: &Vec<Vec<char>>, lo: usize, hi: usize)
    requires
        lo <= hi <= lines@.len(),
    ensures
        final(out)@ == old(out)@ + lines_text(char_vecs_view(lines@).subrange(lo as int, hi as int)),
{
    let ghost all = char_vecs_view(lines@);
    let ghost start = out@;
    let mut j: usize = lo;
    assert(all.subrange(lo as int, lo as int) =~= Seq::<Seq<char>>::empty());
    assert(out@ =~= start + lines_text(all.subrange(lo as int, lo as int)));
    while j < hi
        invariant
            lo <= j <= hi <= lines@.len(),
            all == char_vecs_view(lines@),
            out@ == start + lines_text(all.subrange(lo as int, j as int)),
        decreases hi - j,
    {
        let ghost before = out@;
        append_from(out, &lines[j], 0);
        out.push('\n');
        proof {
            let next = all.subrange(lo as int, j + 1);
            assert(next.drop_last() =~= all.subrange(lo as int, j as int));
            assert(next.last() == lines@[j as int]@);
            assert(lines@[j as int]@.subrange(0, lines@[j as int]@.len() as int) =~= lines@[j as int]@);
            assert(out@ =~= start + lines_text(next));
        }
        j = j + 1;
    }
}

/// The source file that runs an example (see `example_source`).
pub fn lint_example_source(example: &Vec<String>) -> (r: String)
    ensures
        r@ == example_source(strings_view(example@)),
{
    let ghost ex = strings_view(example@);
    let ghost unh = ex.map_values(|l: Seq<char>| unhidden(l));
    let fn_main = chars_of("fn main");
    let mut lines: Vec<Vec<char>> = Vec::new();
    let mut needs_main = true;
    let mut i: usize = 0;
    while i < example.len()
        invariant
            i <= example@.len(),
            ex == strings_view(example@),
            unh == ex.map_values(|l: Seq<char>| unhidden(l)),
            fn_main@ == "fn main"@,
            char_vecs_view(lines@) == unh.subrange(0, i as int),
            needs_main == !exists|j: int| 0 <= j < i && occurs_in(#[trigger] ex[j], "fn main"@),
        decreases example@.len() - i,
    {
        let raw = chars_of(example[i].as_str());
        assert(raw@ == ex[i as int]);
        if contains_chars(&raw, &fn_main) {
            needs_main = false;
        }
        let line = unhide(&raw);
        let ghost before = lines@;
        lines.push(line);
        proof {
            assert(char_vecs_view(lines@) =~= char_vecs_view(before).push(line@));
            assert(unh.subrange(0, i + 1) =~= unh.subrange(0, i as int).push(unh[i as int]));
        }
        i = i + 1;
    }
    assert(unh.subrange(0, i as int) =~= unh);
    assert(needs_main == !has_main(ex));
    let ghost u = char_vecs_view(lines@);
    let attr = chars_of("#!");
    let n = lines.len();
    let mut k: usize = 0;
    assert(u.subrange(0, n as int) =~= u);
    while k < n && has_prefix_at(&lines[k], 0, &attr)
        invariant
            k <= n,
            n == lines@.len(),
            u == char_vecs_view(lines@),
            attr@ == "#!"@,
            attribute_lines(u) == k + attribute_lines(u.subrange(k as int, n as int)),
        decreases n - k,
    {
        proof {
            let rest = u.subrange(k as int, n as int);
            assert(lines@[k as int]@.subrange(0, lines@[k as int]@.len() as int) =~= lines@[k as int]@);
            assert(rest[0] == u[k as int]);
            assert(rest.drop_first() =~= u.subrange(k + 1, n as int));
        }
        k = k + 1;
    }
    proof {
        let rest = u.subrange(k as int, n as int);
        if k < n {
            assert(lines@[k as int]@.subrange(0, lines@[k as int]@.len() as int) =~= lines@[k as int]@);
            assert(rest[0] == u[k as int]);
        }
        assert(attribute_lines(u) == k);
    }
    let mut out: Vec<char> = Vec::new();
    push_lines(&mut out, &lines, 0, k);
    let opening = chars_of("fn main() {\n");
    let closing = chars_of("}\n");
    if needs_main {
        append_from(&mut out, &opening, 0);
        assert(opening@.subrange(0, opening@.len() as int) =~= opening@);
    }
    push_lines(&mut out, &lines, k, n);
    if needs_main {
        append_from(&mut out, &closing, 0);
        assert(closing@.subrange(0, closing@.len() as int) =~= closing@);
    }
    proof {
        assert(Seq::<char>::empty() + lines_text(u.subrange(0, k as int)) =~= lines_text(
            u.subrange(0, k as int),
        ));
        assert(out@ =~= example_source(ex));
    }
    crate::strings::string_of(&out)
}

/// A compiler message in JSON form, as far as the output of a lint reads
/// it: its code, when the code is a string, and its rendered text.
pub struct CompilerMessage {
    pub code: Option<String>,
    pub rendered: Option<String>,
}

/// Whether a message carries the code `code`.
pub open spec fn is_about(m: CompilerMessage, code: Seq<char>) -> bool {
    m.code matches Some(c) && c@ == code
}

/// The rendered texts of the messages with the code `code`, one after
/// the other.
pub open spec fn rendered_about(msgs: Seq<CompilerMessage>, code: Seq<char>) -> Seq<char>
    decreases msgs.len(),
{
    if msgs.len() == 0 {
        Seq::empty()
    } else {
        rendered_about(msgs.drop_last(), code) + if is_about(msgs.last(), code) {
            msgs.last().rendered->0@
        } else {
            Seq::empty()
        }
    }
}

/// The output of a lint on an example, from the compiler's messages: the
/// rendered texts of the messages with the lint's code `clippy::NAME`,
/// without trailing white space, with each mention of the temporary
/// example file `tmp_file_path` shown as `lint_example.rs`. `None` when
/// these texts are empty: the example does not trigger the lint.
pub fn lint_output(lint_name: &str, messages: &Vec<CompilerMessage>, tmp_file_path: &str) -> (r:
    Option<String>)
    requires
        forall|i: int|
            0 <= i < messages@.len() && is_about(#[trigger] messages@[i], "clippy::"@ + lint_name@)
                ==> messages@[i].rendered is Some,
    ensures
        ({
            let all = rendered_about(messages@, "clippy::"@ + lint_name@);
            &&& r is None <==> all.len() == 0
            &&& r matches Some(s) ==> encode_utf8(s@) == replaced(
                encode_utf8(trim_end_ws(all)),
                encode_utf8(tmp_file_path@),
                encode_utf8("lint_example.rs"@),
                0,
                encode_utf8(tmp_file_path@).len() == 0,
                None,
            )
        }),
{
    let ghost code = "clippy::"@ + lint_name@;
    let mut prefixed = chars_of("clippy::");
    let name = chars_of(lint_name);
    append_from(&mut prefixed, &name, 0);
    assert(name@.subrange(0, name@.len() as int) =~= name@);
    assert(prefixed@ == code);
    let mut all: Vec<char> = Vec::new();
    let mut i: usize = 0;
    while i < messages.len()
        invariant
            i <= messages@.len(),
            prefixed@ == code,
            code == "clippy::"@ + lint_name@,
            forall|j: int|
                0 <= j < messages@.len() && is_about(#[trigger] messages@[j], code)
                    ==> messages@[j].rendered is Some,
            all@ == rendered_about(messages@.subrange(0, i as int), code),
        decreases messages@.len() - i,
    {
        let m = &messages[i];
        proof {
            let next = messages@.subrange(0, i + 1);
            assert(next.drop_last() =~= messages@.subrange(0, i as int));
            assert(next.last() == messages@[i as int]);
        }
        let ghost before = all@;
        if let Some(c) = &m.code {
            let cs = chars_of(c.as_str());
            if chars_eq(&cs, &prefixed) {
                assert(is_about(messages@[i as int], code));
                match &m.rendered {
                    Some(text) => {
                        let t = chars_of(text.as_str());
                        append_from(&mut all, &t, 0);
                        assert(t@.subrange(0, t@.len() as int) =~= t@);
                    },
                    None => {
                        assert(false);
                    },
                }
            } else {
                assert(!is_about(messages@[i as int], code));
                assert(all@ =~= before + Seq::<char>::empty());
            }
        } else {
            assert(all@ =~= before + Seq::<char>::empty());
        }
        i = i + 1;
    }
    assert(messages@.subrange(0, i as int) =~= messages@);
    if all.len() == 0 {
        return None;
    }
    let end = trim_end_index(&all, 0, all.len());
    assert(all@.subrange(0, all@.len() as int) =~= all@);
    let trimmed_chars = chars_range(&all, 0, end);
    let trimmed = crate::strings::string_of(&trimmed_chars);
    let out = replace(trimmed.as_str(), tmp_file_path, "lint_example.rs");
    Some(out)
}

// ---------------------------------------------------------------------
// Configuration options
// ---------------------------------------------------------------------

/// A configuration option of the linter, as the lint documentation
/// shows it.
pub struct ClippyConfiguration {
    pub name: String,
    pub config_type: String,
    pub default: String,
    pub doc: String,
    /// The lints that the option affects.
    pub lints: Vec<String>,
    pub deprecation_reason: Option<String>,
}

/// The line that shows an option.
pub open spec fn config_line(c: ClippyConfiguration) -> Seq<char> {
    "* `"@ + c.name@ + "`: `"@ + c.config_type@ + "`(defaults to `"@ + c.default@ + "`): "@
        + c.doc@ + "\n"@
}

/// Whether an option affects the lint `lint`.
pub open spec fn affects(c: ClippyConfiguration, lint: Seq<char>) -> bool {
    exists|j: int| 0 <= j < c.lints@.len() && #[trigger] c.lints@[j]@ == lint
}

/// The lines of the options that affect `lint`, in order.
pub open spec fn config_lines(cs: Seq<ClippyConfiguration>, lint: Seq<char>) -> Seq<char>
    decreases cs.len(),
{
    if cs.len() == 0 {
        Seq::empty()
    } else {
        config_lines(cs.drop_last(), lint) + if affects(cs.last(), lint) {
            config_line(cs.last())
        } else {
            Seq::empty()
        }
    }
}

/// The heading of the configuration section of a lint's documentation.
pub open spec fn configuration_heading() -> Seq<char> {
    "\n### Configuration\nThis lint has the following configuration variables:\n\n"@
}

impl ClippyConfiguration {
    /// The line that shows the option (see `config_line`).
    pub fn to_string(&self) -> (r: String)
        ensures
            r@ == config_line(*self),
    {
        let mut out: Vec<char> = Vec::new();
        push_str_chars(&mut out, "* `");
        push_str_chars(&mut out, self.name.as_str());
        push_str_chars(&mut out, "`: `");
        push_str_chars(&mut out, self.config_type.as_str());
        push_str_chars(&mut out, "`(defaults to `");
        push_str_chars(&mut out, self.default.as_str());
        push_str_chars(&mut out, "`): ");
        push_str_chars(&mut out, self.doc.as_str());
        push_str_chars(&mut out, "\n");
        assert(out@ =~= config_line(*self));
        crate::strings::string_of(&out)
    }
}

/// Appends the characters of `s`.
fn push_str_chars(out: &mut Vec<char>, s: &str)
    ensures
        final(out)@ == old(out)@ + s@,
{
    let cs = chars_of(s);
    append_from(out, &cs, 0);
    assert(cs@.subrange(0, cs@.len() as int) =~= cs@);
}

/// Whether an option affects the lint `lint_name`.
fn config_affects(c: &ClippyConfiguration, lint_name: &str) -> (r: bool)
    ensures
        r == affects(*c, lint_name@),
{
    let mut j: usize = 0;
    while j < c.lints.len()
        invariant
            j <= c.lints@.len(),
            forall|m: int| 0 <= m < j ==> c.lints@[m]@ != lint_name@,
        decreases c.lints@.len() - j,
    {
        if str_eq(c.lints[j].as_str(), lint_name) {
            assert(c.lints@[j as int]@ == lint_name@);
            return true;
        }
        j = j + 1;
    }
    false
}

/// The configuration section of a lint's documentation: the heading and
/// a line for each option that affects the lint. `None` when no option
/// affects it.
pub(crate) fn configuration_section(configs: &Vec<ClippyConfiguration>, lint_name: &str) -> (r: Option<String>)
    ensures
        r is None <==> !exists|i: int|
            0 <= i < configs@.len() && affects(#[trigger] configs@[i], lint_name@),
        r matches Some(s) ==> s@ == configuration_heading() + config_lines(configs@, lint_name@)
            + "\n"@,
{
    let mut lines: Vec<char> = Vec::new();
    let mut found = false;
    let mut i: usize = 0;
    while i < configs.len()
        invariant
            i <= configs@.len(),
            lines@ == config_lines(configs@.subrange(0, i as int), lint_name@),
            found == exists|m: int| 0 <= m < i && affects(#[trigger] configs@[m], lint_name@),
        decreases configs@.len() - i,
    {
        proof {
            let next = configs@.subrange(0, i + 1);
            assert(next.drop_last() =~= configs@.subrange(0, i as int));
            assert(next.last() == configs@[i as int]);
        }
        let ghost before = lines@;
        if config_affects(&configs[i], lint_name) {
            let line = configs[i].to_string();
            push_str_chars(&mut lines, line.as_str());
            found = true;
        } else {
            assert(lines@ =~= before + Seq::<char>::empty());
        }
        i = i + 1;
    }
    assert(configs@.subrange(0, i as int) =~= configs@);
    if !found {
        return None;
    }
    let mut out: Vec<char> = Vec::new();
    push_str_chars(&mut out, "\n### Configuration\nThis lint has the following configuration variables:\n\n");
    append_from(&mut out, &lines, 0);
    assert(lines@.subrange(0, lines@.len() as int) =~= lines@);
    push_str_chars(&mut out, "\n");
    Some(crate::strings::string_of(&out))
}

/// The marker before the links to the configuration documentation in the
/// changelog.
pub open spec fn config_links_start() -> Seq<char> {
    "<!-- begin autogenerated links to configuration documentation -->"@
}

/// The marker after those links.
pub open spec fn config_links_end() -> Seq<char> {
    "<!-- end autogenerated links to configuration documentation -->"@
}

/// `k` is where `p` first occurs in `s`.
pub open spec fn first_occurrence(s: Seq<char>, p: Seq<char>, k: int) -> bool {
    &&& 0 <= k && k + p.len() <= s.len()
    &&& s.subrange(k, k + p.len()) == p
    &&& forall|m: int| 0 <= m < k ==> #[trigger] s.subrange(m, m + p.len()) != p
}

/// The changelog up to the links to the configuration documentation (all
/// of it when it has none).
pub open spec fn before_config_links(changelog: Seq<char>) -> Seq<char> {
    if exists|k: int| first_occurrence(changelog, config_links_start(), k) {
        changelog.subrange(
            0,
            choose|k: int| first_occurrence(changelog, config_links_start(), k),
        )
    } else {
        changelog
    }
}

/// The changelog with new links to the configuration documentation: what
/// stood before the old links, then the markers around `links`, and a
/// final newline.
pub fn changelog_with_config_links(changelog: &str, links: &str) -> (r: String)
    ensures
        r@ == before_config_links(changelog@) + config_links_start() + "\n"@ + links@ + "\n"@
            + config_links_end() + "\n"@,
{
    let text = chars_of(changelog);
    let start = chars_of("<!-- begin autogenerated links to configuration documentation -->");
    proof {
        reveal_strlit("<!-- begin autogenerated links to configuration documentation -->");
    }
    let n = text.len();
    let mut cut = n;
    if start.len() <= n {
        let last = n - start.len();
        let mut k: usize = 0;
        loop
            invariant_except_break
                cut == n,
            invariant
                n == text@.len(),
                text@ == changelog@,
                start@ == config_links_start(),
                last + start@.len() == n,
                k <= last,
                start@.len() > 0,
                forall|m: int| 0 <= m < k ==> #[trigger] text@.subrange(m, m + start@.len()) != start@,
            ensures
                cut <= n,
                cut < n ==> first_occurrence(changelog@, config_links_start(), cut as int),
                cut == n ==> forall|m: int|
                    0 <= m <= last ==> #[trigger] text@.subrange(m, m + start@.len()) != start@,
            decreases last - k,
        {
            if crate::strings::range_eq(&text, k, k + start.len(), &start) {
                cut = k;
                break;
            }
            if k == last {
                break;
            }
            k = k + 1;
        }
    }
    proof {
        if cut < n {
            assert(before_config_links(changelog@) == changelog@.subrange(0, cut as int)) by {
                let c = choose|k: int| first_occurrence(changelog@, config_links_start(), k);
                if c < cut {
                    assert(changelog@.subrange(c, c + start@.len()) != start@);
                } else if c > cut {
                    assert(changelog@.subrange(cut as int, cut + start@.len()) != start@);
                }
            }
        } else {
            if exists|k: int| first_occurrence(changelog@, config_links_start(), k) {
                let c = choose|k: int| first_occurrence(changelog@, config_links_start(), k);
                assert(text@.subrange(c, c + start@.len()) != start@);
            }
            assert(changelog@.subrange(0, n as int) =~= changelog@);
        }
    }
    let mut out = chars_range(&text, 0, cut);
    push_str_chars(&mut out, "<!-- begin autogenerated links to configuration documentation -->");
    push_str_chars(&mut out, "\n");
    push_str_chars(&mut out, links);
    push_str_chars(&mut out, "\n");
    push_str_chars(&mut out, "<!-- end autogenerated links to configuration documentation -->");
    push_str_chars(&mut out, "\n");
    assert(out@ =~= before_config_links(changelog@) + config_links_start() + "\n"@ + links@ + "\n"@
        + config_links_end() + "\n"@);
    crate::strings::string_of(&out)
}

// ---------------------------------------------------------------------
// Documentation attributes and spans
// ---------------------------------------------------------------------

/// The documentation of an item from the texts of its doc attributes, in
/// order: each followed by a line break. `None` when there are none. For
/// the attributes `Hello world!` and `=^.^=` it is `Hello world!\n=^.^=\n`.
pub fn attr_docs(doc_lines: &Vec<String>) -> (r: Option<String>)
    ensures
        r is None <==> doc_lines@.len() == 0,
        r matches Some(s) ==> s@ == lines_text(strings_view(doc_lines@)),
{
    if doc_lines.len() == 0 {
        return None;
    }
    let mut out: Vec<char> = Vec::new();
    let mut i: usize = 0;
    let ghost all = strings_view(doc_lines@);
    assert(all.subrange(0, 0) =~= Seq::<Seq<char>>::empty());
    while i < doc_lines.len()
        invariant
            i <= doc_lines@.len(),
            all == strings_view(doc_lines@),
            out@ == lines_text(all.subrange(0, i as int)),
        decreases doc_lines@.len() - i,
    {
        push_str_chars(&mut out, doc_lines[i].as_str());
        push_str_chars(&mut out, "\n");
        proof {
            let next = all.subrange(0, i + 1);
            assert(next.drop_last() =~= all.subrange(0, i as int));
            assert(next.last() == doc_lines@[i as int]@);
            reveal_strlit("\n");
            assert(out@ =~= lines_text(next));
        }
        i = i + 1;
    }
    assert(all.subrange(0, i as int) =~= all);
    Some(crate::strings::string_of(&out))
}

/// The part of a path after its last `/` (all of it when it has none).
pub open spec fn file_name(path: Seq<char>) -> Seq<char>
    decreases path.len(),
{
    if path.len() == 0 {
        path
    } else if path.last() == '/' {
        Seq::empty()
    } else {
        file_name(path.drop_last()).push(path.last())
    }
}

impl SerializableSpan {
    /// The span as the lint list shows it: `file:line`, with the file's
    /// name without its directories.
    pub fn to_string(&self) -> (r: String)
        ensures
            r@ == file_name(self.path@) + ":"@ + crate::update_lints::decimal(self.line as nat),
    {
        let p = chars_of(self.path.as_str());
        let n = p.len();
        let mut k: usize = n;
        assert(p@.subrange(0, n as int) =~= p@);
        while k > 0 && p[k - 1] != '/'
            invariant
                k <= n,
                n == p@.len(),
                p@ == self.path@,
                file_name(p@) == file_name(p@.subrange(0, k as int)) + p@.subrange(k as int, n as int),
            decreases k,
        {
            proof {
                let pre = p@.subrange(0, k as int);
                assert(pre.drop_last() =~= p@.subrange(0, k - 1));
                assert(pre.last() == p@[k - 1]);
                assert(p@.subrange(k - 1, n as int) =~= seq![p@[k - 1]] + p@.subrange(k as int, n as int));
                assert(file_name(pre) =~= file_name(p@.subrange(0, k - 1)).push(p@[k - 1]));
            }
            k = k - 1;
        }
        proof {
            let pre = p@.subrange(0, k as int);
            if k > 0 {
                assert(pre.last() == p@[k - 1]);
            }
            assert(file_name(pre) =~= Seq::<char>::empty());
        }
        let mut out = chars_range(&p, k, n);
        push_str_chars(&mut out, ":");
        let line = crate::update_lints::usize_to_decimal(self.line);
        push_str_chars(&mut out, line.as_str());
        assert(out@ =~= file_name(self.path@) + ":"@ + crate::update_lints::decimal(self.line as nat));
        crate::strings::string_of(&out)
    }
}

} // verus!
