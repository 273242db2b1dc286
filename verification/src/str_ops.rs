//! Operations that build new strings: replacing the matches of a string
//! pattern (on top of the searcher), repeating, and ASCII case changes.

use vstd::prelude::*;
use vstd::string::StringSliceAdditionalSpecFns;
use vstd::utf8::{encode_utf8, is_char_boundary, valid_utf8};
use crate::pattern::{StrSearcher, occurs_at, none_between, next_boundary};
use crate::strings::{str_slice, lemma_encode_concat, chars_of, push_char, to_ascii_lower, ascii_lower, char_from_u32_ascii};

verus! {

/// The first occurrence of the needle in `h` from `pos` on is at `a`.
pub open spec fn first_occ_at(h: Seq<u8>, nd: Seq<u8>, pos: int, a: int) -> bool {
    pos <= a && occurs_at(h, nd, a) && none_between(h, nd, pos, a)
}

/// One less of a limit; no limit stays none.
pub open spec fn less(limit: Option<nat>) -> Option<nat> {
    match limit {
        Some(k) => Some((k - 1) as nat),
        None => None,
    }
}

/// The bytes of `h` from `pos` on, with the matches that the searcher
/// reports replaced by `to`, at most `limit` of them. For a needle of one
/// byte or more, a match is the first occurrence from the cursor on, and
/// the search goes on after it. For the empty needle, there is an empty
/// match at the cursor when `pending`, and one at every later character
/// boundary.
pub open spec fn replaced(h: Seq<u8>, nd: Seq<u8>, to: Seq<u8>, pos: int, pending: bool, limit: Option<nat>) -> Seq<u8>
    decreases h.len() - pos, if pending { 1int } else { 0int },
    when 0 <= pos <= h.len()
{
    if limit == Some(0nat) {
        h.subrange(pos, h.len() as int)
    } else if nd.len() == 0 {
        if pending {
            to + replaced(h, nd, to, pos, false, less(limit))
        } else if exists|b: int| next_boundary(h, pos, b) {
            let b = choose|b: int| next_boundary(h, pos, b);
            h.subrange(pos, b) + to + replaced(h, nd, to, b, false, less(limit))
        } else {
            h.subrange(pos, h.len() as int)
        }
    } else if exists|a: int| first_occ_at(h, nd, pos, a) {
        let a = choose|a: int| first_occ_at(h, nd, pos, a);
        h.subrange(pos, a) + to + replaced(h, nd, to, a + nd.len(), false, less(limit))
    } else {
        h.subrange(pos, h.len() as int)
    }
}

/// There is only one first occurrence.
proof fn lemma_first_occ_unique(h: Seq<u8>, nd: Seq<u8>, pos: int, a1: int, a2: int)
    requires
        first_occ_at(h, nd, pos, a1),
        first_occ_at(h, nd, pos, a2),
    ensures
        a1 == a2,
{
    if a1 < a2 {
        assert(!occurs_at(h, nd, a1));
    } else if a2 < a1 {
        assert(!occurs_at(h, nd, a2));
    }
}

/// There is only one next character boundary.
proof fn lemma_next_boundary_unique(h: Seq<u8>, pos: int, b1: int, b2: int)
    requires
        next_boundary(h, pos, b1),
        next_boundary(h, pos, b2),
    ensures
        b1 == b2,
{
    if b1 < b2 {
        assert(!is_char_boundary(h, b1));
    } else if b2 < b1 {
        assert(!is_char_boundary(h, b2));
    }
}

/// The search step of `replace`: takes the next match from the searcher,
/// appends the text before it and `to` to `result`, and moves `last_end`
/// past the match; `false` when there is no match left.
fn replace_step<'a, 'b>(
    s: &'a str,
    to: &str,
    searcher: &mut StrSearcher<'a, 'b>,
    result: &mut String,
    last_end: &mut usize,
    limit: Ghost<Option<nat>>,
) -> (found: bool)
    requires
        old(searcher).wf(),
        old(searcher).haystack_bytes() == s.spec_bytes(),
        *old(last_end) as int == old(searcher).front(),
        is_char_boundary(s.spec_bytes(), *old(last_end) as int),
        limit@ != Some(0nat),
    ensures
        final(searcher).wf(),
        final(searcher).haystack_bytes() == s.spec_bytes(),
        final(searcher).needle_bytes() == old(searcher).needle_bytes(),
        found ==> *final(last_end) as int == final(searcher).front(),
        !found ==> *final(last_end) == *old(last_end),
        is_char_boundary(s.spec_bytes(), *final(last_end) as int),
        ({
            let h = s.spec_bytes();
            let nd = old(searcher).needle_bytes();
            let tb = to.spec_bytes();
            if found {
                encode_utf8(final(result)@) + replaced(h, nd, tb, *final(last_end) as int, final(searcher).match_front(), less(limit@))
                    == encode_utf8(old(result)@) + replaced(h, nd, tb, *old(last_end) as int, old(searcher).match_front(), limit@)
            } else {
                &&& final(result)@ == old(result)@
                &&& replaced(h, nd, tb, *old(last_end) as int, old(searcher).match_front(), limit@) == h.subrange(
                    *old(last_end) as int,
                    h.len() as int,
                )
            }
        }),
        found ==> 2 * (s.spec_bytes().len() - final(searcher).front()) + (if final(searcher).match_front() { 1int } else { 0int })
            < 2 * (s.spec_bytes().len() - old(searcher).front()) + (if old(searcher).match_front() { 1int } else { 0int }),
{
    let ghost h = s.spec_bytes();
    let ghost nd = searcher.needle_bytes();
    let ghost tb = to.spec_bytes();
    let ghost pos = *last_end as int;
    let ghost pending = searcher.match_front();
    proof {
        searcher.lemma_pending_only_empty();
    }
    match searcher.next_match() {
        Some((a, b)) => {
            proof {
                searcher.lemma_pending_only_empty();
            }
            let piece = str_slice(s, *last_end, a);
            let ghost r0 = result@;
            result.append(piece);
            let ghost r1 = result@;
            result.append(to);
            proof {
                lemma_encode_concat(r0, piece@);
                lemma_encode_concat(r1, to@);
                let x = h.subrange(pos, a as int);
                let rest = replaced(h, nd, tb, b as int, false, less(limit@));
                if nd.len() == 0 {
                    assert(a == b);
                    if pending {
                        assert(a as int == pos);
                        assert(x =~= Seq::<u8>::empty());
                        assert(replaced(h, nd, tb, pos, pending, limit@) == tb + rest);
                    } else {
                        assert(next_boundary(h, pos, a as int));
                        let c = choose|c: int| next_boundary(h, pos, c);
                        lemma_next_boundary_unique(h, pos, a as int, c);
                        assert(replaced(h, nd, tb, pos, pending, limit@) == x + tb + rest);
                    }
                } else {
                    assert(first_occ_at(h, nd, pos, a as int));
                    let c = choose|c: int| first_occ_at(h, nd, pos, c);
                    lemma_first_occ_unique(h, nd, pos, a as int, c);
                    assert(replaced(h, nd, tb, pos, pending, limit@) == x + tb + rest);
                }
                assert(encode_utf8(result@) + rest =~= encode_utf8(r0) + (x + tb + rest) || encode_utf8(result@) + rest =~= encode_utf8(r0) + (tb + rest));
            }
            *last_end = b;
            true
        },
        None => {
            proof {
                if nd.len() == 0 {
                    assert(!(exists|c: int| next_boundary(h, pos, c)));
                } else {
                    assert forall|c: int| !first_occ_at(h, nd, pos, c) by {
                        if first_occ_at(h, nd, pos, c) {
                            assert(!occurs_at(h, nd, c));
                        }
                    }
                }
            }
            false
        },
    }
}

/// `s` with every match of `from` replaced by `to`; the matches are those
/// the searcher reports from the front (see `replaced`).
pub fn replace(s: &str, from: &str, to: &str) -> (r: String)
    ensures
        encode_utf8(r@) == replaced(
            s.spec_bytes(),
            from.spec_bytes(),
            to.spec_bytes(),
            0,
            from.spec_bytes().len() == 0,
            None,
        ),
{
    let ghost h = s.spec_bytes();
    let ghost nd = from.spec_bytes();
    let ghost tb = to.spec_bytes();
    let ghost target = replaced(h, nd, tb, 0, nd.len() == 0, None);
    proof {
        vstd::utf8::encode_utf8_valid_utf8(s@);
        vstd::utf8::is_char_boundary_start_end_of_seq(h);
    }
    let mut result = String::new();
    let mut last_end: usize = 0;
    let mut searcher = StrSearcher::new(s, from);
    proof {
        searcher.lemma_pending_only_empty();
        assert(encode_utf8(result@) =~= Seq::<u8>::empty());
        assert(encode_utf8(result@) + target =~= target);
    }
    loop
        invariant_except_break
            last_end as int == searcher.front(),
            0 <= searcher.front() <= h.len(),
            encode_utf8(result@) + replaced(h, nd, tb, last_end as int, searcher.match_front(), None) == target,
        invariant
            searcher.wf(),
            searcher.haystack_bytes() == h,
            searcher.needle_bytes() == nd,
            h == s.spec_bytes(),
            tb == to.spec_bytes(),
            valid_utf8(h),
            last_end <= h.len(),
            is_char_boundary(h, last_end as int),
        ensures
            is_char_boundary(h, last_end as int),
            last_end <= h.len(),
            encode_utf8(result@) + h.subrange(last_end as int, h.len() as int) == target,
        decreases 2 * (h.len() - searcher.front()) + (if searcher.match_front() { 1int } else { 0int }),
    {
        if !replace_step(s, to, &mut searcher, &mut result, &mut last_end, Ghost(None)) {
            break;
        }
        proof {
            searcher.lemma_pending_only_empty();
        }
    }
    let tail = str_slice(s, last_end, s.as_bytes().len());
    let ghost r0 = result@;
    result.append(tail);
    proof {
        lemma_encode_concat(r0, tail@);
    }
    result
}

/// `s` with the first `count` matches of `from` replaced by `to`; the
/// matches are those the searcher reports from the front (see
/// `replaced`).
pub fn replacen(s: &str, from: &str, to: &str, count: usize) -> (r: String)
    ensures
        encode_utf8(r@) == replaced(
            s.spec_bytes(),
            from.spec_bytes(),
            to.spec_bytes(),
            0,
            from.spec_bytes().len() == 0,
            Some(count as nat),
        ),
{
    let ghost h = s.spec_bytes();
    let ghost nd = from.spec_bytes();
    let ghost tb = to.spec_bytes();
    let ghost target = replaced(h, nd, tb, 0, nd.len() == 0, Some(count as nat));
    proof {
        vstd::utf8::encode_utf8_valid_utf8(s@);
        vstd::utf8::is_char_boundary_start_end_of_seq(h);
    }
    let mut result = String::new();
    let mut last_end: usize = 0;
    let mut searcher = StrSearcher::new(s, from);
    let mut k: usize = 0;
    proof {
        searcher.lemma_pending_only_empty();
        assert(encode_utf8(result@) =~= Seq::<u8>::empty());
        assert(encode_utf8(result@) + target =~= target);
    }
    while k < count
        invariant_except_break
            last_end as int == searcher.front(),
            0 <= searcher.front() <= h.len(),
            encode_utf8(result@) + replaced(h, nd, tb, last_end as int, searcher.match_front(), Some((count - k) as nat))
                == target,
        invariant
            searcher.wf(),
            searcher.haystack_bytes() == h,
            searcher.needle_bytes() == nd,
            h == s.spec_bytes(),
            tb == to.spec_bytes(),
            valid_utf8(h),
            k <= count,
            last_end <= h.len(),
            is_char_boundary(h, last_end as int),
        ensures
            is_char_boundary(h, last_end as int),
            last_end <= h.len(),
            encode_utf8(result@) + h.subrange(last_end as int, h.len() as int) == target,
        decreases count - k,
    {
        let ghost lim: Option<nat> = Some((count - k) as nat);
        if !replace_step(s, to, &mut searcher, &mut result, &mut last_end, Ghost(lim)) {
            break;
        }
        proof {
            searcher.lemma_pending_only_empty();
            assert(less(lim) == Some((count - (k + 1)) as nat));
        }
        k = k + 1;
    }
    let tail = str_slice(s, last_end, s.as_bytes().len());
    let ghost r0 = result@;
    result.append(tail);
    proof {
        lemma_encode_concat(r0, tail@);
    }
    result
}

/// `s` written `n` times in a row.
pub open spec fn repeated(s: Seq<char>, n: nat) -> Seq<char>
    decreases n,
{
    if n == 0 {
        seq![]
    } else {
        repeated(s, (n - 1) as nat) + s
    }
}

/// `s` written `n` times in a row. Its length in bytes must fit in
/// `usize`.
pub fn repeat(s: &str, n: usize) -> (r: String)
    requires
        s.spec_bytes().len() * n <= usize::MAX,
    ensures
        r@ == repeated(s@, n as nat),
{
    let mut r = String::new();
    let mut i: usize = 0;
    while i < n
        invariant
            i <= n,
            r@ == repeated(s@, i as nat),
        decreases n - i,
    {
        r.append(s);
        i = i + 1;
    }
    r
}

/// The upper-case letter of an ASCII lower-case one; other characters
/// stay.
pub open spec fn ascii_upper(c: char) -> char {
    if 'a' <= c <= 'z' {
        ((c as u32) - 32) as char
    } else {
        c
    }
}

/// `s` with its ASCII lower-case letters in upper case.
pub fn to_ascii_uppercase(s: &str) -> (r: String)
    ensures
        r@ == s@.map_values(|c: char| ascii_upper(c)),
{
    let cs = chars_of(s);
    let mut r = String::new();
    let mut i: usize = 0;
    while i < cs.len()
        invariant
            i <= cs@.len(),
            cs@ == s@,
            r@ == s@.subrange(0, i as int).map_values(|c: char| ascii_upper(c)),
        decreases cs@.len() - i,
    {
        let c = cs[i];
        let u = if 'a' <= c && c <= 'z' {
            char_from_u32_ascii((c as u32) - 32)
        } else {
            c
        };
        push_char(&mut r, u);
        i = i + 1;
        assert(s@.subrange(0, i as int).map_values(|c: char| ascii_upper(c)) =~= s@.subrange(0, i - 1).map_values(
            |c: char| ascii_upper(c),
        ).push(ascii_upper(c)));
    }
    assert(s@.subrange(0, i as int) =~= s@);
    r
}

/// `s` with its ASCII upper-case letters in lower case.
pub fn to_ascii_lowercase(s: &str) -> (r: String)
    ensures
        r@ == s@.map_values(|c: char| ascii_lower(c)),
{
    let cs = chars_of(s);
    let mut r = String::new();
    let mut i: usize = 0;
    while i < cs.len()
        invariant
            i <= cs@.len(),
            cs@ == s@,
            r@ == s@.subrange(0, i as int).map_values(|c: char| ascii_lower(c)),
        decreases cs@.len() - i,
    {
        let c = cs[i];
        push_char(&mut r, to_ascii_lower(c));
        i = i + 1;
        assert(s@.subrange(0, i as int).map_values(|c: char| ascii_lower(c)) =~= s@.subrange(0, i - 1).map_values(
            |c: char| ascii_lower(c),
        ).push(ascii_lower(c)));
    }
    assert(s@.subrange(0, i as int) =~= s@);
    r
}

/// The parts with `sep` between each two.
pub open spec fn joined(parts: Seq<Seq<char>>, sep: Seq<char>) -> Seq<char>
    decreases parts.len(),
{
    if parts.len() == 0 {
        seq![]
    } else if parts.len() == 1 {
        parts[0]
    } else {
        joined(parts.drop_last(), sep) + sep + parts.last()
    }
}

/// The text of each string.
pub open spec fn texts_of(v: Seq<String>) -> Seq<Seq<char>> {
    v.map_values(|s: String| s@)
}

/// The strings with `sep` between each two. The result's length in bytes
/// must fit in `usize`.
pub fn join(parts: &[String], sep: &str) -> (r: String)
    requires
        encode_utf8(joined(texts_of(parts@), sep@)).len() <= usize::MAX,
    ensures
        r@ == joined(texts_of(parts@), sep@),
{
    let mut r = String::new();
    let mut i: usize = 0;
    while i < parts.len()
        invariant
            i <= parts@.len(),
            r@ == joined(texts_of(parts@).subrange(0, i as int), sep@),
        decreases parts@.len() - i,
    {
        if i > 0 {
            r.append(sep);
        }
        r.append(parts[i].as_str());
        proof {
            let pre = texts_of(parts@).subrange(0, i + 1);
            assert(pre.drop_last() =~= texts_of(parts@).subrange(0, i as int));
            assert(pre.last() == parts@[i as int]@);
            if i == 0 {
                assert(joined(texts_of(parts@).subrange(0, 0), sep@) =~= Seq::<char>::empty());
                assert(r@ =~= pre[0]);
            }
        }
        i = i + 1;
    }
    assert(texts_of(parts@).subrange(0, i as int) =~= texts_of(parts@));
    r
}

/// The strings one after the other. The result's length in bytes must fit
/// in `usize`.
pub fn concat(parts: &[String]) -> (r: String)
    requires
        encode_utf8(joined(texts_of(parts@), Seq::empty())).len() <= usize::MAX,
    ensures
        r@ == joined(texts_of(parts@), Seq::empty()),
{
    proof {
        reveal_strlit("");
        assert(""@ =~= Seq::<char>::empty());
    }
    join(parts, "")
}

} // verus!
