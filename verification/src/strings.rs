//! Small string helpers over the character view of `str` and `String`.

use vstd::prelude::*;
use vstd::utf8::{encode_utf8, is_char_boundary, valid_utf8};
use vstd::string::StringSliceAdditionalSpecFns;

verus! {

/// `str::chars` collected into a vector: the characters of `s` in order.
#[verifier::external_body]
pub(crate) fn chars_of(s: &str) -> (r: Vec<char>)
    ensures
        r@ == s@,
{
    s.chars().collect()
}

/// `String::push`: appends one character.
#[verifier::external_body]
pub(crate) fn push_char(s: &mut String, c: char)
    ensures
        final(s)@ == old(s)@.push(c),
{
    s.push(c)
}

/// A string with the given characters.
pub(crate) fn string_of(cs: &Vec<char>) -> (r: String)
    ensures
        r@ == cs@,
{
    let mut r = String::new();
    let mut i: usize = 0;
    while i < cs.len()
        invariant
            0 <= i <= cs@.len(),
            r@ == cs@.subrange(0, i as int),
        decreases cs@.len() - i,
    {
        push_char(&mut r, cs[i]);
        i = i + 1;
        assert(r@ =~= cs@.subrange(0, i as int));
    }
    assert(cs@.subrange(0, cs@.len() as int) =~= cs@);
    r
}

/// Whether two character sequences are equal.
pub(crate) fn chars_eq(a: &Vec<char>, b: &Vec<char>) -> (r: bool)
    ensures
        r == (a@ == b@),
{
    if a.len() != b.len() {
        return false;
    }
    let mut i: usize = 0;
    while i < a.len()
        invariant
            0 <= i <= a@.len(),
            a@.len() == b@.len(),
            forall|j: int| 0 <= j < i ==> a@[j] == b@[j],
        decreases a@.len() - i,
    {
        if a[i] != b[i] {
            return false;
        }
        i = i + 1;
    }
    assert(a@ =~= b@);
    true
}

/// Whether `s` equals `t`.
pub(crate) fn str_eq(s: &str, t: &str) -> (r: bool)
    ensures
        r == (s@ == t@),
{
    let a = chars_of(s);
    let b = chars_of(t);
    chars_eq(&a, &b)
}

/// Whether `prefix` is a prefix of `s`.
pub(crate) fn starts_with(s: &str, prefix: &str) -> (r: bool)
    ensures
        r == (prefix@.len() <= s@.len() && s@.subrange(0, prefix@.len() as int) == prefix@),
{
    let a = chars_of(s);
    let p = chars_of(prefix);
    if p.len() > a.len() {
        return false;
    }
    let mut i: usize = 0;
    while i < p.len()
        invariant
            0 <= i <= p@.len(),
            p@.len() <= a@.len(),
            a@ == s@,
            p@ == prefix@,
            forall|j: int| 0 <= j < i ==> a@[j] == p@[j],
        decreases p@.len() - i,
    {
        if a[i] != p[i] {
            assert(a@[i as int] != p@[i as int]);
            assert(s@[i as int] != prefix@[i as int]);
            proof {
                if s@.subrange(0, prefix@.len() as int) == prefix@ {
                    assert(s@.subrange(0, prefix@.len() as int)[i as int] == prefix@[i as int]);
                }
            }
            return false;
        }
        i = i + 1;
    }
    assert(a@.subrange(0, p@.len() as int) =~= p@);
    true
}

/// The Unicode `White_Space` property, which `char::is_whitespace` tests.
pub open spec fn is_white_space(c: char) -> bool {
    let u = c as u32;
    ||| 0x9 <= u <= 0xd
    ||| u == 0x20
    ||| u == 0x85
    ||| u == 0xa0
    ||| u == 0x1680
    ||| 0x2000 <= u <= 0x200a
    ||| u == 0x2028
    ||| u == 0x2029
    ||| u == 0x202f
    ||| u == 0x205f
    ||| u == 0x3000
}

/// Whether `c` has the Unicode `White_Space` property.
pub(crate) fn char_is_whitespace(c: char) -> (r: bool)
    ensures
        r == is_white_space(c),
{
    let u = c as u32;
    (0x9 <= u && u <= 0xd) || u == 0x20 || u == 0x85 || u == 0xa0 || u == 0x1680 || (0x2000 <= u && u
        <= 0x200a) || u == 0x2028 || u == 0x2029 || u == 0x202f || u == 0x205f || u == 0x3000
}

/// `s` without its leading white space (`str::trim_start`).
pub open spec fn trim_start_ws(s: Seq<char>) -> Seq<char>
    decreases s.len(),
{
    if s.len() > 0 && is_white_space(s[0]) {
        trim_start_ws(s.drop_first())
    } else {
        s
    }
}

/// `s` without its trailing white space (`str::trim_end`).
pub open spec fn trim_end_ws(s: Seq<char>) -> Seq<char>
    decreases s.len(),
{
    if s.len() > 0 && is_white_space(s.last()) {
        trim_end_ws(s.drop_last())
    } else {
        s
    }
}

/// `s` without white space at either end (`str::trim`).
pub open spec fn trim_ws(s: Seq<char>) -> Seq<char> {
    trim_end_ws(trim_start_ws(s))
}

/// Whether `p` is a prefix of `s`.
pub open spec fn has_prefix(s: Seq<char>, p: Seq<char>) -> bool {
    p.len() <= s.len() && s.subrange(0, p.len() as int) == p
}

/// Whether `p` occurs in `s` (`str::contains` with a string pattern).
pub open spec fn occurs_in(s: Seq<char>, p: Seq<char>) -> bool {
    exists|k: int| 0 <= k && k + p.len() <= s.len() && #[trigger] s.subrange(k, k + p.len()) == p
}

/// The ASCII lower case of one character (`char::to_ascii_lowercase`).
pub open spec fn ascii_lower(c: char) -> char {
    if 'A' <= c <= 'Z' {
        ((c as u32) + 32) as char
    } else {
        c
    }
}

/// Equality up to ASCII case (`str::eq_ignore_ascii_case`).
pub open spec fn eq_ignore_ascii_case(a: Seq<char>, b: Seq<char>) -> bool {
    a.len() == b.len() && forall|i: int| 0 <= i < a.len() ==> ascii_lower(a[i]) == ascii_lower(b[i])
}

/// Index of the first `c` in `s`, or the length of `s`.
pub open spec fn first_of(s: Seq<char>, c: char) -> nat
    decreases s.len(),
{
    if s.len() == 0 {
        0
    } else if s[0] == c {
        0
    } else {
        1 + first_of(s.drop_first(), c)
    }
}

/// One line as `str::lines` gives it: without its `'\r'` when a `"\r\n"`
/// ended it.
pub open spec fn line_without_cr(line: Seq<char>, ended: bool) -> Seq<char> {
    if ended && line.len() > 0 && line.last() == '\r' {
        line.drop_last()
    } else {
        line
    }
}

/// The lines of `s` as `str::lines` splits it: at each `'\n'`, with a
/// final line ending optional.
pub open spec fn lines_of(s: Seq<char>) -> Seq<Seq<char>>
    decreases s.len(),
{
    if s.len() == 0 {
        seq![]
    } else {
        let k = first_of(s, '\n') as int;
        if k >= s.len() {
            seq![s]
        } else {
            seq![line_without_cr(s.subrange(0, k), true)] + lines_of(s.subrange(k + 1, s.len() as int))
        }
    }
}

/// `first_of` is the position found by a scan that stops at `c` or at the end.
pub proof fn lemma_first_of_at(s: Seq<char>, c: char, k: int)
    requires
        0 <= k <= s.len(),
        k < s.len() ==> s[k] == c,
        forall|j: int| 0 <= j < k ==> s[j] != c,
    ensures
        first_of(s, c) == k,
    decreases s.len(),
{
    if s.len() > 0 && k > 0 {
        lemma_first_of_at(s.drop_first(), c, k - 1);
    }
}

/// The characters of `s` from `lo` up to `hi`.
pub(crate) fn chars_range(s: &Vec<char>, lo: usize, hi: usize) -> (r: Vec<char>)
    requires
        lo <= hi <= s@.len(),
    ensures
        r@ == s@.subrange(lo as int, hi as int),
{
    let mut r: Vec<char> = Vec::new();
    let mut i: usize = lo;
    while i < hi
        invariant
            lo <= i <= hi <= s@.len(),
            r@ == s@.subrange(lo as int, i as int),
        decreases hi - i,
    {
        r.push(s[i]);
        i = i + 1;
        assert(r@ =~= s@.subrange(lo as int, i as int));
    }
    r
}

/// The lines of `s` (`str::lines`).
pub(crate) fn split_lines(s: &str) -> (r: Vec<Vec<char>>)
    ensures
        r@.map_values(|l: Vec<char>| l@) == lines_of(s@),
{
    let cs = chars_of(s);
    let n = cs.len();
    let mut r: Vec<Vec<char>> = Vec::new();
    let mut start: usize = 0;
    assert(cs@.subrange(0, n as int) =~= cs@);
    assert(r@.map_values(|l: Vec<char>| l@) =~= Seq::<Seq<char>>::empty());
    assert(Seq::<Seq<char>>::empty() + lines_of(s@) =~= lines_of(s@));
    while start < n
        invariant
            cs@ == s@,
            n == cs@.len(),
            start <= n,
            r@.map_values(|l: Vec<char>| l@) + lines_of(cs@.subrange(start as int, n as int))
                == lines_of(s@),
        decreases n - start,
    {
        let ghost rest = cs@.subrange(start as int, n as int);
        let mut k: usize = start;
        while k < n && cs[k] != '\n'
            invariant
                start <= k <= n,
                n == cs@.len(),
                forall|j: int| start <= j < k ==> cs@[j] != '\n',
            decreases n - k,
        {
            k = k + 1;
        }
        proof {
            assert forall|j: int| 0 <= j < k - start implies rest[j] != '\n' by {
                assert(rest[j] == cs@[start + j]);
            }
            if k < n {
                assert(rest[k - start] == cs@[k as int]);
            }
            lemma_first_of_at(rest, '\n', k - start);
        }
        let ghost before = r@.map_values(|l: Vec<char>| l@);
        if k >= n {
            let line = chars_range(&cs, start, n);
            r.push(line);
            proof {
                assert(rest.subrange(0, k - start) =~= rest);
                assert(r@.map_values(|l: Vec<char>| l@) =~= before.push(rest));
                assert(lines_of(rest) == seq![rest]);
                assert(cs@.subrange(n as int, n as int) =~= Seq::<char>::empty());
                assert(lines_of(cs@.subrange(n as int, n as int)) =~= Seq::<Seq<char>>::empty());
                assert(before.push(rest) + Seq::<Seq<char>>::empty() =~= before + seq![rest]);
            }
            start = n;
        } else {
            let mut end: usize = k;
            if end > start && cs[end - 1] == '\r' {
                end = end - 1;
            }
            let line = chars_range(&cs, start, end);
            r.push(line);
            proof {
                let full = rest.subrange(0, k - start);
                assert(full =~= cs@.subrange(start as int, k as int));
                if k > start && cs@[k - 1] == '\r' {
                    assert(full.last() == '\r');
                    assert(full.drop_last() =~= cs@.subrange(start as int, end as int));
                }
                assert(line_without_cr(full, true) == cs@.subrange(start as int, end as int));
                assert(rest.subrange(k - start + 1, rest.len() as int) =~= cs@.subrange(k + 1, n as int));
                assert(lines_of(rest) == seq![line_without_cr(full, true)] + lines_of(cs@.subrange(k + 1, n as int)));
                assert(r@.map_values(|l: Vec<char>| l@) =~= before.push(cs@.subrange(start as int, end as int)));
                assert(before + lines_of(rest) =~= before.push(cs@.subrange(start as int, end as int)) + lines_of(cs@.subrange(k + 1, n as int)));
            }
            start = k + 1;
        }
    }
    proof {
        assert(cs@.subrange(n as int, n as int) =~= Seq::<char>::empty());
        assert(r@.map_values(|l: Vec<char>| l@) + Seq::<Seq<char>>::empty() =~= r@.map_values(|l: Vec<char>| l@));
    }
    r
}

/// Index of the first character of `s` that is not white space.
pub(crate) fn trim_start_index(s: &Vec<char>) -> (r: usize)
    ensures
        r <= s@.len(),
        trim_start_ws(s@) == s@.subrange(r as int, s@.len() as int),
{
    let n = s.len();
    let mut i: usize = 0;
    assert(s@.subrange(0, n as int) =~= s@);
    while i < n && char_is_whitespace(s[i])
        invariant
            i <= n,
            n == s@.len(),
            trim_start_ws(s@) == trim_start_ws(s@.subrange(i as int, n as int)),
        decreases n - i,
    {
        let ghost sub = s@.subrange(i as int, n as int);
        assert(sub.drop_first() =~= s@.subrange(i + 1, n as int));
        i = i + 1;
    }
    proof {
        let sub = s@.subrange(i as int, n as int);
        if i < n {
            assert(sub[0] == s@[i as int]);
        }
    }
    i
}

/// Index just past the last character of `s[..hi]` that is not white space.
pub(crate) fn trim_end_index(s: &Vec<char>, lo: usize, hi: usize) -> (r: usize)
    requires
        lo <= hi <= s@.len(),
    ensures
        lo <= r <= hi,
        trim_end_ws(s@.subrange(lo as int, hi as int)) == s@.subrange(lo as int, r as int),
{
    let mut j: usize = hi;
    while j > lo && char_is_whitespace(s[j - 1])
        invariant
            lo <= j <= hi <= s@.len(),
            trim_end_ws(s@.subrange(lo as int, hi as int)) == trim_end_ws(s@.subrange(lo as int, j as int)),
        decreases j - lo,
    {
        let ghost sub = s@.subrange(lo as int, j as int);
        assert(sub.last() == s@[j - 1]);
        assert(sub.drop_last() =~= s@.subrange(lo as int, j - 1));
        j = j - 1;
    }
    proof {
        let sub = s@.subrange(lo as int, j as int);
        if j > lo {
            assert(sub.last() == s@[j - 1]);
        }
    }
    j
}

/// Whether `s[lo..]` begins with `p`.
pub(crate) fn has_prefix_at(s: &Vec<char>, lo: usize, p: &Vec<char>) -> (r: bool)
    requires
        lo <= s@.len(),
    ensures
        r == has_prefix(s@.subrange(lo as int, s@.len() as int), p@),
{
    let ghost t = s@.subrange(lo as int, s@.len() as int);
    let n = s.len();
    if p.len() > n - lo {
        return false;
    }
    let mut i: usize = 0;
    while i < p.len()
        invariant
            i <= p@.len(),
            n == s@.len(),
            lo + p@.len() <= s@.len(),
            t == s@.subrange(lo as int, s@.len() as int),
            forall|j: int| 0 <= j < i ==> s@[lo + j] == p@[j],
        decreases p@.len() - i,
    {
        if s[lo + i] != p[i] {
            proof {
                if has_prefix(t, p@) {
                    assert(t.subrange(0, p@.len() as int)[i as int] == p@[i as int]);
                }
            }
            return false;
        }
        i = i + 1;
    }
    assert(t.subrange(0, p@.len() as int) =~= p@);
    true
}

/// Whether `s[lo..hi]` equals `p`.
pub(crate) fn range_eq(s: &Vec<char>, lo: usize, hi: usize, p: &Vec<char>) -> (r: bool)
    requires
        lo <= hi <= s@.len(),
    ensures
        r == (s@.subrange(lo as int, hi as int) == p@),
{
    if hi - lo != p.len() {
        return false;
    }
    let mut i: usize = 0;
    while i < p.len()
        invariant
            i <= p@.len(),
            lo <= hi,
            hi - lo == p@.len(),
            hi <= s@.len(),
            forall|j: int| 0 <= j < i ==> s@[lo + j] == p@[j],
        decreases p@.len() - i,
    {
        if s[lo + i] != p[i] {
            proof {
                if s@.subrange(lo as int, hi as int) == p@ {
                    assert(s@.subrange(lo as int, hi as int)[i as int] == p@[i as int]);
                }
            }
            return false;
        }
        i = i + 1;
    }
    assert(s@.subrange(lo as int, hi as int) =~= p@);
    true
}

/// Whether `p` occurs anywhere in `s`.
pub(crate) fn contains_chars(s: &Vec<char>, p: &Vec<char>) -> (r: bool)
    ensures
        r == occurs_in(s@, p@),
{
    if p.len() > s.len() {
        return false;
    }
    let n = s.len();
    let last = n - p.len();
    let mut k: usize = 0;
    loop
        invariant
            n == s@.len(),
            last + p@.len() == s@.len(),
            k <= last,
            forall|m: int| 0 <= m < k ==> #[trigger] s@.subrange(m, m + p@.len()) != p@,
        ensures
            forall|m: int| 0 <= m <= last ==> #[trigger] s@.subrange(m, m + p@.len()) != p@,
        decreases last - k,
    {
        if range_eq(s, k, k + p.len(), p) {
            return true;
        }
        if k == last {
            break;
        }
        k = k + 1;
    }
    proof {
        if occurs_in(s@, p@) {
            let m = choose|m: int| 0 <= m && m + p@.len() <= s@.len() && #[trigger] s@.subrange(m, m + p@.len()) == p@;
            assert(s@.subrange(m, m + p@.len()) != p@);
        }
    }
    false
}

/// `char::to_ascii_lowercase`.
pub(crate) fn to_ascii_lower(c: char) -> (r: char)
    ensures
        r == ascii_lower(c),
{
    if 'A' <= c && c <= 'Z' {
        let u = (c as u32) + 32;
        proof {
            assert(u < 0xd800);
        }
        char_from_u32_ascii(u)
    } else {
        c
    }
}

/// The character with an ASCII code.
pub(crate) fn char_from_u32_ascii(u: u32) -> (r: char)
    requires
        u < 0x80,
    ensures
        r == u as char,
{
    (u as u8) as char
}

/// Whether `s[lo..hi]` equals `p` up to ASCII case.
pub(crate) fn range_eq_ignore_ascii_case(s: &Vec<char>, lo: usize, hi: usize, p: &Vec<char>) -> (r: bool)
    requires
        lo <= hi <= s@.len(),
    ensures
        r == eq_ignore_ascii_case(s@.subrange(lo as int, hi as int), p@),
{
    let ghost t = s@.subrange(lo as int, hi as int);
    if hi - lo != p.len() {
        return false;
    }
    let mut i: usize = 0;
    while i < p.len()
        invariant
            i <= p@.len(),
            lo <= hi,
            hi - lo == p@.len(),
            hi <= s@.len(),
            t == s@.subrange(lo as int, hi as int),
            forall|j: int| 0 <= j < i ==> ascii_lower(t[j]) == ascii_lower(p@[j]),
        decreases p@.len() - i,
    {
        if to_ascii_lower(s[lo + i]) != to_ascii_lower(p[i]) {
            assert(t[i as int] == s@[lo + i]);
            return false;
        }
        assert(t[i as int] == s@[lo + i]);
        i = i + 1;
    }
    true
}

/// The encoding of joined characters is the joined encodings.
pub proof fn lemma_encode_concat(a: Seq<char>, b: Seq<char>)
    ensures
        encode_utf8(a + b) == encode_utf8(a) + encode_utf8(b),
    decreases a.len(),
{
    if a.len() == 0 {
        assert(a + b =~= b);
        assert(encode_utf8(a) =~= Seq::<u8>::empty());
        assert(Seq::<u8>::empty() + encode_utf8(b) =~= encode_utf8(b));
    } else {
        lemma_encode_concat(a.drop_first(), b);
        assert((a + b).drop_first() =~= a.drop_first() + b);
        assert((a + b)[0] == a[0]);
        let e0 = vstd::utf8::encode_scalar(a[0] as u32);
        assert(e0 + (encode_utf8(a.drop_first()) + encode_utf8(b)) =~= (e0 + encode_utf8(a.drop_first())) + encode_utf8(b));
    }
}

/// A character boundary at or after `a` is one of the bytes from `a` on.
pub proof fn lemma_boundary_in_suffix(h: Seq<u8>, a: int, b: int)
    requires
        valid_utf8(h),
        0 <= a <= b <= h.len(),
        is_char_boundary(h, a),
        is_char_boundary(h, b),
    ensures
        valid_utf8(h.subrange(a, h.len() as int)),
        is_char_boundary(h.subrange(a, h.len() as int), b - a),
{
    let t = h.subrange(a, h.len() as int);
    vstd::utf8::valid_utf8_split(h, a);
    if b == h.len() {
        vstd::utf8::is_char_boundary_start_end_of_seq(t);
    } else {
        vstd::utf8::is_char_boundary_iff_not_is_continuation_byte(h, b);
        vstd::utf8::is_char_boundary_iff_not_is_continuation_byte(t, b - a);
        assert(t[b - a] == h[b]);
    }
}

/// The bytes of `s` from `lo` up to `hi`, both character boundaries, as a
/// string.
pub(crate) fn str_slice(s: &str, lo: usize, hi: usize) -> (r: &str)
    requires
        lo <= hi <= s.spec_bytes().len(),
        is_char_boundary(s.spec_bytes(), lo as int),
        is_char_boundary(s.spec_bytes(), hi as int),
    ensures
        r.spec_bytes() == s.spec_bytes().subrange(lo as int, hi as int),
{
    proof {
        vstd::utf8::encode_utf8_valid_utf8(s@);
        lemma_boundary_in_suffix(s.spec_bytes(), lo as int, hi as int);
    }
    let (_, rest) = s.split_at(lo);
    let (piece, _) = rest.split_at(hi - lo);
    assert(piece.spec_bytes() =~= s.spec_bytes().subrange(lo as int, hi as int));
    piece
}

} // verus!
