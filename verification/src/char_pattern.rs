//! Searching a string for characters: one given character, or any of a
//! set of characters. The searcher walks the characters of the haystack
//! from either end and reports each one as a match or a rejection, with its
//! byte range.

use vstd::prelude::*;
use vstd::string::StringSliceAdditionalSpecFns;
use vstd::utf8::encode_utf8;
use crate::pattern::SearchStep;
use crate::strings::{chars_of, lemma_encode_concat};

verus! {

/// The characters a searcher looks for.
pub enum CharEq {
    /// This one character.
    Single(char),
    /// Any of these characters.
    AnyOf(Vec<char>),
}

/// Whether `c` is among the characters of `v`.
fn contains_char(v: &Vec<char>, c: char) -> (r: bool)
    ensures
        r == v@.contains(c),
{
    let mut i: usize = 0;
    while i < v.len()
        invariant
            i <= v@.len(),
            forall|j: int| 0 <= j < i ==> v@[j] != c,
        decreases v@.len() - i,
    {
        if v[i] == c {
            assert(v@[i as int] == c);
            return true;
        }
        i = i + 1;
    }
    false
}

/// Whether all characters of `v` are ASCII.
fn all_ascii(v: &Vec<char>) -> (r: bool)
    ensures
        r == forall|j: int| 0 <= j < v@.len() ==> (#[trigger] v@[j] as u32) < 128,
{
    let mut i: usize = 0;
    while i < v.len()
        invariant
            i <= v@.len(),
            forall|j: int| 0 <= j < i ==> (#[trigger] v@[j] as u32) < 128,
        decreases v@.len() - i,
    {
        if (v[i] as u32) >= 128 {
            assert(!((v@[i as int] as u32) < 128));
            return false;
        }
        i = i + 1;
    }
    true
}

impl CharEq {
    /// Whether `c` is one of the characters looked for.
    pub open spec fn spec_matches(&self, c: char) -> bool {
        match self {
            CharEq::Single(x) => *x == c,
            CharEq::AnyOf(v) => v@.contains(c),
        }
    }

    /// Whether `c` is one of the characters looked for.
    pub fn matches(&self, c: char) -> (r: bool)
        ensures
            r == self.spec_matches(c),
    {
        match self {
            CharEq::Single(x) => *x == c,
            CharEq::AnyOf(v) => contains_char(v, c),
        }
    }

    /// Whether only ASCII characters are looked for.
    pub fn only_ascii(&self) -> (r: bool)
        ensures
            r == match self {
                CharEq::Single(x) => (*x as u32) < 128,
                CharEq::AnyOf(v) => forall|j: int| 0 <= j < v@.len() ==> (#[trigger] v@[j] as u32) < 128,
            },
    {
        match self {
            CharEq::Single(x) => (*x as u32) < 128,
            CharEq::AnyOf(v) => all_ascii(v),
        }
    }
}

/// The number of bytes of the UTF-8 encoding of `c`.
pub open spec fn utf8_len(c: char) -> nat {
    if (c as u32) < 0x80 {
        1
    } else if (c as u32) < 0x800 {
        2
    } else if (c as u32) < 0x10000 {
        3
    } else {
        4
    }
}

proof fn lemma_utf8_len(c: char)
    ensures
        encode_utf8(seq![c]).len() == utf8_len(c),
{
    vstd::utf8::char_is_scalar(c);
    assert(seq![c].drop_first() =~= Seq::<char>::empty());
    assert(encode_utf8(seq![c]) == vstd::utf8::encode_scalar(c as u32) + encode_utf8(seq![c].drop_first()));
    assert(encode_utf8(Seq::<char>::empty()) =~= Seq::<u8>::empty());
    let u = c as u32;
    assert(vstd::utf8::is_scalar(u));
    assert(vstd::utf8::encode_scalar(u).len() == utf8_len(c));
}

/// The number of bytes of the UTF-8 encoding of `c`.
fn char_utf8_len(c: char) -> (r: usize)
    ensures
        r == utf8_len(c),
{
    let u = c as u32;
    if u < 0x80 {
        1
    } else if u < 0x800 {
        2
    } else if u < 0x10000 {
        3
    } else {
        4
    }
}

/// Where character `k` of `s` starts in its UTF-8 encoding.
pub open spec fn byte_pos(s: Seq<char>, k: int) -> int {
    encode_utf8(s.subrange(0, k)).len() as int
}

proof fn lemma_byte_pos_step(s: Seq<char>, k: int)
    requires
        0 <= k < s.len(),
    ensures
        byte_pos(s, k + 1) == byte_pos(s, k) + utf8_len(s[k]),
        byte_pos(s, k + 1) <= encode_utf8(s).len(),
{
    assert(s.subrange(0, k + 1) =~= s.subrange(0, k) + seq![s[k]]);
    lemma_encode_concat(s.subrange(0, k), seq![s[k]]);
    lemma_utf8_len(s[k]);
    assert(s =~= s.subrange(0, k + 1) + s.subrange(k + 1, s.len() as int));
    lemma_encode_concat(s.subrange(0, k + 1), s.subrange(k + 1, s.len() as int));
}

/// A searcher for characters in a string: the characters of the haystack
/// between the front cursor and the back cursor (both counted in
/// characters) are still to be visited.
pub struct CharEqSearcher<'a> {
    haystack: &'a str,
    char_eq: CharEq,
    chars: Vec<char>,
    starts: Vec<usize>,
    front: usize,
    back: usize,
}

impl<'a> CharEqSearcher<'a> {
    /// The haystack's characters.
    pub closed spec fn haystack_chars(&self) -> Seq<char> {
        self.haystack@
    }

    /// The characters looked for.
    pub closed spec fn pattern(&self) -> CharEq {
        self.char_eq
    }

    /// The front cursor, in characters.
    pub closed spec fn front(&self) -> int {
        self.front as int
    }

    /// The back cursor, in characters.
    pub closed spec fn back(&self) -> int {
        self.back as int
    }

    /// The state fits the haystack: the byte position of every character
    /// is at hand, and the cursors are in order inside the haystack.
    pub closed spec fn wf(&self) -> bool {
        &&& self.chars@ == self.haystack@
        &&& self.starts@.len() == self.chars@.len() + 1
        &&& forall|k: int| 0 <= k <= self.chars@.len() ==> #[trigger] self.starts@[k] == byte_pos(self.haystack@, k)
        &&& self.front <= self.back <= self.chars@.len()
    }

    /// The cursors lie in order inside the haystack.
    pub proof fn lemma_cursors(&self)
        requires
            self.wf(),
        ensures
            0 <= self.front() <= self.back() <= self.haystack_chars().len(),
    {
    }

    /// A searcher for `char_eq` in `haystack`, with its cursors at both ends.
    pub fn new(haystack: &'a str, char_eq: CharEq) -> (r: CharEqSearcher<'a>)
        ensures
            r.wf(),
            r.haystack_chars() == haystack@,
            r.pattern() == char_eq,
            r.front() == 0,
            r.back() == haystack@.len(),
    {
        let chars = chars_of(haystack);
        let total = haystack.as_bytes().len();
        let mut starts: Vec<usize> = Vec::new();
        let mut pos: usize = 0;
        let mut k: usize = 0;
        assert(haystack@.subrange(0, 0) =~= Seq::<char>::empty());
        while k < chars.len()
            invariant
                k <= chars@.len(),
                chars@ == haystack@,
                total == encode_utf8(haystack@).len(),
                starts@.len() == k,
                pos == byte_pos(haystack@, k as int),
                forall|j: int| 0 <= j < k ==> #[trigger] starts@[j] == byte_pos(haystack@, j),
            decreases chars@.len() - k,
        {
            starts.push(pos);
            proof {
                lemma_byte_pos_step(haystack@, k as int);
            }
            pos = pos + char_utf8_len(chars[k]);
            k = k + 1;
        }
        starts.push(pos);
        CharEqSearcher { haystack, char_eq, chars, starts, front: 0, back: k }
    }

    /// The string searched in.
    pub fn haystack(&self) -> (r: &'a str)
        ensures
            r@ == self.haystack_chars(),
    {
        self.haystack
    }

    /// One step from the front: `Done` once the cursors meet; otherwise the
    /// character at the front cursor, as a match when it is looked for
    /// and as a rejection when not, with its byte range. The front cursor
    /// moves past it.
    pub fn next(&mut self) -> (r: SearchStep)
        requires
            old(self).wf(),
        ensures
            final(self).wf(),
            final(self).haystack_chars() == old(self).haystack_chars(),
            final(self).pattern() == old(self).pattern(),
            final(self).back() == old(self).back(),
            ({
                let h = old(self).haystack_chars();
                let k = old(self).front();
                if k == old(self).back() {
                    r == SearchStep::Done && final(self).front() == k
                } else {
                    &&& final(self).front() == k + 1
                    &&& match r {
                        SearchStep::Match(a, b) => {
                            &&& old(self).pattern().spec_matches(h[k])
                            &&& a == byte_pos(h, k)
                            &&& b == byte_pos(h, k + 1)
                        },
                        SearchStep::Reject(a, b) => {
                            &&& !old(self).pattern().spec_matches(h[k])
                            &&& a == byte_pos(h, k)
                            &&& b == byte_pos(h, k + 1)
                        },
                        SearchStep::Done => false,
                    }
                }
            }),
    {
        if self.front == self.back {
            return SearchStep::Done;
        }
        let k = self.front;
        let c = self.chars[k];
        let a = self.starts[k];
        let b = self.starts[k + 1];
        self.front = k + 1;
        if self.char_eq.matches(c) {
            SearchStep::Match(a, b)
        } else {
            SearchStep::Reject(a, b)
        }
    }

    /// One step from the back, the mirror of `next`: the character before
    /// the back cursor, which moves before it.
    pub fn next_back(&mut self) -> (r: SearchStep)
        requires
            old(self).wf(),
        ensures
            final(self).wf(),
            final(self).haystack_chars() == old(self).haystack_chars(),
            final(self).pattern() == old(self).pattern(),
            final(self).front() == old(self).front(),
            ({
                let h = old(self).haystack_chars();
                let k = old(self).back() - 1;
                if old(self).front() == old(self).back() {
                    r == SearchStep::Done && final(self).back() == old(self).back()
                } else {
                    &&& final(self).back() == k
                    &&& match r {
                        SearchStep::Match(a, b) => {
                            &&& old(self).pattern().spec_matches(h[k])
                            &&& a == byte_pos(h, k)
                            &&& b == byte_pos(h, k + 1)
                        },
                        SearchStep::Reject(a, b) => {
                            &&& !old(self).pattern().spec_matches(h[k])
                            &&& a == byte_pos(h, k)
                            &&& b == byte_pos(h, k + 1)
                        },
                        SearchStep::Done => false,
                    }
                }
            }),
    {
        if self.front == self.back {
            return SearchStep::Done;
        }
        let k = self.back - 1;
        let c = self.chars[k];
        let a = self.starts[k];
        let b = self.starts[k + 1];
        self.back = k;
        if self.char_eq.matches(c) {
            SearchStep::Match(a, b)
        } else {
            SearchStep::Reject(a, b)
        }
    }

    /// The next match from the front: the first looked-for character from
    /// the front cursor on, before the back cursor; the front cursor moves
    /// past it. `None` when there is none, the front cursor then meeting
    /// the back one.
    pub fn next_match(&mut self) -> (r: Option<(usize, usize)>)
        requires
            old(self).wf(),
        ensures
            final(self).wf(),
            final(self).haystack_chars() == old(self).haystack_chars(),
            final(self).pattern() == old(self).pattern(),
            final(self).back() == old(self).back(),
            ({
                let h = old(self).haystack_chars();
                let p = old(self).pattern();
                match r {
                    Some((a, b)) => {
                        let k = final(self).front() - 1;
                        &&& old(self).front() <= k < old(self).back()
                        &&& p.spec_matches(h[k])
                        &&& forall|j: int| old(self).front() <= j < k ==> !#[trigger] p.spec_matches(h[j])
                        &&& a == byte_pos(h, k)
                        &&& b == byte_pos(h, k + 1)
                    },
                    None => {
                        &&& final(self).front() == old(self).back()
                        &&& forall|j: int| old(self).front() <= j < old(self).back() ==> !#[trigger] p.spec_matches(h[j])
                    },
                }
            }),
    {
        loop
            invariant
                self.wf(),
                self.haystack_chars() == old(self).haystack_chars(),
                self.pattern() == old(self).pattern(),
                self.back() == old(self).back(),
                old(self).front() <= self.front() <= self.back(),
                forall|j: int| old(self).front() <= j < self.front() ==> !#[trigger] self.pattern().spec_matches(self.haystack_chars()[j]),
            decreases self.back() - self.front(),
        {
            match self.next() {
                SearchStep::Match(a, b) => return Some((a, b)),
                SearchStep::Reject(..) => {},
                SearchStep::Done => return None,
            }
        }
    }

    /// The next rejected character from the front: the first character
    /// not looked for from the front cursor on, before the back cursor;
    /// the front cursor moves past it. `None` when there is none.
    pub fn next_reject(&mut self) -> (r: Option<(usize, usize)>)
        requires
            old(self).wf(),
        ensures
            final(self).wf(),
            final(self).haystack_chars() == old(self).haystack_chars(),
            final(self).pattern() == old(self).pattern(),
            final(self).back() == old(self).back(),
            ({
                let h = old(self).haystack_chars();
                let p = old(self).pattern();
                match r {
                    Some((a, b)) => {
                        let k = final(self).front() - 1;
                        &&& old(self).front() <= k < old(self).back()
                        &&& !p.spec_matches(h[k])
                        &&& forall|j: int| old(self).front() <= j < k ==> #[trigger] p.spec_matches(h[j])
                        &&& a == byte_pos(h, k)
                        &&& b == byte_pos(h, k + 1)
                    },
                    None => {
                        &&& final(self).front() == old(self).back()
                        &&& forall|j: int| old(self).front() <= j < old(self).back() ==> #[trigger] p.spec_matches(h[j])
                    },
                }
            }),
    {
        loop
            invariant
                self.wf(),
                self.haystack_chars() == old(self).haystack_chars(),
                self.pattern() == old(self).pattern(),
                self.back() == old(self).back(),
                old(self).front() <= self.front() <= self.back(),
                forall|j: int| old(self).front() <= j < self.front() ==> #[trigger] self.pattern().spec_matches(self.haystack_chars()[j]),
            decreases self.back() - self.front(),
        {
            match self.next() {
                SearchStep::Reject(a, b) => return Some((a, b)),
                SearchStep::Match(..) => {},
                SearchStep::Done => return None,
            }
        }
    }

    /// The next match from the back, the mirror of `next_match`: the last
    /// looked-for character before the back cursor, which moves before it.
    pub fn next_match_back(&mut self) -> (r: Option<(usize, usize)>)
        requires
            old(self).wf(),
        ensures
            final(self).wf(),
            final(self).haystack_chars() == old(self).haystack_chars(),
            final(self).pattern() == old(self).pattern(),
            final(self).front() == old(self).front(),
            ({
                let h = old(self).haystack_chars();
                let p = old(self).pattern();
                match r {
                    Some((a, b)) => {
                        let k = final(self).back();
                        &&& old(self).front() <= k < old(self).back()
                        &&& p.spec_matches(h[k])
                        &&& forall|j: int| k < j < old(self).back() ==> !#[trigger] p.spec_matches(h[j])
                        &&& a == byte_pos(h, k)
                        &&& b == byte_pos(h, k + 1)
                    },
                    None => {
                        &&& final(self).back() == old(self).front()
                        &&& forall|j: int| old(self).front() <= j < old(self).back() ==> !#[trigger] p.spec_matches(h[j])
                    },
                }
            }),
    {
        loop
            invariant
                self.wf(),
                self.haystack_chars() == old(self).haystack_chars(),
                self.pattern() == old(self).pattern(),
                self.front() == old(self).front(),
                self.front() <= self.back() <= old(self).back(),
                forall|j: int| self.back() <= j < old(self).back() ==> !#[trigger] self.pattern().spec_matches(self.haystack_chars()[j]),
            decreases self.back() - self.front(),
        {
            match self.next_back() {
                SearchStep::Match(a, b) => return Some((a, b)),
                SearchStep::Reject(..) => {},
                SearchStep::Done => return None,
            }
        }
    }

    /// The next rejected character from the back, the mirror of
    /// `next_reject`.
    pub fn next_reject_back(&mut self) -> (r: Option<(usize, usize)>)
        requires
            old(self).wf(),
        ensures
            final(self).wf(),
            final(self).haystack_chars() == old(self).haystack_chars(),
            final(self).pattern() == old(self).pattern(),
            final(self).front() == old(self).front(),
            ({
                let h = old(self).haystack_chars();
                let p = old(self).pattern();
                match r {
                    Some((a, b)) => {
                        let k = final(self).back();
                        &&& old(self).front() <= k < old(self).back()
                        &&& !p.spec_matches(h[k])
                        &&& forall|j: int| k < j < old(self).back() ==> #[trigger] p.spec_matches(h[j])
                        &&& a == byte_pos(h, k)
                        &&& b == byte_pos(h, k + 1)
                    },
                    None => {
                        &&& final(self).back() == old(self).front()
                        &&& forall|j: int| old(self).front() <= j < old(self).back() ==> #[trigger] p.spec_matches(h[j])
                    },
                }
            }),
    {
        loop
            invariant
                self.wf(),
                self.haystack_chars() == old(self).haystack_chars(),
                self.pattern() == old(self).pattern(),
                self.front() == old(self).front(),
                self.front() <= self.back() <= old(self).back(),
                forall|j: int| self.back() <= j < old(self).back() ==> #[trigger] self.pattern().spec_matches(self.haystack_chars()[j]),
            decreases self.back() - self.front(),
        {
            match self.next_back() {
                SearchStep::Reject(a, b) => return Some((a, b)),
                SearchStep::Match(..) => {},
                SearchStep::Done => return None,
            }
        }
    }
}

impl CharEq {
    /// Whether a looked-for character occurs in `haystack`.
    pub fn is_contained_in(self, haystack: &str) -> (r: bool)
        ensures
            r == exists|k: int| 0 <= k < haystack@.len() && #[trigger] self.spec_matches(haystack@[k]),
    {
        let ghost p = self;
        let mut s = CharEqSearcher::new(haystack, self);
        match s.next_match() {
            Some(_) => {
                assert(p.spec_matches(haystack@[s.front() - 1]));
                true
            },
            None => false,
        }
    }

    /// Whether `haystack` starts with a looked-for character.
    pub fn is_prefix_of(self, haystack: &str) -> (r: bool)
        ensures
            r == (haystack@.len() > 0 && self.spec_matches(haystack@[0])),
    {
        let mut s = CharEqSearcher::new(haystack, self);
        proof {
            assert(haystack@.subrange(0, 0) =~= Seq::<char>::empty());
        }
        match s.next() {
            SearchStep::Match(a, _) => a == 0,
            _ => false,
        }
    }

    /// Whether `haystack` ends with a looked-for character.
    pub fn is_suffix_of(self, haystack: &str) -> (r: bool)
        ensures
            r == (haystack@.len() > 0 && self.spec_matches(haystack@[haystack@.len() - 1])),
    {
        let hl = haystack.as_bytes().len();
        let mut s = CharEqSearcher::new(haystack, self);
        proof {
            assert(haystack@.subrange(0, haystack@.len() as int) =~= haystack@);
        }
        match s.next_back() {
            SearchStep::Match(_, b) => b == hl,
            _ => false,
        }
    }
}

} // verus!
