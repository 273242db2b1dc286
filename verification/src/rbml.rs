//! Tags and variable-length unsigned integers of the RBML metadata format,
//! and the encoder that writes tagged data into a cursor over a byte
//! vector, filling in each tag's size when the tag ends.
//!
//! A tag below 0xf0 takes one byte; a tag in 0x100..0x1000 takes two, the
//! first marked with 0xf0. An unsigned integer takes one to four bytes; the
//! first byte holds a marker bit (0x80, 0x40, 0x20 or 0x10) that gives the
//! length, and the rest of the bits are big-endian.

use vstd::prelude::*;
use vstd::string::StringSliceAdditionalSpecFns;

verus! {

/// Tags below this bound can be written.
pub const NUM_TAGS: usize = 0x1000;

/// Why a value could not be encoded.
#[derive(Clone, Copy, Debug, PartialEq, Eq)]
pub enum RbmlError {
    /// The tag is in 0xf0..0x100 or at least `NUM_TAGS`.
    InvalidTag(usize),
    /// The integer does not fit the requested (or any) encoded size.
    TooBig(usize),
}

/// The bytes of tag `n`, if it has an encoding.
pub open spec fn tag_bytes(n: usize) -> Option<Seq<u8>> {
    if n < 0xf0 {
        Some(seq![n as u8])
    } else if 0x100 <= n && n < NUM_TAGS {
        Some(seq![0xf0u8 | (n >> 8usize) as u8, n as u8])
    } else {
        None
    }
}

/// The bytes of `n` written in `size` bytes, if `size` is 1 to 4. The
/// bits of `n` above the encoded width are cut off.
pub open spec fn sized_vuint_bytes(n: usize, size: usize) -> Option<Seq<u8>> {
    if size == 1 {
        Some(seq![0x80u8 | (n as u8)])
    } else if size == 2 {
        Some(seq![0x40u8 | ((n >> 8usize) as u8), n as u8])
    } else if size == 3 {
        Some(seq![0x20u8 | ((n >> 16usize) as u8), (n >> 8usize) as u8, n as u8])
    } else if size == 4 {
        Some(
            seq![
                0x10u8 | ((n >> 24usize) as u8),
                (n >> 16usize) as u8,
                (n >> 8usize) as u8,
                n as u8,
            ],
        )
    } else {
        None
    }
}

/// The size of the shortest encoding of `n`, if `n` has one.
pub open spec fn vuint_size(n: usize) -> Option<usize> {
    if n < 0x7f {
        Some(1)
    } else if n < 0x4000 {
        Some(2)
    } else if n < 0x200000 {
        Some(3)
    } else if n < 0x10000000 {
        Some(4)
    } else {
        None
    }
}

/// The shortest encoding of `n`, if it has one.
pub open spec fn vuint_bytes(n: usize) -> Option<Seq<u8>> {
    match vuint_size(n) {
        Some(size) => sized_vuint_bytes(n, size),
        None => None,
    }
}

/// Reads back an encoded unsigned integer from its bytes: the marker bit
/// of the first byte gives the length.
pub open spec fn vuint_value(b: Seq<u8>) -> int {
    if b[0] & 0x80u8 != 0 {
        (b[0] & 0x7fu8) as int
    } else if b[0] & 0x40u8 != 0 {
        (b[0] & 0x3fu8) as int * 0x100 + b[1] as int
    } else if b[0] & 0x20u8 != 0 {
        (b[0] & 0x1fu8) as int * 0x10000 + b[1] as int * 0x100 + b[2] as int
    } else {
        (b[0] & 0x0fu8) as int * 0x1000000 + b[1] as int * 0x10000 + b[2] as int * 0x100
            + b[3] as int
    }
}

fn push_bytes(w: &mut Vec<u8>, bytes: &[u8])
    ensures
        final(w)@ == old(w)@ + bytes@,
{
    let mut i: usize = 0;
    while i < bytes.len()
        invariant
            0 <= i <= bytes@.len(),
            w@ == old(w)@ + bytes@.subrange(0, i as int),
        decreases bytes@.len() - i,
    {
        w.push(bytes[i]);
        i = i + 1;
        assert(bytes@.subrange(0, i as int) =~= bytes@.subrange(0, i - 1) + seq![bytes@[i - 1]]);
    }
    assert(bytes@.subrange(0, bytes@.len() as int) =~= bytes@);
}

/// Appends the encoding of tag `n` to `w`.
pub fn write_tag(w: &mut Vec<u8>, n: usize) -> (r: Result<(), RbmlError>)
    ensures
        match tag_bytes(n) {
            Some(bytes) => r == Ok::<(), RbmlError>(()) && final(w)@ == old(w)@ + bytes,
            None => r == Err::<(), RbmlError>(RbmlError::InvalidTag(n)) && final(w)@ == old(w)@,
        },
{
    if n < 0xf0 {
        let b = [n as u8];
        assert(b@ =~= seq![n as u8]);
        push_bytes(w, b.as_slice());
        Ok(())
    } else if 0x100 <= n && n < NUM_TAGS {
        let b = [0xf0u8 | (n >> 8usize) as u8, n as u8];
        assert(b@ =~= seq![0xf0u8 | (n >> 8usize) as u8, n as u8]);
        push_bytes(w, b.as_slice());
        Ok(())
    } else {
        Err(RbmlError::InvalidTag(n))
    }
}

/// Appends `n` encoded in `size` bytes to `w`; only sizes 1 to 4 exist.
pub fn write_sized_vuint(w: &mut Vec<u8>, n: usize, size: usize) -> (r: Result<(), RbmlError>)
    ensures
        match sized_vuint_bytes(n, size) {
            Some(bytes) => r == Ok::<(), RbmlError>(()) && final(w)@ == old(w)@ + bytes,
            None => r == Err::<(), RbmlError>(RbmlError::TooBig(n)) && final(w)@ == old(w)@,
        },
{
    if size == 1 {
        let b = [0x80u8 | (n as u8)];
        assert(b@ =~= seq![0x80u8 | (n as u8)]);
        push_bytes(w, b.as_slice());
        Ok(())
    } else if size == 2 {
        let b = [0x40u8 | ((n >> 8usize) as u8), n as u8];
        assert(b@ =~= seq![0x40u8 | ((n >> 8usize) as u8), n as u8]);
        push_bytes(w, b.as_slice());
        Ok(())
    } else if size == 3 {
        let b = [0x20u8 | ((n >> 16usize) as u8), (n >> 8usize) as u8, n as u8];
        assert(b@ =~= seq![0x20u8 | ((n >> 16usize) as u8), (n >> 8usize) as u8, n as u8]);
        push_bytes(w, b.as_slice());
        Ok(())
    } else if size == 4 {
        let b = [0x10u8 | ((n >> 24usize) as u8), (n >> 16usize) as u8, (n >> 8usize) as u8, n as u8];
        assert(b@ =~= seq![
            0x10u8 | ((n >> 24usize) as u8),
            (n >> 16usize) as u8,
            (n >> 8usize) as u8,
            n as u8,
        ]);
        push_bytes(w, b.as_slice());
        Ok(())
    } else {
        Err(RbmlError::TooBig(n))
    }
}

/// Appends the shortest encoding of `n` to `w`; `n` must be below
/// 0x10000000.
pub fn write_vuint(w: &mut Vec<u8>, n: usize) -> (r: Result<(), RbmlError>)
    ensures
        match vuint_bytes(n) {
            Some(bytes) => r == Ok::<(), RbmlError>(()) && final(w)@ == old(w)@ + bytes,
            None => r == Err::<(), RbmlError>(RbmlError::TooBig(n)) && final(w)@ == old(w)@,
        },
        r is Ok <==> n < 0x10000000,
{
    if n < 0x7f {
        return write_sized_vuint(w, n, 1);
    }
    if n < 0x4000 {
        return write_sized_vuint(w, n, 2);
    }
    if n < 0x200000 {
        return write_sized_vuint(w, n, 3);
    }
    if n < 0x10000000 {
        return write_sized_vuint(w, n, 4);
    }
    Err(RbmlError::TooBig(n))
}

/// Reading back the shortest encoding of `n` gives `n`.
pub proof fn lemma_vuint_roundtrip(n: usize)
    requires
        n < 0x10000000,
    ensures
        vuint_bytes(n) is Some,
        vuint_value(vuint_bytes(n).unwrap()) == n,
{
    let b = vuint_bytes(n).unwrap();
    if n < 0x7f {
        assert((0x80u8 | (n as u8)) & 0x80u8 != 0 && ((0x80u8 | (n as u8)) & 0x7fu8) as int == n)
            by (bit_vector)
            requires
                n < 0x7f,
        ;
    } else if n < 0x4000 {
        assert({
            let b0 = 0x40u8 | ((n >> 8usize) as u8);
            &&& b0 & 0x80u8 == 0
            &&& b0 & 0x40u8 != 0
            &&& (b0 & 0x3fu8) as int * 0x100 + (n as u8) as int == n
        }) by (bit_vector)
            requires
                0x7f <= n < 0x4000,
        ;
    } else if n < 0x200000 {
        assert({
            let b0 = 0x20u8 | ((n >> 16usize) as u8);
            &&& b0 & 0x80u8 == 0
            &&& b0 & 0x40u8 == 0
            &&& b0 & 0x20u8 != 0
            &&& (b0 & 0x1fu8) as int * 0x10000 + ((n >> 8usize) as u8) as int * 0x100 + (
            n as u8) as int == n
        }) by (bit_vector)
            requires
                0x4000 <= n < 0x200000,
        ;
    } else {
        assert({
            let b0 = 0x10u8 | ((n >> 24usize) as u8);
            &&& b0 & 0x80u8 == 0
            &&& b0 & 0x40u8 == 0
            &&& b0 & 0x20u8 == 0
            &&& (b0 & 0x0fu8) as int * 0x1000000 + ((n >> 16usize) as u8) as int * 0x10000 + ((n
                >> 8usize) as u8) as int * 0x100 + (n as u8) as int == n
        }) by (bit_vector)
            requires
                0x200000 <= n < 0x10000000,
        ;
    }
}

// ---------------------------------------------------------------------
// The encoder
// ---------------------------------------------------------------------

/// Where the metadata proper starts in the encoded output.
pub const METADATA_START: usize = 16;

/// The largest tag whose size is moved into a shorter encoding when the
/// tag ends.
pub const RELAX_MAX_SIZE: usize = 0x100;

/// `buf` after writing `bytes` at `pos`, as a cursor over a vector writes:
/// over what is there, and past the end.
pub open spec fn overwrite(buf: Seq<u8>, pos: int, bytes: Seq<u8>) -> Seq<u8> {
    if pos + bytes.len() <= buf.len() {
        buf.subrange(0, pos) + bytes + buf.subrange(pos + bytes.len(), buf.len() as int)
    } else {
        buf.subrange(0, pos) + bytes
    }
}

/// The big-endian bytes of `v`.
pub open spec fn be_bytes(v: u64) -> Seq<u8> {
    seq![
        (v >> 56u64) as u8,
        (v >> 48u64) as u8,
        (v >> 40u64) as u8,
        (v >> 32u64) as u8,
        (v >> 24u64) as u8,
        (v >> 16u64) as u8,
        (v >> 8u64) as u8,
        v as u8,
    ]
}

/// How many bytes a sequence starts with that are zero.
pub open spec fn leading_zero_bytes(b: Seq<u8>) -> nat
    decreases b.len(),
{
    if b.len() > 0 && b[0] == 0 {
        1 + leading_zero_bytes(b.drop_first())
    } else {
        0
    }
}

/// The big-endian bytes of `v` without its leading zero bytes (none for
/// zero).
pub open spec fn trimmed_be_bytes(v: u64) -> Seq<u8> {
    be_bytes(v).subrange(leading_zero_bytes(be_bytes(v)) as int, 8)
}

/// An RBML encoder over a cursor: the cursor's data and position, the
/// positions of the size fields of the tags still open, and the position
/// before which encoded bytes must not move.
pub struct Encoder {
    buf: Vec<u8>,
    pos: usize,
    size_positions: Vec<usize>,
    relax_limit: usize,
}

impl Encoder {
    /// The cursor's data.
    pub closed spec fn data(&self) -> Seq<u8> {
        self.buf@
    }

    /// The cursor's position.
    pub closed spec fn pos(&self) -> nat {
        self.pos as nat
    }

    /// Where the size fields of the open tags are, the innermost last.
    pub closed spec fn open_tags(&self) -> Seq<usize> {
        self.size_positions@
    }

    /// Before this position, encoded bytes never move.
    pub closed spec fn stable_limit(&self) -> nat {
        self.relax_limit as nat
    }

    /// The position lies in the data, each open tag's size field lies
    /// before it, and the size fields of nested tags lie apart: a tag
    /// begins with at least one byte of id after its parent's size field.
    pub closed spec fn wf(&self) -> bool {
        &&& self.pos <= self.buf@.len()
        &&& forall|k: int| 0 <= k < self.size_positions@.len() ==> #[trigger] self.size_positions@[k] + 4 <= self.pos
        &&& forall|k: int|
            0 <= k < self.size_positions@.len() - 1 ==> #[trigger] self.size_positions@[k] + 4
                < self.size_positions@[k + 1]
    }

    /// An encoder writing into `data` at `position`, with no tag open.
    pub fn new(data: Vec<u8>, position: usize) -> (r: Self)
        requires
            position <= data@.len(),
        ensures
            r.wf(),
            r.data() == data@,
            r.pos() == position,
            r.open_tags().len() == 0,
            r.stable_limit() == 0,
    {
        Encoder { buf: data, pos: position, size_positions: Vec::new(), relax_limit: 0 }
    }

    /// The cursor's data and position.
    pub fn into_inner(self) -> (r: (Vec<u8>, usize))
        ensures
            r.0@ == self.data(),
            r.1 == self.pos(),
    {
        (self.buf, self.pos)
    }

    /// The cursor's position.
    pub fn position(&self) -> (r: usize)
        ensures
            r == self.pos(),
    {
        self.pos
    }

    /// Writes `bytes` at the cursor and moves past them.
    fn write_all(&mut self, bytes: &[u8])
        requires
            old(self).pos <= old(self).buf@.len(),
            old(self).pos + bytes@.len() <= usize::MAX,
        ensures
            final(self).buf@ == overwrite(old(self).buf@, old(self).pos as int, bytes@),
            final(self).pos == old(self).pos + bytes@.len(),
            final(self).size_positions == old(self).size_positions,
            final(self).relax_limit == old(self).relax_limit,
    {
        let ghost start = self.buf@;
        let ghost p0 = self.pos as int;
        let mut i: usize = 0;
        while i < bytes.len()
            invariant
                i <= bytes@.len(),
                self.pos == p0 + i,
                p0 + bytes@.len() <= usize::MAX,
                0 <= p0 <= start.len(),
                self.buf@ == overwrite(start, p0, bytes@.subrange(0, i as int)),
                self.size_positions == old(self).size_positions,
                self.relax_limit == old(self).relax_limit,
            decreases bytes@.len() - i,
        {
            let ghost before = self.buf@;
            let ghost at = self.pos as int;
            let ghost prev = bytes@.subrange(0, i as int);
            assert(before == overwrite(start, p0, prev));
            if self.pos < self.buf.len() {
                self.buf.set(self.pos, bytes[i]);
            } else {
                self.buf.push(bytes[i]);
            }
            self.pos = self.pos + 1;
            i = i + 1;
            proof {
                let done = bytes@.subrange(0, i as int);
                assert(done =~= prev.push(bytes@[i - 1]));
                let target = overwrite(start, p0, done);
                if p0 + i <= start.len() {
                    assert(before.len() == start.len());
                    assert(target.len() == start.len());
                } else {
                    assert(before.len() == at);
                    assert(target.len() == at + 1);
                }
                assert(target.len() == self.buf@.len());
                assert forall|j: int| 0 <= j < target.len() implies target[j] == self.buf@[j] by {
                    if j < p0 {
                        assert(target[j] == start[j]);
                        assert(before[j] == start[j]);
                    } else if j < at {
                        assert(target[j] == done[j - p0]);
                        assert(before[j] == prev[j - p0]);
                    } else if j == at {
                        assert(target[j] == done[i - 1]);
                    } else {
                        assert(target[j] == start[j]);
                        assert(before[j] == start[j]);
                    }
                }
                assert(self.buf@ =~= target);
            }
        }
        assert(bytes@.subrange(0, bytes@.len() as int) =~= bytes@);
    }
}

/// Writing two pieces one after the other writes them together.
proof fn lemma_overwrite_concat(buf: Seq<u8>, p: int, x: Seq<u8>, y: Seq<u8>)
    requires
        0 <= p <= buf.len(),
    ensures
        overwrite(overwrite(buf, p, x), p + x.len(), y) == overwrite(buf, p, x + y),
{
    let a = overwrite(buf, p, x);
    let b = overwrite(a, p + x.len(), y);
    let c = overwrite(buf, p, x + y);
    assert(a.len() >= p + x.len());
    assert(b.len() == c.len());
    assert forall|j: int| 0 <= j < b.len() implies b[j] == c[j] by {
        if j < p {
        } else if j < p + x.len() {
            assert(b[j] == a[j]);
        } else if j < p + x.len() + y.len() {
        } else {
            assert(b[j] == a[j]);
        }
    }
    assert(b =~= c);
}

proof fn lemma_overwrite_len(buf: Seq<u8>, p: int, x: Seq<u8>)
    requires
        0 <= p <= buf.len(),
    ensures
        overwrite(buf, p, x).len() >= p + x.len(),
        overwrite(buf, p, x).len() >= buf.len(),
{
}

/// The bytes of `v` in big-endian order without leading zero bytes.
fn trimmed_be(v: u64) -> (r: Vec<u8>)
    ensures
        r@ == trimmed_be_bytes(v),
        r@.len() <= 8,
{
    let b: [u8; 8] = [
        (v >> 56u64) as u8,
        (v >> 48u64) as u8,
        (v >> 40u64) as u8,
        (v >> 32u64) as u8,
        (v >> 24u64) as u8,
        (v >> 16u64) as u8,
        (v >> 8u64) as u8,
        v as u8,
    ];
    let ghost be = be_bytes(v);
    assert(b@ =~= be);
    let mut k: usize = 0;
    assert(be.subrange(0, 8) =~= be);
    while k < 8 && b[k] == 0
        invariant
            k <= 8,
            b@ == be,
            be.len() == 8,
            leading_zero_bytes(be) == k + leading_zero_bytes(be.subrange(k as int, 8)),
        decreases 8 - k,
    {
        proof {
            let rest = be.subrange(k as int, 8);
            assert(rest[0] == be[k as int]);
            assert(rest.drop_first() =~= be.subrange(k + 1, 8));
        }
        k = k + 1;
    }
    proof {
        let rest = be.subrange(k as int, 8);
        if k < 8 {
            assert(rest[0] == be[k as int]);
        }
        assert(leading_zero_bytes(be) == k);
    }
    let mut r: Vec<u8> = Vec::new();
    let mut i: usize = k;
    while i < 8
        invariant
            k <= i <= 8,
            b@ == be,
            r@ == be.subrange(k as int, i as int),
        decreases 8 - i,
    {
        r.push(b[i]);
        i = i + 1;
        assert(r@ =~= be.subrange(k as int, i as int));
    }
    r
}

impl Encoder {
    /// Starts a tag: writes its id and a four-byte placeholder for its
    /// size, and remembers where the size goes. An id without an encoding
    /// is refused and nothing is written.
    pub fn start_tag(&mut self, tag_id: usize) -> (r: Result<(), RbmlError>)
        requires
            old(self).wf(),
            old(self).pos() + 6 <= usize::MAX,
        ensures
            final(self).wf(),
            final(self).stable_limit() == old(self).stable_limit(),
            match tag_bytes(tag_id) {
                None => {
                    &&& r == Err::<(), RbmlError>(RbmlError::InvalidTag(tag_id))
                    &&& final(self).data() == old(self).data()
                    &&& final(self).pos() == old(self).pos()
                    &&& final(self).open_tags() == old(self).open_tags()
                },
                Some(t) => {
                    &&& r == Ok::<(), RbmlError>(())
                    &&& final(self).data() == overwrite(
                        old(self).data(),
                        old(self).pos() as int,
                        t + seq![0u8, 0u8, 0u8, 0u8],
                    )
                    &&& final(self).pos() == old(self).pos() + t.len() + 4
                    &&& final(self).open_tags() == old(self).open_tags().push(
                        (old(self).pos() + t.len()) as usize,
                    )
                },
            },
    {
        let mut t: Vec<u8> = Vec::new();
        match write_tag(&mut t, tag_id) {
            Err(e) => {
                return Err(e);
            },
            Ok(()) => {},
        }
        let ghost tb = t@;
        assert(tb == tag_bytes(tag_id).unwrap());
        let ghost start = self.buf@;
        let ghost p = self.pos as int;
        self.write_all(t.as_slice());
        let cur_pos = self.pos;
        self.size_positions.push(cur_pos);
        let zeros = [0u8, 0u8, 0u8, 0u8];
        self.write_all(zeros.as_slice());
        proof {
            assert(zeros@ =~= seq![0u8, 0u8, 0u8, 0u8]);
            lemma_overwrite_concat(start, p, tb, zeros@);
            lemma_overwrite_len(start, p, tb);
            let sp = self.size_positions@;
            assert forall|k: int| 0 <= k < sp.len() implies #[trigger] sp[k] + 4 <= self.pos by {
                if k < sp.len() - 1 {
                    assert(sp[k] == old(self).size_positions@[k]);
                }
            }
            assert forall|k: int| 0 <= k < sp.len() - 1 implies #[trigger] sp[k] + 4 < sp[k + 1] by {
                assert(sp[k] == old(self).size_positions@[k]);
                if k < sp.len() - 2 {
                    assert(sp[k + 1] == old(self).size_positions@[k + 1]);
                }
            }
        }
        Ok(())
    }

    /// Ends the innermost open tag: writes its size where its placeholder
    /// is. A tag of at most `RELAX_MAX_SIZE` bytes whose size field lies
    /// at or after the stable limit gets the shortest size encoding, its
    /// contents moved up to follow it, and the cursor after them; any
    /// other tag gets a four-byte size, and the cursor stays.
    pub fn end_tag(&mut self) -> (r: Result<(), RbmlError>)
        requires
            old(self).wf(),
            old(self).open_tags().len() > 0,
        ensures
            final(self).wf(),
            r == Ok::<(), RbmlError>(()),
            final(self).open_tags() == old(self).open_tags().drop_last(),
            final(self).stable_limit() == old(self).stable_limit(),
            ({
                let last = old(self).open_tags().last() as int;
                let cur = old(self).pos() as int;
                let size = (cur - last - 4) as usize;
                if size <= RELAX_MAX_SIZE && last >= old(self).stable_limit() {
                    let v = vuint_bytes(size).unwrap();
                    &&& final(self).data() == overwrite(
                        old(self).data(),
                        last,
                        v + old(self).data().subrange(last + 4, cur),
                    )
                    &&& final(self).pos() == last + v.len() + size
                } else {
                    &&& final(self).data() == overwrite(
                        old(self).data(),
                        last,
                        sized_vuint_bytes(size, 4).unwrap(),
                    )
                    &&& final(self).pos() == cur
                }
            }),
    {
        let ghost old_sp = self.size_positions@;
        let last_size_pos = self.size_positions.pop().unwrap();
        let cur_pos = self.pos;
        proof {
            assert(old_sp[old_sp.len() - 1] + 4 <= cur_pos);
        }
        self.pos = last_size_pos;
        let size = cur_pos - last_size_pos - 4;
        let ghost start = self.buf@;
        if size <= RELAX_MAX_SIZE && last_size_pos >= self.relax_limit {
            let mut data: Vec<u8> = Vec::new();
            let mut i: usize = last_size_pos + 4;
            while i < cur_pos
                invariant
                    last_size_pos + 4 <= i <= cur_pos <= self.buf@.len(),
                    self.buf@ == start,
                    data@ == start.subrange(last_size_pos + 4, i as int),
                decreases cur_pos - i,
            {
                data.push(self.buf[i]);
                i = i + 1;
                assert(data@ =~= start.subrange(last_size_pos + 4, i as int));
            }
            let mut v: Vec<u8> = Vec::new();
            let _ = write_vuint(&mut v, size);
            let ghost vb = v@;
            assert(vb == vuint_bytes(size).unwrap());
            assert(vb.len() <= 2);
            self.write_all(v.as_slice());
            self.write_all(data.as_slice());
            proof {
                lemma_overwrite_concat(start, last_size_pos as int, vb, data@);
                lemma_overwrite_len(start, last_size_pos as int, vb + data@);
            }
        } else {
            let mut v: Vec<u8> = Vec::new();
            let _ = write_sized_vuint(&mut v, size, 4);
            assert(v@ == sized_vuint_bytes(size, 4).unwrap());
            self.write_all(v.as_slice());
            proof {
                lemma_overwrite_len(start, last_size_pos as int, v@);
            }
            self.pos = cur_pos;
        }
        proof {
            let sp = self.size_positions@;
            assert(sp =~= old_sp.drop_last());
            assert forall|k: int| 0 <= k < sp.len() implies #[trigger] sp[k] + 4 <= self.pos by {
                assert(old_sp[k] + 4 < old_sp[k + 1]);
                if k + 1 < sp.len() {
                    assert(old_sp[k + 1] + 4 < old_sp[k + 2] || k + 2 >= old_sp.len());
                }
                lemma_open_tags_increasing(old_sp, k, old_sp.len() - 1);
            }
        }
        Ok(())
    }
}

/// The size fields of open tags increase.
proof fn lemma_open_tags_increasing(sp: Seq<usize>, a: int, b: int)
    requires
        0 <= a < b < sp.len(),
        forall|k: int| 0 <= k < sp.len() - 1 ==> #[trigger] sp[k] + 4 < sp[k + 1],
    ensures
        sp[a] + 4 < sp[b],
    decreases b - a,
{
    if a + 1 < b {
        lemma_open_tags_increasing(sp, a + 1, b);
    }
}

/// What writing `b` under tag `tag_id` does to the data at `pos`: the
/// bytes written and the error, if any.
pub open spec fn tagged_write(tag_id: usize, b: Seq<u8>) -> (Seq<u8>, Option<RbmlError>) {
    match tag_bytes(tag_id) {
        None => (Seq::empty(), Some(RbmlError::InvalidTag(tag_id))),
        Some(t) => match vuint_bytes(b.len() as usize) {
            None => (t, Some(RbmlError::TooBig(b.len() as usize))),
            Some(v) => (t + v + b, None),
        },
    }
}

impl Encoder {
    /// Writes `bytes` at the cursor.
    fn emit(&mut self, bytes: &[u8])
        requires
            old(self).wf(),
            old(self).pos + bytes@.len() <= usize::MAX,
        ensures
            final(self).wf(),
            final(self).buf@ == overwrite(old(self).buf@, old(self).pos as int, bytes@),
            final(self).pos == old(self).pos + bytes@.len(),
            final(self).size_positions == old(self).size_positions,
            final(self).relax_limit == old(self).relax_limit,
    {
        let ghost start = self.buf@;
        self.write_all(bytes);
        proof {
            lemma_overwrite_len(start, old(self).pos as int, bytes@);
        }
    }

    /// Writes a tag id, the length of `b` and `b`. An id without an
    /// encoding is refused with nothing written; a length without an
    /// encoding is refused after the id is written.
    pub fn wr_tagged_bytes(&mut self, tag_id: usize, b: &[u8]) -> (r: Result<(), RbmlError>)
        requires
            old(self).wf(),
            old(self).pos() + 6 + b@.len() <= usize::MAX,
        ensures
            final(self).wf(),
            final(self).data() == overwrite(old(self).data(), old(self).pos() as int, tagged_write(tag_id, b@).0),
            final(self).pos() == old(self).pos() + tagged_write(tag_id, b@).0.len(),
            r == match tagged_write(tag_id, b@).1 {
                None => Ok::<(), RbmlError>(()),
                Some(e) => Err(e),
            },
            final(self).open_tags() == old(self).open_tags(),
            final(self).stable_limit() == old(self).stable_limit(),
    {
        let ghost start = self.buf@;
        let ghost p = self.pos as int;
        let mut t: Vec<u8> = Vec::new();
        match write_tag(&mut t, tag_id) {
            Err(e) => {
                assert(overwrite(start, p, Seq::<u8>::empty()) =~= start);
                return Err(e);
            },
            Ok(()) => {},
        }
        self.emit(t.as_slice());
        let mut v: Vec<u8> = Vec::new();
        match write_vuint(&mut v, b.len()) {
            Err(e) => {
                return Err(e);
            },
            Ok(()) => {},
        }
        self.emit(v.as_slice());
        self.emit(b);
        proof {
            lemma_overwrite_concat(start, p, t@, v@);
            lemma_overwrite_concat(start, p, t@ + v@, b@);
        }
        Ok(())
    }

    /// Writes a tag id and `v` in big-endian order without leading zero
    /// bytes, as tagged bytes.
    pub fn wr_tagged_u64(&mut self, tag_id: usize, v: u64) -> (r: Result<(), RbmlError>)
        requires
            old(self).wf(),
            old(self).pos() + 14 <= usize::MAX,
        ensures
            final(self).wf(),
            final(self).data() == overwrite(
                old(self).data(),
                old(self).pos() as int,
                tagged_write(tag_id, trimmed_be_bytes(v)).0,
            ),
            final(self).pos() == old(self).pos() + tagged_write(tag_id, trimmed_be_bytes(v)).0.len(),
            r == match tagged_write(tag_id, trimmed_be_bytes(v)).1 {
                None => Ok::<(), RbmlError>(()),
                Some(e) => Err(e),
            },
            final(self).open_tags() == old(self).open_tags(),
            final(self).stable_limit() == old(self).stable_limit(),
    {
        let bytes = trimmed_be(v);
        self.wr_tagged_bytes(tag_id, bytes.as_slice())
    }

    /// `wr_tagged_u64` of a `u32`.
    pub fn wr_tagged_u32(&mut self, tag_id: usize, v: u32) -> (r: Result<(), RbmlError>)
        requires
            old(self).wf(),
            old(self).pos() + 14 <= usize::MAX,
        ensures
            final(self).wf(),
            final(self).data() == overwrite(
                old(self).data(),
                old(self).pos() as int,
                tagged_write(tag_id, trimmed_be_bytes(v as u64)).0,
            ),
            final(self).pos() == old(self).pos() + tagged_write(tag_id, trimmed_be_bytes(v as u64)).0.len(),
            r == match tagged_write(tag_id, trimmed_be_bytes(v as u64)).1 {
                None => Ok::<(), RbmlError>(()),
                Some(e) => Err(e),
            },
            final(self).open_tags() == old(self).open_tags(),
            final(self).stable_limit() == old(self).stable_limit(),
    {
        self.wr_tagged_u64(tag_id, v as u64)
    }

    /// Writes a tag id and the single byte `v`, as tagged bytes.
    pub fn wr_tagged_u8(&mut self, tag_id: usize, v: u8) -> (r: Result<(), RbmlError>)
        requires
            old(self).wf(),
            old(self).pos() + 7 <= usize::MAX,
        ensures
            final(self).wf(),
            final(self).data() == overwrite(old(self).data(), old(self).pos() as int, tagged_write(tag_id, seq![v]).0),
            final(self).pos() == old(self).pos() + tagged_write(tag_id, seq![v]).0.len(),
            r == match tagged_write(tag_id, seq![v]).1 {
                None => Ok::<(), RbmlError>(()),
                Some(e) => Err(e),
            },
            final(self).open_tags() == old(self).open_tags(),
            final(self).stable_limit() == old(self).stable_limit(),
    {
        let b = [v];
        assert(b@ =~= seq![v]);
        self.wr_tagged_bytes(tag_id, b.as_slice())
    }

    /// Writes a tag id and the UTF-8 bytes of `v`, as tagged bytes.
    pub fn wr_tagged_str(&mut self, tag_id: usize, v: &str) -> (r: Result<(), RbmlError>)
        requires
            old(self).wf(),
            old(self).pos() + 6 + v.spec_bytes().len() <= usize::MAX,
        ensures
            final(self).wf(),
            final(self).data() == overwrite(
                old(self).data(),
                old(self).pos() as int,
                tagged_write(tag_id, v.spec_bytes()).0,
            ),
            final(self).pos() == old(self).pos() + tagged_write(tag_id, v.spec_bytes()).0.len(),
            r == match tagged_write(tag_id, v.spec_bytes()).1 {
                None => Ok::<(), RbmlError>(()),
                Some(e) => Err(e),
            },
            final(self).open_tags() == old(self).open_tags(),
            final(self).stable_limit() == old(self).stable_limit(),
    {
        self.wr_tagged_bytes(tag_id, v.as_bytes())
    }

    /// Writes bytes at the cursor.
    pub fn wr_bytes(&mut self, b: &[u8]) -> (r: Result<(), RbmlError>)
        requires
            old(self).wf(),
            old(self).pos() + b@.len() <= usize::MAX,
        ensures
            final(self).wf(),
            r == Ok::<(), RbmlError>(()),
            final(self).data() == overwrite(old(self).data(), old(self).pos() as int, b@),
            final(self).pos() == old(self).pos() + b@.len(),
            final(self).open_tags() == old(self).open_tags(),
            final(self).stable_limit() == old(self).stable_limit(),
    {
        self.emit(b);
        Ok(())
    }

    /// Writes the UTF-8 bytes of `s` at the cursor.
    pub fn wr_str(&mut self, s: &str) -> (r: Result<(), RbmlError>)
        requires
            old(self).wf(),
            old(self).pos() + s.spec_bytes().len() <= usize::MAX,
        ensures
            final(self).wf(),
            r == Ok::<(), RbmlError>(()),
            final(self).data() == overwrite(old(self).data(), old(self).pos() as int, s.spec_bytes()),
            final(self).pos() == old(self).pos() + s.spec_bytes().len(),
            final(self).open_tags() == old(self).open_tags(),
            final(self).stable_limit() == old(self).stable_limit(),
    {
        self.emit(s.as_bytes());
        Ok(())
    }

    /// Marks the current position stable: no encoded byte before it moves
    /// from now on. Returns the position counted from the start of the
    /// metadata proper.
    pub fn mark_stable_position(&mut self) -> (r: usize)
        requires
            old(self).wf(),
            old(self).pos() >= METADATA_START,
        ensures
            final(self).wf(),
            r == old(self).pos() - METADATA_START,
            final(self).stable_limit() == if old(self).stable_limit() < old(self).pos() {
                old(self).pos()
            } else {
                old(self).stable_limit()
            },
            final(self).data() == old(self).data(),
            final(self).pos() == old(self).pos(),
            final(self).open_tags() == old(self).open_tags(),
    {
        let pos = self.pos;
        if self.relax_limit < pos {
            self.relax_limit = pos;
        }
        pos - METADATA_START
    }
}

/// A tag of at most `RELAX_MAX_SIZE` bytes whose size field lies at or
/// after the stable limit reads, once ended, as its id, the shortest
/// encoding of its size, and its contents: here `start_tag` wrote the id
/// `t` and the placeholder at `p`, the contents `b` followed, and
/// `end_tag` moved them up behind the size.
pub proof fn law_small_tag(buf: Seq<u8>, p: int, t: Seq<u8>, b: Seq<u8>)
    requires
        0 <= p <= buf.len(),
        b.len() <= RELAX_MAX_SIZE,
    ensures
        ({
            let q = p + t.len();
            let opened = overwrite(buf, p, t + seq![0u8, 0u8, 0u8, 0u8]);
            let filled = overwrite(opened, q + 4, b);
            let v = vuint_bytes(b.len() as usize).unwrap();
            let ended = overwrite(filled, q, v + filled.subrange(q + 4, q + 4 + b.len()));
            &&& vuint_bytes(b.len() as usize) is Some
            &&& ended.subrange(0, q + v.len() + b.len()) == buf.subrange(0, p) + t + v + b
        }),
{
    let q = p + t.len();
    let z = seq![0u8, 0u8, 0u8, 0u8];
    let opened = overwrite(buf, p, t + z);
    lemma_overwrite_len(buf, p, t + z);
    let filled = overwrite(opened, q + 4, b);
    lemma_overwrite_len(opened, q + 4, b);
    assert(filled.subrange(q + 4, q + 4 + b.len()) =~= b);
    let v = vuint_bytes(b.len() as usize).unwrap();
    assert(v.len() <= 2);
    let ended = overwrite(filled, q, v + b);
    assert(filled.subrange(0, p) =~= buf.subrange(0, p));
    assert(filled.subrange(p, q) =~= t);
    assert(ended.subrange(0, q + v.len() + b.len()) =~= buf.subrange(0, p) + t + v + b) by {
        assert forall|j: int| 0 <= j < q + v.len() + b.len() implies ended[j] == (buf.subrange(0, p) + t + v + b)[j] by {
            if j < p {
                assert(ended[j] == filled[j]);
                assert(filled[j] == opened[j]);
                assert(opened[j] == buf[j]);
            } else if j < q {
                assert(ended[j] == filled[j]);
                assert(filled[j] == opened[j]);
                assert(opened[j] == t[j - p]);
            }
        }
    }
}

} // verus!
