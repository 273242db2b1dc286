//! Membership of a code point in a compressed Unicode property table.
//!
//! A table maps each 64-code-point bucket to a 64-bit word of membership
//! bits. Buckets are grouped in chunks; each chunk names, per bucket, either
//! a canonical word or a canonicalised one (a canonical word, possibly
//! inverted, then rotated left).

use vstd::prelude::*;

verus! {

/// Rotation of `w` left by `n` bits (modulo 64).
pub open spec fn rotl64(w: u64, n: u32) -> u64 {
    let k = n % 64;
    if k == 0 {
        w
    } else {
        (w << k) | (w >> (64 - k))
    }
}

/// Rotates `w` left by `n` bits: the bits shifted out at the left come
/// back at the right.
fn rotate_left_u64(w: u64, n: u32) -> (r: u64)
    ensures
        r == rotl64(w, n),
{
    let k = n % 64;
    if k == 0 {
        w
    } else {
        (w << k) | (w >> (64 - k))
    }
}

/// The chunk that holds the bucket of `needle`, if the map has one.
pub open spec fn chunk_of(
    needle: u32,
    chunk_idx_map: Seq<u8>,
    last_chunk: (u16, u8),
    chunk_size: usize,
) -> Option<u8> {
    let chunk_map_idx = (needle / 64) as int / chunk_size as int;
    if chunk_map_idx >= chunk_idx_map.len() {
        if chunk_map_idx == last_chunk.0 {
            Some(last_chunk.1)
        } else {
            None
        }
    } else {
        Some(chunk_idx_map[chunk_map_idx])
    }
}

/// The word at index `idx`: a canonical word, or a canonicalised one.
pub open spec fn word_at(idx: int, canonical: Seq<u64>, canonicalized: Seq<(u8, u8)>) -> u64 {
    if idx < canonical.len() {
        canonical[idx]
    } else {
        let (real_idx, mapping) = canonicalized[idx - canonical.len()];
        let w = canonical[real_idx as int];
        let w = if mapping & (1u8 << 7u8) != 0 {
            !w
        } else {
            w
        };
        rotl64(w, (mapping & !(1u8 << 7u8)) as u32)
    }
}

/// The index of the word that holds the bit of `needle` in chunk `ci`.
pub open spec fn word_index<const CHUNK_SIZE: usize>(
    needle: u32,
    ci: u8,
    bitset_chunk_idx: Seq<[u8; CHUNK_SIZE]>,
) -> int {
    bitset_chunk_idx[ci as int]@[((needle / 64) as int % CHUNK_SIZE as int)] as int
}

/// Every index that the lookup of `needle` reads is within its table.
pub open spec fn lookup_defined<const CHUNK_SIZE: usize>(
    needle: u32,
    chunk_idx_map: Seq<u8>,
    last_chunk: (u16, u8),
    bitset_chunk_idx: Seq<[u8; CHUNK_SIZE]>,
    canonical: Seq<u64>,
    canonicalized: Seq<(u8, u8)>,
) -> bool {
    &&& CHUNK_SIZE > 0
    &&& match chunk_of(needle, chunk_idx_map, last_chunk, CHUNK_SIZE) {
        None => true,
        Some(ci) => {
            let idx = word_index(needle, ci, bitset_chunk_idx);
            &&& (ci as int) < bitset_chunk_idx.len()
            &&& (idx < canonical.len() || (idx - canonical.len() < canonicalized.len()
                && (canonicalized[idx - canonical.len()].0 as int) < canonical.len()))
        },
    }
}

/// Whether `needle` belongs to the set that the table describes.
pub open spec fn lookup<const CHUNK_SIZE: usize>(
    needle: u32,
    chunk_idx_map: Seq<u8>,
    last_chunk: (u16, u8),
    bitset_chunk_idx: Seq<[u8; CHUNK_SIZE]>,
    canonical: Seq<u64>,
    canonicalized: Seq<(u8, u8)>,
) -> bool {
    match chunk_of(needle, chunk_idx_map, last_chunk, CHUNK_SIZE) {
        None => false,
        Some(ci) => {
            let w = word_at(word_index(needle, ci, bitset_chunk_idx), canonical, canonicalized);
            w & (1u64 << ((needle % 64) as u64)) != 0
        },
    }
}

/// Looks `needle` up in a compressed bitset table.
pub fn range_search<const CHUNK_SIZE: usize>(
    needle: u32,
    chunk_idx_map: &[u8],
    last_chunk: (u16, u8),
    bitset_chunk_idx: &[[u8; CHUNK_SIZE]],
    bitset_canonical: &[u64],
    bitset_canonicalized: &[(u8, u8)],
) -> (r: bool)
    requires
        lookup_defined(
            needle,
            chunk_idx_map@,
            last_chunk,
            bitset_chunk_idx@,
            bitset_canonical@,
            bitset_canonicalized@,
        ),
    ensures
        r == lookup(
            needle,
            chunk_idx_map@,
            last_chunk,
            bitset_chunk_idx@,
            bitset_canonical@,
            bitset_canonicalized@,
        ),
{
    let (last_chunk_idx, last_chunk_mapping) = last_chunk;
    let bucket_idx = (needle / 64) as usize;
    let chunk_map_idx = bucket_idx / CHUNK_SIZE;
    let chunk_piece = bucket_idx % CHUNK_SIZE;
    let chunk_idx = if chunk_map_idx >= chunk_idx_map.len() {
        if chunk_map_idx == last_chunk_idx as usize {
            last_chunk_mapping
        } else {
            return false;
        }
    } else {
        chunk_idx_map[chunk_map_idx]
    };
    let row = &bitset_chunk_idx[chunk_idx as usize];
    let idx = row[chunk_piece] as usize;
    let word = if idx < bitset_canonical.len() {
        bitset_canonical[idx]
    } else {
        let (real_idx, mapping) = bitset_canonicalized[idx - bitset_canonical.len()];
        let mut word = bitset_canonical[real_idx as usize];
        let should_invert = mapping & (1u8 << 7u8) != 0;
        if should_invert {
            word = !word;
        }
        // Unset the inversion bit
        let rotate_by = mapping & !(1u8 << 7u8);
        word = rotate_left_u64(word, rotate_by as u32);
        word
    };
    (word & (1u64 << ((needle % 64) as u64))) != 0
}

} // verus!
