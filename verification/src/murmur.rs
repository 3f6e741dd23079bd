//! The 128-bit mixing hash: two 64-bit lanes stirred by multiply/rotate
//! rounds over 16-byte blocks, a byte-by-byte tail, and an avalanche
//! finish.
//!
//! One quirk is kept on purpose: an input whose length is a whole number
//! of blocks (the empty input included) never reaches the finishing step
//! and hashes to the constant `1`. Callers that care must avoid
//! block-aligned inputs; the bucketed map does not care, since any
//! constant still routes to a single bucket.
use crate::order::{eqv, TotalOrder};
use vstd::prelude::*;
use vstd::utf8::encode_utf8;
use vstd::wrapping::u64_specs;

verus! {

/// First multiplicative block constant.
pub const MUL_C1: u64 = 0x87c37b91114253d5;

/// Second multiplicative block constant.
pub const MUL_C2: u64 = 0x4cf5ad432745937f;

/// Round constant folded into the first lane.
pub const ROUND_C1: u64 = 0x52dce729;

/// Round constant folded into the second lane.
pub const ROUND_C2: u64 = 0x38495ab5;

/// First avalanche multiplier.
pub const FMIX_C1: u64 = 0xff51afd7ed558ccd;

/// Second avalanche multiplier.
pub const FMIX_C2: u64 = 0xc4ceb9fe1a85ec53;

/// Left-rotation of a 64-bit word by `s` places.
pub open spec fn spec_rotl64(x: u64, s: u64) -> u64
    recommends
        0 < s < 64,
{
    (x << s) | (x >> ((64 - s) as u64))
}

/// Left-rotation of a 64-bit word by `s` places.
pub fn rotl64(x: u64, s: u64) -> (r: u64)
    requires
        0 < s < 64,
    ensures
        r == spec_rotl64(x, s),
{
    (x << s) | (x >> (64 - s))
}

/// The avalanche finisher applied to each lane at the end.
pub open spec fn spec_fmix64(k0: u64) -> u64 {
    let k1 = k0 ^ (k0 >> 33);
    let k2 = u64_specs::wrapping_mul(k1, FMIX_C1);
    let k3 = k2 ^ (k2 >> 33);
    let k4 = u64_specs::wrapping_mul(k3, FMIX_C2);
    k4 ^ (k4 >> 33)
}

/// The avalanche finisher applied to each lane at the end.
pub fn fmix64(k: u64) -> (r: u64)
    ensures
        r == spec_fmix64(k),
{
    let mut x = k;
    x ^= x >> 33;
    x = x.wrapping_mul(FMIX_C1);
    x ^= x >> 33;
    x = x.wrapping_mul(FMIX_C2);
    x ^= x >> 33;
    x
}

/// Pre-mix of a first-lane word before it is folded in.
pub open spec fn spec_mix_k1(k1: u64) -> u64 {
    u64_specs::wrapping_mul(spec_rotl64(u64_specs::wrapping_mul(k1, MUL_C1), 31), MUL_C2)
}

/// Pre-mix of a second-lane word before it is folded in.
pub open spec fn spec_mix_k2(k2: u64) -> u64 {
    u64_specs::wrapping_mul(spec_rotl64(u64_specs::wrapping_mul(k2, MUL_C2), 33), MUL_C1)
}

/// New first lane after folding a block word in: rotate, add the other
/// lane, scale, add the round constant.
pub open spec fn spec_round1(h1: u64, h2: u64, k1: u64) -> u64 {
    u64_specs::wrapping_add(
        u64_specs::wrapping_mul(
            u64_specs::wrapping_add(spec_rotl64(h1 ^ spec_mix_k1(k1), 27), h2),
            5,
        ),
        ROUND_C1,
    )
}

/// New second lane after folding a block word in; `h1` is the already
/// updated first lane.
pub open spec fn spec_round2(h1: u64, h2: u64, k2: u64) -> u64 {
    u64_specs::wrapping_add(
        u64_specs::wrapping_mul(
            u64_specs::wrapping_add(spec_rotl64(h2 ^ spec_mix_k2(k2), 31), h1),
            5,
        ),
        ROUND_C2,
    )
}

/// A 64-bit word read little-endian from eight bytes.
pub open spec fn spec_le64(s: Seq<u8>) -> u64
    recommends
        s.len() == 8,
{
    (s[0] as u64) | ((s[1] as u64) << 8) | ((s[2] as u64) << 16) | ((s[3] as u64) << 24) | ((
    s[4] as u64) << 32) | ((s[5] as u64) << 40) | ((s[6] as u64) << 48) | ((s[7] as u64) << 56)
}

/// A 64-bit word read little-endian from `b[i .. i + 8]`.
fn read_le64(b: &[u8], i: usize) -> (r: u64)
    requires
        i + 8 <= b@.len(),
    ensures
        r == spec_le64(b@.subrange(i as int, i as int + 8)),
{
    (b[i] as u64) | ((b[i + 1] as u64) << 8) | ((b[i + 2] as u64) << 16) | ((b[i + 3] as u64)
        << 24) | ((b[i + 4] as u64) << 32) | ((b[i + 5] as u64) << 40) | ((b[i + 6] as u64) << 48)
        | ((b[i + 7] as u64) << 56)
}

/// Both lanes after folding in every whole 16-byte block at the front of
/// `b`; whatever shorter rest remains is left for the tail step.
pub open spec fn spec_blocks(b: Seq<u8>, h1: u64, h2: u64) -> (u64, u64)
    decreases b.len(),
{
    if b.len() < 16 {
        (h1, h2)
    } else {
        let k1 = spec_le64(b.subrange(0, 8));
        let k2 = spec_le64(b.subrange(8, 16));
        let h1n = spec_round1(h1, h2, k1);
        let h2n = spec_round2(h1n, h2, k2);
        spec_blocks(b.skip(16), h1n, h2n)
    }
}

/// The second-lane tail word: bytes 8 up to 14 of the final short block,
/// each shifted to its position.
pub open spec fn spec_tail_k2(t: Seq<u8>) -> u64
    recommends
        t.len() < 16,
{
    (if t.len() >= 15 {
        (t[14] as u64) << 48
    } else {
        0u64
    }) | (if t.len() >= 14 {
        (t[13] as u64) << 40
    } else {
        0u64
    }) | (if t.len() >= 13 {
        (t[12] as u64) << 32
    } else {
        0u64
    }) | (if t.len() >= 12 {
        (t[11] as u64) << 24
    } else {
        0u64
    }) | (if t.len() >= 11 {
        (t[10] as u64) << 16
    } else {
        0u64
    }) | (if t.len() >= 10 {
        (t[9] as u64) << 8
    } else {
        0u64
    }) | (if t.len() >= 9 {
        t[8] as u64
    } else {
        0u64
    })
}

/// The first-lane tail word: a whole little-endian word when eight bytes
/// remain, else bytes 0 up to 6 shifted to their positions.
pub open spec fn spec_tail_k1(t: Seq<u8>) -> u64
    recommends
        t.len() < 16,
{
    if t.len() >= 8 {
        spec_le64(t.subrange(0, 8))
    } else {
        (if t.len() >= 7 {
            (t[6] as u64) << 48
        } else {
            0u64
        }) | (if t.len() >= 6 {
            (t[5] as u64) << 40
        } else {
            0u64
        }) | (if t.len() >= 5 {
            (t[4] as u64) << 32
        } else {
            0u64
        }) | (if t.len() >= 4 {
            (t[3] as u64) << 24
        } else {
            0u64
        }) | (if t.len() >= 3 {
            (t[2] as u64) << 16
        } else {
            0u64
        }) | (if t.len() >= 2 {
            (t[1] as u64) << 8
        } else {
            0u64
        }) | (if t.len() >= 1 {
            t[0] as u64
        } else {
            0u64
        })
    }
}

/// The finished 128-bit value: fold the tail words in, stir the total
/// length through both lanes, cross-add, avalanche each lane, cross-add
/// again, and pack the lanes low/high.
pub open spec fn spec_finish(t: Seq<u8>, h1: u64, h2: u64, total: u64) -> u128
    recommends
        0 < t.len() < 16,
{
    let h2a = if t.len() >= 9 {
        h2 ^ spec_mix_k2(spec_tail_k2(t))
    } else {
        h2
    };
    let h1a = h1 ^ spec_mix_k1(spec_tail_k1(t));
    let h1b = h1a ^ total;
    let h2b = h2a ^ total;
    let h1c = u64_specs::wrapping_add(h1b, h2b);
    let h2c = u64_specs::wrapping_add(h2b, h1c);
    let h1d = spec_fmix64(h1c);
    let h2d = spec_fmix64(h2c);
    let h1e = u64_specs::wrapping_add(h1d, h2d);
    let h2e = u64_specs::wrapping_add(h2d, h1e);
    ((h2e as u128) << 64) | (h1e as u128)
}

/// The hash of a byte sequence under a seed. A block-aligned length
/// (zero included) never reaches the finishing step and yields `1`.
pub open spec fn spec_hash(b: Seq<u8>, seed: u32) -> u128 {
    if b.len() % 16 == 0 {
        1
    } else {
        let lanes = spec_blocks(b, seed as u64, seed as u64);
        spec_finish(b.skip(b.len() - (b.len() % 16)), lanes.0, lanes.1, b.len() as u64)
    }
}

/// One unfolding of `spec_blocks` on a sequence that still holds a
/// whole block.
proof fn lemma_blocks_step(b: Seq<u8>, h1: u64, h2: u64)
    requires
        b.len() >= 16,
    ensures
        spec_blocks(b, h1, h2) == spec_blocks(
            b.skip(16),
            spec_round1(h1, h2, spec_le64(b.subrange(0, 8))),
            spec_round2(
                spec_round1(h1, h2, spec_le64(b.subrange(0, 8))),
                h2,
                spec_le64(b.subrange(8, 16)),
            ),
        ),
{
}

/// Folds in every whole block at the front of `key`; hands back both
/// lanes and the index where the short tail starts.
#[verifier::rlimit(100)]
#[verifier::spinoff_prover]
fn mix_blocks(key: &[u8], seed: u32) -> (res: (u64, u64, usize))
    ensures
        (res.0, res.1) == spec_blocks(key@, seed as u64, seed as u64),
        res.2 == key@.len() - (key@.len() % 16),
{
    let n = key.len();
    let mut h1: u64 = seed as u64;
    let mut h2: u64 = seed as u64;
    let mut i: usize = 0;
    proof {
        assert(key@.skip(0) =~= key@);
    }
    while n - i >= 16
        invariant
            n == key@.len(),
            i <= n,
            i % 16 == 0,
            spec_blocks(key@, seed as u64, seed as u64) == spec_blocks(key@.skip(i as int), h1, h2),
        decreases n - i,
    {
        let k1 = read_le64(key, i);
        let k2 = read_le64(key, i + 8);
        proof {
            let rest = key@.skip(i as int);
            assert(rest.subrange(0, 8) =~= key@.subrange(i as int, i as int + 8));
            assert(rest.subrange(8, 16) =~= key@.subrange(i as int + 8, i as int + 16));
            assert(rest.skip(16) =~= key@.skip(i as int + 16));
            lemma_blocks_step(rest, h1, h2);
        }
        h1 = round1(h1, h2, k1);
        h2 = round2(h1, h2, k2);
        i += 16;
    }
    proof {
        assert(key@.skip(i as int).len() < 16);
        assert(spec_blocks(key@.skip(i as int), h1, h2) == (h1, h2));
        assert(n % 16 == n - i) by (nonlinear_arith)
            requires
                i % 16 == 0,
                i <= n,
                n - i < 16,
        {}
    }
    (h1, h2, i)
}

/// Hashes a byte slice to the 128-bit value `spec_hash` describes: the
/// result depends on the bytes and the seed alone.
pub fn hash_mumur3(key: &[u8], seed: u32) -> (r: u128)
    ensures
        r == spec_hash(key@, seed),
{
    let n = key.len();
    let lanes = mix_blocks(key, seed);
    let i = lanes.2;
    if i == n {
        return 1;
    }
    finish_tail(key, i, lanes.0, lanes.1)
}

/// Folds a first-lane block word into the first lane.
fn round1(h1: u64, h2: u64, k1: u64) -> (r: u64)
    ensures
        r == spec_round1(h1, h2, k1),
{
    rotl64(h1 ^ mix_k1(k1), 27).wrapping_add(h2).wrapping_mul(5).wrapping_add(ROUND_C1)
}

/// Folds a second-lane block word into the second lane; `h1` is the
/// already updated first lane.
fn round2(h1: u64, h2: u64, k2: u64) -> (r: u64)
    ensures
        r == spec_round2(h1, h2, k2),
{
    rotl64(h2 ^ mix_k2(k2), 31).wrapping_add(h1).wrapping_mul(5).wrapping_add(ROUND_C2)
}

/// Folds the final short block in and applies the finishing mixes.
fn finish_tail(key: &[u8], i: usize, h1_in: u64, h2_in: u64) -> (r: u128)
    requires
        i < key@.len(),
        key@.len() - i < 16,
    ensures
        r == spec_finish(key@.skip(i as int), h1_in, h2_in, key@.len() as u64),
{
    let n = key.len();
    let rem = n - i;
    let mut h1 = h1_in;
    let mut h2 = h2_in;
    let k2 = tail_k2(key, i);
    if rem >= 9 {
        h2 ^= mix_k2(k2);
    }
    let k1 = tail_k1(key, i);
    h1 ^= mix_k1(k1);
    h1 ^= n as u64;
    h2 ^= n as u64;
    h1 = h1.wrapping_add(h2);
    h2 = h2.wrapping_add(h1);
    h1 = fmix64(h1);
    h2 = fmix64(h2);
    h1 = h1.wrapping_add(h2);
    h2 = h2.wrapping_add(h1);
    ((h2 as u128) << 64) | (h1 as u128)
}

/// Assembles the second-lane tail word from bytes 8 up to 14 of the
/// final short block.
fn tail_k2(key: &[u8], i: usize) -> (r: u64)
    requires
        i < key@.len(),
        key@.len() - i < 16,
    ensures
        r == spec_tail_k2(key@.skip(i as int)),
{
    let rem = key.len() - i;
    proof {
        let t = key@.skip(i as int);
        assert(t.len() == rem);
        assert forall|j: int| 0 <= j < t.len() implies t[j] == key@[i + j] by {}
    }
    let b14: u64 = if rem >= 15 {
        (key[i + 14] as u64) << 48
    } else {
        0
    };
    let b13: u64 = if rem >= 14 {
        (key[i + 13] as u64) << 40
    } else {
        0
    };
    let b12: u64 = if rem >= 13 {
        (key[i + 12] as u64) << 32
    } else {
        0
    };
    let b11: u64 = if rem >= 12 {
        (key[i + 11] as u64) << 24
    } else {
        0
    };
    let b10: u64 = if rem >= 11 {
        (key[i + 10] as u64) << 16
    } else {
        0
    };
    let b9: u64 = if rem >= 10 {
        (key[i + 9] as u64) << 8
    } else {
        0
    };
    let b8: u64 = if rem >= 9 {
        key[i + 8] as u64
    } else {
        0
    };
    b14 | b13 | b12 | b11 | b10 | b9 | b8
}

/// Assembles the first-lane tail word: a whole little-endian word when
/// eight bytes remain, else bytes 0 up to 6 of the final short block.
fn tail_k1(key: &[u8], i: usize) -> (r: u64)
    requires
        i < key@.len(),
        key@.len() - i < 16,
    ensures
        r == spec_tail_k1(key@.skip(i as int)),
{
    let rem = key.len() - i;
    proof {
        let t = key@.skip(i as int);
        assert(t.len() == rem);
        assert forall|j: int| 0 <= j < t.len() implies t[j] == key@[i + j] by {}
    }
    if rem >= 8 {
        let k1 = read_le64(key, i);
        proof {
            let t = key@.skip(i as int);
            assert(t.subrange(0, 8) =~= key@.subrange(i as int, i as int + 8));
        }
        k1
    } else {
        let b6: u64 = if rem >= 7 {
            (key[i + 6] as u64) << 48
        } else {
            0
        };
        let b5: u64 = if rem >= 6 {
            (key[i + 5] as u64) << 40
        } else {
            0
        };
        let b4: u64 = if rem >= 5 {
            (key[i + 4] as u64) << 32
        } else {
            0
        };
        let b3: u64 = if rem >= 4 {
            (key[i + 3] as u64) << 24
        } else {
            0
        };
        let b2: u64 = if rem >= 3 {
            (key[i + 2] as u64) << 16
        } else {
            0
        };
        let b1: u64 = if rem >= 2 {
            (key[i + 1] as u64) << 8
        } else {
            0
        };
        let b0: u64 = key[i] as u64;
        b6 | b5 | b4 | b3 | b2 | b1 | b0
    }
}

/// Pre-mix of a first-lane word before it is folded in.
fn mix_k1(k1: u64) -> (r: u64)
    ensures
        r == spec_mix_k1(k1),
{
    rotl64(k1.wrapping_mul(MUL_C1), 31).wrapping_mul(MUL_C2)
}

/// Pre-mix of a second-lane word before it is folded in.
fn mix_k2(k2: u64) -> (r: u64)
    ensures
        r == spec_mix_k2(k2),
{
    rotl64(k2.wrapping_mul(MUL_C2), 33).wrapping_mul(MUL_C1)
}


/// The serialized form of a 32-bit signed integer: its four bytes,
/// least significant first.
pub open spec fn spec_i32_wire(x: i32) -> Seq<u8> {
    let u = x as u32;
    seq![(u & 0xff) as u8, ((u >> 8) & 0xff) as u8, ((u >> 16) & 0xff) as u8, ((u >> 24)
        & 0xff) as u8]
}

/// A 64-bit unsigned integer as eight bytes, least significant first.
pub open spec fn spec_u64_wire(x: u64) -> Seq<u8> {
    seq![(x & 0xff) as u8, ((x >> 8) & 0xff) as u8, ((x >> 16) & 0xff) as u8, ((x >> 24)
        & 0xff) as u8, ((x >> 32) & 0xff) as u8, ((x >> 40) & 0xff) as u8, ((x >> 48)
        & 0xff) as u8, ((x >> 56) & 0xff) as u8]
}

/// The serialized form of a string: its UTF-8 byte length as eight
/// bytes least significant first, then the UTF-8 bytes themselves.
pub open spec fn spec_str_wire(s: Seq<char>) -> Seq<u8> {
    spec_u64_wire(encode_utf8(s).len() as u64) + encode_utf8(s)
}

/// Relies on bincode::serialize at type i32: under the crate's default
/// configuration (fixed-width integers, little-endian, no size limit)
/// it writes exactly the value's four bytes, least significant first,
/// and cannot fail for an integer.
#[verifier::external_body]
fn bincode_bytes_i32(x: &i32) -> (r: Vec<u8>)
    ensures
        r@ == spec_i32_wire(*x),
{
    match bincode::serialize(x) {
        Ok(v) => v,
        Err(_) => Vec::new(),
    }
}

/// Relies on bincode::serialize at type str: under the crate's default
/// configuration it writes the byte length as a 64-bit little-endian
/// integer followed by the UTF-8 bytes, and cannot fail for a string.
#[verifier::external_body]
fn bincode_bytes_str(s: &str) -> (r: Vec<u8>)
    ensures
        r@ == spec_str_wire(s@),
{
    match bincode::serialize(s) {
        Ok(v) => v,
        Err(_) => Vec::new(),
    }
}

/// A key the bucketed map can hash: it orders, and it has a canonical
/// byte form that tied keys share, so tied keys always land in the same
/// bucket.
pub trait HashKey: TotalOrder {
    /// The canonical byte form fed to the hash.
    spec fn wire(self) -> Seq<u8>;

    /// Tied keys serialize alike.
    proof fn wire_respects_ties(a: Self, b: Self)
        requires
            eqv(a, b),
        ensures
            a.wire() == b.wire(),
    ;

    /// Serializes the key to its canonical byte form.
    fn wire_bytes(&self) -> (r: Vec<u8>)
        ensures
            r@ == self.wire(),
    ;
}

impl HashKey for i32 {
    open spec fn wire(self) -> Seq<u8> {
        spec_i32_wire(self)
    }

    proof fn wire_respects_ties(a: Self, b: Self) {
    }

    fn wire_bytes(&self) -> (r: Vec<u8>) {
        bincode_bytes_i32(self)
    }
}

impl HashKey for String {
    open spec fn wire(self) -> Seq<u8> {
        spec_str_wire(self@)
    }

    proof fn wire_respects_ties(a: Self, b: Self) {
        crate::order::lex_le_antisym(a@, b@);
    }

    fn wire_bytes(&self) -> (r: Vec<u8>) {
        bincode_bytes_str(self.as_str())
    }
}

impl<'a> HashKey for &'a str {
    open spec fn wire(self) -> Seq<u8> {
        spec_str_wire(self@)
    }

    proof fn wire_respects_ties(a: Self, b: Self) {
        crate::order::lex_le_antisym(a@, b@);
    }

    fn wire_bytes(&self) -> (r: Vec<u8>) {
        bincode_bytes_str(self)
    }
}

/// The hash of a key: its canonical byte form fed through the mixing
/// hash; a pure function of the key and the seed.
pub open spec fn spec_hash_key<K: HashKey>(k: K, seed: u32) -> u128 {
    spec_hash(k.wire(), seed)
}

/// Hashes any key with a canonical byte form.
pub fn hash_anything<K: HashKey>(item: &K, seed: u32) -> (r: u128)
    ensures
        r == spec_hash_key(*item, seed),
{
    let bytes = item.wire_bytes();
    hash_mumur3(bytes.as_slice(), seed)
}

/// Hash determinism: the hash is a function of the bytes and the seed
/// alone, so equal inputs always hash alike.
pub proof fn lemma_hash_deterministic(b1: Seq<u8>, b2: Seq<u8>, s1: u32, s2: u32)
    requires
        b1 == b2,
        s1 == s2,
    ensures
        spec_hash(b1, s1) == spec_hash(b2, s2),
{
}

} // verus!
