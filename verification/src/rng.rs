//! Deterministic xoshiro256** streams. Every stream is derived from the run
//! seed and a stable tag, so replaying a run reproduces every draw exactly.
//! Only the integer core lives here; the floating-point distributions built
//! on `next_u64` are outside this library.

use vstd::prelude::*;
use vstd::wrapping::u64_specs::{wrapping_add, wrapping_mul};
use vstd::string::StringSliceAdditionalSpecFns;

verus! {

pub const FNV_OFFSET: u64 = 0xcbf29ce484222325;
pub const FNV_PRIME: u64 = 0x100000001b3;
pub const GOLDEN_GAMMA: u64 = 0x9e3779b97f4a7c15;

/// 64-bit FNV-1a hash of a byte string.
pub open spec fn fnv1a_spec(bytes: Seq<u8>) -> u64
    decreases bytes.len(),
{
    if bytes.len() == 0 {
        FNV_OFFSET
    } else {
        wrapping_mul(fnv1a_spec(bytes.drop_last()) ^ (bytes.last() as u64), FNV_PRIME)
    }
}

/// The SplitMix64 finaliser.
pub open spec fn splitmix_spec(x: u64) -> u64 {
    let a = wrapping_add(x, GOLDEN_GAMMA);
    let b = wrapping_mul(a ^ (a >> 30u64), 0xbf58476d1ce4e5b9);
    let c = wrapping_mul(b ^ (b >> 27u64), 0x94d049bb133111eb);
    c ^ (c >> 31u64)
}

/// Rotation of `x` to the left by `k` bits (0 < k < 64).
pub open spec fn rotl(x: u64, k: u64) -> u64 {
    (x << k) | (x >> ((64 - k) as u64))
}

/// Initial state of the stream for `seed` and the UTF-8 bytes of a tag.
pub open spec fn derived_state(seed: u64, tag_bytes: Seq<u8>) -> Seq<u64> {
    let base = seed ^ fnv1a_spec(tag_bytes);
    Seq::new(4, |i: int| splitmix_spec(wrapping_add(base, wrapping_mul(i as u64, GOLDEN_GAMMA))))
}

/// The value xoshiro256** outputs from state `s`.
pub open spec fn next_output(s: Seq<u64>) -> u64 {
    wrapping_mul(rotl(wrapping_mul(s[1], 5), 7), 9)
}

/// The state xoshiro256** moves to from state `s`.
pub open spec fn next_state(s: Seq<u64>) -> Seq<u64> {
    let t = s[1] << 17u64;
    let s2 = s[2] ^ s[0];
    let s3 = s[3] ^ s[1];
    let s1 = s[1] ^ s2;
    let s0 = s[0] ^ s3;
    seq![s0, s1, s2 ^ t, rotl(s3, 45)]
}

/// The state after `n` steps from `s`.
pub open spec fn state_after(s: Seq<u64>, n: nat) -> Seq<u64>
    decreases n,
{
    if n == 0 { s } else { next_state(state_after(s, (n - 1) as nat)) }
}

/// The `n`-th value (counting from 0) of the stream of `seed` and tag bytes.
pub open spec fn stream_value(seed: u64, tag_bytes: Seq<u8>, n: nat) -> u64 {
    next_output(state_after(derived_state(seed, tag_bytes), n))
}

pub fn fnv1a(tag: &str) -> (h: u64)
    ensures h == fnv1a_spec(tag.spec_bytes()),
{
    let bytes = tag.as_bytes();
    let mut h: u64 = FNV_OFFSET;
    let mut i: usize = 0;
    while i < bytes.len()
        invariant
            bytes@ == tag.spec_bytes(),
            i <= bytes@.len(),
            h == fnv1a_spec(bytes@.subrange(0, i as int)),
        decreases bytes@.len() - i,
    {
        assert(bytes@.subrange(0, i as int + 1).drop_last() =~= bytes@.subrange(0, i as int));
        h = (h ^ (bytes[i] as u64)).wrapping_mul(FNV_PRIME);
        i = i + 1;
    }
    assert(bytes@.subrange(0, i as int) =~= bytes@);
    h
}

pub fn splitmix(x: u64) -> (r: u64)
    ensures r == splitmix_spec(x),
{
    let a = x.wrapping_add(GOLDEN_GAMMA);
    let b = (a ^ (a >> 30)).wrapping_mul(0xbf58476d1ce4e5b9);
    let c = (b ^ (b >> 27)).wrapping_mul(0x94d049bb133111eb);
    c ^ (c >> 31)
}

fn rotate_left(x: u64, k: u32) -> (r: u64)
    requires 0 < k < 64,
    ensures r == rotl(x, k as u64),
{
    (x << k) | (x >> (64 - k))
}

/// A xoshiro256** generator.
pub struct Rng {
    s: [u64; 4],
}

impl View for Rng {
    type V = Seq<u64>;

    closed spec fn view(&self) -> Seq<u64> {
        self.s@
    }
}

impl Rng {
    /// The state always holds four words.
    pub proof fn lemma_state_len(&self)
        ensures self@.len() == 4,
    {
    }

    /// The stream for `seed` and the stable tag `tag`.
    pub fn derived(seed: u64, tag: &str) -> (r: Rng)
        ensures r@ == derived_state(seed, tag.spec_bytes()),
    {
        let base = seed ^ fnv1a(tag);
        let s0 = splitmix(base.wrapping_add(0u64.wrapping_mul(GOLDEN_GAMMA)));
        let s1 = splitmix(base.wrapping_add(1u64.wrapping_mul(GOLDEN_GAMMA)));
        let s2 = splitmix(base.wrapping_add(2u64.wrapping_mul(GOLDEN_GAMMA)));
        let s3 = splitmix(base.wrapping_add(3u64.wrapping_mul(GOLDEN_GAMMA)));
        let r = Rng { s: [s0, s1, s2, s3] };
        assert(r@ =~= derived_state(seed, tag.spec_bytes()));
        r
    }

    /// The next value of the stream.
    pub fn next_u64(&mut self) -> (out: u64)
        ensures
            out == next_output(old(self)@),
            final(self)@ == next_state(old(self)@),
    {
        proof { self.lemma_state_len(); }
        let s0 = self.s[0];
        let s1 = self.s[1];
        let s2 = self.s[2];
        let s3 = self.s[3];
        let result = rotate_left(s1.wrapping_mul(5), 7).wrapping_mul(9);
        let t = s1 << 17;
        let n2 = s2 ^ s0;
        let n3 = s3 ^ s1;
        let n1 = s1 ^ n2;
        let n0 = s0 ^ n3;
        self.s = [n0, n1, n2 ^ t, rotate_left(n3, 45)];
        assert(self@ =~= next_state(old(self)@));
        result
    }
}


/// Replay law: a generator derived from `seed` and a tag, after `k` draws,
/// yields the `k`-th value of that (seed, tag) stream and moves on to the
/// state after `k + 1` draws. Streams depend on nothing but seed and tag.
pub proof fn lemma_stream_replay(seed: u64, tag_bytes: Seq<u8>, k: nat)
    ensures
        next_output(state_after(derived_state(seed, tag_bytes), k)) == stream_value(seed, tag_bytes, k),
        next_state(state_after(derived_state(seed, tag_bytes), k)) == state_after(derived_state(seed, tag_bytes), k + 1),
{
}

/// One xoshiro256** step, word by word: from state `(s0, s1, s2, s3)` the
/// generator outputs `rotl(s1 * 5, 7) * 9` (products modulo 2^64) and moves to
/// `(s0 ^ s3 ^ s1, s1 ^ s2 ^ s0, s2 ^ s0 ^ (s1 << 17), rotl(s3 ^ s1, 45))`,
/// rotations written out as shifts.
pub proof fn lemma_xoshiro_step(s: Seq<u64>)
    requires
        s.len() == 4,
    ensures
        next_state(s).len() == 4,
        next_state(s)[0] == s[0] ^ s[3] ^ s[1],
        next_state(s)[1] == s[1] ^ s[2] ^ s[0],
        next_state(s)[2] == s[2] ^ s[0] ^ (s[1] << 17u64),
        next_state(s)[3] == ((s[3] ^ s[1]) << 45u64) | ((s[3] ^ s[1]) >> 19u64),
        ({
            let m = ((s[1] as int * 5) % 0x1_0000_0000_0000_0000) as u64;
            let r = (m << 7u64) | (m >> 57u64);
            next_output(s) == ((r as int * 9) % 0x1_0000_0000_0000_0000) as u64
        }),
{
    let (s0, s1, s2, s3) = (s[0], s[1], s[2], s[3]);
    assert(s1 ^ (s2 ^ s0) == s1 ^ s2 ^ s0) by (bit_vector);
    assert(s0 ^ (s3 ^ s1) == s0 ^ s3 ^ s1) by (bit_vector);
    let x = s3 ^ s1;
    assert(rotl(x, 45) == (x << 45u64) | (x >> 19u64));
    let m = wrapping_mul(s1, 5);
    assert(m == ((s1 as int * 5) % 0x1_0000_0000_0000_0000) as u64);
    let r = rotl(m, 7);
    assert(r == (m << 7u64) | (m >> 57u64));
    assert(wrapping_mul(r, 9) == ((r as int * 9) % 0x1_0000_0000_0000_0000) as u64);
}

/// 64-bit FNV-1a: the empty string hashes to the offset basis
/// `0xcbf29ce484222325`, and each further byte is XORed in and the result
/// multiplied by the FNV prime `0x100000001b3` modulo 2^64.
pub proof fn lemma_fnv1a_steps(bytes: Seq<u8>, b: u8)
    ensures
        fnv1a_spec(Seq::<u8>::empty()) == 0xcbf29ce484222325u64,
        fnv1a_spec(bytes.push(b)) == (((fnv1a_spec(bytes) ^ (b as u64)) as int * 0x100000001b3) % 0x1_0000_0000_0000_0000) as u64,
{
    assert(bytes.push(b).drop_last() =~= bytes);
}

/// SplitMix64, constants written out: add the golden gamma
/// `0x9e3779b97f4a7c15`, then xor-shift by 30 and multiply by
/// `0xbf58476d1ce4e5b9`, xor-shift by 27 and multiply by `0x94d049bb133111eb`,
/// and xor-shift by 31 (all modulo 2^64).
pub proof fn lemma_splitmix_steps(x: u64)
    ensures ({
        let a = ((x as int + 0x9e3779b97f4a7c15) % 0x1_0000_0000_0000_0000) as u64;
        let b = (((a ^ (a >> 30u64)) as int * 0xbf58476d1ce4e5b9) % 0x1_0000_0000_0000_0000) as u64;
        let c = (((b ^ (b >> 27u64)) as int * 0x94d049bb133111eb) % 0x1_0000_0000_0000_0000) as u64;
        splitmix_spec(x) == c ^ (c >> 31u64)
    }),
{
}

/// Seeding: the stream of `seed` and a tag starts from four words, word `i`
/// being SplitMix64 of `(seed ^ fnv1a(tag)) + i * 0x9e3779b97f4a7c15`
/// modulo 2^64.
pub proof fn lemma_seeding(seed: u64, tag_bytes: Seq<u8>, i: int)
    requires
        0 <= i < 4,
    ensures
        derived_state(seed, tag_bytes).len() == 4,
        derived_state(seed, tag_bytes)[i] == splitmix_spec(
            (((seed ^ fnv1a_spec(tag_bytes)) as int + (i * 0x9e3779b97f4a7c15) % 0x1_0000_0000_0000_0000) % 0x1_0000_0000_0000_0000) as u64),
{
}

}
