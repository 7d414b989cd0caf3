use vstd::prelude::*;
use vstd::arithmetic::power2::*;
use vstd::bits::*;
use vstd::arithmetic::div_mod::lemma_mod_mod;

use crate::bytes::{
    le_value, lemma_le_value_8, lemma_le_value_bound, lemma_le_value_injective, lemma_pow256_16,
    read_le,
};

verus! {

/// Value of `x` rotated left by `k` bits (`0 < k < 64`): the low `64 - k`
/// bits of `x` move up by `k` places and its high `k` bits wrap around to
/// the bottom.
pub open spec fn rotl_value(x: u64, k: nat) -> int
    recommends
        0 < k < 64,
{
    (x as int % pow2((64 - k) as nat) as int) * pow2(k) as int + x as int / pow2(
        (64 - k) as nat,
    ) as int
}

proof fn lemma_rotl(x: u64, k: u64, r: u64)
    requires
        0 < k < 64,
        r == (x << k) | (x >> ((64 - k) as u64)),
    ensures
        r as int == rotl_value(x, k as nat),
{
    let m: u64 = (64 - k) as u64;
    let lo: u64 = (x << k) >> k;
    assert(r == (x << k) + (x >> m)) by (bit_vector)
        requires
            0 < k < 64,
            m + k == 64,
            r == (x << k) | (x >> m),
    ;
    assert(lo << k == x << k) by (bit_vector)
        requires
            0 < k < 64,
            lo == (x << k) >> k,
    ;
    assert(lo == x & (((1u64 << m) - 1) as u64)) by (bit_vector)
        requires
            0 < k < 64,
            m + k == 64,
            lo == (x << k) >> k,
    ;
    lemma_u64_pow2_no_overflow(m as nat);
    lemma_u64_pow2_no_overflow(k as nat);
    lemma_u64_shl_is_mul(1, m);
    assert(1u64 << m == pow2(m as nat));
    lemma_u64_low_bits_mask_is_mod(x, m as nat);
    assert(low_bits_mask(m as nat) == pow2(m as nat) - 1);
    lemma_u64_shr_is_div(x, m);
    lemma_pow2_adds(m as nat, k as nat);
    lemma2_to64_rest();
    assert(pow2(64) == 0x1_0000_0000_0000_0000);
    assert(lo < pow2(m as nat));
    assert(lo * pow2(k as nat) <= u64::MAX) by (nonlinear_arith)
        requires
            lo < pow2(m as nat),
            pow2(m as nat) * pow2(k as nat) == 0x1_0000_0000_0000_0000,
    ;
    lemma_u64_shl_is_mul(lo, k);
}

/// Rotates `x` left by `k` bits.
pub fn rotl(x: u64, k: u64) -> (r: u64)
    requires
        0 < k < 64,
    ensures
        r as int == rotl_value(x, k as nat),
{
    let r = (x << k) | (x >> (64 - k));
    proof {
        lemma_rotl(x, k, r);
    }
    r
}

/// The four 64-bit words of a generator state.
pub type XoshiroState = (u64, u64, u64, u64);

/// Little-endian value of the 8-byte word number `i` of a seed.
pub open spec fn seed_word(seed: Seq<u8>, i: int) -> nat {
    le_value(seed.subrange(8 * i, 8 * i + 8))
}

/// The state that a seed gives: its four 8-byte words, each read little-endian.
pub open spec fn state_from_seed(seed: Seq<u8>) -> XoshiroState {
    (
        seed_word(seed, 0) as u64,
        seed_word(seed, 1) as u64,
        seed_word(seed, 2) as u64,
        seed_word(seed, 3) as u64,
    )
}

/// One transition of the generator state `(a, b, c, d)`.
pub open spec fn xoshiro_step(s: XoshiroState) -> XoshiroState {
    let (a, b, c, d) = s;
    (a ^ b ^ d, a ^ b ^ c, a ^ c ^ (b << 17u64), rotl_value(b ^ d, 45) as u64)
}

/// The 32-bit output read from a state (the xoshiro256** scrambler on the
/// second word, cut to its low 32 bits): `rotl(b * 5, 7) * 9`, products
/// taken modulo `2^64`.
pub open spec fn xoshiro_output(s: XoshiroState) -> u32 {
    ((rotl_value(((s.1 as int * 5) % 0x1_0000_0000_0000_0000) as u64, 7) * 9)
        % 0x1_0000_0000) as u32
}

/// Rotating left by 45 bits is one-to-one.
proof fn lemma_rotl45_injective(x: u64, y: u64)
    requires
        rotl_value(x, 45) as u64 == rotl_value(y, 45) as u64,
    ensures
        x == y,
{
    let rx = (x << 45u64) | (x >> 19u64);
    let ry = (y << 45u64) | (y >> 19u64);
    lemma_rotl(x, 45, rx);
    lemma_rotl(y, 45, ry);
    assert(x == y) by (bit_vector)
        requires
            (x << 45u64) | (x >> 19u64) == (y << 45u64) | (y >> 19u64),
    ;
}

/// The state transition is one-to-one: two different states never step to
/// the same state.
pub proof fn lemma_xoshiro_step_injective(s: XoshiroState, u: XoshiroState)
    requires
        xoshiro_step(s) == xoshiro_step(u),
    ensures
        s == u,
{
    let (a, b, c, d) = s;
    let (a2, b2, c2, d2) = u;
    lemma_rotl45_injective(b ^ d, b2 ^ d2);
    assert(a == a2) by (bit_vector)
        requires
            a ^ b ^ d == a2 ^ b2 ^ d2,
            b ^ d == b2 ^ d2,
    ;
    assert(b ^ (b << 17u64) == b2 ^ (b2 << 17u64)) by (bit_vector)
        requires
            a ^ b ^ c == a2 ^ b2 ^ c2,
            a ^ c ^ (b << 17u64) == a2 ^ c2 ^ (b2 << 17u64),
            a == a2,
    ;
    assert(b == b2) by (bit_vector)
        requires
            b ^ (b << 17u64) == b2 ^ (b2 << 17u64),
    ;
    assert(c == c2 && d == d2) by (bit_vector)
        requires
            a ^ b ^ c == a2 ^ b2 ^ c2,
            b ^ d == b2 ^ d2,
            a == a2,
            b == b2,
    ;
}

/// The all-zero state steps to itself, and no other state ever steps to
/// it.
pub proof fn lemma_xoshiro_step_zero(s: XoshiroState)
    ensures
        xoshiro_step((0, 0, 0, 0)) == (0u64, 0u64, 0u64, 0u64),
        xoshiro_step(s) == (0u64, 0u64, 0u64, 0u64) ==> s == (0u64, 0u64, 0u64, 0u64),
{
    assert((0u64 ^ 0u64) == 0u64 && (0u64 << 17u64) == 0u64) by (bit_vector);
    assert((0u64 << 45u64) | (0u64 >> 19u64) == 0u64) by (bit_vector);
    lemma_rotl(0u64, 45, (0u64 << 45u64) | (0u64 >> 19u64));
    assert(rotl_value(0u64, 45) == 0);
    assert(xoshiro_step((0, 0, 0, 0)) == (0u64, 0u64, 0u64, 0u64));
    if xoshiro_step(s) == (0u64, 0u64, 0u64, 0u64) {
        lemma_xoshiro_step_injective(s, (0, 0, 0, 0));
    }
}

/// Word `i` (0 to 3) of a generator state.
pub open spec fn state_word(s: XoshiroState, i: int) -> u64 {
    if i == 0 {
        s.0
    } else if i == 1 {
        s.1
    } else if i == 2 {
        s.2
    } else {
        s.3
    }
}

/// Rotation in bit operations: `rotl_value(x, k)` is
/// `(x << k) | (x >> (64 - k))`.
pub proof fn lemma_rotl_value_bits(x: u64, k: u64)
    requires
        0 < k < 64,
    ensures
        rotl_value(x, k as nat) == ((x << k) | (x >> ((64 - k) as u64))) as int,
{
    lemma_rotl(x, k, (x << k) | (x >> ((64 - k) as u64)));
}

/// Seeding reads the seed byte for byte: word `i` of the state is
/// `seed[8i] + 2^8 seed[8i+1] + ... + 2^56 seed[8i+7]`.
pub proof fn lemma_seed_words(seed: Seq<u8>)
    requires
        seed.len() == 32,
    ensures
        forall|i: int|
            0 <= i < 4 ==> #[trigger] state_word(state_from_seed(seed), i) as int == seed[8 * i]
                + 0x100 * seed[8 * i + 1] + 0x1_0000 * seed[8 * i + 2] + 0x100_0000 * seed[8 * i
                + 3] + 0x1_0000_0000 * seed[8 * i + 4] + 0x100_0000_0000 * seed[8 * i + 5]
                + 0x1_0000_0000_0000 * seed[8 * i + 6] + 0x100_0000_0000_0000 * seed[8 * i + 7],
{
    assert forall|i: int| 0 <= i < 4 implies #[trigger] state_word(state_from_seed(seed), i) as int
        == seed[8 * i] + 0x100 * seed[8 * i + 1] + 0x1_0000 * seed[8 * i + 2] + 0x100_0000 * seed[8
        * i + 3] + 0x1_0000_0000 * seed[8 * i + 4] + 0x100_0000_0000 * seed[8 * i + 5]
        + 0x1_0000_0000_0000 * seed[8 * i + 6] + 0x100_0000_0000_0000 * seed[8 * i + 7] by {
        let w = seed.subrange(8 * i, 8 * i + 8);
        lemma_le_value_8(w);
        lemma_le_value_bound(w);
        lemma_pow256_16();
        assert(w[0] == seed[8 * i] && w[1] == seed[8 * i + 1] && w[2] == seed[8 * i + 2] && w[3]
            == seed[8 * i + 3] && w[4] == seed[8 * i + 4] && w[5] == seed[8 * i + 5] && w[6]
            == seed[8 * i + 6] && w[7] == seed[8 * i + 7]);
    }
}

/// Different seeds give different generator states.
pub proof fn lemma_seeding_injective(a: Seq<u8>, b: Seq<u8>)
    requires
        a.len() == 32,
        b.len() == 32,
        state_from_seed(a) == state_from_seed(b),
    ensures
        a == b,
{
    lemma_pow256_16();
    assert forall|k: int| 0 <= k < 32 implies a[k] == b[k] by {
        let i = k / 8;
        let wa = a.subrange(8 * i, 8 * i + 8);
        let wb = b.subrange(8 * i, 8 * i + 8);
        lemma_le_value_bound(wa);
        lemma_le_value_bound(wb);
        assert(state_word(state_from_seed(a), i) == state_word(state_from_seed(b), i));
        lemma_le_value_injective(wa, wb);
        assert(wa[k - 8 * i] == wb[k - 8 * i]);
    }
    assert(a =~= b);
}

/// The transition in bit operations on the words `(a, b, c, d)`.
pub proof fn lemma_xoshiro_step_bits(s: XoshiroState)
    ensures
        xoshiro_step(s).0 == s.0 ^ s.1 ^ s.3,
        xoshiro_step(s).1 == s.0 ^ s.1 ^ s.2,
        xoshiro_step(s).2 == s.0 ^ s.2 ^ (s.1 << 17u64),
        xoshiro_step(s).3 == ((s.1 ^ s.3) << 45u64) | ((s.1 ^ s.3) >> 19u64),
{
    lemma_rotl(s.1 ^ s.3, 45, ((s.1 ^ s.3) << 45u64) | ((s.1 ^ s.3) >> 19u64));
}

/// The output in plain arithmetic: with `m = 5 b mod 2^64` for the second
/// word `b`, it is `9 ((m mod 2^57) 2^7 + m / 2^57) mod 2^32`.
pub proof fn lemma_xoshiro_output_value(s: XoshiroState)
    ensures
        ({
            let m = (s.1 as int * 5) % 0x1_0000_0000_0000_0000;
            xoshiro_output(s) as int == ((m % 0x200_0000_0000_0000) * 128 + m / 0x200_0000_0000_0000)
                * 9 % 0x1_0000_0000
        }),
{
    vstd::arithmetic::power2::lemma2_to64_rest();
    let m = (s.1 as int * 5) % 0x1_0000_0000_0000_0000;
    let v = rotl_value(m as u64, 7);
    assert(pow2(57) == 0x200_0000_0000_0000);
    assert(pow2(7) == 128) by {
        vstd::arithmetic::power2::lemma2_to64();
    }
    assert(v == (m % 0x200_0000_0000_0000) * 128 + m / 0x200_0000_0000_0000);
}

/// The xoshiro256** pseudo-random generator that the shuffle draws its
/// numbers from: each draw is the scrambled second word of the current
/// state, after which the state takes one transition.
pub struct Xoshiro256PlusPlus {
    s: [u64; 4],
}

impl View for Xoshiro256PlusPlus {
    type V = XoshiroState;

    closed spec fn view(&self) -> XoshiroState {
        (self.s@[0], self.s@[1], self.s@[2], self.s@[3])
    }
}

impl Xoshiro256PlusPlus {
    /// Builds the generator whose state words are the four 8-byte words of
    /// `seed`, each read little-endian.
    pub fn from_seed(seed: [u8; 32]) -> (g: Xoshiro256PlusPlus)
        ensures
            g@ == state_from_seed(seed@),
            forall|i: int|
                0 <= i < 4 ==> #[trigger] state_word(g@, i) as nat == le_value(
                    seed@.subrange(8 * i, 8 * i + 8),
                ),
    {
        let w0 = Self::seed_word_at(&seed, 0);
        let w1 = Self::seed_word_at(&seed, 8);
        let w2 = Self::seed_word_at(&seed, 16);
        let w3 = Self::seed_word_at(&seed, 24);
        let g = Xoshiro256PlusPlus { s: [w0, w1, w2, w3] };
        proof {
            assert(g.s@[0] == w0 && g.s@[1] == w1 && g.s@[2] == w2 && g.s@[3] == w3);
            lemma_pow256_16();
            assert forall|i: int| 0 <= i < 4 implies #[trigger] state_word(g@, i) as nat == le_value(
                seed@.subrange(8 * i, 8 * i + 8),
            ) by {
                lemma_le_value_bound(seed@.subrange(8 * i, 8 * i + 8));
            }
        }
        g
    }

    fn seed_word_at(seed: &[u8; 32], off: usize) -> (w: u64)
        requires
            off + 8 <= 32,
        ensures
            w as nat == le_value(seed@.subrange(off as int, off + 8)),
    {
        let v = read_le(seed, off, 8);
        proof {
            lemma_le_value_bound(seed@.subrange(off as int, off + 8));
            lemma_pow256_16();
        }
        v as u64
    }

    /// Returns the output of the current state and advances the state by
    /// one transition.
    pub fn next_u32(&mut self) -> (r: u32)
        ensures
            r == xoshiro_output(old(self)@),
            final(self)@ == xoshiro_step(old(self)@),
    {
        let a = self.s[0];
        let b = self.s[1];
        let c = self.s[2];
        let d = self.s[3];

        let scrambled = rotl(b.wrapping_mul(5), 7).wrapping_mul(9);

        let t: u64 = b << 17;
        let s2 = c ^ a;
        let s3 = d ^ b;
        let s1 = b ^ s2;
        let s0 = a ^ s3;
        let s2 = s2 ^ t;
        let s3 = rotl(s3, 45);
        self.s = [s0, s1, s2, s3];

        proof {
            assert(s0 == a ^ b ^ d && s1 == a ^ b ^ c && s2 == a ^ c ^ (b << 17u64)) by (bit_vector)
                requires
                    s0 == a ^ (d ^ b),
                    s1 == b ^ (c ^ a),
                    s2 == (c ^ a) ^ t,
                    t == b << 17u64,
            ;
            assert(d ^ b == b ^ d) by (bit_vector);
            assert(self.s@[0] == s0 && self.s@[1] == s1 && self.s@[2] == s2 && self.s@[3] == s3);
            let p = rotl_value(((b as int * 5) % 0x1_0000_0000_0000_0000) as u64, 7) * 9;
            assert(scrambled as int == p % 0x1_0000_0000_0000_0000);
            assert((scrambled as u32) as int == scrambled as int % 0x1_0000_0000) by (bit_vector);
            lemma_mod_mod(p, 0x1_0000_0000, 0x1_0000_0000);
        }
        scrambled as u32
    }

    /// The current state words.
    pub fn state(&self) -> (s: [u64; 4])
        ensures
            (s@[0], s@[1], s@[2], s@[3]) == self@,
    {
        self.s
    }
}

} // verus!
