use vstd::prelude::*;

verus! {

/// Unsigned value of a byte string read least significant byte first.
pub open spec fn le_value(b: Seq<u8>) -> nat
    decreases b.len(),
{
    if b.len() == 0 {
        0
    } else {
        b[0] as nat + 256 * le_value(b.drop_first())
    }
}

/// `256` to the power `n`.
pub open spec fn pow256(n: nat) -> nat
    decreases n,
{
    if n == 0 {
        1
    } else {
        256 * pow256((n - 1) as nat)
    }
}

/// A little-endian value of `n` bytes is below `256^n`.
pub proof fn lemma_le_value_bound(b: Seq<u8>)
    ensures
        le_value(b) < pow256(b.len()),
    decreases b.len(),
{
    if b.len() > 0 {
        lemma_le_value_bound(b.drop_first());
    }
}

/// The little-endian value of eight bytes, term by term.
pub proof fn lemma_le_value_8(s: Seq<u8>)
    requires
        s.len() == 8,
    ensures
        le_value(s) == s[0] + 0x100 * s[1] + 0x1_0000 * s[2] + 0x100_0000 * s[3] + 0x1_0000_0000
            * s[4] + 0x100_0000_0000 * s[5] + 0x1_0000_0000_0000 * s[6] + 0x100_0000_0000_0000
            * s[7],
{
    let s1 = s.drop_first();
    let s2 = s1.drop_first();
    let s3 = s2.drop_first();
    let s4 = s3.drop_first();
    let s5 = s4.drop_first();
    let s6 = s5.drop_first();
    let s7 = s6.drop_first();
    let s8 = s7.drop_first();
    assert(s8.len() == 0);
    assert(le_value(s7) == s[7] as nat + 256 * le_value(s8));
    assert(le_value(s6) == s[6] as nat + 256 * le_value(s7));
    assert(le_value(s5) == s[5] as nat + 256 * le_value(s6));
    assert(le_value(s4) == s[4] as nat + 256 * le_value(s5));
    assert(le_value(s3) == s[3] as nat + 256 * le_value(s4));
    assert(le_value(s2) == s[2] as nat + 256 * le_value(s3));
    assert(le_value(s1) == s[1] as nat + 256 * le_value(s2));
    assert(le_value(s) == s[0] as nat + 256 * le_value(s1));
}

/// Two byte strings of one length with the same little-endian value are equal.
pub proof fn lemma_le_value_injective(a: Seq<u8>, b: Seq<u8>)
    requires
        a.len() == b.len(),
        le_value(a) == le_value(b),
    ensures
        a == b,
    decreases a.len(),
{
    if a.len() > 0 {
        let ra = le_value(a.drop_first());
        let rb = le_value(b.drop_first());
        assert(a[0] as int == b[0] as int && ra == rb) by (nonlinear_arith)
            requires
                a[0] as int + 256 * ra == b[0] as int + 256 * rb,
                0 <= a[0] < 256,
                0 <= b[0] < 256,
                ra >= 0,
                rb >= 0,
        ;
        lemma_le_value_injective(a.drop_first(), b.drop_first());
        assert(a =~= seq![a[0]] + a.drop_first());
        assert(b =~= seq![b[0]] + b.drop_first());
    }
}

/// Reads `len` bytes of `bytes`, starting at `off`, as a little-endian number.
pub fn read_le(bytes: &[u8; 32], off: usize, len: usize) -> (v: u128)
    requires
        len <= 16,
        off + len <= 32,
    ensures
        v as nat == le_value(bytes@.subrange(off as int, off + len)),
{
    let mut v: u128 = 0;
    let mut k: usize = len;
    proof {
        lemma_pow256_16();
        assert(bytes@.subrange(off + len, off + len) =~= Seq::<u8>::empty());
    }
    while k > 0
        invariant
            len <= 16,
            off + len <= 32,
            k <= len,
            v as nat == le_value(bytes@.subrange(off + k, off + len)),
            pow256(16) == 0x1_0000_0000_0000_0000_0000_0000_0000_0000,
        decreases k,
    {
        let b = bytes[off + k - 1];
        let ghost tail = bytes@.subrange(off + k, off + len);
        let ghost whole = bytes@.subrange(off + k - 1, off + len);
        proof {
            assert(whole.drop_first() =~= tail);
            assert(whole[0] == b);
            lemma_le_value_bound(whole);
            lemma_pow256_monotone(whole.len(), 16);
        }
        v = b as u128 + 256 * v;
        k = k - 1;
    }
    v
}

pub proof fn lemma_pow256_16()
    ensures
        pow256(8) == 0x1_0000_0000_0000_0000,
        pow256(16) == 0x1_0000_0000_0000_0000_0000_0000_0000_0000,
{
    reveal_with_fuel(pow256, 17);
}

proof fn lemma_pow256_monotone(a: nat, b: nat)
    requires
        a <= b,
    ensures
        pow256(a) <= pow256(b),
    decreases b,
{
    if a < b {
        lemma_pow256_monotone(a, (b - 1) as nat);
    }
}

} // verus!
