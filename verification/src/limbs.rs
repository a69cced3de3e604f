//! 256-bit unsigned integers held as four little-endian `u64` limbs, and the
//! little-endian bit and byte strings that encode them.

use vstd::arithmetic::div_mod::*;
use vstd::arithmetic::power2::*;
use vstd::prelude::*;

verus! {

/// The integer that four little-endian limbs stand for.
pub open spec fn limbs_value(l: [u64; 4]) -> nat {
    l[0] as nat + 0x1_0000_0000_0000_0000 * (l[1] as nat + 0x1_0000_0000_0000_0000 * (l[2] as nat
        + 0x1_0000_0000_0000_0000 * (l[3] as nat)))
}

/// The order `r` of the BN254 scalar field.
pub open spec fn fr_modulus() -> nat {
    21888242871839275222246405745257275088548364400416034343698204186575808495617nat
}

/// The order `q` of the BN254 base field.
pub open spec fn fq_modulus() -> nat {
    21888242871839275222246405745257275088696311157297823662689037894645226208583nat
}

/// 0 or 1 for a bit.
pub open spec fn bit_value(b: bool) -> nat {
    if b {
        1
    } else {
        0
    }
}

/// The integer that a little-endian string of bits stands for.
pub open spec fn bits_value(s: Seq<bool>) -> nat
    decreases s.len(),
{
    if s.len() == 0 {
        0
    } else {
        bit_value(s[0]) + 2 * bits_value(s.drop_first())
    }
}

/// Bit `i` of the integer `n` (bit 0 is the least significant).
pub open spec fn nat_bit(n: nat, i: nat) -> bool {
    (n / pow2(i)) % 2 == 1
}

/// The integer that a little-endian string of bytes stands for.
pub open spec fn le_bytes_value(s: Seq<u8>) -> nat
    decreases s.len(),
{
    if s.len() == 0 {
        0
    } else {
        s[0] as nat + 256 * le_bytes_value(s.drop_first())
    }
}

/// The integer that a big-endian string of bytes stands for.
pub open spec fn be_bytes_value(s: Seq<u8>) -> nat {
    le_bytes_value(s.reverse())
}

/// Bit `j` of a byte, read by shifting.
pub open spec fn byte_bit(x: u8, j: u8) -> bool {
    (x >> j) & 1 == 1
}

/// Limbs of the scalar-field order `r`.
pub fn fr_modulus_limbs() -> (r: [u64; 4])
    ensures
        limbs_value(r) == fr_modulus(),
{
    [0x43e1f593f0000001, 0x2833e84879b97091, 0xb85045b68181585d, 0x30644e72e131a029]
}

/// Whether `a` is smaller than `b` as 256-bit integers.
pub fn limbs_lt(a: &[u64; 4], b: &[u64; 4]) -> (r: bool)
    ensures
        r == (limbs_value(*a) < limbs_value(*b)),
{
    if a[3] != b[3] {
        a[3] < b[3]
    } else if a[2] != b[2] {
        a[2] < b[2]
    } else if a[1] != b[1] {
        a[1] < b[1]
    } else {
        a[0] < b[0]
    }
}

/// A string of bits stands for an integer below two to its length.
pub proof fn lemma_bits_value_bound(s: Seq<bool>)
    ensures
        bits_value(s) < pow2(s.len()),
    decreases s.len(),
{
    if s.len() == 0 {
        lemma2_to64();
    } else {
        lemma_bits_value_bound(s.drop_first());
        lemma_pow2_unfold(s.len());
    }
}

/// The value of two concatenated bit strings.
pub proof fn lemma_bits_value_append(a: Seq<bool>, b: Seq<bool>)
    ensures
        bits_value(a + b) == bits_value(a) + pow2(a.len()) * bits_value(b),
    decreases a.len(),
{
    if a.len() == 0 {
        assert(a + b =~= b);
        lemma2_to64();
    } else {
        assert((a + b).drop_first() =~= a.drop_first() + b);
        lemma_bits_value_append(a.drop_first(), b);
        lemma_pow2_unfold(a.len());
        let p = pow2((a.len() - 1) as nat);
        let vb = bits_value(b);
        assert(2 * (p * vb) == (2 * p) * vb) by (nonlinear_arith);
    }
}

/// Bit `i` of the value of a bit string is the string's bit `i`.
pub proof fn lemma_nat_bit_of_bits_value(s: Seq<bool>, i: nat)
    requires
        i < s.len(),
    ensures
        nat_bit(bits_value(s), i) == s[i as int],
    decreases i,
{
    let rest = bits_value(s.drop_first());
    let v = bits_value(s);
    assert(v == bit_value(s[0]) + 2 * rest);
    if i == 0 {
        lemma2_to64();
        assert(v / 1 == v);
        lemma_mod_multiples_vanish(rest as int, bit_value(s[0]) as int, 2);
    } else {
        lemma_nat_bit_of_bits_value(s.drop_first(), (i - 1) as nat);
        lemma_pow2_unfold(i);
        let p = pow2((i - 1) as nat);
        lemma_pow2_pos((i - 1) as nat);
        lemma_div_denominator(v as int, 2, p as int);
        lemma_fundamental_div_mod_converse_div(v as int, 2, rest as int, bit_value(s[0]) as int);
        assert(2 * p == pow2(i));
    }
}

/// Two bit strings of one length that stand for one integer are equal.
pub proof fn lemma_bits_value_injective(a: Seq<bool>, b: Seq<bool>)
    requires
        a.len() == b.len(),
        bits_value(a) == bits_value(b),
    ensures
        a == b,
{
    assert forall|i: int| 0 <= i < a.len() implies a[i] == b[i] by {
        lemma_nat_bit_of_bits_value(a, i as nat);
        lemma_nat_bit_of_bits_value(b, i as nat);
    }
    assert(a =~= b);
}

/// The value of two concatenated byte strings.
pub proof fn lemma_le_bytes_value_append(a: Seq<u8>, b: Seq<u8>)
    ensures
        le_bytes_value(a + b) == le_bytes_value(a) + pow2(8 * a.len()) * le_bytes_value(b),
    decreases a.len(),
{
    if a.len() == 0 {
        assert(a + b =~= b);
        lemma2_to64();
    } else {
        assert((a + b).drop_first() =~= a.drop_first() + b);
        lemma_le_bytes_value_append(a.drop_first(), b);
        let n = (a.len() - 1) as nat;
        lemma_pow2_adds(8, 8 * n);
        assert(8 * a.len() == 8 + 8 * n);
        lemma2_to64();
        let p = pow2(8 * n);
        let vb = le_bytes_value(b);
        assert(256 * (p * vb) == (256 * p) * vb) by (nonlinear_arith);
    }
}

/// A byte string stands for an integer below 256 to its length.
pub proof fn lemma_le_bytes_value_bound(s: Seq<u8>)
    ensures
        le_bytes_value(s) < pow2(8 * s.len()),
    decreases s.len(),
{
    if s.len() == 0 {
        lemma2_to64();
    } else {
        lemma_le_bytes_value_bound(s.drop_first());
        let n = (s.len() - 1) as nat;
        lemma_pow2_adds(8, 8 * n);
        assert(8 * s.len() == 8 + 8 * n);
        lemma2_to64();
    }
}

/// Two limb arrays that stand for one integer are equal.
pub proof fn lemma_limbs_value_injective(a: [u64; 4], b: [u64; 4])
    requires
        limbs_value(a) == limbs_value(b),
    ensures
        a == b,
{
    let base: int = 0x1_0000_0000_0000_0000;
    let ra2 = a[2] as int + base * a[3] as int;
    let rb2 = b[2] as int + base * b[3] as int;
    let ra1 = a[1] as int + base * ra2;
    let rb1 = b[1] as int + base * rb2;
    let v = limbs_value(a) as int;
    assert(v == ra1 * base + a[0] as int);
    assert(v == rb1 * base + b[0] as int);
    lemma_fundamental_div_mod_converse(v, base, ra1, a[0] as int);
    lemma_fundamental_div_mod_converse(v, base, rb1, b[0] as int);
    lemma_fundamental_div_mod_converse(ra1, base, ra2, a[1] as int);
    lemma_fundamental_div_mod_converse(ra1, base, rb2, b[1] as int);
    lemma_fundamental_div_mod_converse(ra2, base, a[3] as int, a[2] as int);
    lemma_fundamental_div_mod_converse(ra2, base, b[3] as int, b[2] as int);
    assert(a@ =~= b@);
}

/// Limbs of the base-field order `q`.
pub fn fq_modulus_limbs() -> (r: [u64; 4])
    ensures
        limbs_value(r) == fq_modulus(),
{
    [0x3c208c16d87cfd47, 0x97816a916871ca8d, 0xb85045b68181585d, 0x30644e72e131a029]
}

/// Two byte strings of one length that stand for one integer are equal.
pub proof fn lemma_le_bytes_value_injective(a: Seq<u8>, b: Seq<u8>)
    requires
        a.len() == b.len(),
        le_bytes_value(a) == le_bytes_value(b),
    ensures
        a == b,
    decreases a.len(),
{
    if a.len() > 0 {
        let ra = le_bytes_value(a.drop_first());
        let rb = le_bytes_value(b.drop_first());
        let v = le_bytes_value(a) as int;
        assert(v == ra * 256 + a[0] as int);
        assert(v == rb * 256 + b[0] as int);
        lemma_fundamental_div_mod_converse(v, 256, ra as int, a[0] as int);
        lemma_fundamental_div_mod_converse(v, 256, rb as int, b[0] as int);
        lemma_le_bytes_value_injective(a.drop_first(), b.drop_first());
        assert(a =~= b) by {
            assert forall|i: int| 0 <= i < a.len() implies a[i] == b[i] by {
                if i > 0 {
                    assert(a[i] == a.drop_first()[i - 1]);
                    assert(b[i] == b.drop_first()[i - 1]);
                }
            }
        }
    } else {
        assert(a =~= b);
    }
}

/// Writes the eight little-endian bytes of `x` into `out[start..start + 8]`.
fn write_u64_le(out: &mut [u8; 32], start: usize, x: u64)
    requires
        start + 8 <= 32,
    ensures
        forall|i: int| 0 <= i < 32 && !(start <= i < start + 8) ==> final(out)@[i] == old(out)@[i],
        le_bytes_value(final(out)@.subrange(start as int, start + 8)) == x,
{
    let mut y = x;
    let mut t: usize = 0;
    proof {
        lemma2_to64();
        lemma2_to64_rest();
        assert(out@.subrange(start as int, start as int) =~= Seq::<u8>::empty());
        assert(le_bytes_value(Seq::<u8>::empty()) == 0);
        assert(le_bytes_value(out@.subrange(start as int, start + t)) == 0);
        assert(pow2(8 * t as nat) == 1);
        assert(x == le_bytes_value(out@.subrange(start as int, start + t)) + pow2(8 * t as nat) * y);
    }
    while t < 8
        invariant
            t <= 8,
            start + 8 <= 32,
            forall|i: int| 0 <= i < 32 && !(start <= i < start + t) ==> out@[i] == old(out)@[i],
            x == le_bytes_value(out@.subrange(start as int, start + t)) + pow2(8 * t as nat) * y,
            y < pow2((64 - 8 * t) as nat),
        decreases 8 - t,
    {
        let b = (y % 256) as u8;
        let ghost before = out@.subrange(start as int, start + t);
        out[start + t] = b;
        proof {
            assert(out@.subrange(start as int, start + t + 1) =~= before + seq![b]);
            lemma_le_bytes_value_append(before, seq![b]);
            assert(le_bytes_value(seq![b]) == b) by {
                assert(seq![b].drop_first() =~= Seq::<u8>::empty());
                assert(le_bytes_value(Seq::<u8>::empty()) == 0);
                assert(seq![b][0] == b);
            }
            let p = pow2(8 * t as nat);
            let yy = y as int;
            assert(p * yy == p * (yy % 256) + (256 * p) * (yy / 256)) by (nonlinear_arith)
                requires
                    yy == 256 * (yy / 256) + yy % 256,
            ;
            lemma_pow2_adds(8 * t as nat, 8);
            lemma_pow2_adds((64 - 8 * (t + 1)) as nat, 8);
            lemma2_to64();
            assert((64 - 8 * t) as nat == (64 - 8 * (t + 1)) as nat + 8);
            assert(8 * (t + 1) as nat == 8 * t as nat + 8);
        }
        y = y / 256;
        t = t + 1;
    }
    proof {
        lemma2_to64();
    }
}

/// The 32 little-endian bytes of the integer that four limbs hold.
pub fn limbs_to_le_bytes(l: &[u64; 4]) -> (res: [u8; 32])
    ensures
        le_bytes_value(res@) == limbs_value(*l),
{
    let mut out = [0u8; 32];
    write_u64_le(&mut out, 0, l[0]);
    let ghost c0 = out@.subrange(0, 8);
    write_u64_le(&mut out, 8, l[1]);
    let ghost c1 = out@.subrange(8, 16);
    write_u64_le(&mut out, 16, l[2]);
    let ghost c2 = out@.subrange(16, 24);
    write_u64_le(&mut out, 24, l[3]);
    proof {
        let c3 = out@.subrange(24, 32);
        assert(out@.subrange(0, 8) =~= c0);
        assert(out@.subrange(8, 16) =~= c1);
        assert(out@.subrange(16, 24) =~= c2);
        assert(out@ =~= c0 + (c1 + (c2 + c3)));
        lemma_le_bytes_value_append(c2, c3);
        lemma_le_bytes_value_append(c1, c2 + c3);
        lemma_le_bytes_value_append(c0, c1 + (c2 + c3));
        lemma2_to64();
    }
    out
}

} // verus!
