//! Scalars as 254-bit strings, and BN254 G1 points with their byte encodings
//! and scalar multiplication.

use crate::limbs::{
    be_bytes_value, bit_value, bits_value, byte_bit, fq_modulus, fq_modulus_limbs, fr_modulus,
    le_bytes_value, lemma_bits_value_append, lemma_bits_value_injective,
    lemma_le_bytes_value_injective, lemma_nat_bit_of_bits_value, limbs_lt, limbs_to_le_bytes,
    limbs_value, nat_bit,
};
use crate::scalar::Fr;
use ark_bn254::{Fq, G1Projective};
use ark_ec::CurveGroup;
use ark_ff::{BigInt, PrimeField};
use vstd::arithmetic::div_mod::{
    lemma_mod_bound, lemma_mul_mod_noop_general, lemma_mul_mod_noop_left, lemma_mul_mod_noop_right,
    lemma_small_mod,
};
use vstd::arithmetic::power2::*;
use vstd::prelude::*;
use vstd::slice::slice_subrange;
use vstd::std_specs::cmp::{PartialEqSpec, PartialEqSpecImpl};

verus! {

/// A scalar field element written out as 254 little-endian bits.
#[derive(Clone, Copy, Debug, PartialEq, Eq)]
pub struct FrBits(pub [bool; 254]);

/// Why a byte string does not decode.
#[derive(Clone, Copy, Debug, PartialEq, Eq, Structural)]
pub enum DecodeError {
    /// The string does not have the length that the encoding has.
    WrongLength,
}

/// Bit `i` of `bits` is bit `i % 8` of byte `i / 8` of `bytes`, for each of
/// the 254 bits.
pub open spec fn packed_bits(bytes: Seq<u8>, bits: Seq<bool>) -> bool {
    &&& bytes.len() == 32
    &&& bits.len() == 254
    &&& forall|i: int| 0 <= i < 254 ==> #[trigger] bits[i] == byte_bit(bytes[i / 8], (i % 8) as u8)
}

/// What `FrBits::to_fr` gives for `bits`: the element that they stand for and
/// `true` when their integer is below `r`, else zero and `false`.
pub open spec fn read_from_bits(bits: Seq<bool>, res: (Fr, bool)) -> bool {
    &&& res.1 == (bits_value(bits) < fr_modulus())
    &&& res.1 ==> res.0@ == bits_value(bits)
    &&& !res.1 ==> res.0@ == 0
}

/// Reading back the bits that `FrBits::from_fr` writes for a scalar gives the
/// scalar, marked valid.
pub proof fn lemma_to_fr_undoes_from_fr(p: Fr, bits: FrBits, back: (Fr, bool))
    requires
        p@ < fr_modulus(),
        bits_value(bits.0@) == p@,
        read_from_bits(bits.0@, back),
    ensures
        back.1,
        back.0@ == p@,
{
}

/// Writing out as bits the element that valid bits stand for gives those bits
/// again.
pub proof fn lemma_from_fr_undoes_to_fr(bits: FrBits, back: (Fr, bool), again: FrBits)
    requires
        read_from_bits(bits.0@, back),
        back.1,
        bits_value(again.0@) == back.0@,
    ensures
        again.0@ == bits.0@,
{
    lemma_bits_value_injective(again.0@, bits.0@);
}

/// Unpacking the bytes that `FrBits::to_packed_bytes` writes gives the bits
/// again: the bytes fix all 254 bits.
pub proof fn lemma_unpack_undoes_pack(bytes: Seq<u8>, bits: Seq<bool>, again: Seq<bool>)
    requires
        packed_bits(bytes, bits),
        packed_bits(bytes, again),
    ensures
        again == bits,
{
    assert(again =~= bits);
}

/// Packing the bits unpacked from 32 bytes gives the bytes again exactly when
/// the two top bits of the last byte are clear.
pub proof fn lemma_pack_undoes_unpack(bytes: Seq<u8>, bits: Seq<bool>, again: Seq<u8>)
    requires
        packed_bits(bytes, bits),
        packed_bits(again, bits),
        again[31] < 64,
    ensures
        (again == bytes) == (bytes[31] < 64),
{
    lemma_byte_below_64(bytes[31]);
    lemma_byte_below_64(again[31]);
    if bytes[31] < 64 {
        assert forall|k: int| 0 <= k < 32 implies again[k] == bytes[k] by {
            assert forall|t: u8| t < 8 implies byte_bit(again[k], t) == byte_bit(bytes[k], t) by {
                let i = 8 * k + t;
                if i < 254 {
                    assert(i / 8 == k && i % 8 == t);
                    assert(bits[i] == byte_bit(bytes[i / 8], (i % 8) as u8));
                    assert(bits[i] == byte_bit(again[i / 8], (i % 8) as u8));
                }
            }
            lemma_byte_from_bits(again[k], bytes[k]);
        }
        assert(again =~= bytes);
    }
}

/// The value of a 254-bit string read as four limbs of 64, 64, 64 and 62 bits.
pub proof fn lemma_bits_value_limb_chunks(s: Seq<bool>)
    requires
        s.len() == 254,
    ensures
        bits_value(s) == limbs_value_of(
            bits_value(s.subrange(0, 64)),
            bits_value(s.subrange(64, 128)),
            bits_value(s.subrange(128, 192)),
            bits_value(s.subrange(192, 254)),
        ),
{
    let s0 = s.subrange(0, 64);
    let s1 = s.subrange(64, 128);
    let s2 = s.subrange(128, 192);
    let s3 = s.subrange(192, 254);
    assert(s =~= s0 + (s1 + (s2 + s3)));
    lemma_bits_value_append(s2, s3);
    lemma_bits_value_append(s1, s2 + s3);
    lemma_bits_value_append(s0, s1 + (s2 + s3));
    lemma2_to64();
}

/// The integer of four limb values, as `limbs_value` reads limbs.
pub open spec fn limbs_value_of(v0: nat, v1: nat, v2: nat, v3: nat) -> nat {
    v0 + 0x1_0000_0000_0000_0000 * (v1 + 0x1_0000_0000_0000_0000 * (v2 + 0x1_0000_0000_0000_0000
        * v3))
}

/// Writes the `count` low bits of `x` into `bits[start..start + count]`.
fn write_limb_bits(bits: &mut [bool; 254], start: usize, x: u64, count: usize)
    requires
        start + count <= 254,
        count <= 64,
        x < pow2(count as nat),
    ensures
        forall|i: int|
            0 <= i < 254 && !(start <= i < start + count) ==> final(bits)@[i] == old(bits)@[i],
        bits_value(final(bits)@.subrange(start as int, start + count)) == x,
{
    let mut y = x;
    let mut j: usize = 0;
    proof {
        lemma2_to64();
        assert(bits@.subrange(start as int, start as int) =~= Seq::<bool>::empty());
    }
    while j < count
        invariant
            j <= count,
            start + count <= 254,
            count <= 64,
            forall|i: int|
                0 <= i < 254 && !(start <= i < start + j) ==> bits@[i] == old(bits)@[i],
            x == bits_value(bits@.subrange(start as int, start + j)) + pow2(j as nat) * y,
            y < pow2((count - j) as nat),
        decreases count - j,
    {
        let b = y % 2 == 1;
        let ghost before = bits@.subrange(start as int, start + j);
        bits[start + j] = b;
        proof {
            assert(bits@.subrange(start as int, start + j + 1) =~= before + seq![b]);
            lemma_bits_value_append(before, seq![b]);
            assert(bits_value(seq![b]) == bit_value(b)) by {
                assert(seq![b].drop_first() =~= Seq::<bool>::empty());
                assert(bits_value(Seq::<bool>::empty()) == 0);
                assert(seq![b][0] == b);
            }
            let p = pow2(j as nat);
            let yy = y as int;
            assert(p * yy == p * (yy % 2) + (2 * p) * (yy / 2)) by (nonlinear_arith)
                requires
                    yy == 2 * (yy / 2) + yy % 2,
            ;
            lemma_pow2_unfold((j + 1) as nat);
            lemma_pow2_unfold((count - j) as nat);
        }
        y = y / 2;
        j = j + 1;
    }
    proof {
        lemma2_to64();
    }
}

/// Reads `bits[start..start + count]` as an integer.
fn read_limb_bits(bits: &[bool; 254], start: usize, count: usize) -> (x: u64)
    requires
        start + count <= 254,
        count <= 64,
    ensures
        x == bits_value(bits@.subrange(start as int, start + count)),
{
    let mut acc: u64 = 0;
    let mut j: usize = count;
    proof {
        lemma2_to64();
        assert(bits@.subrange(start + count, start + count) =~= Seq::<bool>::empty());
    }
    while j > 0
        invariant
            j <= count,
            start + count <= 254,
            count <= 64,
            acc == bits_value(bits@.subrange(start + j, start + count)),
            acc < pow2((count - j) as nat),
        decreases j,
    {
        j = j - 1;
        let b = bits[start + j];
        proof {
            let s = bits@.subrange(start + j, start + count);
            assert(s.drop_first() =~= bits@.subrange(start + j + 1, start + count));
            assert(s[0] == b);
            lemma_pow2_unfold((count - j) as nat);
            if count - j < 64 {
                lemma_pow2_strictly_increases((count - j) as nat, 64);
            }
            lemma2_to64();
        }
        acc = acc * 2 + if b {
            1
        } else {
            0
        };
    }
    acc
}


/// Setting bit `j` of a byte to `v` by `|` leaves its other bits as they were.
proof fn lemma_or_bit(x: u8, v: u8, j: u8, t: u8)
    requires
        v < 2,
        j < 8,
        t < 8,
    ensures
        byte_bit(x | (v << j), t) == (byte_bit(x, t) || (t == j && v == 1)),
{
    assert((((x | (v << j)) >> t) & 1 == 1) == ((((x >> t) & 1) == 1) || (t == j && v == 1)))
        by (bit_vector)
        requires
            v < 2,
            j < 8,
            t < 8,
    ;
}

/// A byte is fixed by its eight bits.
proof fn lemma_byte_from_bits(x: u8, y: u8)
    requires
        forall|t: u8| t < 8 ==> byte_bit(x, t) == byte_bit(y, t),
    ensures
        x == y,
{
    assert(byte_bit(x, 0) == byte_bit(y, 0));
    assert(byte_bit(x, 1) == byte_bit(y, 1));
    assert(byte_bit(x, 2) == byte_bit(y, 2));
    assert(byte_bit(x, 3) == byte_bit(y, 3));
    assert(byte_bit(x, 4) == byte_bit(y, 4));
    assert(byte_bit(x, 5) == byte_bit(y, 5));
    assert(byte_bit(x, 6) == byte_bit(y, 6));
    assert(byte_bit(x, 7) == byte_bit(y, 7));
    assert(x == y) by (bit_vector)
        requires
            ((x >> 0u8) & 1 == 1) == ((y >> 0u8) & 1 == 1),
            ((x >> 1u8) & 1 == 1) == ((y >> 1u8) & 1 == 1),
            ((x >> 2u8) & 1 == 1) == ((y >> 2u8) & 1 == 1),
            ((x >> 3u8) & 1 == 1) == ((y >> 3u8) & 1 == 1),
            ((x >> 4u8) & 1 == 1) == ((y >> 4u8) & 1 == 1),
            ((x >> 5u8) & 1 == 1) == ((y >> 5u8) & 1 == 1),
            ((x >> 6u8) & 1 == 1) == ((y >> 6u8) & 1 == 1),
            ((x >> 7u8) & 1 == 1) == ((y >> 7u8) & 1 == 1),
    ;
}

/// A byte is below 64 exactly when its two top bits are clear.
proof fn lemma_byte_below_64(x: u8)
    ensures
        (x < 64) == (!byte_bit(x, 6) && !byte_bit(x, 7)),
{
    assert((x < 64) == (!((x >> 6u8) & 1 == 1) && !((x >> 7u8) & 1 == 1))) by (bit_vector);
}

/// Packs `bits[start..start + count]` into the low bits of a byte.
fn pack_byte(bits: &[bool; 254], start: usize, count: usize) -> (b: u8)
    requires
        start + count <= 254,
        count <= 8,
    ensures
        forall|t: u8| t < 8 ==> byte_bit(b, t) == (t < count && bits[start + t]),
{
    let mut acc: u8 = 0;
    let mut j: u8 = 0;
    assert forall|t: u8| t < 8 implies !byte_bit(0u8, t) by {
        assert(((0u8 >> t) & 1) == 0) by (bit_vector);
    }
    while (j as usize) < count
        invariant
            j <= count,
            start + count <= 254,
            count <= 8,
            forall|t: u8| t < 8 ==> byte_bit(acc, t) == (t < j && bits[start + t]),
        decreases count - j,
    {
        let v: u8 = if bits[start + j as usize] {
            1
        } else {
            0
        };
        proof {
            assert forall|t: u8| t < 8 implies byte_bit(acc | (v << j), t) == (t < j + 1
                && bits[start + t]) by {
                lemma_or_bit(acc, v, j, t);
            }
        }
        acc = acc | (v << j);
        j = j + 1;
    }
    acc
}

/// Projective coordinates `(x, y, z)` of a point, as integers.
pub type Coords = (nat, nat, nat);

/// Whether all three coordinates are canonical base-field integers (below `q`).
pub open spec fn coords_canonical(c: Coords) -> bool {
    c.0 < fq_modulus() && c.1 < fq_modulus() && c.2 < fq_modulus()
}

/// Equality of two points in Jacobian coordinates, as the curve library decides
/// it: both at infinity (`z = 0`), or both finite with
/// `x1 * z2^2 = x2 * z1^2` and `y1 * z2^3 = y2 * z1^3` in the base field.
pub open spec fn projective_eq(a: Coords, b: Coords) -> bool {
    let q = fq_modulus();
    if a.2 % q == 0 {
        b.2 % q == 0
    } else if b.2 % q == 0 {
        false
    } else {
        &&& (a.0 * (b.2 * b.2)) % q == (b.0 * (a.2 * a.2)) % q
        &&& (a.1 * (b.2 * b.2 * b.2)) % q == (b.1 * (a.2 * a.2 * a.2)) % q
    }
}

/// Whether a point in Jacobian coordinates lies on the curve `y^2 = x^3 + 3`:
/// it is at infinity (`z = 0`), or `y^2 = x^3 + 3 z^6` in the base field (the
/// affine equation multiplied through by `z^6`).
pub open spec fn on_curve(p: Coords) -> bool {
    let q = fq_modulus();
    let z3 = p.2 * p.2 * p.2;
    p.2 % q == 0 || (p.1 * p.1) % q == (p.0 * p.0 * p.0 + 3 * (z3 * z3)) % q
}

/// The coordinates that the curve library gives for the sum of two points.
pub uninterp spec fn g1_add_result(a: Coords, b: Coords) -> Coords;

/// The coordinates that the curve library gives for a point times a scalar.
pub uninterp spec fn g1_mul_result(p: Coords, s: nat) -> Coords;

/// The coordinates of `sum_i scalars[i] * points[i]`, added up in order from the
/// point at infinity `(1, 1, 0)`.
pub open spec fn msm_result(scalars: Seq<nat>, points: Seq<Coords>) -> Coords
    decreases scalars.len(),
{
    if scalars.len() == 0 || points.len() == 0 {
        (1, 1, 0)
    } else {
        g1_add_result(
            msm_result(scalars.drop_last(), points.drop_last()),
            g1_mul_result(points.last(), scalars.last()),
        )
    }
}

/// A point of the BN254 curve group G1 in Jacobian coordinates, each held as
/// its canonical base-field integer in four little-endian limbs.
#[derive(Clone, Copy, Debug)]
pub struct CurvePoint {
    pub(crate) x: [u64; 4],
    pub(crate) y: [u64; 4],
    pub(crate) z: [u64; 4],
}

impl CurvePoint {
    #[verifier::type_invariant]
    spec fn canonical(self) -> bool {
        coords_canonical(self.coords())
    }

    /// The coordinates as integers.
    pub closed spec fn coords(self) -> Coords {
        (limbs_value(self.x), limbs_value(self.y), limbs_value(self.z))
    }
}

impl View for CurvePoint {
    type V = Coords;

    open spec fn view(&self) -> Coords {
        self.coords()
    }
}

/// The sum of two points, by `+` on `G1Projective`. Its coordinates are named,
/// not stated: the curve library's addition formulas decide them.
#[verifier::external_body]
fn g1_add(a: &CurvePoint, b: &CurvePoint) -> (res: CurvePoint)
    ensures
        res@ == g1_add_result(a@, b@),
{
    let p = G1Projective::new_unchecked(Fq::new(BigInt(a.x)), Fq::new(BigInt(a.y)), Fq::new(
        BigInt(a.z),
    )) + G1Projective::new_unchecked(Fq::new(BigInt(b.x)), Fq::new(BigInt(b.y)), Fq::new(
        BigInt(b.z),
    ));
    CurvePoint { x: p.x.into_bigint().0, y: p.y.into_bigint().0, z: p.z.into_bigint().0 }
}

/// A point times a scalar, by `*` on `G1Projective` with an `ark_bn254::Fr`.
/// Its coordinates are named, not stated: the curve library's multiplication
/// algorithm decides them.
#[verifier::external_body]
fn g1_mul(p: &CurvePoint, s: &Fr) -> (res: CurvePoint)
    ensures
        res@ == g1_mul_result(p@, s@),
{
    let r = G1Projective::new_unchecked(Fq::new(BigInt(p.x)), Fq::new(BigInt(p.y)), Fq::new(
        BigInt(p.z),
    )) * ark_bn254::Fr::new(BigInt(s.limbs));
    CurvePoint { x: r.x.into_bigint().0, y: r.y.into_bigint().0, z: r.z.into_bigint().0 }
}

/// Equality of two points by `==` on `G1Projective`, which compares them as
/// `projective_eq` says.
#[verifier::external_body]
fn g1_eq(a: &CurvePoint, b: &CurvePoint) -> (res: bool)
    ensures
        res == projective_eq(a@, b@),
{
    G1Projective::new_unchecked(Fq::new(BigInt(a.x)), Fq::new(BigInt(a.y)), Fq::new(BigInt(a.z)))
        == G1Projective::new_unchecked(Fq::new(BigInt(b.x)), Fq::new(BigInt(b.y)), Fq::new(
        BigInt(b.z),
    ))
}

/// Whether the affine form of a point (`into_affine`) is on the curve
/// (`is_on_curve`): the point at infinity is, and a finite point is when its
/// affine coordinates satisfy `y^2 = x^3 + 3`, which is what `on_curve` states.
#[verifier::external_body]
fn g1_affine_on_curve(p: &CurvePoint) -> (res: bool)
    ensures
        res == on_curve(p@),
{
    G1Projective::new_unchecked(Fq::new(BigInt(p.x)), Fq::new(BigInt(p.y)), Fq::new(BigInt(p.z)))
        .into_affine().is_on_curve()
}

/// `is_in_correct_subgroup_assuming_on_curve` on the affine form of a point. For
/// G1 of BN254 the curve library answers `true` for every point, as the group of
/// points on the curve has prime order.
#[verifier::external_body]
fn g1_in_subgroup_assuming_on_curve(p: &CurvePoint) -> (res: bool)
    ensures
        res,
{
    G1Projective::new_unchecked(Fq::new(BigInt(p.x)), Fq::new(BigInt(p.y)), Fq::new(BigInt(p.z)))
        .into_affine().is_in_correct_subgroup_assuming_on_curve()
}

/// `Fq::from_le_bytes_mod_order`: the little-endian integer of `bytes` reduced
/// modulo `q`, as canonical limbs.
#[verifier::external_body]
fn fq_from_le_bytes_mod_order(bytes: &[u8]) -> (res: [u64; 4])
    ensures
        limbs_value(res) == le_bytes_value(bytes@) % fq_modulus(),
{
    Fq::from_le_bytes_mod_order(bytes).into_bigint().0
}

/// `Fq::from_be_bytes_mod_order`: the big-endian integer of `bytes` reduced
/// modulo `q`, as canonical limbs.
#[verifier::external_body]
fn fq_from_be_bytes_mod_order(bytes: &[u8]) -> (res: [u64; 4])
    ensures
        limbs_value(res) == be_bytes_value(bytes@) % fq_modulus(),
{
    Fq::from_be_bytes_mod_order(bytes).into_bigint().0
}

impl CurvePoint {
    /// The point with the given coordinates, or `None` when one of them is not a
    /// canonical base-field integer. The point is not checked to be on the
    /// curve (see `checked`).
    pub fn from_coordinates(x: [u64; 4], y: [u64; 4], z: [u64; 4]) -> (res: Option<CurvePoint>)
        ensures
            res is Some <==> coords_canonical((limbs_value(x), limbs_value(y), limbs_value(z))),
            res matches Some(p) ==> p@ == (limbs_value(x), limbs_value(y), limbs_value(z)),
    {
        let q = fq_modulus_limbs();
        if limbs_lt(&x, &q) && limbs_lt(&y, &q) && limbs_lt(&z, &q) {
            Some(CurvePoint { x, y, z })
        } else {
            None
        }
    }

    /// The three coordinates, as canonical limbs.
    pub fn coordinates(&self) -> (res: ([u64; 4], [u64; 4], [u64; 4]))
        ensures
            (limbs_value(res.0), limbs_value(res.1), limbs_value(res.2)) == self@,
            coords_canonical(self@),
    {
        proof {
            use_type_invariant(self);
        }
        (self.x, self.y, self.z)
    }

    /// The generator of G1, `(1, 2)` in affine coordinates, lifted with `z = 1`
    /// as the curve library's `G1Projective::generator()` lifts it.
    pub fn generator() -> (res: CurvePoint)
        ensures
            res@ == (1nat, 2nat, 1nat),
    {
        CurvePoint { x: [1, 0, 0, 0], y: [2, 0, 0, 0], z: [1, 0, 0, 0] }
    }

    /// The point at infinity, the identity of G1: `(1, 1, 0)`, as the curve
    /// library's `G1Projective::ZERO` is.
    pub fn zero() -> (res: CurvePoint)
        ensures
            res@ == (1nat, 1nat, 0nat),
    {
        CurvePoint { x: [1, 0, 0, 0], y: [1, 0, 0, 0], z: [0, 0, 0, 0] }
    }

    /// The sum of two points.
    pub fn add(a: CurvePoint, b: CurvePoint) -> (res: CurvePoint)
        ensures
            res@ == g1_add_result(a@, b@),
    {
        g1_add(&a, &b)
    }

    /// The 96 bytes of the point: each coordinate as 32 little-endian bytes, in
    /// the order `x`, `y`, `z`.
    pub fn to_bytes(self) -> (res: [u8; 96])
        ensures
            le_bytes_value(res@.subrange(0, 32)) == self@.0,
            le_bytes_value(res@.subrange(32, 64)) == self@.1,
            le_bytes_value(res@.subrange(64, 96)) == self@.2,
    {
        let xb = limbs_to_le_bytes(&self.x);
        let yb = limbs_to_le_bytes(&self.y);
        let zb = limbs_to_le_bytes(&self.z);
        let mut out = [0u8; 96];
        let mut i: usize = 0;
        while i < 32
            invariant
                i <= 32,
                forall|j: int| 0 <= j < i ==> out[j] == xb[j] && out[32 + j] == yb[j] && out[64
                    + j] == zb[j],
            decreases 32 - i,
        {
            out[i] = xb[i];
            out[32 + i] = yb[i];
            out[64 + i] = zb[i];
            i = i + 1;
        }
        assert(out@.subrange(0, 32) =~= xb@);
        assert(out@.subrange(32, 64) =~= yb@);
        assert(out@.subrange(64, 96) =~= zb@);
        out
    }

    /// The point whose coordinates are the three 32-byte little-endian integers
    /// of `src`, each reduced modulo `q`. The point is not checked to be on the
    /// curve (see `checked`).
    pub fn from_bytes(src: &[u8; 96]) -> (res: CurvePoint)
        ensures
            res@ == (
                le_bytes_value(src@.subrange(0, 32)) % fq_modulus(),
                le_bytes_value(src@.subrange(32, 64)) % fq_modulus(),
                le_bytes_value(src@.subrange(64, 96)) % fq_modulus(),
            ),
    {
        let s = src.as_slice();
        let x = fq_from_le_bytes_mod_order(slice_subrange(s, 0, 32));
        let y = fq_from_le_bytes_mod_order(slice_subrange(s, 32, 64));
        let z = fq_from_le_bytes_mod_order(slice_subrange(s, 64, 96));
        CurvePoint { x, y, z }
    }

    /// The 96 bytes that the point serializes to: each coordinate as 32
    /// big-endian bytes, in the order `x`, `y`, `z`.
    pub fn to_serialized_bytes(&self) -> (res: [u8; 96])
        ensures
            be_bytes_value(res@.subrange(0, 32)) == self@.0,
            be_bytes_value(res@.subrange(32, 64)) == self@.1,
            be_bytes_value(res@.subrange(64, 96)) == self@.2,
    {
        let xb = limbs_to_le_bytes(&self.x);
        let yb = limbs_to_le_bytes(&self.y);
        let zb = limbs_to_le_bytes(&self.z);
        let mut out = [0u8; 96];
        let mut i: usize = 0;
        while i < 32
            invariant
                i <= 32,
                forall|j: int| 0 <= j < i ==> out[31 - j] == xb[j] && out[63 - j] == yb[j] && out[95
                    - j] == zb[j],
            decreases 32 - i,
        {
            out[31 - i] = xb[i];
            out[63 - i] = yb[i];
            out[95 - i] = zb[i];
            i = i + 1;
        }
        assert(out@.subrange(0, 32).reverse() =~= xb@);
        assert(out@.subrange(32, 64).reverse() =~= yb@);
        assert(out@.subrange(64, 96).reverse() =~= zb@);
        out
    }

    /// The point that `bytes` serialize: exactly 96 bytes, whose three 32-byte
    /// big-endian integers, each reduced modulo `q`, are the coordinates. The
    /// point is not checked to be on the curve (see `checked`).
    pub fn from_serialized_bytes(bytes: &[u8]) -> (res: Result<CurvePoint, DecodeError>)
        ensures
            res is Err <==> bytes@.len() != 96,
            res matches Ok(p) ==> p@ == (
                be_bytes_value(bytes@.subrange(0, 32)) % fq_modulus(),
                be_bytes_value(bytes@.subrange(32, 64)) % fq_modulus(),
                be_bytes_value(bytes@.subrange(64, 96)) % fq_modulus(),
            ),
    {
        if bytes.len() != 96 {
            return Err(DecodeError::WrongLength);
        }
        let x = fq_from_be_bytes_mod_order(slice_subrange(bytes, 0, 32));
        let y = fq_from_be_bytes_mod_order(slice_subrange(bytes, 32, 64));
        let z = fq_from_be_bytes_mod_order(slice_subrange(bytes, 64, 96));
        Ok(CurvePoint { x, y, z })
    }

    /// Whether the point is on the curve and in the right subgroup.
    pub fn checked(&self) -> (res: bool)
        ensures
            res == on_curve(self@),
    {
        let on_curve = g1_affine_on_curve(self);
        let in_subgroup = g1_in_subgroup_assuming_on_curve(self);
        on_curve && in_subgroup
    }
}

impl PartialEq for CurvePoint {
    fn eq(&self, other: &Self) -> (res: bool) {
        g1_eq(self, other)
    }
}

impl PartialEqSpecImpl for CurvePoint {
    open spec fn obeys_eq_spec() -> bool {
        true
    }

    open spec fn eq_spec(&self, other: &Self) -> bool {
        projective_eq(self@, other@)
    }
}

impl Eq for CurvePoint {}

/// Decoding the bytes that `CurvePoint::to_bytes` writes gives the point back,
/// with the same coordinates, so equal to it and valid exactly when it is.
pub proof fn lemma_from_bytes_undoes_to_bytes(p: Coords, bytes: Seq<u8>, back: Coords)
    requires
        coords_canonical(p),
        bytes.len() == 96,
        le_bytes_value(bytes.subrange(0, 32)) == p.0,
        le_bytes_value(bytes.subrange(32, 64)) == p.1,
        le_bytes_value(bytes.subrange(64, 96)) == p.2,
        back == (
            le_bytes_value(bytes.subrange(0, 32)) % fq_modulus(),
            le_bytes_value(bytes.subrange(32, 64)) % fq_modulus(),
            le_bytes_value(bytes.subrange(64, 96)) % fq_modulus(),
        ),
    ensures
        back == p,
        projective_eq(back, p),
        on_curve(back) == on_curve(p),
{
    lemma_small_mod(p.0, fq_modulus());
    lemma_small_mod(p.1, fq_modulus());
    lemma_small_mod(p.2, fq_modulus());
}

/// Encoding the point that `CurvePoint::from_bytes` decodes gives the bytes back
/// exactly when each 32-byte integer was already below `q`.
pub proof fn lemma_to_bytes_undoes_from_bytes(bytes: Seq<u8>, p: Coords, again: Seq<u8>)
    requires
        bytes.len() == 96,
        again.len() == 96,
        p == (
            le_bytes_value(bytes.subrange(0, 32)) % fq_modulus(),
            le_bytes_value(bytes.subrange(32, 64)) % fq_modulus(),
            le_bytes_value(bytes.subrange(64, 96)) % fq_modulus(),
        ),
        le_bytes_value(again.subrange(0, 32)) == p.0,
        le_bytes_value(again.subrange(32, 64)) == p.1,
        le_bytes_value(again.subrange(64, 96)) == p.2,
    ensures
        (again == bytes) == (le_bytes_value(bytes.subrange(0, 32)) < fq_modulus()
            && le_bytes_value(bytes.subrange(32, 64)) < fq_modulus() && le_bytes_value(
            bytes.subrange(64, 96),
        ) < fq_modulus()),
{
    let q = fq_modulus();
    let (b0, b1, b2) = (bytes.subrange(0, 32), bytes.subrange(32, 64), bytes.subrange(64, 96));
    let (a0, a1, a2) = (again.subrange(0, 32), again.subrange(32, 64), again.subrange(64, 96));
    lemma_mod_bound(le_bytes_value(b0) as int, q as int);
    lemma_mod_bound(le_bytes_value(b1) as int, q as int);
    lemma_mod_bound(le_bytes_value(b2) as int, q as int);
    if le_bytes_value(b0) < q && le_bytes_value(b1) < q && le_bytes_value(b2) < q {
        lemma_small_mod(le_bytes_value(b0), q);
        lemma_small_mod(le_bytes_value(b1), q);
        lemma_small_mod(le_bytes_value(b2), q);
        lemma_le_bytes_value_injective(a0, b0);
        lemma_le_bytes_value_injective(a1, b1);
        lemma_le_bytes_value_injective(a2, b2);
        assert(again =~= a0 + a1 + a2);
        assert(bytes =~= b0 + b1 + b2);
    } else if again == bytes {
        assert(a0 == b0 && a1 == b1 && a2 == b2);
    }
}

/// Decoding the bytes that `CurvePoint::to_serialized_bytes` writes gives the
/// point back.
pub proof fn lemma_deserialize_undoes_serialize(p: Coords, bytes: Seq<u8>, back: Coords)
    requires
        coords_canonical(p),
        bytes.len() == 96,
        be_bytes_value(bytes.subrange(0, 32)) == p.0,
        be_bytes_value(bytes.subrange(32, 64)) == p.1,
        be_bytes_value(bytes.subrange(64, 96)) == p.2,
        back == (
            be_bytes_value(bytes.subrange(0, 32)) % fq_modulus(),
            be_bytes_value(bytes.subrange(32, 64)) % fq_modulus(),
            be_bytes_value(bytes.subrange(64, 96)) % fq_modulus(),
        ),
    ensures
        back == p,
        projective_eq(back, p),
{
    lemma_small_mod(p.0, fq_modulus());
    lemma_small_mod(p.1, fq_modulus());
    lemma_small_mod(p.2, fq_modulus());
}

/// Serializing the point that `CurvePoint::from_serialized_bytes` decodes gives
/// the bytes back exactly when each 32-byte integer was already below `q`.
pub proof fn lemma_serialize_undoes_deserialize(bytes: Seq<u8>, p: Coords, again: Seq<u8>)
    requires
        bytes.len() == 96,
        again.len() == 96,
        p == (
            be_bytes_value(bytes.subrange(0, 32)) % fq_modulus(),
            be_bytes_value(bytes.subrange(32, 64)) % fq_modulus(),
            be_bytes_value(bytes.subrange(64, 96)) % fq_modulus(),
        ),
        be_bytes_value(again.subrange(0, 32)) == p.0,
        be_bytes_value(again.subrange(32, 64)) == p.1,
        be_bytes_value(again.subrange(64, 96)) == p.2,
    ensures
        (again == bytes) == (be_bytes_value(bytes.subrange(0, 32)) < fq_modulus()
            && be_bytes_value(bytes.subrange(32, 64)) < fq_modulus() && be_bytes_value(
            bytes.subrange(64, 96),
        ) < fq_modulus()),
{
    let q = fq_modulus();
    let (b0, b1, b2) = (bytes.subrange(0, 32), bytes.subrange(32, 64), bytes.subrange(64, 96));
    let (a0, a1, a2) = (again.subrange(0, 32), again.subrange(32, 64), again.subrange(64, 96));
    lemma_mod_bound(be_bytes_value(b0) as int, q as int);
    lemma_mod_bound(be_bytes_value(b1) as int, q as int);
    lemma_mod_bound(be_bytes_value(b2) as int, q as int);
    if be_bytes_value(b0) < q && be_bytes_value(b1) < q && be_bytes_value(b2) < q {
        lemma_small_mod(be_bytes_value(b0), q);
        lemma_small_mod(be_bytes_value(b1), q);
        lemma_small_mod(be_bytes_value(b2), q);
        lemma_le_bytes_value_injective(a0.reverse(), b0.reverse());
        lemma_le_bytes_value_injective(a1.reverse(), b1.reverse());
        lemma_le_bytes_value_injective(a2.reverse(), b2.reverse());
        assert(a0 =~= a0.reverse().reverse());
        assert(b0 =~= b0.reverse().reverse());
        assert(a1 =~= a1.reverse().reverse());
        assert(b1 =~= b1.reverse().reverse());
        assert(a2 =~= a2.reverse().reverse());
        assert(b2 =~= b2.reverse().reverse());
        assert(again =~= a0 + a1 + a2);
        assert(bytes =~= b0 + b1 + b2);
    } else if again == bytes {
        assert(a0 == b0 && a1 == b1 && a2 == b2);
    }
}

/// Point equality is reflexive.
pub proof fn lemma_projective_eq_reflexive(a: Coords)
    ensures
        projective_eq(a, a),
{
}

/// Point equality is symmetric.
pub proof fn lemma_projective_eq_symmetric(a: Coords, b: Coords)
    ensures
        projective_eq(a, b) == projective_eq(b, a),
{
}

/// Two points with `z = 1` (affine points lifted as the curve library lifts
/// them) are equal under `==` exactly when their `x` and their `y` are equal.
pub proof fn lemma_eq_on_affine_points(a: CurvePoint, b: CurvePoint)
    requires
        coords_canonical(a@),
        coords_canonical(b@),
        a@.2 == 1,
        b@.2 == 1,
    ensures
        PartialEqSpec::eq_spec(&a, &b) == (a@.0 == b@.0 && a@.1 == b@.1),
{
    let q = fq_modulus();
    lemma_small_mod(1, q);
    lemma_small_mod(a@.0, q);
    lemma_small_mod(b@.0, q);
    lemma_small_mod(a@.1, q);
    lemma_small_mod(b@.1, q);
    let (ax, ay, az) = a@;
    let (bx, by, bz) = b@;
    assert(ax * (bz * bz) == ax && bx * (az * az) == bx && ay * (bz * bz * bz) == ay && by * (az
        * az * az) == by) by (nonlinear_arith)
        requires
            az == 1,
            bz == 1,
    ;
    assert(projective_eq(a@, b@) == (a@.0 == b@.0 && a@.1 == b@.1));
}

/// A point at infinity (`z = 0`) is equal under `==` exactly to the points at
/// infinity.
pub proof fn lemma_eq_at_infinity(a: CurvePoint, b: CurvePoint)
    requires
        coords_canonical(a@),
        coords_canonical(b@),
        a@.2 == 0,
    ensures
        PartialEqSpec::eq_spec(&a, &b) == (b@.2 == 0),
        PartialEqSpec::eq_spec(&b, &a) == (b@.2 == 0),
{
    let q = fq_modulus();
    lemma_small_mod(0, q);
    lemma_small_mod(b@.2, q);
}

/// `==` on points is reflexive and symmetric.
pub proof fn lemma_eq_reflexive_symmetric(a: CurvePoint, b: CurvePoint)
    ensures
        PartialEqSpec::eq_spec(&a, &a),
        PartialEqSpec::eq_spec(&a, &b) == PartialEqSpec::eq_spec(&b, &a),
{
}

/// A finite point is equal under `==` to every other representation of it:
/// `(l^2 x, l^3 y, l z)` for a nonzero `l`, all taken modulo `q`.
pub proof fn lemma_eq_rescaled(a: CurvePoint, b: CurvePoint, l: nat)
    requires
        coords_canonical(a@),
        a@.2 != 0,
        b@ == (
            (l * l * a@.0) % fq_modulus(),
            (l * l * l * a@.1) % fq_modulus(),
            (l * a@.2) % fq_modulus(),
        ),
        b@.2 != 0,
    ensures
        PartialEqSpec::eq_spec(&a, &b),
{
    let q = fq_modulus() as int;
    let (x, y, z) = (a@.0 as int, a@.1 as int, a@.2 as int);
    let li = l as int;
    lemma_small_mod(a@.2, fq_modulus());
    lemma_mod_bound(li * li * x, q);
    lemma_mod_bound(li * z, q);
    let bx = (li * li * x) % q;
    let by = (li * li * li * y) % q;
    let bz = (li * z) % q;
    // x * bz^2 = x * (l z)^2 = (l^2 x) * z^2 = bx * z^2, modulo q
    lemma_mul_mod_noop_general(li * z, li * z, q);
    lemma_mul_mod_noop_general(x, (li * z) * (li * z), q);
    lemma_mul_mod_noop_right(x, bz * bz, q);
    lemma_mul_mod_noop_left(li * li * x, z * z, q);
    assert(x * ((li * z) * (li * z)) == (li * li * x) * (z * z)) by (nonlinear_arith);
    assert((x * (bz * bz)) % q == (bx * (z * z)) % q);
    // y * bz^3 = (l^3 y) * z^3 = by * z^3, modulo q
    lemma_mul_mod_noop_general(li * z, (li * z) * (li * z), q);
    lemma_mul_mod_noop_general(bz, bz * bz, q);
    lemma_mul_mod_noop_right(y, bz * bz * bz, q);
    lemma_mul_mod_noop_right(y, (li * z) * (li * z) * (li * z), q);
    lemma_mul_mod_noop_left(li * li * li * y, z * z * z, q);
    assert(((li * z) * (li * z) * (li * z)) % q == (bz * bz * bz) % q) by {
        lemma_mul_mod_noop_general(li * z, li * z, q);
        lemma_mul_mod_noop_general((li * z) * (li * z), li * z, q);
        lemma_mul_mod_noop_general(bz * bz, bz, q);
        lemma_mul_mod_noop_left((li * z) * (li * z), li * z, q);
        lemma_mul_mod_noop_left(bz * bz, bz, q);
    }
    assert(y * ((li * z) * (li * z) * (li * z)) == (li * li * li * y) * (z * z * z))
        by (nonlinear_arith);
    assert((y * (bz * bz * bz)) % q == (by * (z * z * z)) % q);
}

/// The multi-scalar multiplication of no terms is the point at infinity, and
/// adding a term `a * p` at the end adds the product of the scalar `a` with its
/// own point `p` to the result: the `i`-th scalar multiplies the `i`-th point.
pub proof fn lemma_msm_result_extends(scalars: Seq<nat>, points: Seq<Coords>, a: nat, p: Coords)
    requires
        scalars.len() == points.len(),
    ensures
        msm_result(Seq::empty(), Seq::empty()) == (1nat, 1nat, 0nat),
        msm_result(scalars.push(a), points.push(p)) == g1_add_result(
            msm_result(scalars, points),
            g1_mul_result(p, a),
        ),
{
    assert(scalars.push(a).drop_last() =~= scalars);
    assert(points.push(p).drop_last() =~= points);
}

/// A point times a scalar.
pub fn point_scalar_mul(scalar: Fr, point: CurvePoint) -> (res: CurvePoint)
    ensures
        res@ == g1_mul_result(point@, scalar@),
{
    g1_mul(&point, &scalar)
}

/// The generator times a scalar.
pub fn point_scalar_mul_gen(scalar: Fr) -> (res: CurvePoint)
    ensures
        res@ == g1_mul_result((1nat, 2nat, 1nat), scalar@),
{
    g1_mul(&CurvePoint::generator(), &scalar)
}

/// The views of a sequence of scalars.
pub open spec fn scalar_values(s: Seq<Fr>) -> Seq<nat> {
    s.map_values(|f: Fr| f@)
}

/// The views of a sequence of points.
pub open spec fn point_coords(s: Seq<CurvePoint>) -> Seq<Coords> {
    s.map_values(|p: CurvePoint| p@)
}

/// The multi-scalar multiplication `sum_i scalars[i] * points[i]`, as the sum of
/// the individual products.
pub fn multi_scalar_mul(scalars: &[Fr], points: &[CurvePoint]) -> (res: CurvePoint)
    requires
        scalars@.len() == points@.len(),
    ensures
        res@ == msm_result(scalar_values(scalars@), point_coords(points@)),
{
    let mut acc = CurvePoint::zero();
    let mut i: usize = 0;
    while i < scalars.len()
        invariant
            i <= scalars@.len(),
            scalars@.len() == points@.len(),
            acc@ == msm_result(
                scalar_values(scalars@.take(i as int)),
                point_coords(points@.take(i as int)),
            ),
        decreases scalars@.len() - i,
    {
        let term = g1_mul(&points[i], &scalars[i]);
        proof {
            let ss = scalar_values(scalars@.take(i + 1));
            let ps = point_coords(points@.take(i + 1));
            assert(ss.drop_last() =~= scalar_values(scalars@.take(i as int)));
            assert(ps.drop_last() =~= point_coords(points@.take(i as int)));
            assert(ss.last() == scalars@[i as int]@);
            assert(ps.last() == points@[i as int]@);
        }
        acc = g1_add(&acc, &term);
        i = i + 1;
    }
    proof {
        assert(scalars@.take(i as int) =~= scalars@);
        assert(points@.take(i as int) =~= points@);
    }
    acc
}

impl FrBits {
    /// The bits packed into 32 bytes: bit `i` becomes bit `i % 8` of byte
    /// `i / 8`, and the two top bits of the last byte are clear.
    pub fn to_packed_bytes(&self) -> (res: [u8; 32])
        ensures
            packed_bits(res@, self.0@),
            res[31] < 64,
    {
        let mut out = [0u8; 32];
        let mut k: usize = 0;
        while k < 32
            invariant
                k <= 32,
                forall|i: int| 0 <= i < 8 * k && i < 254 ==> byte_bit(out[i / 8], (i % 8) as u8)
                    == self.0[i],
                forall|m: int| 0 <= m < k ==> m < 31 || out[m] < 64,
            decreases 32 - k,
        {
            let count: usize = if k < 31 {
                8
            } else {
                6
            };
            let b = pack_byte(&self.0, 8 * k, count);
            proof {
                if k == 31 {
                    lemma_byte_below_64(b);
                }
            }
            out[k] = b;
            proof {
                assert forall|i: int| 0 <= i < 8 * (k + 1) && i < 254 implies byte_bit(
                    out[i / 8],
                    (i % 8) as u8,
                ) == self.0[i] by {
                    if i >= 8 * k {
                        assert(i / 8 == k);
                        assert(8 * k + (i % 8) == i);
                    }
                }
            }
            k = k + 1;
        }
        out
    }

    /// The bits packed in `bytes`, which must be exactly 32 bytes long; the two
    /// top bits of the last byte are not read.
    pub fn from_packed_bytes(bytes: &[u8]) -> (res: Result<FrBits, DecodeError>)
        ensures
            res is Err <==> bytes@.len() != 32,
            res matches Ok(b) ==> packed_bits(bytes@, b.0@),
    {
        if bytes.len() != 32 {
            return Err(DecodeError::WrongLength);
        }
        let mut bits = [false; 254];
        let mut i: usize = 0;
        while i < 254
            invariant
                i <= 254,
                bytes@.len() == 32,
                forall|m: int| 0 <= m < i ==> bits[m] == byte_bit(bytes@[m / 8], (m % 8) as u8),
            decreases 254 - i,
        {
            bits[i] = (bytes[i / 8] >> ((i % 8) as u8)) & 1 == 1;
            i = i + 1;
        }
        Ok(FrBits(bits))
    }

    /// The bits of a scalar field element, least significant first.
    pub fn from_fr(p: Fr) -> (res: FrBits)
        ensures
            bits_value(res.0@) == p@,
            p@ < fr_modulus(),
            forall|i: int| 0 <= i < 254 ==> res.0[i] == nat_bit(p@, i as nat),
    {
        let l = p.limbs();
        let mut bits = [false; 254];
        proof {
            lemma2_to64();
            assert(l[3] < 0x4000_0000_0000_0000) by {
                assert(limbs_value(l) >= 0x1_0000_0000_0000_0000_0000_0000_0000_0000_0000_0000_0000_0000
                    * (l[3] as nat));
            }
        }
        write_limb_bits(&mut bits, 0, l[0], 64);
        let ghost c0 = bits@.subrange(0, 64);
        write_limb_bits(&mut bits, 64, l[1], 64);
        let ghost c1 = bits@.subrange(64, 128);
        write_limb_bits(&mut bits, 128, l[2], 64);
        let ghost c2 = bits@.subrange(128, 192);
        proof {
            lemma2_to64();
            lemma2_to64_rest();
            assert(l[3] < pow2(62nat));
        }
        write_limb_bits(&mut bits, 192, l[3], 62);
        proof {
            assert(bits@.subrange(0, 64) =~= c0);
            assert(bits@.subrange(64, 128) =~= c1);
            assert(bits@.subrange(128, 192) =~= c2);
            lemma_bits_value_limb_chunks(bits@);
            assert forall|i: int| 0 <= i < 254 implies bits[i] == nat_bit(p@, i as nat) by {
                lemma_nat_bit_of_bits_value(bits@, i as nat);
            }
        }
        FrBits(bits)
    }

    /// The scalar field element that the bits stand for, and whether they stand
    /// for one: when their integer is `r` or more, the element is zero and the
    /// flag is false.
    pub fn to_fr(&self) -> (res: (Fr, bool))
        ensures
            read_from_bits(self.0@, res),
    {
        let l = [
            read_limb_bits(&self.0, 0, 64),
            read_limb_bits(&self.0, 64, 64),
            read_limb_bits(&self.0, 128, 64),
            read_limb_bits(&self.0, 192, 62),
        ];
        proof {
            lemma_bits_value_limb_chunks(self.0@);
        }
        match Fr::from_limbs(l) {
            Some(f) => (f, true),
            None => (Fr::zero(), false),
        }
    }
}

} // verus!
