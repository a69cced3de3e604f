//! Big signed integers for lattice reduction, the lattice that decomposes a
//! pair of scalars, and bit access on scalars.

use crate::limbs::{fr_modulus, fr_modulus_limbs, limbs_value, nat_bit};
use crate::curve::FrBits;
use crate::scalar::Fr;
use vstd::arithmetic::div_mod::{
    lemma_div_denominator, lemma_fundamental_div_mod_converse, lemma_hoist_over_denominator,
    lemma_mod_multiples_vanish,
};
use vstd::arithmetic::power2::*;
use vstd::bits::lemma_u64_shr_is_div;
use vstd::prelude::*;

verus! {

/// The integer that little-endian 64-bit digits stand for.
pub open spec fn digits_value(s: Seq<u64>) -> nat
    decreases s.len(),
{
    if s.len() == 0 {
        0
    } else {
        s[0] as nat + 0x1_0000_0000_0000_0000 * digits_value(s.drop_first())
    }
}

/// A signed integer of any size: its sign and the little-endian 64-bit digits
/// of its absolute value.
#[derive(Clone, Debug)]
pub struct Integer {
    pub negative: bool,
    pub digits: Vec<u64>,
}

impl Integer {
    /// The absolute value.
    pub open spec fn magnitude(self) -> nat {
        digits_value(self.digits@)
    }

    /// The value, with its sign.
    pub open spec fn value(self) -> int {
        if self.negative {
            -(self.magnitude() as int)
        } else {
            self.magnitude() as int
        }
    }
}

/// The value of two concatenated digit strings.
pub proof fn lemma_digits_value_append(a: Seq<u64>, b: Seq<u64>)
    ensures
        digits_value(a + b) == digits_value(a) + pow2(64 * a.len()) * digits_value(b),
    decreases a.len(),
{
    if a.len() == 0 {
        assert(a + b =~= b);
        lemma2_to64();
    } else {
        assert((a + b).drop_first() =~= a.drop_first() + b);
        lemma_digits_value_append(a.drop_first(), b);
        let n = (a.len() - 1) as nat;
        lemma_pow2_adds(64, 64 * n);
        assert(64 * a.len() == 64 + 64 * n);
        lemma2_to64();
        let p = pow2(64 * n);
        let vb = digits_value(b);
        assert(0x1_0000_0000_0000_0000 * (p * vb) == (0x1_0000_0000_0000_0000 * p) * vb)
            by (nonlinear_arith);
    }
}

/// A digit string stands for an integer below two to 64 times its length.
pub proof fn lemma_digits_value_bound(s: Seq<u64>)
    ensures
        digits_value(s) < pow2(64 * s.len()),
    decreases s.len(),
{
    if s.len() == 0 {
        lemma2_to64();
    } else {
        lemma_digits_value_bound(s.drop_first());
        let n = (s.len() - 1) as nat;
        lemma_pow2_adds(64, 64 * n);
        assert(64 * s.len() == 64 + 64 * n);
        lemma2_to64();
        let p = pow2(64 * n);
        let r = digits_value(s.drop_first());
        assert(s[0] + 0x1_0000_0000_0000_0000 * r < 0x1_0000_0000_0000_0000 * p)
            by (nonlinear_arith)
            requires
                r < p,
                s[0] < 0x1_0000_0000_0000_0000,
        ;
    }
}

/// A digit string stands for zero exactly when all its digits are zero.
pub proof fn lemma_digits_value_zero(s: Seq<u64>)
    ensures
        (digits_value(s) == 0) == (forall|i: int| 0 <= i < s.len() ==> s[i] == 0),
    decreases s.len(),
{
    if s.len() > 0 {
        lemma_digits_value_zero(s.drop_first());
        if digits_value(s) == 0 {
            assert forall|i: int| 0 <= i < s.len() implies s[i] == 0 by {
                if i > 0 {
                    assert(s[i] == s.drop_first()[i - 1]);
                }
            }
        }
        if forall|i: int| 0 <= i < s.len() ==> s[i] == 0 {
            assert forall|i: int| 0 <= i < s.drop_first().len() implies s.drop_first()[i] == 0 by {
                assert(s.drop_first()[i] == s[i + 1]);
            }
        }
    }
}

/// The value of four digits, read as limbs.
proof fn lemma_digits_value_four(l: [u64; 4])
    ensures
        digits_value(l@) == limbs_value(l),
{
    let s = l@;
    let s1 = s.drop_first();
    let s2 = s1.drop_first();
    let s3 = s2.drop_first();
    let s4 = s3.drop_first();
    assert(s4 =~= Seq::<u64>::empty());
    assert(s3[0] == l[3]);
    assert(s2[0] == l[2]);
    assert(s1[0] == l[1]);
    assert(s[0] == l[0]);
    assert(digits_value(s4) == 0);
    assert(digits_value(s3) == l[3]);
    assert(digits_value(s2) == l[2] + 0x1_0000_0000_0000_0000 * (l[3] as nat));
    assert(digits_value(s1) == l[1] + 0x1_0000_0000_0000_0000 * (l[2] + 0x1_0000_0000_0000_0000
        * (l[3] as nat)));
}

/// The integer of four limbs, as a non-negative `Integer`.
pub fn bigint4_to_integer(f: &[u64; 4]) -> (res: Integer)
    ensures
        !res.negative,
        res.digits@ == f@,
        res.value() == limbs_value(*f),
{
    let digits = vec![f[0], f[1], f[2], f[3]];
    proof {
        assert(digits@ =~= f@);
        lemma_digits_value_four(*f);
    }
    Integer { negative: false, digits }
}

/// The absolute value of an integer modulo two to the 256, as four limbs: its
/// four lowest digits, zero-padded.
pub fn integer_to_bigint4(f: &Integer) -> (res: [u64; 4])
    ensures
        limbs_value(res) == f.magnitude() % pow2(256),
{
    let n = f.digits.len();
    let mut l = [0u64; 4];
    let mut k: usize = 0;
    while k < 4
        invariant
            k <= 4,
            n == f.digits@.len(),
            forall|i: int| 0 <= i < k ==> l[i] == if i < n {
                f.digits@[i]
            } else {
                0u64
            },
            forall|i: int| k <= i < 4 ==> l[i] == 0,
        decreases 4 - k,
    {
        if k < n {
            l[k] = f.digits[k];
        }
        k = k + 1;
    }
    proof {
        let s = f.digits@;
        lemma_digits_value_four(l);
        lemma2_to64();
        if n >= 4 {
            assert(s =~= l@ + s.skip(4));
            lemma_digits_value_append(l@, s.skip(4));
            assert(64 * l@.len() == 256);
            lemma_digits_value_bound(l@);
            assert(f.magnitude() == digits_value(s.skip(4)) * pow2(256) + limbs_value(l)) by (nonlinear_arith)
                requires
                    f.magnitude() == limbs_value(l) + pow2(256) * digits_value(s.skip(4)),
            ;
            lemma_fundamental_div_mod_converse(
                f.magnitude() as int,
                pow2(256) as int,
                digits_value(s.skip(4)) as int,
                limbs_value(l) as int,
            );
        } else {
            let zeros = l@.skip(n as int);
            assert(l@ =~= s + zeros);
            lemma_digits_value_append(s, zeros);
            lemma_digits_value_zero(zeros);
            lemma_digits_value_bound(l@);
            assert(64 * l@.len() == 256);
            vstd::arithmetic::div_mod::lemma_small_mod(f.magnitude(), pow2(256));
        }
    }
    l
}

/// Whether the absolute value of an integer is zero.
fn is_zero(i: &Integer) -> (res: bool)
    ensures
        res == (i.magnitude() == 0),
{
    let n = i.digits.len();
    let mut k: usize = 0;
    while k < n
        invariant
            k <= n,
            n == i.digits@.len(),
            forall|t: int| 0 <= t < k ==> i.digits@[t] == 0,
        decreases n - k,
    {
        if i.digits[k] != 0 {
            proof {
                lemma_digits_value_zero(i.digits@);
            }
            return false;
        }
        k = k + 1;
    }
    proof {
        lemma_digits_value_zero(i.digits@);
    }
    true
}

/// Whether the absolute value of an integer is below two to the 170, with its
/// four lowest digits.
fn below_bound(i: &Integer) -> (res: (bool, [u64; 4]))
    ensures
        res.0 == (i.magnitude() < pow2(170)),
        res.0 ==> limbs_value(res.1) == i.magnitude(),
{
    let l = integer_to_bigint4(i);
    let n = i.digits.len();
    let mut high_zero = true;
    let mut k: usize = 4;
    while k < n
        invariant
            4 <= k <= n || (n < 4 && k == 4),
            n == i.digits@.len(),
            high_zero == (forall|t: int| 4 <= t < k ==> i.digits@[t] == 0),
        decreases n - k,
    {
        if i.digits[k] != 0 {
            high_zero = false;
        }
        k = k + 1;
    }
    let small = high_zero && l[3] == 0 && l[2] < 0x400_0000_0000;
    proof {
        let s = i.digits@;
        let mag = i.magnitude();
        lemma2_to64();
        lemma_pow2_adds(64, 64);
        lemma2_to64_rest();
        lemma_pow2_adds(128, 42);
        lemma_pow2_adds(128, 128);
        let p170 = pow2(170);
        let p256 = pow2(256);
        assert(p170 == 0x400_0000_0000_0000_0000_0000_0000_0000_0000_0000_0000);
        assert((limbs_value(l) < p170) == (l[3] == 0 && l[2] < 0x400_0000_0000));
        lemma_pow2_strictly_increases(170, 256);
        lemma_digits_value_bound(s);
        if n > 4 {
            let hi = s.skip(4);
            let lo = s.take(4);
            assert(s =~= lo + hi);
            lemma_digits_value_append(lo, hi);
            lemma_digits_value_bound(lo);
            lemma_digits_value_zero(hi);
            assert(high_zero == (forall|t: int| 0 <= t < hi.len() ==> hi[t] == 0)) by {
                if high_zero {
                    assert forall|t: int| 0 <= t < hi.len() implies hi[t] == 0 by {
                        assert(hi[t] == s[t + 4]);
                    }
                }
                if forall|t: int| 0 <= t < hi.len() ==> hi[t] == 0 {
                    assert forall|t: int| 4 <= t < k implies s[t] == 0 by {
                        assert(hi[t - 4] == s[t]);
                    }
                }
            }
            assert(64 * lo.len() == 256);
            if high_zero {
                assert(digits_value(hi) == 0);
                assert(p256 * digits_value(hi) == 0);
                assert(mag == digits_value(lo));
                vstd::arithmetic::div_mod::lemma_small_mod(mag, p256);
                assert(limbs_value(l) == mag);
            } else {
                assert(digits_value(hi) >= 1);
                assert(p256 * digits_value(hi) >= p256) by (nonlinear_arith)
                    requires
                        digits_value(hi) >= 1,
                ;
                assert(mag >= p256);
                assert(!small);
            }
        } else {
            assert(high_zero);
            if n < 4 {
                lemma_pow2_strictly_increases(64 * n as nat, 256);
            }
            vstd::arithmetic::div_mod::lemma_small_mod(mag, p256);
            assert(limbs_value(l) == mag);
        }
    }
    (small, l)
}

/// A scalar with a sign: `Decomp(x, true)` stands for `-x`.
#[derive(Clone, Copy, Debug, PartialEq, Eq)]
pub struct Decomp(pub Fr, pub bool);

/// Whether `d` is the decomposition part for the integer `i`: its absolute
/// value as a scalar, and whether it is negative.
pub open spec fn decomp_of_integer(d: Decomp, i: Integer) -> bool {
    d.0@ == i.magnitude() && d.1 == (i.value() < 0)
}

impl Decomp {
    /// The signed integer that the decomposition part stands for.
    pub open spec fn signed_value(self) -> int {
        if self.1 {
            -(self.0@ as int)
        } else {
            self.0@ as int
        }
    }
}

/// Whether `(x1, x2, z)` lies in the lattice of `(k1, k2)`: `x1 = k1 z` and
/// `x2 = k2 z` modulo `r`.
pub open spec fn in_decomposition_lattice(k1: nat, k2: nat, x1: int, x2: int, z: int) -> bool {
    &&& (x1 - k1 * z) % (fr_modulus() as int) == 0
    &&& (x2 - k2 * z) % (fr_modulus() as int) == 0
}

/// The values of a row of integers.
pub open spec fn row_values(row: Seq<Integer>) -> Seq<int> {
    row.map_values(|i: Integer| i.value())
}

/// The integer zero.
fn zero_integer() -> (res: Integer)
    ensures
        res.value() == 0,
{
    Integer { negative: false, digits: Vec::new() }
}

/// The integer one.
fn one_integer() -> (res: Integer)
    ensures
        res.value() == 1,
{
    let res = Integer { negative: false, digits: vec![1] };
    assert(res.digits@.drop_first() =~= Seq::<u64>::empty());
    assert(digits_value(Seq::<u64>::empty()) == 0);
    assert(res.digits@[0] == 1);
    res
}

/// A row of three integers.
fn row3(a: Integer, b: Integer, c: Integer) -> (res: Vec<Integer>)
    ensures
        row_values(res@) == seq![a.value(), b.value(), c.value()],
{
    let res = vec![a, b, c];
    assert(row_values(res@) =~= seq![a.value(), b.value(), c.value()]);
    res
}

/// The basis of the lattice of `(k1, k2)`: rows `(r, 0, 0)`, `(0, r, 0)` and
/// `(k1, k2, 1)`. Lattice reduction of it gives short `(x1, x2, z)` with
/// `k1 = x1 / z` and `k2 = x2 / z` modulo `r`.
pub fn decomposition_basis(k1: &Fr, k2: &Fr) -> (res: Vec<Vec<Integer>>)
    ensures
        res@.len() == 3,
        row_values(res@[0]@) == seq![fr_modulus() as int, 0, 0],
        row_values(res@[1]@) == seq![0, fr_modulus() as int, 0],
        row_values(res@[2]@) == seq![k1@ as int, k2@ as int, 1],
{
    let m = fr_modulus_limbs();
    let row0 = row3(bigint4_to_integer(&m), zero_integer(), zero_integer());
    let row1 = row3(zero_integer(), bigint4_to_integer(&m), zero_integer());
    let row2 = row3(bigint4_to_integer(&k1.limbs()), bigint4_to_integer(&k2.limbs()), one_integer());
    vec![row0, row1, row2]
}

/// Each row of the basis of the lattice of `(k1, k2)` lies in that lattice.
pub proof fn lemma_basis_rows_in_lattice(k1: nat, k2: nat)
    ensures
        in_decomposition_lattice(k1, k2, fr_modulus() as int, 0, 0),
        in_decomposition_lattice(k1, k2, 0, fr_modulus() as int, 0),
        in_decomposition_lattice(k1, k2, k1 as int, k2 as int, 1),
{
    let r = fr_modulus() as int;
    vstd::arithmetic::div_mod::lemma_mod_self_0(r);
    assert(0int % r == 0) by {
        vstd::arithmetic::div_mod::lemma_small_mod(0, r as nat);
    }
}

/// Whether row `t` of `rows` has three entries or more, the last of them zero.
pub open spec fn zero_z(rows: Seq<Vec<Integer>>, t: int) -> bool {
    rows[t]@.len() >= 3 && rows[t]@[2].magnitude() == 0
}

/// Whether row `s` is the first row of `rows` with a nonzero last entry.
pub open spec fn first_nonzero_z(rows: Seq<Vec<Integer>>, s: int) -> bool {
    &&& 0 <= s < rows.len()
    &&& rows[s]@.len() >= 3
    &&& rows[s]@[2].magnitude() != 0
    &&& forall|t: int| 0 <= t < s ==> #[trigger] zero_z(rows, t)
}

/// Whether a reduced basis yields a decomposition: some row has a nonzero last
/// entry (and every row before it has three entries), and the three entries of
/// the first such row are below two to the 170 in absolute value. The lattice
/// has determinant `r^2`, so its short rows have entries near `r^(2/3)`; the
/// reduced rows stay within about `1.22 r^(2/3)`, which is below two to the
/// 170 and, as that is below `r`, leaves each entry a scalar of its own.
pub open spec fn usable_reduced_basis(rows: Seq<Vec<Integer>>) -> bool {
    exists|s: int|
        #[trigger] first_nonzero_z(rows, s) && rows[s]@[0].magnitude() < pow2(170)
            && rows[s]@[1].magnitude() < pow2(170) && rows[s]@[2].magnitude() < pow2(170)
}

/// The decomposition part for an integer below two to the 170 in absolute
/// value: its absolute value as a scalar, and its sign.
fn decomp_of(i: &Integer) -> (res: Decomp)
    requires
        i.magnitude() < pow2(170),
    ensures
        decomp_of_integer(res, *i),
        res.signed_value() == i.value(),
{
    let (_, l) = below_bound(i);
    proof {
        lemma2_to64();
        lemma_pow2_strictly_increases(170, 253);
        assert(pow2(253) < fr_modulus()) by {
            lemma_pow2_adds(64, 64);
            lemma_pow2_adds(192, 61);
            lemma_pow2_adds(128, 64);
            lemma2_to64_rest();
        }
    }
    let f = match Fr::from_limbs(l) {
        Some(f) => f,
        None => Fr::zero(),
    };
    let negative = i.negative && !is_zero(i);
    Decomp(f, negative)
}

/// Whether the first row with a nonzero last entry exists and is short enough;
/// `decompose_reduced_basis` needs it.
pub fn check_reduced_basis(rows: &Vec<Vec<Integer>>) -> (res: bool)
    ensures
        res == usable_reduced_basis(rows@),
{
    let n = rows.len();
    let mut s: usize = 0;
    while s < n
        invariant
            s <= n,
            n == rows@.len(),
            forall|t: int| 0 <= t < s ==> #[trigger] zero_z(rows@, t),
        decreases n - s,
    {
        if rows[s].len() < 3 {
            proof {
                assert forall|u: int| #[trigger] first_nonzero_z(rows@, u) implies false by {
                    if u > s {
                        assert(zero_z(rows@, s as int));
                    } else if u < s {
                        assert(zero_z(rows@, u));
                    }
                }
            }
            return false;
        }
        if !is_zero(&rows[s][2]) {
            let (a, _) = below_bound(&rows[s][0]);
            let (b, _) = below_bound(&rows[s][1]);
            let (c, _) = below_bound(&rows[s][2]);
            proof {
                assert(first_nonzero_z(rows@, s as int));
                assert forall|u: int| #[trigger] first_nonzero_z(rows@, u) implies u == s by {
                    if u > s {
                        assert(zero_z(rows@, s as int));
                    } else if u < s {
                        assert(zero_z(rows@, u));
                    }
                }
            }
            return a && b && c;
        }
        proof {
            assert(zero_z(rows@, s as int));
        }
        s = s + 1;
    }
    proof {
        assert forall|u: int| #[trigger] first_nonzero_z(rows@, u) implies false by {
            assert(u < s);
            assert(zero_z(rows@, u));
        }
    }
    false
}

/// The decomposition that a reduced basis of the lattice of `(k1, k2)` gives:
/// the first row with a nonzero last entry, `(x1, x2, z)`, each entry as a
/// scalar of its absolute value and its sign.
pub fn decompose_reduced_basis(rows: &Vec<Vec<Integer>>) -> (res: (Decomp, Decomp, Decomp))
    requires
        usable_reduced_basis(rows@),
    ensures
        forall|s: int|
            #[trigger] first_nonzero_z(rows@, s) ==> {
                &&& decomp_of_integer(res.0, rows@[s]@[0])
                &&& decomp_of_integer(res.1, rows@[s]@[1])
                &&& decomp_of_integer(res.2, rows@[s]@[2])
                &&& res.0.signed_value() == rows@[s]@[0].value()
                &&& res.1.signed_value() == rows@[s]@[1].value()
                &&& res.2.signed_value() == rows@[s]@[2].value()
            },
{
    let ghost sol = choose|s: int|
        #[trigger] first_nonzero_z(rows@, s) && rows@[s]@[0].magnitude() < pow2(170)
            && rows@[s]@[1].magnitude() < pow2(170) && rows@[s]@[2].magnitude() < pow2(170);
    let n = rows.len();
    let mut s: usize = 0;
    loop
        invariant
            first_nonzero_z(rows@, sol),
            n == rows@.len(),
            s <= sol,
        ensures
            s == sol,
        decreases sol - s,
    {
        proof {
            if s < sol {
                assert(zero_z(rows@, s as int));
            }
        }
        if !is_zero(&rows[s][2]) {
            break;
        }
        assert(s < sol);
        s = s + 1;
    }
    proof {
        assert forall|u: int| #[trigger] first_nonzero_z(rows@, u) implies u == sol by {
            if u < sol {
                assert(zero_z(rows@, u));
            } else if u > sol {
                assert(zero_z(rows@, sol));
            }
        }
    }
    let x1 = decomp_of(&rows[s][0]);
    let x2 = decomp_of(&rows[s][1]);
    let z = decomp_of(&rows[s][2]);
    (x1, x2, z)
}

/// A decomposition taken from a row of the lattice of `(k1, k2)` satisfies
/// `k1 * z - x1 = 0` and `k2 * z - x2 = 0` modulo `r`, signs applied.
pub proof fn lemma_decomposition_in_lattice(
    k1: nat,
    k2: nat,
    row: Seq<int>,
    res: (Decomp, Decomp, Decomp),
)
    requires
        row.len() == 3,
        in_decomposition_lattice(k1, k2, row[0], row[1], row[2]),
        res.0.signed_value() == row[0],
        res.1.signed_value() == row[1],
        res.2.signed_value() == row[2],
    ensures
        (k1 * res.2.signed_value() - res.0.signed_value()) % (fr_modulus() as int) == 0,
        (k2 * res.2.signed_value() - res.1.signed_value()) % (fr_modulus() as int) == 0,
{
    let r = fr_modulus() as int;
    let a = row[0] - k1 * row[2];
    let b = row[1] - k2 * row[2];
    vstd::arithmetic::div_mod::lemma_fundamental_div_mod(a, r);
    vstd::arithmetic::div_mod::lemma_fundamental_div_mod(b, r);
    lemma_fundamental_div_mod_converse(-a, r, -(a / r), 0);
    lemma_fundamental_div_mod_converse(-b, r, -(b / r), 0);
}

/// Bit `i` of the integer of four limbs is bit `i % 64` of limb `i / 64`.
proof fn lemma_limbs_bit(l: [u64; 4], k: nat, j: nat)
    requires
        k < 4,
        j < 64,
    ensures
        nat_bit(limbs_value(l), 64 * k + j) == ((l[k as int] as nat / pow2(j)) % 2 == 1),
{
    let base: int = 0x1_0000_0000_0000_0000;
    let v = limbs_value(l) as int;
    let r3 = l[3] as int;
    let r2 = l[2] + base * r3;
    let r1 = l[1] + base * r2;
    lemma2_to64();
    lemma_pow2_adds(64, 64);
    lemma_pow2_adds(128, 64);
    lemma_pow2_pos(j);
    let hi: int = if k == 0 {
        v
    } else if k == 1 {
        r1
    } else if k == 2 {
        r2
    } else {
        r3
    };
    assert(v / pow2(64 * k) as int == hi) by {
        if k == 0 {
            assert(64 * k == 0);
            assert(pow2(0) == 1);
            assert(v / 1 == v);
        } else if k == 1 {
            assert(64 * k == 64);
            lemma_fundamental_div_mod_converse(v, base, r1, l[0] as int);
        } else if k == 2 {
            let low = l[0] + base * l[1];
            assert(low < base * base) by (nonlinear_arith)
                requires
                    low == l[0] + base * l[1],
                    l[0] < base,
                    l[1] < base,
                    base == 0x1_0000_0000_0000_0000,
            ;
            assert(v == r2 * (base * base) + low) by (nonlinear_arith)
                requires
                    v == l[0] + base * (l[1] + base * r2),
                    low == l[0] + base * l[1],
            ;
            assert(64 * k == 128);
            assert(pow2(128) == base * base);
            lemma_fundamental_div_mod_converse(v, base * base, r2, low);
        } else if k == 3 {
            let low = l[0] + base * (l[1] + base * l[2]);
            assert(low < base * base * base) by (nonlinear_arith)
                requires
                    low == l[0] + base * (l[1] + base * l[2]),
                    l[0] < base,
                    l[1] < base,
                    l[2] < base,
                    base == 0x1_0000_0000_0000_0000,
            ;
            assert(v == r3 * (base * base * base) + low) by (nonlinear_arith)
                requires
                    v == l[0] + base * (l[1] + base * (l[2] + base * r3)),
                    low == l[0] + base * (l[1] + base * l[2]),
            ;
            assert(64 * k == 192);
            assert(pow2(192) == base * base * base);
            lemma_fundamental_div_mod_converse(v, base * base * base, r3, low);
        }
    }
    lemma_pow2_adds(64 * k, j);
    lemma_pow2_pos(64 * k);
    lemma_div_denominator(v, pow2(64 * k) as int, pow2(j) as int);
    let rest: int = if k == 0 {
        r1
    } else if k == 1 {
        r2
    } else if k == 2 {
        r3
    } else {
        0
    };
    assert(hi == l[k as int] + base * rest);
    lemma_pow2_adds(j, (64 - j) as nat);
    let m = pow2((64 - j) as nat) as int * rest;
    assert(base * rest == m * pow2(j)) by (nonlinear_arith)
        requires
            base == pow2(j) * pow2((64 - j) as nat),
            m == pow2((64 - j) as nat) * rest,
    ;
    lemma_hoist_over_denominator(l[k as int] as int, m, pow2(j));
    lemma_pow2_unfold((64 - j) as nat);
    let h = pow2((63 - j) as nat) as int * rest;
    assert(m == 2 * h) by (nonlinear_arith)
        requires
            m == pow2((64 - j) as nat) * rest,
            pow2((64 - j) as nat) == 2 * pow2((63 - j) as nat),
            h == pow2((63 - j) as nat) * rest,
    ;
    lemma_mod_multiples_vanish(h, l[k as int] as int / pow2(j) as int, 2);
}

/// The two most significant of the 256 bits of a scalar are zero, as the
/// scalar is below `r`, which is below two to the 254.
pub proof fn lemma_top_bits_clear(v: nat)
    requires
        v < fr_modulus(),
    ensures
        !nat_bit(v, 255),
        !nat_bit(v, 254),
{
    lemma2_to64();
    lemma_pow2_adds(64, 64);
    lemma_pow2_adds(128, 64);
    lemma_pow2_adds(192, 62);
    lemma_pow2_adds(192, 63);
    lemma2_to64_rest();
    vstd::arithmetic::div_mod::lemma_basic_div(v as int, pow2(254) as int);
    vstd::arithmetic::div_mod::lemma_basic_div(v as int, pow2(255) as int);
}

/// Bit `bit_id` of a scalar counted from the most significant end of its
/// 256-bit representation: bit `255 - bit_id` of its integer, as 0 or 1.
pub fn msb_bit(scalar: &Fr, bit_id: usize) -> (res: u8)
    requires
        bit_id < 256,
    ensures
        res == if nat_bit(scalar@, (255 - bit_id) as nat) {
            1u8
        } else {
            0u8
        },
{
    let big_int = scalar.limbs();
    let k = 3 - bit_id / 64;
    let u64_contain_bits = big_int[k];
    let shift = 63 - bit_id % 64;
    let bit = (u64_contain_bits >> (shift as u64)) & 1;
    proof {
        lemma_limbs_bit(big_int, k as nat, shift as nat);
        assert(64 * k + shift == 255 - bit_id);
        lemma_u64_shr_is_div(u64_contain_bits, shift as u64);
        let y = u64_contain_bits >> (shift as u64);
        assert((y & 1) == y % 2) by (bit_vector);
    }
    bit as u8
}

/// Bit `bit_id` from the most significant end of a scalar, as `msb_bit` reads
/// it, is bit `255 - bit_id` of the bits that `FrBits::from_fr` writes, for the
/// 254 bits that it writes; the two bits above them are zero.
pub proof fn lemma_msb_bit_matches_fr_bits(v: nat, bits: FrBits, bit_id: nat, res: u8)
    requires
        v < fr_modulus(),
        forall|i: int| 0 <= i < 254 ==> bits.0[i] == nat_bit(v, i as nat),
        bit_id < 256,
        res == if nat_bit(v, (255 - bit_id) as nat) {
            1u8
        } else {
            0u8
        },
    ensures
        bit_id >= 2 ==> (res == 1) == bits.0[255 - bit_id],
        bit_id < 2 ==> res == 0,
{
    lemma_top_bits_clear(v);
}

} // verus!
