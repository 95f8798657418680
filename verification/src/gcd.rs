//! Greatest-common-divisor computations: the pairwise Euclidean reduction of
//! a collection of unsigned values, and the extended Euclidean algorithm
//! producing Bezout coefficients.

use crate::divisibility::{gcd_nat, gcd_seq, lemma_gcd_nat_zero_left, lemma_gcd_seq_prefix_one};
use vstd::arithmetic::div_mod::lemma_fundamental_div_mod;
use vstd::math::abs;
use vstd::math::max;
use vstd::prelude::*;

verus! {

/// Core logic of the GCD Euclidean algorithm for only two numbers.
fn gcd_of_two(r0: u32, r1: u32) -> (r: u32)
    ensures
        r as nat == gcd_nat(r0 as nat, r1 as nat),
    decreases r1,
{
    if r1 == 0 {
        r0
    } else {
        gcd_of_two(r1, r0 % r1)
    }
}

/// Calculates the greatest common divisor of a collection of numbers by
/// repeated pairwise Euclidean reduction.
///
/// Returns `0` if the input is empty, the single element itself if the input
/// has exactly one entry, and otherwise the iterative pairwise greatest
/// common divisor across all elements; once the running result reaches `1`
/// it can never change again, so the reduction stops there.
pub fn gcd(numbers: &[u32]) -> (r: u32)
    ensures
        r as nat == gcd_seq(numbers@),
{
    if numbers.len() == 0 {
        return 0;
    }
    if numbers.len() == 1 {
        proof {
            assert(numbers@.drop_last() =~= Seq::<u32>::empty());
            assert(gcd_seq(Seq::<u32>::empty()) == 0);
            assert(numbers@.last() == numbers@[0]);
            lemma_gcd_nat_zero_left(numbers@[0] as nat);
        }
        return numbers[0];
    }
    let mut result: u32 = numbers[0];
    proof {
        assert(numbers@.take(1).drop_last() =~= Seq::<u32>::empty());
        assert(gcd_seq(Seq::<u32>::empty()) == 0);
        assert(numbers@.take(1).last() == numbers@[0]);
        lemma_gcd_nat_zero_left(numbers@[0] as nat);
    }
    let mut i: usize = 1;
    while i < numbers.len()
        invariant
            1 <= i <= numbers@.len(),
            result as nat == gcd_seq(numbers@.take(i as int)),
        decreases numbers@.len() - i,
    {
        result = gcd_of_two(result, numbers[i]);
        proof {
            assert(numbers@.take(i + 1).drop_last() =~= numbers@.take(i as int));
            assert(numbers@.take(i + 1).last() == numbers@[i as int]);
        }
        if result == 1 {
            proof {
                lemma_gcd_seq_prefix_one(numbers@, i + 1);
            }
            return 1;
        }
        i = i + 1;
    }
    proof {
        assert(numbers@.take(numbers@.len() as int) =~= numbers@);
    }
    result
}

/// Iterative extended Euclidean algorithm on non-negative inputs.
///
/// For `big_a >= 0` and `big_b >= 1` it returns `(u, v, g)` with
/// `big_a * u + big_b * v == g` and `g == gcd(big_a, big_b) >= 1`.
/// Both remainders and both coefficient pairs are tracked through the loop;
/// the identity `u*y - x*g == det * big_b` (with `det == 1` or `det == -1`)
/// together with the alternating signs of the coefficients bounds every
/// intermediate value, so the 128-bit arithmetic cannot overflow.
fn bezout_coefficients(big_a: u64, big_b: u64) -> (r: (i128, i128, u64))
    requires
        big_a <= 0x8000000000000000,
        1 <= big_b <= 0x8000000000000000,
    ensures
        ({
            let (u, v, g) = r;
            &&& big_a as int * u + big_b as int * v == g as int
            &&& g as nat == gcd_nat(big_a as nat, big_b as nat)
            &&& 1 <= g
            &&& g as int <= max(big_a as int, big_b as int)
            &&& abs(u as int) <= big_b
            &&& abs(v as int) <= max(big_a as int, 1)
        }),
{
    let mut g: u64 = big_a;
    let mut y: u64 = big_b;
    let mut u: i128 = 1;
    let mut x: i128 = 0;
    let mut vg: i128 = 0;
    let mut vy: i128 = 1;
    let ghost mut det: int = 1;
    proof {
        assert(big_a as int * 1 + big_b as int * 0 == big_a as int) by (nonlinear_arith);
        assert(big_a as int * 0 + big_b as int * 1 == big_b as int) by (nonlinear_arith);
    }
    while y != 0
        invariant
            big_a <= 0x8000000000000000,
            1 <= big_b <= 0x8000000000000000,
            g as int <= max(big_a as int, big_b as int),
            y as int <= max(big_a as int, big_b as int),
            g > 0 || y > 0,
            g as int == big_a as int * u + big_b as int * vg,
            y as int == big_a as int * x + big_b as int * vy,
            u * x <= 0,
            vg * vy <= 0,
            det == 1 || det == -1,
            u as int * y as int - x as int * g as int == det * big_b as int,
            vy as int * g as int - vg as int * y as int == det * big_a as int,
            g == 0 ==> x == 0 && vy == 1,
            abs(u as int) <= big_b,
            abs(vg as int) <= max(big_a as int, 1),
            gcd_nat(g as nat, y as nat) == gcd_nat(big_a as nat, big_b as nat),
        decreases y,
    {
        let t: u64 = g % y;
        let q: u64 = g / y;
        proof {
            lemma_fundamental_div_mod(g as int, y as int);
            assert(q as int * y as int == y as int * q as int) by (nonlinear_arith);
            assert(q as int <= g as int) by (nonlinear_arith)
                requires
                    g as int == q as int * y as int + t as int,
                    t >= 0,
                    y >= 1,
                    q >= 0,
            ;
            // The running coefficients stay within the word: the signed
            // identities force them, since the two entries of each pair
            // carry opposite signs.
            if g > 0 {
                assert(abs(x as int) * g as int <= big_b as int && abs(vy as int) * g as int
                    <= big_a as int) by (nonlinear_arith)
                    requires
                        u as int * y as int - x as int * g as int == det * big_b as int,
                        vy as int * g as int - vg as int * y as int == det * big_a as int,
                        u * x <= 0,
                        vg * vy <= 0,
                        det == 1 || det == -1,
                        g >= 1,
                        y >= 0,
                        abs(x as int) == if x >= 0 {
                            x as int
                        } else {
                            -(x as int)
                        },
                        abs(vy as int) == if vy >= 0 {
                            vy as int
                        } else {
                            -(vy as int)
                        },
                ;
                assert(abs(x as int) <= big_b as int && abs(vy as int) <= big_a as int)
                    by (nonlinear_arith)
                    requires
                        abs(x as int) * g as int <= big_b as int,
                        abs(vy as int) * g as int <= big_a as int,
                        g >= 1,
                ;
            } else {
                assert(x == 0 && vy == 1);
            }
            assert(q as int * x as int <= 0x8000000000000000int * 0x8000000000000000int
                && q as int * x as int >= -(0x8000000000000000int * 0x8000000000000000int))
                by (nonlinear_arith)
                requires
                    0 <= q as int <= 0x8000000000000000int,
                    -0x8000000000000000int <= x as int <= 0x8000000000000000int,
            ;
            assert(q as int * vy as int <= 0x8000000000000000int * 0x8000000000000000int
                && q as int * vy as int >= -(0x8000000000000000int * 0x8000000000000000int))
                by (nonlinear_arith)
                requires
                    0 <= q as int <= 0x8000000000000000int,
                    -0x8000000000000000int <= vy as int <= 0x8000000000000000int,
            ;
        }
        let s: i128 = u - (q as i128) * x;
        let sv: i128 = vg - (q as i128) * vy;
        proof {
            let ga = big_a as int;
            let gb = big_b as int;
            assert(t as int == ga * (s as int) + gb * (sv as int)) by (nonlinear_arith)
                requires
                    g as int == ga * u + gb * vg,
                    y as int == ga * x + gb * vy,
                    g as int == q as int * y as int + t as int,
                    s as int == u - q as int * x,
                    sv as int == vg - q as int * vy,
            ;
            assert(x * s <= 0 && vy * sv <= 0) by (nonlinear_arith)
                requires
                    s as int == u - q as int * x,
                    sv as int == vg - q as int * vy,
                    u * x <= 0,
                    vg * vy <= 0,
                    q >= 0,
            ;
            assert(x as int * t as int - s as int * y as int == (-det) * gb && sv as int
                * y as int - vy as int * t as int == (-det) * ga) by (nonlinear_arith)
                requires
                    u as int * y as int - x as int * g as int == det * gb,
                    vy as int * g as int - vg as int * y as int == det * ga,
                    g as int == q as int * y as int + t as int,
                    s as int == u - q as int * x,
                    sv as int == vg - q as int * vy,
            ;
            assert(gcd_nat(g as nat, y as nat) == gcd_nat(y as nat, (g % y) as nat));
        }
        u = x;
        x = s;
        vg = vy;
        vy = sv;
        g = y;
        y = t;
        proof {
            det = -det;
        }
    }
    (u, vg, g)
}

/// The extended Euclidean algorithm for calculating the gcd in the equation
/// `a*u + b*v == gcd(a, b)`.
///
/// Returns `(u, v, g)` with `a*u + b*v == g` exactly, where `g` is always
/// the non-negative greatest common divisor of `|a|` and `|b|` (so `g >= 1`,
/// since `b` is nonzero). The most negative value of the input type is
/// excluded: its magnitude, and with it the divisor or the coefficients that
/// go with it, can fall outside the representable range of the result.
pub fn extended_gcd(a: i64, b: i64) -> (r: (i64, i64, i64))
    requires
        b != 0,
        a != i64::MIN,
        b != i64::MIN,
    ensures
        ({
            let (u, v, g) = r;
            &&& a as int * u + b as int * v == g as int
            &&& g as nat == gcd_nat(abs(a as int), abs(b as int))
            &&& g >= 1
            &&& abs(u as int) <= abs(b as int)
            &&& abs(v as int) <= max(abs(a as int) as int, 1)
        }),
{
    let big_a: u64 = if a < 0 {
        (-a) as u64
    } else {
        a as u64
    };
    let big_b: u64 = if b < 0 {
        (-b) as u64
    } else {
        b as u64
    };
    let (u0, v0, g) = bezout_coefficients(big_a, big_b);
    let u1: i128 = if a < 0 {
        -u0
    } else {
        u0
    };
    let v1: i128 = if b < 0 {
        -v0
    } else {
        v0
    };
    proof {
        assert(a as int * u1 as int == big_a as int * u0 as int) by (nonlinear_arith)
            requires
                (a as int == big_a as int && u1 == u0) || (a as int == -(big_a as int) && u1
                    == -u0),
        ;
        assert(b as int * v1 as int == big_b as int * v0 as int) by (nonlinear_arith)
            requires
                (b as int == big_b as int && v1 == v0) || (b as int == -(big_b as int) && v1
                    == -v0),
        ;
    }
    (u1 as i64, v1 as i64, g as i64)
}

} // verus!
