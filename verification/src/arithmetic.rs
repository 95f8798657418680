//! Binary ("square-and-multiply") modular exponentiation: the base-2 digit
//! decomposition of the exponent, and the exponentiator driven by it.

use vstd::arithmetic::div_mod::{lemma_fundamental_div_mod, lemma_mul_mod_noop_general};
use vstd::arithmetic::power::{lemma_pow1, lemma_pow_adds, pow};
use vstd::arithmetic::power2::pow2;
use vstd::prelude::*;

verus! {

/// The number encoded by a base-2 digit sequence, least-significant first.
pub open spec fn bits_val(s: Seq<u8>) -> nat
    decreases s.len(),
{
    if s.len() == 0 {
        0
    } else {
        (bits_val(s.drop_last()) + s.last() * pow2((s.len() - 1) as nat)) as nat
    }
}

/// Decomposes a number into its base-2 digit sequence, least-significant
/// bit first. A zero input yields the single-element sequence `[0]`, not an
/// empty sequence; otherwise the final (most-significant) digit is one.
pub fn get_binary_digits(number: u64) -> (r: Vec<u8>)
    ensures
        r@.len() >= 1,
        forall|i: int| 0 <= i < r@.len() ==> r@[i] <= 1,
        bits_val(r@) == number,
        number == 0 ==> r@ =~= seq![0u8],
        number > 0 ==> r@.last() == 1,
{
    let mut result: Vec<u8> = Vec::new();
    let mut n: u64 = number;
    if n == 0 {
        result.push(0);
        proof {
            assert(result@ =~= seq![0u8]);
            assert(result@.drop_last() =~= Seq::<u8>::empty());
            assert(bits_val(Seq::<u8>::empty()) == 0);
            assert(result@.last() == 0);
            assert(pow2(0) == 1) by {
                vstd::arithmetic::power::lemma_pow0(2);
            }
            assert(bits_val(result@) == 0);
        }
        return result;
    }
    proof {
        assert(result@ =~= Seq::<u8>::empty());
        assert(bits_val(result@) == 0);
        assert(pow2(0) == 1) by {
            vstd::arithmetic::power::lemma_pow0(2);
        }
        assert(n * pow2(0) == n) by (nonlinear_arith)
            requires
                pow2(0) == 1,
        ;
    }
    while n > 0
        invariant
            bits_val(result@) + n * pow2(result@.len() as nat) == number,
            forall|i: int| 0 <= i < result@.len() ==> result@[i] <= 1,
            n == 0 ==> result@.len() >= 1 && result@.last() == 1,
        decreases n,
    {
        let d: u8 = (n % 2) as u8;
        let ghost prev = result@;
        let ghost len = result@.len() as nat;
        let ghost n0 = n;
        result.push(d);
        n = n / 2;
        proof {
            assert(result@.drop_last() =~= prev);
            assert(result@.last() == d);
            assert(bits_val(result@) == bits_val(prev) + d * pow2(len));
            lemma_fundamental_div_mod(n0 as int, 2);
            assert(pow2(len + 1) == 2 * pow2(len)) by {
                vstd::arithmetic::power2::lemma_pow2_unfold(len + 1);
            }
            assert(bits_val(prev) + d * pow2(len) + n * pow2(len + 1) == number)
                by (nonlinear_arith)
                requires
                    bits_val(prev) + n0 * pow2(len) == number,
                    n0 as int == 2 * (n0 as int / 2) + n0 as int % 2,
                    d == n0 as int % 2,
                    n == n0 as int / 2,
                    pow2(len + 1) == 2 * pow2(len),
            ;
        }
    }
    result
}

/// The product of two values, reduced modulo `modulo`; the multiplication is
/// carried out in a wider intermediate type so it cannot overflow.
fn mul_mod(a: u64, b: u64, modulo: u64) -> (r: u64)
    requires
        modulo >= 1,
    ensures
        r as int == (a as int * b as int) % (modulo as int),
        r < modulo,
{
    proof {
        assert(a as int * b as int <= 0xffffffffffffffffint * 0xffffffffffffffffint)
            by (nonlinear_arith)
            requires
                0 <= a as int <= 0xffffffffffffffffint,
                0 <= b as int <= 0xffffffffffffffffint,
        ;
    }
    (((a as u128) * (b as u128)) % (modulo as u128)) as u64
}

/// Computes `number^exponent mod modulo` by repeated squaring, driven by the
/// base-2 digits of the exponent. Every intermediate value is reduced modulo
/// `modulo`, so a zero exponent yields `1 % modulo` and a modulus of one
/// yields zero for any base and exponent.
pub fn modpow(number: u64, exponent: u64, modulo: u64) -> (r: u64)
    requires
        modulo >= 1,
    ensures
        r as int == pow(number as int, exponent as nat) % (modulo as int),
        r < modulo,
{
    let binary_expansion = get_binary_digits(exponent);
    let mut inter_numbers: Vec<u64> = Vec::new();
    inter_numbers.push(number % modulo);
    proof {
        lemma_pow1(number as int);
        assert(pow2(0) == 1) by {
            vstd::arithmetic::power::lemma_pow0(2);
        }
        assert(inter_numbers@[0] as int == pow(number as int, pow2(0)) % (modulo as int));
    }
    let mut i: usize = 1;
    while i < binary_expansion.len()
        invariant
            modulo >= 1,
            1 <= i <= binary_expansion@.len(),
            inter_numbers@.len() == i,
            forall|j: int|
                0 <= j < i ==> inter_numbers@[j] as int == pow(number as int, pow2(j as nat)) % (
                modulo as int),
            forall|j: int| 0 <= j < i ==> inter_numbers@[j] < modulo,
        decreases binary_expansion@.len() - i,
    {
        let prev = inter_numbers[i - 1];
        let sq = mul_mod(prev, prev, modulo);
        proof {
            let m = modulo as int;
            let b = number as int;
            let e = pow2((i - 1) as nat);
            lemma_mul_mod_noop_general(pow(b, e), pow(b, e), m);
            lemma_pow_adds(b, e, e);
            assert(pow2(i as nat) == 2 * pow2((i - 1) as nat)) by {
                vstd::arithmetic::power2::lemma_pow2_unfold(i as nat);
            }
            assert(sq as int == pow(b, pow2(i as nat)) % m);
        }
        inter_numbers.push(sq);
        i = i + 1;
    }
    let mut result: u64 = 1 % modulo;
    proof {
        assert(binary_expansion@.take(0) =~= Seq::<u8>::empty());
        assert(pow(number as int, 0) == 1) by {
            vstd::arithmetic::power::lemma_pow0(number as int);
        }
    }
    let mut k: usize = 0;
    while k < binary_expansion.len()
        invariant
            modulo >= 1,
            0 <= k <= binary_expansion@.len(),
            inter_numbers@.len() == binary_expansion@.len(),
            forall|j: int| 0 <= j < binary_expansion@.len() ==> binary_expansion@[j] <= 1,
            forall|j: int|
                0 <= j < binary_expansion@.len() ==> inter_numbers@[j] as int == pow(
                    number as int,
                    pow2(j as nat),
                ) % (modulo as int),
            result as int == pow(number as int, bits_val(binary_expansion@.take(k as int))) % (
            modulo as int),
            result < modulo,
        decreases binary_expansion@.len() - k,
    {
        let ghost m = modulo as int;
        let ghost b = number as int;
        let ghost prefix = binary_expansion@.take(k as int);
        let ghost extended = binary_expansion@.take(k as int + 1);
        proof {
            assert(extended.drop_last() =~= prefix);
            assert(extended.last() == binary_expansion@[k as int]);
        }
        if binary_expansion[k] == 1 {
            result = mul_mod(result, inter_numbers[k], modulo);
            proof {
                lemma_mul_mod_noop_general(pow(b, bits_val(prefix)), pow(b, pow2(k as nat)), m);
                lemma_pow_adds(b, bits_val(prefix), pow2(k as nat));
                assert(bits_val(extended) == bits_val(prefix) + pow2(k as nat));
            }
        } else {
            proof {
                assert(binary_expansion@[k as int] == 0);
                assert(bits_val(extended) == bits_val(prefix));
            }
        }
        k = k + 1;
    }
    proof {
        assert(binary_expansion@.take(binary_expansion@.len() as int) =~= binary_expansion@);
    }
    result
}

/// A zero exponent yields the empty-product identity reduced by the modulus:
/// for every base `a` and every modulus `m >= 1`, `modpow(a, 0, m) == 1 % m`.
pub proof fn lemma_modpow_zero_exponent(base: int, modulo: int)
    requires
        modulo >= 1,
    ensures
        pow(base, 0) % modulo == 1int % modulo,
{
    vstd::arithmetic::power::lemma_pow0(base);
}

/// A modulus of one sends every power to zero: for every base `a` and every
/// exponent `e`, `modpow(a, e, 1) == 0`.
pub proof fn lemma_modpow_modulus_one(base: int, exponent: nat)
    ensures
        pow(base, exponent) % 1int == 0,
{
    vstd::arithmetic::div_mod::lemma_mod_bound(pow(base, exponent), 1);
}

} // verus!
