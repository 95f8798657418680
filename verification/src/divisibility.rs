//! The mathematical model shared by the divisor computations: divisibility,
//! the two-argument Euclidean greatest common divisor, and its fold over a
//! sequence of values.

use vstd::prelude::*;

verus! {

/// `d` divides `n`: some multiple of `d` equals `n`.
pub open spec fn divides(d: nat, n: nat) -> bool {
    exists|k: nat| n == #[trigger] (d * k)
}

/// Greatest common divisor of two natural numbers by the Euclidean
/// recursion `gcd(a, b) == gcd(b, a % b)`, with `gcd(a, 0) == a`.
pub open spec fn gcd_nat(a: nat, b: nat) -> nat
    decreases b,
{
    if b == 0 {
        a
    } else {
        gcd_nat(b, a % b)
    }
}

/// Greatest common divisor of a sequence of values, folded pairwise;
/// the empty sequence yields the sentinel `0`.
pub open spec fn gcd_seq(s: Seq<u32>) -> nat
    decreases s.len(),
{
    if s.len() == 0 {
        0
    } else {
        gcd_nat(gcd_seq(s.drop_last()), s.last() as nat)
    }
}

/// Every number divides itself.
pub proof fn lemma_divides_refl(a: nat)
    ensures
        divides(a, a),
{
    assert(a == a * 1);
}

/// Every number divides zero.
pub proof fn lemma_divides_zero(a: nat)
    ensures
        divides(a, 0),
{
    assert(0 == a * 0);
}

/// Divisibility is transitive.
pub proof fn lemma_divides_transitive(a: nat, b: nat, c: nat)
    requires
        divides(a, b),
        divides(b, c),
    ensures
        divides(a, c),
{
    let k1 = choose|k: nat| b == #[trigger] (a * k);
    let k2 = choose|k: nat| c == #[trigger] (b * k);
    assert(c == a * (k1 * k2)) by (nonlinear_arith)
        requires
            b == a * k1,
            c == b * k2,
    ;
}

/// The only divisor of one is one.
pub proof fn lemma_divides_one(d: nat)
    requires
        divides(d, 1),
    ensures
        d == 1,
{
    let k = choose|k: nat| 1 == #[trigger] (d * k);
    assert(d == 1) by (nonlinear_arith)
        requires
            1 == d * k,
    ;
}

/// A common divisor of `a` and of a positive `b` divides `a % b`.
pub proof fn lemma_divides_mod(d: nat, a: nat, b: nat)
    requires
        divides(d, a),
        divides(d, b),
        b > 0,
    ensures
        divides(d, a % b),
{
    let k1 = choose|k: nat| a == #[trigger] (d * k);
    let k2 = choose|k: nat| b == #[trigger] (d * k);
    let q = a as int / b as int;
    let r = a as int % b as int;
    vstd::arithmetic::div_mod::lemma_fundamental_div_mod(a as int, b as int);
    assert(0 <= r < b);
    assert(d * k1 == b * q + r);
    if d == 0 {
        assert(b == 0 * k2 == 0) by (nonlinear_arith)
            requires
                b == 0 * k2,
        ;
    } else {
        let kr = k1 - q * k2;
        assert(r == d * kr) by (nonlinear_arith)
            requires
                d * k1 == b * q + r,
                b == d * k2,
                kr == k1 - q * k2,
        ;
        assert(kr >= 0) by (nonlinear_arith)
            requires
                r == d * kr,
                r >= 0,
                d > 0,
        ;
        assert(a % b == d * (kr as nat));
    }
}

/// A divisor of `b` and of `a % b` divides `a` itself, for positive `b`.
pub proof fn lemma_divides_combine(d: nat, a: nat, b: nat)
    requires
        divides(d, b),
        divides(d, a % b),
        b > 0,
    ensures
        divides(d, a),
{
    let k2 = choose|k: nat| b == #[trigger] (d * k);
    let kr = choose|k: nat| a % b == #[trigger] (d * k);
    let q = a as int / b as int;
    vstd::arithmetic::div_mod::lemma_fundamental_div_mod(a as int, b as int);
    assert(q >= 0) by {
        vstd::arithmetic::div_mod::lemma_div_pos_is_pos(a as int, b as int);
    }
    let ka = q * k2 + kr;
    assert(a == d * ka) by (nonlinear_arith)
        requires
            a == b * q + d * kr,
            b == d * k2,
            ka == q * k2 + kr,
    ;
    assert(ka >= 0) by (nonlinear_arith)
        requires
            ka == q * k2 + kr,
            q >= 0,
    ;
    assert(a == d * (ka as nat));
}

/// The Euclidean greatest common divisor divides both of its arguments.
pub proof fn lemma_gcd_nat_divides(a: nat, b: nat)
    ensures
        divides(gcd_nat(a, b), a),
        divides(gcd_nat(a, b), b),
    decreases b,
{
    if b == 0 {
        lemma_divides_refl(a);
        lemma_divides_zero(a);
    } else {
        lemma_gcd_nat_divides(b, a % b);
        lemma_divides_combine(gcd_nat(a, b), a, b);
    }
}

/// Every common divisor of `a` and `b` divides their greatest common divisor:
/// the Euclidean value is greatest in the divisibility order.
pub proof fn lemma_gcd_nat_greatest(d: nat, a: nat, b: nat)
    requires
        divides(d, a),
        divides(d, b),
    ensures
        divides(d, gcd_nat(a, b)),
    decreases b,
{
    if b == 0 {
    } else {
        lemma_divides_mod(d, a, b);
        lemma_gcd_nat_greatest(d, b, a % b);
    }
}

/// `gcd(0, x) == x`: zero is the identity of the pairwise reduction.
pub proof fn lemma_gcd_nat_zero_left(x: nat)
    ensures
        gcd_nat(0, x) == x,
{
    if x == 0 {
    } else {
        assert(0nat % x == 0) by {
            vstd::arithmetic::div_mod::lemma_small_mod(0, x);
        }
        assert(gcd_nat(0, x) == gcd_nat(x, 0));
    }
}

/// `gcd(1, b) == 1`: a running result of one can never grow again.
pub proof fn lemma_gcd_nat_one_left(b: nat)
    ensures
        gcd_nat(1, b) == 1,
{
    lemma_gcd_nat_divides(1, b);
    lemma_divides_one(gcd_nat(1, b));
}

/// The folded greatest common divisor of a sequence divides every element.
pub proof fn lemma_gcd_seq_divides(s: Seq<u32>, i: int)
    requires
        0 <= i < s.len(),
    ensures
        divides(gcd_seq(s), s[i] as nat),
    decreases s.len(),
{
    let g = gcd_seq(s);
    lemma_gcd_nat_divides(gcd_seq(s.drop_last()), s.last() as nat);
    if i == s.len() - 1 {
    } else {
        lemma_gcd_seq_divides(s.drop_last(), i);
        lemma_divides_transitive(g, gcd_seq(s.drop_last()), s[i] as nat);
    }
}

/// If any two elements of the collection are coprime, the greatest common
/// divisor of the whole collection is one: the pairwise reducer is right to
/// stop as soon as its running result reaches one.
pub proof fn lemma_coprime_pair_collapses(s: Seq<u32>, i: int, j: int)
    requires
        0 <= i < s.len(),
        0 <= j < s.len(),
        i != j,
        gcd_nat(s[i] as nat, s[j] as nat) == 1,
    ensures
        gcd_seq(s) == 1,
{
    let g = gcd_seq(s);
    lemma_gcd_seq_divides(s, i);
    lemma_gcd_seq_divides(s, j);
    lemma_gcd_nat_greatest(g, s[i] as nat, s[j] as nat);
    lemma_divides_one(g);
}

/// Once a prefix of the sequence already folds to one, the whole sequence
/// folds to one: elements past the prefix cannot change the result.
pub proof fn lemma_gcd_seq_prefix_one(s: Seq<u32>, k: int)
    requires
        0 <= k <= s.len(),
        gcd_seq(s.take(k)) == 1,
    ensures
        gcd_seq(s) == 1,
    decreases s.len() - k,
{
    if k == s.len() {
        assert(s.take(k) =~= s);
    } else {
        assert(s.take(k + 1).drop_last() =~= s.take(k));
        assert(s.take(k + 1).last() == s[k]);
        lemma_gcd_nat_one_left(s[k] as nat);
        lemma_gcd_seq_prefix_one(s, k + 1);
    }
}

/// On a two-element sequence the fold agrees with the two-argument
/// Euclidean greatest common divisor.
pub proof fn lemma_gcd_seq_pair(x: u32, y: u32)
    ensures
        gcd_seq(seq![x, y]) == gcd_nat(x as nat, y as nat),
{
    let s = seq![x, y];
    assert(s.drop_last() =~= seq![x]);
    assert(seq![x].drop_last() =~= Seq::<u32>::empty());
    assert(s.last() == y);
    assert(seq![x].last() == x);
    assert(gcd_seq(Seq::<u32>::empty()) == 0);
    assert(gcd_seq(seq![x]) == gcd_nat(0, x as nat));
    lemma_gcd_nat_zero_left(x as nat);
    assert(gcd_seq(s) == gcd_nat(x as nat, y as nat));
}

} // verus!
