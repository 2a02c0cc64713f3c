//! The mathematical model of primality and of the ascending sequence of
//! primes, with the facts that the executable tests rest on.
use vstd::arithmetic::div_mod::{lemma_fundamental_div_mod, lemma_mod_multiples_basic};
use vstd::prelude::*;

verus! {

/// `v` is prime: at least two, and no integer strictly between one and `v`
/// divides it.
pub open spec fn is_prime_spec(v: nat) -> bool {
    &&& v >= 2
    &&& forall|d: nat| 2 <= d < v ==> #[trigger] (v % d) != 0
}

/// Some integer `d` with `lo <= d < hi` divides `v`.
pub open spec fn has_divisor_in(v: nat, lo: nat, hi: nat) -> bool {
    exists|d: nat| lo <= d < hi && #[trigger] (v % d) == 0
}

/// Some odd integer `d` with `3 <= d < hi` divides `v`.
pub open spec fn has_odd_divisor_below(v: nat, hi: nat) -> bool {
    exists|d: nat| 3 <= d < hi && d % 2 == 1 && #[trigger] (v % d) == 0
}

/// `r` is the integer square root of `v`: the largest `r` with `r * r <= v`.
pub open spec fn is_isqrt(r: nat, v: nat) -> bool {
    r * r <= v < (r + 1) * (r + 1)
}

/// The number of primes strictly below `m`.
pub open spec fn prime_count_below(m: nat) -> nat
    decreases m,
{
    if m == 0 {
        0
    } else {
        prime_count_below((m - 1) as nat) + if is_prime_spec((m - 1) as nat) {
            1nat
        } else {
            0nat
        }
    }
}

/// `p` stands at 0-based position `n` of the ascending sequence of primes
/// 2, 3, 5, 7, ...: it is prime and exactly `n` primes lie below it.
pub open spec fn is_nth_prime(p: nat, n: nat) -> bool {
    is_prime_spec(p) && prime_count_below(p) == n
}

/// No prime lies below two.
pub proof fn lemma_count_below_two()
    ensures
        prime_count_below(2) == 0,
{
    reveal_with_fuel(prime_count_below, 3);
}

/// Counting primes below a bound never decreases as the bound grows.
pub proof fn lemma_count_monotone(a: nat, b: nat)
    requires
        a <= b,
    ensures
        prime_count_below(a) <= prime_count_below(b),
    decreases b - a,
{
    if a < b {
        lemma_count_monotone(a, (b - 1) as nat);
    }
}

/// A divisor `d` of `v` with `2 <= d < v` shows that `v` is not prime.
pub proof fn lemma_divisor_not_prime(v: nat, d: nat)
    requires
        2 <= d < v,
        v % d == 0,
    ensures
        !is_prime_spec(v),
{
}

/// No even number above two is prime.
pub proof fn lemma_even_not_prime(v: nat)
    requires
        v > 2,
        v % 2 == 0,
    ensures
        !is_prime_spec(v),
{
    lemma_divisor_not_prime(v, 2);
}

/// Bounds of the integer square root that keep a divisor scan below `v`.
pub proof fn lemma_isqrt_bounds(r: nat, v: nat)
    requires
        is_isqrt(r, v),
    ensures
        v >= 2 ==> r < v,
        v >= 9 ==> 3 <= r && r + 1 < v,
{
    if v >= 2 {
        assert(r < v) by (nonlinear_arith)
            requires
                r * r <= v,
                v >= 2,
        ;
    }
    if v >= 9 {
        assert(3 <= r) by (nonlinear_arith)
            requires
                v < (r + 1) * (r + 1),
                v >= 9,
        ;
        assert(r + 1 < v) by (nonlinear_arith)
            requires
                r * r <= v,
                r >= 3,
        ;
    }
}

/// Every divisor of an odd number is odd.
pub proof fn lemma_divisor_of_odd(v: nat, d: nat)
    requires
        v % 2 == 1,
        d > 0,
        v % d == 0,
    ensures
        d % 2 == 1,
{
    if d % 2 == 0 {
        lemma_fundamental_div_mod(v as int, d as int);
        lemma_fundamental_div_mod(d as int, 2);
        let k = ((d / 2) * (v / d)) as int;
        assert(v as int == k * 2) by (nonlinear_arith)
            requires
                v as int == d * (v / d) + 0,
                d as int == 2 * (d / 2) + 0,
                k == (d / 2) * (v / d),
        ;
        lemma_mod_multiples_basic(k, 2);
    }
}

/// A number `v >= 2` with no divisor in `2 ..= r`, where `(r + 1)^2 > v`, is
/// prime: a larger divisor would pair with one below the root.
pub proof fn lemma_no_divisor_to_root(v: nat, r: nat)
    requires
        v >= 2,
        v < (r + 1) * (r + 1),
        !has_divisor_in(v, 2, r + 1),
    ensures
        is_prime_spec(v),
{
    assert forall|d: nat| 2 <= d < v implies #[trigger] (v % d) != 0 by {
        if v % d == 0 && d > r {
            lemma_fundamental_div_mod(v as int, d as int);
            let e = v / d;
            assert(v == d * e);
            if e <= 1 {
                assert(d * e <= d) by (nonlinear_arith)
                    requires
                        e <= 1,
                ;
            } else if e <= r {
                lemma_mod_multiples_basic(d as int, e as int);
                assert(v % e == 0);
                assert(2 <= e < r + 1);
            } else {
                assert(d * e >= (r + 1) * (r + 1)) by (nonlinear_arith)
                    requires
                        d >= r + 1,
                        e >= r + 1,
                ;
            }
        }
    }
}

/// An odd `v >= 3` with no odd divisor in `3 ..= r`, where `(r + 1)^2 > v`,
/// is prime.
pub proof fn lemma_no_odd_divisor_to_root(v: nat, r: nat)
    requires
        v >= 3,
        v % 2 == 1,
        v < (r + 1) * (r + 1),
        !has_odd_divisor_below(v, r + 1),
    ensures
        is_prime_spec(v),
{
    assert forall|d: nat| 2 <= d < r + 1 implies #[trigger] (v % d) != 0 by {
        if v % d == 0 {
            lemma_divisor_of_odd(v, d);
            assert(3 <= d < r + 1 && d % 2 == 1);
        }
    }
    lemma_no_divisor_to_root(v, r);
}

/// The odd numbers from 3 to 8 are prime.
pub proof fn lemma_small_odd_prime(v: nat)
    requires
        3 <= v <= 8,
        v % 2 == 1,
    ensures
        is_prime_spec(v),
{
    assert((2nat + 1) * (2nat + 1) == 9) by (nonlinear_arith);
    lemma_no_odd_divisor_to_root(v, 2);
}

/// A prime counts itself among the primes below its successor.
proof fn lemma_count_past_prime(p: nat)
    requires
        is_prime_spec(p),
    ensures
        prime_count_below(p + 1) == prime_count_below(p) + 1,
{
}

/// Each position of the sequence of primes holds one prime only: two lookups
/// of the same position give the same value.
pub proof fn lemma_nth_prime_unique(p: nat, q: nat, n: nat)
    requires
        is_nth_prime(p, n),
        is_nth_prime(q, n),
    ensures
        p == q,
{
    if p < q {
        lemma_count_past_prime(p);
        lemma_count_monotone(p + 1, q);
    } else if q < p {
        lemma_count_past_prime(q);
        lemma_count_monotone(q + 1, p);
    }
}

/// The sequence of primes is strictly increasing: the prime at position `n`
/// is below the prime at position `n + 1`.
pub proof fn lemma_nth_prime_increasing(p: nat, q: nat, n: nat)
    requires
        is_nth_prime(p, n),
        is_nth_prime(q, n + 1),
    ensures
        p < q,
{
    if q <= p {
        lemma_count_monotone(q, p);
    }
}

/// Whatever a lookup of a position returns is prime.
pub proof fn lemma_nth_prime_is_prime(p: nat, n: nat)
    requires
        is_nth_prime(p, n),
    ensures
        is_prime_spec(p),
{
}

} // verus!
