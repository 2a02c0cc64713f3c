//! Primality tests and nth-prime lookup over `u32`, in four variants that
//! share one contract: each `is_prime_*` returns whether its argument is
//! prime, and each `nth_prime_*` returns the prime at a 0-based position of
//! the ascending sequence 2, 3, 5, 7, ...
use crate::primality::{
    has_divisor_in, has_odd_divisor_below, is_isqrt, is_nth_prime, is_prime_spec,
    lemma_count_below_two, lemma_divisor_not_prime, lemma_even_not_prime, lemma_isqrt_bounds,
    lemma_no_divisor_to_root, lemma_no_odd_divisor_to_root, lemma_small_odd_prime,
    prime_count_below,
};
use vstd::pervasive::unreached;
use vstd::prelude::*;

verus! {

/// The integer square root of `v`, found by bisection.
fn isqrt(v: u32) -> (r: u32)
    ensures
        is_isqrt(r as nat, v as nat),
        r <= 65535,
{
    let mut lo: u32 = 0;
    let mut hi: u32 = 65536;
    while hi - lo > 1
        invariant
            lo < hi <= 65536,
            lo * lo <= v,
            v < hi * hi,
        decreases hi - lo,
    {
        let mid: u32 = lo + (hi - lo) / 2;
        assert((mid as u64) * (mid as u64) < 0x1_0000_0000) by (nonlinear_arith)
            requires
                mid < 65536,
        ;
        if (mid as u64) * (mid as u64) <= v as u64 {
            lo = mid;
        } else {
            hi = mid;
        }
    }
    lo
}

/// Whether some integer `i` with `2 <= i < bound` divides `n`; stops at the
/// first such divisor.
fn has_divisor_below(n: u32, bound: u32) -> (r: bool)
    ensures
        r == has_divisor_in(n as nat, 2, bound as nat),
{
    let mut i: u32 = 2;
    while i < bound
        invariant
            2 <= i,
            i <= bound || bound < 2,
            !has_divisor_in(n as nat, 2, i as nat),
        decreases bound - i,
    {
        if n % i == 0 {
            assert(2 <= i < bound && (n as nat) % (i as nat) == 0);
            return true;
        }
        i += 1;
    }
    proof {
        if has_divisor_in(n as nat, 2, bound as nat) {
            let d = choose|d: nat| 2 <= d < bound && #[trigger] ((n as nat) % d) == 0;
            assert(2 <= d < i && (n as nat) % d == 0);
        }
    }
    false
}

/// The odd numbers 3, 5, 7, ..., handed out one at a time.
struct OddNumbers {
    odd: u32,
}

impl OddNumbers {
    /// The next odd number of the sequence.
    fn next(&mut self) -> (r: u32)
        requires
            old(self).odd <= u32::MAX - 2,
        ensures
            r == old(self).odd,
            final(self).odd == old(self).odd + 2,
    {
        self.odd = self.odd + 2;
        self.odd - 2
    }
}

/// Whether `val` is prime, by trial division with the odd numbers from 3 up
/// to the integer square root of `val`. Values up to 8 are settled by their
/// parity alone.
pub fn is_prime_oldf(val: u32) -> (r: bool)
    ensures
        r == is_prime_spec(val as nat),
{
    if val == 0 || val == 1 {
        return false;
    }
    if val != 2 && val % 2 == 0 {
        proof {
            lemma_even_not_prime(val as nat);
        }
        return false;
    }
    if val > 8 {
        let upper_limit = isqrt(val);
        proof {
            lemma_isqrt_bounds(upper_limit as nat, val as nat);
        }
        let mut cnt: u32 = 3;
        while cnt <= upper_limit
            invariant
                3 <= cnt <= upper_limit + 2,
                cnt % 2 == 1,
                upper_limit <= 65535,
                upper_limit + 1 < val,
                !has_odd_divisor_below(val as nat, cnt as nat),
            decreases upper_limit + 2 - cnt,
        {
            if val % cnt == 0 {
                proof {
                    lemma_divisor_not_prime(val as nat, cnt as nat);
                }
                return false;
            }
            cnt += 2;
        }
        proof {
            if has_odd_divisor_below(val as nat, upper_limit as nat + 1) {
                let d = choose|d: nat|
                    3 <= d < upper_limit as nat + 1 && d % 2 == 1 && #[trigger] ((val as nat) % d)
                        == 0;
                assert(3 <= d < cnt && d % 2 == 1 && (val as nat) % d == 0);
            }
            lemma_no_odd_divisor_to_root(val as nat, upper_limit as nat);
        }
        true
    } else {
        proof {
            if val > 2 {
                lemma_small_odd_prime(val as nat);
            }
        }
        true
    }
}

/// The same test as [`is_prime_oldf`], with the odd divisors drawn from an
/// [`OddNumbers`] sequence; the scan ends at the first divisor, or once a
/// candidate reaches the integer square root.
fn is_prime_with_iter1(n: u32) -> (r: bool)
    ensures
        r == is_prime_spec(n as nat),
{
    if n == 0 || n == 1 {
        return false;
    }
    if n != 2 && n % 2 == 0 {
        proof {
            lemma_even_not_prime(n as nat);
        }
        return false;
    }
    if n > 8 {
        let upper_limit = isqrt(n);
        proof {
            lemma_isqrt_bounds(upper_limit as nat, n as nat);
        }
        let mut odd_numbers = OddNumbers { odd: 3 };
        loop
            invariant
                3 <= odd_numbers.odd <= upper_limit + 1,
                odd_numbers.odd % 2 == 1,
                n % 2 == 1,
                upper_limit <= 65535,
                upper_limit + 1 < n,
                is_isqrt(upper_limit as nat, n as nat),
                !has_odd_divisor_below(n as nat, odd_numbers.odd as nat),
            decreases upper_limit + 1 - odd_numbers.odd,
        {
            let e = odd_numbers.next();
            if n % e == 0 {
                proof {
                    lemma_divisor_not_prime(n as nat, e as nat);
                }
                return false;
            }
            if e >= upper_limit {
                proof {
                    if has_odd_divisor_below(n as nat, upper_limit as nat + 1) {
                        let d = choose|d: nat|
                            3 <= d < upper_limit as nat + 1 && d % 2 == 1 && #[trigger] ((
                            n as nat) % d) == 0;
                        assert(3 <= d < e + 2 && d % 2 == 1 && (n as nat) % d == 0);
                    }
                    lemma_no_odd_divisor_to_root(n as nat, upper_limit as nat);
                }
                return true;
            }
        }
    } else {
        proof {
            if n > 2 {
                lemma_small_odd_prime(n as nat);
            }
        }
        true
    }
}

/// Whether `n` is prime: values below 2 are not; every other value is tried
/// against each integer from 2 up to its integer square root, without the
/// parity shortcut.
pub fn is_prime_elegant_but_inefficient(n: u32) -> (r: bool)
    ensures
        r == is_prime_spec(n as nat),
{
    if n < 2 {
        return false;
    }
    let root = isqrt(n);
    let upper_limit = root + 1;
    let found = has_divisor_below(n, upper_limit);
    proof {
        lemma_isqrt_bounds(root as nat, n as nat);
        if found {
            let d = choose|d: nat| 2 <= d < upper_limit && #[trigger] ((n as nat) % d) == 0;
            lemma_divisor_not_prime(n as nat, d);
        } else {
            lemma_no_divisor_to_root(n as nat, root as nat);
        }
    }
    !found
}

/// Whether `n` is prime: values up to 8 are settled by their parity alone,
/// larger odd ones by a scan over `2 ..= isqrt(n)` that stops at the first
/// divisor.
pub fn is_prime_try_for_each(n: u32) -> (r: bool)
    ensures
        r == is_prime_spec(n as nat),
{
    if n == 0 || n == 1 {
        return false;
    }
    if n != 2 && n % 2 == 0 {
        proof {
            lemma_even_not_prime(n as nat);
        }
        return false;
    }
    if n > 8 {
        let root = isqrt(n);
        let upper_limit = root + 1;
        let found = has_divisor_below(n, upper_limit);
        proof {
            lemma_isqrt_bounds(root as nat, n as nat);
            if found {
                let d = choose|d: nat| 2 <= d < upper_limit && #[trigger] ((n as nat) % d) == 0;
                lemma_divisor_not_prime(n as nat, d);
            } else {
                lemma_no_divisor_to_root(n as nat, root as nat);
            }
        }
        !found
    } else {
        proof {
            if n > 2 {
                lemma_small_odd_prime(n as nat);
            }
        }
        true
    }
}

/// Which of the primality tests a [`PrimeSequence`] filters its candidates
/// with.
#[derive(Clone, Copy, PartialEq, Eq, Debug)]
pub enum PrimalityTest {
    Conventional,
    OddIterator,
    ElegantButInefficient,
    TryForEach,
}

impl PrimalityTest {
    /// Whether `v` is prime, by this test.
    pub fn is_prime(self, v: u32) -> (r: bool)
        ensures
            r == is_prime_spec(v as nat),
    {
        match self {
            PrimalityTest::Conventional => is_prime_oldf(v),
            PrimalityTest::OddIterator => is_prime_with_iter1(v),
            PrimalityTest::ElegantButInefficient => is_prime_elegant_but_inefficient(v),
            PrimalityTest::TryForEach => is_prime_try_for_each(v),
        }
    }
}

/// The ascending sequence of primes, produced on demand: each call of
/// [`PrimeSequence::next`] scans the integers from the current candidate up
/// to the next prime.
pub struct PrimeSequence {
    test: PrimalityTest,
    num: u32,
}

impl PrimeSequence {
    /// The integer from which the next scan starts.
    pub closed spec fn candidate(&self) -> nat {
        self.num as nat
    }

    /// The number of primes handed out so far.
    pub open spec fn produced(&self) -> nat {
        prime_count_below(self.candidate())
    }

    /// A fresh sequence, which starts from 2 and has handed out no prime.
    pub fn new(test: PrimalityTest) -> (s: PrimeSequence)
        ensures
            s.candidate() == 2,
            s.produced() == 0,
    {
        proof {
            lemma_count_below_two();
        }
        PrimeSequence { test, num: 2 }
    }

    /// The next prime: the least prime at or above the current candidate,
    /// after which the candidate moves on. `None` once no prime is left below
    /// `u32::MAX`; the candidate then stays at `u32::MAX`.
    pub fn next(&mut self) -> (r: Option<u32>)
        ensures
            final(self).produced() == old(self).produced() + if r is Some {
                1nat
            } else {
                0nat
            },
            match r {
                Some(p) => {
                    &&& is_nth_prime(p as nat, old(self).produced())
                    &&& old(self).candidate() <= p
                    &&& final(self).candidate() == p + 1
                },
                None => {
                    &&& old(self).produced() == prime_count_below(u32::MAX as nat)
                    &&& final(self).candidate() == u32::MAX
                },
            },
    {
        let ghost start = self.num as nat;
        while self.num < u32::MAX && !self.test.is_prime(self.num)
            invariant
                start <= self.num,
                prime_count_below(self.num as nat) == prime_count_below(start),
            decreases u32::MAX - self.num,
        {
            self.num = self.num + 1;
        }
        if self.num == u32::MAX {
            None
        } else {
            self.num = self.num + 1;
            Some(self.num - 1)
        }
    }
}

/// The prime at 0-based position `n` of the sequence that `test` filters,
/// or `None` where that prime would not lie below `u32::MAX`.
pub fn nth_prime_checked(test: PrimalityTest, n: u32) -> (r: Option<u32>)
    ensures
        match r {
            Some(p) => is_nth_prime(p as nat, n as nat),
            None => prime_count_below(u32::MAX as nat) <= n,
        },
{
    let mut primes = PrimeSequence::new(test);
    let mut i: u32 = 0;
    loop
        invariant
            i <= n,
            primes.produced() == i,
        decreases n - i,
    {
        let next = primes.next();
        match next {
            None => {
                return None;
            },
            Some(p) => {
                if i == n {
                    return Some(p);
                }
                i += 1;
            },
        }
    }
}

/// The prime at 0-based position `n` of the sequence that `test` filters.
fn nth_prime_by(test: PrimalityTest, n: u32) -> (p: u32)
    requires
        (n as nat) < prime_count_below(u32::MAX as nat),
    ensures
        is_nth_prime(p as nat, n as nat),
{
    match nth_prime_checked(test, n) {
        Some(p) => p,
        None => unreached(),
    }
}

/// The prime at 0-based position `n` of the ascending sequence of primes,
/// found with [`is_prime_oldf`]. Only positions whose prime lies below
/// `u32::MAX` are admitted.
pub fn nth_prime_oldf(n: u32) -> (p: u32)
    requires
        (n as nat) < prime_count_below(u32::MAX as nat),
    ensures
        is_nth_prime(p as nat, n as nat),
{
    nth_prime_by(PrimalityTest::Conventional, n)
}

/// The prime at 0-based position `n`, found with the odd-iterator test.
pub fn nth_prime_iter1(n: u32) -> (p: u32)
    requires
        (n as nat) < prime_count_below(u32::MAX as nat),
    ensures
        is_nth_prime(p as nat, n as nat),
{
    nth_prime_by(PrimalityTest::OddIterator, n)
}

/// The prime at 0-based position `n`, found with
/// [`is_prime_elegant_but_inefficient`].
pub fn nth_prime_elegant_but_inefficient(n: u32) -> (p: u32)
    requires
        (n as nat) < prime_count_below(u32::MAX as nat),
    ensures
        is_nth_prime(p as nat, n as nat),
{
    nth_prime_by(PrimalityTest::ElegantButInefficient, n)
}

/// The prime at 0-based position `n`, found with [`is_prime_try_for_each`].
pub fn nth_prime_try_for_each(n: u32) -> (p: u32)
    requires
        (n as nat) < prime_count_below(u32::MAX as nat),
    ensures
        is_nth_prime(p as nat, n as nat),
{
    nth_prime_by(PrimalityTest::TryForEach, n)
}

} // verus!
