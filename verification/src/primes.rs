//! Incrementally extended, permanently cached prime sequence.
//!
//! [`PrimeNumberGenerator`] holds a strictly increasing cache of primes
//! starting at 2.  Retrieving index `n` computes and caches all of `0..=n`
//! if not already present; later lookups at indices at or below `n` are
//! pure cache reads.  A candidate is rejected as composite exactly when
//! some cached prime whose square does not exceed it divides it evenly.

use vstd::prelude::*;
use vstd::arithmetic::div_mod::lemma_fundamental_div_mod;
use vstd::arithmetic::div_mod::lemma_mod_multiples_basic;
use vstd::arithmetic::div_mod::lemma_mod_self_0;

verus! {

/// `d` divides `n` evenly.
pub open spec fn divides(d: int, n: int) -> bool {
    n % d == 0
}

/// `p` is a prime number: at least 2, with no divisor in `[2, p)`.
pub open spec fn is_prime(p: int) -> bool {
    &&& 2 <= p
    &&& forall|d: int| 2 <= d < p ==> !(#[trigger] divides(d, p))
}

/// How many primes lie in `[2, m]`.
pub open spec fn prime_count(m: int) -> nat
    decreases m,
{
    if m < 2 {
        0
    } else {
        (prime_count(m - 1) + if is_prime(m) {
            1int
        } else {
            0int
        }) as nat
    }
}

/// The `n + 1`-th prime ascending from 2 (so `nth_prime(0) == 2`),
/// characterized as the unique prime with exactly `n` primes below it.
pub open spec fn nth_prime(n: int) -> int {
    choose|p: int| is_prime(p) && prime_count(p) == n + 1
}

/// Counting primes is monotone in the bound.
pub proof fn lemma_prime_count_mono(a: int, b: int)
    requires
        a <= b,
    ensures
        prime_count(a) <= prime_count(b),
    decreases b - a,
{
    if a < b {
        lemma_prime_count_mono(a, b - 1);
    }
}

/// Two primes with the same count of primes at or below them are equal.
pub proof fn lemma_prime_unique(p: int, q: int)
    requires
        is_prime(p),
        is_prime(q),
        prime_count(p) == prime_count(q),
    ensures
        p == q,
{
    if p < q {
        lemma_prime_count_mono(p, q - 1);
        assert(prime_count(q) == prime_count(q - 1) + 1);
    }
    if q < p {
        lemma_prime_count_mono(q, p - 1);
        assert(prime_count(p) == prime_count(p - 1) + 1);
    }
}

/// The witness for [`nth_prime`]: any prime `p` with `prime_count(p) == n + 1`
/// is the `n + 1`-th prime.
pub proof fn lemma_nth_prime(p: int, n: int)
    requires
        is_prime(p),
        prime_count(p) == n + 1,
    ensures
        nth_prime(n) == p,
{
    let q = nth_prime(n);
    assert(is_prime(q) && prime_count(q) == n + 1) by {
        assert(is_prime(p) && prime_count(p) == n + 1);
    }
    lemma_prime_unique(p, q);
}

/// Between two bounds whose prime counts differ there lies a prime whose
/// count is exactly one more than the lower bound's.
pub proof fn lemma_count_gap_has_prime(a: int, b: int)
    requires
        1 <= a <= b,
        prime_count(a) < prime_count(b),
    ensures
        exists|p: int|
            a < p <= b && is_prime(p) && prime_count(p) == prime_count(a) + 1,
    decreases b - a,
{
    if is_prime(a + 1) {
        assert(prime_count(a + 1) == prime_count(a) + 1);
    } else {
        assert(prime_count(a + 1) == prime_count(a));
        lemma_count_gap_has_prime(a + 1, b);
    }
}

/// Below a bound holding at least `n + 1` primes, the `n + 1`-th prime
/// exists: it is prime, has exactly `n` primes below it, and is at most
/// the bound.
pub proof fn lemma_nth_prime_exists(n: int, b: int)
    requires
        0 <= n,
        1 <= b,
        n + 1 <= prime_count(b),
    ensures
        is_prime(nth_prime(n)),
        prime_count(nth_prime(n)) == n + 1,
        2 <= nth_prime(n) <= b,
    decreases n,
{
    if n == 0 {
        assert(prime_count(1) == 0);
        lemma_count_gap_has_prime(1, b);
        let p = choose|p: int| 1 < p <= b && is_prime(p) && prime_count(p) == prime_count(1) + 1;
        lemma_nth_prime(p, 0);
    } else {
        lemma_nth_prime_exists(n - 1, b);
        let q = nth_prime(n - 1);
        lemma_count_gap_has_prime(q, b);
        let p = choose|p: int| q < p <= b && is_prime(p) && prime_count(p) == prime_count(q) + 1;
        lemma_nth_prime(p, n);
    }
}

/// Every prime past the first is odd, so in particular every prime the
/// rotating index reaches after the first contribution.
pub proof fn lemma_nth_prime_odd(n: int, b: int)
    requires
        1 <= n,
        1 <= b,
        n + 1 <= prime_count(b),
    ensures
        nth_prime(n) % 2 == 1,
        2 < nth_prime(n),
{
    lemma_nth_prime_exists(n, b);
    let p = nth_prime(n);
    assert(prime_count(2) == 1) by {
        reveal_with_fuel(prime_count, 3);
    }
    if p == 2 {
        assert(prime_count(p) == n + 1 && n + 1 >= 2);
        assert(false);
    }
    assert(2 < p);
    if p % 2 == 0 {
        assert(divides(2, p));
        assert(!is_prime(p));
        assert(false);
    }
    assert(0 <= p % 2 < 2);
}

/// Divisibility is transitive: if `d` divides `c` and `e` divides `d`,
/// then `e` divides `c`.
proof fn lemma_divides_transitive(c: int, d: int, e: int)
    requires
        1 <= e,
        1 <= d,
        divides(d, c),
        divides(e, d),
    ensures
        divides(e, c),
{
    let qd = c / d;
    let qe = d / e;
    lemma_fundamental_div_mod(c, d);
    lemma_fundamental_div_mod(d, e);
    assert(c == (qe * qd) * e) by (nonlinear_arith)
        requires
            c == d * qd + 0,
            d == e * qe + 0,
    ;
    lemma_mod_multiples_basic(qe * qd, e);
}

/// The least divisor of `c` among `k, k + 1, ...`, or `c` itself.
spec fn least_divisor_from(c: int, k: int) -> int
    decreases c - k,
{
    if k < c && !divides(k, c) {
        least_divisor_from(c, k + 1)
    } else {
        k
    }
}

/// What the least-divisor search returns: a divisor of `c` in `[k, c]`
/// below which nothing in `[2, k)`-extended range divides `c`.
proof fn lemma_least_divisor_from(c: int, k: int)
    requires
        2 <= c,
        2 <= k <= c,
        forall|j: int| 2 <= j < k ==> !(#[trigger] divides(j, c)),
    ensures
        ({
            let d = least_divisor_from(c, k);
            &&& k <= d <= c
            &&& divides(d, c)
            &&& forall|j: int| 2 <= j < d ==> !(#[trigger] divides(j, c))
        }),
    decreases c - k,
{
    if k < c && !divides(k, c) {
        lemma_least_divisor_from(c, k + 1);
    } else if k == c {
        lemma_mod_self_0(c);
    }
}

/// A composite number has a prime factor whose square does not exceed it.
pub proof fn lemma_composite_has_small_prime_factor(c: int)
    requires
        2 <= c,
        !is_prime(c),
    ensures
        exists|p: int| is_prime(p) && p * p <= c && #[trigger] divides(p, c),
{
    lemma_least_divisor_from(c, 2);
    let d = least_divisor_from(c, 2);
    // d is prime: a smaller divisor of d would divide c, contradicting
    // the minimality of d.
    assert forall|e: int| 2 <= e < d implies !(#[trigger] divides(e, d)) by {
        if divides(e, d) {
            lemma_divides_transitive(c, d, e);
        }
    }
    assert(is_prime(d));
    // c is composite, so some divisor lies strictly inside [2, c); by
    // minimality d is at most that divisor, hence d < c.
    let e0 = choose|e: int| 2 <= e < c && #[trigger] divides(e, c);
    assert(2 <= e0 < c && divides(e0, c));
    assert(d <= e0);
    // The cofactor k = c / d is a divisor of c no smaller than d, so
    // d * d <= d * k == c.
    let k = c / d;
    lemma_fundamental_div_mod(c, d);
    assert(c == d * k);
    assert(k >= 2) by (nonlinear_arith)
        requires
            c == d * k,
            2 <= d,
            d < c,
    ;
    lemma_mod_multiples_basic(d, k);
    assert(divides(k, c)) by {
        assert(c == d * k);
        assert((d * k) % k == 0);
    }
    assert(k >= d);
    assert(d * d <= c) by (nonlinear_arith)
        requires
            c == d * k,
            2 <= d <= k,
    ;
    assert(is_prime(d) && d * d <= c && divides(d, c));
}

/// A number with no prime divisor whose square is at or below it is prime.
pub proof fn lemma_no_small_factor_is_prime(c: int)
    requires
        2 <= c,
        forall|p: int| is_prime(p) && p * p <= c ==> !(#[trigger] divides(p, c)),
    ensures
        is_prime(c),
{
    if !is_prime(c) {
        lemma_composite_has_small_prime_factor(c);
    }
}

/// Prime number generator: a growing cache of all primes up to its last
/// entry, in ascending order.  The view is the cached sequence.
pub struct PrimeNumberGenerator {
    primes: Vec<u16>,
}

impl View for PrimeNumberGenerator {
    type V = Seq<u16>;

    closed spec fn view(&self) -> Seq<u16> {
        self.primes@
    }
}

impl Default for PrimeNumberGenerator {
    /// A fresh generator, caching only the first prime, 2.
    fn default() -> (r: Self)
        ensures
            r.wf(),
            r@ == seq![2u16],
    {
        let mut v: Vec<u16> = Vec::new();
        v.push(2);
        proof {
            assert(v@ =~= seq![2u16]);
            assert(prime_count(2) == 1) by {
                reveal_with_fuel(prime_count, 3);
            }
        }
        PrimeNumberGenerator { primes: v }
    }
}

impl PrimeNumberGenerator {
    /// Well-formed cache: entry `i` is the `i + 1`-th prime, so the cache
    /// is exactly the ascending primes with none skipped.
    pub open spec fn wf(&self) -> bool {
        &&& self@.len() >= 1
        &&& forall|i: int|
            0 <= i < self@.len() ==> is_prime(#[trigger] self@[i] as int) && prime_count(
                self@[i] as int,
            ) == i + 1
    }

    /// Returns the nth prime number (`n == 0` returns 2, `n == 1` returns
    /// 3, and so on), extending the cache as far as needed.  Entries
    /// already cached are returned unchanged, and the cache only grows.
    pub fn get_prime(&mut self, n: u16) -> (r: u16)
        requires
            old(self).wf(),
            n + 1 <= prime_count(u16::MAX as int),
        ensures
            final(self).wf(),
            old(self)@.is_prefix_of(final(self)@),
            n < final(self)@.len(),
            r == final(self)@[n as int],
            is_prime(r as int),
            prime_count(r as int) == n + 1,
            r as int == nth_prime(n as int),
            old(self)@.len() > n ==> final(self)@ == old(self)@,
            old(self)@.len() <= n ==> final(self)@.len() == n + 1,
    {
        let ghost orig: Seq<u16> = self.primes@;
        let last: u16 = self.primes[self.primes.len() - 1];
        proof {
            assert(is_prime(last as int));
            // 65535 is composite (5 divides it), so the cached prime `last`
            // is small enough that `last + 1` cannot overflow.
            assert(divides(5, 65535));
            assert(last < 65535);
        }
        let mut candidate: u16 = last + 1;
        proof {
            assert(prime_count(candidate as int - 1) == self.primes@.len());
        }
        while self.primes.len() <= n as usize
            invariant
                self.wf(),
                orig.len() <= n ==> self.primes@.len() <= n + 1,
                orig.is_prefix_of(self.primes@),
                n + 1 <= prime_count(u16::MAX as int),
                2 <= candidate,
                self.primes@.len() <= n ==> prime_count(candidate as int - 1)
                    == self.primes@.len(),
                orig.len() > n ==> self.primes@ == orig,
            decreases n + 1 - self.primes@.len(), 65536 - candidate as int,
        {
            let c32: u32 = candidate as u32;
            let mut maybe_prime: bool = true;
            let mut scanning: bool = true;
            let mut j: usize = 0;
            while scanning
                invariant
                    self.wf(),
                    j <= self.primes@.len(),
                    c32 == candidate as u32,
                    2 <= candidate,
                    maybe_prime ==> forall|k: int|
                        0 <= k < j ==> !(#[trigger] divides(
                            self.primes@[k] as int,
                            candidate as int,
                        )),
                    !maybe_prime ==> !is_prime(candidate as int),
                    !scanning ==> !maybe_prime || j == self.primes@.len() || (
                    self.primes@[j as int] as int) * (self.primes@[j as int] as int)
                        > candidate as int,
                decreases self.primes@.len() - j + (if scanning {
                    1int
                } else {
                    0int
                }),
            {
                if j >= self.primes.len() {
                    scanning = false;
                } else {
                    let p: u16 = self.primes[j];
                    proof {
                        assert((p as int) * (p as int) < 0x100000000) by (nonlinear_arith)
                            requires
                                p as int <= 0xffff,
                        ;
                    }
                    let sq: u32 = (p as u32) * (p as u32);
                    if sq > c32 {
                        scanning = false;
                    } else if candidate % p == 0 {
                        maybe_prime = false;
                        scanning = false;
                        proof {
                            let d = p as int;
                            assert(is_prime(d));
                            assert(d * d <= candidate as int);
                            assert(d < candidate as int) by (nonlinear_arith)
                                requires
                                    2 <= d,
                                    d * d <= candidate as int,
                            ;
                            assert(divides(d, candidate as int));
                            assert(!is_prime(candidate as int));
                        }
                    } else {
                        j += 1;
                    }
                }
            }
            if maybe_prime {
                proof {
                    let c = candidate as int;
                    let len = self.primes@.len() as int;
                    assert forall|p: int| is_prime(p) && p * p <= c implies !(#[trigger] divides(
                        p,
                        c,
                    )) by {
                        if divides(p, c) {
                            // p is a cached prime: it lies below the
                            // candidate, and every prime below the
                            // candidate is in the cache.
                            assert(p < c) by (nonlinear_arith)
                                requires
                                    2 <= p,
                                    p * p <= c,
                            ;
                            lemma_prime_count_mono(p, c - 1);
                            assert(prime_count(p) <= len);
                            let i = prime_count(p) as int - 1;
                            assert(prime_count(p) == prime_count(p - 1) + 1);
                            assert(0 <= i < len);
                            lemma_prime_unique(p, self.primes@[i] as int);
                            assert(self.primes@[i] as int == p);
                            // Either the whole cache was scanned, or the
                            // scan stopped at a cached prime whose square
                            // exceeds the candidate; in both cases index i
                            // was scanned.
                            if j < self.primes@.len() {
                                let pj = self.primes@[j as int] as int;
                                assert(pj * pj > c);
                                assert(p < pj) by (nonlinear_arith)
                                    requires
                                        2 <= p,
                                        2 <= pj,
                                        p * p <= c,
                                        pj * pj > c,
                                ;
                                lemma_prime_count_mono(p, pj - 1);
                                assert(prime_count(pj) == prime_count(pj - 1) + 1);
                                assert(i < j);
                            } else {
                                assert(i < j);
                            }
                            assert(!divides(self.primes@[i] as int, c));
                            assert(false);
                        }
                    }
                    lemma_no_small_factor_is_prime(c);
                    assert(prime_count(c) == self.primes@.len() + 1);
                }
                let ghost before: Seq<u16> = self.primes@;
                self.primes.push(candidate);
                proof {
                    assert(self.primes@ == before.push(candidate));
                    assert(orig.is_prefix_of(self.primes@)) by {
                        assert(forall|i: int|
                            0 <= i < orig.len() ==> orig[i] == #[trigger] self.primes@[i]);
                    }
                }
            } else {
                proof {
                    assert(prime_count(candidate as int) == self.primes@.len());
                }
            }
            if self.primes.len() <= n as usize {
                proof {
                    assert(prime_count(candidate as int) == self.primes@.len());
                    if candidate >= 65535 {
                        lemma_prime_count_mono(65535, candidate as int);
                        assert(false);
                    }
                }
                candidate += 1;
            }
        }
        let r: u16 = self.primes[n as usize];
        proof {
            lemma_nth_prime(r as int, n as int);
        }
        r
    }
}

} // verus!
