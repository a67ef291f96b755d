//! Legacy-compatible 32-bit schema fingerprint generator.
//!
//! Each integer contribution is multiplied by the next prime number and
//! added to a 32-bit accumulator with wrap-around arithmetic; the prime
//! index rotates modulo [`MAX_PRIME_NUMBERS`].  The exact order of the
//! contributions fed by a schema walker is part of the compatibility
//! contract, so the hash depends only on that ordered sequence.

use vstd::prelude::*;
use vstd::arithmetic::div_mod::lemma_fundamental_div_mod;
use vstd::arithmetic::div_mod::lemma_mod_multiples_basic;
use vstd::arithmetic::div_mod::lemma_mod_multiples_vanish;
use vstd::arithmetic::power2::lemma_pow2_pos;
use vstd::arithmetic::power2::lemma_pow2_unfold;
use vstd::arithmetic::power2::lemma2_to64;
use vstd::arithmetic::power2::pow2;
use vstd::string::StrSliceExecFns;
use vstd::utf8::encode_utf8;
use crate::primes::PrimeNumberGenerator;
use crate::primes::nth_prime;
use crate::primes::prime_count;

verus! {

/// A computed 32-bit schema fingerprint.
pub type DCFileHash = u32;

/// Bound of the rotating prime index: after this many contributions the
/// prime table is recycled from the start.
pub const MAX_PRIME_NUMBERS: u16 = 10000;

/// Reduction into the 32-bit accumulator: wrap-around arithmetic, never
/// saturating.
pub open spec fn wrap32(x: int) -> int {
    x % 0x100000000
}

/// The accumulator after one integer contribution `n` at rotation index
/// `idx`: the contribution is weighted by the `idx + 1`-th prime.
pub open spec fn hash_step(h: int, idx: int, n: int) -> int {
    wrap32(h + nth_prime(idx) * n)
}

/// The rotation index following `idx`.
pub open spec fn index_step(idx: int) -> int {
    (idx + 1) % (MAX_PRIME_NUMBERS as int)
}

/// The accumulator after a whole sequence of integer contributions, fed
/// in order starting at rotation index `idx`.
pub open spec fn hash_after(h: int, idx: int, ns: Seq<int>) -> int
    decreases ns.len(),
{
    if ns.len() == 0 {
        h
    } else {
        hash_after(hash_step(h, idx, ns[0]), index_step(idx), ns.drop_first())
    }
}

/// The rotation index after `count` contributions starting at `idx`.
pub open spec fn index_after(idx: int, count: nat) -> int
    decreases count,
{
    if count == 0 {
        idx
    } else {
        index_after(index_step(idx), (count - 1) as nat)
    }
}

/// The integer contributions of a blob: its length first, then every byte
/// in order, each widened unsigned.
pub open spec fn blob_contribs(b: Seq<u8>) -> Seq<int> {
    seq![b.len() as int] + b.map_values(|x: u8| x as int)
}

/// Every rotation index touched by `count` successive contributions
/// starting at `idx` asks for a prime that fits 16 bits.  Exceeding this
/// budget without resetting state is a precondition violation of the
/// generator, not a recoverable runtime condition.
pub open spec fn budget_ok(idx: int, count: int) -> bool {
    forall|k: nat| k < count ==> #[trigger] index_after(idx, k) + 1 <= prime_count(u16::MAX as int)
}

/// Stepping the rotation index commutes with counting: one more
/// contribution advances the index once more.
pub proof fn lemma_index_after_step(idx: int, count: nat)
    ensures
        index_after(idx, (count + 1) as nat) == index_step(index_after(idx, count)),
    decreases count,
{
    assert(index_after(idx, (count + 1) as nat) == index_after(index_step(idx), count));
    if count == 0 {
        assert(index_after(index_step(idx), 0) == index_step(idx));
    } else {
        lemma_index_after_step(index_step(idx), (count - 1) as nat);
        assert(index_after(idx, count) == index_after(index_step(idx), (count - 1) as nat));
    }
}

/// The hash of concatenated contribution sequences equals feeding the
/// first, then the second from the state so reached: the fingerprint
/// depends only on the ordered contribution sequence, never on how the
/// calls that fed it were grouped.
pub proof fn lemma_hash_after_concat(h: int, idx: int, a: Seq<int>, b: Seq<int>)
    ensures
        hash_after(h, idx, a + b) == hash_after(
            hash_after(h, idx, a),
            index_after(idx, a.len()),
            b,
        ),
        index_after(idx, (a.len() + b.len()) as nat) == index_after(
            index_after(idx, a.len()),
            b.len(),
        ),
    decreases a.len(),
{
    if a.len() == 0 {
        assert(a + b =~= b);
    } else {
        assert((a + b).drop_first() =~= a.drop_first() + b);
        lemma_hash_after_concat(hash_step(h, idx, a[0]), index_step(idx), a.drop_first(), b);
    }
}

/// An odd factor cannot hide a multiple of a power of two: if an odd `p`
/// times `x` is divisible by `2^k`, then `x` already is.
proof fn lemma_odd_factor_of_pow2(p: int, x: int, k: nat)
    requires
        p % 2 == 1,
        (p * x) % (pow2(k) as int) == 0,
    ensures
        x % (pow2(k) as int) == 0,
    decreases k,
{
    if k == 0 {
        assert(pow2(0) == 1) by {
            lemma2_to64();
        }
    } else {
        lemma_pow2_unfold(k);
        let m = pow2(k) as int;
        let m2 = pow2((k - 1) as nat) as int;
        lemma_pow2_pos((k - 1) as nat);
        assert(m == 2 * m2);
        lemma_fundamental_div_mod(p * x, m);
        let q = (p * x) / m;
        assert(p * x == m * q);
        // x must be even: an odd times an odd is odd, yet p * x is even.
        lemma_fundamental_div_mod(x, 2);
        let b = x / 2;
        if x % 2 == 1 {
            lemma_fundamental_div_mod(p, 2);
            let a = p / 2;
            assert(p * x == 2 * (2 * a * b + a + b) + 1) by (nonlinear_arith)
                requires
                    p == 2 * a + 1,
                    x == 2 * b + 1,
            ;
            assert(p * x == 2 * (m2 * q)) by (nonlinear_arith)
                requires
                    p * x == m * q,
                    m == 2 * m2,
            ;
            assert(2 * (2 * a * b + a + b) + 1 == 2 * (m2 * q) ==> false) by (nonlinear_arith);
            assert(false);
        }
        assert(0 <= x % 2 < 2);
        assert(x == 2 * b);
        assert(p * b == m2 * q) by (nonlinear_arith)
            requires
                p * (2 * b) == (2 * m2) * q,
        ;
        lemma_mod_multiples_basic(q, m2);
        assert((p * b) % m2 == 0);
        lemma_odd_factor_of_pow2(p, b, (k - 1) as nat);
        lemma_fundamental_div_mod(b, m2);
        let t = b / m2;
        assert(b == m2 * t);
        assert(x == m * t) by (nonlinear_arith)
            requires
                x == 2 * b,
                b == m2 * t,
                m == 2 * m2,
        ;
        lemma_mod_multiples_basic(t, m);
    }
}

/// Altering a single integer contribution alters the accumulator, at
/// every rotation index past the first: the weighting prime is odd
/// there, hence invertible modulo 2^32, so two different 32-bit signed
/// contributions can never produce the same new accumulator from the
/// same state.
pub proof fn lemma_hash_int_sensitive(h: int, idx: int, n1: int, n2: int)
    requires
        1 <= idx,
        idx + 1 <= prime_count(u16::MAX as int),
        i32::MIN <= n1 <= i32::MAX,
        i32::MIN <= n2 <= i32::MAX,
        n1 != n2,
    ensures
        hash_step(h, idx, n1) != hash_step(h, idx, n2),
{
    let m = 0x100000000int;
    crate::primes::lemma_nth_prime_odd(idx, u16::MAX as int);
    let p = nth_prime(idx);
    if hash_step(h, idx, n1) == hash_step(h, idx, n2) {
        lemma_fundamental_div_mod(h + p * n1, m);
        lemma_fundamental_div_mod(h + p * n2, m);
        let q1 = (h + p * n1) / m;
        let q2 = (h + p * n2) / m;
        let d = n1 - n2;
        assert(p * d == m * (q1 - q2)) by (nonlinear_arith)
            requires
                h + p * n1 == m * q1 + (h + p * n1) % m,
                h + p * n2 == m * q2 + (h + p * n2) % m,
                (h + p * n1) % m == (h + p * n2) % m,
                d == n1 - n2,
        ;
        lemma_mod_multiples_basic(q1 - q2, m);
        assert((p * d) % m == 0);
        assert(pow2(32) == 0x100000000) by {
            lemma2_to64();
        }
        lemma_odd_factor_of_pow2(p, d, 32);
        lemma_fundamental_div_mod(d, m);
        let t = d / m;
        assert(d == m * t);
        assert(-m < d < m);
        assert(d == 0) by (nonlinear_arith)
            requires
                d == m * t,
                -m < d < m,
                m == 0x100000000,
        ;
        assert(false);
    }
}

/// 32-bit hash generator: an accumulator (kept as its unsigned 32-bit bit
/// pattern), a rotating prime index, and the prime cache feeding it.
pub struct DCHashGenerator {
    hash: u32,
    index: u16,
    primes: PrimeNumberGenerator,
}

/// Implemented by schema elements so each can accumulate its properties
/// into the file hash, in declaration order, using the same hashing
/// method as the legacy class library this fingerprint stays compatible
/// with.
pub trait LegacyDCHash {
    /// Accumulates the properties of this element into the file hash.
    fn generate_hash(&self, hashgen: &mut DCHashGenerator);
}

impl Default for DCHashGenerator {
    /// A fresh generator: zero accumulator, rotation index at the start.
    fn default() -> (r: Self)
        ensures
            r.wf(),
            r.spec_hash() == 0,
            r.spec_index() == 0,
    {
        DCHashGenerator { hash: 0, index: 0, primes: PrimeNumberGenerator::default() }
    }
}

impl DCHashGenerator {
    /// The accumulator, as a mathematical integer in `[0, 2^32)`.
    pub closed spec fn spec_hash(&self) -> int {
        self.hash as int
    }

    /// The current rotation index.
    pub closed spec fn spec_index(&self) -> int {
        self.index as int
    }

    /// Well-formed generator: the rotation index is within its bound and
    /// the prime cache is intact.
    pub closed spec fn wf(&self) -> bool {
        &&& self.primes.wf()
        &&& 0 <= self.spec_index() < MAX_PRIME_NUMBERS as int
    }

    /// Adds another integer to the hash so far.
    pub fn add_int(&mut self, number: i32)
        requires
            old(self).wf(),
            old(self).spec_index() + 1 <= prime_count(u16::MAX as int),
        ensures
            final(self).wf(),
            final(self).spec_hash() == hash_step(
                old(self).spec_hash(),
                old(self).spec_index(),
                number as int,
            ),
            final(self).spec_index() == index_step(old(self).spec_index()),
    {
        let p: u16 = self.primes.get_prime(self.index);
        let n64: u64 = if number >= 0 {
            number as u64
        } else {
            ((number as i64) + 0x100000000) as u64
        };
        proof {
            assert((p as int) * (n64 as int) <= 0xffff * 0xffffffff) by (nonlinear_arith)
                requires
                    0 <= p as int <= 0xffff,
                    0 <= n64 as int <= 0xffffffff,
            ;
        }
        let prod: u64 = (p as u64) * n64;
        let prod32: u64 = prod % 0x100000000;
        let sum: u64 = (self.hash as u64) + prod32;
        let new_hash: u32 = (sum % 0x100000000) as u32;
        proof {
            let m = 0x100000000int;
            let h = self.hash as int;
            let pi = p as int;
            let ni = n64 as int;
            // Dropping the inner reduction of the product does not change
            // the reduced sum.
            lemma_fundamental_div_mod(pi * ni, m);
            lemma_mod_multiples_vanish(-((pi * ni) / m), h + pi * ni, m);
            assert(h + (pi * ni) % m == m * (-((pi * ni) / m)) + (h + pi * ni)) by (nonlinear_arith)
                requires
                    pi * ni == m * ((pi * ni) / m) + (pi * ni) % m,
            ;
            assert((h + (pi * ni) % m) % m == (h + pi * ni) % m);
            // A negative contribution stands for its value modulo 2^32.
            if number < 0 {
                assert(pi * ni == pi * (number as int) + m * pi) by (nonlinear_arith)
                    requires
                        ni == number as int + m,
                ;
                lemma_mod_multiples_vanish(pi, h + pi * (number as int), m);
            }
            assert(new_hash as int == hash_step(h, self.index as int, number as int));
        }
        self.hash = new_hash;
        self.index = (self.index + 1) % MAX_PRIME_NUMBERS;
    }

    /// Adds a blob to the hash: its length first, then every byte in
    /// order, exactly as the same sequence of single-integer additions
    /// would.
    pub fn add_blob(&mut self, blob: Vec<u8>)
        requires
            old(self).wf(),
            blob@.len() <= i32::MAX as int,
            budget_ok(old(self).spec_index(), blob@.len() as int + 1),
        ensures
            final(self).wf(),
            final(self).spec_hash() == hash_after(
                old(self).spec_hash(),
                old(self).spec_index(),
                blob_contribs(blob@),
            ),
            final(self).spec_index() == index_after(
                old(self).spec_index(),
                (blob@.len() + 1) as nat,
            ),
    {
        let ghost h0: int = self.spec_hash();
        let ghost idx0: int = self.spec_index();
        let ghost contribs: Seq<int> = blob_contribs(blob@);
        proof {
            assert(index_after(idx0, 0) == idx0);
            assert(budget_ok(idx0, blob@.len() as int + 1));
            assert(index_after(idx0, 0) + 1 <= prime_count(u16::MAX as int));
        }
        let len32: i32 = blob.len() as i32;
        self.add_int(len32);
        proof {
            lemma_index_after_step(idx0, 0);
            assert(contribs[0] == blob@.len() as int);
            assert(contribs.skip(1) =~= blob@.map_values(|x: u8| x as int));
            assert(hash_after(h0, idx0, contribs) == hash_after(
                self.spec_hash(),
                self.spec_index(),
                contribs.skip(1),
            ));
        }
        let mut i: usize = 0;
        while i < blob.len()
            invariant
                self.wf(),
                i <= blob@.len(),
                blob@.len() <= i32::MAX as int,
                contribs == blob_contribs(blob@),
                budget_ok(idx0, blob@.len() as int + 1),
                self.spec_index() == index_after(idx0, (i + 1) as nat),
                hash_after(h0, idx0, contribs) == hash_after(
                    self.spec_hash(),
                    self.spec_index(),
                    contribs.skip(i + 1),
                ),
            decreases blob@.len() - i,
        {
            let b: u8 = blob[i];
            proof {
                assert(index_after(idx0, (i + 1) as nat) + 1 <= prime_count(u16::MAX as int));
                assert(contribs.skip(i + 1)[0] == b as int);
            }
            self.add_int(b as i32);
            proof {
                lemma_index_after_step(idx0, (i + 1) as nat);
                assert(contribs.skip(i + 1).drop_first() =~= contribs.skip(i + 2));
            }
            i += 1;
        }
        proof {
            assert(contribs.skip(blob@.len() as int + 1) =~= Seq::<int>::empty());
            assert(contribs.len() == blob@.len() + 1);
        }
    }

    /// Adds a string to the hash, as the blob of its UTF-8 bytes.
    pub fn add_string(&mut self, string: String)
        requires
            old(self).wf(),
            encode_utf8(string@).len() <= i32::MAX as int,
            budget_ok(old(self).spec_index(), encode_utf8(string@).len() as int + 1),
        ensures
            final(self).wf(),
            final(self).spec_hash() == hash_after(
                old(self).spec_hash(),
                old(self).spec_index(),
                blob_contribs(encode_utf8(string@)),
            ),
            final(self).spec_index() == index_after(
                old(self).spec_index(),
                (encode_utf8(string@).len() + 1) as nat,
            ),
    {
        let bytes: Vec<u8> = string.as_str().as_bytes_vec();
        self.add_blob(bytes)
    }

    /// The accumulator's bit pattern, as an unsigned 32-bit fingerprint.
    pub fn get_hash(&self) -> (r: DCFileHash)
        ensures
            r as int == self.spec_hash(),
    {
        self.hash
    }
}

} // verus!
