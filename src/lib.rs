//! A set-associative cache simulator: address decoding, per-set replacement
//! policies (LRU, FIFO, random) and three-Cs miss classification.
use vstd::arithmetic::power::pow;
use vstd::arithmetic::power2::{is_pow2, is_pow2_equiv, lemma_pow2, pow2};
use vstd::prelude::*;

pub mod cache;
pub mod decoder;
pub mod random;
pub mod regular;
pub mod set_store;
pub mod text;

verus! {

/// `n` is `2^k` for some natural `k`.
pub open spec fn is_power_of_two(n: nat) -> bool {
    exists|k: nat| pow2(k) == n
}

/// A number larger than one is a power of two exactly when it is even and
/// its half is one.
pub proof fn lemma_power_of_two_halving(n: nat)
    requires
        n > 1,
    ensures
        is_power_of_two(n) <==> (n % 2 == 0 && is_power_of_two(n / 2)),
{
    reveal(is_pow2);
    lemma_power_of_two_exists(n);
    lemma_power_of_two_exists(n / 2);
    assert(is_pow2(n as int) == (n % 2 == 0 && is_pow2((n / 2) as int)));
}

/// `is_power_of_two` agrees with vstd's recursive `is_pow2`.
proof fn lemma_power_of_two_exists(n: nat)
    ensures
        is_power_of_two(n) <==> is_pow2(n as int),
{
    is_pow2_equiv(n as int);
    if is_power_of_two(n) {
        let k = choose|k: nat| pow2(k) == n;
        lemma_pow2(k);
        assert(pow(2, k) == n as int);
    }
    if vstd::arithmetic::power2::is_pow2_exists(n as int) {
        let k = choose|k: nat| pow(2, k) == n as int;
        lemma_pow2(k);
        assert(pow2(k) == n);
    }
}

/// Either of two values.
pub enum Either<T1, T2> {
    Left(T1),
    Right(T2),
}

/// A value that can be checked for being a power of two.
pub trait TryPowerOfTwo: Sized + Copy {
    /// The number that the value stands for.
    spec fn number(&self) -> nat;

    /// `Ok` with the value when it is a power of two, else `Err` with it.
    fn try_power_of_two(&self) -> (r: Result<Self, Self>)
        ensures
            is_power_of_two(self.number()) ==> r == Ok::<Self, Self>(*self),
            !is_power_of_two(self.number()) ==> r == Err::<Self, Self>(*self),
    ;
}

impl TryPowerOfTwo for usize {
    open spec fn number(&self) -> nat {
        *self as nat
    }

    fn try_power_of_two(&self) -> (r: Result<usize, usize>) {
        let v = *self;
        if v == 0 {
            proof {
                assert forall|k: nat| pow2(k) != 0 by {
                    vstd::arithmetic::power2::lemma_pow2_pos(k);
                }
            }
            return Err(v);
        }
        let mut m: usize = v;
        while m % 2 == 0
            invariant
                m >= 1,
                is_power_of_two(m as nat) == is_power_of_two(v as nat),
            decreases m,
        {
            proof {
                lemma_power_of_two_halving(m as nat);
            }
            m = m / 2;
        }
        if m == 1 {
            proof {
                lemma_pow2(0);
                assert(pow(2, 0) == 1) by { reveal(pow); }
                assert(pow2(0) == 1);
            }
            Ok(v)
        } else {
            proof {
                lemma_power_of_two_halving(m as nat);
            }
            Err(v)
        }
    }
}

} // verus!
