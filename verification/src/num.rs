//! A count that is never zero.

use vstd::prelude::*;

verus! {

/// A `usize` that is never zero, used for channel capacities and buffer sizes.
///
/// It offers the part of std's `NonZeroUsize` interface that the timer uses
/// (`new`, `get`, comparison), over a plain `usize`.
#[derive(Clone, Copy, Debug, PartialEq, Eq, Structural)]
pub struct NonZeroUsize {
    pub(crate) value: usize,
}

impl NonZeroUsize {
    #[verifier::type_invariant]
    spec fn never_zero(self) -> bool {
        self.value != 0
    }

    /// The number held.
    pub closed spec fn value(self) -> usize {
        self.value
    }

    /// Makes a non-zero count from `n`, or `None` when `n` is zero.
    pub fn new(n: usize) -> (r: Option<Self>)
        ensures
            n == 0 <==> r.is_none(),
            r matches Some(c) ==> c.value() == n,
    {
        if n == 0 {
            None
        } else {
            Some(NonZeroUsize { value: n })
        }
    }

    /// The number held, which is never zero.
    pub fn get(self) -> (r: usize)
        ensures
            r == self.value(),
            r > 0,
    {
        proof {
            use_type_invariant(&self);
        }
        self.value
    }
}

} // verus!

verus! {

/// `n` is a power of two: `n == 2^k` for some `k`.
pub open spec fn is_power_of_two(n: usize) -> bool {
    exists|k: nat| #[trigger] vstd::arithmetic::power2::pow2(k) == n
}

/// Calls `usize::is_power_of_two`, which is true if and only if `n == 2^k`
/// for some `k`.
#[verifier::external_body]
pub fn usize_is_power_of_two(n: usize) -> (r: bool)
    ensures
        r == is_power_of_two(n),
{
    n.is_power_of_two()
}

/// `a` is an integer multiple of `b`; zero is the only multiple of zero.
pub open spec fn is_multiple(a: u64, b: u64) -> bool {
    if b == 0 {
        a == 0
    } else {
        a % b == 0
    }
}

/// Whether `a` is an integer multiple of `b`, as `u64::is_multiple_of` answers.
pub fn u64_is_multiple_of(a: u64, b: u64) -> (r: bool)
    ensures
        r == is_multiple(a, b),
{
    if b == 0 {
        a == 0
    } else {
        a % b == 0
    }
}

/// A power of two shares no bit with the number below it.
proof fn lemma_shl_mask(k: usize)
    by (bit_vector)
    requires
        k < usize::BITS,
    ensures
        ((1usize << k) & (((1usize << k) - 1) as usize)) == 0,
        (1usize << k) != 0,
{
}

/// A power of two `n` shares no bit with `n - 1`, the mask of its low bits.
pub proof fn lemma_power_of_two_mask(n: usize)
    requires
        is_power_of_two(n),
    ensures
        n > 0,
        (n & ((n - 1) as usize)) == 0,
{
    let k = choose|k: nat| vstd::arithmetic::power2::pow2(k) == n;
    assert(vstd::arithmetic::power2::pow2(k) == n);
    if k >= usize::BITS {
        vstd::arithmetic::power2::lemma2_to64();
        if k > usize::BITS as nat {
            vstd::arithmetic::power2::lemma_pow2_strictly_increases(usize::BITS as nat, k);
        }
        assert(usize::BITS == 32 || usize::BITS == 64);
        assert(false);
    }
    vstd::bits::lemma_usize_pow2_no_overflow(k);
    vstd::bits::lemma_usize_shl_is_mul(1, k as usize);
    lemma_shl_mask(k as usize);
}

} // verus!
