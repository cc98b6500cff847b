//! The lengths that the radix-2 transform accepts.
//!
//! The transform halves its input until one value is left, so it is defined
//! for the lengths that are powers of two (and trivially for the empty
//! sequence) and for no others. The transform itself works on real numbers
//! and is the caller's; the caller asks here whether a length is in order
//! before it starts.

use vstd::arithmetic::power2::{lemma_pow2_pos, lemma_pow2_unfold, pow2};
use vstd::prelude::*;

verus! {

/// Why a sequence cannot be transformed.
#[derive(Debug, Clone, Copy, PartialEq, Eq, Structural)]
pub enum FftError {
    /// The length is not a power of two.
    LengthNotPowerOfTwo,
}

/// Whether `n` is a power of two: `n == 2^e` for some `e`.
pub open spec fn is_pow2_len(n: int) -> bool {
    exists|e: nat| n == pow2(e)
}

/// Whether halving `n` again and again ends at one without a remainder.
pub open spec fn halves_to_one(n: int) -> bool
    decreases n,
{
    n == 1 || (n > 1 && n % 2 == 0 && halves_to_one(n / 2))
}

/// The powers of two are the numbers that halve down to one.
pub proof fn lemma_halves_to_one(n: int)
    ensures
        halves_to_one(n) <==> is_pow2_len(n),
    decreases n,
{
    if n == 1 {
        assert(pow2(0) == 1) by {
            vstd::arithmetic::power2::lemma2_to64();
        }
    } else if n > 1 && n % 2 == 0 {
        lemma_halves_to_one(n / 2);
        if is_pow2_len(n / 2) {
            let e = choose|e: nat| n / 2 == pow2(e);
            lemma_pow2_unfold(e + 1);
            assert(n == pow2(e + 1));
        }
        if is_pow2_len(n) {
            let e = choose|e: nat| n == pow2(e);
            if e == 0 {
                vstd::arithmetic::power2::lemma2_to64();
            } else {
                lemma_pow2_unfold(e);
                assert(n / 2 == pow2((e - 1) as nat));
            }
        }
    } else {
        if is_pow2_len(n) {
            let e = choose|e: nat| n == pow2(e);
            lemma_pow2_pos(e);
            if e == 0 {
                vstd::arithmetic::power2::lemma2_to64();
            } else {
                lemma_pow2_unfold(e);
            }
        }
    }
}

/// Whether `n` is a power of two.
pub fn is_power_of_two(n: usize) -> (b: bool)
    ensures
        b == is_pow2_len(n as int),
{
    let mut m: usize = n;
    while m > 1 && m % 2 == 0
        invariant
            halves_to_one(m as int) == halves_to_one(n as int),
        decreases m,
    {
        m = m / 2;
    }
    proof {
        lemma_halves_to_one(n as int);
    }
    m == 1
}

/// Accepts the lengths that can be transformed: the powers of two, and zero
/// (a sequence without values is its own transform).
pub fn check_fft_len(n: usize) -> (r: Result<(), FftError>)
    ensures
        r is Ok <==> n == 0 || is_pow2_len(n as int),
        r is Err ==> r == Err::<(), FftError>(FftError::LengthNotPowerOfTwo),
{
    if n == 0 || is_power_of_two(n) {
        Ok(())
    } else {
        Err(FftError::LengthNotPowerOfTwo)
    }
}

} // verus!
