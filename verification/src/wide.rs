//! Unsigned integers of 256 and 512 bits.
//!
//! The arithmetic itself is `ruint`'s. Each operation that the library needs
//! stands behind one small function whose contract says what `ruint` computes,
//! over the value of the little-endian limbs; the exact operations built on
//! top of them are proved.

use ruint::Uint;
use vstd::arithmetic::div_mod::lemma_small_mod;
use vstd::arithmetic::power2::{lemma2_to64, lemma_pow2_adds, pow2};
use vstd::prelude::*;

verus! {

/// The number that a little-endian sequence of 64-bit limbs stands for.
pub open spec fn limbs_value(limbs: Seq<u64>) -> nat
    decreases limbs.len(),
{
    if limbs.len() == 0 {
        0
    } else {
        limbs[0] as nat + 0x1_0000_0000_0000_0000 * limbs_value(limbs.drop_first())
    }
}

/// A sequence of limbs stands for a number below two to the count of its bits.
proof fn lemma_limbs_value_bound(limbs: Seq<u64>)
    ensures
        limbs_value(limbs) < pow2(64 * limbs.len()),
    decreases limbs.len(),
{
    lemma2_to64();
    if limbs.len() > 0 {
        let rest = limbs.drop_first();
        lemma_limbs_value_bound(rest);
        lemma_pow2_adds(64, 64 * rest.len());
        assert(64 + 64 * rest.len() == 64 * limbs.len());
        assert(limbs_value(rest) + 1 <= pow2(64 * rest.len()));
    }
}

/// Appending a zero limb keeps the value.
proof fn lemma_limbs_value_pad(limbs: Seq<u64>)
    ensures
        limbs_value(limbs.push(0)) == limbs_value(limbs),
    decreases limbs.len(),
{
    reveal_with_fuel(limbs_value, 2);
    if limbs.len() == 0 {
        assert(limbs.push(0).drop_first() =~= Seq::<u64>::empty());
    } else {
        lemma_limbs_value_pad(limbs.drop_first());
        assert(limbs.push(0).drop_first() =~= limbs.drop_first().push(0));
    }
}

/// The 512-bit range leaves room for everything below 2^320.
pub(crate) proof fn lemma_wide_room()
    ensures
        pow2(512)
            > 0x1_0000_0000_0000_0000_0000_0000_0000_0000_0000_0000_0000_0000_0000_0000_0000_0000_0000_0000_0000_0000,
{
    lemma2_to64();
    lemma_pow2_adds(64, 64);
    assert(pow2(128) == 0x1_0000_0000_0000_0000 * 0x1_0000_0000_0000_0000);
    lemma_pow2_adds(128, 128);
    assert(pow2(256) == 0x1_0000_0000_0000_0000_0000_0000_0000_0000
        * 0x1_0000_0000_0000_0000_0000_0000_0000_0000);
    lemma_pow2_adds(256, 256);
    assert(pow2(512) == (0x1_0000_0000_0000_0000_0000_0000_0000_0000
        * 0x1_0000_0000_0000_0000_0000_0000_0000_0000) * pow2(256));
}

/// A 256-bit unsigned integer, least significant limb first.
#[derive(Clone, Copy, Debug, PartialEq, Eq)]
pub struct U256 {
    pub limbs: [u64; 4],
}

/// A 512-bit unsigned integer, least significant limb first.
///
/// Every intermediate of the pool mathematics is a product of at most two
/// 128-bit values and a small constant, or the square of one such product, so
/// none of them leaves this range.
#[derive(Clone, Copy, Debug, PartialEq, Eq)]
pub struct U512 {
    pub limbs: [u64; 8],
}

impl View for U256 {
    type V = nat;

    open spec fn view(&self) -> nat {
        limbs_value(self.limbs@)
    }
}

impl View for U512 {
    type V = nat;

    open spec fn view(&self) -> nat {
        limbs_value(self.limbs@)
    }
}

impl U256 {
    /// The integer with the given value.
    pub fn from_u128(value: u128) -> (r: U256)
        ensures
            r@ == value,
    {
        let low: u64 = (value % 0x1_0000_0000_0000_0000) as u64;
        let high: u64 = (value / 0x1_0000_0000_0000_0000) as u64;
        let r = U256 { limbs: [low, high, 0, 0] };
        proof {
            let s0: Seq<u64> = Seq::empty();
            let s1 = s0.push(low);
            let s2 = s1.push(high);
            lemma_limbs_value_pad(s2);
            lemma_limbs_value_pad(s2.push(0));
            assert(r.limbs@ =~= s2.push(0).push(0));
            assert(s2.drop_first() =~= s0.push(high));
            assert(s0.push(high).drop_first() =~= s0);
            reveal_with_fuel(limbs_value, 3);
        }
        r
    }

    /// The same value in 512 bits.
    pub(crate) fn widen(&self) -> (r: U512)
        ensures
            r@ == self@,
            r@ < pow2(256),
    {
        let l = self.limbs;
        let r = U512 { limbs: [l[0], l[1], l[2], l[3], 0, 0, 0, 0] };
        proof {
            let s = self.limbs@;
            lemma_limbs_value_bound(s);
            lemma_limbs_value_pad(s);
            lemma_limbs_value_pad(s.push(0));
            lemma_limbs_value_pad(s.push(0).push(0));
            lemma_limbs_value_pad(s.push(0).push(0).push(0));
            assert(r.limbs@ =~= s.push(0).push(0).push(0).push(0));
        }
        r
    }
}

impl U512 {
    /// `Uint::from(u128)` of `ruint`: keeps the value.
    #[verifier::external_body]
    pub(crate) fn from_u128(value: u128) -> (r: U512)
        ensures
            r@ == value,
    {
        U512 { limbs: Uint::<512, 8>::from(value).into_limbs() }
    }

    /// `u128::try_from(Uint)` of `ruint`: the value where it fits in 128 bits,
    /// an error where it does not.
    #[verifier::external_body]
    pub(crate) fn to_u128(&self) -> (r: Option<u128>)
        ensures
            r is Some <==> self@ <= u128::MAX,
            r matches Some(v) ==> v == self@,
    {
        u128::try_from(Uint::<512, 8>::from_limbs(self.limbs)).ok()
    }

    /// `Uint::is_zero` of `ruint`.
    #[verifier::external_body]
    pub(crate) fn is_zero(&self) -> (r: bool)
        ensures
            r == (self@ == 0),
    {
        Uint::<512, 8>::from_limbs(self.limbs).is_zero()
    }

    /// `<` on `ruint`'s `Uint`: compares the values.
    #[verifier::external_body]
    pub(crate) fn less_than(&self, rhs: &U512) -> (r: bool)
        ensures
            r == (self@ < rhs@),
    {
        Uint::<512, 8>::from_limbs(self.limbs) < Uint::<512, 8>::from_limbs(rhs.limbs)
    }

    /// `Uint::wrapping_add` of `ruint`: the sum modulo 2^512.
    #[verifier::external_body]
    fn wrapping_add(&self, rhs: &U512) -> (r: U512)
        ensures
            r@ == (self@ + rhs@) % pow2(512),
    {
        let sum = Uint::<512, 8>::from_limbs(self.limbs).wrapping_add(
            Uint::<512, 8>::from_limbs(rhs.limbs),
        );
        U512 { limbs: sum.into_limbs() }
    }

    /// `Uint::wrapping_sub` of `ruint`: the difference modulo 2^512.
    #[verifier::external_body]
    fn wrapping_sub(&self, rhs: &U512) -> (r: U512)
        ensures
            r@ == (self@ - rhs@) % (pow2(512) as int),
    {
        let difference = Uint::<512, 8>::from_limbs(self.limbs).wrapping_sub(
            Uint::<512, 8>::from_limbs(rhs.limbs),
        );
        U512 { limbs: difference.into_limbs() }
    }

    /// `Uint::wrapping_mul` of `ruint`: the product modulo 2^512.
    #[verifier::external_body]
    fn wrapping_mul(&self, rhs: &U512) -> (r: U512)
        ensures
            r@ == (self@ * rhs@) % pow2(512),
    {
        let product = Uint::<512, 8>::from_limbs(self.limbs).wrapping_mul(
            Uint::<512, 8>::from_limbs(rhs.limbs),
        );
        U512 { limbs: product.into_limbs() }
    }

    /// `Uint::wrapping_div` of `ruint`: the quotient rounded down. It panics on
    /// a zero divisor.
    #[verifier::external_body]
    pub(crate) fn divided_by(&self, rhs: &U512) -> (r: U512)
        requires
            rhs@ != 0,
        ensures
            r@ == self@ / rhs@,
    {
        let quotient = Uint::<512, 8>::from_limbs(self.limbs).wrapping_div(
            Uint::<512, 8>::from_limbs(rhs.limbs),
        );
        U512 { limbs: quotient.into_limbs() }
    }

    /// The value, where it is known to fit in 128 bits.
    pub(crate) fn into_u128(&self) -> (r: u128)
        requires
            self@ <= u128::MAX,
        ensures
            r == self@,
    {
        match self.to_u128() {
            Some(value) => value,
            None => 0,
        }
    }

    /// The exact sum.
    pub(crate) fn plus(&self, rhs: &U512) -> (r: U512)
        requires
            self@ + rhs@ < pow2(512),
        ensures
            r@ == self@ + rhs@,
    {
        proof {
            lemma_small_mod(self@ + rhs@, pow2(512));
        }
        self.wrapping_add(rhs)
    }

    /// The exact difference.
    pub(crate) fn minus(&self, rhs: &U512) -> (r: U512)
        requires
            rhs@ <= self@,
        ensures
            r@ == self@ - rhs@,
    {
        proof {
            lemma_limbs_value_bound(self.limbs@);
            lemma_small_mod((self@ - rhs@) as nat, pow2(512));
        }
        self.wrapping_sub(rhs)
    }

    /// The exact product.
    pub(crate) fn times(&self, rhs: &U512) -> (r: U512)
        requires
            self@ * rhs@ < pow2(512),
        ensures
            r@ == self@ * rhs@,
    {
        proof {
            lemma_small_mod(self@ * rhs@, pow2(512));
        }
        self.wrapping_mul(rhs)
    }
}

} // verus!
