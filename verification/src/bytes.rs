//! Little-endian encoding of 128-bit integers.

use vstd::arithmetic::power::{lemma_pow_increases, pow};
use vstd::prelude::*;

verus! {

/// The number that a little-endian byte sequence stands for.
pub open spec fn le_value(bytes: Seq<u8>) -> nat
    decreases bytes.len(),
{
    if bytes.len() == 0 {
        0
    } else {
        bytes[0] as nat + 256 * le_value(bytes.drop_first())
    }
}

/// The `count` least significant bytes of `x`, least significant first.
pub open spec fn le_bytes(x: nat, count: nat) -> Seq<u8>
    decreases count,
{
    if count == 0 {
        Seq::empty()
    } else {
        seq![(x % 256) as u8] + le_bytes(x / 256, (count - 1) as nat)
    }
}

/// The sixteen bytes of a 128-bit integer.
pub open spec fn u128_bytes(x: u128) -> Seq<u8> {
    le_bytes(x as nat, 16)
}

/// An encoding has as many bytes as were asked for.
pub proof fn lemma_le_bytes_len(x: nat, count: nat)
    ensures
        le_bytes(x, count).len() == count,
    decreases count,
{
    if count > 0 {
        lemma_le_bytes_len(x / 256, (count - 1) as nat);
    }
}

/// Decoding gives back what was encoded, as far as it fits.
proof fn lemma_le_value_of_bytes(x: nat, count: nat, bound: nat)
    requires
        bound == pow(256, count),
        x < bound,
    ensures
        le_value(le_bytes(x, count)) == x,
    decreases count,
{
    reveal(pow);
    if count > 0 {
        let tail = le_bytes(x / 256, (count - 1) as nat);
        let rest_bound = pow(256, (count - 1) as nat);
        assert(x / 256 < rest_bound);
        lemma_le_value_of_bytes(x / 256, (count - 1) as nat, rest_bound as nat);
        assert(le_bytes(x, count).drop_first() =~= tail);
    }
}

/// Encoding gives back the bytes that were decoded.
proof fn lemma_le_bytes_of_value(bytes: Seq<u8>)
    ensures
        le_bytes(le_value(bytes), bytes.len()) == bytes,
    decreases bytes.len(),
{
    if bytes.len() == 0 {
        assert(bytes =~= Seq::empty());
    } else {
        lemma_le_bytes_of_value(bytes.drop_first());
        assert(bytes =~= seq![bytes[0]] + bytes.drop_first());
    }
}

/// A sequence of bytes stands for a number below 256 to its length.
proof fn lemma_le_value_bound(bytes: Seq<u8>)
    ensures
        le_value(bytes) < pow(256, bytes.len()),
    decreases bytes.len(),
{
    reveal(pow);
    if bytes.len() > 0 {
        lemma_le_value_bound(bytes.drop_first());
    }
}

/// Sixteen bytes make 128 bits.
proof fn lemma_pow_256_16()
    ensures
        pow(256, 16) == u128::MAX + 1,
{
    reveal(pow);
    reveal_with_fuel(pow, 17);
}

/// Encoding and decoding a 128-bit integer are inverse to each other.
pub proof fn law_u128_bytes_round_trip(x: u128, bytes: Seq<u8>)
    requires
        bytes.len() == 16,
    ensures
        le_value(u128_bytes(x)) == x,
        u128_bytes(x).len() == 16,
        le_value(bytes) <= u128::MAX,
        u128_bytes(le_value(bytes) as u128) == bytes,
{
    lemma_pow_256_16();
    lemma_le_value_of_bytes(x as nat, 16, (u128::MAX + 1) as nat);
    lemma_le_bytes_len(x as nat, 16);
    lemma_le_value_bound(bytes);
    lemma_le_bytes_of_value(bytes);
}

/// Reads the sixteen bytes from `at` on as a little-endian integer.
pub fn read_u128(data: &Vec<u8>, at: usize) -> (r: u128)
    requires
        at + 16 <= data.len(),
    ensures
        r == le_value(data@.subrange(at as int, at + 16)),
{
    let mut value: u128 = 0;
    let mut i: usize = 16;
    proof {
        assert(data@.subrange(at + 16, at + 16) =~= Seq::empty());
    }
    while i > 0
        invariant
            i <= 16,
            at + 16 <= data.len(),
            value == le_value(data@.subrange(at + i, at + 16)),
        decreases i,
    {
        proof {
            let tail = data@.subrange(at + i, at + 16);
            let longer = data@.subrange(at + i - 1, at + 16);
            assert(longer.drop_first() =~= tail);
            lemma_value_fits(longer);
        }
        i = i - 1;
        value = value * 256 + data[at + i] as u128;
    }
    value
}

/// At most sixteen bytes stand for a 128-bit value.
proof fn lemma_value_fits(bytes: Seq<u8>)
    requires
        bytes.len() <= 16,
    ensures
        le_value(bytes) <= u128::MAX,
{
    lemma_le_value_bound(bytes);
    lemma_pow_256_16();
    lemma_pow_increases(256, bytes.len(), 16);
}

/// Appends the sixteen little-endian bytes of `x` to `out`.
pub fn push_u128(out: &mut Vec<u8>, x: u128)
    ensures
        final(out)@ == old(out)@ + u128_bytes(x),
{
    let mut rest: u128 = x;
    let mut i: usize = 0;
    proof {
        assert(out@ + le_bytes(rest as nat, 16) =~= old(out)@ + u128_bytes(x));
    }
    while i < 16
        invariant
            i <= 16,
            out@ + le_bytes(rest as nat, (16 - i) as nat) == old(out)@ + u128_bytes(x),
        decreases 16 - i,
    {
        let ghost before = out@;
        out.push((rest % 256) as u8);
        proof {
            let n = (16 - i) as nat;
            assert(le_bytes(rest as nat, n) == seq![(rest as nat % 256) as u8] + le_bytes(
                rest as nat / 256,
                (n - 1) as nat,
            ));
            assert(out@ + le_bytes(rest as nat / 256, (n - 1) as nat) =~= before + le_bytes(
                rest as nat,
                n,
            ));
        }
        rest = rest / 256;
        i = i + 1;
    }
    proof {
        assert(out@ + le_bytes(rest as nat, 0) =~= out@);
    }
}

} // verus!
