//! Encoding of unsigned varints into caller-supplied byte arrays.

use crate::decode::{
    all_continue, decode_spec, lemma_pow2_128, lemma_stop_index, max_bytes, scan, value,
};
use vstd::arithmetic::power2::{lemma2_to64, lemma_pow2_adds, lemma_pow2_strictly_increases, pow2};
use vstd::prelude::*;

verus! {

/// The encoding of `v`: its seven-bit groups from the lowest up, each byte
/// but the last with its high bit set. Zero is the single byte `0x00`.
pub open spec fn encoded(v: nat) -> Seq<u8>
    decreases v,
{
    if v < 128 {
        seq![v as u8]
    } else {
        seq![(v % 128 + 128) as u8] + encoded(v / 128)
    }
}

/// An encoding is never empty.
pub proof fn lemma_encoded_nonempty(v: nat)
    ensures
        encoded(v).len() >= 1,
{
}

/// A value below `2^(7k)` takes at most `k` bytes.
pub proof fn lemma_encoded_len_below(v: nat, k: nat)
    requires
        k >= 1,
        v < pow2(7 * k),
    ensures
        encoded(v).len() <= k,
    decreases k,
{
    if v >= 128 {
        lemma2_to64();
        if k == 1 {
            assert(false);
        }
        let j = (k - 1) as nat;
        lemma_pow2_adds(7, 7 * j);
        assert(7 * k == 7 + 7 * j);
        let p = pow2(7 * j);
        assert(v / 128 < p) by (nonlinear_arith)
            requires
                v < 128 * p,
        ;
        lemma_encoded_len_below(v / 128, j);
    }
}

/// A value of `w` bits takes at most `max_bytes(w)` bytes.
pub proof fn lemma_encoded_fits(v: nat, w: nat)
    requires
        w >= 1,
        v < pow2(w),
    ensures
        encoded(v).len() <= max_bytes(w),
{
    let k = max_bytes(w);
    assert(w <= 7 * k);
    if w < 7 * k {
        lemma_pow2_strictly_increases(w, 7 * k);
    }
    lemma_encoded_len_below(v, k);
}

/// A value of at least `2^(7k)` takes more than `k` bytes.
pub proof fn lemma_encoded_len_above(v: nat, k: nat)
    requires
        v >= pow2(7 * k),
    ensures
        encoded(v).len() > k,
    decreases k,
{
    if k > 0 {
        let j = (k - 1) as nat;
        lemma2_to64();
        lemma_pow2_adds(7, 7 * j);
        assert(7 * k == 7 + 7 * j);
        let p = pow2(7 * j);
        assert(v / 128 >= p) by (nonlinear_arith)
            requires
                v >= 128 * p,
        ;
        lemma_encoded_len_above(v / 128, j);
    }
}

/// Every byte of an encoding but the last carries the continuation bit,
/// the last does not, and the groups add up to the value encoded.
pub proof fn lemma_encoded_shape(v: nat)
    ensures
        all_continue(encoded(v), encoded(v).len() - 1),
        encoded(v)[encoded(v).len() - 1] < 128,
        value(encoded(v)) == v,
    decreases v,
{
    let e = encoded(v);
    if v < 128 {
        assert(e.drop_first() =~= Seq::<u8>::empty());
        assert(value(Seq::<u8>::empty()) == 0);
    } else {
        let t = encoded(v / 128);
        lemma_encoded_shape(v / 128);
        lemma_encoded_nonempty(v / 128);
        assert(e.drop_first() =~= t);
        assert forall|j: int| 0 <= j < e.len() - 1 implies #[trigger] e[j] >= 128 by {
            if j > 0 {
                assert(e[j] == t[j - 1]);
            }
        }
        assert(e[e.len() - 1] == t[t.len() - 1]);
    }
}

/// Zero encodes to the single byte `0x00`, and the largest value of `width`
/// bits takes `max_bytes(width)` bytes, the most that any value of that
/// width takes.
pub proof fn lemma_encoded_extremes(width: nat)
    requires
        width >= 1,
    ensures
        encoded(0) == seq![0u8],
        encoded((pow2(width) - 1) as nat).len() == max_bytes(width),
        forall|v: nat| v < pow2(width) ==> #[trigger] encoded(v).len() <= max_bytes(width),
{
    let m = max_bytes(width);
    let top = (pow2(width) - 1) as nat;
    vstd::arithmetic::power2::lemma_pow2_pos(width);
    lemma_encoded_fits(top, width);
    assert(7 * (m - 1) < width);
    lemma_pow2_strictly_increases((7 * (m - 1)) as nat, width);
    lemma_encoded_len_above(top, (m - 1) as nat);
    assert forall|v: nat| v < pow2(width) implies #[trigger] encoded(v).len() <= max_bytes(width) by {
        lemma_encoded_fits(v, width);
    }
}

/// Decoding an encoded value of `width` bits gives the value back and
/// consumes exactly its encoding, whatever bytes follow it: those are left
/// as they were. With no bytes following, nothing remains.
pub proof fn lemma_decode_encoded(v: nat, width: nat, suffix: Seq<u8>)
    requires
        width >= 1,
        v < pow2(width),
    ensures
        decode_spec(encoded(v) + suffix, width) == Ok::<(nat, nat), crate::decode::Error>(
            (v, encoded(v).len()),
        ),
        (encoded(v) + suffix).skip(encoded(v).len() as int) == suffix,
        decode_spec(encoded(v), width) == Ok::<(nat, nat), crate::decode::Error>(
            (v, encoded(v).len()),
        ),
{
    lemma_decode_encoded_followed(v, width, suffix);
    lemma_decode_encoded_followed(v, width, Seq::<u8>::empty());
    assert(encoded(v) + Seq::<u8>::empty() =~= encoded(v));
    assert((encoded(v) + suffix).skip(encoded(v).len() as int) =~= suffix);
}

proof fn lemma_decode_encoded_followed(v: nat, width: nat, suffix: Seq<u8>)
    requires
        width >= 1,
        v < pow2(width),
    ensures
        decode_spec(encoded(v) + suffix, width) == Ok::<(nat, nat), crate::decode::Error>(
            (v, encoded(v).len()),
        ),
{
    let e = encoded(v);
    let s = e + suffix;
    let n = e.len();
    lemma_encoded_nonempty(v);
    lemma_encoded_shape(v);
    lemma_encoded_fits(v, width);
    assert(all_continue(s, n - 1)) by {
        assert forall|j: int| 0 <= j < n - 1 implies #[trigger] s[j] >= 128 by {
            assert(s[j] == e[j]);
        }
    }
    assert(s[n - 1] == e[n - 1]);
    lemma_stop_index(s, n - 1);
    assert(s.take(n as int) =~= e);
    assert(scan(s, max_bytes(width)) == Ok::<(nat, nat), crate::decode::Error>((v, n)));
    vstd::arithmetic::div_mod::lemma_small_mod(v, pow2(width));
}

/// Writes the encoding of `number` to the front of `buf` and returns its
/// length; the rest of `buf` is left as it was.
fn encode_into(number: u128, buf: &mut [u8]) -> (len: usize)
    requires
        encoded(number as nat).len() <= old(buf)@.len(),
    ensures
        len == encoded(number as nat).len(),
        final(buf)@ == encoded(number as nat) + old(buf)@.skip(len as int),
{
    let mut n: u128 = number;
    let mut i: usize = 0;
    loop
        invariant
            buf@.len() == old(buf)@.len(),
            encoded(number as nat) == buf@.take(i as int) + encoded(n as nat),
            buf@.skip(i as int) == old(buf)@.skip(i as int),
            i + encoded(n as nat).len() <= buf@.len(),
        decreases n,
    {
        let low = (n % 128) as u8;
        let rest = n / 128;
        proof {
            lemma_encoded_nonempty(rest as nat);
        }
        if rest == 0 {
            let ghost before = buf@;
            buf[i] = low;
            assert(buf@.take(i + 1) =~= before.take(i as int).push(low));
            assert(encoded(n as nat) =~= seq![low]);
            assert(buf@.skip(i + 1) =~= old(buf)@.skip(i + 1)) by {
                assert(before.skip(i as int)[0] == old(buf)@.skip(i as int)[0]);
                assert forall|j: int| 0 <= j < buf@.len() - (i + 1) implies #[trigger] buf@.skip(i + 1)[j]
                    == old(buf)@.skip(i + 1)[j] by {
                    assert(before.skip(i as int)[j + 1] == old(buf)@.skip(i as int)[j + 1]);
                }
            }
            assert(encoded(number as nat) =~= buf@.take(i + 1));
            assert(buf@ =~= buf@.take(i + 1) + buf@.skip(i + 1));
            return i + 1;
        }
        let ghost before = buf@;
        assert((low | 0x80) == low + 128) by (bit_vector)
            requires
                low < 128,
        ;
        buf[i] = low | 0x80;
        assert(buf@.take(i + 1) =~= before.take(i as int).push(low | 0x80));
        assert(encoded(n as nat) =~= seq![low | 0x80] + encoded(rest as nat));
        assert(buf@.skip(i + 1) =~= old(buf)@.skip(i + 1)) by {
            assert forall|j: int| 0 <= j < buf@.len() - (i + 1) implies #[trigger] buf@.skip(i + 1)[j]
                == old(buf)@.skip(i + 1)[j] by {
                assert(before.skip(i as int)[j + 1] == old(buf)@.skip(i as int)[j + 1]);
            }
        }
        assert(encoded(number as nat) =~= buf@.take(i + 1) + encoded(rest as nat));
        n = rest;
        i += 1;
    }
}

/// Encode the given `u8` into the given byte array.
///
/// Returns the slice of encoded bytes.
pub fn u8(number: u8, buf: &mut [u8; 2]) -> (r: &[u8])
    ensures
        r@ == encoded(number as nat),
        final(buf)@ == r@ + old(buf)@.skip(r@.len() as int),
{
    proof {
        lemma2_to64();
        lemma_encoded_fits(number as nat, 8);
    }
    let len = encode_into(number as u128, buf);
    &buf[0..len]
}

/// Encode the given `u16` into the given byte array.
///
/// Returns the slice of encoded bytes.
pub fn u16(number: u16, buf: &mut [u8; 3]) -> (r: &[u8])
    ensures
        r@ == encoded(number as nat),
        final(buf)@ == r@ + old(buf)@.skip(r@.len() as int),
{
    proof {
        lemma2_to64();
        lemma_encoded_fits(number as nat, 16);
    }
    let len = encode_into(number as u128, buf);
    &buf[0..len]
}

/// Encode the given `u32` into the given byte array.
///
/// Returns the slice of encoded bytes.
pub fn u32(number: u32, buf: &mut [u8; 5]) -> (r: &[u8])
    ensures
        r@ == encoded(number as nat),
        final(buf)@ == r@ + old(buf)@.skip(r@.len() as int),
{
    proof {
        lemma2_to64();
        lemma_encoded_fits(number as nat, 32);
    }
    let len = encode_into(number as u128, buf);
    &buf[0..len]
}

/// Encode the given `u64` into the given byte array.
///
/// Returns the slice of encoded bytes.
pub fn u64(number: u64, buf: &mut [u8; 10]) -> (r: &[u8])
    ensures
        r@ == encoded(number as nat),
        final(buf)@ == r@ + old(buf)@.skip(r@.len() as int),
{
    proof {
        lemma2_to64();
        lemma_encoded_fits(number as nat, 64);
    }
    let len = encode_into(number as u128, buf);
    &buf[0..len]
}

/// Encode the given `u128` into the given byte array.
///
/// Returns the slice of encoded bytes.
pub fn u128(number: u128, buf: &mut [u8; 19]) -> (r: &[u8])
    ensures
        r@ == encoded(number as nat),
        final(buf)@ == r@ + old(buf)@.skip(r@.len() as int),
{
    proof {
        lemma_pow2_128();
        lemma_encoded_fits(number as nat, 128);
    }
    let len = encode_into(number as u128, buf);
    &buf[0..len]
}

/// Encode the given `usize` into the given byte array.
///
/// Returns the slice of encoded bytes.
pub fn usize(number: usize, buf: &mut [u8; 10]) -> (r: &[u8])
    ensures
        r@ == encoded(number as nat),
        final(buf)@ == r@ + old(buf)@.skip(r@.len() as int),
{
    u64(number as u64, buf)
}

/// Create new array buffer for encoding of `u8` values.
pub fn u8_buffer() -> (r: [u8; 2])
    ensures
        forall|i: int| 0 <= i < 2 ==> r@[i] == 0,
{
    [0; 2]
}

/// Create new array buffer for encoding of `u16` values.
pub fn u16_buffer() -> (r: [u8; 3])
    ensures
        forall|i: int| 0 <= i < 3 ==> r@[i] == 0,
{
    [0; 3]
}

/// Create new array buffer for encoding of `u32` values.
pub fn u32_buffer() -> (r: [u8; 5])
    ensures
        forall|i: int| 0 <= i < 5 ==> r@[i] == 0,
{
    [0; 5]
}

/// Create new array buffer for encoding of `u64` values.
pub fn u64_buffer() -> (r: [u8; 10])
    ensures
        forall|i: int| 0 <= i < 10 ==> r@[i] == 0,
{
    [0; 10]
}

/// Create new array buffer for encoding of `u128` values.
pub fn u128_buffer() -> (r: [u8; 19])
    ensures
        forall|i: int| 0 <= i < 19 ==> r@[i] == 0,
{
    [0; 19]
}

/// Create new array buffer for encoding of `usize` values.
pub fn usize_buffer() -> (r: [u8; 10])
    ensures
        forall|i: int| 0 <= i < 10 ==> r@[i] == 0,
{
    [0; 10]
}

} // verus!
