//! Decoding of unsigned varints from byte slices.

use vstd::arithmetic::div_mod::{lemma_add_mod_noop, lemma_mod_mod};
use vstd::arithmetic::power2::{lemma2_to64, lemma_pow2_adds, lemma_pow2_pos, lemma_pow2_strictly_increases, pow2};
use vstd::prelude::*;

verus! {

/// Why a slice could not be decoded.
#[derive(Debug, Clone, Copy, PartialEq, Eq, Structural)]
pub enum Error {
    /// Not enough input bytes: the slice ends before a final byte.
    Insufficient,
    /// Input bytes exceed maximum: more bytes carry the continuation bit
    /// than a value of the requested width can take.
    Overflow,
}

/// The number of seven-bit groups needed for a value of `width` bits.
pub open spec fn max_bytes(width: nat) -> nat {
    ((width + 6) / 7) as nat
}

/// The value of a sequence of groups, the first byte holding the lowest
/// seven bits. The high bit of each byte is ignored.
pub open spec fn value(s: Seq<u8>) -> nat
    decreases s.len(),
{
    if s.len() == 0 {
        0
    } else {
        (s[0] % 128) as nat + 128 * value(s.drop_first())
    }
}

/// Whether the first `n` bytes of `s` all carry the continuation bit.
pub open spec fn all_continue(s: Seq<u8>, n: int) -> bool {
    forall|i: int| 0 <= i < n ==> #[trigger] s[i] >= 128
}

/// The index of the first byte of `s` without the continuation bit, or the
/// length of `s` where there is none.
pub open spec fn stop_index(s: Seq<u8>) -> nat
    decreases s.len(),
{
    if s.len() == 0 {
        0
    } else if s[0] < 128 {
        0
    } else {
        1 + stop_index(s.drop_first())
    }
}

/// Reading at most `max` bytes from the front of `s`: the value of the
/// groups read and how many bytes they took, or why no value could be read.
pub open spec fn scan(s: Seq<u8>, max: nat) -> Result<(nat, nat), Error> {
    let k = stop_index(s);
    if k < s.len() && k < max {
        Ok((value(s.take(k + 1 as int)), k + 1))
    } else if s.len() >= max {
        Err(Error::Overflow)
    } else {
        Err(Error::Insufficient)
    }
}

/// Decoding a value of `width` bits from the front of `s`: the value, kept
/// to its low `width` bits, and the number of bytes consumed.
pub open spec fn decode_spec(s: Seq<u8>, width: nat) -> Result<(nat, nat), Error> {
    match scan(s, max_bytes(width)) {
        Ok((v, k)) => Ok((v % pow2(width), k)),
        Err(e) => Err(e),
    }
}

/// Locates the first byte without the continuation bit from a prefix known
/// to carry it.
pub proof fn lemma_stop_index(s: Seq<u8>, i: int)
    requires
        0 <= i <= s.len(),
        all_continue(s, i),
    ensures
        stop_index(s) >= i,
        (i == s.len() || s[i] < 128) ==> stop_index(s) == i,
        stop_index(s) <= s.len(),
    decreases i,
{
    if i > 0 {
        let t = s.drop_first();
        assert(all_continue(t, i - 1)) by {
            assert forall|j: int| 0 <= j < i - 1 implies #[trigger] t[j] >= 128 by {
                assert(t[j] == s[j + 1]);
            }
        }
        lemma_stop_index(t, i - 1);
        assert(s[0] >= 128);
    } else {
        lemma_stop_index_bound(s);
    }
}

/// Every byte before the first one without the continuation bit carries it.
pub proof fn lemma_before_stop(s: Seq<u8>)
    ensures
        all_continue(s, stop_index(s) as int),
        stop_index(s) <= s.len(),
        stop_index(s) < s.len() ==> s[stop_index(s) as int] < 128,
    decreases s.len(),
{
    if s.len() > 0 && s[0] >= 128 {
        let t = s.drop_first();
        lemma_before_stop(t);
        assert forall|j: int| 0 <= j < stop_index(s) implies #[trigger] s[j] >= 128 by {
            if j > 0 {
                assert(s[j] == t[j - 1]);
            }
        }
    }
}

proof fn lemma_stop_index_bound(s: Seq<u8>)
    ensures
        stop_index(s) <= s.len(),
    decreases s.len(),
{
    if s.len() > 0 {
        lemma_stop_index_bound(s.drop_first());
    }
}

/// Input whose first `max_bytes(width)` bytes all carry the continuation
/// bit cannot hold a value of `width` bits: decoding it fails with
/// `Overflow`, whatever follows.
pub proof fn lemma_overflow(s: Seq<u8>, width: nat)
    requires
        s.len() >= max_bytes(width),
        all_continue(s, max_bytes(width) as int),
    ensures
        decode_spec(s, width) == Err::<(nat, nat), Error>(Error::Overflow),
{
    lemma_stop_index(s, max_bytes(width) as int);
}

/// Whether `b` is the final byte of an encoded value, that is whether its
/// continuation bit is clear.
pub fn is_last(b: u8) -> (r: bool)
    ensures
        r == (b < 128),
{
    assert((b & 0x80 == 0) == (b < 128)) by (bit_vector);
    b & 0x80 == 0
}

/// Appending a byte adds its seven bits at the next group's place.
proof fn lemma_value_push(s: Seq<u8>, b: u8)
    ensures
        value(s.push(b)) == value(s) + (b % 128) as nat * pow2(7 * s.len()),
    decreases s.len(),
{
    let lo = (b % 128) as nat;
    if s.len() == 0 {
        assert(s.push(b).drop_first() =~= Seq::<u8>::empty());
        assert(value(Seq::<u8>::empty()) == 0);
        assert(value(s) == 0);
        lemma2_to64();
        assert(value(s.push(b)) == lo);
        assert(pow2(7 * s.len()) == 1);
        assert(lo * pow2(7 * s.len()) == lo);
    } else {
        let t = s.drop_first();
        assert(s.push(b).drop_first() =~= t.push(b));
        assert(s.push(b)[0] == s[0]);
        lemma_value_push(t, b);
        let p = pow2(7 * t.len());
        lemma_pow2_adds(7, 7 * t.len());
        lemma2_to64();
        assert(7 * s.len() == 7 + 7 * t.len());
        assert(pow2(7 * s.len()) == 128 * p);
        let head = (s[0] % 128) as nat;
        assert(value(s) == head + 128 * value(t));
        assert(value(s.push(b)) == head + 128 * (value(t) + lo * p));
        assert(128 * (value(t) + lo * p) == 128 * value(t) + lo * (128 * p)) by (nonlinear_arith);
        assert(value(s.push(b)) == value(s) + lo * (128 * p));
        assert(lo * (128 * p) == lo * pow2(7 * s.len()));
    }
}

/// The number `2^128` that bounds a `u128`.
pub proof fn lemma_pow2_128()
    ensures
        pow2(128) == 0x1_0000_0000_0000_0000_0000_0000_0000_0000,
{
    lemma2_to64();
    lemma_pow2_adds(64, 64);
}

/// Keeping the low 128 bits, then the low `w` bits, keeps the low `w` bits.
proof fn lemma_narrow(v: nat, w: nat)
    requires
        w <= 128,
    ensures
        (v % pow2(128)) % pow2(w) == v % pow2(w),
{
    lemma_pow2_pos(w);
    lemma_pow2_pos((128 - w) as nat);
    lemma_pow2_adds(w, (128 - w) as nat);
    lemma_mod_mod(v as int, pow2(w) as int, pow2((128 - w) as nat) as int);
}

/// Reads a varint of at most `max` bytes from the front of `buf`, keeping
/// the low 128 bits of its value; returns the value and the number of bytes
/// consumed.
fn decode_prefix(buf: &[u8], max: usize) -> (r: Result<(u128, usize), Error>)
    requires
        1 <= max <= 19,
    ensures
        match scan(buf@, max as nat) {
            Ok((v, k)) => r == Ok::<(u128, usize), Error>(((v % pow2(128)) as u128, k as usize)),
            Err(e) => r == Err::<(u128, usize), Error>(e),
        },
{
    proof {
        lemma_pow2_128();
        lemma2_to64();
    }
    let mut n: u128 = 0;
    let mut scale: u128 = 1;
    let mut i: usize = 0;
    while i < buf.len()
        invariant
            i <= buf.len(),
            i < max <= 19,
            all_continue(buf@, i as int),
            n as nat == value(buf@.take(i as int)) % pow2(128),
            scale as nat == pow2(7 * i as nat),
            pow2(128) == 0x1_0000_0000_0000_0000_0000_0000_0000_0000,
        decreases buf.len() - i,
    {
        let b = buf[i];
        assert((b & 0x7f) == b % 128) by (bit_vector);
        let low = (b & 0x7f) as u128;
        let ghost prev = buf@.take(i as int);
        assert(buf@.take(i + 1) =~= prev.push(b));
        proof {
            lemma_value_push(prev, b);
            lemma_add_mod_noop(value(prev) as int, (low * scale) as int, pow2(128) as int);
        }
        n = n.wrapping_add(low.wrapping_mul(scale));
        if is_last(b) {
            proof {
                lemma_stop_index(buf@, i as int);
            }
            return Ok((n, i + 1));
        }
        if i + 1 == max {
            proof {
                lemma_stop_index(buf@, i + 1);
            }
            return Err(Error::Overflow);
        }
        proof {
            lemma2_to64();
            lemma_pow2_adds(7 * i as nat, 7);
            lemma_pow2_adds(7 * (i + 1) as nat, (128 - 7 * (i + 1)) as nat);
            lemma_pow2_pos((128 - 7 * (i + 1)) as nat);
            assert(7 * (i + 1) as nat == 7 * i as nat + 7);
            assert(scale * 128 == pow2(7 * (i + 1) as nat));
            lemma_pow2_strictly_increases(7 * (i + 1) as nat, 128);
        }
        scale = scale * 128;
        i += 1;
    }
    proof {
        lemma_stop_index(buf@, i as int);
    }
    Err(Error::Insufficient)
}

/// Decode the given slice as `u8`.
///
/// Returns the value and the remaining slice.
pub fn u8(buf: &[u8]) -> (r: Result<(u8, &[u8]), Error>)
    ensures
        match decode_spec(buf@, 8) {
            Ok((v, k)) => r is Ok && r->Ok_0.0 as nat == v && r->Ok_0.1@ == buf@.skip(k as int),
            Err(e) => r is Err && r->Err_0 == e,
        },
{
    match decode_prefix(buf, 2) {
        Ok((n, k)) => {
            proof {
                assert(max_bytes(8) == 2);
                lemma_narrow(scan(buf@, 2)->Ok_0.0, 8);
                lemma2_to64();
                lemma_pow2_128();
            }
            Ok(((n % 0x100) as u8, &buf[k..buf.len()]))
        }
        Err(e) => Err(e),
    }
}

/// Decode the given slice as `u16`.
///
/// Returns the value and the remaining slice.
pub fn u16(buf: &[u8]) -> (r: Result<(u16, &[u8]), Error>)
    ensures
        match decode_spec(buf@, 16) {
            Ok((v, k)) => r is Ok && r->Ok_0.0 as nat == v && r->Ok_0.1@ == buf@.skip(k as int),
            Err(e) => r is Err && r->Err_0 == e,
        },
{
    match decode_prefix(buf, 3) {
        Ok((n, k)) => {
            proof {
                assert(max_bytes(16) == 3);
                lemma_narrow(scan(buf@, 3)->Ok_0.0, 16);
                lemma2_to64();
                lemma_pow2_128();
            }
            Ok(((n % 0x1_0000) as u16, &buf[k..buf.len()]))
        }
        Err(e) => Err(e),
    }
}

/// Decode the given slice as `u32`.
///
/// Returns the value and the remaining slice.
pub fn u32(buf: &[u8]) -> (r: Result<(u32, &[u8]), Error>)
    ensures
        match decode_spec(buf@, 32) {
            Ok((v, k)) => r is Ok && r->Ok_0.0 as nat == v && r->Ok_0.1@ == buf@.skip(k as int),
            Err(e) => r is Err && r->Err_0 == e,
        },
{
    match decode_prefix(buf, 5) {
        Ok((n, k)) => {
            proof {
                assert(max_bytes(32) == 5);
                lemma_narrow(scan(buf@, 5)->Ok_0.0, 32);
                lemma2_to64();
                lemma_pow2_128();
            }
            Ok(((n % 0x1_0000_0000) as u32, &buf[k..buf.len()]))
        }
        Err(e) => Err(e),
    }
}

/// Decode the given slice as `u64`.
///
/// Returns the value and the remaining slice.
pub fn u64(buf: &[u8]) -> (r: Result<(u64, &[u8]), Error>)
    ensures
        match decode_spec(buf@, 64) {
            Ok((v, k)) => r is Ok && r->Ok_0.0 as nat == v && r->Ok_0.1@ == buf@.skip(k as int),
            Err(e) => r is Err && r->Err_0 == e,
        },
{
    match decode_prefix(buf, 10) {
        Ok((n, k)) => {
            proof {
                assert(max_bytes(64) == 10);
                lemma_narrow(scan(buf@, 10)->Ok_0.0, 64);
                lemma2_to64();
                lemma_pow2_128();
            }
            Ok(((n % 0x1_0000_0000_0000_0000) as u64, &buf[k..buf.len()]))
        }
        Err(e) => Err(e),
    }
}

/// Decode the given slice as `u128`.
///
/// Returns the value and the remaining slice.
pub fn u128(buf: &[u8]) -> (r: Result<(u128, &[u8]), Error>)
    ensures
        match decode_spec(buf@, 128) {
            Ok((v, k)) => r is Ok && r->Ok_0.0 as nat == v && r->Ok_0.1@ == buf@.skip(k as int),
            Err(e) => r is Err && r->Err_0 == e,
        },
{
    match decode_prefix(buf, 19) {
        Ok((n, k)) => {
            proof {
                lemma_pow2_128();
                assert(max_bytes(128) == 19);
            }
            let rest = &buf[k..buf.len()];
            assert(rest@ == buf@.skip(k as int));
            Ok((n, rest))
        }
        Err(e) => Err(e),
    }
}

/// Decode the given slice as `usize`, a value of the platform's pointer
/// width.
///
/// Returns the value and the remaining slice.
pub fn usize(buf: &[u8]) -> (r: Result<(usize, &[u8]), Error>)
    ensures
        match decode_spec(buf@, usize::BITS as nat) {
            Ok((v, k)) => r is Ok && r->Ok_0.0 as nat == v && r->Ok_0.1@ == buf@.skip(k as int),
            Err(e) => r is Err && r->Err_0 == e,
        },
{
    if usize::BITS == 64 {
        match u64(buf) {
            Ok((n, rest)) => Ok((n as usize, rest)),
            Err(e) => Err(e),
        }
    } else {
        match u32(buf) {
            Ok((n, rest)) => Ok((n as usize, rest)),
            Err(e) => Err(e),
        }
    }
}

} // verus!
