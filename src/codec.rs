//! Length-prefixed framing of byte payloads over a growing buffer, and the
//! decisions of reading a varint one byte at a time from a stream.
//!
//! A frame is the varint encoding of the payload's length (a `usize`)
//! followed by the payload bytes.

use crate::decode::{
    self, all_continue, decode_spec, lemma_before_stop, lemma_stop_index, max_bytes, scan,
    stop_index, Error,
};
use crate::encode::{self, encoded, lemma_decode_encoded, lemma_encoded_fits, lemma_encoded_shape};
use vstd::arithmetic::power2::pow2;
use vstd::prelude::*;

verus! {

/// Why a frame could not be encoded or decoded.
#[derive(Debug, Clone, Copy, PartialEq, Eq, Structural)]
pub enum FrameError {
    /// The payload is longer than the configured maximum.
    TooLarge,
    /// The length prefix has more bytes than a `usize` can take.
    Overflow,
}

/// The bytes of the frame that carries `payload`.
pub open spec fn frame(payload: Seq<u8>) -> Seq<u8> {
    encoded(payload.len()) + payload
}

/// What a decoder knows of a frame's payload after its length: whether it
/// is longer than `max`, not yet complete in `s`, or there.
/// Gives the pending length, the buffer, and the result, in that order.
pub open spec fn payload_step(n: nat, max: nat, s: Seq<u8>) -> (
    Option<nat>,
    Seq<u8>,
    Result<Option<Seq<u8>>, FrameError>,
) {
    if n > max {
        (None, s, Err(FrameError::TooLarge))
    } else if s.len() < n {
        (Some(n), s, Ok(None))
    } else {
        (None, s.skip(n as int), Ok(Some(s.take(n as int))))
    }
}

/// One decoding step on buffer contents `s`, with `pending` the length of a
/// frame whose prefix was already consumed. Gives the new pending length,
/// the buffer after the step, and the result.
pub open spec fn frame_step(pending: Option<nat>, max: nat, s: Seq<u8>) -> (
    Option<nat>,
    Seq<u8>,
    Result<Option<Seq<u8>>, FrameError>,
) {
    match pending {
        Some(n) => payload_step(n, max, s),
        None => match decode_spec(s, usize::BITS as nat) {
            Ok((n, k)) => payload_step(n, max, s.skip(k as int)),
            Err(Error::Overflow) => (None, s, Err(FrameError::Overflow)),
            Err(Error::Insufficient) => (None, s, Ok(None)),
        },
    }
}

/// The result of a decoding step with its payload seen as a sequence.
pub open spec fn result_view(r: Result<Option<Vec<u8>>, FrameError>) -> Result<
    Option<Seq<u8>>,
    FrameError,
> {
    match r {
        Ok(Some(p)) => Ok(Some(p@)),
        Ok(None) => Ok(None),
        Err(e) => Err(e),
    }
}

/// Encoder and incremental decoder of length-prefixed frames.
pub struct FrameCodec {
    len: Option<usize>,
    max: usize,
}

impl FrameCodec {
    /// The length of the frame whose prefix was consumed and whose payload
    /// has not fully arrived, if any.
    pub closed spec fn pending(&self) -> Option<nat> {
        match self.len {
            Some(n) => Some(n as nat),
            None => None,
        }
    }

    /// The largest payload length accepted.
    pub closed spec fn max_len_spec(&self) -> nat {
        self.max as nat
    }

    /// A codec with nothing pending and no bound on the payload length but
    /// that of `usize`.
    pub fn new() -> (r: Self)
        ensures
            r.pending() == None::<nat>,
            r.max_len_spec() == usize::MAX,
    {
        FrameCodec { len: None, max: usize::MAX }
    }

    /// The largest payload length accepted.
    pub fn max_len(&self) -> (r: usize)
        ensures
            r == self.max_len_spec(),
    {
        self.max
    }

    /// Sets the largest payload length accepted.
    pub fn set_max_len(&mut self, val: usize)
        ensures
            final(self).max_len_spec() == val,
            final(self).pending() == old(self).pending(),
    {
        self.max = val;
    }

    /// Appends the frame of `payload` to `out`; fails with `TooLarge`,
    /// writing nothing, where the payload is longer than the maximum.
    pub fn encode(&self, payload: &[u8], out: &mut Vec<u8>) -> (r: Result<(), FrameError>)
        ensures
            payload@.len() > self.max_len_spec() ==> r == Err::<(), FrameError>(
                FrameError::TooLarge,
            ) && final(out)@ == old(out)@,
            payload@.len() <= self.max_len_spec() ==> r == Ok::<(), FrameError>(())
                && final(out)@ == old(out)@ + frame(payload@),
    {
        if payload.len() > self.max {
            return Err(FrameError::TooLarge);
        }
        let mut b = encode::usize_buffer();
        let prefix = encode::usize(payload.len(), &mut b);
        out.extend_from_slice(prefix);
        out.extend_from_slice(payload);
        assert(out@ =~= old(out)@ + frame(payload@));
        Ok(())
    }

    /// Takes the next complete frame's payload from the front of `buf`.
    /// Returns `Ok(None)` while the frame is incomplete, keeping what it
    /// learnt of its length; call again once more bytes have been appended.
    pub fn decode(&mut self, buf: &mut Vec<u8>) -> (r: Result<Option<Vec<u8>>, FrameError>)
        ensures
            (final(self).pending(), final(buf)@, result_view(r)) == frame_step(
                old(self).pending(),
                old(self).max_len_spec(),
                old(buf)@,
            ),
            final(self).max_len_spec() == old(self).max_len_spec(),
    {
        if self.len.is_none() {
            match decode::usize(buf.as_slice()) {
                Ok((n, rest)) => {
                    let k = buf.len() - rest.len();
                    let tail = buf.split_off(k);
                    *buf = tail;
                    self.len = Some(n);
                },
                Err(Error::Insufficient) => {
                    return Ok(None);
                },
                Err(Error::Overflow) => {
                    return Err(FrameError::Overflow);
                },
            }
        }
        match self.len {
            Some(n) => {
                if n > self.max {
                    self.len = None;
                    return Err(FrameError::TooLarge);
                }
                if buf.len() < n {
                    buf.reserve(n - buf.len());
                    return Ok(None);
                }
                let mut payload = buf.split_off(n);
                core::mem::swap(buf, &mut payload);
                self.len = None;
                Ok(Some(payload))
            },
            None => Ok(None),
        }
    }
}

/// A length that fits a `usize` is below `2^usize::BITS`.
proof fn lemma_usize_bound(n: nat)
    requires
        n <= usize::MAX,
    ensures
        n < pow2(usize::BITS as nat),
        usize::BITS >= 1,
{
    vstd::layout::unsigned_int_max_values();
}

/// A frame decodes to its payload however its bytes arrive: fed a prefix of
/// the frame, the decoder yields nothing yet, and fed the rest (and what
/// follows the frame) it yields the payload and leaves what follows. Fed at
/// once, the frame yields its payload directly.
pub proof fn lemma_frame_round_trip(p: Seq<u8>, max: nat, j: nat, rest: Seq<u8>)
    requires
        p.len() <= max,
        p.len() <= usize::MAX,
        j < frame(p).len(),
    ensures
        frame_step(None, max, frame(p) + rest) == (
            None::<nat>,
            rest,
            Ok::<Option<Seq<u8>>, FrameError>(Some(p)),
        ),
        ({
            let (pending, kept, r) = frame_step(None, max, frame(p).take(j as int));
            &&& r == Ok::<Option<Seq<u8>>, FrameError>(None)
            &&& frame_step(pending, max, kept + frame(p).skip(j as int) + rest) == (
                None::<nat>,
                rest,
                Ok::<Option<Seq<u8>>, FrameError>(Some(p)),
            )
        }),
{
    let w = usize::BITS as nat;
    let e = encoded(p.len());
    let f = frame(p);
    let n = e.len();
    lemma_usize_bound(p.len());
    lemma_decode_encoded(p.len(), w, p + rest);
    assert(f + rest =~= e + (p + rest));
    assert((p + rest).skip(p.len() as int) =~= rest);
    assert((p + rest).take(p.len() as int) =~= p);
    if j < n {
        let s = f.take(j as int);
        lemma_encoded_shape(p.len());
        lemma_encoded_fits(p.len(), w);
        assert(all_continue(s, j as int)) by {
            assert forall|i: int| 0 <= i < j implies #[trigger] s[i] >= 128 by {
                assert(s[i] == e[i]);
            }
        }
        lemma_stop_index(s, j as int);
        assert(s + f.skip(j as int) + rest =~= f + rest);
    } else {
        let q = p.take(j - n);
        lemma_decode_encoded(p.len(), w, q);
        assert(f.take(j as int) =~= e + q);
        assert((e + q).skip(n as int) =~= q);
        assert(q + f.skip(j as int) + rest =~= p + rest);
    }
}

/// A frame that declares a length above `max` is refused with `TooLarge`,
/// and so is any further step while such a length is pending: no payload
/// comes out of it.
pub proof fn lemma_bound_enforced(n: nat, max: nat, rest: Seq<u8>)
    requires
        n > max,
        n <= usize::MAX,
    ensures
        frame_step(None, max, encoded(n) + rest) == (
            None::<nat>,
            rest,
            Err::<Option<Seq<u8>>, FrameError>(FrameError::TooLarge),
        ),
        forall|s: Seq<u8>|
            #[trigger] frame_step(Some(n), max, s) == (
                None::<nat>,
                s,
                Err::<Option<Seq<u8>>, FrameError>(FrameError::TooLarge),
            ),
{
    lemma_usize_bound(n);
    lemma_decode_encoded(n, usize::BITS as nat, rest);
}

/// Reading an encoded value of `width` bits byte by byte, the bytes read
/// settle the decoding exactly once the whole encoding has been read, and
/// not before: a reader stops neither early nor late.
pub proof fn lemma_read_stops_at_end(v: nat, width: nat, j: nat)
    requires
        width >= 1,
        v < pow2(width),
        j <= encoded(v).len(),
    ensures
        (scan(encoded(v).take(j as int), max_bytes(width)) == Err::<(nat, nat), Error>(
            Error::Insufficient,
        )) == (j < encoded(v).len()),
{
    let e = encoded(v);
    let s = e.take(j as int);
    lemma_encoded_shape(v);
    lemma_encoded_fits(v, width);
    if j < e.len() {
        assert(all_continue(s, j as int)) by {
            assert forall|i: int| 0 <= i < j implies #[trigger] s[i] >= 128 by {
                assert(s[i] == e[i]);
            }
        }
        lemma_stop_index(s, j as int);
    } else {
        assert(s =~= e + Seq::<u8>::empty());
        lemma_decode_encoded(v, width, Seq::<u8>::empty());
    }
}

/// Collects the bytes of one varint as they are read from a stream, one at
/// a time, and says when to stop: at the first byte without the
/// continuation bit, or once as many bytes as the width allows were read.
pub struct VarintReader {
    bytes: Vec<u8>,
    max: usize,
}

impl View for VarintReader {
    type V = Seq<u8>;

    /// The bytes read so far.
    closed spec fn view(&self) -> Seq<u8> {
        self.bytes@
    }
}

impl VarintReader {
    /// Every byte read but the last carries the continuation bit, and no
    /// more bytes were read than the width allows.
    #[verifier::type_invariant]
    spec fn inv(&self) -> bool {
        &&& 1 <= self.max
        &&& self.bytes@.len() <= self.max
        &&& all_continue(self.bytes@, self.bytes@.len() - 1)
    }

    /// The most bytes that a value may take.
    pub closed spec fn limit(&self) -> nat {
        self.max as nat
    }

    /// Whether the bytes read so far settle the decoding: it yields a value,
    /// or fails with `Overflow`. Until then more bytes are needed.
    pub open spec fn complete(&self) -> bool {
        scan(self@, self.limit()) != Err::<(nat, nat), Error>(Error::Insufficient)
    }

    /// A reader for a value of `bits` bits, with nothing read yet.
    pub fn for_width(bits: u32) -> (r: Self)
        requires
            1 <= bits <= 128,
        ensures
            r@ == Seq::<u8>::empty(),
            r.limit() == max_bytes(bits as nat),
            !r.complete(),
    {
        let r = VarintReader { bytes: Vec::new(), max: ((bits + 6) / 7) as usize };
        assert(stop_index(r@) == 0);
        r
    }

    /// Records the byte `b`, just read. Returns whether reading should stop.
    pub fn push(&mut self, b: u8) -> (done: bool)
        requires
            !old(self).complete(),
        ensures
            final(self)@ == old(self)@.push(b),
            final(self).limit() == old(self).limit(),
            done == final(self).complete(),
            done == (b < 128 || final(self)@.len() == final(self).limit()),
    {
        proof {
            use_type_invariant(&*self);
            lemma_before_stop(self@);
        }
        let ghost before = self@;
        let mut bytes = self.bytes.clone();
        assert(bytes@ =~= before);
        bytes.push(b);
        *self = VarintReader { bytes, max: self.max };
        proof {
            assert forall|j: int| 0 <= j < before.len() implies #[trigger] self@[j] >= 128 by {
                assert(self@[j] == before[j]);
            }
            lemma_stop_index(self@, before.len() as int);
            if b >= 128 {
                lemma_stop_index(self@, self@.len() as int);
            }
        }
        decode::is_last(b) || self.bytes.len() == self.max
    }

    /// Whether the bytes read so far settle the decoding.
    pub fn is_complete(&self) -> (r: bool)
        ensures
            r == self.complete(),
    {
        proof {
            use_type_invariant(self);
            if self@.len() > 0 {
                lemma_stop_index(self@, self@.len() - 1);
                if self@[self@.len() - 1] >= 128 {
                    lemma_stop_index(self@, self@.len() as int);
                }
            } else {
                assert(stop_index(self@) == 0);
            }
        }
        self.bytes.len() > 0 && (decode::is_last(self.bytes[self.bytes.len() - 1])
            || self.bytes.len() >= self.max)
    }

    /// The bytes read so far.
    pub fn as_slice(&self) -> (r: &[u8])
        ensures
            r@ == self@,
    {
        self.bytes.as_slice()
    }
}

} // verus!
