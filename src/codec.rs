//! Framing: a frame is the varint length of its payload, then the payload.

use bytes::{Bytes, BytesMut};
use vstd::prelude::*;

use crate::buf::{advance, append, buffered, contents, freeze, frozen, split_to};
use crate::varint::{
    continues, decode_u64, encode_usize, lemma_continuing_run, lemma_encoding_read_back,
    lemma_leading_fits, lemma_leading_is_minimal, lemma_stop_index_flag, lemma_varint_width,
    leading_value, terminated, trailing_zero, varint_bytes, width, VarintError,
    MAX_WIDTH,
};

verus! {

/// Why the buffered bytes cannot start a frame; the stream is lost.
#[derive(Debug, Clone, Copy, PartialEq, Eq, Structural)]
pub enum CodecError {
    /// The length prefix runs past `MAX_WIDTH` bytes, or its value does not
    /// fit in 64 bits.
    Overflow,
    /// The length prefix ends in a superfluous zero byte.
    NotMinimal,
}

/// The wire form of one payload.
pub open spec fn frame_bytes(p: Seq<u8>) -> Seq<u8> {
    varint_bytes(p.len()) + p
}

/// `s` starts with a complete and well-formed length prefix: terminated
/// within `MAX_WIDTH` bytes, minimal, and within 64 bits.
pub open spec fn prefix_valid(s: Seq<u8>) -> bool {
    &&& terminated(s)
    &&& !trailing_zero(s)
    &&& leading_value(s) <= u64::MAX
}

/// No bytes appended to `s` can make it start with a frame.
pub open spec fn prefix_malformed(s: Seq<u8>) -> bool {
    if terminated(s) {
        !prefix_valid(s)
    } else {
        s.len() >= MAX_WIDTH
    }
}

/// The error that a malformed prefix is reported with.
pub open spec fn malformed_error(s: Seq<u8>) -> CodecError {
    if terminated(s) && trailing_zero(s) {
        CodecError::NotMinimal
    } else {
        CodecError::Overflow
    }
}

/// Where the frame at the front of `s` ends: prefix and payload.
pub open spec fn frame_end(s: Seq<u8>) -> int {
    (width(s) + leading_value(s)) as int
}

/// `s` starts with a whole frame.
pub open spec fn frame_ready(s: Seq<u8>) -> bool {
    prefix_valid(s) && frame_end(s) <= s.len()
}

/// The payload of the frame at the front of `s`.
pub open spec fn frame_payload(s: Seq<u8>) -> Seq<u8> {
    s.subrange(width(s) as int, frame_end(s))
}

/// Prefixes each byte slice with its length as an unsigned varint, and
/// takes such frames back off a buffer. It keeps no state: all progress
/// lives in the buffer handed to `decode`.
#[derive(Debug, Default, Clone, Copy)]
pub struct UviCodec;

impl UviCodec {
    /// Appends the frame of `item` to `dst`.
    pub fn encode(&mut self, item: &[u8], dst: &mut BytesMut) -> (r: Result<(), CodecError>)
        requires
            buffered(*old(dst)).len() + item@.len() + MAX_WIDTH <= isize::MAX,
        ensures
            r is Ok,
            buffered(*final(dst)) == buffered(*old(dst)) + frame_bytes(item@),
    {
        let encoded = encode_usize(item.len());
        proof {
            lemma_varint_width(item@.len());
        }
        append(dst, encoded.as_slice());
        append(dst, item);
        proof {
            assert(buffered(*dst) =~= buffered(*old(dst)) + frame_bytes(item@));
        }
        Ok(())
    }

    /// Takes the frame at the front of `src` off it and returns its
    /// payload. Where `src` holds no whole frame yet it returns `None` and
    /// leaves `src` as it was; where its front can never start a frame it
    /// fails, and `src` is not to be used further.
    pub fn decode(&mut self, src: &mut BytesMut) -> (r: Result<Option<Bytes>, CodecError>)
        ensures
            match r {
                Ok(Some(p)) => {
                    &&& frame_ready(buffered(*old(src)))
                    &&& frozen(p) == frame_payload(buffered(*old(src)))
                    &&& buffered(*final(src)) == buffered(*old(src)).skip(
                        frame_end(buffered(*old(src))),
                    )
                },
                Ok(None) => {
                    &&& !frame_ready(buffered(*old(src)))
                    &&& !prefix_malformed(buffered(*old(src)))
                    &&& buffered(*final(src)) == buffered(*old(src))
                },
                Err(e) => {
                    &&& prefix_malformed(buffered(*old(src)))
                    &&& e == malformed_error(buffered(*old(src)))
                },
            },
    {
        let (len, prefix) = {
            let s = contents(src);
            match decode_u64(s) {
                Ok((n, rest)) => {
                    let w = s.len() - rest.len();
                    proof {
                        lemma_leading_fits(s@);
                    }
                    if w == MAX_WIDTH && s[MAX_WIDTH - 1] > 1 {
                        return Err(CodecError::Overflow);
                    }
                    (n, w)
                },
                Err(VarintError::Insufficient) => {
                    return Ok(None);
                },
                Err(VarintError::Overflow) => {
                    return Err(CodecError::Overflow);
                },
                Err(VarintError::NotMinimal) => {
                    return Err(CodecError::NotMinimal);
                },
            }
        };
        let available = contents(src).len() - prefix;
        if len > available as u64 {
            return Ok(None);
        }
        let len = len as usize;
        let ghost s0 = buffered(*src);
        advance(src, prefix);
        let payload = split_to(src, len);
        proof {
            assert(buffered(payload) =~= frame_payload(s0));
            assert(buffered(*src) =~= s0.skip(frame_end(s0)));
        }
        Ok(Some(freeze(payload)))
    }
}

/// Round trip: the frame of any payload, followed by any bytes, is read
/// back as that payload, and exactly the following bytes are left.
pub proof fn lemma_round_trip(p: Seq<u8>, rest: Seq<u8>)
    requires
        p.len() <= u64::MAX,
    ensures
        frame_ready(frame_bytes(p) + rest),
        frame_payload(frame_bytes(p) + rest) == p,
        (frame_bytes(p) + rest).skip(frame_end(frame_bytes(p) + rest)) == rest,
{
    let e = varint_bytes(p.len());
    let s = frame_bytes(p) + rest;
    assert(s =~= e + (p + rest));
    lemma_encoding_read_back(p.len(), p + rest);
    assert(frame_payload(s) =~= p);
    assert(s.skip(frame_end(s)) =~= rest);
}

/// Every proper prefix of a frame leaves the decoder waiting: it is neither
/// a whole frame nor malformed.
pub proof fn lemma_partial_frame_pending(p: Seq<u8>, k: int)
    requires
        p.len() <= u64::MAX,
        0 <= k < frame_bytes(p).len(),
    ensures
        !frame_ready(frame_bytes(p).take(k)),
        !prefix_malformed(frame_bytes(p).take(k)),
{
    let e = varint_bytes(p.len());
    let f = frame_bytes(p);
    let t = f.take(k);
    lemma_encoding_read_back(p.len(), p);
    lemma_varint_width(p.len());
    if k < e.len() {
        lemma_stop_index_flag(f);
        assert forall|j: int| 0 <= j < k implies continues(#[trigger] t[j]) by {
            assert(t[j] == f[j]);
        }
        lemma_continuing_run(t, k);
        lemma_stop_index_flag(t);
    } else {
        let q = p.take(k - e.len());
        assert(t =~= e + q);
        lemma_encoding_read_back(p.len(), q);
    }
}

/// Concatenating the first `i` chunks and then the others gives all of them.
proof fn lemma_flatten_split(chunks: Seq<Seq<u8>>, i: int)
    requires
        0 <= i <= chunks.len(),
    ensures
        chunks.flatten() == chunks.take(i).flatten() + chunks.skip(i).flatten(),
    decreases i,
{
    if i == 0 {
        assert(chunks.take(0) =~= Seq::<Seq<u8>>::empty());
        assert(chunks.skip(0) =~= chunks);
        assert(chunks.flatten() =~= Seq::<u8>::empty() + chunks.flatten());
    } else {
        let r = chunks.drop_first();
        lemma_flatten_split(r, i - 1);
        assert(chunks.take(i).drop_first() =~= r.take(i - 1));
        assert(chunks.skip(i) =~= r.skip(i - 1));
        assert(chunks.take(i).first() == chunks.first());
        assert(chunks.flatten() =~= chunks.take(i).flatten() + chunks.skip(i).flatten());
    }
}

/// Incremental delivery: when the bytes of a frame arrive in chunks, the
/// bytes buffered after any number of chunks are neither a frame nor
/// malformed until the last byte is in; then they are exactly the frame,
/// which yields the payload and leaves nothing.
pub proof fn lemma_chunked_delivery(p: Seq<u8>, chunks: Seq<Seq<u8>>, i: int)
    requires
        p.len() <= u64::MAX,
        chunks.flatten() == frame_bytes(p),
        0 <= i <= chunks.len(),
    ensures
        chunks.take(i).flatten().len() <= frame_bytes(p).len(),
        chunks.take(i).flatten().len() < frame_bytes(p).len() ==> {
            &&& !frame_ready(chunks.take(i).flatten())
            &&& !prefix_malformed(chunks.take(i).flatten())
        },
        chunks.take(i).flatten().len() == frame_bytes(p).len() ==> {
            &&& frame_ready(chunks.take(i).flatten())
            &&& frame_payload(chunks.take(i).flatten()) == p
            &&& chunks.take(i).flatten().skip(frame_end(chunks.take(i).flatten())).len() == 0
        },
{
    let seen = chunks.take(i).flatten();
    let f = frame_bytes(p);
    lemma_flatten_split(chunks, i);
    assert(seen =~= f.take(seen.len() as int));
    if seen.len() < f.len() {
        lemma_partial_frame_pending(p, seen.len() as int);
    } else {
        lemma_round_trip(p, Seq::<u8>::empty());
        assert(seen =~= f + Seq::<u8>::empty());
    }
}

/// Consumption: a whole frame at the front of the buffer takes exactly the
/// minimal encoding of its payload's length, then the payload.
pub proof fn lemma_consumed_frame(s: Seq<u8>)
    requires
        frame_ready(s),
    ensures
        width(s) == varint_bytes(frame_payload(s).len()).len(),
        s.take(frame_end(s)) == frame_bytes(frame_payload(s)),
{
    lemma_leading_is_minimal(s);
    assert(frame_payload(s).len() == leading_value(s));
    assert(s.take(frame_end(s)) =~= s.take(width(s) as int) + frame_payload(s));
}

/// A length prefix whose first `MAX_WIDTH` bytes all carry the continuation
/// flag is rejected as an overflow, whatever follows it.
pub proof fn lemma_overlong_prefix_rejected(s: Seq<u8>)
    requires
        s.len() >= MAX_WIDTH,
        forall|j: int| 0 <= j < MAX_WIDTH ==> continues(#[trigger] s[j]),
    ensures
        prefix_malformed(s),
        malformed_error(s) == CodecError::Overflow,
{
    lemma_continuing_run(s, MAX_WIDTH as int);
}

/// A length prefix that spells a number beyond 64 bits is rejected as an
/// overflow, never wrapped.
pub proof fn lemma_wide_prefix_rejected(s: Seq<u8>)
    requires
        terminated(s),
        leading_value(s) > u64::MAX,
    ensures
        prefix_malformed(s),
        malformed_error(s) == CodecError::Overflow,
{
    lemma_leading_fits(s);
}

} // verus!
