//! Wire codec of the request/streamed-response protocol: every message is a
//! `u32` little-endian length followed by that many payload bytes, and every
//! server-to-client payload is a tagged envelope — `Data` carrying opaque
//! bytes, or `EndOfStream` closing the stream.

use vstd::prelude::*;

verus! {

use vstd::bytes::{
    lemma_auto_spec_u32_to_from_le_bytes, spec_u32_from_le_bytes, spec_u32_to_le_bytes,
    u32_from_le_bytes, u32_to_le_bytes,
};

/// Server-to-client envelope: a payload, or the end-of-stream mark sent
/// exactly once per request.
#[derive(Debug, PartialEq)]
pub enum StreamResponse<T> {
    Data(T),
    EndOfStream,
}

/// Envelope tag of `Data` on the wire.
pub const DATA_TAG: u32 = 0;

/// Envelope tag of `EndOfStream` on the wire.
pub const END_TAG: u32 = 1;

/// A framed message: length prefix followed by the body.
pub open spec fn spec_frame(body: Seq<u8>) -> Seq<u8> {
    spec_u32_to_le_bytes(body.len() as u32) + body
}

/// Envelope bytes of `Data(payload)`.
pub open spec fn spec_data_envelope(payload: Seq<u8>) -> Seq<u8> {
    spec_u32_to_le_bytes(DATA_TAG) + payload
}

/// Envelope bytes of `EndOfStream`.
pub open spec fn spec_end_envelope() -> Seq<u8> {
    spec_u32_to_le_bytes(END_TAG)
}

/// Splits a buffer into the first frame's body and the remaining bytes,
/// when the buffer holds a complete frame.
pub open spec fn spec_take_frame(buf: Seq<u8>) -> Option<(Seq<u8>, Seq<u8>)> {
    if buf.len() < 4 {
        None
    } else {
        let len = spec_u32_from_le_bytes(buf.subrange(0, 4)) as int;
        if 4 + len > buf.len() {
            None
        } else {
            Some((buf.subrange(4, 4 + len), buf.skip(4 + len)))
        }
    }
}

/// Reads an envelope body: its tag decides between `Data` (payload follows)
/// and `EndOfStream`; anything else is malformed.
pub open spec fn spec_decode_envelope(body: Seq<u8>) -> Option<StreamResponse<Seq<u8>>> {
    if body.len() < 4 {
        None
    } else {
        let tag = spec_u32_from_le_bytes(body.subrange(0, 4));
        if tag == DATA_TAG {
            Some(StreamResponse::Data(body.skip(4)))
        } else if tag == END_TAG {
            Some(StreamResponse::EndOfStream)
        } else {
            None
        }
    }
}

/// The full response stream for a sequence of payloads: one `Data` frame per
/// payload, in order, then exactly one `EndOfStream` frame.
pub open spec fn spec_response_stream(payloads: Seq<Seq<u8>>) -> Seq<u8>
    decreases payloads.len(),
{
    if payloads.len() == 0 {
        spec_frame(spec_end_envelope())
    } else {
        spec_frame(spec_data_envelope(payloads[0])) + spec_response_stream(payloads.drop_first())
    }
}

/// Decodes a complete response stream back into its `Data` payloads;
/// `None` on any framing or tag error or on bytes missing the end mark.
pub open spec fn spec_decode_stream(buf: Seq<u8>) -> Option<Seq<Seq<u8>>>
    decreases buf.len(),
{
    match spec_take_frame(buf) {
        None => None,
        Some(parts) => match spec_decode_envelope(parts.0) {
            Some(StreamResponse::Data(p)) => match spec_decode_stream(parts.1) {
                Some(ps) => Some(seq![p] + ps),
                None => None,
            },
            Some(StreamResponse::EndOfStream) => Some(Seq::<Seq<u8>>::empty()),
            None => None,
        },
    }
}

/// Copies `buf[from..to]` into a fresh vector.
pub fn bytes_slice(buf: &Vec<u8>, from: usize, to: usize) -> (r: Vec<u8>)
    requires
        from <= to <= buf@.len(),
    ensures
        r@ == buf@.subrange(from as int, to as int),
{
    let mut r: Vec<u8> = Vec::new();
    let mut i: usize = from;
    while i < to
        invariant
            from <= i <= to <= buf@.len(),
            r@ =~= buf@.subrange(from as int, i as int),
        decreases to - i,
    {
        r.push(buf[i]);
        proof {
            assert(r@ =~= buf@.subrange(from as int, i + 1));
        }
        i = i + 1;
    }
    r
}

/// Appends all of `src` to `dst`.
pub fn bytes_extend(dst: &mut Vec<u8>, src: &Vec<u8>)
    ensures
        final(dst)@ == old(dst)@ + src@,
{
    let n = src.len();
    let mut i: usize = 0;
    proof {
        assert(dst@ =~= old(dst)@ + src@.subrange(0, 0));
    }
    while i < n
        invariant
            i <= n,
            n == src@.len(),
            dst@ =~= old(dst)@ + src@.subrange(0, i as int),
        decreases n - i,
    {
        dst.push(src[i]);
        proof {
            assert(dst@ =~= old(dst)@ + src@.subrange(0, i + 1));
        }
        i = i + 1;
    }
    proof {
        assert(src@.subrange(0, n as int) =~= src@);
    }
}

/// Frames a message body with its little-endian length prefix.
pub fn encode_frame(body: &Vec<u8>) -> (r: Vec<u8>)
    requires
        body@.len() <= u32::MAX,
    ensures
        r@ == spec_frame(body@),
{
    let len = body.len() as u32;
    let mut r = u32_to_le_bytes(len);
    bytes_extend(&mut r, body);
    r
}

/// The envelope bytes of a `Data` message carrying `payload`.
pub fn encode_data_envelope(payload: &Vec<u8>) -> (r: Vec<u8>)
    ensures
        r@ == spec_data_envelope(payload@),
{
    let mut r = u32_to_le_bytes(DATA_TAG);
    bytes_extend(&mut r, payload);
    r
}

/// One framed `Data` message.
pub fn encode_data_frame(payload: &Vec<u8>) -> (r: Vec<u8>)
    requires
        payload@.len() + 4 <= u32::MAX,
    ensures
        r@ == spec_frame(spec_data_envelope(payload@)),
{
    let env = encode_data_envelope(payload);
    proof {
        lemma_auto_spec_u32_to_from_le_bytes();
        assert(env@.len() == payload@.len() + 4);
    }
    encode_frame(&env)
}

/// The framed `EndOfStream` message.
pub fn encode_end_frame() -> (r: Vec<u8>)
    ensures
        r@ == spec_frame(spec_end_envelope()),
{
    let env = u32_to_le_bytes(END_TAG);
    proof {
        lemma_auto_spec_u32_to_from_le_bytes();
    }
    encode_frame(&env)
}

/// Reads one frame starting at `pos`; on success hands back the body and the
/// position after the frame.
pub fn read_frame(buf: &Vec<u8>, pos: usize) -> (r: Option<(Vec<u8>, usize)>)
    requires
        pos <= buf@.len(),
    ensures
        ({
            match (spec_take_frame(buf@.skip(pos as int)), r) {
                (Some(parts), Some(rp)) => {
                    &&& rp.0@ == parts.0
                    &&& rp.1 <= buf@.len()
                    &&& buf@.skip(rp.1 as int) == parts.1
                },
                (None, None) => true,
                _ => false,
            }
        }),
{
    let ghost tail = buf@.skip(pos as int);
    let n = buf.len();
    if n - pos < 4 {
        return None;
    }
    let lenb = bytes_slice(buf, pos, pos + 4);
    proof {
        assert(lenb@ =~= tail.subrange(0, 4));
    }
    let len32 = u32_from_le_bytes(lenb.as_slice());
    let len = len32 as usize;
    if len > n - (pos + 4) {
        return None;
    }
    let body = bytes_slice(buf, pos + 4, pos + 4 + len);
    proof {
        assert(body@ =~= tail.subrange(4, 4 + len as int));
        assert(buf@.skip(pos + 4 + len) =~= tail.skip(4 + len as int));
    }
    Some((body, pos + 4 + len))
}

/// Classifies an envelope body as `Data` (with its payload) or
/// `EndOfStream`; `None` when the body is too short or the tag is unknown.
pub fn decode_envelope(body: &Vec<u8>) -> (r: Option<StreamResponse<Vec<u8>>>)
    ensures
        ({
            match (spec_decode_envelope(body@), r) {
                (Some(StreamResponse::Data(p)), Some(StreamResponse::Data(v))) => v@ == p,
                (Some(StreamResponse::EndOfStream), Some(StreamResponse::EndOfStream)) => true,
                (None, None) => true,
                _ => false,
            }
        }),
{
    let n = body.len();
    if n < 4 {
        return None;
    }
    let tagb = bytes_slice(body, 0, 4);
    proof {
        assert(tagb@ =~= body@.subrange(0, 4));
    }
    let tag = u32_from_le_bytes(tagb.as_slice());
    if tag == DATA_TAG {
        let payload = bytes_slice(body, 4, n);
        proof {
            assert(payload@ =~= body@.skip(4));
        }
        Some(StreamResponse::Data(payload))
    } else if tag == END_TAG {
        Some(StreamResponse::EndOfStream)
    } else {
        None
    }
}

/// Encodes the full response stream for the given payloads.
pub fn encode_response_stream(payloads: &Vec<Vec<u8>>) -> (r: Vec<u8>)
    requires
        forall|i: int|
            0 <= i < payloads@.len() ==> (#[trigger] payloads@[i])@.len() + 4 <= u32::MAX,
    ensures
        r@ == spec_response_stream(payloads.deep_view()),
{
    let n = payloads.len();
    let mut r: Vec<u8> = Vec::new();
    let mut i: usize = n;
    let end = encode_end_frame();
    proof {
        assert(payloads.deep_view().skip(n as int) =~= Seq::<Seq<u8>>::empty());
    }
    bytes_extend(&mut r, &end);
    proof {
        assert(r@ =~= spec_response_stream(payloads.deep_view().skip(n as int)));
    }
    while i > 0
        invariant
            i <= n,
            n == payloads@.len(),
            forall|k: int|
                0 <= k < payloads@.len() ==> (#[trigger] payloads@[k])@.len() + 4 <= u32::MAX,
            r@ == spec_response_stream(payloads.deep_view().skip(i as int)),
        decreases i,
    {
        i = i - 1;
        let frame = encode_data_frame(&payloads[i]);
        let mut next: Vec<u8> = frame;
        bytes_extend(&mut next, &r);
        r = next;
        proof {
            let ps = payloads.deep_view();
            assert(ps.skip(i as int)[0] == ps[i as int]);
            assert(ps.skip(i as int).drop_first() =~= ps.skip(i + 1));
            assert(payloads@[i as int]@ == ps[i as int]);
            assert(r@ =~= spec_response_stream(ps.skip(i as int)));
        }
    }
    proof {
        assert(payloads.deep_view().skip(0) =~= payloads.deep_view());
    }
    r
}

/// Decodes a complete response stream; `None` when the bytes are not a
/// well-formed stream ending in `EndOfStream`.
pub fn decode_response_stream(buf: &Vec<u8>) -> (r: Option<Vec<Vec<u8>>>)
    ensures
        match spec_decode_stream(buf@) {
            Some(ps) => r is Some && r->0.deep_view() == ps,
            None => r is None,
        },
{
    let mut acc: Vec<Vec<u8>> = Vec::new();
    let mut pos: usize = 0;
    proof {
        assert(buf@.skip(0) =~= buf@);
        assert(acc.deep_view() =~= Seq::<Seq<u8>>::empty());
    }
    loop
        invariant
            pos <= buf@.len(),
            ({
                let whole = spec_decode_stream(buf@);
                let rest = spec_decode_stream(buf@.skip(pos as int));
                match rest {
                    Some(ps) => whole == Some(acc.deep_view() + ps),
                    None => whole is None,
                }
            }),
        decreases buf@.len() - pos,
    {
        let step = read_frame(buf, pos);
        match step {
            None => {
                return None;
            },
            Some((body, newpos)) => {
                match decode_envelope(&body) {
                    None => {
                        return None;
                    },
                    Some(StreamResponse::EndOfStream) => {
                        proof {
                            let rest = spec_decode_stream(buf@.skip(pos as int));
                            assert(rest == Some(Seq::<Seq<u8>>::empty()));
                            assert(acc.deep_view() + Seq::<Seq<u8>>::empty() =~= acc.deep_view());
                        }
                        return Some(acc);
                    },
                    Some(StreamResponse::Data(payload)) => {
                        proof {
                            let tail = buf@.skip(pos as int);
                            let parts = spec_take_frame(tail)->0;
                            assert(spec_decode_stream(tail) == match spec_decode_stream(parts.1) {
                                Some(ps) => Some(seq![payload@] + ps),
                                None => None::<Seq<Seq<u8>>>,
                            });
                        }
                        let ghost old_acc = acc.deep_view();
                        acc.push(payload);
                        proof {
                            assert(acc.deep_view() =~~= old_acc.push(payload@));
                            let rest2 = spec_decode_stream(buf@.skip(newpos as int));
                            if rest2 is Some {
                                assert(old_acc + (seq![payload@] + rest2->0) =~= acc.deep_view()
                                    + rest2->0);
                            }
                        }
                        pos = newpos;
                    },
                }
            },
        }
    }
}

/// Round trip: the encoded stream of any payload sequence decodes back to
/// exactly that sequence — every `Data` envelope, in order, and the single
/// `EndOfStream` that follows them.
pub proof fn lemma_stream_round_trip(payloads: Seq<Seq<u8>>)
    requires
        forall|i: int| 0 <= i < payloads.len() ==> (#[trigger] payloads[i]).len() + 4 <= u32::MAX,
    ensures
        spec_decode_stream(spec_response_stream(payloads)) == Some(payloads),
    decreases payloads.len(),
{
    lemma_auto_spec_u32_to_from_le_bytes();
    if payloads.len() == 0 {
        let env = spec_end_envelope();
        let buf = spec_frame(env);
        assert(buf.subrange(0, 4) =~= spec_u32_to_le_bytes(env.len() as u32));
        assert(buf.subrange(4, 4 + env.len() as int) =~= env);
        assert(buf.skip(4 + env.len() as int) =~= Seq::<u8>::empty());
        assert(env.subrange(0, 4) =~= spec_u32_to_le_bytes(END_TAG));
        assert(spec_decode_stream(buf) == Some(Seq::<Seq<u8>>::empty()));
        assert(Seq::<Seq<u8>>::empty() =~= payloads);
    } else {
        let p = payloads[0];
        let env = spec_data_envelope(p);
        let first = spec_frame(env);
        let rest = spec_response_stream(payloads.drop_first());
        let buf = first + rest;
        assert(spec_response_stream(payloads) == buf);
        assert(env.len() == p.len() + 4 <= u32::MAX);
        assert(buf.subrange(0, 4) =~= spec_u32_to_le_bytes(env.len() as u32));
        assert(4 + env.len() <= buf.len());
        assert(buf.subrange(4, 4 + env.len() as int) =~= env);
        assert(buf.skip(4 + env.len() as int) =~= rest);
        assert(env.subrange(0, 4) =~= spec_u32_to_le_bytes(DATA_TAG));
        assert(env.skip(4) =~= p);
        lemma_stream_round_trip(payloads.drop_first());
        assert(seq![p] + payloads.drop_first() =~= payloads);
    }
}

} // verus!
