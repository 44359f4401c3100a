//! The wire frame: a 4-byte magic prefix, a CRC-8 checksum byte, a
//! payload-length-minus-one byte, and 1 to 256 payload bytes.
//!
//! `Message` builds an outgoing frame from payload bytes; `decode_frame`
//! recognises one frame at the front of an incoming byte buffer, verifying
//! the checksum and asking for more bytes or resynchronising as needed.

use vstd::prelude::*;
use crate::crc::{crc8, crc_state, crc_step, Crc8};
use crate::json::{
    encode_netmessage, lemma_encode_len, lemma_netmessage_round_trip, spec_decode_netmessage,
    spec_encode_netmessage,
};
use crate::msg::Netmessage;

verus! {

/// The fixed 4-byte prefix of every frame.
pub open spec fn frame_magic() -> Seq<u8> {
    seq![0x80u8, 0x25u8, 0x23u8, 0x2Eu8]
}

/// The length byte of a frame: one less than the payload length.
pub open spec fn frame_len_byte(p: Seq<u8>) -> u8 {
    (p.len() - 1) as u8
}

/// The checksum byte of a frame: the CRC-8 of the length byte followed by
/// the payload.
pub open spec fn frame_crc(p: Seq<u8>) -> u8 {
    crc8(seq![frame_len_byte(p)] + p)
}

/// The full frame for a payload of 1 to 256 bytes.
pub open spec fn spec_frame(p: Seq<u8>) -> Seq<u8> {
    frame_magic() + seq![frame_crc(p), frame_len_byte(p)] + p
}

/// Why a payload cannot be framed.
#[derive(Debug, Clone, Copy, PartialEq, Eq, Structural)]
pub enum FrameError {
    /// More than 256 bytes: the length-minus-one field is a single byte.
    PayloadTooLarge,
    /// No bytes at all: a frame always carries at least one.
    PayloadEmpty,
}

/// An outgoing frame under construction: payload bytes accumulate in a
/// buffer, and `finish` seals them into a checksummed frame.
pub struct Message {
    buffer: Vec<u8>,
}

impl View for Message {
    type V = Seq<u8>;

    closed spec fn view(&self) -> Seq<u8> {
        self.buffer@
    }
}

impl Message {
    /// An empty payload buffer.
    pub fn new() -> (r: Message)
        ensures
            r@ == Seq::<u8>::empty(),
    {
        Message { buffer: Vec::new() }
    }

    /// Append bytes to the payload.
    pub fn append(&mut self, bytes: &[u8])
        ensures
            final(self)@ == old(self)@ + bytes@,
    {
        self.buffer.extend_from_slice(bytes);
    }

    /// Seal the payload into a frame: magic, checksum over the length byte
    /// and payload, length byte, payload.  Rejects an empty payload and one
    /// over 256 bytes.
    pub fn finish(self) -> (r: Result<Vec<u8>, FrameError>)
        ensures
            self@.len() > 256 ==> r == Err::<Vec<u8>, FrameError>(FrameError::PayloadTooLarge),
            self@.len() == 0 ==> r == Err::<Vec<u8>, FrameError>(FrameError::PayloadEmpty),
            1 <= self@.len() <= 256 ==> (r matches Ok(v) && v@ == spec_frame(self@)),
    {
        let payload = self.buffer;
        if payload.len() > 256 {
            Err(FrameError::PayloadTooLarge)
        } else if payload.len() == 0 {
            Err(FrameError::PayloadEmpty)
        } else {
            let byte_len: u8 = (payload.len() - 1) as u8;
            let mut crc = Crc8::new();
            crc.add_byte(byte_len);
            assert(seq![byte_len] + payload@.take(0) =~= seq![byte_len]);
            assert(crc_state(seq![byte_len]) == crc_step(crc_state(seq![byte_len].drop_last()), byte_len));
            assert(seq![byte_len].drop_last() =~= Seq::<u8>::empty());
            let mut i: usize = 0;
            while i < payload.len()
                invariant
                    i <= payload.len(),
                    crc.state() == crc_state(seq![byte_len] + payload@.take(i as int)),
                decreases payload.len() - i,
            {
                let ghost pre: Seq<u8> = seq![byte_len] + payload@.take(i as int);
                crc.add_byte(payload[i]);
                assert(seq![byte_len] + payload@.take(i + 1) =~= pre.push(payload@[i as int]));
                assert(pre.push(payload@[i as int]).drop_last() =~= pre);
                i = i + 1;
            }
            assert(seq![byte_len] + payload@.take(payload.len() as int) =~= seq![byte_len] + payload@);
            let c = crc.finish();
            let mut v: Vec<u8> = Vec::new();
            v.push(0x80);
            v.push(0x25);
            v.push(0x23);
            v.push(0x2E);
            v.push(c);
            v.push(byte_len);
            v.extend_from_slice(payload.as_slice());
            assert(v@ =~= spec_frame(payload@));
            Ok(v)
        }
    }

    /// Append a message's canonical JSON encoding to the payload.
    pub fn add_message(&mut self, m: &Netmessage)
        ensures
            final(self)@ == old(self)@ + spec_encode_netmessage(*m),
    {
        let b = encode_netmessage(m);
        self.append(b.as_slice());
    }

    /// One message, sealed into a frame: the usual way an outbound
    /// message is built.  A message's encoding always fits one frame, so
    /// this cannot fail.
    pub fn from_netmessage(m: &Netmessage) -> (r: Vec<u8>)
        ensures
            r@ == spec_frame(spec_encode_netmessage(*m)),
    {
        let mut msg = Message::new();
        msg.add_message(m);
        proof {
            lemma_encode_len(*m);
        }
        match msg.finish() {
            Ok(v) => v,
            Err(_) => {
                proof {
                    assert(false);
                }
                Vec::new()
            },
        }
    }
}

/// What the decoder found at the front of the buffer.
#[derive(Debug)]
pub enum FrameStep {
    /// Not enough bytes yet for a whole frame.
    Incomplete,
    /// The front of the buffer is not a valid frame: drop `skip` bytes and
    /// try again.
    Bad { skip: usize },
    /// A whole frame with a correct checksum: its payload, and how many
    /// bytes of the buffer it occupied.
    Ready { payload: Vec<u8>, used: usize },
}

/// The mathematical counterpart of `FrameStep`.
pub enum SpecFrameStep {
    Incomplete,
    Bad { skip: int },
    Ready { payload: Seq<u8>, used: int },
}

/// The abstraction of an executable decode result.
pub open spec fn frame_step_abs(r: FrameStep) -> SpecFrameStep {
    match r {
        FrameStep::Incomplete => SpecFrameStep::Incomplete,
        FrameStep::Bad { skip } => SpecFrameStep::Bad { skip: skip as int },
        FrameStep::Ready { payload, used } => SpecFrameStep::Ready {
            payload: payload@,
            used: used as int,
        },
    }
}

/// What decoding finds at the front of a byte buffer: a magic mismatch
/// drops one byte to resynchronise; a short buffer asks for more; a
/// checksum mismatch drops the whole frame; otherwise the payload is out.
pub open spec fn spec_decode_frame(buf: Seq<u8>) -> SpecFrameStep {
    if buf.len() >= 1 && buf[0] != 0x80 {
        SpecFrameStep::Bad { skip: 1 }
    } else if buf.len() >= 2 && buf[1] != 0x25 {
        SpecFrameStep::Bad { skip: 1 }
    } else if buf.len() >= 3 && buf[2] != 0x23 {
        SpecFrameStep::Bad { skip: 1 }
    } else if buf.len() >= 4 && buf[3] != 0x2E {
        SpecFrameStep::Bad { skip: 1 }
    } else if buf.len() < 6 {
        SpecFrameStep::Incomplete
    } else if buf.len() < 7 + buf[5] as int {
        SpecFrameStep::Incomplete
    } else {
        let used = 7 + buf[5] as int;
        let payload = buf.subrange(6, used);
        if buf[4] == crc8(seq![buf[5]] + payload) {
            SpecFrameStep::Ready { payload, used }
        } else {
            SpecFrameStep::Bad { skip: used }
        }
    }
}

/// Decode one frame from the front of `buf`.
pub fn decode_frame(buf: &[u8]) -> (r: FrameStep)
    ensures
        frame_step_abs(r) == spec_decode_frame(buf@),
{
    if buf.len() >= 1 && buf[0] != 0x80 {
        return FrameStep::Bad { skip: 1 };
    }
    if buf.len() >= 2 && buf[1] != 0x25 {
        return FrameStep::Bad { skip: 1 };
    }
    if buf.len() >= 3 && buf[2] != 0x23 {
        return FrameStep::Bad { skip: 1 };
    }
    if buf.len() >= 4 && buf[3] != 0x2E {
        return FrameStep::Bad { skip: 1 };
    }
    if buf.len() < 6 {
        return FrameStep::Incomplete;
    }
    let len_byte = buf[5];
    let used: usize = 7 + len_byte as usize;
    if buf.len() < used {
        return FrameStep::Incomplete;
    }
    let mut payload: Vec<u8> = Vec::new();
    let mut i: usize = 6;
    while i < used
        invariant
            6 <= i <= used,
            used <= buf.len(),
            used == 7 + buf@[5] as int,
            payload@ == buf@.subrange(6, i as int),
        decreases used - i,
    {
        payload.push(buf[i]);
        assert(buf@.subrange(6, i + 1) =~= buf@.subrange(6, i as int).push(buf@[i as int]));
        i = i + 1;
    }
    let mut crc = Crc8::new();
    crc.add_byte(len_byte);
    assert(seq![len_byte] + payload@.take(0) =~= seq![len_byte]);
    assert(crc_state(seq![len_byte]) == crc_step(crc_state(seq![len_byte].drop_last()), len_byte));
    assert(seq![len_byte].drop_last() =~= Seq::<u8>::empty());
    let mut j: usize = 0;
    while j < payload.len()
        invariant
            j <= payload.len(),
            crc.state() == crc_state(seq![len_byte] + payload@.take(j as int)),
        decreases payload.len() - j,
    {
        let ghost pre: Seq<u8> = seq![len_byte] + payload@.take(j as int);
        crc.add_byte(payload[j]);
        assert(seq![len_byte] + payload@.take(j + 1) =~= pre.push(payload@[j as int]));
        assert(pre.push(payload@[j as int]).drop_last() =~= pre);
        j = j + 1;
    }
    assert(seq![len_byte] + payload@.take(payload.len() as int) =~= seq![len_byte] + payload@);
    let c = crc.finish();
    if buf[4] == c {
        FrameStep::Ready { payload, used }
    } else {
        FrameStep::Bad { skip: used }
    }
}

/// A sealed frame decodes back to exactly its payload, whatever bytes
/// follow it in the buffer.
pub proof fn lemma_frame_round_trip(p: Seq<u8>, rest: Seq<u8>)
    requires
        1 <= p.len() <= 256,
    ensures
        spec_decode_frame(spec_frame(p) + rest) == (SpecFrameStep::Ready {
            payload: p,
            used: p.len() as int + 6,
        }),
{
    let s = spec_frame(p) + rest;
    assert(s[0] == 0x80);
    assert(s[1] == 0x25);
    assert(s[2] == 0x23);
    assert(s[3] == 0x2E);
    assert(s[4] == frame_crc(p));
    assert(s[5] == frame_len_byte(p));
    assert(s.len() == 6 + p.len() + rest.len());
    assert(7 + s[5] as int == p.len() as int + 6);
    assert(s.subrange(6, p.len() as int + 6) =~= p);
    assert(seq![s[5]] + s.subrange(6, p.len() as int + 6) =~= seq![frame_len_byte(p)] + p);
}

/// A frame whose checksum byte does not match the CRC-8 of its length byte
/// and payload is dropped whole: corruption is detected, not passed on.
pub proof fn lemma_frame_crc_mismatch(c: u8, p: Seq<u8>, rest: Seq<u8>)
    requires
        1 <= p.len() <= 256,
        c != frame_crc(p),
    ensures
        spec_decode_frame(frame_magic() + seq![c, frame_len_byte(p)] + p + rest)
            == (SpecFrameStep::Bad { skip: p.len() as int + 6 }),
{
    let s = frame_magic() + seq![c, frame_len_byte(p)] + p + rest;
    assert(s[0] == 0x80);
    assert(s[1] == 0x25);
    assert(s[2] == 0x23);
    assert(s[3] == 0x2E);
    assert(s[4] == c);
    assert(s[5] == frame_len_byte(p));
    assert(s.len() == 6 + p.len() + rest.len());
    assert(7 + s[5] as int == p.len() as int + 6);
    assert(s.subrange(6, p.len() as int + 6) =~= p);
    assert(seq![s[5]] + s.subrange(6, p.len() as int + 6) =~= seq![frame_len_byte(p)] + p);
}

/// The whole trip over the wire: a message, encoded and framed, decodes
/// back — whatever bytes follow the frame — to a payload that decodes to
/// exactly the message sent.
pub proof fn lemma_wire_round_trip(m: Netmessage, rest: Seq<u8>)
    ensures
        ({
            let p = spec_encode_netmessage(m);
            &&& spec_decode_frame(spec_frame(p) + rest) == (SpecFrameStep::Ready {
                payload: p,
                used: p.len() as int + 6,
            })
            &&& spec_decode_netmessage(p) == Some(m)
        }),
{
    lemma_encode_len(m);
    lemma_frame_round_trip(spec_encode_netmessage(m), rest);
    lemma_netmessage_round_trip(m);
}

} // verus!
