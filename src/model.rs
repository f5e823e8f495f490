//! Mathematical model of SLIP encoding and decoding.
use vstd::prelude::*;

verus! {

/// Frame terminator.
pub const END: u8 = 0xC0;

/// Escape marker.
pub const ESC: u8 = 0xDB;

/// Escaped form of `END` (follows `ESC`).
pub const ESC_END: u8 = 0xDC;

/// Escaped form of `ESC` (follows `ESC`).
pub const ESC_ESC: u8 = 0xDD;

/// Default maximum datagram size; the encoder splits once a datagram's content
/// reaches this size less two.
pub const MAX_DATAGRAM_SIZE: usize = 1066;

/// Content length at which the encoder closes a datagram.
pub open spec fn split_threshold() -> nat {
    (MAX_DATAGRAM_SIZE - 2) as nat
}


/// The bytes that stand for one payload byte in an encoded datagram.
pub open spec fn escape_byte(b: u8) -> Seq<u8> {
    if b == END {
        seq![ESC, ESC_END]
    } else if b == ESC {
        seq![ESC, ESC_ESC]
    } else {
        seq![b]
    }
}

/// The escaped form of a whole payload, ignoring datagram boundaries.
pub open spec fn escape_all(p: Seq<u8>) -> Seq<u8>
    decreases p.len(),
{
    if p.len() == 0 {
        Seq::empty()
    } else {
        escape_all(p.drop_last()) + escape_byte(p.last())
    }
}

/// Progress of the encoder: the datagrams closed so far and the content of the
/// one being built.
pub struct EncodeState {
    pub frames: Seq<Seq<u8>>,
    pub buf: Seq<u8>,
}

/// The encoder takes one payload byte: it appends its escaped form, and closes
/// the datagram once the content has reached the split threshold.
pub open spec fn encode_step(s: EncodeState, b: u8) -> EncodeState {
    let nb = s.buf + escape_byte(b);
    if nb.len() >= split_threshold() {
        EncodeState { frames: s.frames.push(nb.push(END)), buf: Seq::empty() }
    } else {
        EncodeState { frames: s.frames, buf: nb }
    }
}

/// The encoder's state after taking every byte of `p`, starting empty.
pub open spec fn encode_steps(p: Seq<u8>) -> EncodeState
    decreases p.len(),
{
    if p.len() == 0 {
        EncodeState { frames: Seq::empty(), buf: Seq::empty() }
    } else {
        encode_step(encode_steps(p.drop_last()), p.last())
    }
}

/// The datagrams that encoding `p` produces: those closed while scanning, then
/// what remains, always closed by `END`.
pub open spec fn encoded(p: Seq<u8>) -> Seq<Seq<u8>> {
    let s = encode_steps(p);
    s.frames.push(s.buf.push(END))
}

/// Progress of the decoder.
pub struct DecodeState {
    /// Payloads of the frames completed so far.
    pub frames: Seq<Seq<u8>>,
    /// Payload of the frame being read.
    pub buf: Seq<u8>,
    /// The previous byte was an escape marker awaiting its partner.
    pub escape_seen: bool,
    /// The last byte read closed a frame.
    pub ended: bool,
    /// Two escape markers in a row were met; nothing more is read.
    pub failed: bool,
}

/// The decoder before any byte.
pub open spec fn decode_start() -> DecodeState {
    DecodeState {
        frames: Seq::empty(),
        buf: Seq::empty(),
        escape_seen: false,
        ended: false,
        failed: false,
    }
}

/// The decoder reads one byte. The rules are permissive: an unescaped
/// `ESC_END` or `ESC_ESC` is dropped, a plain byte after `ESC` is taken as it
/// is and leaves the escape pending, a plain byte leaves the frame-boundary
/// flag as it was, and `END` closes the frame even after a dangling `ESC`.
pub open spec fn decode_step(s: DecodeState, b: u8) -> DecodeState {
    if s.failed {
        s
    } else if b == ESC {
        if s.escape_seen {
            DecodeState { failed: true, ..s }
        } else {
            DecodeState { escape_seen: true, ended: false, ..s }
        }
    } else if b == ESC_END {
        if s.escape_seen {
            DecodeState { buf: s.buf.push(END), escape_seen: false, ended: false, ..s }
        } else {
            s
        }
    } else if b == ESC_ESC {
        if s.escape_seen {
            DecodeState { buf: s.buf.push(ESC), escape_seen: false, ended: false, ..s }
        } else {
            s
        }
    } else if b == END {
        DecodeState {
            frames: s.frames.push(s.buf),
            buf: Seq::empty(),
            escape_seen: false,
            ended: true,
            ..s
        }
    } else {
        DecodeState { buf: s.buf.push(b), ..s }
    }
}

/// The decoder's state after reading every byte of `data`, starting from `s`.
pub open spec fn decode_steps(s: DecodeState, data: Seq<u8>) -> DecodeState
    decreases data.len(),
{
    if data.len() == 0 {
        s
    } else {
        decode_step(decode_steps(s, data.drop_last()), data.last())
    }
}

/// The decoder's state after reading all of `data` from the start.
pub open spec fn decode_run(data: Seq<u8>) -> DecodeState {
    decode_steps(decode_start(), data)
}

/// Decoding `data` succeeds: no double escape, and the input ends on a frame
/// boundary.
pub open spec fn decode_succeeds(data: Seq<u8>) -> bool {
    !decode_run(data).failed && decode_run(data).ended
}

/// Reading `a` then `b` is reading `a + b`.
pub proof fn lemma_decode_steps_append(s: DecodeState, a: Seq<u8>, b: Seq<u8>)
    ensures
        decode_steps(s, a + b) == decode_steps(decode_steps(s, a), b),
    decreases b.len(),
{
    if b.len() == 0 {
        assert(a + b =~= a);
    } else {
        assert((a + b).drop_last() =~= a + b.drop_last());
        assert((a + b).last() == b.last());
        lemma_decode_steps_append(s, a, b.drop_last());
    }
}

/// Reading a single byte is one decoder step.
pub proof fn lemma_decode_steps_one(s: DecodeState, b: u8)
    ensures
        decode_steps(s, seq![b]) == decode_step(s, b),
{
    assert(seq![b].drop_last() =~= Seq::<u8>::empty());
    assert(decode_steps(s, Seq::<u8>::empty()) == s);
}

/// A failed decoder reads nothing more.
pub proof fn lemma_decode_failed_stays(s: DecodeState, data: Seq<u8>)
    requires
        s.failed,
    ensures
        decode_steps(s, data) == s,
    decreases data.len(),
{
    if data.len() > 0 {
        lemma_decode_failed_stays(s, data.drop_last());
    }
}

/// Once decoding a prefix has failed, the whole input decodes to that state.
pub proof fn lemma_decode_failed_prefix(data: Seq<u8>, k: int)
    requires
        0 <= k <= data.len(),
        decode_run(data.take(k)).failed,
    ensures
        decode_run(data) == decode_run(data.take(k)),
{
    assert(data =~= data.take(k) + data.skip(k));
    lemma_decode_steps_append(decode_start(), data.take(k), data.skip(k));
    lemma_decode_failed_stays(decode_run(data.take(k)), data.skip(k));
}

} // verus!
