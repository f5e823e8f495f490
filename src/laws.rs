//! Properties of the SLIP encoder and decoder, proved over the model that the
//! framer's contracts use.
use vstd::prelude::*;

use crate::model::{
    decode_run, decode_start, decode_step, decode_steps, decode_succeeds, encode_step,
    encode_steps, encoded, escape_all, escape_byte, lemma_decode_steps_append, lemma_decode_steps_one, split_threshold,
    DecodeState, END, ESC, ESC_END, ESC_ESC,
};

verus! {

/// `p` holds no byte that the decoder drops when it stands unescaped.
pub open spec fn free_of_escape_partners(p: Seq<u8>) -> bool {
    forall|i: int| 0 <= i < p.len() ==> p[i] != ESC_END && p[i] != ESC_ESC
}

/// Datagram content with no `END`, in which every `ESC` is followed by
/// `ESC_END` or `ESC_ESC`.
pub open spec fn well_escaped(body: Seq<u8>) -> bool {
    forall|i: int|
        0 <= i < body.len() ==> #[trigger] body[i] != END && (body[i] == ESC ==> i + 1 < body.len() && (
        body[i + 1] == ESC_END || body[i + 1] == ESC_ESC))
}

/// A datagram whose one `END` is its last byte and whose content is well
/// escaped.
pub open spec fn well_framed(d: Seq<u8>) -> bool {
    d.len() >= 1 && d.last() == END && well_escaped(d.drop_last())
}

/// Reading the escaped form of one byte that is no escape partner appends that
/// byte to the current frame.
proof fn lemma_decode_escaped_byte(s: DecodeState, b: u8)
    requires
        !s.failed,
        !s.escape_seen,
        b != ESC_END,
        b != ESC_ESC,
    ensures
        decode_steps(s, escape_byte(b)).frames == s.frames,
        decode_steps(s, escape_byte(b)).buf == s.buf.push(b),
        !decode_steps(s, escape_byte(b)).escape_seen,
        !decode_steps(s, escape_byte(b)).failed,
{
    let e = escape_byte(b);
    if b == END || b == ESC {
        assert(e =~= seq![ESC] + seq![e[1]]);
        lemma_decode_steps_append(s, seq![ESC], seq![e[1]]);
        lemma_decode_steps_one(s, ESC);
        lemma_decode_steps_one(decode_step(s, ESC), e[1]);
    } else {
        lemma_decode_steps_one(s, b);
    }
}

/// Reading the escaped form of a payload free of escape partners appends the
/// payload to the current frame.
proof fn lemma_decode_escaped(s: DecodeState, q: Seq<u8>)
    requires
        !s.failed,
        !s.escape_seen,
        free_of_escape_partners(q),
    ensures
        decode_steps(s, escape_all(q)).frames == s.frames,
        decode_steps(s, escape_all(q)).buf == s.buf + q,
        !decode_steps(s, escape_all(q)).escape_seen,
        !decode_steps(s, escape_all(q)).failed,
    decreases q.len(),
{
    if q.len() == 0 {
        assert(s.buf + q =~= s.buf);
    } else {
        let init = q.drop_last();
        assert(free_of_escape_partners(init));
        lemma_decode_escaped(s, init);
        lemma_decode_steps_append(s, escape_all(init), escape_byte(q.last()));
        lemma_decode_escaped_byte(decode_steps(s, escape_all(init)), q.last());
        assert(s.buf + init + seq![q.last()] =~= s.buf + q);
    }
}

/// What the encoder has produced so far decodes, without error, to the
/// payload read so far.
proof fn lemma_encode_progress_decodes(p: Seq<u8>)
    requires
        free_of_escape_partners(p),
    ensures
        !decode_run(encode_steps(p).frames.flatten() + encode_steps(p).buf).failed,
        !decode_run(encode_steps(p).frames.flatten() + encode_steps(p).buf).escape_seen,
        decode_run(encode_steps(p).frames.flatten() + encode_steps(p).buf).frames.flatten()
            + decode_run(encode_steps(p).frames.flatten() + encode_steps(p).buf).buf == p,
    decreases p.len(),
{
    let e = encode_steps(p);
    let x = e.frames.flatten() + e.buf;
    if p.len() == 0 {
        assert(x =~= Seq::<u8>::empty());
        assert(decode_run(x) == decode_start());
        assert(decode_start().frames.flatten() + decode_start().buf =~= p);
    } else {
        let init = p.drop_last();
        let b = p.last();
        assert(free_of_escape_partners(init));
        lemma_encode_progress_decodes(init);
        let e0 = encode_steps(init);
        let x0 = e0.frames.flatten() + e0.buf;
        let ds = decode_run(x0);
        let eb = escape_byte(b);
        assert(e == encode_step(e0, b));
        lemma_decode_steps_append(decode_start(), x0, eb);
        lemma_decode_escaped_byte(ds, b);
        let t = decode_steps(ds, eb);
        assert(p =~= init.push(b));
        assert(ds.frames.flatten() + ds.buf.push(b) =~= (ds.frames.flatten() + ds.buf).push(b));
        if (e0.buf + eb).len() >= split_threshold() {
            e0.frames.lemma_flatten_push((e0.buf + eb).push(END));
            assert(x =~= (x0 + eb) + seq![END]);
            lemma_decode_steps_append(decode_start(), x0 + eb, seq![END]);
            lemma_decode_steps_one(t, END);
            assert(decode_run(x) == decode_step(t, END));
            t.frames.lemma_flatten_push(t.buf);
            assert(ds.frames.flatten() + ds.buf.push(b) + Seq::<u8>::empty() =~= p);
        } else {
            assert(x =~= x0 + eb);
            assert(ds.frames.flatten() + ds.buf.push(b) =~= p);
        }
    }
}

/// Round trip: decoding the concatenation of the datagrams that encoding `p`
/// produces succeeds, and the decoded frames concatenate back to `p`. This
/// holds for every payload without the bytes `ESC_END` and `ESC_ESC`, which
/// the decoder drops where they stand unescaped.
pub proof fn lemma_round_trip(p: Seq<u8>)
    requires
        free_of_escape_partners(p),
    ensures
        decode_succeeds(encoded(p).flatten()),
        decode_run(encoded(p).flatten()).frames.flatten() == p,
{
    let e = encode_steps(p);
    let x0 = e.frames.flatten() + e.buf;
    lemma_encode_progress_decodes(p);
    e.frames.lemma_flatten_push(e.buf.push(END));
    assert(encoded(p).flatten() =~= x0 + seq![END]);
    lemma_decode_steps_append(decode_start(), x0, seq![END]);
    let ds = decode_run(x0);
    lemma_decode_steps_one(ds, END);
    assert(decode_run(encoded(p).flatten()) == decode_step(ds, END));
    ds.frames.lemma_flatten_push(ds.buf);
}

/// Decoding two frames, each the escaped form of a payload closed by `END`,
/// succeeds with exactly those two payloads, in order.
pub proof fn lemma_decode_two_frames(q1: Seq<u8>, q2: Seq<u8>)
    requires
        free_of_escape_partners(q1),
        free_of_escape_partners(q2),
    ensures
        decode_succeeds(escape_all(q1).push(END) + escape_all(q2).push(END)),
        decode_run(escape_all(q1).push(END) + escape_all(q2).push(END)).frames == seq![q1, q2],
{
    let s0 = decode_start();
    let one = seq![END];
    lemma_decode_escaped(s0, q1);
    let s1 = decode_steps(s0, escape_all(q1));
    lemma_decode_steps_one(s1, END);
    assert(s0.buf + q1 =~= q1);
    lemma_decode_steps_append(s0, escape_all(q1), one);
    let s2 = decode_step(s1, END);
    assert(decode_steps(s0, escape_all(q1) + one) == s2);
    lemma_decode_escaped(s2, q2);
    let s3 = decode_steps(s2, escape_all(q2));
    lemma_decode_steps_one(s3, END);
    assert(s2.buf + q2 =~= q2);
    lemma_decode_steps_append(s2, escape_all(q2), one);
    let all = escape_all(q1).push(END) + escape_all(q2).push(END);
    assert(all =~= (escape_all(q1) + one) + (escape_all(q2) + one));
    lemma_decode_steps_append(s0, escape_all(q1) + one, escape_all(q2) + one);
    assert(decode_run(all) == decode_step(s3, END));
    assert(decode_run(all).frames =~= seq![q1, q2]);
}

/// Two well-escaped pieces concatenate to a well-escaped one.
proof fn lemma_well_escaped_append(a: Seq<u8>, c: Seq<u8>)
    requires
        well_escaped(a),
        well_escaped(c),
    ensures
        well_escaped(a + c),
{
    let ac = a + c;
    assert forall|i: int| 0 <= i < ac.len() implies #[trigger] ac[i] != END && (ac[i] == ESC ==> i
        + 1 < ac.len() && (ac[i + 1] == ESC_END || ac[i + 1] == ESC_ESC)) by {
        if i < a.len() {
            assert(a[i] != END);
            if a[i] == ESC {
                assert(ac[i + 1] == a[i + 1]);
            }
        } else {
            assert(c[i - a.len()] != END);
            if c[i - a.len()] == ESC {
                assert(ac[i + 1] == c[i - a.len() + 1]);
            }
        }
    }
}

/// Every datagram closed so far is well framed, and the content being built is
/// well escaped.
proof fn lemma_encode_progress_escaped(p: Seq<u8>)
    ensures
        forall|i: int|
            0 <= i < encode_steps(p).frames.len() ==> well_framed(
                #[trigger] encode_steps(p).frames[i],
            ),
        well_escaped(encode_steps(p).buf),
    decreases p.len(),
{
    if p.len() > 0 {
        let e0 = encode_steps(p.drop_last());
        let b = p.last();
        lemma_encode_progress_escaped(p.drop_last());
        let eb = escape_byte(b);
        assert(well_escaped(eb)) by {
            if b == END || b == ESC {
                assert(eb[0] == ESC && eb.len() == 2);
            }
        }
        lemma_well_escaped_append(e0.buf, eb);
        let nb = e0.buf + eb;
        if nb.len() >= split_threshold() {
            assert(nb.push(END).drop_last() =~= nb);
            let fs = e0.frames.push(nb.push(END));
            assert(forall|i: int| 0 <= i < e0.frames.len() ==> fs[i] == e0.frames[i]);
        }
    }
}

/// Every datagram that encoding produces ends with its one `END`, and every
/// `ESC` in it is followed by `ESC_END` or `ESC_ESC`.
pub proof fn lemma_encoded_well_framed(p: Seq<u8>)
    ensures
        forall|i: int| 0 <= i < encoded(p).len() ==> well_framed(#[trigger] encoded(p)[i]),
{
    let e = encode_steps(p);
    lemma_encode_progress_escaped(p);
    assert(e.buf.push(END).drop_last() =~= e.buf);
    assert(forall|i: int| 0 <= i < e.frames.len() ==> encoded(p)[i] == e.frames[i]);
}

/// The size of a datagram closed at the split threshold: the threshold and
/// `END`, or one byte more where the threshold fell inside an escape pair.
pub open spec fn split_sized(d: Seq<u8>) -> bool {
    d.len() == split_threshold() + 1 || (d.len() == split_threshold() + 2 && d[split_threshold()
        - 1] == ESC)
}

/// The content being built stays under the threshold; before the first split
/// it is the whole escaped payload; every closed datagram is split sized.
proof fn lemma_encode_progress_sizes(p: Seq<u8>)
    ensures
        encode_steps(p).buf.len() < split_threshold(),
        encode_steps(p).frames.len() == 0 ==> encode_steps(p).buf == escape_all(p),
        forall|i: int|
            0 <= i < encode_steps(p).frames.len() ==> split_sized(
                #[trigger] encode_steps(p).frames[i],
            ),
    decreases p.len(),
{
    if p.len() > 0 {
        let e0 = encode_steps(p.drop_last());
        let b = p.last();
        lemma_encode_progress_sizes(p.drop_last());
        let eb = escape_byte(b);
        let nb = e0.buf + eb;
        if nb.len() >= split_threshold() {
            let fs = e0.frames.push(nb.push(END));
            if eb.len() == 2 {
                assert(eb[0] == ESC);
                assert(nb.len() == split_threshold() + 1 ==> nb[split_threshold() - 1] == ESC);
            }
            assert(split_sized(nb.push(END)));
            assert(forall|i: int| 0 <= i < e0.frames.len() ==> fs[i] == e0.frames[i]);
        }
    }
}

/// Splitting: when the escaped payload reaches the split threshold, encoding
/// yields more than one datagram, and every datagram but the last holds
/// exactly the threshold's worth of content and `END`, or one byte more where
/// the threshold fell between an `ESC` and its partner.
pub proof fn lemma_split_sizes(p: Seq<u8>)
    ensures
        escape_all(p).len() >= split_threshold() ==> encoded(p).len() >= 2,
        forall|i: int| 0 <= i < encoded(p).len() - 1 ==> split_sized(#[trigger] encoded(p)[i]),
{
    let e = encode_steps(p);
    lemma_encode_progress_sizes(p);
    assert(forall|i: int| 0 <= i < e.frames.len() ==> encoded(p)[i] == e.frames[i]);
}

} // verus!
