//! The framer: an append-only list of datagrams and a configurable size limit.
use vstd::prelude::*;

use crate::model::{
    decode_run, decode_step, decode_succeeds, encode_step, encode_steps, encoded, escape_byte,
    lemma_decode_failed_prefix, END, ESC, ESC_END, ESC_ESC, MAX_DATAGRAM_SIZE,
};

verus! {

/// Errors reported by the framer.
#[derive(Clone, Copy, Debug, PartialEq, Eq, Structural)]
pub enum SlipError {
    /// A maximum datagram size below two bytes was requested.
    InvalidConfig,
    /// Decoding met two escape markers in a row, or input that did not end on
    /// a frame boundary.
    InvalidSlipSequence,
}

impl SlipError {
    /// A human-readable description of the error.
    pub fn message(&self) -> (r: String)
        ensures
            *self == SlipError::InvalidConfig ==> r@ == "max_datagram_size must be at least 2"@,
            *self == SlipError::InvalidSlipSequence ==> r@ == "Invalid SLIP sequence"@,
    {
        match self {
            SlipError::InvalidConfig => "max_datagram_size must be at least 2".to_owned(),
            SlipError::InvalidSlipSequence => "Invalid SLIP sequence".to_owned(),
        }
    }
}

/// A SLIP framer holding the datagrams produced by encoding or decoding.
pub struct SlipDatagrams {
    max_datagram_size: usize,
    datagrams: Vec<Vec<u8>>,
}

impl View for SlipDatagrams {
    type V = Seq<Seq<u8>>;

    /// The datagrams held, in order.
    closed spec fn view(&self) -> Seq<Seq<u8>> {
        self.datagrams@.map_values(|d: Vec<u8>| d@)
    }
}

impl SlipDatagrams {
    pub const END: u8 = END;
    pub const ESC: u8 = ESC;
    pub const ESC_END: u8 = ESC_END;
    pub const ESC_ESC: u8 = ESC_ESC;
    pub const MAX_DATAGRAM_SIZE: usize = MAX_DATAGRAM_SIZE;

    /// The configured maximum datagram size.
    pub closed spec fn max_size(&self) -> nat {
        self.max_datagram_size as nat
    }

    /// A framer with no datagrams and the default size limit.
    pub fn new() -> (r: Self)
        ensures
            r@ == Seq::<Seq<u8>>::empty(),
            r.max_size() == MAX_DATAGRAM_SIZE,
    {
        let r = SlipDatagrams { datagrams: Vec::new(), max_datagram_size: MAX_DATAGRAM_SIZE };
        assert(r@ =~= Seq::<Seq<u8>>::empty());
        r
    }

    /// The number of datagrams held.
    pub fn datagram_count(&self) -> (r: usize)
        ensures
            r == self@.len(),
    {
        self.datagrams.len()
    }

    /// The datagram at `index`, or `None` when `index` is out of range.
    pub fn get_datagram(&self, index: usize) -> (r: Option<&Vec<u8>>)
        ensures
            index < self@.len() ==> (r matches Some(d) && d@ == self@[index as int]),
            index >= self@.len() ==> r is None,
    {
        if index < self.datagrams.len() {
            Some(&self.datagrams[index])
        } else {
            None
        }
    }

    /// Sets the maximum datagram size. Sizes below two are refused with
    /// `InvalidConfig`, leaving the framer unchanged. The encoder's split
    /// point stays at the fixed default.
    pub fn set_max_datagram_size(&mut self, size: usize) -> (r: Result<(), SlipError>)
        ensures
            final(self)@ == old(self)@,
            size < 2 ==> r == Err::<(), SlipError>(SlipError::InvalidConfig) && final(self).max_size()
                == old(self).max_size(),
            size >= 2 ==> r == Ok::<(), SlipError>(()) && final(self).max_size() == size,
    {
        if size < 2 {
            return Err(SlipError::InvalidConfig);
        }
        self.max_datagram_size = size;
        Ok(())
    }

    /// Appends one datagram.
    fn push_datagram(&mut self, datagram: Vec<u8>)
        ensures
            final(self)@ == old(self)@.push(datagram@),
            final(self).max_size() == old(self).max_size(),
    {
        let ghost held = self.datagrams@;
        self.datagrams.push(datagram);
        proof {
            assert(self.datagrams@.map_values(|d: Vec<u8>| d@) =~= held.map_values(
                |d: Vec<u8>| d@,
            ).push(datagram@));
        }
    }

    /// Encodes `data` into SLIP datagrams and appends them to those held.
    /// Each byte is escaped; a datagram is closed with `END` as soon as its
    /// content reaches `MAX_DATAGRAM_SIZE - 2` bytes (the fixed default, not
    /// the configured size), and what remains at the end, even nothing, is
    /// closed as a last datagram. Never fails.
    pub fn serialize(&mut self, data: &[u8]) -> (r: Result<(), SlipError>)
        ensures
            final(self)@ == old(self)@ + encoded(data@),
            final(self).max_size() == old(self).max_size(),
            r == Ok::<(), SlipError>(()),
    {
        let ghost start = self@;
        let mut datagram: Vec<u8> = Vec::new();
        let mut i: usize = 0;
        while i < data.len()
            invariant
                0 <= i <= data.len(),
                start == old(self)@,
                self@ == start + encode_steps(data@.take(i as int)).frames,
                self.max_size() == old(self).max_size(),
                datagram@ == encode_steps(data@.take(i as int)).buf,
            decreases data.len() - i,
        {
            let byte = data[i];
            let ghost before = encode_steps(data@.take(i as int));
            proof {
                assert(data@.take(i + 1).drop_last() =~= data@.take(i as int));
                assert(encode_steps(data@.take(i + 1)) == encode_step(before, byte));
            }
            if byte == END {
                datagram.push(ESC);
                datagram.push(ESC_END);
            } else if byte == ESC {
                datagram.push(ESC);
                datagram.push(ESC_ESC);
            } else {
                datagram.push(byte);
            }
            proof {
                assert(datagram@ =~= before.buf + escape_byte(byte));
            }
            if datagram.len() >= MAX_DATAGRAM_SIZE - 2 {
                datagram.push(END);
                let frame = datagram;
                datagram = Vec::new();
                self.push_datagram(frame);
                proof {
                    assert(self@ =~= start + encode_steps(data@.take(i + 1)).frames);
                    assert(datagram@ =~= encode_steps(data@.take(i + 1)).buf);
                }
            }
            i += 1;
        }
        proof {
            assert(data@.take(i as int) =~= data@);
        }
        datagram.push(END);
        self.push_datagram(datagram);
        proof {
            assert(self@ =~= start + encoded(data@));
        }
        Ok(())
    }

    /// All datagrams held, concatenated in order with no separators.
    pub fn get_data_vector(&self) -> (r: Vec<u8>)
        ensures
            r@ == self@.flatten(),
    {
        let mut stream: Vec<u8> = Vec::new();
        let mut k: usize = 0;
        while k < self.datagrams.len()
            invariant
                0 <= k <= self.datagrams.len(),
                stream@ == self@.take(k as int).flatten(),
            decreases self.datagrams.len() - k,
        {
            let datagram = &self.datagrams[k];
            let mut j: usize = 0;
            while j < datagram.len()
                invariant
                    0 <= k < self.datagrams.len(),
                    *datagram == self.datagrams[k as int],
                    0 <= j <= datagram.len(),
                    stream@ == self@.take(k as int).flatten() + datagram@.take(j as int),
                decreases datagram.len() - j,
            {
                stream.push(datagram[j]);
                proof {
                    assert(datagram@.take(j + 1) =~= datagram@.take(j as int).push(datagram@[j as int]));
                }
                j += 1;
            }
            proof {
                assert(self@.take(k + 1) =~= self@.take(k as int).push(self@[k as int]));
                self@.take(k as int).lemma_flatten_push(self@[k as int]);
                assert(datagram@.take(j as int) =~= datagram@);
            }
            k += 1;
        }
        proof {
            assert(self@.take(k as int) =~= self@);
        }
        stream
    }

    /// Decodes `data`, one or more SLIP frames, appending each completed
    /// frame's payload to the datagrams held. On success returns the
    /// concatenation of every datagram held, also those of earlier calls.
    /// Frames completed before an error stay appended.
    pub fn deserialize(&mut self, data: &[u8]) -> (r: Result<Vec<u8>, SlipError>)
        ensures
            final(self)@ == old(self)@ + decode_run(data@).frames,
            final(self).max_size() == old(self).max_size(),
            r is Ok <==> decode_succeeds(data@),
            r matches Ok(v) ==> v@ == final(self)@.flatten(),
            r matches Err(e) ==> e == SlipError::InvalidSlipSequence,
    {
        let ghost start = self@;
        let mut output: Vec<u8> = Vec::new();
        let mut escape_seen: bool = false;
        let mut last_datagram_ended: bool = false;
        let mut i: usize = 0;
        while i < data.len()
            invariant
                0 <= i <= data.len(),
                start == old(self)@,
                !decode_run(data@.take(i as int)).failed,
                self@ == start + decode_run(data@.take(i as int)).frames,
                self.max_size() == old(self).max_size(),
                output@ == decode_run(data@.take(i as int)).buf,
                escape_seen == decode_run(data@.take(i as int)).escape_seen,
                last_datagram_ended == decode_run(data@.take(i as int)).ended,
            decreases data.len() - i,
        {
            let byte = data[i];
            let ghost before = decode_run(data@.take(i as int));
            proof {
                assert(data@.take(i + 1).drop_last() =~= data@.take(i as int));
                assert(decode_run(data@.take(i + 1)) == decode_step(before, byte));
            }
            if byte == ESC {
                if escape_seen {
                    proof {
                        lemma_decode_failed_prefix(data@, i + 1);
                        assert(decode_run(data@).frames == before.frames);
                    }
                    return Err(SlipError::InvalidSlipSequence);
                }
                escape_seen = true;
                last_datagram_ended = false;
            } else if byte == ESC_END {
                if escape_seen {
                    output.push(END);
                    escape_seen = false;
                    last_datagram_ended = false;
                }
            } else if byte == ESC_ESC {
                if escape_seen {
                    output.push(ESC);
                    escape_seen = false;
                    last_datagram_ended = false;
                }
            } else if byte == END {
                let frame = output;
                output = Vec::new();
                self.push_datagram(frame);
                proof {
                    assert(self@ =~= start + before.frames.push(before.buf));
                }
                escape_seen = false;
                last_datagram_ended = true;
            } else {
                output.push(byte);
            }
            i += 1;
        }
        proof {
            assert(data@.take(i as int) =~= data@);
        }
        if !last_datagram_ended {
            return Err(SlipError::InvalidSlipSequence);
        }
        Ok(self.get_data_vector())
    }
}

} // verus!
