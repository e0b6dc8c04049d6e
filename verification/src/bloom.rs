//! The log-bloom wrapper: a fixed-size, 256-byte opaque value whose binary
//! codec is hand-written, because the aggregate header codec writes and
//! reads it as raw bytes with no length prefix.

use crate::codec::{push_bytes, read_fixed, zero_bytes, zeros, DecodeError};
use vstd::prelude::*;

verus! {

/// A 2048-bit logarithmic bloom filter value: exactly 256 bytes, compared
/// byte-wise, opaque to the header layer.
#[derive(PartialEq, Eq, Clone, Debug)]
pub struct Bloom {
    bytes: Vec<u8>,
}

impl View for Bloom {
    type V = Seq<u8>;

    closed spec fn view(&self) -> Seq<u8> {
        self.bytes@
    }
}

impl Bloom {
    /// Every bloom value holds exactly 256 bytes.
    pub open spec fn wf(&self) -> bool {
        self@.len() == 256
    }

    /// Wraps a raw 256-byte value.
    pub fn new(bytes: Vec<u8>) -> (b: Bloom)
        requires
            bytes@.len() == 256,
        ensures
            b@ == bytes@,
            b.wf(),
    {
        Bloom { bytes }
    }

    /// Writes the 256 raw bytes verbatim; the fixed width is implicit, so
    /// no length prefix is written.
    pub fn encode_to(&self, dest: &mut Vec<u8>)
        requires
            self.wf(),
        ensures
            final(dest)@ == old(dest)@ + self@,
    {
        push_bytes(dest, &self.bytes);
    }

    /// Encodes the bloom into a fresh buffer.
    pub fn encode(&self) -> (out: Vec<u8>)
        requires
            self.wf(),
        ensures
            out@ == self@,
    {
        let mut out: Vec<u8> = Vec::new();
        self.encode_to(&mut out);
        out
    }

    /// Reads exactly 256 bytes in a single fixed-width read; fails with
    /// `DecodeError` if and only if fewer than 256 bytes remain.
    pub fn decode(input: &[u8], pos: &mut usize) -> (r: Result<Bloom, DecodeError>)
        requires
            *old(pos) <= input@.len(),
        ensures
            match r {
                Ok(b) => {
                    &&& *old(pos) + 256 <= input@.len()
                    &&& b@ == input@.subrange(*old(pos) as int, *old(pos) + 256)
                    &&& b.wf()
                    &&& *final(pos) == *old(pos) + 256
                },
                Err(_) => {
                    &&& input@.len() - *old(pos) < 256
                    &&& *final(pos) == *old(pos)
                },
            },
    {
        match read_fixed(input, pos, 256) {
            Ok(v) => Ok(Bloom { bytes: v }),
            Err(e) => Err(e),
        }
    }
}

impl Default for Bloom {
    /// The default bloom value: all 256 bytes zero.
    fn default() -> (b: Bloom)
        ensures
            b@ == zeros(256),
            b.wf(),
    {
        Bloom { bytes: zero_bytes(256) }
    }
}

/// Law: a bloom value is encoded as its 256 bytes verbatim, so reading 256
/// bytes back from the front of the encoding yields exactly those bytes,
/// whatever follows them.
pub proof fn lemma_bloom_round_trip(b: Seq<u8>, rest: Seq<u8>)
    requires
        b.len() == 256,
    ensures
        (b + rest).len() >= 256,
        (b + rest).subrange(0, 256) == b,
{
    assert((b + rest).subrange(0, 256) =~= b);
}

} // verus!
