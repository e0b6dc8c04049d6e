//! Block-header primitives: a fixed-size bloom filter wrapper, the block
//! header with its hand-written binary codec, and the generic header
//! capability interface consumed by the surrounding runtime framework.
//!
//! The encoded form writes each header field in a fixed declaration order;
//! the bloom field is written as 256 raw bytes because the wrapped bloom
//! value has no codec of its own. The order is load-bearing: it is the wire
//! and storage format, so encode and decode are proved exact inverses here.

pub mod bloom;
pub mod codec;

use crate::bloom::Bloom;
use crate::codec::{
    bytes_views, byte_seqs_wf, dec_byte_seqs, dec_fixed, dec_len_bytes, dec_u64, enc_byte_seqs,
    enc_len_bytes, le_bytes, lemma_pow256_values, push_byte_seqs, push_bytes,
    push_le, push_len_bytes, read_byte_seqs, read_fixed, read_le, read_len_bytes, zero_bytes,
    zeros, DecodeError,
};
use vstd::prelude::*;

verus! {

/// A 256-bit hash, held as its 32 raw bytes.
pub type Hash = Vec<u8>;

/// A 160-bit account address, held as its 20 raw bytes.
pub type Address = Vec<u8>;

/// A block height.
pub type BlockNumber = u64;

/// An ordered sequence of chain-specific log items attached to a header,
/// used for light-client proofs and cross-module signaling. Each item is
/// owned and interpreted by the consensus/runtime framework; this layer
/// carries it as an opaque byte string in the framework's encoded form.
#[derive(PartialEq, Eq, Clone, Debug)]
pub struct Digest {
    /// The log items, in order.
    pub logs: Vec<Vec<u8>>,
}

impl View for Digest {
    type V = Seq<Seq<u8>>;

    open spec fn view(&self) -> Seq<Seq<u8>> {
        bytes_views(self.logs@)
    }
}

impl Digest {
    /// The bounds the encoded form puts on a digest: the item count and
    /// each item's length must fit the compact length prefix.
    pub open spec fn wf(&self) -> bool {
        byte_seqs_wf(self@)
    }
}

impl Default for Digest {
    /// The empty digest.
    fn default() -> (d: Digest)
        ensures
            d@ == Seq::<Seq<u8>>::empty(),
            d.wf(),
    {
        let d = Digest { logs: Vec::new() };
        proof {
            assert(d@ =~= Seq::<Seq<u8>>::empty());
        }
        d
    }
}

/// The abstract value of a header: every field as a mathematical sequence
/// or integer, in the declaration order of the encoded form.
#[verifier::ext_equal]
pub ghost struct HeaderView {
    pub parent_hash: Seq<u8>,
    pub timestamp: u64,
    pub number: u64,
    pub author: Seq<u8>,
    pub transactions_root: Seq<u8>,
    pub uncles_hash: Seq<u8>,
    pub extra_data: Seq<u8>,
    pub state_root: Seq<u8>,
    pub receipts_root: Seq<u8>,
    pub log_bloom: Seq<u8>,
    pub gas_used: Seq<u8>,
    pub gas_limit: Seq<u8>,
    pub difficulty: Seq<u8>,
    pub seal: Seq<Seq<u8>>,
    pub digest: Seq<Seq<u8>>,
}

impl HeaderView {
    /// Well-formedness: each fixed-width field has its width, and every
    /// variable-length field fits its compact length prefix.
    pub open spec fn wf(self) -> bool {
        &&& self.parent_hash.len() == 32
        &&& self.author.len() == 20
        &&& self.transactions_root.len() == 32
        &&& self.uncles_hash.len() == 32
        &&& self.extra_data.len() <= 0xFFFFFFFF
        &&& self.state_root.len() == 32
        &&& self.receipts_root.len() == 32
        &&& self.log_bloom.len() == 256
        &&& self.gas_used.len() == 32
        &&& self.gas_limit.len() == 32
        &&& self.difficulty.len() == 32
        &&& byte_seqs_wf(self.seal)
        &&& byte_seqs_wf(self.digest)
    }
}

/// The header a factory construction starts from: zero hashes and integers,
/// empty byte strings and sequences.
pub open spec fn default_header_view() -> HeaderView {
    HeaderView {
        parent_hash: zeros(32),
        timestamp: 0,
        number: 0,
        author: zeros(20),
        transactions_root: zeros(32),
        uncles_hash: zeros(32),
        extra_data: Seq::empty(),
        state_root: zeros(32),
        receipts_root: zeros(32),
        log_bloom: zeros(256),
        gas_used: zeros(32),
        gas_limit: zeros(32),
        difficulty: zeros(32),
        seal: Seq::empty(),
        digest: Seq::empty(),
    }
}

/// The encoded form of a header: every field in declaration order. Hashes,
/// addresses and 256-bit integers are their raw bytes; timestamp and number
/// are eight little-endian bytes; the bloom is 256 raw bytes; extra data is
/// length-prefixed; seal and digest are counted sequences of length-prefixed
/// byte strings.
pub open spec fn header_enc(h: HeaderView) -> Seq<u8>
    recommends
        h.wf(),
{
    h.parent_hash + le_bytes(h.timestamp as nat, 8) + le_bytes(h.number as nat, 8) + h.author
        + h.transactions_root + h.uncles_hash + enc_len_bytes(h.extra_data) + h.state_root
        + h.receipts_root + h.log_bloom + h.gas_used + h.gas_limit + h.difficulty
        + enc_byte_seqs(h.seal) + enc_byte_seqs(h.digest)
}

/// Decodes a header from the front of `s`: each field strictly in the same
/// order as `header_enc` writes it, failing at the first field that cannot
/// be read.
pub open spec fn header_dec(s: Seq<u8>) -> Option<(HeaderView, int)> {
    match dec_fixed(s, 32) {
        None => None,
        Some(f1) => match dec_u64(s.skip(f1.1)) {
            None => None,
            Some(f2) => match dec_u64(s.skip(f1.1 + f2.1)) {
                None => None,
                Some(f3) => {
                    let o3 = f1.1 + f2.1 + f3.1;
                    match dec_fixed(s.skip(o3), 20) {
                        None => None,
                        Some(f4) => match dec_fixed(s.skip(o3 + f4.1), 32) {
                            None => None,
                            Some(f5) => {
                                let o5 = o3 + f4.1 + f5.1;
                                match dec_fixed(s.skip(o5), 32) {
                                    None => None,
                                    Some(f6) => match dec_len_bytes(s.skip(o5 + f6.1)) {
                                        None => None,
                                        Some(f7) => {
                                            let o7 = o5 + f6.1 + f7.1;
                                            match dec_fixed(s.skip(o7), 32) {
                                                None => None,
                                                Some(f8) => match dec_fixed(
                                                    s.skip(o7 + f8.1),
                                                    32,
                                                ) {
                                                    None => None,
                                                    Some(f9) => {
                                                        let o9 = o7 + f8.1 + f9.1;
                                                        header_dec_tail(
                                                            s,
                                                            o9,
                                                            f1.0,
                                                            f2.0,
                                                            f3.0,
                                                            f4.0,
                                                            f5.0,
                                                            f6.0,
                                                            f7.0,
                                                            f8.0,
                                                            f9.0,
                                                        )
                                                    },
                                                },
                                            }
                                        },
                                    },
                                }
                            },
                        },
                    }
                },
            },
        },
    }
}

/// The second half of `header_dec`: the fields from the bloom on, given the
/// offset reached and the fields already read.
pub open spec fn header_dec_tail(
    s: Seq<u8>,
    o9: int,
    parent_hash: Seq<u8>,
    timestamp: u64,
    number: u64,
    author: Seq<u8>,
    transactions_root: Seq<u8>,
    uncles_hash: Seq<u8>,
    extra_data: Seq<u8>,
    state_root: Seq<u8>,
    receipts_root: Seq<u8>,
) -> Option<(HeaderView, int)> {
    match dec_fixed(s.skip(o9), 256) {
        None => None,
        Some(f10) => match dec_fixed(s.skip(o9 + f10.1), 32) {
            None => None,
            Some(f11) => {
                let o11 = o9 + f10.1 + f11.1;
                match dec_fixed(s.skip(o11), 32) {
                    None => None,
                    Some(f12) => match dec_fixed(s.skip(o11 + f12.1), 32) {
                        None => None,
                        Some(f13) => {
                            let o13 = o11 + f12.1 + f13.1;
                            match dec_byte_seqs(s.skip(o13)) {
                                None => None,
                                Some(f14) => match dec_byte_seqs(s.skip(o13 + f14.1)) {
                                    None => None,
                                    Some(f15) => Some(
                                        (
                                            HeaderView {
                                                parent_hash,
                                                timestamp,
                                                number,
                                                author,
                                                transactions_root,
                                                uncles_hash,
                                                extra_data,
                                                state_root,
                                                receipts_root,
                                                log_bloom: f10.0,
                                                gas_used: f11.0,
                                                gas_limit: f12.0,
                                                difficulty: f13.0,
                                                seal: f14.0,
                                                digest: f15.0,
                                            },
                                            o13 + f14.1 + f15.1,
                                        ),
                                    ),
                                },
                            }
                        },
                    },
                }
            },
        },
    }
}

/// A block header.
///
/// Mirrors the specific fields of a chain block with additional room for
/// the consensus seal, which is non-specific, and a chain-specific digest.
/// All consensus-sensitive fields are private: they change only through the
/// named setters of the capability interface, so there is a single mutation
/// path for tooling that treats the header opaquely.
#[derive(PartialEq, Eq, Clone, Debug)]
pub struct Header {
    /// Parent hash.
    parent_hash: Vec<u8>,
    /// Block timestamp.
    timestamp: u64,
    /// Block number.
    number: u64,
    /// Block author, a 160-bit address.
    author: Vec<u8>,
    /// Transactions root.
    transactions_root: Vec<u8>,
    /// Block uncles hash.
    uncles_hash: Vec<u8>,
    /// Block extra data.
    extra_data: Vec<u8>,
    /// State root.
    state_root: Vec<u8>,
    /// Block receipts root.
    receipts_root: Vec<u8>,
    /// Block bloom.
    log_bloom: Bloom,
    /// Gas used for contract execution, a 256-bit integer as 32 bytes.
    gas_used: Vec<u8>,
    /// Block gas limit, a 256-bit integer as 32 bytes.
    gas_limit: Vec<u8>,
    /// Block difficulty, a 256-bit integer as 32 bytes.
    difficulty: Vec<u8>,
    /// Vector of consensus-engine-specific sealing fields.
    seal: Vec<Vec<u8>>,
    /// A chain-specific digest of data useful for light clients or
    /// referencing auxiliary data.
    pub digest: Digest,
}

impl View for Header {
    type V = HeaderView;

    closed spec fn view(&self) -> HeaderView {
        HeaderView {
            parent_hash: self.parent_hash@,
            timestamp: self.timestamp,
            number: self.number,
            author: self.author@,
            transactions_root: self.transactions_root@,
            uncles_hash: self.uncles_hash@,
            extra_data: self.extra_data@,
            state_root: self.state_root@,
            receipts_root: self.receipts_root@,
            log_bloom: self.log_bloom@,
            gas_used: self.gas_used@,
            gas_limit: self.gas_limit@,
            difficulty: self.difficulty@,
            seal: bytes_views(self.seal@),
            digest: self.digest@,
        }
    }
}

impl Header {
    /// Well-formedness of the concrete header, stated on its abstract value.
    pub open spec fn wf(&self) -> bool {
        self@.wf()
    }

    /// Encodes the header, appending every field to `dest` in the fixed
    /// declaration order; the bloom is written as its 256 raw bytes.
    pub fn encode_to(&self, dest: &mut Vec<u8>)
        requires
            self.wf(),
        ensures
            final(dest)@ == old(dest)@ + header_enc(self@),
    {
        proof {
            lemma_pow256_values();
        }
        let ghost d0: Seq<u8> = dest@;
        push_bytes(dest, &self.parent_hash);
        push_le(dest, self.timestamp, 8);
        push_le(dest, self.number, 8);
        push_bytes(dest, &self.author);
        push_bytes(dest, &self.transactions_root);
        push_bytes(dest, &self.uncles_hash);
        push_len_bytes(dest, &self.extra_data);
        push_bytes(dest, &self.state_root);
        push_bytes(dest, &self.receipts_root);
        self.log_bloom.encode_to(dest);
        push_bytes(dest, &self.gas_used);
        push_bytes(dest, &self.gas_limit);
        push_bytes(dest, &self.difficulty);
        push_byte_seqs(dest, &self.seal);
        push_byte_seqs(dest, &self.digest.logs);
        proof {
            assert(dest@ =~= d0 + header_enc(self@));
        }
    }

    /// Encodes the header into a fresh buffer.
    pub fn encode(&self) -> (out: Vec<u8>)
        requires
            self.wf(),
        ensures
            out@ == header_enc(self@),
    {
        let mut out: Vec<u8> = Vec::new();
        self.encode_to(&mut out);
        out
    }

    /// Decodes a header, reading each field strictly in declaration order;
    /// the bloom field is read as 256 raw bytes. Fails with `DecodeError`
    /// at the first field that cannot be read, and no partial header is
    /// returned on failure.
    #[verifier::rlimit(100)]
    #[verifier::spinoff_prover]
    pub fn decode(input: &[u8], pos: &mut usize) -> (r: Result<Header, DecodeError>)
        requires
            *old(pos) <= input@.len(),
        ensures
            match r {
                Ok(h) => {
                    &&& header_dec(input@.skip(*old(pos) as int)) == Some((
                        h@,
                        *final(pos) - *old(pos),
                    ))
                    &&& h.wf()
                    &&& *old(pos) <= *final(pos) <= input@.len()
                },
                Err(_) => header_dec(input@.skip(*old(pos) as int)) is None,
            },
    {
        let ghost p0: int = *pos as int;
        let ghost s: Seq<u8> = input@.skip(p0);
        let ilen: usize = input.len();

        let parent_hash: Vec<u8> = match read_fixed(input, pos, 32) {
            Ok(v) => v,
            Err(e) => {
                proof {
                    assert(header_dec(s) is None);
                }
                return Err(e);
            },
        };
        proof {
            assert(s.take(32) =~= input@.subrange(p0, p0 + 32));
            assert(dec_fixed(s, 32) == Some((parent_hash@, 32int)));
        }

        if ilen - *pos < 8 {
            proof {
                assert(dec_u64(s.skip(32)) is None);
                assert(header_dec(s) is None);
            }
            return Err(DecodeError);
        }
        let timestamp: u64 = read_le(input, *pos, 8);
        proof {
            lemma_pow256_values();
            assert(s.skip(32).take(8) =~= input@.subrange(p0 + 32, p0 + 40));
            assert(dec_u64(s.skip(32)) == Some((timestamp, 8int)));
        }
        *pos = *pos + 8;

        if ilen - *pos < 8 {
            proof {
                assert(dec_u64(s.skip(40)) is None);
                assert(header_dec(s) is None);
            }
            return Err(DecodeError);
        }
        let number: u64 = read_le(input, *pos, 8);
        proof {
            lemma_pow256_values();
            assert(s.skip(40).take(8) =~= input@.subrange(p0 + 40, p0 + 48));
            assert(dec_u64(s.skip(40)) == Some((number, 8int)));
        }
        *pos = *pos + 8;

        let author: Vec<u8> = match read_fixed(input, pos, 20) {
            Ok(v) => v,
            Err(e) => {
                proof {
                    assert(dec_fixed(s.skip(48), 20) is None);
                    assert(header_dec(s) is None);
                }
                return Err(e);
            },
        };
        proof {
            assert(s.skip(48).take(20) =~= input@.subrange(p0 + 48, p0 + 68));
            assert(dec_fixed(s.skip(48), 20) == Some((author@, 20int)));
        }

        let transactions_root: Vec<u8> = match read_fixed(input, pos, 32) {
            Ok(v) => v,
            Err(e) => {
                proof {
                    assert(dec_fixed(s.skip(68), 32) is None);
                    assert(header_dec(s) is None);
                }
                return Err(e);
            },
        };
        proof {
            assert(s.skip(68).take(32) =~= input@.subrange(p0 + 68, p0 + 100));
            assert(dec_fixed(s.skip(68), 32) == Some((transactions_root@, 32int)));
        }

        let uncles_hash: Vec<u8> = match read_fixed(input, pos, 32) {
            Ok(v) => v,
            Err(e) => {
                proof {
                    assert(dec_fixed(s.skip(100), 32) is None);
                    assert(header_dec(s) is None);
                }
                return Err(e);
            },
        };
        proof {
            assert(s.skip(100).take(32) =~= input@.subrange(p0 + 100, p0 + 132));
            assert(dec_fixed(s.skip(100), 32) == Some((uncles_hash@, 32int)));
        }

        proof {
            assert(input@.skip(p0 + 132) =~= s.skip(132));
        }
        let extra_data: Vec<u8> = match read_len_bytes(input, pos) {
            Ok(v) => v,
            Err(e) => {
                proof {
                    assert(header_dec(s) is None);
                }
                return Err(e);
            },
        };
        let ghost o7: int = *pos - p0;
        proof {
            assert(dec_len_bytes(s.skip(132)) == Some((extra_data@, o7 - 132)));
            crate::codec::lemma_len_bytes_sound(s.skip(132));
        }

        let state_root: Vec<u8> = match read_fixed(input, pos, 32) {
            Ok(v) => v,
            Err(e) => {
                proof {
                    assert(dec_fixed(s.skip(o7), 32) is None);
                    assert(header_dec(s) is None);
                }
                return Err(e);
            },
        };
        proof {
            assert(s.skip(o7).take(32) =~= input@.subrange(p0 + o7, p0 + o7 + 32));
            assert(dec_fixed(s.skip(o7), 32) == Some((state_root@, 32int)));
        }

        let receipts_root: Vec<u8> = match read_fixed(input, pos, 32) {
            Ok(v) => v,
            Err(e) => {
                proof {
                    assert(dec_fixed(s.skip(o7 + 32), 32) is None);
                    assert(header_dec(s) is None);
                }
                return Err(e);
            },
        };
        let ghost o9: int = o7 + 64;
        proof {
            assert(s.skip(o7 + 32).take(32) =~= input@.subrange(p0 + o7 + 32, p0 + o9));
            assert(dec_fixed(s.skip(o7 + 32), 32) == Some((receipts_root@, 32int)));
        }

        let log_bloom: Bloom = match Bloom::decode(input, pos) {
            Ok(b) => b,
            Err(e) => {
                proof {
                    assert(dec_fixed(s.skip(o9), 256) is None);
                    assert(header_dec_tail(
                        s,
                        o9,
                        parent_hash@,
                        timestamp,
                        number,
                        author@,
                        transactions_root@,
                        uncles_hash@,
                        extra_data@,
                        state_root@,
                        receipts_root@,
                    ) is None);
                    assert(header_dec(s) is None);
                }
                return Err(e);
            },
        };
        proof {
            assert(s.skip(o9).take(256) =~= input@.subrange(p0 + o9, p0 + o9 + 256));
            assert(dec_fixed(s.skip(o9), 256) == Some((log_bloom@, 256int)));
        }

        let gas_used: Vec<u8> = match read_fixed(input, pos, 32) {
            Ok(v) => v,
            Err(e) => {
                proof {
                    assert(dec_fixed(s.skip(o9 + 256), 32) is None);
                    assert(header_dec_tail(
                        s,
                        o9,
                        parent_hash@,
                        timestamp,
                        number,
                        author@,
                        transactions_root@,
                        uncles_hash@,
                        extra_data@,
                        state_root@,
                        receipts_root@,
                    ) is None);
                    assert(header_dec(s) is None);
                }
                return Err(e);
            },
        };
        proof {
            assert(s.skip(o9 + 256).take(32) =~= input@.subrange(p0 + o9 + 256, p0 + o9 + 288));
            assert(dec_fixed(s.skip(o9 + 256), 32) == Some((gas_used@, 32int)));
        }

        let gas_limit: Vec<u8> = match read_fixed(input, pos, 32) {
            Ok(v) => v,
            Err(e) => {
                proof {
                    assert(dec_fixed(s.skip(o9 + 288), 32) is None);
                    assert(header_dec_tail(
                        s,
                        o9,
                        parent_hash@,
                        timestamp,
                        number,
                        author@,
                        transactions_root@,
                        uncles_hash@,
                        extra_data@,
                        state_root@,
                        receipts_root@,
                    ) is None);
                    assert(header_dec(s) is None);
                }
                return Err(e);
            },
        };
        proof {
            assert(s.skip(o9 + 288).take(32) =~= input@.subrange(p0 + o9 + 288, p0 + o9 + 320));
            assert(dec_fixed(s.skip(o9 + 288), 32) == Some((gas_limit@, 32int)));
        }

        let difficulty: Vec<u8> = match read_fixed(input, pos, 32) {
            Ok(v) => v,
            Err(e) => {
                proof {
                    assert(dec_fixed(s.skip(o9 + 320), 32) is None);
                    assert(header_dec_tail(
                        s,
                        o9,
                        parent_hash@,
                        timestamp,
                        number,
                        author@,
                        transactions_root@,
                        uncles_hash@,
                        extra_data@,
                        state_root@,
                        receipts_root@,
                    ) is None);
                    assert(header_dec(s) is None);
                }
                return Err(e);
            },
        };
        let ghost o13: int = o9 + 352;
        proof {
            assert(s.skip(o9 + 320).take(32) =~= input@.subrange(p0 + o9 + 320, p0 + o13));
            assert(dec_fixed(s.skip(o9 + 320), 32) == Some((difficulty@, 32int)));
            assert(input@.skip(p0 + o13) =~= s.skip(o13));
        }

        let seal: Vec<Vec<u8>> = match read_byte_seqs(input, pos) {
            Ok(v) => v,
            Err(e) => {
                proof {
                    assert(header_dec_tail(
                        s,
                        o9,
                        parent_hash@,
                        timestamp,
                        number,
                        author@,
                        transactions_root@,
                        uncles_hash@,
                        extra_data@,
                        state_root@,
                        receipts_root@,
                    ) is None);
                    assert(header_dec(s) is None);
                }
                return Err(e);
            },
        };
        let ghost o14: int = *pos - p0;
        proof {
            assert(dec_byte_seqs(s.skip(o13)) == Some((bytes_views(seal@), o14 - o13)));
            crate::codec::lemma_byte_seqs_sound(s.skip(o13));
            assert(input@.skip(p0 + o14) =~= s.skip(o14));
        }

        let logs: Vec<Vec<u8>> = match read_byte_seqs(input, pos) {
            Ok(v) => v,
            Err(e) => {
                proof {
                    assert(header_dec_tail(
                        s,
                        o9,
                        parent_hash@,
                        timestamp,
                        number,
                        author@,
                        transactions_root@,
                        uncles_hash@,
                        extra_data@,
                        state_root@,
                        receipts_root@,
                    ) is None);
                    assert(header_dec(s) is None);
                }
                return Err(e);
            },
        };
        let ghost o15: int = *pos - p0;
        proof {
            assert(dec_byte_seqs(s.skip(o14)) == Some((bytes_views(logs@), o15 - o14)));
            crate::codec::lemma_byte_seqs_sound(s.skip(o14));
        }

        let h = Header {
            parent_hash,
            timestamp,
            number,
            author,
            transactions_root,
            uncles_hash,
            extra_data,
            state_root,
            receipts_root,
            log_bloom,
            gas_used,
            gas_limit,
            difficulty,
            seal,
            digest: Digest { logs },
        };
        proof {
            assert(header_dec_tail(
                s,
                o9,
                parent_hash@,
                timestamp,
                number,
                author@,
                transactions_root@,
                uncles_hash@,
                extra_data@,
                state_root@,
                receipts_root@,
            ) == Some((h@, o15)));
            assert(header_dec(s) == Some((h@, o15)));
        }
        Ok(h)
    }
}

/// Law: encode then decode is the identity. Decoding a buffer that starts
/// with the encoding of any well-formed header yields exactly that header
/// and consumes exactly its encoding, whatever bytes follow it.
#[verifier::rlimit(100)]
pub proof fn lemma_header_round_trip(h: HeaderView, rest: Seq<u8>)
    requires
        h.wf(),
    ensures
        header_dec(header_enc(h) + rest) == Some((h, header_enc(h).len() as int)),
{
    lemma_pow256_values();
    crate::codec::lemma_le_bytes_len(h.timestamp as nat, 8);
    crate::codec::lemma_le_bytes_len(h.number as nat, 8);
    let s = header_enc(h) + rest;
    let t15 = rest;
    let t14 = enc_byte_seqs(h.digest) + t15;
    let t13 = enc_byte_seqs(h.seal) + t14;
    let t12 = h.difficulty + t13;
    let t11 = h.gas_limit + t12;
    let t10 = h.gas_used + t11;
    let t9 = h.log_bloom + t10;
    let t8 = h.receipts_root + t9;
    let t7 = h.state_root + t8;
    let t6 = enc_len_bytes(h.extra_data) + t7;
    let t5 = h.uncles_hash + t6;
    let t4 = h.transactions_root + t5;
    let t3 = h.author + t4;
    let t2 = le_bytes(h.number as nat, 8) + t3;
    let t1 = le_bytes(h.timestamp as nat, 8) + t2;
    assert(s =~= h.parent_hash + t1);
    crate::codec::lemma_fixed_complete(h.parent_hash, t1, 32);
    assert((h.parent_hash + t1).skip(32) =~= t1);
    assert(s.skip(32) == t1);
    crate::codec::lemma_u64_complete(h.timestamp, t2);
    assert(t1.skip(8) =~= t2);
    vstd::seq_lib::lemma_seq_skip_of_skip::<u8>(s, 32, 8);
    assert(s.skip(40) == t2);
    crate::codec::lemma_u64_complete(h.number, t3);
    assert(t2.skip(8) =~= t3);
    vstd::seq_lib::lemma_seq_skip_of_skip::<u8>(s, 40, 8);
    assert(s.skip(48) == t3);
    crate::codec::lemma_fixed_complete(h.author, t4, 20);
    assert(t3.skip(20) =~= t4);
    vstd::seq_lib::lemma_seq_skip_of_skip::<u8>(s, 48, 20);
    assert(s.skip(68) == t4);
    crate::codec::lemma_fixed_complete(h.transactions_root, t5, 32);
    assert(t4.skip(32) =~= t5);
    vstd::seq_lib::lemma_seq_skip_of_skip::<u8>(s, 68, 32);
    assert(s.skip(100) == t5);
    crate::codec::lemma_fixed_complete(h.uncles_hash, t6, 32);
    assert(t5.skip(32) =~= t6);
    vstd::seq_lib::lemma_seq_skip_of_skip::<u8>(s, 100, 32);
    assert(s.skip(132) == t6);
    crate::codec::lemma_len_bytes_complete(h.extra_data, t7);
    let c7 = enc_len_bytes(h.extra_data).len() as int;
    let o7 = 132 + c7;
    assert(t6.skip(c7) =~= t7);
    vstd::seq_lib::lemma_seq_skip_of_skip::<u8>(s, 132, c7);
    assert(s.skip(o7) == t7);
    crate::codec::lemma_fixed_complete(h.state_root, t8, 32);
    assert(t7.skip(32) =~= t8);
    vstd::seq_lib::lemma_seq_skip_of_skip::<u8>(s, o7, 32);
    assert(s.skip(o7 + 32) == t8);
    crate::codec::lemma_fixed_complete(h.receipts_root, t9, 32);
    let o9 = o7 + 64;
    assert(t8.skip(32) =~= t9);
    vstd::seq_lib::lemma_seq_skip_of_skip::<u8>(s, o7 + 32, 32);
    assert(s.skip(o9) == t9);
    crate::codec::lemma_fixed_complete(h.log_bloom, t10, 256);
    assert(t9.skip(256) =~= t10);
    vstd::seq_lib::lemma_seq_skip_of_skip::<u8>(s, o9, 256);
    assert(s.skip(o9 + 256) == t10);
    crate::codec::lemma_fixed_complete(h.gas_used, t11, 32);
    assert(t10.skip(32) =~= t11);
    vstd::seq_lib::lemma_seq_skip_of_skip::<u8>(s, o9 + 256, 32);
    assert(s.skip(o9 + 288) == t11);
    crate::codec::lemma_fixed_complete(h.gas_limit, t12, 32);
    assert(t11.skip(32) =~= t12);
    vstd::seq_lib::lemma_seq_skip_of_skip::<u8>(s, o9 + 288, 32);
    assert(s.skip(o9 + 320) == t12);
    crate::codec::lemma_fixed_complete(h.difficulty, t13, 32);
    let o13 = o9 + 352;
    assert(t12.skip(32) =~= t13);
    vstd::seq_lib::lemma_seq_skip_of_skip::<u8>(s, o9 + 320, 32);
    assert(s.skip(o13) == t13);
    crate::codec::lemma_byte_seqs_complete(h.seal, t14);
    let c14 = enc_byte_seqs(h.seal).len() as int;
    let o14 = o13 + c14;
    assert(t13.skip(c14) =~= t14);
    vstd::seq_lib::lemma_seq_skip_of_skip::<u8>(s, o13, c14);
    assert(s.skip(o14) == t14);
    crate::codec::lemma_byte_seqs_complete(h.digest, t15);
    let c15 = enc_byte_seqs(h.digest).len() as int;
    let o15 = o14 + c15;
    assert((HeaderView {
        parent_hash: h.parent_hash,
        timestamp: h.timestamp,
        number: h.number,
        author: h.author,
        transactions_root: h.transactions_root,
        uncles_hash: h.uncles_hash,
        extra_data: h.extra_data,
        state_root: h.state_root,
        receipts_root: h.receipts_root,
        log_bloom: h.log_bloom,
        gas_used: h.gas_used,
        gas_limit: h.gas_limit,
        difficulty: h.difficulty,
        seal: h.seal,
        digest: h.digest,
    }) =~= h);
    assert(header_dec_tail(
        s,
        o9,
        h.parent_hash,
        h.timestamp,
        h.number,
        h.author,
        h.transactions_root,
        h.uncles_hash,
        h.extra_data,
        h.state_root,
        h.receipts_root,
    ) == Some((h, o15)));
    assert(header_enc(h).len() == o15);
    assert(header_dec(s) == Some((h, o15)));
}

/// Law: decoding is sound. Whenever a header is decoded from a buffer, the
/// bytes consumed are exactly the encoding of that header, and the header
/// is well-formed — so no buffer decodes successfully to wrong field values
/// by silent misalignment.
#[verifier::rlimit(100)]
pub proof fn lemma_header_decode_sound(s: Seq<u8>)
    ensures
        header_dec(s) matches Some(p) ==> {
            &&& p.0.wf()
            &&& 0 <= p.1 <= s.len()
            &&& s.take(p.1) == header_enc(p.0)
        },
{
    if header_dec(s) is Some {
        let p = header_dec(s)->Some_0;
        let h = p.0;
        lemma_pow256_values();
        crate::codec::lemma_u64_sound(s.skip(32));
        crate::codec::lemma_u64_sound(s.skip(40));
        crate::codec::lemma_len_bytes_sound(s.skip(132));
        let f7 = dec_len_bytes(s.skip(132))->Some_0;
        let o7 = 132 + f7.1;
        let o9 = o7 + 64;
        let o13 = o9 + 352;
        crate::codec::lemma_byte_seqs_sound(s.skip(o13));
        let f14 = dec_byte_seqs(s.skip(o13))->Some_0;
        let o14 = o13 + f14.1;
        crate::codec::lemma_byte_seqs_sound(s.skip(o14));
        let f15 = dec_byte_seqs(s.skip(o14))->Some_0;
        let o15 = o14 + f15.1;
        assert(s.take(40) =~= s.take(32) + s.skip(32).take(8));
        assert(s.take(48) =~= s.take(40) + s.skip(40).take(8));
        assert(s.take(68) =~= s.take(48) + s.skip(48).take(20));
        assert(s.take(100) =~= s.take(68) + s.skip(68).take(32));
        assert(s.take(132) =~= s.take(100) + s.skip(100).take(32));
        assert(s.take(o7) =~= s.take(132) + s.skip(132).take(f7.1));
        assert(s.take(o7 + 32) =~= s.take(o7) + s.skip(o7).take(32));
        assert(s.take(o9) =~= s.take(o7 + 32) + s.skip(o7 + 32).take(32));
        assert(s.take(o9 + 256) =~= s.take(o9) + s.skip(o9).take(256));
        assert(s.take(o9 + 288) =~= s.take(o9 + 256) + s.skip(o9 + 256).take(32));
        assert(s.take(o9 + 320) =~= s.take(o9 + 288) + s.skip(o9 + 288).take(32));
        assert(s.take(o13) =~= s.take(o9 + 320) + s.skip(o9 + 320).take(32));
        assert(s.take(o14) =~= s.take(o13) + s.skip(o13).take(f14.1));
        assert(s.take(o15) =~= s.take(o14) + s.skip(o14).take(f15.1));
        assert(s.take(p.1) == header_enc(h));
    }
}

/// Law: encodings are prefix-free. Two encoded headers followed by
/// arbitrary suffixes can only form the same byte stream if the headers,
/// and hence their encodings, are the same.
#[verifier::rlimit(100)]
#[verifier::spinoff_prover]
pub proof fn lemma_header_enc_prefix_free(
    h1: HeaderView,
    h2: HeaderView,
    r1: Seq<u8>,
    r2: Seq<u8>,
)
    requires
        h1.wf(),
        h2.wf(),
        header_enc(h1) + r1 == header_enc(h2) + r2,
    ensures
        h1 == h2,
        header_enc(h1).len() == header_enc(h2).len(),
{
    lemma_header_round_trip(h1, r1);
    lemma_header_round_trip(h2, r2);
}

/// Law: a truncated encoding never decodes. Cutting any number of bytes
/// off the end of an encoded header makes decoding fail outright; no
/// partially-filled header is ever produced.
#[verifier::rlimit(100)]
#[verifier::spinoff_prover]
pub proof fn lemma_header_truncation_fails(h: HeaderView, n: int)
    requires
        h.wf(),
        0 <= n < header_enc(h).len(),
    ensures
        header_dec(header_enc(h).take(n)) is None,
{
    let e = header_enc(h);
    let t = e.take(n);
    if header_dec(t) is Some {
        let p = header_dec(t)->Some_0;
        lemma_header_decode_sound(t);
        assert(t.take(p.1) =~= e.take(p.1));
        assert(e.take(p.1) + e.skip(p.1) =~= e);
        assert(e + Seq::<u8>::empty() =~= e);
        assert(header_enc(p.0) + e.skip(p.1) == header_enc(h) + Seq::<u8>::empty());
        lemma_header_enc_prefix_free(p.0, h, e.skip(p.1), Seq::<u8>::empty());
        assert(false);
    }
}

/// Law: corruption is detected. If a buffer has the length of a header's
/// encoding but different contents, then decoding it either fails or
/// yields a different header — swapped or corrupted fields can never
/// silently parse back to the original values.
pub proof fn lemma_header_corruption_detected(h: HeaderView, c: Seq<u8>)
    requires
        h.wf(),
        c.len() == header_enc(h).len(),
        c != header_enc(h),
    ensures
        header_dec(c) matches Some(p) ==> p.0 != h,
{
    if header_dec(c) is Some {
        let p = header_dec(c)->Some_0;
        lemma_header_decode_sound(c);
        if p.0 == h {
            assert(c.take(p.1) == header_enc(h));
            assert(p.1 == c.len());
            assert(c.take(p.1) =~= c);
            assert(false);
        }
    }
}

impl Default for Header {
    /// The all-default header: zero hashes, zero integers, zero bloom,
    /// empty extra data, empty seal and empty digest.
    fn default() -> (h: Header)
        ensures
            h@ == default_header_view(),
            h.wf(),
    {
        let h = Header {
            parent_hash: zero_bytes(32),
            timestamp: 0,
            number: 0,
            author: zero_bytes(20),
            transactions_root: zero_bytes(32),
            uncles_hash: zero_bytes(32),
            extra_data: Vec::new(),
            state_root: zero_bytes(32),
            receipts_root: zero_bytes(32),
            log_bloom: Bloom::default(),
            gas_used: zero_bytes(32),
            gas_limit: zero_bytes(32),
            difficulty: zero_bytes(32),
            seal: Vec::new(),
            digest: Digest { logs: Vec::new() },
        };
        proof {
            assert(h@ =~= default_header_view());
        }
        h
    }
}

/// The header capability interface the surrounding framework's generic
/// block-import and header-verification pipeline consumes: a constructor
/// and accessors/mutators for block number, parent hash, state root,
/// extrinsics root and digest, independent of the concrete field layout.
///
/// Every getter is pure; every setter replaces its field atomically and
/// leaves all other fields unchanged; none of these operations can fail on
/// a well-formed header.
pub trait HeaderT: View<V = HeaderView> + Sized {
    /// Builds a header with the four given fields and the digest applied
    /// and every remaining field at its type-appropriate default.
    fn new(
        number: BlockNumber,
        receipts_root: Hash,
        transactions_root: Hash,
        parent_hash: Hash,
        digest: Digest,
    ) -> (h: Self)
        requires
            receipts_root@.len() == 32,
            transactions_root@.len() == 32,
            parent_hash@.len() == 32,
            digest.wf(),
        ensures
            h@ == (HeaderView {
                number,
                receipts_root: receipts_root@,
                transactions_root: transactions_root@,
                parent_hash: parent_hash@,
                digest: digest@,
                ..default_header_view()
            }),
            h@.wf(),
    ;

    /// Returns a reference to the header number.
    fn number(&self) -> (number: &BlockNumber)
        ensures
            *number == self@.number,
    ;

    /// Sets the header number.
    fn set_number(&mut self, number: BlockNumber)
        ensures
            final(self)@ == (HeaderView { number, ..old(self)@ }),
    ;

    /// Returns a reference to the extrinsics root, which this header backs
    /// with its transactions root: the deliberate naming bridge between the
    /// framework's generic vocabulary and the chain-specific field.
    fn extrinsics_root(&self) -> (root: &Hash)
        ensures
            root@ == self@.transactions_root,
    ;

    /// Sets the extrinsics root, i.e. the backing transactions root.
    fn set_extrinsics_root(&mut self, root: Hash)
        requires
            root@.len() == 32,
        ensures
            final(self)@ == (HeaderView { transactions_root: root@, ..old(self)@ }),
    ;

    /// Returns a reference to the state root.
    fn state_root(&self) -> (root: &Hash)
        ensures
            root@ == self@.state_root,
    ;

    /// Sets the state root.
    fn set_state_root(&mut self, root: Hash)
        requires
            root@.len() == 32,
        ensures
            final(self)@ == (HeaderView { state_root: root@, ..old(self)@ }),
    ;

    /// Returns a reference to the parent hash.
    fn parent_hash(&self) -> (hash: &Hash)
        ensures
            hash@ == self@.parent_hash,
    ;

    /// Sets the parent hash.
    fn set_parent_hash(&mut self, hash: Hash)
        requires
            hash@.len() == 32,
        ensures
            final(self)@ == (HeaderView { parent_hash: hash@, ..old(self)@ }),
    ;

    /// Returns a reference to the digest.
    fn digest(&self) -> (digest: &Digest)
        ensures
            digest@ == self@.digest,
    ;

    /// Gets a mutable reference to the digest: whatever the caller leaves
    /// in it becomes the header's digest, and no other field changes.
    fn digest_mut(&mut self) -> (digest: &mut Digest)
        ensures
            (*digest)@ == old(self)@.digest,
            final(self)@ == (HeaderView { digest: (*final(digest))@, ..old(self)@ }),
    ;
}

impl HeaderT for Header {
    fn new(
        number: BlockNumber,
        receipts_root: Hash,
        transactions_root: Hash,
        parent_hash: Hash,
        digest: Digest,
    ) -> (h: Self)
    {
        let mut h = Header::default();
        h.number = number;
        h.receipts_root = receipts_root;
        h.transactions_root = transactions_root;
        h.parent_hash = parent_hash;
        h.digest = digest;
        proof {
            assert(h@ =~= (HeaderView {
                number,
                receipts_root: receipts_root@,
                transactions_root: transactions_root@,
                parent_hash: parent_hash@,
                digest: digest@,
                ..default_header_view()
            }));
        }
        h
    }

    fn number(&self) -> (number: &BlockNumber) {
        &self.number
    }

    fn set_number(&mut self, number: BlockNumber) {
        self.number = number;
    }

    fn extrinsics_root(&self) -> (root: &Hash) {
        &self.transactions_root
    }

    fn set_extrinsics_root(&mut self, root: Hash) {
        self.transactions_root = root;
    }

    fn state_root(&self) -> (root: &Hash) {
        &self.state_root
    }

    fn set_state_root(&mut self, root: Hash) {
        self.state_root = root;
    }

    fn parent_hash(&self) -> (hash: &Hash) {
        &self.parent_hash
    }

    fn set_parent_hash(&mut self, hash: Hash) {
        self.parent_hash = hash;
    }

    fn digest(&self) -> (digest: &Digest) {
        &self.digest
    }

    fn digest_mut(&mut self) -> (digest: &mut Digest) {
        &mut self.digest
    }
}

/// A block, as it stands on the chain: a header, its transactions and its
/// uncle headers. Out-of-scope collaborators of the header core; carried
/// here as plain data.
#[derive(Default, Debug, Clone, PartialEq)]
pub struct Block {
    /// The header of this block.
    pub header: Header,
    /// The transactions in this block.
    pub transactions: Vec<UnverifiedTransaction>,
    /// The uncles of this block.
    pub uncles: Vec<Header>,
}

/// A set of information describing an externally-originating message call
/// or contract creation operation. The 256-bit quantities are carried as
/// 32 little-endian bytes.
#[derive(Default, Debug, Clone, PartialEq, Eq)]
pub struct Transaction {
    /// Nonce.
    pub nonce: Vec<u8>,
    /// Gas price.
    pub gas_price: Vec<u8>,
    /// Gas paid up front for transaction execution.
    pub gas: Vec<u8>,
    /// Action, can be either call or contract create.
    pub action: Action,
    /// Transferred value.
    pub value: Vec<u8>,
    /// Transaction data.
    pub data: Vec<u8>,
}

/// Signed transaction information without a verified signature.
#[derive(Debug, Clone, Eq, PartialEq)]
pub struct UnverifiedTransaction {
    /// Plain transaction.
    unsigned: Transaction,
    /// The V field of the signature; the LS bit describes which half of the
    /// curve the point falls in, the MS bits which chain the transaction is
    /// for.
    v: u64,
    /// The R field of the signature; helps describe the point on the curve.
    r: Vec<u8>,
    /// The S field of the signature; helps describe the point on the curve.
    s: Vec<u8>,
    /// Hash of the transaction.
    hash: Vec<u8>,
}

/// Transaction action type.
#[derive(Debug, Clone, PartialEq, Eq)]
pub enum Action {
    /// Creates a new contract.
    Create,
    /// Calls the contract at the given address. In the case of a transfer,
    /// this is the receiver's address.
    Call(Address),
}

impl Default for Action {
    /// The default action is contract creation.
    fn default() -> (a: Action)
        ensures
            a == Action::Create,
    {
        Action::Create
    }
}

} // verus!
