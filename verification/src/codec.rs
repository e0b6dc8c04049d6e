//! Byte-level building blocks of the header codec: little-endian integers,
//! the compact length prefix, length-prefixed byte strings and sequences of
//! byte strings, each with a specification-level encoder and decoder and
//! proofs that the two are exact inverses.

use vstd::prelude::*;
use vstd::arithmetic::div_mod::{
    lemma_fundamental_div_mod, lemma_fundamental_div_mod_converse, lemma_multiply_divide_lt,
};
use vstd::slice::{slice_subrange, slice_to_vec};

verus! {

/// Error returned when decoding fails: the input ended before a field was
/// fully read, or a length prefix is malformed.
#[derive(Clone, Copy, PartialEq, Eq, Debug)]
pub struct DecodeError;

/// The all-zero byte sequence of length `n`.
pub open spec fn zeros(n: nat) -> Seq<u8> {
    Seq::new(n, |i: int| 0u8)
}

/// Builds the all-zero byte vector of length `n`.
pub fn zero_bytes(n: usize) -> (v: Vec<u8>)
    ensures
        v@ == zeros(n as nat),
{
    let mut v: Vec<u8> = Vec::new();
    let mut i: usize = 0;
    while i < n
        invariant
            i <= n,
            v@ == zeros(i as nat),
        decreases n - i,
    {
        v.push(0u8);
        i = i + 1;
        proof {
            assert(v@ =~= zeros(i as nat));
        }
    }
    v
}

/// 256 raised to the power `w`: the number of values a `w`-byte field can hold.
pub open spec fn pow256(w: nat) -> nat
    decreases w,
{
    if w == 0 {
        1
    } else {
        256 * pow256((w - 1) as nat)
    }
}

/// The concrete values of `pow256` up to eight bytes.
pub proof fn lemma_pow256_values()
    ensures
        pow256(0) == 1,
        pow256(1) == 0x100,
        pow256(2) == 0x10000,
        pow256(3) == 0x1000000,
        pow256(4) == 0x100000000,
        pow256(5) == 0x10000000000,
        pow256(6) == 0x1000000000000,
        pow256(7) == 0x100000000000000,
        pow256(8) == 0x10000000000000000,
{
    assert(pow256(0) == 1);
    assert(pow256(1) == 0x100);
    assert(pow256(2) == 0x10000);
    assert(pow256(3) == 0x1000000);
    assert(pow256(4) == 0x100000000);
    assert(pow256(5) == 0x10000000000);
    assert(pow256(6) == 0x1000000000000);
    assert(pow256(7) == 0x100000000000000);
    assert(pow256(8) == 0x10000000000000000);
}

/// Little-endian encoding of `x` in exactly `width` bytes.
pub open spec fn le_bytes(x: nat, width: nat) -> Seq<u8>
    decreases width,
{
    if width == 0 {
        Seq::empty()
    } else {
        seq![(x % 256) as u8] + le_bytes(x / 256, (width - 1) as nat)
    }
}

/// The value denoted by a little-endian byte sequence.
pub open spec fn le_value(s: Seq<u8>) -> nat
    decreases s.len(),
{
    if s.len() == 0 {
        0
    } else {
        s[0] as nat + 256 * le_value(s.skip(1))
    }
}

pub proof fn lemma_le_bytes_len(x: nat, width: nat)
    ensures
        le_bytes(x, width).len() == width,
    decreases width,
{
    if width > 0 {
        lemma_le_bytes_len(x / 256, (width - 1) as nat);
    }
}

/// A `w`-byte sequence always denotes a value below `pow256(w)`.
pub proof fn lemma_le_value_bound(s: Seq<u8>)
    ensures
        le_value(s) < pow256(s.len()),
    decreases s.len(),
{
    if s.len() > 0 {
        lemma_le_value_bound(s.skip(1));
    }
}

/// Reading back the little-endian encoding of `x` yields `x`.
pub proof fn lemma_le_value_of_bytes(x: nat, width: nat)
    requires
        x < pow256(width),
    ensures
        le_value(le_bytes(x, width)) == x,
    decreases width,
{
    if width > 0 {
        lemma_le_bytes_len(x / 256, (width - 1) as nat);
        assert(le_bytes(x, width).skip(1) =~= le_bytes(x / 256, (width - 1) as nat));
        lemma_multiply_divide_lt(x as int, 256, pow256((width - 1) as nat) as int);
        lemma_le_value_of_bytes(x / 256, (width - 1) as nat);
        lemma_fundamental_div_mod(x as int, 256);
    }
}

/// Re-encoding the value of a byte sequence yields the same bytes.
pub proof fn lemma_le_bytes_of_value(s: Seq<u8>)
    ensures
        le_bytes(le_value(s), s.len()) == s,
    decreases s.len(),
{
    if s.len() == 0 {
        assert(le_bytes(le_value(s), s.len()) =~= s);
    } else {
        lemma_le_bytes_of_value(s.skip(1));
        lemma_fundamental_div_mod_converse(
            le_value(s) as int,
            256,
            le_value(s.skip(1)) as int,
            s[0] as int,
        );
        assert(le_bytes(le_value(s), s.len()) =~= s);
    }
}

/// Reads `width <= 8` little-endian bytes starting at `pos`.
pub fn read_le(input: &[u8], pos: usize, width: usize) -> (x: u64)
    requires
        width <= 8,
        pos + width <= input@.len(),
    ensures
        x as nat == le_value(input@.subrange(pos as int, pos + width)),
        (x as nat) < pow256(width as nat),
{
    proof {
        lemma_pow256_values();
    }
    let ilen: usize = input.len();
    let mut x: u64 = 0;
    let mut i: usize = width;
    while i > 0
        invariant
            i <= width,
            width <= 8,
            ilen == input@.len(),
            pos + width <= ilen,
            x as nat == le_value(input@.subrange(pos + i, pos + width)),
            (x as nat) < pow256((width - i) as nat),
        decreases i,
    {
        proof {
            lemma_pow256_values();
        }
        i = i - 1;
        let b: u8 = *vstd::slice::slice_index_get(input, pos + i);
        proof {
            let s = input@.subrange(pos + i, pos + width);
            assert(s.skip(1) =~= input@.subrange(pos + i + 1, pos + width));
            assert(s[0] == input@[pos + i]);
        }
        x = x * 256 + (b as u64);
    }
    proof {
        assert(input@.subrange(pos as int, pos + width) == input@.subrange(
            pos + 0,
            pos + width,
        ));
    }
    x
}

/// Appends the `width <= 8` byte little-endian encoding of `x`.
pub fn push_le(dest: &mut Vec<u8>, x: u64, width: usize)
    requires
        width <= 8,
        (x as nat) < pow256(width as nat),
    ensures
        final(dest)@ == old(dest)@ + le_bytes(x as nat, width as nat),
{
    let ghost x0: nat = x as nat;
    let ghost d0: Seq<u8> = dest@;
    let mut x: u64 = x;
    let mut j: usize = 0;
    while j < width
        invariant
            j <= width,
            width <= 8,
            (x as nat) < pow256((width - j) as nat),
            d0 + le_bytes(x0, width as nat) =~= dest@ + le_bytes(x as nat, (width - j) as nat),
        decreases width - j,
    {
        let b: u8 = (x % 256) as u8;
        proof {
            let w: nat = (width - j) as nat;
            assert(le_bytes(x as nat, w) == seq![((x as nat) % 256) as u8] + le_bytes(
                (x as nat) / 256,
                (w - 1) as nat,
            ));
            lemma_multiply_divide_lt(x as int, 256, pow256((w - 1) as nat) as int);
            assert(dest@ + le_bytes(x as nat, w) =~= dest@.push(b) + le_bytes(
                (x as nat) / 256,
                (w - 1) as nat,
            ));
        }
        dest.push(b);
        x = x / 256;
        j = j + 1;
    }
    proof {
        assert(le_bytes(x as nat, 0) =~= Seq::<u8>::empty());
        assert(dest@ + le_bytes(x as nat, 0) =~= dest@);
        assert(dest@ =~= d0 + le_bytes(x0, width as nat));
    }
}

/// Reads exactly `n` raw bytes starting at `*pos`, or fails if fewer remain.
pub fn read_fixed(input: &[u8], pos: &mut usize, n: usize) -> (r: Result<Vec<u8>, DecodeError>)
    requires
        *old(pos) <= input@.len(),
    ensures
        match r {
            Ok(v) => {
                &&& *old(pos) + n <= input@.len()
                &&& v@ == input@.subrange(*old(pos) as int, *old(pos) + n)
                &&& *final(pos) == *old(pos) + n
            },
            Err(_) => {
                &&& input@.len() - *old(pos) < n
                &&& *final(pos) == *old(pos)
            },
        },
{
    if input.len() - *pos < n {
        Err(DecodeError)
    } else {
        let v = slice_to_vec(slice_subrange(input, *pos, *pos + n));
        *pos = *pos + n;
        Ok(v)
    }
}

/// Compact encoding of a length `v`, as the surrounding framework's codec
/// convention writes counts: the two low bits of the first byte select the
/// width (one, two or four bytes holding `4 * v + mode`, or a marker byte
/// followed by four raw little-endian bytes), and each width is reserved for
/// the range of values that needs it.
pub open spec fn enc_compact(v: u32) -> Seq<u8> {
    if v < 64 {
        seq![(v * 4) as u8]
    } else if v < 16384 {
        le_bytes((4 * v + 1) as nat, 2)
    } else if v < 1073741824 {
        le_bytes((4 * v + 2) as nat, 4)
    } else {
        seq![3u8] + le_bytes(v as nat, 4)
    }
}

/// Decodes a compact length from the front of `s`: the value and the number
/// of bytes consumed, or `None` if `s` is too short or the prefix is not the
/// canonical encoding of any value. Opaque: callers reason through the
/// completeness and soundness lemmas below and through `read_compact`.
#[verifier::opaque]
pub open spec fn dec_compact(s: Seq<u8>) -> Option<(u32, int)> {
    if s.len() == 0 {
        None
    } else {
        let m = s[0] % 4;
        if m == 0 {
            Some(((s[0] / 4) as u32, 1))
        } else if m == 1 {
            if s.len() < 2 {
                None
            } else {
                let x = le_value(s.take(2));
                if x / 4 >= 64 {
                    Some(((x / 4) as u32, 2))
                } else {
                    None
                }
            }
        } else if m == 2 {
            if s.len() < 4 {
                None
            } else {
                let x = le_value(s.take(4));
                if x / 4 >= 16384 {
                    Some(((x / 4) as u32, 4))
                } else {
                    None
                }
            }
        } else {
            if s[0] != 3 || s.len() < 5 {
                None
            } else {
                let x = le_value(s.subrange(1, 5));
                if x >= 1073741824 {
                    Some((x as u32, 5))
                } else {
                    None
                }
            }
        }
    }
}

/// Decoding starts again right after a compact prefix, whatever follows it.
pub proof fn lemma_compact_complete(v: u32, rest: Seq<u8>)
    ensures
        dec_compact(enc_compact(v) + rest) == Some((v, enc_compact(v).len() as int)),
{
    reveal(dec_compact);
    lemma_pow256_values();
    let e = enc_compact(v);
    let s = e + rest;
    if v < 64 {
        assert(s[0] == (v * 4) as u8);
        lemma_fundamental_div_mod_converse((v * 4) as int, 4, v as int, 0);
    } else if v < 16384 {
        let x = (4 * v + 1) as nat;
        lemma_le_bytes_len(x, 2);
        lemma_le_value_of_bytes(x, 2);
        assert(s.take(2) =~= le_bytes(x, 2));
        lemma_fundamental_div_mod_converse(x as int, 4, v as int, 1);
        assert(s[0] == le_bytes(x, 2)[0]);
        assert(le_bytes(x, 2)[0] == (x % 256) as u8);
        lemma_fundamental_div_mod(x as int, 256);
        lemma_fundamental_div_mod_converse(
            (x % 256) as int,
            4,
            ((x / 4) - 64 * (x / 256)) as int,
            1,
        );
        assert(s[0] % 4 == 1);
    } else if v < 1073741824 {
        let x = (4 * v + 2) as nat;
        lemma_le_bytes_len(x, 4);
        lemma_le_value_of_bytes(x, 4);
        assert(s.take(4) =~= le_bytes(x, 4));
        lemma_fundamental_div_mod_converse(x as int, 4, v as int, 2);
        assert(s[0] == le_bytes(x, 4)[0]);
        assert(le_bytes(x, 4)[0] == (x % 256) as u8);
        lemma_fundamental_div_mod(x as int, 256);
        lemma_fundamental_div_mod_converse(
            (x % 256) as int,
            4,
            ((x / 4) - 64 * (x / 256)) as int,
            2,
        );
        assert(s[0] % 4 == 2);
    } else {
        lemma_le_bytes_len(v as nat, 4);
        assert(s[0] == 3u8);
        assert(s.subrange(1, 5) =~= le_bytes(v as nat, 4));
        lemma_le_value_of_bytes(v as nat, 4);
    }
}

/// A successful compact decode consumed exactly the canonical encoding of
/// the value it returned.
pub proof fn lemma_compact_sound(s: Seq<u8>)
    ensures
        dec_compact(s) matches Some(p) ==> {
            &&& 1 <= p.1 <= s.len()
            &&& s.take(p.1) == enc_compact(p.0)
        },
{
    reveal(dec_compact);
    lemma_pow256_values();
    if s.len() == 0 {
        return;
    }
    let m = s[0] % 4;
    if m == 0 {
        lemma_fundamental_div_mod(s[0] as int, 4);
        assert(s.take(1) =~= seq![s[0]]);
        assert((((s[0] / 4) as u32) * 4) as u8 == s[0]);
    } else if m == 1 {
        if s.len() >= 2 {
            let t = s.take(2);
            let x = le_value(t);
            lemma_le_value_bound(t);
            if x / 4 >= 64 {
                let v = (x / 4) as u32;
                lemma_le_bytes_of_value(t);
                assert(t[0] == s[0]);
                assert(x == t[0] + 256 * le_value(t.skip(1)));
                lemma_fundamental_div_mod(t[0] as int, 4);
                lemma_fundamental_div_mod_converse(
                    x as int,
                    4,
                    (t[0] / 4 + 64 * le_value(t.skip(1))) as int,
                    1,
                );
                assert(x % 4 == 1);
                lemma_fundamental_div_mod(x as int, 4);
                assert(4 * (v as nat) + 1 == x);
                assert(v < 16384);
                assert(s.take(2) == enc_compact(v));
            }
        }
    } else if m == 2 {
        if s.len() >= 4 {
            let t = s.take(4);
            let x = le_value(t);
            lemma_le_value_bound(t);
            if x / 4 >= 16384 {
                let v = (x / 4) as u32;
                lemma_le_bytes_of_value(t);
                assert(t[0] == s[0]);
                assert(x == t[0] + 256 * le_value(t.skip(1)));
                lemma_fundamental_div_mod(t[0] as int, 4);
                lemma_fundamental_div_mod_converse(
                    x as int,
                    4,
                    (t[0] / 4 + 64 * le_value(t.skip(1))) as int,
                    2,
                );
                assert(x % 4 == 2);
                lemma_fundamental_div_mod(x as int, 4);
                assert(4 * (v as nat) + 2 == x);
                assert(v < 1073741824);
                assert(s.take(4) == enc_compact(v));
            }
        }
    } else {
        if s[0] == 3 && s.len() >= 5 {
            let t = s.subrange(1, 5);
            let x = le_value(t);
            lemma_le_value_bound(t);
            if x >= 1073741824 {
                lemma_le_bytes_of_value(t);
                assert(s.take(5) =~= seq![3u8] + t);
                assert(s.take(5) == enc_compact(x as u32));
            }
        }
    }
}

/// Reads a compact length from `*pos` on.
pub fn read_compact(input: &[u8], pos: &mut usize) -> (r: Result<u32, DecodeError>)
    requires
        *old(pos) <= input@.len(),
    ensures
        match r {
            Ok(v) => {
                &&& dec_compact(input@.skip(*old(pos) as int)) == Some((
                    v,
                    *final(pos) - *old(pos),
                ))
                &&& *old(pos) <= *final(pos) <= input@.len()
            },
            Err(_) => dec_compact(input@.skip(*old(pos) as int)) is None,
        },
{
    proof {
        reveal(dec_compact);
        lemma_pow256_values();
    }
    let ghost p0: int = *pos as int;
    let ghost s: Seq<u8> = input@.skip(p0);
    let ilen: usize = input.len();
    if ilen - *pos < 1 {
        return Err(DecodeError);
    }
    let b: u8 = *vstd::slice::slice_index_get(input, *pos);
    proof {
        assert(s[0] == b);
    }
    let m: u8 = b % 4;
    if m == 0 {
        *pos = *pos + 1;
        Ok((b / 4) as u32)
    } else if m == 1 {
        if ilen - *pos < 2 {
            return Err(DecodeError);
        }
        let x: u64 = read_le(input, *pos, 2);
        proof {
            assert(s.take(2) =~= input@.subrange(p0, p0 + 2));
        }
        let v: u64 = x / 4;
        if v >= 64 {
            *pos = *pos + 2;
            Ok(v as u32)
        } else {
            Err(DecodeError)
        }
    } else if m == 2 {
        if ilen - *pos < 4 {
            return Err(DecodeError);
        }
        let x: u64 = read_le(input, *pos, 4);
        proof {
            assert(s.take(4) =~= input@.subrange(p0, p0 + 4));
        }
        let v: u64 = x / 4;
        if v >= 16384 {
            *pos = *pos + 4;
            Ok(v as u32)
        } else {
            Err(DecodeError)
        }
    } else {
        if b != 3 {
            return Err(DecodeError);
        }
        if ilen - *pos < 5 {
            return Err(DecodeError);
        }
        let x: u64 = read_le(input, *pos + 1, 4);
        proof {
            assert(s.subrange(1, 5) =~= input@.subrange(p0 + 1, p0 + 5));
        }
        if x >= 1073741824 {
            *pos = *pos + 5;
            Ok(x as u32)
        } else {
            Err(DecodeError)
        }
    }
}

/// Appends the compact encoding of `v`.
pub fn push_compact(dest: &mut Vec<u8>, v: u32)
    ensures
        final(dest)@ == old(dest)@ + enc_compact(v),
{
    proof {
        lemma_pow256_values();
    }
    if v < 64 {
        dest.push((v * 4) as u8);
        proof {
            assert(dest@ =~= old(dest)@ + enc_compact(v));
        }
    } else if v < 16384 {
        push_le(dest, (v as u64) * 4 + 1, 2);
    } else if v < 1073741824 {
        push_le(dest, (v as u64) * 4 + 2, 4);
    } else {
        let ghost d0: Seq<u8> = dest@;
        dest.push(3u8);
        push_le(dest, v as u64, 4);
        proof {
            assert(dest@ =~= d0 + enc_compact(v));
        }
    }
}

/// A length-prefixed byte string: its compact length, then the raw bytes.
pub open spec fn enc_len_bytes(b: Seq<u8>) -> Seq<u8>
    recommends
        b.len() <= 0xFFFFFFFF,
{
    enc_compact(b.len() as u32) + b
}

/// Decodes a length-prefixed byte string from the front of `s`. Opaque:
/// callers reason through the lemmas below and through `read_len_bytes`.
#[verifier::opaque]
pub open spec fn dec_len_bytes(s: Seq<u8>) -> Option<(Seq<u8>, int)> {
    match dec_compact(s) {
        None => None,
        Some(p) => {
            if s.len() - p.1 >= p.0 {
                Some((s.subrange(p.1, p.1 + p.0), p.1 + p.0))
            } else {
                None
            }
        },
    }
}

pub proof fn lemma_len_bytes_complete(b: Seq<u8>, rest: Seq<u8>)
    requires
        b.len() <= 0xFFFFFFFF,
    ensures
        dec_len_bytes(enc_len_bytes(b) + rest) == Some((b, enc_len_bytes(b).len() as int)),
{
    reveal(dec_len_bytes);
    let e = enc_compact(b.len() as u32);
    let s = enc_len_bytes(b) + rest;
    assert(s =~= e + (b + rest));
    lemma_compact_complete(b.len() as u32, b + rest);
    assert(s.subrange(e.len() as int, e.len() + b.len() as int) =~= b);
}

pub proof fn lemma_len_bytes_sound(s: Seq<u8>)
    ensures
        dec_len_bytes(s) matches Some(p) ==> {
            &&& 1 <= p.1 <= s.len()
            &&& p.0.len() <= 0xFFFFFFFF
            &&& s.take(p.1) == enc_len_bytes(p.0)
        },
{
    reveal(dec_len_bytes);
    lemma_compact_sound(s);
    if dec_len_bytes(s) is Some {
        let q = dec_compact(s)->Some_0;
        let p = dec_len_bytes(s)->Some_0;
        assert(s.take(p.1) =~= s.take(q.1) + s.subrange(q.1, q.1 + q.0));
    }
}

/// Each byte string of `items`, length-prefixed, in order.
pub open spec fn enc_items(items: Seq<Seq<u8>>) -> Seq<u8>
    decreases items.len(),
{
    if items.len() == 0 {
        Seq::empty()
    } else {
        enc_len_bytes(items.first()) + enc_items(items.drop_first())
    }
}

/// A sequence of byte strings: its count, then each string length-prefixed.
pub open spec fn enc_byte_seqs(items: Seq<Seq<u8>>) -> Seq<u8>
    recommends
        byte_seqs_wf(items),
{
    enc_compact(items.len() as u32) + enc_items(items)
}

/// The bounds the compact length prefixes force on a sequence of byte strings.
pub open spec fn byte_seqs_wf(items: Seq<Seq<u8>>) -> bool {
    &&& items.len() <= 0xFFFFFFFF
    &&& forall|i: int| 0 <= i < items.len() ==> (#[trigger] items[i]).len() <= 0xFFFFFFFF
}

/// Decodes exactly `k` length-prefixed byte strings from the front of `s`.
pub open spec fn dec_items(s: Seq<u8>, k: nat) -> Option<(Seq<Seq<u8>>, int)>
    decreases k,
{
    if k == 0 {
        Some((Seq::empty(), 0))
    } else {
        match dec_len_bytes(s) {
            None => None,
            Some(p) => match dec_items(s.skip(p.1), (k - 1) as nat) {
                None => None,
                Some(q) => Some((seq![p.0] + q.0, p.1 + q.1)),
            },
        }
    }
}

/// Decodes a counted sequence of byte strings from the front of `s`.
/// Opaque: callers reason through the lemmas below and `read_byte_seqs`.
#[verifier::opaque]
pub open spec fn dec_byte_seqs(s: Seq<u8>) -> Option<(Seq<Seq<u8>>, int)> {
    match dec_compact(s) {
        None => None,
        Some(p) => match dec_items(s.skip(p.1), p.0 as nat) {
            None => None,
            Some(q) => Some((q.0, p.1 + q.1)),
        },
    }
}

pub proof fn lemma_items_complete(items: Seq<Seq<u8>>, rest: Seq<u8>)
    requires
        forall|i: int| 0 <= i < items.len() ==> (#[trigger] items[i]).len() <= 0xFFFFFFFF,
    ensures
        dec_items(enc_items(items) + rest, items.len()) == Some((
            items,
            enc_items(items).len() as int,
        )),
    decreases items.len(),
{
    if items.len() == 0 {
        assert(items =~= Seq::<Seq<u8>>::empty());
    } else {
        let hd = items.first();
        let tl = items.drop_first();
        let s = enc_items(items) + rest;
        assert(s =~= enc_len_bytes(hd) + (enc_items(tl) + rest));
        lemma_len_bytes_complete(hd, enc_items(tl) + rest);
        let c = enc_len_bytes(hd).len() as int;
        assert(s.skip(c) =~= enc_items(tl) + rest);
        lemma_items_complete(tl, rest);
        assert(seq![hd] + tl =~= items);
    }
}

pub proof fn lemma_items_sound(s: Seq<u8>, k: nat)
    ensures
        dec_items(s, k) matches Some(p) ==> {
            &&& p.0.len() == k
            &&& 0 <= p.1 <= s.len()
            &&& forall|i: int| 0 <= i < k ==> (#[trigger] p.0[i]).len() <= 0xFFFFFFFF
            &&& s.take(p.1) == enc_items(p.0)
        },
    decreases k,
{
    if k == 0 {
        if dec_items(s, k) is Some {
            assert(s.take(0) =~= enc_items(Seq::<Seq<u8>>::empty()));
        }
    } else {
        lemma_len_bytes_sound(s);
        if dec_len_bytes(s) is Some {
            let p = dec_len_bytes(s)->Some_0;
            lemma_items_sound(s.skip(p.1), (k - 1) as nat);
            if dec_items(s.skip(p.1), (k - 1) as nat) is Some {
                let q = dec_items(s.skip(p.1), (k - 1) as nat)->Some_0;
                let whole = seq![p.0] + q.0;
                assert(whole.first() == p.0);
                assert(whole.drop_first() =~= q.0);
                assert(s.take(p.1 + q.1) =~= s.take(p.1) + s.skip(p.1).take(q.1));
                assert(s.take(p.1 + q.1) =~= enc_len_bytes(p.0) + enc_items(q.0));
            }
        }
    }
}

pub proof fn lemma_byte_seqs_complete(items: Seq<Seq<u8>>, rest: Seq<u8>)
    requires
        byte_seqs_wf(items),
    ensures
        dec_byte_seqs(enc_byte_seqs(items) + rest) == Some((
            items,
            enc_byte_seqs(items).len() as int,
        )),
{
    reveal(dec_byte_seqs);
    let e = enc_compact(items.len() as u32);
    let s = enc_byte_seqs(items) + rest;
    assert(s =~= e + (enc_items(items) + rest));
    lemma_compact_complete(items.len() as u32, enc_items(items) + rest);
    assert(s.skip(e.len() as int) =~= enc_items(items) + rest);
    lemma_items_complete(items, rest);
}

pub proof fn lemma_byte_seqs_sound(s: Seq<u8>)
    ensures
        dec_byte_seqs(s) matches Some(p) ==> {
            &&& 0 <= p.1 <= s.len()
            &&& byte_seqs_wf(p.0)
            &&& s.take(p.1) == enc_byte_seqs(p.0)
        },
{
    reveal(dec_byte_seqs);
    lemma_compact_sound(s);
    if dec_compact(s) is Some {
        let c = dec_compact(s)->Some_0;
        lemma_items_sound(s.skip(c.1), c.0 as nat);
        if dec_items(s.skip(c.1), c.0 as nat) is Some {
            let q = dec_items(s.skip(c.1), c.0 as nat)->Some_0;
            assert(s.take(c.1 + q.1) =~= s.take(c.1) + s.skip(c.1).take(q.1));
            assert(s.take(c.1 + q.1) =~= enc_compact(c.0) + enc_items(q.0));
        }
    }
}

/// Decodes a fixed-width field of `n` raw bytes from the front of `s`.
pub open spec fn dec_fixed(s: Seq<u8>, n: int) -> Option<(Seq<u8>, int)> {
    if s.len() >= n {
        Some((s.take(n), n))
    } else {
        None
    }
}

/// Decodes a fixed-width little-endian 64-bit integer from the front of `s`.
pub open spec fn dec_u64(s: Seq<u8>) -> Option<(u64, int)> {
    if s.len() >= 8 {
        Some((le_value(s.take(8)) as u64, 8))
    } else {
        None
    }
}

pub proof fn lemma_fixed_complete(b: Seq<u8>, rest: Seq<u8>, n: int)
    requires
        b.len() == n,
    ensures
        dec_fixed(b + rest, n) == Some((b, n)),
{
    assert((b + rest).take(n) =~= b);
}

pub proof fn lemma_u64_complete(x: u64, rest: Seq<u8>)
    ensures
        dec_u64(le_bytes(x as nat, 8) + rest) == Some((x, 8int)),
{
    lemma_pow256_values();
    lemma_le_bytes_len(x as nat, 8);
    assert((le_bytes(x as nat, 8) + rest).take(8) =~= le_bytes(x as nat, 8));
    lemma_le_value_of_bytes(x as nat, 8);
}

pub proof fn lemma_u64_sound(s: Seq<u8>)
    ensures
        dec_u64(s) matches Some(p) ==> s.take(8) == le_bytes(p.0 as nat, 8),
{
    if s.len() >= 8 {
        lemma_pow256_values();
        lemma_le_value_bound(s.take(8));
        lemma_le_bytes_of_value(s.take(8));
    }
}

/// The views of a sequence of byte vectors.
pub open spec fn bytes_views(vs: Seq<Vec<u8>>) -> Seq<Seq<u8>> {
    Seq::new(vs.len(), |i: int| vs[i]@)
}

/// Appends all of `src` to `dest`.
pub fn push_bytes(dest: &mut Vec<u8>, src: &Vec<u8>)
    ensures
        final(dest)@ == old(dest)@ + src@,
{
    let mut i: usize = 0;
    while i < src.len()
        invariant
            i <= src@.len(),
            dest@ == old(dest)@ + src@.take(i as int),
        decreases src@.len() - i,
    {
        dest.push(src[i]);
        i = i + 1;
        proof {
            assert(dest@ =~= old(dest)@ + src@.take(i as int));
        }
    }
    proof {
        assert(src@.take(src@.len() as int) =~= src@);
    }
}

/// Appends `enc_items` of one more item at the end.
pub proof fn lemma_enc_items_snoc(items: Seq<Seq<u8>>, x: Seq<u8>)
    ensures
        enc_items(items.push(x)) == enc_items(items) + enc_len_bytes(x),
    decreases items.len(),
{
    if items.len() == 0 {
        assert(items.push(x).drop_first() =~= Seq::<Seq<u8>>::empty());
        assert(items.push(x).first() == x);
        assert(enc_items(items.push(x)) == enc_len_bytes(x) + enc_items(
            Seq::<Seq<u8>>::empty(),
        ));
        assert(enc_items(items.push(x)) =~= enc_items(items) + enc_len_bytes(x));
    } else {
        assert(items.push(x).drop_first() =~= items.drop_first().push(x));
        assert(items.push(x).first() == items.first());
        lemma_enc_items_snoc(items.drop_first(), x);
        assert(enc_items(items.push(x)) =~= enc_items(items) + enc_len_bytes(x));
    }
}

/// Appends the length-prefixed encoding of `b`.
pub fn push_len_bytes(dest: &mut Vec<u8>, b: &Vec<u8>)
    requires
        b@.len() <= 0xFFFFFFFF,
    ensures
        final(dest)@ == old(dest)@ + enc_len_bytes(b@),
{
    let ghost d0: Seq<u8> = dest@;
    push_compact(dest, b.len() as u32);
    push_bytes(dest, b);
    proof {
        assert(dest@ =~= d0 + enc_len_bytes(b@));
    }
}

/// Appends the counted encoding of a sequence of byte strings.
pub fn push_byte_seqs(dest: &mut Vec<u8>, items: &Vec<Vec<u8>>)
    requires
        byte_seqs_wf(bytes_views(items@)),
    ensures
        final(dest)@ == old(dest)@ + enc_byte_seqs(bytes_views(items@)),
{
    let ghost d0: Seq<u8> = dest@;
    let ghost dv: Seq<Seq<u8>> = bytes_views(items@);
    push_compact(dest, items.len() as u32);
    let mut i: usize = 0;
    while i < items.len()
        invariant
            i <= items@.len(),
            dv == bytes_views(items@),
            byte_seqs_wf(dv),
            dest@ == d0 + enc_compact(items@.len() as u32) + enc_items(dv.take(i as int)),
        decreases items@.len() - i,
    {
        proof {
            assert(dv[i as int] == items@[i as int]@);
        }
        push_len_bytes(dest, &items[i]);
        i = i + 1;
        proof {
            lemma_enc_items_snoc(dv.take(i - 1), dv[i - 1]);
            assert(dv.take(i as int) =~= dv.take(i - 1).push(dv[i - 1]));
            assert(dest@ =~= d0 + enc_compact(items@.len() as u32) + enc_items(
                dv.take(i as int),
            ));
        }
    }
    proof {
        assert(dv.take(items@.len() as int) =~= dv);
        assert(dest@ =~= d0 + enc_byte_seqs(dv));
    }
}

/// Reads one length-prefixed byte string from `*pos` on.
pub fn read_len_bytes(input: &[u8], pos: &mut usize) -> (r: Result<Vec<u8>, DecodeError>)
    requires
        *old(pos) <= input@.len(),
    ensures
        match r {
            Ok(v) => {
                &&& dec_len_bytes(input@.skip(*old(pos) as int)) == Some((
                    v@,
                    *final(pos) - *old(pos),
                ))
                &&& *old(pos) <= *final(pos) <= input@.len()
            },
            Err(_) => dec_len_bytes(input@.skip(*old(pos) as int)) is None,
        },
{
    proof {
        reveal(dec_len_bytes);
    }
    let ghost p0: int = *pos as int;
    let ghost s: Seq<u8> = input@.skip(p0);
    let n32: u32 = match read_compact(input, pos) {
        Ok(n) => n,
        Err(e) => {
            return Err(e);
        },
    };
    let ghost c: int = *pos - p0;
    let n: usize = n32 as usize;
    match read_fixed(input, pos, n) {
        Ok(v) => {
            proof {
                assert(s.subrange(c, c + n as int) =~= input@.subrange(
                    p0 + c,
                    p0 + c + n as int,
                ));
            }
            Ok(v)
        },
        Err(e) => Err(e),
    }
}

/// One unfolding of `dec_items` for a positive count.
pub proof fn lemma_dec_items_step(s: Seq<u8>, k: nat)
    requires
        k > 0,
    ensures
        dec_len_bytes(s) is None ==> dec_items(s, k) is None,
        dec_len_bytes(s) matches Some(p) ==> dec_items(s, k) == (match dec_items(
            s.skip(p.1),
            (k - 1) as nat,
        ) {
            None => None,
            Some(q) => Some((seq![p.0] + q.0, p.1 + q.1)),
        }),
{
}

/// Reads exactly `count` length-prefixed byte strings from `*pos` on.
#[verifier::rlimit(100)]
#[verifier::spinoff_prover]
fn read_items(input: &[u8], pos: &mut usize, count: u32) -> (r: Result<
    Vec<Vec<u8>>,
    DecodeError,
>)
    requires
        *old(pos) <= input@.len(),
    ensures
        match r {
            Ok(v) => {
                &&& dec_items(input@.skip(*old(pos) as int), count as nat) == Some((
                    bytes_views(v@),
                    *final(pos) - *old(pos),
                ))
                &&& *old(pos) <= *final(pos) <= input@.len()
            },
            Err(_) => dec_items(input@.skip(*old(pos) as int), count as nat) is None,
        },
{
    let ghost p0: int = *pos as int;
    let ghost s0: Seq<u8> = input@.skip(p0);
    let mut out: Vec<Vec<u8>> = Vec::new();
    let mut j: u32 = 0;
    proof {
        assert(bytes_views(out@) =~= Seq::<Seq<u8>>::empty());
    }
    while j < count
        invariant
            j <= count,
            *pos <= input@.len(),
            p0 == *old(pos) as int,
            p0 <= *pos,
            s0 == input@.skip(p0),
            bytes_views(out@).len() == j as int,
            ({
                let cur = input@.skip(*pos as int);
                dec_items(s0, count as nat) == (match dec_items(cur, (count - j) as nat) {
                    None => None,
                    Some(q) => Some((bytes_views(out@) + q.0, (*pos - p0) + q.1)),
                })
            }),
        decreases count - j,
    {
        let ghost pos_a: int = *pos as int;
        let ghost cur_a: Seq<u8> = input@.skip(pos_a);
        let ghost ov: Seq<Seq<u8>> = bytes_views(out@);
        let ghost k: nat = (count - j) as nat;
        proof {
            assert(dec_items(s0, count as nat) == (match dec_items(cur_a, k) {
                None => None,
                Some(q) => Some((ov + q.0, (pos_a - p0) + q.1)),
            }));
            lemma_dec_items_step(cur_a, k);
        }
        let item: Vec<u8> = match read_len_bytes(input, pos) {
            Ok(v) => v,
            Err(e) => {
                proof {
                    assert(dec_items(s0, count as nat) is None);
                }
                return Err(e);
            },
        };
        let ghost iv: Seq<u8> = item@;
        let ghost c_item: int = *pos - pos_a;
        out.push(item);
        j = j + 1;
        proof {
            assert(bytes_views(out@) =~= ov.push(iv));
            let cur_b = input@.skip(*pos as int);
            assert(cur_b =~= cur_a.skip(c_item));
            if dec_items(cur_b, (k - 1) as nat) is Some {
                let q2 = dec_items(cur_b, (k - 1) as nat)->Some_0;
                assert(dec_items(cur_a, k) == Some((seq![iv] + q2.0, c_item + q2.1)));
                assert(ov + (seq![iv] + q2.0) =~= ov.push(iv) + q2.0);
            }
        }
    }
    proof {
        let cur = input@.skip(*pos as int);
        assert(dec_items(cur, (count - j) as nat) == Some((Seq::<Seq<u8>>::empty(), 0int)));
        assert(bytes_views(out@) + Seq::<Seq<u8>>::empty() =~= bytes_views(out@));
    }
    Ok(out)
}

/// Reads a counted sequence of length-prefixed byte strings from `*pos` on.
pub fn read_byte_seqs(input: &[u8], pos: &mut usize) -> (r: Result<Vec<Vec<u8>>, DecodeError>)
    requires
        *old(pos) <= input@.len(),
    ensures
        match r {
            Ok(v) => {
                &&& dec_byte_seqs(input@.skip(*old(pos) as int)) == Some((
                    bytes_views(v@),
                    *final(pos) - *old(pos),
                ))
                &&& *old(pos) <= *final(pos) <= input@.len()
            },
            Err(_) => dec_byte_seqs(input@.skip(*old(pos) as int)) is None,
        },
{
    proof {
        reveal(dec_byte_seqs);
    }
    let ghost p0: int = *pos as int;
    let ghost s: Seq<u8> = input@.skip(p0);
    let count: u32 = match read_compact(input, pos) {
        Ok(n) => n,
        Err(e) => {
            return Err(e);
        },
    };
    let ghost c0: int = *pos - p0;
    proof {
        assert(input@.skip(*pos as int) =~= s.skip(c0));
    }
    match read_items(input, pos, count) {
        Ok(v) => Ok(v),
        Err(e) => Err(e),
    }
}

} // verus!
