//! The length-prefix codec: minimal big-endian numbers, length headers,
//! and the header decoder that classifies a prefix byte.

use vstd::prelude::*;
use vstd::slice::slice_subrange;
use vstd::arithmetic::div_mod::{lemma_div_decreases, lemma_fundamental_div_mod,
    lemma_multiply_divide_lt};

use crate::error::Error;

verus! {

/// The kind of payload a length header announces.
#[derive(Debug, PartialEq, Eq, Structural, Clone, Copy)]
pub enum ExpectedType {
    /// The payload is a byte string.
    StringType,
    /// The payload is a list of further encoded items.
    ListType,
}

/// Where a payload starts, how long it is, and what kind it is.
///
/// `offset` counts the header bytes before the payload and `length` the
/// payload bytes, both relative to the start of the slice the header was
/// decoded from; the payload is `slice[offset .. offset + length]`.
#[derive(Debug)]
pub struct DecodeLengthResult {
    /// Number of header bytes before the payload.
    pub offset: usize,
    /// Payload byte count.
    pub length: usize,
    /// Whether the payload is a string or a list.
    pub expected_type: ExpectedType,
}

/// The unsigned value of a big-endian byte sequence.
pub open spec fn be_value(s: Seq<u8>) -> nat
    decreases s.len(),
{
    if s.len() == 0 {
        0nat
    } else {
        (be_value(s.drop_last()) * 256 + s.last()) as nat
    }
}

/// The minimal big-endian bytes of `v`: no leading zero byte, and zero
/// itself is the empty sequence.
pub open spec fn spec_be_bytes(v: nat) -> Seq<u8>
    decreases v,
{
    if v == 0 {
        Seq::empty()
    } else {
        spec_be_bytes(v / 256).push((v % 256) as u8)
    }
}

/// 256 to the power `n`: the number of byte strings of length `n`.
pub open spec fn pow256(n: nat) -> nat
    decreases n,
{
    if n == 0 {
        1nat
    } else {
        256 * pow256((n - 1) as nat)
    }
}

/// The length header that precedes a payload of `l` bytes: one byte
/// `l + offset` for short payloads, otherwise a marker byte followed by
/// the minimal big-endian bytes of `l`.
pub open spec fn spec_encode_length(l: u64, offset: u8) -> Seq<u8> {
    if l < 56 {
        seq![(l + offset) as u8]
    } else {
        seq![(55 + offset + spec_be_bytes(l as nat).len()) as u8] + spec_be_bytes(l as nat)
    }
}

/// Classifies the first byte of `s` and yields `(offset, length, kind)`
/// for the payload it announces, or the error the malformed input earns.
pub open spec fn spec_decode_length(s: Seq<u8>) -> Result<(int, int, ExpectedType), Error> {
    if s.len() == 0 {
        Err(Error::EmptyBuffer)
    } else {
        let p = s[0];
        if p <= 0x7f {
            Ok((0, 1, ExpectedType::StringType))
        } else if p <= 0xb7 {
            if s.len() > p - 0x80 {
                Ok((1, p - 0x80, ExpectedType::StringType))
            } else {
                Err(Error::StringPrefixTooSmall)
            }
        } else if p <= 0xbf {
            let ll = p - 0xb7;
            if s.len() > ll && s.len() > ll + be_value(s.subrange(1, 1 + ll)) {
                Ok((1 + ll, be_value(s.subrange(1, 1 + ll)) as int, ExpectedType::StringType))
            } else {
                Err(Error::StringPrefixTooSmall)
            }
        } else if p <= 0xf7 {
            if s.len() > p - 0xc0 {
                Ok((1, p - 0xc0, ExpectedType::ListType))
            } else {
                Err(Error::ListPrefixTooSmall)
            }
        } else {
            let ll = p - 0xf7;
            if s.len() > ll && s.len() > ll + be_value(s.subrange(1, 1 + ll)) {
                Ok((1 + ll, be_value(s.subrange(1, 1 + ll)) as int, ExpectedType::ListType))
            } else {
                Err(Error::ListPrefixTooSmall)
            }
        }
    }
}

/// A successfully decoded header always fits inside the slice it came
/// from, consumes at least one byte, and a list header is never the
/// zero-offset single-byte form.
pub proof fn lemma_decode_length_fits(s: Seq<u8>)
    ensures
        spec_decode_length(s) matches Ok(t) ==> {
            &&& 0 <= t.0
            &&& 0 <= t.1
            &&& 1 <= t.0 + t.1 <= s.len()
            &&& (t.2 == ExpectedType::ListType ==> 1 <= t.0)
        },
{
}

/// Powers of 256 never decrease.
pub proof fn lemma_pow256_increases(a: nat, b: nat)
    requires
        a <= b,
    ensures
        pow256(a) <= pow256(b),
    decreases b - a,
{
    if a < b {
        lemma_pow256_increases(a, (b - 1) as nat);
    }
}

/// 256 to the eighth power, written out.
pub proof fn lemma_pow256_8()
    ensures
        pow256(8) == 0x1_0000_0000_0000_0000,
{
    assert(pow256(0) == 1);
    assert(pow256(1) == 256);
    assert(pow256(2) == 0x1_0000);
    assert(pow256(3) == 0x100_0000);
    assert(pow256(4) == 0x1_0000_0000);
    assert(pow256(5) == 0x100_0000_0000);
    assert(pow256(6) == 0x1_0000_0000_0000);
    assert(pow256(7) == 0x100_0000_0000_0000);
    assert(pow256(8) == 0x1_0000_0000_0000_0000);
}

/// Reading the minimal big-endian bytes of `v` back gives `v`.
pub proof fn lemma_be_bytes_value(v: nat)
    ensures
        be_value(spec_be_bytes(v)) == v,
    decreases v,
{
    if v > 0 {
        lemma_div_decreases(v as int, 256);
        lemma_be_bytes_value(v / 256);
        let bs = spec_be_bytes(v / 256);
        let last = (v % 256) as u8;
        assert(bs.push(last).drop_last() =~= bs);
        lemma_fundamental_div_mod(v as int, 256);
    }
}

/// A value below 256^n takes at most `n` minimal big-endian bytes.
pub proof fn lemma_be_bytes_len(v: nat, n: nat)
    requires
        v < pow256(n),
    ensures
        spec_be_bytes(v).len() <= n,
    decreases n,
{
    if v > 0 {
        assert(pow256(0) == 1);
        assert(n >= 1) by {
            if n == 0 {
            }
        }
        assert(pow256(n) == 256 * pow256((n - 1) as nat));
        lemma_multiply_divide_lt(v as int, 256, pow256((n - 1) as nat) as int);
        lemma_div_decreases(v as int, 256);
        lemma_be_bytes_len(v / 256, (n - 1) as nat);
    }
}

/// Reads a big-endian unsigned integer of at most eight bytes; an empty
/// input is not decodable (it does not stand for zero).
pub fn to_integer(b: &[u8]) -> (r: Option<u64>)
    requires
        b@.len() <= 8,
    ensures
        match r {
            None => b@.len() == 0,
            Some(v) => b@.len() > 0 && v == be_value(b@),
        },
{
    if b.is_empty() {
        return None;
    }
    let ghost total: Seq<u8> = b@;
    let mut v: u64 = 0;
    let mut i: usize = 0;
    proof {
        assert(b@.subrange(0, 0) =~= Seq::<u8>::empty());
    }
    while i < b.len()
        invariant
            b@ == total,
            total.len() <= 8,
            i <= total.len(),
            v == be_value(total.subrange(0, i as int)),
            v < pow256(i as nat),
        decreases total.len() - i,
    {
        proof {
            lemma_pow256_8();
            lemma_pow256_increases((i + 1) as nat, 8);
            assert(pow256((i + 1) as nat) == 256 * pow256(i as nat));
            assert(total.subrange(0, i + 1).drop_last() =~= total.subrange(0, i as int));
        }
        v = v * 256 + (b[i] as u64);
        i = i + 1;
    }
    proof {
        assert(total.subrange(0, total.len() as int) =~= total);
    }
    Some(v)
}

/// Writes `v` as its minimal big-endian bytes; zero becomes the empty
/// byte string, the convention RLP uses for lengths and numbers alike.
pub fn encode_number(v: u64) -> (r: Vec<u8>)
    ensures
        r@ == spec_be_bytes(v as nat),
    decreases v,
{
    if v == 0 {
        Vec::new()
    } else {
        proof {
            lemma_div_decreases(v as int, 256);
        }
        let mut r = encode_number(v / 256);
        r.push((v % 256) as u8);
        r
    }
}

/// Writes the length header for a payload of `l` bytes. `offset` is the
/// base byte of the prefix range: `0x80` for strings, `0xc0` for lists.
/// Lengths at `u64::MAX` are reserved as too long to represent and are
/// rejected up front.
pub fn encode_length(l: u64, offset: u8) -> (r: Vec<u8>)
    requires
        offset == 0x80 || offset == 0xc0,
        l < u64::MAX,
    ensures
        r@ == spec_encode_length(l, offset),
{
    if l < 56 {
        let mut r: Vec<u8> = Vec::new();
        r.push((l as u8) + offset);
        proof {
            assert(r@ =~= spec_encode_length(l, offset));
        }
        r
    } else {
        let mut bytes = encode_number(l);
        proof {
            lemma_pow256_8();
            lemma_be_bytes_len(l as nat, 8);
        }
        let magic: u8 = 55 + offset + (bytes.len() as u8);
        let mut r: Vec<u8> = Vec::new();
        r.push(magic);
        r.append(&mut bytes);
        proof {
            assert(r@ =~= spec_encode_length(l, offset));
        }
        r
    }
}

/// Decodes the length header at the start of `input` and reports where
/// the payload starts, how long it is, and whether it is a string or a
/// list, exactly as `spec_decode_length` classifies it.
pub fn decode_length(input: &[u8]) -> (r: Result<DecodeLengthResult, Error>)
    ensures
        match spec_decode_length(input@) {
            Ok(t) => r matches Ok(d) && d.offset == t.0 && d.length == t.1
                && d.expected_type == t.2,
            Err(e) => r matches Err(a) && a == e,
        },
{
    if input.is_empty() {
        return Err(Error::EmptyBuffer);
    }
    let prefix = input[0];
    if prefix <= 0x7f {
        Ok(DecodeLengthResult { offset: 0, length: 1, expected_type: ExpectedType::StringType })
    } else if prefix <= 0xb7 {
        let str_len: usize = (prefix - 0x80) as usize;
        if input.len() > str_len {
            Ok(DecodeLengthResult {
                offset: 1,
                length: str_len,
                expected_type: ExpectedType::StringType,
            })
        } else {
            Err(Error::StringPrefixTooSmall)
        }
    } else if prefix <= 0xbf {
        // The subtraction cannot underflow here, but the guard is kept
        // deliberately checked rather than assumed-safe.
        let len_of_len: usize = match prefix.checked_sub(0xb7) {
            Some(l) => l as usize,
            None => {
                return Err(Error::WrongPrefix);
            },
        };
        if input.len() <= len_of_len {
            return Err(Error::StringPrefixTooSmall);
        }
        let len_bytes = slice_subrange(input, 1, 1 + len_of_len);
        match to_integer(len_bytes) {
            Some(payload_len) => {
                if ((input.len() - 1 - len_of_len) as u64) >= payload_len {
                    Ok(DecodeLengthResult {
                        offset: 1 + len_of_len,
                        length: payload_len as usize,
                        expected_type: ExpectedType::StringType,
                    })
                } else {
                    Err(Error::StringPrefixTooSmall)
                }
            },
            None => Err(Error::StringPrefixTooSmall),
        }
    } else if prefix <= 0xf7 {
        let list_len: usize = (prefix - 0xc0) as usize;
        if input.len() > list_len {
            Ok(DecodeLengthResult {
                offset: 1,
                length: list_len,
                expected_type: ExpectedType::ListType,
            })
        } else {
            Err(Error::ListPrefixTooSmall)
        }
    } else {
        let len_of_len: usize = (prefix - 0xf7) as usize;
        if input.len() <= len_of_len {
            return Err(Error::ListPrefixTooSmall);
        }
        let len_bytes = slice_subrange(input, 1, 1 + len_of_len);
        match to_integer(len_bytes) {
            Some(payload_len) => {
                if ((input.len() - 1 - len_of_len) as u64) >= payload_len {
                    Ok(DecodeLengthResult {
                        offset: 1 + len_of_len,
                        length: payload_len as usize,
                        expected_type: ExpectedType::ListType,
                    })
                } else {
                    Err(Error::ListPrefixTooSmall)
                }
            },
            None => Err(Error::ListPrefixTooSmall),
        }
    }
}

/// Law: decoding a freshly encoded length header recovers the header
/// length, the payload length and the kind, for every representable
/// payload length, as soon as at least `l` bytes of payload follow the
/// header.
pub proof fn lemma_length_round_trip(l: u64, offset: u8, rest: Seq<u8>)
    requires
        offset == 0x80 || offset == 0xc0,
        l < u64::MAX,
        rest.len() >= l,
    ensures
        ({
            let header = spec_encode_length(l, offset);
            let kind = if offset == 0x80 {
                ExpectedType::StringType
            } else {
                ExpectedType::ListType
            };
            spec_decode_length(header + rest)
                == Ok::<(int, int, ExpectedType), Error>((header.len() as int, l as int, kind))
        }),
{
    let header = spec_encode_length(l, offset);
    let s = header + rest;
    if l < 56 {
        assert(s[0] == (l + offset) as u8);
    } else {
        let bytes = spec_be_bytes(l as nat);
        let n = bytes.len();
        lemma_pow256_8();
        lemma_be_bytes_len(l as nat, 8);
        assert(n >= 1);
        let magic = (55 + offset + n) as u8;
        assert(s[0] == magic);
        assert(s.subrange(1, 1 + n as int) =~= bytes);
        lemma_be_bytes_value(l as nat);
        assert(s.len() == 1 + n + rest.len());
    }
}

/// Law: a list header whose declared payload exceeds the bytes that
/// follow it fails with `ListPrefixTooSmall`.
pub proof fn lemma_list_prefix_too_small(s: Seq<u8>)
    requires
        s.len() > 0,
        0xc0 <= s[0],
        ({
            let p = s[0];
            if p <= 0xf7 {
                s.len() <= p - 0xc0
            } else {
                s.len() <= p - 0xf7 || s.len() <= p - 0xf7 + be_value(
                    s.subrange(1, 1 + (p - 0xf7)))
            }
        }),
    ensures
        spec_decode_length(s) == Err::<(int, int, ExpectedType), Error>(
            Error::ListPrefixTooSmall),
{
}

/// Law: the empty input has no header to decode and fails with
/// `EmptyBuffer`, never with `TrailingBytes`.
pub proof fn lemma_empty_buffer()
    ensures
        spec_decode_length(Seq::<u8>::empty()) == Err::<(int, int, ExpectedType), Error>(
            Error::EmptyBuffer),
{
}

} // verus!
