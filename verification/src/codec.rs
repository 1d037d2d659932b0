//! Codecs: how typed values become byte strings and back.

use crate::bytes::{lemma_lex_asymmetric, lemma_lex_irreflexive, lex_lt, precedes_at};
use crate::error::CodecError;
use vstd::prelude::*;
use vstd::slice::slice_to_vec;
use vstd::string::StringSliceAdditionalSpecFns;
use vstd::utf8::{
    decode_utf8, encode_utf8, encode_utf8_decode_utf8, encode_utf8_valid_utf8, valid_utf8,
};

verus! {

/// Turns a typed value into bytes.
///
/// `encode_spec` says what the bytes are, as a function of the value's view
/// alone; `bytes_encode` computes them.
pub trait BytesEncode {
    type EItem: View + ?Sized;

    spec fn encode_spec(item: <Self::EItem as View>::V) -> Result<Seq<u8>, CodecError>;

    fn bytes_encode(item: &Self::EItem) -> (r: Result<Vec<u8>, CodecError>)
        ensures
            match r {
                Ok(b) => Self::encode_spec(item@) == Ok::<Seq<u8>, CodecError>(b@),
                Err(e) => Self::encode_spec(item@) == Err::<Seq<u8>, CodecError>(e),
            },
    ;
}

/// Turns bytes into a typed value. Not every byte string need decode.
pub trait BytesDecode {
    type DItem: View;

    spec fn decode_spec(bytes: Seq<u8>) -> Result<<Self::DItem as View>::V, CodecError>;

    fn bytes_decode(bytes: &[u8]) -> (r: Result<Self::DItem, CodecError>)
        ensures
            match r {
                Ok(v) => Self::decode_spec(bytes@) == Ok::<<Self::DItem as View>::V, CodecError>(
                    v@,
                ),
                Err(e) => Self::decode_spec(bytes@) == Err::<<Self::DItem as View>::V, CodecError>(
                    e,
                ),
            },
    ;
}

/// `256` to the power `width`.
pub open spec fn radix(width: nat) -> nat
    decreases width,
{
    if width == 0 {
        1
    } else {
        256 * radix((width - 1) as nat)
    }
}

/// The `width` low base-256 digits of `v`, most significant first.
pub open spec fn be_bytes(v: nat, width: nat) -> Seq<u8>
    decreases width,
{
    if width == 0 {
        Seq::empty()
    } else {
        be_bytes(v / 256, (width - 1) as nat).push((v % 256) as u8)
    }
}

/// The number whose base-256 digits, most significant first, are `bytes`.
pub open spec fn be_value(bytes: Seq<u8>) -> nat
    decreases bytes.len(),
{
    if bytes.len() == 0 {
        0
    } else {
        be_value(bytes.drop_last()) * 256 + bytes.last() as nat
    }
}

/// Encoding at a width gives that many bytes.
pub proof fn lemma_be_bytes_len(v: nat, width: nat)
    ensures
        be_bytes(v, width).len() == width,
    decreases width,
{
    if width > 0 {
        lemma_be_bytes_len(v / 256, (width - 1) as nat);
    }
}

/// Decoding undoes encoding for every number that fits the width.
pub proof fn lemma_be_value_of_bytes(v: nat, width: nat)
    requires
        v < radix(width),
    ensures
        be_value(be_bytes(v, width)) == v,
    decreases width,
{
    if width > 0 {
        let b = be_bytes(v, width);
        lemma_be_bytes_len(v, width);
        assert(b.drop_last() =~= be_bytes(v / 256, (width - 1) as nat));
        lemma_be_value_of_bytes(v / 256, (width - 1) as nat);
    }
}

/// A decoded number fits the width of its bytes.
pub proof fn lemma_be_value_bound(bytes: Seq<u8>)
    ensures
        be_value(bytes) < radix(bytes.len()),
    decreases bytes.len(),
{
    if bytes.len() > 0 {
        lemma_be_value_bound(bytes.drop_last());
    }
}

/// Big-endian encoding at a fixed width keeps the order of the numbers.
pub proof fn lemma_be_bytes_ordered(a: nat, b: nat, width: nat)
    requires
        a < b < radix(width),
    ensures
        lex_lt(be_bytes(a, width), be_bytes(b, width)),
    decreases width,
{
    let w = (width - 1) as nat;
    let ea = be_bytes(a, width);
    let eb = be_bytes(b, width);
    lemma_be_bytes_len(a, width);
    lemma_be_bytes_len(b, width);
    lemma_be_bytes_len(a / 256, w);
    lemma_be_bytes_len(b / 256, w);
    if a / 256 == b / 256 {
        assert(precedes_at(ea, eb, width - 1));
    } else {
        lemma_be_bytes_ordered(a / 256, b / 256, w);
        let pa = be_bytes(a / 256, w);
        let pb = be_bytes(b / 256, w);
        let i = choose|i: int| precedes_at(pa, pb, i);
        assert(precedes_at(ea, eb, i));
    }
}

/// At a fixed width the order of the bytes is the order of the numbers, and
/// equal bytes are equal numbers.
pub proof fn lemma_be_bytes_order(a: nat, b: nat, width: nat)
    requires
        a < radix(width),
        b < radix(width),
    ensures
        lex_lt(be_bytes(a, width), be_bytes(b, width)) <==> a < b,
        be_bytes(a, width) == be_bytes(b, width) <==> a == b,
{
    if a < b {
        lemma_be_bytes_ordered(a, b, width);
        lemma_lex_asymmetric(be_bytes(a, width), be_bytes(b, width));
    } else if b < a {
        lemma_be_bytes_ordered(b, a, width);
        lemma_lex_asymmetric(be_bytes(b, width), be_bytes(a, width));
    } else {
        lemma_lex_irreflexive(be_bytes(a, width));
    }
}

/// Writes the `width` low base-256 digits of `v`, most significant first.
pub fn encode_be(v: u64, width: usize) -> (out: Vec<u8>)
    requires
        width <= 8,
    ensures
        out@ == be_bytes(v as nat, width as nat),
{
    let mut out: Vec<u8> = Vec::with_capacity(width);
    let mut i: usize = 0;
    while i < width
        invariant
            0 <= i <= width <= 8,
            out@.len() == i,
        decreases width - i,
    {
        out.push(0u8);
        i += 1;
    }
    let mut x: u64 = v;
    let mut k: usize = width;
    while k > 0
        invariant
            0 <= k <= width,
            out@.len() == width,
            be_bytes(v as nat, width as nat) == be_bytes(x as nat, k as nat) + out@.subrange(
                k as int,
                width as int,
            ),
        decreases k,
    {
        proof {
            lemma_be_bytes_len(x as nat, k as nat);
            lemma_be_bytes_len((x / 256) as nat, (k - 1) as nat);
        }
        let ghost before = out@;
        k -= 1;
        out[k] = (x % 256) as u8;
        assert(be_bytes(x as nat, (k + 1) as nat) + before.subrange(k + 1, width as int)
            =~= be_bytes((x / 256) as nat, k as nat) + out@.subrange(k as int, width as int));
        x = x / 256;
    }
    assert(out@ =~= be_bytes(x as nat, 0) + out@.subrange(0, width as int));
    out
}

/// Reads a number from up to eight base-256 digits, most significant first.
pub fn decode_be(bytes: &[u8]) -> (v: u64)
    requires
        bytes@.len() <= 8,
    ensures
        v == be_value(bytes@),
{
    let mut v: u64 = 0;
    let mut i: usize = 0;
    assert(bytes@.subrange(0, 0) =~= Seq::<u8>::empty());
    while i < bytes.len()
        invariant
            0 <= i <= bytes@.len() <= 8,
            v == be_value(bytes@.subrange(0, i as int)),
        decreases bytes@.len() - i,
    {
        proof {
            let cur = bytes@.subrange(0, i as int);
            let next = bytes@.subrange(0, i + 1);
            assert(next.drop_last() =~= cur);
            lemma_be_value_bound(cur);
            lemma_be_value_bound(next);
            lemma_radix_8();
            lemma_radix_monotone(next.len(), 8);
        }
        v = v * 256 + bytes[i] as u64;
        i += 1;
    }
    assert(bytes@.subrange(0, i as int) =~= bytes@);
    v
}

/// The powers of 256 that the integer codecs use.
pub proof fn lemma_radix_8()
    ensures
        radix(1) == 0x100,
        radix(2) == 0x1_0000,
        radix(4) == 0x1_0000_0000,
        radix(8) == 0x1_0000_0000_0000_0000,
{
    reveal_with_fuel(radix, 9);
}

/// Powers of 256 grow with the width and are at least one.
pub proof fn lemma_radix_monotone(a: nat, b: nat)
    requires
        a <= b,
    ensures
        radix(a) <= radix(b),
        radix(a) >= 1,
    decreases b,
{
    if a < b {
        lemma_radix_monotone(a, (b - 1) as nat);
    } else if a > 0 {
        lemma_radix_monotone((a - 1) as nat, (a - 1) as nat);
    }
}

/// Unsigned 64-bit integers as eight bytes, most significant first.
pub struct BEU64;

impl BytesEncode for BEU64 {
    type EItem = u64;

    open spec fn encode_spec(item: u64) -> Result<Seq<u8>, CodecError> {
        Ok(be_bytes(item as nat, 8))
    }

    fn bytes_encode(item: &u64) -> (r: Result<Vec<u8>, CodecError>) {
        Ok(encode_be(*item, 8))
    }
}

impl BytesDecode for BEU64 {
    type DItem = u64;

    open spec fn decode_spec(bytes: Seq<u8>) -> Result<u64, CodecError> {
        if bytes.len() == 8 {
            Ok(be_value(bytes) as u64)
        } else {
            Err(CodecError::InvalidLength)
        }
    }

    fn bytes_decode(bytes: &[u8]) -> (r: Result<u64, CodecError>) {
        if bytes.len() == 8 {
            Ok(decode_be(bytes))
        } else {
            Err(CodecError::InvalidLength)
        }
    }
}

/// Unsigned 32-bit integers as four bytes, most significant first.
pub struct BEU32;

impl BytesEncode for BEU32 {
    type EItem = u32;

    open spec fn encode_spec(item: u32) -> Result<Seq<u8>, CodecError> {
        Ok(be_bytes(item as nat, 4))
    }

    fn bytes_encode(item: &u32) -> (r: Result<Vec<u8>, CodecError>) {
        Ok(encode_be(*item as u64, 4))
    }
}

impl BytesDecode for BEU32 {
    type DItem = u32;

    open spec fn decode_spec(bytes: Seq<u8>) -> Result<u32, CodecError> {
        if bytes.len() == 4 {
            Ok(be_value(bytes) as u32)
        } else {
            Err(CodecError::InvalidLength)
        }
    }

    fn bytes_decode(bytes: &[u8]) -> (r: Result<u32, CodecError>) {
        if bytes.len() == 4 {
            proof {
                lemma_be_value_bound(bytes@);
                lemma_radix_8();
            }
            Ok(decode_be(bytes) as u32)
        } else {
            Err(CodecError::InvalidLength)
        }
    }
}

/// Unsigned 16-bit integers as two bytes, most significant first.
pub struct BEU16;

impl BytesEncode for BEU16 {
    type EItem = u16;

    open spec fn encode_spec(item: u16) -> Result<Seq<u8>, CodecError> {
        Ok(be_bytes(item as nat, 2))
    }

    fn bytes_encode(item: &u16) -> (r: Result<Vec<u8>, CodecError>) {
        Ok(encode_be(*item as u64, 2))
    }
}

impl BytesDecode for BEU16 {
    type DItem = u16;

    open spec fn decode_spec(bytes: Seq<u8>) -> Result<u16, CodecError> {
        if bytes.len() == 2 {
            Ok(be_value(bytes) as u16)
        } else {
            Err(CodecError::InvalidLength)
        }
    }

    fn bytes_decode(bytes: &[u8]) -> (r: Result<u16, CodecError>) {
        if bytes.len() == 2 {
            proof {
                lemma_be_value_bound(bytes@);
                lemma_radix_8();
            }
            Ok(decode_be(bytes) as u16)
        } else {
            Err(CodecError::InvalidLength)
        }
    }
}

/// The unsigned number with the same `bits` bits as `v` in two's complement.
pub open spec fn twos_complement(v: int, bits: nat) -> nat {
    if v >= 0 {
        v as nat
    } else {
        (v + radix(bits / 8)) as nat
    }
}

/// The signed number whose two's complement on `bits` bits is `u`.
pub open spec fn from_twos_complement(u: nat, bits: nat) -> int {
    if 2 * u < radix(bits / 8) {
        u as int
    } else {
        u - radix(bits / 8)
    }
}

/// Signed 64-bit integers as eight bytes in two's complement, most
/// significant first. The bytes of a negative number come after those of
/// every number that is not.
pub struct BEI64;

impl BytesEncode for BEI64 {
    type EItem = i64;

    open spec fn encode_spec(item: i64) -> Result<Seq<u8>, CodecError> {
        Ok(be_bytes(twos_complement(item as int, 64), 8))
    }

    fn bytes_encode(item: &i64) -> (r: Result<Vec<u8>, CodecError>) {
        proof {
            lemma_radix_8();
        }
        let v = *item;
        let u: u64 = if v >= 0 {
            v as u64
        } else {
            (v - i64::MIN) as u64 + 0x8000_0000_0000_0000u64
        };
        Ok(encode_be(u, 8))
    }
}

impl BytesDecode for BEI64 {
    type DItem = i64;

    open spec fn decode_spec(bytes: Seq<u8>) -> Result<i64, CodecError> {
        if bytes.len() == 8 {
            Ok(from_twos_complement(be_value(bytes), 64) as i64)
        } else {
            Err(CodecError::InvalidLength)
        }
    }

    fn bytes_decode(bytes: &[u8]) -> (r: Result<i64, CodecError>) {
        if bytes.len() == 8 {
            proof {
                lemma_radix_8();
            }
            let u = decode_be(bytes);
            if u < 0x8000_0000_0000_0000u64 {
                Ok(u as i64)
            } else {
                Ok((u - 0x8000_0000_0000_0000u64) as i64 + i64::MIN)
            }
        } else {
            Err(CodecError::InvalidLength)
        }
    }
}

/// Signed 32-bit integers as four bytes in two's complement, most
/// significant first. The bytes of a negative number come after those of
/// every number that is not.
pub struct BEI32;

impl BytesEncode for BEI32 {
    type EItem = i32;

    open spec fn encode_spec(item: i32) -> Result<Seq<u8>, CodecError> {
        Ok(be_bytes(twos_complement(item as int, 32), 4))
    }

    fn bytes_encode(item: &i32) -> (r: Result<Vec<u8>, CodecError>) {
        proof {
            lemma_radix_8();
        }
        let v = *item;
        let u: u64 = if v >= 0 {
            v as u64
        } else {
            (v - i32::MIN) as u64 + 0x8000_0000u64
        };
        Ok(encode_be(u, 4))
    }
}

impl BytesDecode for BEI32 {
    type DItem = i32;

    open spec fn decode_spec(bytes: Seq<u8>) -> Result<i32, CodecError> {
        if bytes.len() == 4 {
            Ok(from_twos_complement(be_value(bytes), 32) as i32)
        } else {
            Err(CodecError::InvalidLength)
        }
    }

    fn bytes_decode(bytes: &[u8]) -> (r: Result<i32, CodecError>) {
        if bytes.len() == 4 {
            proof {
                lemma_radix_8();
                lemma_be_value_bound(bytes@);
            }
            let u = decode_be(bytes);
            if u < 0x8000_0000u64 {
                Ok(u as i32)
            } else {
                Ok((u - 0x8000_0000u64) as i32 + i32::MIN)
            }
        } else {
            Err(CodecError::InvalidLength)
        }
    }
}

/// Byte strings as they are.
pub struct ByteSlice;

impl BytesEncode for ByteSlice {
    type EItem = [u8];

    open spec fn encode_spec(item: Seq<u8>) -> Result<Seq<u8>, CodecError> {
        Ok(item)
    }

    fn bytes_encode(item: &[u8]) -> (r: Result<Vec<u8>, CodecError>) {
        Ok(slice_to_vec(item))
    }
}

impl BytesDecode for ByteSlice {
    type DItem = Vec<u8>;

    open spec fn decode_spec(bytes: Seq<u8>) -> Result<Seq<u8>, CodecError> {
        Ok(bytes)
    }

    fn bytes_decode(bytes: &[u8]) -> (r: Result<Vec<u8>, CodecError>) {
        Ok(slice_to_vec(bytes))
    }
}

/// Byte strings of exactly `N` bytes, as they are. Any other length is
/// refused, on the way in and on the way out.
pub struct FixedBytes<const N: usize>;

impl<const N: usize> BytesEncode for FixedBytes<N> {
    type EItem = [u8];

    open spec fn encode_spec(item: Seq<u8>) -> Result<Seq<u8>, CodecError> {
        if item.len() == N {
            Ok(item)
        } else {
            Err(CodecError::InvalidLength)
        }
    }

    fn bytes_encode(item: &[u8]) -> (r: Result<Vec<u8>, CodecError>) {
        if item.len() == N {
            Ok(slice_to_vec(item))
        } else {
            Err(CodecError::InvalidLength)
        }
    }
}

impl<const N: usize> BytesDecode for FixedBytes<N> {
    type DItem = Vec<u8>;

    open spec fn decode_spec(bytes: Seq<u8>) -> Result<Seq<u8>, CodecError> {
        if bytes.len() == N {
            Ok(bytes)
        } else {
            Err(CodecError::InvalidLength)
        }
    }

    fn bytes_decode(bytes: &[u8]) -> (r: Result<Vec<u8>, CodecError>) {
        if bytes.len() == N {
            Ok(slice_to_vec(bytes))
        } else {
            Err(CodecError::InvalidLength)
        }
    }
}

/// `core::str::from_utf8`: the string slice over `bytes` when they are
/// UTF-8, and nothing when they are not. The slice covers exactly `bytes`.
#[verifier::external_body]
fn str_from_utf8(bytes: &[u8]) -> (r: Option<&str>)
    ensures
        r is Some <==> valid_utf8(bytes@),
        r matches Some(s) ==> s.spec_bytes() == bytes@,
{
    match core::str::from_utf8(bytes) {
        Ok(s) => Some(s),
        Err(_) => None,
    }
}

/// Strings as their UTF-8 bytes.
pub struct Str;

impl BytesEncode for Str {
    type EItem = str;

    open spec fn encode_spec(item: Seq<char>) -> Result<Seq<u8>, CodecError> {
        Ok(encode_utf8(item))
    }

    fn bytes_encode(item: &str) -> (r: Result<Vec<u8>, CodecError>) {
        Ok(slice_to_vec(item.as_bytes()))
    }
}

impl BytesDecode for Str {
    type DItem = String;

    open spec fn decode_spec(bytes: Seq<u8>) -> Result<Seq<char>, CodecError> {
        if valid_utf8(bytes) {
            Ok(decode_utf8(bytes))
        } else {
            Err(CodecError::InvalidUtf8)
        }
    }

    fn bytes_decode(bytes: &[u8]) -> (r: Result<String, CodecError>) {
        match str_from_utf8(bytes) {
            Some(s) => {
                proof {
                    encode_utf8_decode_utf8(s@);
                }
                Ok(s.to_owned())
            },
            None => Err(CodecError::InvalidUtf8),
        }
    }
}

/// The unit value as the empty byte string.
pub struct Unit;

impl BytesEncode for Unit {
    type EItem = ();

    open spec fn encode_spec(item: ()) -> Result<Seq<u8>, CodecError> {
        Ok(Seq::empty())
    }

    fn bytes_encode(item: &()) -> (r: Result<Vec<u8>, CodecError>) {
        Ok(Vec::new())
    }
}

impl BytesDecode for Unit {
    type DItem = ();

    open spec fn decode_spec(bytes: Seq<u8>) -> Result<(), CodecError> {
        if bytes.len() == 0 {
            Ok(())
        } else {
            Err(CodecError::InvalidLength)
        }
    }

    fn bytes_decode(bytes: &[u8]) -> (r: Result<(), CodecError>) {
        if bytes.len() == 0 {
            Ok(())
        } else {
            Err(CodecError::InvalidLength)
        }
    }
}

/// Decodes any bytes to the unit value: for walking over entries whose
/// values are not wanted.
pub struct DecodeIgnore;

impl BytesDecode for DecodeIgnore {
    type DItem = ();

    open spec fn decode_spec(bytes: Seq<u8>) -> Result<(), CodecError> {
        Ok(())
    }

    fn bytes_decode(bytes: &[u8]) -> (r: Result<(), CodecError>) {
        Ok(())
    }
}

/// Decoding gives back what was encoded, for unsigned 64-bit integers.
pub proof fn lemma_roundtrip_beu64(v: u64)
    ensures
        BEU64::encode_spec(v) is Ok,
        BEU64::decode_spec(BEU64::encode_spec(v)->Ok_0) == Ok::<u64, CodecError>(v),
{
    lemma_radix_8();
    lemma_be_bytes_len(v as nat, 8);
    lemma_be_value_of_bytes(v as nat, 8);
}

/// Decoding gives back what was encoded, for unsigned 32-bit integers.
pub proof fn lemma_roundtrip_beu32(v: u32)
    ensures
        BEU32::encode_spec(v) is Ok,
        BEU32::decode_spec(BEU32::encode_spec(v)->Ok_0) == Ok::<u32, CodecError>(v),
{
    lemma_radix_8();
    lemma_be_bytes_len(v as nat, 4);
    lemma_be_value_of_bytes(v as nat, 4);
}

/// Decoding gives back what was encoded, for unsigned 16-bit integers.
pub proof fn lemma_roundtrip_beu16(v: u16)
    ensures
        BEU16::encode_spec(v) is Ok,
        BEU16::decode_spec(BEU16::encode_spec(v)->Ok_0) == Ok::<u16, CodecError>(v),
{
    lemma_radix_8();
    lemma_be_bytes_len(v as nat, 2);
    lemma_be_value_of_bytes(v as nat, 2);
}

/// Decoding gives back what was encoded, for signed 64-bit integers.
pub proof fn lemma_roundtrip_bei64(v: i64)
    ensures
        BEI64::encode_spec(v) is Ok,
        BEI64::decode_spec(BEI64::encode_spec(v)->Ok_0) == Ok::<i64, CodecError>(v),
{
    lemma_radix_8();
    let u = twos_complement(v as int, 64);
    lemma_be_bytes_len(u, 8);
    lemma_be_value_of_bytes(u, 8);
}

/// Decoding gives back what was encoded, for signed 32-bit integers.
pub proof fn lemma_roundtrip_bei32(v: i32)
    ensures
        BEI32::encode_spec(v) is Ok,
        BEI32::decode_spec(BEI32::encode_spec(v)->Ok_0) == Ok::<i32, CodecError>(v),
{
    lemma_radix_8();
    let u = twos_complement(v as int, 32);
    lemma_be_bytes_len(u, 4);
    lemma_be_value_of_bytes(u, 4);
}

/// The bytes of the signed codecs are ordered as the two's complements of
/// the numbers: as the numbers themselves among those that are not
/// negative and among the negative ones, with every negative number above
/// every number that is not.
pub proof fn lemma_bei64_order(a: i64, b: i64)
    ensures
        lex_lt(BEI64::encode_spec(a)->Ok_0, BEI64::encode_spec(b)->Ok_0) <==> twos_complement(
            a as int,
            64,
        ) < twos_complement(b as int, 64),
        (a >= 0) == (b >= 0) ==> (twos_complement(a as int, 64) < twos_complement(b as int, 64)
            <==> a < b),
        (a < 0 && b >= 0) ==> twos_complement(b as int, 64) < twos_complement(a as int, 64),
        BEI64::encode_spec(a)->Ok_0 == BEI64::encode_spec(b)->Ok_0 <==> a == b,
{
    lemma_radix_8();
    lemma_be_bytes_order(twos_complement(a as int, 64), twos_complement(b as int, 64), 8);
}

/// The same, for signed 32-bit integers.
pub proof fn lemma_bei32_order(a: i32, b: i32)
    ensures
        lex_lt(BEI32::encode_spec(a)->Ok_0, BEI32::encode_spec(b)->Ok_0) <==> twos_complement(
            a as int,
            32,
        ) < twos_complement(b as int, 32),
        (a >= 0) == (b >= 0) ==> (twos_complement(a as int, 32) < twos_complement(b as int, 32)
            <==> a < b),
        (a < 0 && b >= 0) ==> twos_complement(b as int, 32) < twos_complement(a as int, 32),
        BEI32::encode_spec(a)->Ok_0 == BEI32::encode_spec(b)->Ok_0 <==> a == b,
{
    lemma_radix_8();
    lemma_be_bytes_order(twos_complement(a as int, 32), twos_complement(b as int, 32), 4);
}

/// Decoding gives back what was encoded, for strings.
pub proof fn lemma_roundtrip_str(s: Seq<char>)
    ensures
        Str::encode_spec(s) is Ok,
        Str::decode_spec(Str::encode_spec(s)->Ok_0) == Ok::<Seq<char>, CodecError>(s),
{
    encode_utf8_valid_utf8(s);
    encode_utf8_decode_utf8(s);
}

/// Decoding gives back what was encoded, for byte strings and for unit.
pub proof fn lemma_roundtrip_bytes(b: Seq<u8>)
    ensures
        ByteSlice::decode_spec(ByteSlice::encode_spec(b)->Ok_0) == Ok::<Seq<u8>, CodecError>(b),
        Unit::decode_spec(Unit::encode_spec(())->Ok_0) == Ok::<(), CodecError>(()),
{
}

/// Decoding gives back what was encoded, for byte strings of a fixed
/// length, whenever they encode.
pub proof fn lemma_roundtrip_fixed<const N: usize>(b: Seq<u8>)
    requires
        FixedBytes::<N>::encode_spec(b) is Ok,
    ensures
        FixedBytes::<N>::decode_spec(FixedBytes::<N>::encode_spec(b)->Ok_0) == Ok::<
            Seq<u8>,
            CodecError,
        >(b),
{
}

/// The unsigned big-endian codecs keep the order of the numbers: the bytes
/// of one number lie below those of another exactly when the number is
/// smaller, and equal bytes are equal numbers.
pub proof fn lemma_beu64_order(a: u64, b: u64)
    ensures
        lex_lt(BEU64::encode_spec(a)->Ok_0, BEU64::encode_spec(b)->Ok_0) <==> a < b,
        BEU64::encode_spec(a)->Ok_0 == BEU64::encode_spec(b)->Ok_0 <==> a == b,
{
    lemma_radix_8();
    lemma_be_bytes_order(a as nat, b as nat, 8);
}

/// The same, for unsigned 32-bit integers.
pub proof fn lemma_beu32_order(a: u32, b: u32)
    ensures
        lex_lt(BEU32::encode_spec(a)->Ok_0, BEU32::encode_spec(b)->Ok_0) <==> a < b,
        BEU32::encode_spec(a)->Ok_0 == BEU32::encode_spec(b)->Ok_0 <==> a == b,
{
    lemma_radix_8();
    lemma_be_bytes_order(a as nat, b as nat, 4);
}

/// The same, for unsigned 16-bit integers.
pub proof fn lemma_beu16_order(a: u16, b: u16)
    ensures
        lex_lt(BEU16::encode_spec(a)->Ok_0, BEU16::encode_spec(b)->Ok_0) <==> a < b,
        BEU16::encode_spec(a)->Ok_0 == BEU16::encode_spec(b)->Ok_0 <==> a == b,
{
    lemma_radix_8();
    lemma_be_bytes_order(a as nat, b as nat, 2);
}

} // verus!
