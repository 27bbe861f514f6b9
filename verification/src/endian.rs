//! Fixed-width numbers: the bytes of the value, most significant first;
//! signed values in two's complement.
use vstd::prelude::*;

use crate::error::ProtoError;
use crate::{Decoded, McProtoSelf, McReader, McWriter};

verus! {

/// The number of values that `width` bytes can tell apart: 256 to the
/// power `width`.
pub open spec fn span(width: nat) -> nat
    decreases width,
{
    if width == 0 {
        1
    } else {
        256 * span((width - 1) as nat)
    }
}

/// The low `width` bytes of `value`, most significant first.
pub open spec fn be_bytes(value: nat, width: nat) -> Seq<u8>
    decreases width,
{
    if width == 0 {
        Seq::empty()
    } else {
        be_bytes(value / 256, (width - 1) as nat).push((value % 256) as u8)
    }
}

/// The number that `bytes` spell, most significant first.
pub open spec fn be_value(bytes: Seq<u8>) -> nat
    decreases bytes.len(),
{
    if bytes.len() == 0 {
        0
    } else {
        256 * be_value(bytes.drop_last()) + bytes.last() as nat
    }
}

/// The unsigned number with the same `width` bytes as `value` in two's
/// complement.
pub open spec fn unsigned_of(value: int, width: nat) -> nat {
    if value < 0 {
        (value + span(width)) as nat
    } else {
        value as nat
    }
}

/// The signed number with the same `width` bytes as `value` in two's
/// complement.
pub open spec fn signed_of(value: nat, width: nat) -> int {
    if 2 * value >= span(width) {
        value - span(width)
    } else {
        value as int
    }
}

/// The meaning of a byte stream that starts with `bytes`, read as a number
/// of `width` bytes.
pub open spec fn fixed_decoding(bytes: Seq<u8>, width: nat) -> Decoded<nat> {
    if bytes.len() < width {
        Decoded::Short
    } else {
        Decoded::Value { value: be_value(bytes.take(width as int)), used: width }
    }
}

/// The spans of the widths in use.
pub proof fn lemma_span_values()
    ensures
        span(0) == 1,
        span(1) == 0x100,
        span(2) == 0x1_0000,
        span(3) == 0x100_0000,
        span(4) == 0x1_0000_0000,
        span(5) == 0x100_0000_0000,
        span(6) == 0x1_0000_0000_0000,
        span(7) == 0x100_0000_0000_0000,
        span(8) == 0x1_0000_0000_0000_0000,
{
    reveal_with_fuel(span, 9);
}

/// The number that `width` bytes spell is below the span of `width`.
pub proof fn lemma_be_value_bound(bytes: Seq<u8>)
    ensures
        be_value(bytes) < span(bytes.len()),
    decreases bytes.len(),
{
    if bytes.len() != 0 {
        lemma_be_value_bound(bytes.drop_last());
    }
}

/// `width` bytes stand for a number.
pub proof fn lemma_be_bytes_len(value: nat, width: nat)
    ensures
        be_bytes(value, width).len() == width,
    decreases width,
{
    if width != 0 {
        lemma_be_bytes_len(value / 256, (width - 1) as nat);
    }
}

/// Writes the low `width` bytes of `value`, most significant first, in one
/// write.
fn write_be<W: McWriter + ?Sized>(value: u64, width: usize, writer: &mut W) -> (r:
    Result<(), ProtoError>)
    requires
        1 <= width <= 8,
    ensures
        r is Ok ==> final(writer).written() == old(writer).written() + be_bytes(
            value as nat,
            width as nat,
        ),
        r matches Err(e) ==> e is Stream,
        old(writer).infallible() ==> r is Ok && final(writer).infallible(),
{
    let mut buf: [u8; 8] = [0u8; 8];
    let mut rest: u64 = value;
    let mut i: usize = 8;
    assert(buf@.skip(8) =~= Seq::<u8>::empty());
    assert(be_bytes(value as nat, width as nat) + Seq::<u8>::empty() =~= be_bytes(
        value as nat,
        width as nat,
    ));
    while i > 8 - width
        invariant
            1 <= width <= 8,
            8 - width <= i <= 8,
            be_bytes(value as nat, width as nat) == be_bytes(
                rest as nat,
                (i - (8 - width)) as nat,
            ) + buf@.skip(i as int),
        decreases i,
    {
        let ghost tail = buf@.skip(i as int);
        let byte: u8 = #[verifier::truncate] (rest as u8);
        assert(rest as u8 == rest % 256) by (bit_vector);
        assert(rest >> 8 == rest / 256) by (bit_vector);
        i = i - 1;
        buf[i] = byte;
        rest = rest >> 8;
        proof {
            let head = be_bytes(rest as nat, (i - (8 - width)) as nat);
            assert(buf@.skip(i as int) =~= seq![byte] + tail);
            assert(head.push(byte) + tail =~= head + (seq![byte] + tail));
        }
    }
    assert(be_bytes(rest as nat, 0) + buf@.skip(i as int) =~= buf@.skip(i as int));
    let bytes = vstd::slice::slice_subrange(buf.as_slice(), 8 - width, 8);
    assert(bytes@ =~= buf@.skip(i as int));
    match writer.write(bytes) {
        Ok(()) => Ok(()),
        Err(e) => Err(ProtoError::Stream(e)),
    }
}

/// Reads `width` bytes in one read, and the number that they spell.
fn read_be<R: McReader + ?Sized>(reader: &mut R, width: usize) -> (r: Result<
    u64,
    ProtoError,
>)
    requires
        1 <= width <= 8,
    ensures
        old(reader).steady() ==> final(reader).steady(),
        match r {
            Ok(v) => fixed_decoding(old(reader).remaining(), width as nat) == (Decoded::Value {
                value: v as nat,
                used: width as nat,
            }) && final(reader).remaining() == old(reader).remaining().skip(width as int),
            Err(ProtoError::Decode(_)) => false,
            Err(ProtoError::Stream(_)) => old(reader).steady() ==> fixed_decoding(
                old(reader).remaining(),
                width as nat,
            ) is Short,
        },
{
    let mut buf: Vec<u8> = vec![0u8; width];
    match reader.read(buf.as_mut_slice()) {
        Ok(()) => {},
        Err(e) => {
            return Err(ProtoError::Stream(e));
        },
    }
    let mut value: u64 = 0;
    let mut i: usize = 0;
    proof {
        lemma_span_values();
        assert(buf@.take(0).len() == 0);
    }
    while i < width
        invariant
            1 <= width <= 8,
            buf.len() == width,
            i <= width,
            value == be_value(buf@.take(i as int)),
            value < span(i as nat),
        decreases width - i,
    {
        let byte = buf[i];
        let high: u64 = value;
        proof {
            lemma_span_values();
            let next = buf@.take(i + 1);
            assert(next.drop_last() =~= buf@.take(i as int));
            assert(next.last() == byte);
            assert(high < 0x100_0000_0000_0000);
            assert(((high << 8) | (byte as u64)) == high * 256 + byte) by (bit_vector)
                requires
                    high < 0x100_0000_0000_0000,
            ;
        }
        value = (value << 8) | (byte as u64);
        i = i + 1;
    }
    assert(buf@.take(i as int) =~= buf@);
    Ok(value)
}

impl McProtoSelf for i8 {
    type Meta = ();

    open spec fn encoding(value: i8) -> Seq<u8> {
        be_bytes(unsigned_of(value as int, 1), 1)
    }

    open spec fn decoding(bytes: Seq<u8>, meta: ()) -> Decoded<i8> {
        fixed_decoding(bytes, 1).map(|v: nat| signed_of(v, 1) as i8)
    }

    fn write<W: McWriter + ?Sized>(self, writer: &mut W) -> (r: Result<(), ProtoError>) {
        let bits: u8 = #[verifier::truncate] (self as u8);
        proof {
            lemma_span_values();
            assert(self as u8 == (if self < 0 { self + 0x100 } else { self as int }))
                by (bit_vector);
        }
        write_be(bits as u64, 1, writer)
    }

    fn read<R: McReader + ?Sized>(reader: &mut R, meta: ()) -> (r: Result<i8, ProtoError>) {
        proof {
            lemma_span_values();
            lemma_be_value_bound(old(reader).remaining().take(1));
        }
        match read_be(reader, 1) {
            Ok(v) => {
                let bits: u8 = v as u8;
                assert(bits as i8 == (if bits >= 0x80 { bits - 0x100 } else { bits as int }))
                    by (bit_vector);
                Ok(#[verifier::truncate] (bits as i8))
            },
            Err(e) => Err(e),
        }
    }
}

impl McProtoSelf for u16 {
    type Meta = ();

    open spec fn encoding(value: u16) -> Seq<u8> {
        be_bytes(value as nat, 2)
    }

    open spec fn decoding(bytes: Seq<u8>, meta: ()) -> Decoded<u16> {
        fixed_decoding(bytes, 2).map(|v: nat| v as u16)
    }

    fn write<W: McWriter + ?Sized>(self, writer: &mut W) -> (r: Result<(), ProtoError>) {
        write_be(self as u64, 2, writer)
    }

    fn read<R: McReader + ?Sized>(reader: &mut R, meta: ()) -> (r: Result<u16, ProtoError>) {
        proof {
            lemma_span_values();
            lemma_be_value_bound(old(reader).remaining().take(2));
        }
        match read_be(reader, 2) {
            Ok(v) => Ok(v as u16),
            Err(e) => Err(e),
        }
    }
}

impl McProtoSelf for i16 {
    type Meta = ();

    open spec fn encoding(value: i16) -> Seq<u8> {
        be_bytes(unsigned_of(value as int, 2), 2)
    }

    open spec fn decoding(bytes: Seq<u8>, meta: ()) -> Decoded<i16> {
        fixed_decoding(bytes, 2).map(|v: nat| signed_of(v, 2) as i16)
    }

    fn write<W: McWriter + ?Sized>(self, writer: &mut W) -> (r: Result<(), ProtoError>) {
        let bits: u16 = #[verifier::truncate] (self as u16);
        proof {
            lemma_span_values();
            assert(self as u16 == (if self < 0 { self + 0x1_0000 } else { self as int }))
                by (bit_vector);
        }
        write_be(bits as u64, 2, writer)
    }

    fn read<R: McReader + ?Sized>(reader: &mut R, meta: ()) -> (r: Result<i16, ProtoError>) {
        proof {
            lemma_span_values();
            lemma_be_value_bound(old(reader).remaining().take(2));
        }
        match read_be(reader, 2) {
            Ok(v) => {
                let bits: u16 = v as u16;
                assert(bits as i16 == (if bits >= 0x8000 { bits - 0x1_0000 } else { bits as int }))
                    by (bit_vector);
                Ok(#[verifier::truncate] (bits as i16))
            },
            Err(e) => Err(e),
        }
    }
}

impl McProtoSelf for u32 {
    type Meta = ();

    open spec fn encoding(value: u32) -> Seq<u8> {
        be_bytes(value as nat, 4)
    }

    open spec fn decoding(bytes: Seq<u8>, meta: ()) -> Decoded<u32> {
        fixed_decoding(bytes, 4).map(|v: nat| v as u32)
    }

    fn write<W: McWriter + ?Sized>(self, writer: &mut W) -> (r: Result<(), ProtoError>) {
        write_be(self as u64, 4, writer)
    }

    fn read<R: McReader + ?Sized>(reader: &mut R, meta: ()) -> (r: Result<u32, ProtoError>) {
        proof {
            lemma_span_values();
            lemma_be_value_bound(old(reader).remaining().take(4));
        }
        match read_be(reader, 4) {
            Ok(v) => Ok(v as u32),
            Err(e) => Err(e),
        }
    }
}

impl McProtoSelf for i32 {
    type Meta = ();

    open spec fn encoding(value: i32) -> Seq<u8> {
        be_bytes(unsigned_of(value as int, 4), 4)
    }

    open spec fn decoding(bytes: Seq<u8>, meta: ()) -> Decoded<i32> {
        fixed_decoding(bytes, 4).map(|v: nat| signed_of(v, 4) as i32)
    }

    fn write<W: McWriter + ?Sized>(self, writer: &mut W) -> (r: Result<(), ProtoError>) {
        let bits: u32 = #[verifier::truncate] (self as u32);
        proof {
            lemma_span_values();
            assert(self as u32 == (if self < 0 { self + 0x1_0000_0000 } else { self as int }))
                by (bit_vector);
        }
        write_be(bits as u64, 4, writer)
    }

    fn read<R: McReader + ?Sized>(reader: &mut R, meta: ()) -> (r: Result<i32, ProtoError>) {
        proof {
            lemma_span_values();
            lemma_be_value_bound(old(reader).remaining().take(4));
        }
        match read_be(reader, 4) {
            Ok(v) => {
                let bits: u32 = v as u32;
                assert(bits as i32 == (if bits >= 0x8000_0000 { bits - 0x1_0000_0000 } else { bits as int }))
                    by (bit_vector);
                Ok(#[verifier::truncate] (bits as i32))
            },
            Err(e) => Err(e),
        }
    }
}

impl McProtoSelf for u64 {
    type Meta = ();

    open spec fn encoding(value: u64) -> Seq<u8> {
        be_bytes(value as nat, 8)
    }

    open spec fn decoding(bytes: Seq<u8>, meta: ()) -> Decoded<u64> {
        fixed_decoding(bytes, 8).map(|v: nat| v as u64)
    }

    fn write<W: McWriter + ?Sized>(self, writer: &mut W) -> (r: Result<(), ProtoError>) {
        write_be(self, 8, writer)
    }

    fn read<R: McReader + ?Sized>(reader: &mut R, meta: ()) -> (r: Result<u64, ProtoError>) {
        proof {
            lemma_span_values();
            lemma_be_value_bound(old(reader).remaining().take(8));
        }
        match read_be(reader, 8) {
            Ok(v) => Ok(v),
            Err(e) => Err(e),
        }
    }
}

impl McProtoSelf for i64 {
    type Meta = ();

    open spec fn encoding(value: i64) -> Seq<u8> {
        be_bytes(unsigned_of(value as int, 8), 8)
    }

    open spec fn decoding(bytes: Seq<u8>, meta: ()) -> Decoded<i64> {
        fixed_decoding(bytes, 8).map(|v: nat| signed_of(v, 8) as i64)
    }

    fn write<W: McWriter + ?Sized>(self, writer: &mut W) -> (r: Result<(), ProtoError>) {
        let bits: u64 = #[verifier::truncate] (self as u64);
        proof {
            lemma_span_values();
            assert(self as u64 == (if self < 0 { self + 0x1_0000_0000_0000_0000 } else { self as int }))
                by (bit_vector);
        }
        write_be(bits, 8, writer)
    }

    fn read<R: McReader + ?Sized>(reader: &mut R, meta: ()) -> (r: Result<i64, ProtoError>) {
        proof {
            lemma_span_values();
            lemma_be_value_bound(old(reader).remaining().take(8));
        }
        match read_be(reader, 8) {
            Ok(v) => {
                let bits: u64 = v;
                assert(bits as i64 == (if bits >= 0x8000_0000_0000_0000 { bits - 0x1_0000_0000_0000_0000 } else { bits as int }))
                    by (bit_vector);
                Ok(#[verifier::truncate] (bits as i64))
            },
            Err(e) => Err(e),
        }
    }
}

/// The bytes of a number spell what of it fits in them.
pub proof fn lemma_be_value_of_bytes(value: nat, width: nat)
    ensures
        be_value(be_bytes(value, width)) == value % span(width),
    decreases width,
{
    if width != 0 {
        let below = (width - 1) as nat;
        let head = be_bytes(value / 256, below);
        let bytes = be_bytes(value, width);
        lemma_be_value_of_bytes(value / 256, below);
        assert(bytes.drop_last() =~= head);
        lemma_be_value_bound(head);
        lemma_be_bytes_len(value / 256, below);
        vstd::arithmetic::div_mod::lemma_breakdown(value as int, 256, span(below) as int);
    }
}

/// What was encoded is decoded again: the `width` bytes that stand for
/// `value`, whatever follows them, denote `value` and nothing more.
pub proof fn lemma_fixed_round_trip(value: nat, width: nat, rest: Seq<u8>)
    requires
        value < span(width),
    ensures
        be_bytes(value, width).len() == width,
        fixed_decoding(be_bytes(value, width) + rest, width) == (Decoded::Value {
            value,
            used: width,
        }),
{
    let bytes = be_bytes(value, width);
    lemma_be_bytes_len(value, width);
    lemma_be_value_of_bytes(value, width);
    vstd::arithmetic::div_mod::lemma_small_mod(value, span(width));
    assert((bytes + rest).take(width as int) =~= bytes);
}

/// Two's complement is undone by its inverse, for the values of a signed
/// type of `width` bytes.
pub proof fn lemma_signed_round_trip(value: int, width: nat)
    requires
        -(span(width) as int) <= 2 * value < span(width),
    ensures
        unsigned_of(value, width) < span(width),
        signed_of(unsigned_of(value, width), width) == value,
{
}

} // verus!
