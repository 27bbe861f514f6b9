//! Length-prefixed text: a variable-length count of UTF-16 code units, then
//! the UTF-8 bytes of the text.
//!
//! A read takes whole scalars until their code units reach the count, so it
//! takes the shortest run of bytes that is valid UTF-8 of at least that many
//! code units. It gives up with `MalformedText` at the first byte that
//! cannot be part of UTF-8 where it stands, or at the end of a scalar that
//! is overlong, a surrogate or out of range: such bytes never become text,
//! however many follow. The bound given as metadata is accepted and not
//! enforced, so the only limit on the bytes of a text is the count itself:
//! at most four bytes for each code unit asked for.
use vstd::prelude::*;
use vstd::utf8::*;

use crate::error::{DecodeFault, ProtoError};
use crate::types::{Length, VarNum};
use crate::varnum::{lemma_varnum_round_trip, radix, varnum_encoding};
use crate::{Decoded, McProto, McProtoSelf, McReader, McWriter};

verus! {

/// The number of UTF-16 code units that one character takes.
pub open spec fn utf16_units(c: char) -> nat {
    if c as u32 >= 0x10000 {
        2
    } else {
        1
    }
}

/// The length of a text in UTF-16 code units.
pub open spec fn utf16_len(chars: Seq<char>) -> nat
    decreases chars.len(),
{
    if chars.len() == 0 {
        0
    } else {
        utf16_units(chars[0]) + utf16_len(chars.drop_first())
    }
}

/// The number of bytes in the scalar that `byte` starts, or 0 where no
/// scalar starts with it.
pub open spec fn lead_width(byte: u8) -> nat {
    if is_leading_byte_width_1(byte) {
        1
    } else if is_leading_byte_width_2(byte) {
        2
    } else if is_leading_byte_width_3(byte) {
        3
    } else if is_leading_byte_width_4(byte) {
        4
    } else {
        0
    }
}

/// The meaning of a byte stream that starts with `bytes`, read as one
/// UTF-8 scalar: its length in UTF-16 code units, and the bytes it takes.
/// The bytes are malformed where the first starts no scalar, where one of
/// those that follow it within the scalar is no continuation byte, or where
/// the complete scalar is overlong, a surrogate or out of range.
pub open spec fn first_scalar(bytes: Seq<u8>) -> Decoded<nat> {
    if bytes.len() == 0 {
        Decoded::Short
    } else {
        let width = lead_width(bytes[0]);
        if width == 0 {
            Decoded::Malformed(DecodeFault::MalformedText)
        } else if exists|i: int|
            1 <= i < width && i < bytes.len() && !is_continuation_byte(#[trigger] bytes[i]) {
            Decoded::Malformed(DecodeFault::MalformedText)
        } else if bytes.len() < width {
            Decoded::Short
        } else if valid_first_scalar(bytes) {
            Decoded::Value { value: if width == 4 { 2 } else { 1 }, used: width }
        } else {
            Decoded::Malformed(DecodeFault::MalformedText)
        }
    }
}

/// Reads one byte that must be a continuation byte.
fn read_continuation<R: McReader + ?Sized>(reader: &mut R) -> (r: Result<u8, ProtoError>)
    ensures
        old(reader).steady() ==> final(reader).steady(),
        match r {
            Ok(byte) => old(reader).remaining().len() >= 1 && byte == old(reader).remaining()[0]
                && is_continuation_byte(byte) && final(reader).remaining() == old(
                reader,
            ).remaining().skip(1),
            Err(ProtoError::Decode(fault)) => old(reader).remaining().len() >= 1
                && !is_continuation_byte(old(reader).remaining()[0]) && fault
                == DecodeFault::MalformedText,
            Err(ProtoError::Stream(_)) => old(reader).steady() ==> old(reader).remaining().len()
                == 0,
        },
{
    match reader.read_byte() {
        Ok(byte) => {
            if 0x80 <= byte && byte <= 0xBF {
                Ok(byte)
            } else {
                Err(ProtoError::Decode(DecodeFault::MalformedText))
            }
        },
        Err(e) => Err(ProtoError::Stream(e)),
    }
}

/// Reads one UTF-8 scalar and appends its bytes to `out`; returns its
/// length in UTF-16 code units. After a failure `out` may hold some of the
/// scalar's bytes.
fn read_scalar<R: McReader + ?Sized>(reader: &mut R, out: &mut Vec<u8>) -> (r: Result<
    u8,
    ProtoError,
>)
    ensures
        old(reader).steady() ==> final(reader).steady(),
        match r {
            Ok(units) => first_scalar(old(reader).remaining()) matches Decoded::Value {
                value,
                used,
            } && value == units && used <= old(reader).remaining().len() && final(out)@ == old(
                out,
            )@ + old(reader).remaining().take(used as int) && final(reader).remaining() == old(
                reader,
            ).remaining().skip(used as int),
            Err(ProtoError::Decode(fault)) => first_scalar(old(reader).remaining())
                == Decoded::<nat>::Malformed(fault),
            Err(ProtoError::Stream(_)) => old(reader).steady() ==> first_scalar(
                old(reader).remaining(),
            ) is Short,
        },
{
    let ghost bytes = old(reader).remaining();
    let b0 = match reader.read_byte() {
        Ok(byte) => byte,
        Err(e) => {
            return Err(ProtoError::Stream(e));
        },
    };
    out.push(b0);
    if b0 <= 0x7F {
        assert(old(out)@.push(b0) =~= old(out)@ + bytes.take(1));
        return Ok(1);
    }
    if !(0xC0 <= b0 && b0 <= 0xF7) {
        return Err(ProtoError::Decode(DecodeFault::MalformedText));
    }
    let b1 = match read_continuation(reader) {
        Ok(byte) => byte,
        Err(e) => {
            assert(bytes.skip(1).len() >= 1 ==> bytes.skip(1)[0] == bytes[1]);
            return Err(e);
        },
    };
    assert(b1 == bytes[1]);
    assert(bytes.skip(1).skip(1) =~= bytes.skip(2));
    out.push(b1);
    if b0 <= 0xDF {
        let scalar: u32 = (((b0 & 0x1F) as u32) << 6) | ((b1 & 0x3F) as u32);
        if scalar < 0x80 {
            return Err(ProtoError::Decode(DecodeFault::MalformedText));
        }
        assert(scalar <= 0x7FF) by (bit_vector)
            requires
                scalar == (((b0 & 0x1F) as u32) << 6) | ((b1 & 0x3F) as u32),
        ;
        assert(old(out)@.push(b0).push(b1) =~= old(out)@ + bytes.take(2));
        return Ok(1);
    }
    let b2 = match read_continuation(reader) {
        Ok(byte) => byte,
        Err(e) => {
            assert(bytes.skip(2).len() >= 1 ==> bytes.skip(2)[0] == bytes[2]);
            return Err(e);
        },
    };
    assert(b2 == bytes[2]);
    assert(bytes.skip(2).skip(1) =~= bytes.skip(3));
    out.push(b2);
    if b0 <= 0xEF {
        let scalar: u32 = (((b0 & 0x0F) as u32) << 12) | (((b1 & 0x3F) as u32) << 6) | ((b2
            & 0x3F) as u32);
        if scalar < 0x800 || (0xD800 <= scalar && scalar <= 0xDFFF) {
            return Err(ProtoError::Decode(DecodeFault::MalformedText));
        }
        assert(old(out)@.push(b0).push(b1).push(b2) =~= old(out)@ + bytes.take(3));
        return Ok(1);
    }
    let b3 = match read_continuation(reader) {
        Ok(byte) => byte,
        Err(e) => {
            assert(bytes.skip(3).len() >= 1 ==> bytes.skip(3)[0] == bytes[3]);
            return Err(e);
        },
    };
    assert(b3 == bytes[3]);
    assert(bytes.skip(3).skip(1) =~= bytes.skip(4));
    out.push(b3);
    let scalar: u32 = (((b0 & 0x07) as u32) << 18) | (((b1 & 0x3F) as u32) << 12) | (((b2
        & 0x3F) as u32) << 6) | ((b3 & 0x3F) as u32);
    if scalar < 0x10000 || scalar > 0x10FFFF {
        return Err(ProtoError::Decode(DecodeFault::MalformedText));
    }
    assert(old(out)@.push(b0).push(b1).push(b2).push(b3) =~= old(out)@ + bytes.take(4));
    Ok(2)
}

/// `rest`, found after a scalar of `units` code units in `bytes` bytes.
pub open spec fn advance(rest: Decoded<nat>, units: nat, bytes: nat) -> Decoded<nat> {
    match rest {
        Decoded::Value { value, used } => Decoded::Value {
            value: value + units,
            used: used + bytes,
        },
        Decoded::Short => Decoded::Short,
        Decoded::Malformed(fault) => Decoded::Malformed(fault),
    }
}

/// What is left of `need` code units once `units` of them are there.
pub open spec fn still_due(need: nat, units: nat) -> nat {
    if units >= need {
        0
    } else {
        (need - units) as nat
    }
}

/// The meaning of a byte stream that starts with `bytes`, read as text of
/// at least `need` UTF-16 code units: whole scalars are taken until their
/// code units reach `need`. The value is the number of code units taken.
pub open spec fn text_span(bytes: Seq<u8>, need: nat) -> Decoded<nat>
    decreases need,
{
    if need == 0 {
        Decoded::Value { value: 0, used: 0 }
    } else {
        match first_scalar(bytes) {
            Decoded::Value { value, used } => if value == 0 {
                Decoded::Malformed(DecodeFault::MalformedText)
            } else {
                advance(text_span(bytes.skip(used as int), still_due(need, value)), value, used)
            },
            Decoded::Short => Decoded::Short,
            Decoded::Malformed(fault) => Decoded::Malformed(fault),
        }
    }
}

/// The meaning of a byte stream that starts with `bytes`, read as a text:
/// a 32-bit variable-length count of UTF-16 code units, then the scalars
/// that make up that count.
pub open spec fn text_decoding(bytes: Seq<u8>) -> Decoded<Seq<char>> {
    match <VarNum as McProto<u32>>::decoding(bytes, ()) {
        Decoded::Value { value: need, used: prefix } => {
            let body = bytes.skip(prefix as int);
            match text_span(body, need as nat) {
                Decoded::Value { value: _, used } => Decoded::Value {
                    value: decode_utf8(body.take(used as int)),
                    used: prefix + used,
                },
                Decoded::Short => Decoded::Short,
                Decoded::Malformed(fault) => Decoded::Malformed(fault),
            }
        },
        Decoded::Short => Decoded::Short,
        Decoded::Malformed(fault) => Decoded::Malformed(fault),
    }
}

/// `String::from_utf8`: the text that `bytes` encode, where they are valid
/// UTF-8, and nothing where they are not.
#[verifier::external_body]
fn text_of(bytes: Vec<u8>) -> (r: Option<String>)
    ensures
        r is Some <==> valid_utf8(bytes@),
        r matches Some(text) ==> text@ == decode_utf8(bytes@),
{
    match String::from_utf8(bytes) {
        Ok(text) => Some(text),
        Err(_) => None,
    }
}

/// Reads scalars into a buffer until they make up `need` UTF-16 code units.
fn read_span<R: McReader + ?Sized>(reader: &mut R, need: u32) -> (r: Result<Vec<u8>, ProtoError>)
    ensures
        old(reader).steady() ==> final(reader).steady(),
        match r {
            Ok(out) => text_span(old(reader).remaining(), need as nat) matches Decoded::Value {
                value: _,
                used,
            } && used <= old(reader).remaining().len() && out@ == old(reader).remaining().take(
                used as int,
            ) && valid_utf8(out@) && final(reader).remaining() == old(reader).remaining().skip(
                used as int,
            ),
            Err(ProtoError::Decode(fault)) => text_span(old(reader).remaining(), need as nat)
                == Decoded::<nat>::Malformed(fault),
            Err(ProtoError::Stream(_)) => old(reader).steady() ==> text_span(
                old(reader).remaining(),
                need as nat,
            ) is Short,
        },
{
    let ghost body = old(reader).remaining();
    let mut out: Vec<u8> = Vec::new();
    let mut have: u64 = 0;
    let ghost mut taken: nat = 0;
    proof {
        assert(body.skip(0) =~= body);
        assert(body.subrange(0, 0) =~= Seq::<u8>::empty());
    }
    while have < need as u64
        invariant
            body == old(reader).remaining(),
            old(reader).steady() ==> reader.steady(),
            taken <= body.len(),
            have <= need + 1,
            out@ == body.take(taken as int),
            partial_valid_utf8(body, taken as int),
            reader.remaining() == body.skip(taken as int),
            text_span(body, need as nat) == advance(
                text_span(body.skip(taken as int), still_due(need as nat, have as nat)),
                have as nat,
                taken,
            ),
        decreases need + 1 - have,
    {
        let ghost rest = body.skip(taken as int);
        let ghost before = out@;
        let units = match read_scalar(reader, &mut out) {
            Ok(units) => units,
            Err(e) => {
                return Err(e);
            },
        };
        proof {
            let width = first_scalar(rest)->Value_used;
            assert(rest =~= body.subrange(taken as int, body.len() as int));
            partial_valid_utf8_extend(body, taken as int);
            assert(rest.skip(width as int) =~= body.skip((taken + width) as int));
            assert(before + rest.take(width as int) =~= body.take((taken + width) as int));
            taken = taken + width;
        }
        have = have + units as u64;
    }
    proof {
        assert(body.take(taken as int) =~= body.subrange(0, taken as int));
    }
    Ok(out)
}

/// The number of UTF-16 code units that a byte of UTF-8 text accounts for:
/// a scalar counts where it starts, twice where it takes four bytes.
pub open spec fn byte_units(byte: u8) -> nat {
    if is_continuation_byte(byte) {
        0
    } else if byte >= 0xF0 {
        2
    } else {
        1
    }
}

/// The sum of `byte_units` over `bytes`.
pub open spec fn unit_count(bytes: Seq<u8>) -> nat
    decreases bytes.len(),
{
    if bytes.len() == 0 {
        0
    } else {
        unit_count(bytes.drop_last()) + byte_units(bytes.last())
    }
}

/// Counting is additive over concatenation.
pub proof fn lemma_unit_count_concat(a: Seq<u8>, b: Seq<u8>)
    ensures
        unit_count(a + b) == unit_count(a) + unit_count(b),
    decreases b.len(),
{
    if b.len() == 0 {
        assert(a + b =~= a);
    } else {
        assert((a + b).drop_last() =~= a + b.drop_last());
        assert((a + b).last() == b.last());
        lemma_unit_count_concat(a, b.drop_last());
    }
}

/// One more byte adds its own count.
pub proof fn lemma_unit_count_push(bytes: Seq<u8>, byte: u8)
    ensures
        unit_count(bytes.push(byte)) == unit_count(bytes) + byte_units(byte),
{
    assert(bytes.push(byte).drop_last() =~= bytes);
}

/// The bytes of one valid scalar count one unit, or two where they are four.
pub proof fn lemma_unit_count_scalar(bytes: Seq<u8>)
    requires
        valid_first_scalar(bytes),
    ensures
        unit_count(take_first_scalar(bytes)) == (if length_of_first_scalar(bytes) == 4 {
            2nat
        } else {
            1nat
        }),
{
    let width = length_of_first_scalar(bytes);
    let scalar = take_first_scalar(bytes);
    let none = Seq::<u8>::empty();
    lemma_unit_count_push(none, bytes[0]);
    if width == 1 {
        assert(scalar =~= none.push(bytes[0]));
    } else {
        lemma_unit_count_push(none.push(bytes[0]), bytes[1]);
        if width == 2 {
            assert(scalar =~= none.push(bytes[0]).push(bytes[1]));
        } else {
            lemma_unit_count_push(none.push(bytes[0]).push(bytes[1]), bytes[2]);
            if width == 3 {
                assert(scalar =~= none.push(bytes[0]).push(bytes[1]).push(bytes[2]));
            } else {
                lemma_unit_count_push(none.push(bytes[0]).push(bytes[1]).push(bytes[2]), bytes[3]);
                assert(scalar =~= none.push(bytes[0]).push(bytes[1]).push(bytes[2]).push(bytes[3]));
            }
        }
    }
}

/// The bytes of a text count as many units as its characters take.
pub proof fn lemma_unit_count_text(chars: Seq<char>)
    ensures
        unit_count(encode_utf8(chars)) == utf16_len(chars),
    decreases chars.len(),
{
    if chars.len() != 0 {
        let bytes = encode_utf8(chars);
        let head = encode_scalar(chars[0] as u32);
        let rest = encode_utf8(chars.drop_first());
        encode_utf8_first_scalar(chars);
        char_is_scalar(chars[0]);
        assert(take_first_scalar(bytes) =~= head);
        lemma_unit_count_scalar(bytes);
        lemma_unit_count_concat(head, rest);
        lemma_unit_count_text(chars.drop_first());
    }
}

/// Counts the UTF-16 code units of UTF-8 text, modulo 2 to the power 32.
fn utf16_count(bytes: &[u8]) -> (units: u32)
    ensures
        units == unit_count(bytes@) % 0x1_0000_0000,
{
    let mut units: u32 = 0;
    let mut i: usize = 0;
    assert(bytes@.take(0).len() == 0);
    while i < bytes.len()
        invariant
            i <= bytes.len(),
            units == unit_count(bytes@.take(i as int)) % 0x1_0000_0000,
        decreases bytes.len() - i,
    {
        let byte = bytes[i];
        let weight: u32 = if 0x80 <= byte && byte <= 0xBF {
            0
        } else if byte >= 0xF0 {
            2
        } else {
            1
        };
        proof {
            let next = bytes@.take(i + 1);
            assert(next.drop_last() =~= bytes@.take(i as int));
            assert(next.last() == byte);
        }
        units = units.wrapping_add(weight);
        i = i + 1;
    }
    assert(bytes@.take(i as int) =~= bytes@);
    units
}

/// The bytes that stand for a text: its length in UTF-16 code units, of
/// which the low 32 bits are kept, as a variable-length number, then its
/// UTF-8 bytes.
pub open spec fn text_encoding(chars: Seq<char>) -> Seq<u8> {
    varnum_encoding(utf16_len(chars) % 0x1_0000_0000) + encode_utf8(chars)
}

impl McProtoSelf for String {
    type Meta = Length;

    open spec fn encoding(value: Seq<char>) -> Seq<u8> {
        text_encoding(value)
    }

    /// The bound in `meta` is accepted and not enforced.
    open spec fn decoding(bytes: Seq<u8>, meta: Length) -> Decoded<Seq<char>> {
        text_decoding(bytes)
    }

    fn write<W: McWriter + ?Sized>(self, writer: &mut W) -> (r: Result<(), ProtoError>) {
        let bytes = self.as_str().as_bytes();
        let units = utf16_count(bytes);
        proof {
            lemma_unit_count_text(self@);
        }
        match <VarNum as McProto<u32>>::write(units, writer) {
            Ok(()) => {},
            Err(e) => {
                return Err(e);
            },
        }
        let ghost prefix = writer.written();
        let mut i: usize = 0;
        assert(prefix + bytes@.take(0) =~= prefix);
        while i < bytes.len()
            invariant
                i <= bytes.len(),
                writer.written() == prefix + bytes@.take(i as int),
                old(writer).infallible() ==> writer.infallible(),
            decreases bytes.len() - i,
        {
            match McProtoSelf::write(bytes[i], writer) {
                Ok(()) => {},
                Err(e) => {
                    return Err(e);
                },
            }
            assert(prefix + bytes@.take(i as int) + seq![bytes@[i as int]] =~= prefix
                + bytes@.take(i + 1));
            i = i + 1;
        }
        assert(bytes@.take(i as int) =~= bytes@);
        assert(old(writer).written() + varnum_encoding(units as nat) + bytes@ =~= old(
            writer,
        ).written() + text_encoding(self@));
        Ok(())
    }

    fn read<R: McReader + ?Sized>(reader: &mut R, meta: Length) -> (r: Result<String, ProtoError>) {
        let ghost bytes = old(reader).remaining();
        let need = match <VarNum as McProto<u32>>::read(reader, ()) {
            Ok(need) => need,
            Err(e) => {
                return Err(e);
            },
        };
        let ghost prefix = <VarNum as McProto<u32>>::decoding(bytes, ())->Value_used;
        let out = match read_span(reader, need) {
            Ok(out) => out,
            Err(e) => {
                return Err(e);
            },
        };
        proof {
            let used = text_span(bytes.skip(prefix as int), need as nat)->Value_used;
            assert(bytes.skip(prefix as int).skip(used as int) =~= bytes.skip(
                (prefix + used) as int,
            ));
        }
        match text_of(out) {
            Some(text) => Ok(text),
            None => Err(ProtoError::Decode(DecodeFault::MalformedText)),
        }
    }
}

/// Bytes that start with a valid scalar read as that scalar.
pub proof fn lemma_first_scalar_valid(bytes: Seq<u8>)
    requires
        valid_first_scalar(bytes),
    ensures
        first_scalar(bytes) == (Decoded::Value {
            value: if length_of_first_scalar(bytes) == 4 {
                2nat
            } else {
                1nat
            },
            used: length_of_first_scalar(bytes) as nat,
        }),
{
}

/// The bytes of a text, whatever follows them, read as exactly that text
/// when its length in code units is asked for.
pub proof fn lemma_text_span_round_trip(chars: Seq<char>, rest: Seq<u8>)
    ensures
        text_span(encode_utf8(chars) + rest, utf16_len(chars)) == (Decoded::Value {
            value: utf16_len(chars),
            used: encode_utf8(chars).len(),
        }),
    decreases chars.len(),
{
    if chars.len() != 0 {
        let bytes = encode_utf8(chars);
        let whole = bytes + rest;
        let head = encode_scalar(chars[0] as u32);
        let tail = chars.drop_first();
        encode_utf8_first_scalar(chars);
        char_is_scalar(chars[0]);
        let width = length_of_first_scalar(bytes);
        assert(width == head.len());
        assert(bytes.len() >= width);
        assert forall|i: int| 0 <= i < bytes.len() implies whole[i] == bytes[i] by {}
        assert(whole[0] == bytes[0]);
        assert(valid_first_scalar(whole));
        assert(length_of_first_scalar(whole) == width);
        lemma_first_scalar_valid(whole);
        assert(whole.skip(width) =~= encode_utf8(tail) + rest);
        lemma_text_span_round_trip(tail, rest);
    }
}

/// What was encoded is decoded again: the bytes that stand for a text of
/// fewer than 2 to the power 32 UTF-16 code units, whatever follows them,
/// denote that text and nothing more.
pub proof fn lemma_text_round_trip(chars: Seq<char>, rest: Seq<u8>)
    requires
        utf16_len(chars) < 0x1_0000_0000,
    ensures
        text_decoding(text_encoding(chars) + rest) == (Decoded::Value {
            value: chars,
            used: text_encoding(chars).len(),
        }),
{
    let units = utf16_len(chars);
    let count = varnum_encoding(units);
    let body = encode_utf8(chars) + rest;
    assert(radix(5) == 0x8_0000_0000) by {
        reveal_with_fuel(radix, 6);
    }
    lemma_varnum_round_trip(units, body, 5, DecodeFault::VarIntOverflow);
    lemma_text_span_round_trip(chars, rest);
    encode_utf8_decode_utf8(chars);
    assert(text_encoding(chars) + rest =~= count + body);
    assert((count + body).skip(count.len() as int) =~= body);
    assert(body.take(encode_utf8(chars).len() as int) =~= encode_utf8(chars));
}

/// A scalar is read only where the bytes start with a valid one.
pub proof fn lemma_first_scalar_value(bytes: Seq<u8>)
    requires
        first_scalar(bytes) is Value,
    ensures
        valid_first_scalar(bytes),
        first_scalar(bytes)->Value_used == length_of_first_scalar(bytes),
        first_scalar(bytes)->Value_value == (if length_of_first_scalar(bytes) == 4 {
            2nat
        } else {
            1nat
        }),
{
}

/// The text of valid UTF-8 bytes has as many code units as the bytes count.
pub proof fn lemma_unit_count_valid(bytes: Seq<u8>)
    requires
        valid_utf8(bytes),
    ensures
        utf16_len(decode_utf8(bytes)) == unit_count(bytes),
{
    decode_utf8_encode_utf8(bytes);
    lemma_unit_count_text(decode_utf8(bytes));
}

/// What a read of text takes is valid UTF-8 of at least the code units
/// asked for, and of at most one more.
pub proof fn lemma_text_span_sound(bytes: Seq<u8>, need: nat)
    requires
        text_span(bytes, need) is Value,
    ensures
        text_span(bytes, need)->Value_used <= bytes.len(),
        valid_utf8(bytes.take(text_span(bytes, need)->Value_used as int)),
        unit_count(bytes.take(text_span(bytes, need)->Value_used as int)) == text_span(
            bytes,
            need,
        )->Value_value,
        need <= text_span(bytes, need)->Value_value <= need + 1,
    decreases need,
{
    let used = text_span(bytes, need)->Value_used;
    if need == 0 {
        assert(bytes.take(0) =~= Seq::<u8>::empty());
    } else {
        lemma_first_scalar_value(bytes);
        let width = first_scalar(bytes)->Value_used;
        let units = first_scalar(bytes)->Value_value;
        let rest = bytes.skip(width as int);
        let due = still_due(need, units);
        lemma_text_span_sound(rest, due);
        let more = text_span(rest, due)->Value_used;
        let taken = bytes.take(used as int);
        assert(taken =~= bytes.take(width as int) + rest.take(more as int));
        assert(valid_first_scalar(taken));
        assert(pop_first_scalar(taken) =~= rest.take(more as int));
        assert(take_first_scalar(bytes) =~= bytes.take(width as int));
        lemma_unit_count_scalar(bytes);
        lemma_unit_count_concat(bytes.take(width as int), rest.take(more as int));
    }
}

/// A read of text takes no more than it must: no shorter run of bytes from
/// the start is valid UTF-8 of the code units asked for.
pub proof fn lemma_text_span_least(bytes: Seq<u8>, need: nat, shorter: nat)
    requires
        text_span(bytes, need) is Value,
        shorter < text_span(bytes, need)->Value_used,
        valid_utf8(bytes.take(shorter as int)),
    ensures
        unit_count(bytes.take(shorter as int)) < need,
    decreases need,
{
    lemma_text_span_sound(bytes, need);
    let head = bytes.take(shorter as int);
    if shorter == 0 {
    } else {
        lemma_first_scalar_value(bytes);
        let width = first_scalar(bytes)->Value_used;
        let units = first_scalar(bytes)->Value_value;
        let rest = bytes.skip(width as int);
        let due = still_due(need, units);
        assert(head[0] == bytes[0]);
        assert(valid_first_scalar(head));
        assert(length_of_first_scalar(head) == width);
        assert(shorter >= width);
        let tail = rest.take(shorter - width);
        assert(pop_first_scalar(head) =~= tail);
        assert(head =~= bytes.take(width as int) + tail);
        assert(take_first_scalar(bytes) =~= bytes.take(width as int));
        lemma_unit_count_scalar(bytes);
        lemma_unit_count_concat(bytes.take(width as int), tail);
        lemma_text_span_least(rest, due, (shorter - width) as nat);
    }
}

} // verus!
