//! What holds of every value: whatever a codec writes, it reads back.
use vstd::prelude::*;

use crate::endian::{
    lemma_fixed_round_trip, lemma_signed_round_trip, lemma_span_values, unsigned_of,
};
use crate::error::DecodeFault;
use crate::{round_trips, McProtoSelf};
use crate::text::{
    lemma_text_round_trip, lemma_text_span_least, lemma_text_span_sound, text_span, unit_count,
    utf16_len,
};
use crate::types::{Length, VarNum};
use crate::varnum::{lemma_varnum_encoding_len, lemma_varnum_round_trip, radix, varnum_encoding};

verus! {

/// Every boolean takes one byte and survives a round trip.
pub proof fn law_bool_round_trip(value: bool, rest: Seq<u8>)
    ensures
        <bool as McProtoSelf>::encoding(value).len() == 1,
        round_trips::<bool, bool>(value, (), rest),
{
    let bytes = seq![crate::types::bool_byte(value)] + rest;
    assert(bytes[0] == crate::types::bool_byte(value));
}

/// Every byte takes one byte and survives a round trip.
pub proof fn law_u8_round_trip(value: u8, rest: Seq<u8>)
    ensures
        <u8 as McProtoSelf>::encoding(value).len() == 1,
        round_trips::<u8, u8>(value, (), rest),
{
    let bytes = seq![value] + rest;
    assert(bytes[0] == value);
}

/// Every `i8` takes 1 byte and survives a round trip.
pub proof fn law_i8_round_trip(value: i8, rest: Seq<u8>)
    ensures
        <i8 as McProtoSelf>::encoding(value).len() == 1,
        round_trips::<i8, i8>(value, (), rest),
{
    lemma_span_values();
    lemma_signed_round_trip(value as int, 1);
    lemma_fixed_round_trip(unsigned_of(value as int, 1), 1, rest);
}

/// Every `u16` takes 2 bytes and survives a round trip.
pub proof fn law_u16_round_trip(value: u16, rest: Seq<u8>)
    ensures
        <u16 as McProtoSelf>::encoding(value).len() == 2,
        round_trips::<u16, u16>(value, (), rest),
{
    lemma_span_values();
    lemma_fixed_round_trip(value as nat, 2, rest);
}

/// Every `i16` takes 2 bytes and survives a round trip.
pub proof fn law_i16_round_trip(value: i16, rest: Seq<u8>)
    ensures
        <i16 as McProtoSelf>::encoding(value).len() == 2,
        round_trips::<i16, i16>(value, (), rest),
{
    lemma_span_values();
    lemma_signed_round_trip(value as int, 2);
    lemma_fixed_round_trip(unsigned_of(value as int, 2), 2, rest);
}

/// Every `u32` takes 4 bytes and survives a round trip.
pub proof fn law_u32_round_trip(value: u32, rest: Seq<u8>)
    ensures
        <u32 as McProtoSelf>::encoding(value).len() == 4,
        round_trips::<u32, u32>(value, (), rest),
{
    lemma_span_values();
    lemma_fixed_round_trip(value as nat, 4, rest);
}

/// Every `i32` takes 4 bytes and survives a round trip.
pub proof fn law_i32_round_trip(value: i32, rest: Seq<u8>)
    ensures
        <i32 as McProtoSelf>::encoding(value).len() == 4,
        round_trips::<i32, i32>(value, (), rest),
{
    lemma_span_values();
    lemma_signed_round_trip(value as int, 4);
    lemma_fixed_round_trip(unsigned_of(value as int, 4), 4, rest);
}

/// Every `u64` takes 8 bytes and survives a round trip.
pub proof fn law_u64_round_trip(value: u64, rest: Seq<u8>)
    ensures
        <u64 as McProtoSelf>::encoding(value).len() == 8,
        round_trips::<u64, u64>(value, (), rest),
{
    lemma_span_values();
    lemma_fixed_round_trip(value as nat, 8, rest);
}

/// Every `i64` takes 8 bytes and survives a round trip.
pub proof fn law_i64_round_trip(value: i64, rest: Seq<u8>)
    ensures
        <i64 as McProtoSelf>::encoding(value).len() == 8,
        round_trips::<i64, i64>(value, (), rest),
{
    lemma_span_values();
    lemma_signed_round_trip(value as int, 8);
    lemma_fixed_round_trip(unsigned_of(value as int, 8), 8, rest);
}

/// Every 32-bit number survives a round trip through the variable-length
/// format, in at most five bytes.
pub proof fn law_varint_round_trip(value: u32, rest: Seq<u8>)
    ensures
        round_trips::<u32, VarNum>(value, (), rest),
        1 <= varnum_encoding(value as nat).len() <= 5,
{
    assert(radix(5) == 0x8_0000_0000) by {
        reveal_with_fuel(radix, 6);
    }
    lemma_varnum_encoding_len(value as nat, 5);
    lemma_varnum_round_trip(value as nat, rest, 5, DecodeFault::VarIntOverflow);
}

/// Every 64-bit number survives a round trip through the variable-length
/// format, in at most ten bytes.
pub proof fn law_varlong_round_trip(value: u64, rest: Seq<u8>)
    ensures
        round_trips::<u64, VarNum>(value, (), rest),
        1 <= varnum_encoding(value as nat).len() <= 10,
{
    assert(radix(10) == 0x40_0000_0000_0000_0000) by {
        reveal_with_fuel(radix, 11);
    }
    lemma_varnum_encoding_len(value as nat, 10);
    lemma_varnum_round_trip(value as nat, rest, 10, DecodeFault::VarLongOverflow);
}

/// Every text of fewer than 2 to the power 32 UTF-16 code units survives a
/// round trip, whatever bound the read is given.
pub proof fn law_text_round_trip(value: Seq<char>, meta: Length, rest: Seq<u8>)
    requires
        utf16_len(value) < 0x1_0000_0000,
    ensures
        round_trips::<String, String>(value, meta, rest),
{
    lemma_text_round_trip(value, rest);
}

/// A read of text takes the shortest run of bytes that is valid UTF-8 of
/// at least the UTF-16 code units asked for: what it takes is such a run,
/// and no shorter one is.
pub proof fn law_text_read_takes_least(bytes: Seq<u8>, need: nat, shorter: nat)
    requires
        text_span(bytes, need) is Value,
    ensures
        ({
            let used = text_span(bytes, need)->Value_used;
            &&& used <= bytes.len()
            &&& vstd::utf8::valid_utf8(bytes.take(used as int))
            &&& unit_count(bytes.take(used as int)) >= need
            &&& shorter < used && vstd::utf8::valid_utf8(bytes.take(shorter as int))
                ==> unit_count(bytes.take(shorter as int)) < need
        }),
{
    lemma_text_span_sound(bytes, need);
    let used = text_span(bytes, need)->Value_used;
    if shorter < used && vstd::utf8::valid_utf8(bytes.take(shorter as int)) {
        lemma_text_span_least(bytes, need, shorter);
    }
}

} // verus!
