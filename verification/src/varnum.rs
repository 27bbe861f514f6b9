//! The variable-length number format: seven payload bits per byte, least
//! significant group first, the top bit of a byte set when more follow.
use vstd::prelude::*;

use crate::error::{DecodeFault, ProtoError};
use crate::types::VarNum;
use crate::{Decoded, McProto, McProtoSelf, McReader, McWriter};

verus! {

/// The weight of the group at index `k`: 128 to the power `k`.
pub open spec fn radix(k: nat) -> nat
    decreases k,
{
    if k == 0 {
        1
    } else {
        128 * radix((k - 1) as nat)
    }
}

/// The bytes that stand for `value`.
pub open spec fn varnum_encoding(value: nat) -> Seq<u8>
    decreases value,
{
    if value < 128 {
        seq![value as u8]
    } else {
        seq![(value % 128 + 128) as u8] + varnum_encoding(value / 128)
    }
}

/// The number that the payload bits of `bytes` spell.
pub open spec fn group_value(bytes: Seq<u8>) -> nat
    decreases bytes.len(),
{
    if bytes.len() == 0 {
        0
    } else {
        (bytes[0] % 128) as nat + 128 * group_value(bytes.skip(1))
    }
}

/// How many bytes at the start of `bytes` have their continuation bit set.
pub open spec fn continuation_run(bytes: Seq<u8>) -> nat
    decreases bytes.len(),
{
    if bytes.len() == 0 || bytes[0] < 128 {
        0
    } else {
        1 + continuation_run(bytes.skip(1))
    }
}

/// The meaning of a byte stream that starts with `bytes`, for a number of at
/// most `groups` bytes: the payload up to and including the first byte
/// without a continuation bit; `fault` where the first `groups` bytes all
/// carry one.
pub open spec fn varnum_decoding(bytes: Seq<u8>, groups: nat, fault: DecodeFault) -> Decoded<nat> {
    let run = continuation_run(bytes);
    if run >= groups {
        Decoded::Malformed(fault)
    } else if run >= bytes.len() {
        Decoded::Short
    } else {
        Decoded::Value { value: group_value(bytes.take((run + 1) as int)), used: run + 1 }
    }
}

/// A run of continuation bytes is as long as the place of the first byte
/// that is none.
pub proof fn lemma_continuation_run(bytes: Seq<u8>, k: nat)
    requires
        k <= bytes.len(),
        forall|j: int| 0 <= j < k ==> bytes[j] >= 128,
        k == bytes.len() || bytes[k as int] < 128,
    ensures
        continuation_run(bytes) == k,
    decreases k,
{
    if k > 0 {
        let rest = bytes.skip(1);
        assert forall|j: int| 0 <= j < k - 1 implies rest[j] >= 128 by {
            assert(rest[j] == bytes[j + 1]);
        }
        lemma_continuation_run(rest, (k - 1) as nat);
    }
}

/// A run stops within the bytes, and every byte in it carries the bit.
pub proof fn lemma_continuation_run_bytes(bytes: Seq<u8>)
    ensures
        continuation_run(bytes) <= bytes.len(),
        forall|j: int| 0 <= j < continuation_run(bytes) ==> bytes[j] >= 128,
        continuation_run(bytes) < bytes.len() ==> bytes[continuation_run(bytes) as int] < 128,
    decreases bytes.len(),
{
    if bytes.len() != 0 && bytes[0] >= 128 {
        let rest = bytes.skip(1);
        lemma_continuation_run_bytes(rest);
        assert forall|j: int| 0 <= j < continuation_run(bytes) implies bytes[j] >= 128 by {
            if j > 0 {
                assert(bytes[j] == rest[j - 1]);
            }
        }
    }
}

/// One more group adds its payload at the weight of its place.
pub proof fn lemma_group_value_push(bytes: Seq<u8>, byte: u8)
    ensures
        group_value(bytes.push(byte)) == group_value(bytes) + (byte % 128) * radix(bytes.len()),
    decreases bytes.len(),
{
    let more = bytes.push(byte);
    let p = (byte % 128) as int;
    if bytes.len() == 0 {
        assert(more.skip(1) =~= Seq::<u8>::empty());
        assert(group_value(more.skip(1)) == 0);
        assert(more[0] == byte);
        assert(group_value(more) == p + 128 * 0);
        assert(radix(0) == 1);
        assert(p * 1 == p);
    } else {
        assert(more.skip(1) =~= bytes.skip(1).push(byte));
        lemma_group_value_push(bytes.skip(1), byte);
        let r = radix((bytes.len() - 1) as nat) as int;
        assert(radix(bytes.len()) == 128 * r);
        assert(more[0] == bytes[0]);
        assert(group_value(more) == (bytes[0] % 128) + 128 * (group_value(bytes.skip(1)) + p * r));
        assert(128 * (p * r) == p * (128 * r)) by (nonlinear_arith);
    }
}

/// The payload of `k` groups is below the weight of group `k`.
pub proof fn lemma_group_value_bound(bytes: Seq<u8>)
    ensures
        group_value(bytes) < radix(bytes.len()),
    decreases bytes.len(),
{
    if bytes.len() != 0 {
        lemma_group_value_bound(bytes.skip(1));
    }
}

impl VarNum {
    /// The most bytes that a number of `width` bits may take.
    pub open spec fn max_groups(width: nat) -> nat {
        (width + 6) / 7
    }

    /// Reads groups until one comes without a continuation bit, for a number
    /// of `width` bits: the result holds the low 64 bits of the payload.
    fn read_groups<R: McReader + ?Sized>(reader: &mut R, width: u8, fault: DecodeFault) -> (r:
        Result<u64, ProtoError>)
        requires
            1 <= width <= 64,
        ensures
            old(reader).steady() ==> final(reader).steady(),
            match r {
                Ok(v) => varnum_decoding(old(reader).remaining(), Self::max_groups(width as nat), fault)
                    matches Decoded::Value { value, used } && v == value % 0x1_0000_0000_0000_0000
                    && used <= old(reader).remaining().len() && final(reader).remaining() == old(
                    reader,
                ).remaining().skip(used as int),
                Err(ProtoError::Decode(f)) => varnum_decoding(
                    old(reader).remaining(),
                    Self::max_groups(width as nat),
                    fault,
                ) == Decoded::<nat>::Malformed(f),
                Err(ProtoError::Stream(_)) => old(reader).steady() ==> varnum_decoding(
                    old(reader).remaining(),
                    Self::max_groups(width as nat),
                    fault,
                ) is Short,
            },
    {
        let ghost bytes = old(reader).remaining();
        let ghost groups = Self::max_groups(width as nat);
        let mut value: u64 = 0;
        let mut position: u8 = 0;
        let ghost mut count: nat = 0;
        assert(1u64 << 0u64 == 1) by (bit_vector);
        assert(bytes.take(0) =~= Seq::<u8>::empty());
        loop
            invariant
                1 <= width <= 64,
                bytes == old(reader).remaining(),
                groups == Self::max_groups(width as nat),
                old(reader).steady() ==> reader.steady(),
                position == 7 * count,
                position < width,
                count <= bytes.len(),
                reader.remaining() == bytes.skip(count as int),
                forall|j: int| 0 <= j < count ==> bytes[j] >= 128,
                value == group_value(bytes.take(count as int)),
                (1u64 << (position as u64)) == radix(count),
            decreases width - position,
        {
            let ghost head = bytes.take(count as int);
            proof {
                lemma_group_value_bound(head);
                lemma_continuation_run_bytes(bytes);
            }
            match reader.read_byte() {
                Err(e) => {
                    proof {
                        if old(reader).steady() {
                            lemma_continuation_run(bytes, count);
                        }
                    }
                    return Err(ProtoError::Stream(e));
                },
                Ok(byte) => {
                    assert(byte == bytes[count as int]);
                    let group: u64 = (byte & Self::SEGMENT_BITS) as u64;
                    let shift: u64 = position as u64;
                    let low: u64 = value;
                    assert((byte & 0x7Fu8) as u64 == (byte % 128) as u64) by (bit_vector);
                    assert((byte & 0x80u8 == 0) <==> byte < 128) by (bit_vector);
                    value = value | (group << shift);
                    proof {
                        assert(bytes.take((count + 1) as int) =~= head.push(byte));
                        lemma_group_value_push(head, byte);
                        let whole = group_value(bytes.take((count + 1) as int));
                        assert(whole == low + group * radix(count));
                        if shift <= 56 {
                            assert((low | (group << shift)) == low + group * (1u64 << shift))
                                by (bit_vector)
                                requires
                                    shift <= 56,
                                    group < 128,
                                    low < (1u64 << shift),
                            ;
                            assert((1u64 << ((shift + 7) as u64)) == 128 * (1u64 << shift))
                                by (bit_vector)
                                requires
                                    shift <= 56,
                            ;
                            assert(value == whole);
                        } else {
                            assert(shift == 63);
                            assert((low | (group << shift)) == (low + group * (1u64 << shift))
                                % 0x1_0000_0000_0000_0000) by (bit_vector)
                                requires
                                    shift == 63,
                                    group < 128,
                                    low < (1u64 << shift),
                            ;
                            assert(value == whole % 0x1_0000_0000_0000_0000);
                        }
                    }
                    if (byte & Self::CONTINUE_BIT) == 0 {
                        proof {
                            lemma_continuation_run(bytes, count);
                        }
                        return Ok(value);
                    }
                    position = position + 7;
                    proof {
                        count = count + 1;
                    }
                    if position >= width {
                        proof {
                            if continuation_run(bytes) < count {
                                assert(bytes[continuation_run(bytes) as int] >= 128);
                            }
                        }
                        return Err(ProtoError::Decode(fault));
                    }
                },
            }
        }
    }

    /// Writes the groups of `value`, least significant first.
    fn write_groups<W: McWriter + ?Sized>(value: u64, writer: &mut W) -> (r: Result<(), ProtoError>)
        ensures
            r is Ok ==> final(writer).written() == old(writer).written() + varnum_encoding(
                value as nat,
            ),
            r matches Err(e) ==> e is Stream,
            old(writer).infallible() ==> r is Ok && final(writer).infallible(),
    {
        let mut rest: u64 = value;
        loop
            invariant
                writer.written() + varnum_encoding(rest as nat) == old(writer).written()
                    + varnum_encoding(value as nat),
                old(writer).infallible() ==> writer.infallible(),
            decreases rest,
        {
            let ghost before = writer.written();
            assert((rest & !0x7Fu64 == 0) <==> rest < 128) by (bit_vector);
            if rest & !0x7Fu64 == 0 {
                assert(varnum_encoding(rest as nat) == seq![rest as u8]);
                return McProtoSelf::write(rest as u8, writer);
            }
            let byte: u8 = (rest as u8 & Self::SEGMENT_BITS) | Self::CONTINUE_BIT;
            assert(((rest as u8 & 0x7Fu8) | 0x80u8) == (rest % 128 + 128) as u8) by (bit_vector);
            assert(rest >> 7 == rest / 128) by (bit_vector);
            match McProtoSelf::write(byte, writer) {
                Ok(()) => {},
                Err(e) => {
                    return Err(e);
                },
            }
            rest = rest >> 7;
            proof {
                assert(before + seq![byte] + varnum_encoding(rest as nat) =~= before + (seq![byte]
                    + varnum_encoding(rest as nat)));
            }
        }
    }
}

impl McProto<u32> for VarNum {
    type Meta = ();

    open spec fn encoding(value: u32) -> Seq<u8> {
        varnum_encoding(value as nat)
    }

    /// At most five bytes; of their payload the low 32 bits count.
    open spec fn decoding(bytes: Seq<u8>, meta: ()) -> Decoded<u32> {
        match varnum_decoding(bytes, 5, DecodeFault::VarIntOverflow) {
            Decoded::Value { value, used } => Decoded::Value {
                value: (value % 0x1_0000_0000) as u32,
                used,
            },
            Decoded::Short => Decoded::Short,
            Decoded::Malformed(fault) => Decoded::Malformed(fault),
        }
    }

    fn write<W: McWriter + ?Sized>(value: u32, writer: &mut W) -> (r: Result<(), ProtoError>) {
        Self::write_groups(value as u64, writer)
    }

    fn read<R: McReader + ?Sized>(reader: &mut R, meta: ()) -> (r: Result<u32, ProtoError>) {
        match Self::read_groups(reader, 32, DecodeFault::VarIntOverflow) {
            Ok(wide) => {
                let value: u32 = #[verifier::truncate] (wide as u32);
                assert(wide as u32 == wide % 0x1_0000_0000) by (bit_vector);
                Ok(value)
            },
            Err(e) => Err(e),
        }
    }
}

impl McProto<u64> for VarNum {
    type Meta = ();

    open spec fn encoding(value: u64) -> Seq<u8> {
        varnum_encoding(value as nat)
    }

    /// At most ten bytes; of their payload the low 64 bits count.
    open spec fn decoding(bytes: Seq<u8>, meta: ()) -> Decoded<u64> {
        match varnum_decoding(bytes, 10, DecodeFault::VarLongOverflow) {
            Decoded::Value { value, used } => Decoded::Value {
                value: (value % 0x1_0000_0000_0000_0000) as u64,
                used,
            },
            Decoded::Short => Decoded::Short,
            Decoded::Malformed(fault) => Decoded::Malformed(fault),
        }
    }

    fn write<W: McWriter + ?Sized>(value: u64, writer: &mut W) -> (r: Result<(), ProtoError>) {
        Self::write_groups(value, writer)
    }

    fn read<R: McReader + ?Sized>(reader: &mut R, meta: ()) -> (r: Result<u64, ProtoError>) {
        Self::read_groups(reader, 64, DecodeFault::VarLongOverflow)
    }
}

/// A number below the weight of group `groups` takes at most `groups` bytes,
/// and at least one.
pub proof fn lemma_varnum_encoding_len(value: nat, groups: nat)
    requires
        groups >= 1,
        value < radix(groups),
    ensures
        1 <= varnum_encoding(value).len() <= groups,
    decreases value,
{
    if value >= 128 {
        assert(radix(1) == 128) by {
            reveal_with_fuel(radix, 2);
        }
        assert(radix(groups) == 128 * radix((groups - 1) as nat));
        lemma_varnum_encoding_len(value / 128, (groups - 1) as nat);
    }
}

/// What was encoded is decoded again: the bytes that stand for `value`,
/// whatever follows them, denote `value` and nothing more.
pub proof fn lemma_varnum_round_trip(value: nat, rest: Seq<u8>, groups: nat, fault: DecodeFault)
    requires
        groups >= 1,
        value < radix(groups),
    ensures
        varnum_decoding(varnum_encoding(value) + rest, groups, fault) == (Decoded::Value {
            value,
            used: varnum_encoding(value).len(),
        }),
{
    let bytes = varnum_encoding(value);
    lemma_varnum_encoding_len(value, groups);
    lemma_varnum_encoding_shape(value);
    let last = (bytes.len() - 1) as nat;
    assert forall|j: int| 0 <= j < last implies (bytes + rest)[j] >= 128 by {
        assert((bytes + rest)[j] == bytes[j]);
    }
    assert((bytes + rest)[last as int] == bytes[last as int]);
    lemma_continuation_run(bytes + rest, last);
    assert((bytes + rest).take((last + 1) as int) =~= bytes);
}

/// In the bytes that stand for a number, every byte but the last carries
/// the continuation bit, and their payload spells the number.
pub proof fn lemma_varnum_encoding_shape(value: nat)
    ensures
        forall|j: int|
            0 <= j < varnum_encoding(value).len() - 1 ==> varnum_encoding(value)[j] >= 128,
        varnum_encoding(value).last() < 128,
        group_value(varnum_encoding(value)) == value,
    decreases value,
{
    let bytes = varnum_encoding(value);
    if value < 128 {
        assert(bytes.skip(1) =~= Seq::<u8>::empty());
        assert(group_value(bytes.skip(1)) == 0);
    } else {
        let tail = varnum_encoding(value / 128);
        lemma_varnum_encoding_shape(value / 128);
        assert(bytes.skip(1) =~= tail);
        assert forall|j: int| 0 <= j < bytes.len() - 1 implies bytes[j] >= 128 by {
            if j > 0 {
                assert(bytes[j] == tail[j - 1]);
            }
        }
        assert(bytes.last() == tail.last());
    }
}

} // verus!
