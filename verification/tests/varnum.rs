use mc_proto::buffer::ByteSource;
use mc_proto::error::{DecodeFault, ProtoError};
use mc_proto::types::VarNum;
use mc_proto::McProto;

fn varint(value: u32) -> Vec<u8> {
    let mut sink: Vec<u8> = Vec::new();
    <VarNum as McProto<u32>>::write(value, &mut sink).unwrap();
    sink
}

fn varlong(value: u64) -> Vec<u8> {
    let mut sink: Vec<u8> = Vec::new();
    <VarNum as McProto<u64>>::write(value, &mut sink).unwrap();
    sink
}

fn read_varint(bytes: &[u8]) -> Result<u32, ProtoError> {
    let mut source = ByteSource::new(bytes.to_vec());
    <VarNum as McProto<u32>>::read(&mut source, ())
}

fn read_varlong(bytes: &[u8]) -> Result<u64, ProtoError> {
    let mut source = ByteSource::new(bytes.to_vec());
    <VarNum as McProto<u64>>::read(&mut source, ())
}

#[test]
fn varnum_constants() {
    assert_eq!(VarNum::SEGMENT_BITS, 0x7F);
    assert_eq!(VarNum::CONTINUE_BIT, 0x80);
}

#[test]
fn varint_zero_is_one_zero_byte() {
    assert_eq!(varint(0), vec![0x00]);
}

#[test]
fn varint_127_is_one_byte() {
    assert_eq!(varint(127), vec![0x7F]);
}

#[test]
fn varint_128_is_two_bytes() {
    assert_eq!(varint(128), vec![0x80, 0x01]);
}

#[test]
fn varint_300() {
    assert_eq!(varint(300), vec![0xAC, 0x02]);
    assert_eq!(read_varint(&[0xAC, 0x02]).unwrap(), 300);
}

#[test]
fn varint_max_is_five_bytes() {
    assert_eq!(varint(u32::MAX), vec![0xFF, 0xFF, 0xFF, 0xFF, 0x0F]);
    assert_eq!(read_varint(&[0xFF, 0xFF, 0xFF, 0xFF, 0x0F]).unwrap(), u32::MAX);
}

#[test]
fn varint_known_values() {
    assert_eq!(varint(1), vec![0x01]);
    assert_eq!(varint(255), vec![0xFF, 0x01]);
    assert_eq!(varint(25565), vec![0xDD, 0xC7, 0x01]);
    assert_eq!(varint(2097151), vec![0xFF, 0xFF, 0x7F]);
    assert_eq!(varint(2147483647), vec![0xFF, 0xFF, 0xFF, 0xFF, 0x07]);
}

#[test]
fn varint_sixth_byte_is_overflow() {
    assert!(matches!(
        read_varint(&[0x80, 0x80, 0x80, 0x80, 0x80, 0x01]),
        Err(ProtoError::Decode(DecodeFault::VarIntOverflow))
    ));
}

#[test]
fn varint_overflow_needs_no_sixth_byte() {
    assert!(matches!(
        read_varint(&[0xFF, 0xFF, 0xFF, 0xFF, 0xFF]),
        Err(ProtoError::Decode(DecodeFault::VarIntOverflow))
    ));
}

#[test]
fn varint_overflow_stops_after_five_bytes() {
    let mut source = ByteSource::new(vec![0x80; 8]);
    assert!(<VarNum as McProto<u32>>::read(&mut source, ()).is_err());
    assert_eq!(source.len(), 3);
}

#[test]
fn varint_truncated_is_stream_error() {
    assert!(matches!(read_varint(&[]), Err(ProtoError::Stream(_))));
    assert!(matches!(read_varint(&[0x80, 0x80]), Err(ProtoError::Stream(_))));
}

#[test]
fn varint_fifth_group_keeps_its_low_four_bits() {
    assert_eq!(read_varint(&[0xFF, 0xFF, 0xFF, 0xFF, 0x7F]).unwrap(), u32::MAX);
    assert_eq!(read_varint(&[0x00 | 0x80, 0x80, 0x80, 0x80, 0x10]).unwrap(), 0);
}

#[test]
fn varint_padded_zero_reads_zero() {
    assert_eq!(read_varint(&[0x80, 0x00]).unwrap(), 0);
}

#[test]
fn varint_round_trip() {
    for value in [0u32, 1, 127, 128, 16383, 16384, 0x0FFF_FFFF, 0x1000_0000, u32::MAX] {
        assert_eq!(read_varint(&varint(value)).unwrap(), value);
    }
}

#[test]
fn varint_read_leaves_the_rest() {
    let mut source = ByteSource::new(vec![0x80, 0x01, 0x55]);
    assert_eq!(<VarNum as McProto<u32>>::read(&mut source, ()).unwrap(), 128);
    assert_eq!(source.len(), 1);
}

#[test]
fn varlong_small_values_match_varint() {
    assert_eq!(varlong(0), vec![0x00]);
    assert_eq!(varlong(127), vec![0x7F]);
    assert_eq!(varlong(128), vec![0x80, 0x01]);
}

#[test]
fn varlong_max_is_ten_bytes() {
    assert_eq!(
        varlong(u64::MAX),
        vec![0xFF, 0xFF, 0xFF, 0xFF, 0xFF, 0xFF, 0xFF, 0xFF, 0xFF, 0x01]
    );
    assert_eq!(read_varlong(&varlong(u64::MAX)).unwrap(), u64::MAX);
}

#[test]
fn varlong_i64_max_is_nine_bytes() {
    assert_eq!(
        varlong(9223372036854775807),
        vec![0xFF, 0xFF, 0xFF, 0xFF, 0xFF, 0xFF, 0xFF, 0xFF, 0x7F]
    );
}

#[test]
fn varlong_eleventh_byte_is_overflow() {
    assert!(matches!(
        read_varlong(&[0x80, 0x80, 0x80, 0x80, 0x80, 0x80, 0x80, 0x80, 0x80, 0x80, 0x01]),
        Err(ProtoError::Decode(DecodeFault::VarLongOverflow))
    ));
}

#[test]
fn varlong_six_bytes_is_fine() {
    assert_eq!(
        read_varlong(&[0x80, 0x80, 0x80, 0x80, 0x80, 0x01]).unwrap(),
        1u64 << 35
    );
}

#[test]
fn varlong_tenth_group_keeps_its_low_bit() {
    assert_eq!(
        read_varlong(&[0x80, 0x80, 0x80, 0x80, 0x80, 0x80, 0x80, 0x80, 0x80, 0x7F]).unwrap(),
        1u64 << 63
    );
}

#[test]
fn varlong_truncated_is_stream_error() {
    assert!(matches!(read_varlong(&[0xFF; 9]), Err(ProtoError::Stream(_))));
}

#[test]
fn varlong_round_trip() {
    for value in [0u64, 1, 127, 128, 1 << 35, (1 << 56) - 1, 1 << 56, 1 << 63, u64::MAX] {
        assert_eq!(read_varlong(&varlong(value)).unwrap(), value);
    }
}
