use mc_proto::buffer::ByteSource;
use mc_proto::error::{DecodeFault, ProtoError};
use mc_proto::types::Length;
use mc_proto::McProtoSelf;

fn encoded(text: &str) -> Vec<u8> {
    let mut sink: Vec<u8> = Vec::new();
    McProtoSelf::write(text.to_string(), &mut sink).unwrap();
    sink
}

fn decoded(bytes: &[u8]) -> Result<String, ProtoError> {
    let mut source = ByteSource::new(bytes.to_vec());
    <String as McProtoSelf>::read(&mut source, Length::default())
}

#[test]
fn length_default_is_one() {
    assert_eq!(Length::default().get(), 1);
}

#[test]
fn length_is_never_zero() {
    assert!(Length::new(0).is_none());
    assert_eq!(Length::new(5).unwrap().get(), 5);
    assert_eq!(Length::new(1), Some(Length::default()));
    assert!(Length::new(2).unwrap() < Length::new(3).unwrap());
}

#[test]
fn text_ascii() {
    assert_eq!(encoded("abc"), vec![3, b'a', b'b', b'c']);
    assert_eq!(decoded(&[3, b'a', b'b', b'c']).unwrap(), "abc");
}

#[test]
fn text_empty() {
    assert_eq!(encoded(""), vec![0]);
    assert_eq!(decoded(&[0]).unwrap(), "");
}

#[test]
fn text_non_ascii_counts_code_units_not_bytes() {
    let bytes = encoded("héllo");
    assert_eq!(bytes, vec![5, b'h', 0xC3, 0xA9, b'l', b'l', b'o']);
    assert_eq!(decoded(&bytes).unwrap(), "héllo");
}

#[test]
fn text_surrogate_pair_counts_two() {
    let bytes = encoded("😀");
    assert_eq!(bytes, vec![2, 0xF0, 0x9F, 0x98, 0x80]);
    assert_eq!(decoded(&bytes).unwrap(), "😀");
}

#[test]
fn text_three_byte_scalar_counts_one() {
    let bytes = encoded("€");
    assert_eq!(bytes, vec![1, 0xE2, 0x82, 0xAC]);
    assert_eq!(decoded(&bytes).unwrap(), "€");
}

#[test]
fn text_mixed_round_trip() {
    for text in ["", "a", "héllo", "😀", "a😀b", "日本語", "\u{0}", "\u{7FF}\u{800}\u{FFFF}\u{10000}\u{10FFFF}"] {
        assert_eq!(decoded(&encoded(text)).unwrap(), text);
    }
}

#[test]
fn text_long_prefix_takes_two_bytes() {
    let text = "x".repeat(200);
    let bytes = encoded(&text);
    assert_eq!(&bytes[..2], &[0xC8, 0x01]);
    assert_eq!(bytes.len(), 202);
    assert_eq!(decoded(&bytes).unwrap(), text);
}

#[test]
fn text_read_takes_whole_scalars() {
    let mut source = ByteSource::new(vec![1, 0xF0, 0x9F, 0x98, 0x80, b'z']);
    assert_eq!(<String as McProtoSelf>::read(&mut source, Length::default()).unwrap(), "😀");
    assert_eq!(source.len(), 1);
}

#[test]
fn text_read_leaves_the_rest() {
    let mut source = ByteSource::new(vec![2, b'h', b'i', b'!', b'!']);
    assert_eq!(<String as McProtoSelf>::read(&mut source, Length::default()).unwrap(), "hi");
    assert_eq!(source.len(), 2);
}

#[test]
fn text_bound_is_not_enforced() {
    let mut source = ByteSource::new(vec![3, b'a', b'b', b'c']);
    let bound = Length::new(1).unwrap();
    assert_eq!(<String as McProtoSelf>::read(&mut source, bound).unwrap(), "abc");
}

#[test]
fn text_short_source_is_stream_error() {
    assert!(matches!(decoded(&[]), Err(ProtoError::Stream(_))));
    assert!(matches!(decoded(&[2, b'a']), Err(ProtoError::Stream(_))));
    assert!(matches!(decoded(&[1, 0xE2, 0x82]), Err(ProtoError::Stream(_))));
    assert!(matches!(decoded(&[1, 0xC3]), Err(ProtoError::Stream(_))));
}

#[test]
fn text_bad_lead_byte_is_malformed() {
    for lead in [0x80u8, 0xBF, 0xF8, 0xFF] {
        assert!(matches!(
            decoded(&[1, lead, b'a', b'a', b'a']),
            Err(ProtoError::Decode(DecodeFault::MalformedText))
        ));
    }
}

#[test]
fn text_bad_continuation_is_malformed() {
    assert!(matches!(
        decoded(&[1, 0xC3, 0x41]),
        Err(ProtoError::Decode(DecodeFault::MalformedText))
    ));
    assert!(matches!(
        decoded(&[1, 0xE2, 0x82, 0xC0]),
        Err(ProtoError::Decode(DecodeFault::MalformedText))
    ));
    assert!(matches!(
        decoded(&[1, 0xF0, 0x9F, 0x41]),
        Err(ProtoError::Decode(DecodeFault::MalformedText))
    ));
}

#[test]
fn text_overlong_is_malformed() {
    assert!(matches!(
        decoded(&[1, 0xC0, 0x80]),
        Err(ProtoError::Decode(DecodeFault::MalformedText))
    ));
    assert!(matches!(
        decoded(&[1, 0xE0, 0x80, 0x80]),
        Err(ProtoError::Decode(DecodeFault::MalformedText))
    ));
    assert!(matches!(
        decoded(&[1, 0xF0, 0x80, 0x80, 0x80]),
        Err(ProtoError::Decode(DecodeFault::MalformedText))
    ));
}

#[test]
fn text_surrogate_scalar_is_malformed() {
    assert!(matches!(
        decoded(&[1, 0xED, 0xA0, 0x80]),
        Err(ProtoError::Decode(DecodeFault::MalformedText))
    ));
}

#[test]
fn text_scalar_out_of_range_is_malformed() {
    assert!(matches!(
        decoded(&[1, 0xF4, 0x90, 0x80, 0x80]),
        Err(ProtoError::Decode(DecodeFault::MalformedText))
    ));
}

#[test]
fn text_length_overflow_surfaces() {
    assert!(matches!(
        decoded(&[0x80, 0x80, 0x80, 0x80, 0x80, 0x01]),
        Err(ProtoError::Decode(DecodeFault::VarIntOverflow))
    ));
}
