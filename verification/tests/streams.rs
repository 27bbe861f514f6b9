use mc_proto::buffer::ByteSource;
use mc_proto::error::ProtoError;
use mc_proto::types::{Length, VarNum};
use mc_proto::{McProto, McProtoSelf, McReader, McWriter};

/// A sink that accepts `room` bytes and fails on the next one.
struct Choked {
    taken: Vec<u8>,
    room: usize,
}

impl McWriter for Choked {
    fn write(&mut self, bytes: &[u8]) -> Result<(), anyhow::Error> {
        if bytes.len() > self.room {
            return Err(anyhow::Error::msg("sink is full"));
        }
        self.room -= bytes.len();
        self.taken.extend_from_slice(bytes);
        Ok(())
    }
}

/// A source that delivers its bytes one read at a time and fails after
/// `reads` reads, whatever is left.
struct Flaky {
    bytes: Vec<u8>,
    reads: usize,
}

impl McReader for Flaky {
    fn read(&mut self, bytes: &mut [u8]) -> Result<(), anyhow::Error> {
        if self.reads == 0 || bytes.len() > self.bytes.len() {
            return Err(anyhow::Error::msg("connection reset"));
        }
        self.reads -= 1;
        let rest = self.bytes.split_off(bytes.len());
        bytes.copy_from_slice(&self.bytes);
        self.bytes = rest;
        Ok(())
    }
}

fn choked(room: usize) -> Choked {
    Choked { taken: Vec::new(), room }
}

#[test]
fn buffer_sink_appends() {
    let mut sink: Vec<u8> = vec![9];
    McWriter::write(&mut sink, &[1, 2]).unwrap();
    McWriter::write(&mut sink, &[]).unwrap();
    McWriter::write(&mut sink, &[3]).unwrap();
    assert_eq!(sink, vec![9, 1, 2, 3]);
}

#[test]
fn byte_source_delivers_in_order() {
    let mut source = ByteSource::new(vec![1, 2, 3, 4, 5]);
    assert_eq!(source.len(), 5);
    let mut pair = [0u8; 2];
    source.read(&mut pair).unwrap();
    assert_eq!(pair, [1, 2]);
    assert_eq!(source.read_byte().unwrap(), 3);
    assert_eq!(source.len(), 2);
    let mut none: [u8; 0] = [];
    source.read(&mut none).unwrap();
    assert_eq!(source.len(), 2);
}

#[test]
fn byte_source_fails_when_short() {
    let mut source = ByteSource::new(vec![1, 2]);
    let mut three = [0u8; 3];
    assert!(source.read(&mut three).is_err());
    let mut empty = ByteSource::new(Vec::new());
    assert!(empty.read_byte().is_err());
}

#[test]
fn read_byte_reads_one_byte() {
    let mut source = Flaky { bytes: vec![7, 8], reads: 1 };
    assert_eq!(source.read_byte().unwrap(), 7);
    assert!(source.read_byte().is_err());
}

#[test]
fn fixed_width_write_surfaces_sink_failure() {
    let mut sink = choked(3);
    assert!(matches!(McProtoSelf::write(0x0102_0304u32, &mut sink), Err(ProtoError::Stream(_))));
    let mut sink = choked(4);
    assert!(McProtoSelf::write(0x0102_0304u32, &mut sink).is_ok());
    assert_eq!(sink.taken, vec![1, 2, 3, 4]);
}

#[test]
fn varnum_write_surfaces_sink_failure() {
    for room in 0..5 {
        let mut sink = choked(room);
        assert!(matches!(
            <VarNum as McProto<u32>>::write(u32::MAX, &mut sink),
            Err(ProtoError::Stream(_))
        ));
    }
    let mut sink = choked(5);
    assert!(<VarNum as McProto<u32>>::write(u32::MAX, &mut sink).is_ok());
    let mut sink = choked(1);
    assert!(matches!(
        <VarNum as McProto<u64>>::write(128, &mut sink),
        Err(ProtoError::Stream(_))
    ));
}

#[test]
fn text_write_surfaces_sink_failure() {
    for room in 0..6 {
        let mut sink = choked(room);
        assert!(matches!(
            McProtoSelf::write("hello".to_string(), &mut sink),
            Err(ProtoError::Stream(_))
        ));
    }
    let mut sink = choked(6);
    assert!(McProtoSelf::write("hello".to_string(), &mut sink).is_ok());
    assert_eq!(sink.taken, vec![5, b'h', b'e', b'l', b'l', b'o']);
}

#[test]
fn bool_write_surfaces_sink_failure() {
    let mut sink = choked(0);
    assert!(matches!(McProtoSelf::write(true, &mut sink), Err(ProtoError::Stream(_))));
}

#[test]
fn stream_error_carries_the_cause() {
    let mut sink = choked(0);
    match McProtoSelf::write(1u8, &mut sink) {
        Err(ProtoError::Stream(cause)) => assert_eq!(cause.to_string(), "sink is full"),
        _ => panic!("the sink was full"),
    }
}

#[test]
fn read_surfaces_source_failure() {
    let mut source = Flaky { bytes: vec![0x80, 0x80, 0x01], reads: 2 };
    assert!(matches!(
        <VarNum as McProto<u32>>::read(&mut source, ()),
        Err(ProtoError::Stream(_))
    ));
    let mut source = Flaky { bytes: vec![2, b'h', b'i'], reads: 2 };
    assert!(matches!(
        <String as McProtoSelf>::read(&mut source, Length::default()),
        Err(ProtoError::Stream(_))
    ));
    let mut source = Flaky { bytes: vec![2, b'h', b'i'], reads: 3 };
    assert_eq!(<String as McProtoSelf>::read(&mut source, Length::default()).unwrap(), "hi");
}
