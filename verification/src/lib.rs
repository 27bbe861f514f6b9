//! Wire-format primitives: byte sinks and sources, and codecs over them.
use vstd::prelude::*;

pub mod buffer;
pub mod endian;
pub mod error;
pub mod laws;
pub mod text;
pub mod types;
pub mod varnum;

use crate::error::{DecodeFault, ProtoError};

verus! {

/// A byte sink: an ordered stream that bytes are appended to.
pub trait McWriter {
    /// Every byte that this sink has accepted so far, in order. A sink that
    /// keeps no account of them has none to show.
    open spec fn written(&self) -> Seq<u8> {
        Seq::empty()
    }

    /// Whether this sink accepts every write. A sink makes no such promise
    /// unless it says so.
    open spec fn infallible(&self) -> bool {
        false
    }

    /// Writes all of `bytes`, or fails. After a failure nothing is known
    /// about how much of `bytes` reached the stream.
    fn write(&mut self, bytes: &[u8]) -> (r: Result<(), anyhow::Error>)
        ensures
            r is Ok ==> final(self).written() == old(self).written() + bytes@,
            old(self).infallible() ==> r is Ok && final(self).infallible(),
    ;
}

/// A byte source: an ordered stream that bytes are taken from.
pub trait McReader {
    /// The bytes that this source has yet to deliver, in order. A source
    /// that keeps no account of them has none to show.
    open spec fn remaining(&self) -> Seq<u8> {
        Seq::empty()
    }

    /// Whether this source fails only when asked for more bytes than remain.
    /// A source makes no such promise unless it says so.
    open spec fn steady(&self) -> bool {
        false
    }

    /// Fills all of `bytes` with the next bytes of the stream, or fails.
    /// After a failure the contents of `bytes` and the position of the
    /// stream are unspecified.
    fn read(&mut self, bytes: &mut [u8]) -> (r: Result<(), anyhow::Error>)
        ensures
            final(bytes)@.len() == old(bytes)@.len(),
            r is Ok ==> {
                &&& old(bytes)@.len() <= old(self).remaining().len()
                &&& final(bytes)@ == old(self).remaining().take(old(bytes)@.len() as int)
                &&& final(self).remaining() == old(self).remaining().skip(old(bytes)@.len() as int)
            },
            old(self).steady() ==> final(self).steady(),
            old(self).steady() ==> (r is Ok <==> old(bytes)@.len() <= old(self).remaining().len()),
    ;

    /// Reads a single byte.
    fn read_byte(&mut self) -> (r: Result<u8, anyhow::Error>)
        ensures
            r matches Ok(b) ==> {
                &&& old(self).remaining().len() >= 1
                &&& b == old(self).remaining()[0]
                &&& final(self).remaining() == old(self).remaining().skip(1)
            },
            old(self).steady() ==> final(self).steady(),
            old(self).steady() ==> (r is Ok <==> old(self).remaining().len() >= 1),
    {
        let mut out: [u8; 1] = [0u8];
        match self.read(&mut out) {
            Ok(()) => Ok(out[0]),
            Err(e) => Err(e),
        }
    }
}

/// What a codec makes of the bytes that a source has yet to deliver.
pub enum Decoded<V> {
    /// The first `used` bytes denote `value`.
    Value { value: V, used: nat },
    /// The bytes end before a value is complete.
    Short,
    /// The bytes denote no value, however they go on.
    Malformed(DecodeFault),
}

impl<V> Decoded<V> {
    /// The same meaning, with the value seen through `f`.
    pub open spec fn map<U>(self, f: spec_fn(V) -> U) -> Decoded<U> {
        match self {
            Decoded::Value { value, used } => Decoded::Value { value: f(value), used },
            Decoded::Short => Decoded::Short,
            Decoded::Malformed(fault) => Decoded::Malformed(fault),
        }
    }
}

/// A codec for values of type `T`, with read-time metadata `Meta`.
pub trait McProto<T: View = Self>: Sized {
    /// The metadata for reading.
    type Meta: Default;

    /// The bytes that stand for `value` on the wire.
    spec fn encoding(value: T::V) -> Seq<u8>;

    /// The meaning of a byte stream that starts with `bytes`.
    spec fn decoding(bytes: Seq<u8>, meta: Self::Meta) -> Decoded<T::V>;

    /// Writes `value` to `writer`. On success exactly the encoding of
    /// `value` has been appended; the only failure is one of the sink.
    fn write<W: McWriter + ?Sized>(value: T, writer: &mut W) -> (r: Result<(), ProtoError>)
        ensures
            r is Ok ==> final(writer).written() == old(writer).written() + Self::encoding(value@),
            r matches Err(e) ==> e is Stream,
            old(writer).infallible() ==> r is Ok && final(writer).infallible(),
    ;

    /// Reads one value from `reader`, consuming exactly the bytes that
    /// denote it. From a steady source the result is the meaning of the
    /// bytes that it held; any other source may also fail on its own.
    fn read<R: McReader + ?Sized>(reader: &mut R, meta: Self::Meta) -> (r: Result<T, ProtoError>)
        ensures
            read_outcome(r, Self::decoding(old(reader).remaining(), meta), old(reader), final(reader)),
    ;
}

/// How the result of a read relates to the meaning of the bytes that the
/// source held: a value comes back only as those bytes denote it, with the
/// source advanced past them; a decode fault only as they show it; and a
/// steady source reports a stream error exactly when the bytes run out.
pub open spec fn read_outcome<T: View, R: McReader + ?Sized>(
    r: Result<T, ProtoError>,
    meaning: Decoded<T::V>,
    before: &R,
    after: &R,
) -> bool {
    &&& before.steady() ==> after.steady()
    &&& match r {
        Ok(v) => meaning matches Decoded::Value { value, used } && value == v@
            && used <= before.remaining().len()
            && after.remaining() == before.remaining().skip(used as int),
        Err(ProtoError::Decode(fault)) => meaning == Decoded::<T::V>::Malformed(fault),
        Err(ProtoError::Stream(_)) => before.steady() ==> meaning is Short,
    }
}

/// Whether `value` survives a round trip through codec `C`: the bytes that
/// stand for it, whatever follows them, denote `value` again and nothing
/// more.
pub open spec fn round_trips<T: View, C: McProto<T>>(
    value: T::V,
    meta: C::Meta,
    rest: Seq<u8>,
) -> bool {
    C::decoding(C::encoding(value) + rest, meta) == (Decoded::Value {
        value,
        used: C::encoding(value).len(),
    })
}

/// A codec for the implementing type itself, written from `self`.
pub trait McProtoSelf: Sized + View {
    /// The metadata for reading.
    type Meta: Default;

    /// The bytes that stand for `value` on the wire.
    spec fn encoding(value: Self::V) -> Seq<u8>;

    /// The meaning of a byte stream that starts with `bytes`.
    spec fn decoding(bytes: Seq<u8>, meta: Self::Meta) -> Decoded<Self::V>;

    /// Writes this value to `writer`.
    fn write<W: McWriter + ?Sized>(self, writer: &mut W) -> (r: Result<(), ProtoError>)
        ensures
            r is Ok ==> final(writer).written() == old(writer).written() + Self::encoding(self@),
            r matches Err(e) ==> e is Stream,
            old(writer).infallible() ==> r is Ok && final(writer).infallible(),
    ;

    /// Reads one value from `reader`.
    fn read<R: McReader + ?Sized>(reader: &mut R, meta: Self::Meta) -> (r: Result<Self, ProtoError>)
        ensures
            read_outcome(r, Self::decoding(old(reader).remaining(), meta), old(reader), final(reader)),
    ;
}

impl<T: McProtoSelf> McProto for T {
    type Meta = <T as McProtoSelf>::Meta;

    open spec fn encoding(value: T::V) -> Seq<u8> {
        <T as McProtoSelf>::encoding(value)
    }

    open spec fn decoding(bytes: Seq<u8>, meta: Self::Meta) -> Decoded<T::V> {
        <T as McProtoSelf>::decoding(bytes, meta)
    }

    fn write<W: McWriter + ?Sized>(value: T, writer: &mut W) -> (r: Result<(), ProtoError>) {
        McProtoSelf::write(value, writer)
    }

    fn read<R: McReader + ?Sized>(reader: &mut R, meta: Self::Meta) -> (r: Result<T, ProtoError>) {
        <T as McProtoSelf>::read(reader, meta)
    }
}

} // verus!
