//! The wire types that need no further account: booleans, single bytes,
//! the bound on a length, and the marker of the variable-length format.
use vstd::prelude::*;

use crate::error::{DecodeFault, ProtoError};
use crate::{Decoded, McProtoSelf, McReader, McWriter};

verus! {

/// The byte that stands for a boolean: `0x00` for `true`, `0x01` for `false`.
pub open spec fn bool_byte(value: bool) -> u8 {
    if value { 0x00 } else { 0x01 }
}

impl McProtoSelf for bool {
    type Meta = ();

    open spec fn encoding(value: bool) -> Seq<u8> {
        seq![bool_byte(value)]
    }

    open spec fn decoding(bytes: Seq<u8>, meta: ()) -> Decoded<bool> {
        if bytes.len() == 0 {
            Decoded::Short
        } else if bytes[0] == 0x00 {
            Decoded::Value { value: true, used: 1 }
        } else if bytes[0] == 0x01 {
            Decoded::Value { value: false, used: 1 }
        } else {
            Decoded::Malformed(DecodeFault::MalformedBoolean)
        }
    }

    fn write<W: McWriter + ?Sized>(self, writer: &mut W) -> (r: Result<(), ProtoError>) {
        let byte: u8 = if self { 0x00 } else { 0x01 };
        let buf: [u8; 1] = [byte];
        assert(buf@ =~= seq![bool_byte(self)]);
        match writer.write(&buf) {
            Ok(()) => Ok(()),
            Err(e) => Err(ProtoError::Stream(e)),
        }
    }

    fn read<R: McReader + ?Sized>(reader: &mut R, meta: ()) -> (r: Result<bool, ProtoError>) {
        match reader.read_byte() {
            Ok(0x00) => Ok(true),
            Ok(0x01) => Ok(false),
            Ok(_) => Err(ProtoError::Decode(DecodeFault::MalformedBoolean)),
            Err(e) => Err(ProtoError::Stream(e)),
        }
    }
}

impl McProtoSelf for u8 {
    type Meta = ();

    open spec fn encoding(value: u8) -> Seq<u8> {
        seq![value]
    }

    open spec fn decoding(bytes: Seq<u8>, meta: ()) -> Decoded<u8> {
        if bytes.len() == 0 {
            Decoded::Short
        } else {
            Decoded::Value { value: bytes[0], used: 1 }
        }
    }

    fn write<W: McWriter + ?Sized>(self, writer: &mut W) -> (r: Result<(), ProtoError>) {
        let buf: [u8; 1] = [self];
        assert(buf@ =~= seq![self]);
        match writer.write(&buf) {
            Ok(()) => {
                assert(<u8 as McProtoSelf>::encoding(self@) =~= seq![self]);
                Ok(())
            },
            Err(e) => Err(ProtoError::Stream(e)),
        }
    }

    fn read<R: McReader + ?Sized>(reader: &mut R, meta: ()) -> (r: Result<u8, ProtoError>) {
        match reader.read_byte() {
            Ok(byte) => Ok(byte),
            Err(e) => Err(ProtoError::Stream(e)),
        }
    }
}

/// A strictly positive bound on a length, given to a read as metadata.
#[derive(Clone, Copy, PartialEq, Debug, Eq, Hash, PartialOrd, Ord)]
pub struct Length {
    bound: usize,
}

impl Length {
    #[verifier::type_invariant]
    spec fn positive(self) -> bool {
        self.bound > 0
    }

    /// The bound as a number.
    pub closed spec fn value(self) -> nat {
        self.bound as nat
    }

    /// The bound `bound`, unless it is zero.
    pub fn new(bound: usize) -> (r: Option<Self>)
        ensures
            bound == 0 ==> r is None,
            bound > 0 ==> (r matches Some(length) && length.value() == bound),
    {
        if bound == 0 {
            None
        } else {
            Some(Length { bound })
        }
    }

    /// The bound as a number: never zero.
    pub fn get(&self) -> (bound: usize)
        ensures
            bound == self.value(),
            bound > 0,
    {
        proof {
            use_type_invariant(self);
        }
        self.bound
    }
}

impl Default for Length {
    /// The bound 1.
    fn default() -> (r: Self)
        ensures
            r.value() == 1,
    {
        Length { bound: 1 }
    }
}

/// Selects the variable-length encoding of unsigned 32-bit and 64-bit
/// numbers. It holds no data.
#[derive(Clone, Copy, Debug, Default)]
pub struct VarNum;

impl VarNum {
    /// The bits used for data.
    pub const SEGMENT_BITS: u8 = 0x7F;

    /// The bit used as a marker for continuing.
    pub const CONTINUE_BIT: u8 = 0x80;
}

} // verus!
