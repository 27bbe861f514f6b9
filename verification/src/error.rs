//! Error values reported by the codecs.
use vstd::prelude::*;

verus! {

/// `anyhow::Error`: the error of a stream, carried through as it came.
/// Nothing inside it is looked at.
#[verifier::external_type_specification]
#[verifier::external_body]
pub struct ExAnyhowError(anyhow::Error);

/// A way in which bytes that were read fail to denote a value.
#[derive(Clone, Copy, Debug, PartialEq, Eq, Structural)]
pub enum DecodeFault {
    /// A boolean byte other than `0x00` and `0x01`.
    MalformedBoolean,
    /// A 32-bit variable-length number that goes on past its fifth byte.
    VarIntOverflow,
    /// A 64-bit variable-length number that goes on past its tenth byte.
    VarLongOverflow,
    /// Text bytes that no continuation can turn into UTF-8.
    MalformedText,
}

impl DecodeFault {
    /// A short description of the fault.
    pub fn message(self) -> (text: &'static str)
        ensures
            text@ == self.description(),
    {
        match self {
            DecodeFault::MalformedBoolean => "bad boolean value",
            DecodeFault::VarIntOverflow => "VarInt is too large",
            DecodeFault::VarLongOverflow => "VarLong is too large",
            DecodeFault::MalformedText => "text is not UTF-8",
        }
    }

    /// The characters of `message`.
    pub open spec fn description(self) -> Seq<char> {
        match self {
            DecodeFault::MalformedBoolean => "bad boolean value"@,
            DecodeFault::VarIntOverflow => "VarInt is too large"@,
            DecodeFault::VarLongOverflow => "VarLong is too large"@,
            DecodeFault::MalformedText => "text is not UTF-8"@,
        }
    }
}

/// Why a codec operation did not complete.
#[derive(Debug)]
pub enum ProtoError {
    /// The sink or source could not take or deliver all the bytes asked of it.
    /// The cause is carried as the stream reported it.
    Stream(anyhow::Error),
    /// The bytes that were read denote no value.
    Decode(DecodeFault),
}

} // verus!
