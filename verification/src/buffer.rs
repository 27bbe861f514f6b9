//! Sinks and sources in memory.
use vstd::prelude::*;

use crate::{McReader, McWriter};

verus! {

/// `anyhow::Error::msg`: an error that carries `message`. The error is
/// opaque, so nothing is claimed of it.
#[verifier::external_body]
fn stream_error(message: &'static str) -> anyhow::Error {
    anyhow::Error::msg(message)
}

/// A growable buffer is a sink that accepts every write.
impl McWriter for Vec<u8> {
    open spec fn written(&self) -> Seq<u8> {
        self@
    }

    open spec fn infallible(&self) -> bool {
        true
    }

    fn write(&mut self, bytes: &[u8]) -> (r: Result<(), anyhow::Error>) {
        self.extend_from_slice(bytes);
        assert(self@ =~= old(self)@ + bytes@);
        Ok(())
    }
}

/// A source that delivers the bytes of a buffer, and fails only when asked
/// for more than are left.
pub struct ByteSource {
    bytes: Vec<u8>,
    at: usize,
}

impl ByteSource {
    #[verifier::type_invariant]
    spec fn within(self) -> bool {
        self.at <= self.bytes.len()
    }

    /// The bytes that have not been read yet.
    pub closed spec fn left(self) -> Seq<u8> {
        self.bytes@.skip(self.at as int)
    }

    /// A source that delivers `bytes` from the start.
    pub fn new(bytes: Vec<u8>) -> (source: Self)
        ensures
            source.left() == bytes@,
    {
        assert(bytes@.skip(0) =~= bytes@);
        ByteSource { bytes, at: 0 }
    }

    /// The number of bytes that have not been read yet.
    pub fn len(&self) -> (n: usize)
        ensures
            n == self.left().len(),
    {
        proof {
            use_type_invariant(self);
        }
        self.bytes.len() - self.at
    }
}

impl McReader for ByteSource {
    open spec fn remaining(&self) -> Seq<u8> {
        self.left()
    }

    open spec fn steady(&self) -> bool {
        true
    }

    fn read(&mut self, bytes: &mut [u8]) -> (r: Result<(), anyhow::Error>) {
        proof {
            use_type_invariant(&*self);
        }
        let n = bytes.len();
        if n > self.bytes.len() - self.at {
            return Err(stream_error("unexpected end of stream"));
        }
        let start = self.at;
        let mut i: usize = 0;
        while i < n
            invariant
                n == bytes@.len(),
                start + n <= self.bytes.len(),
                self.at == start,
                self.bytes == old(self).bytes,
                i <= n,
                forall|j: int| 0 <= j < i ==> bytes@[j] == self.bytes@[start + j],
            decreases n - i,
        {
            bytes[i] = self.bytes[start + i];
            i = i + 1;
        }
        self.at = start + n;
        proof {
            assert(bytes@ =~= old(self).left().take(n as int));
            assert(self.left() =~= old(self).left().skip(n as int));
        }
        Ok(())
    }
}

} // verus!
