//! What can be wrong with the bytes of a frame.

use vstd::prelude::*;

verus! {

/// Why a buffer does not give a frame.
#[derive(Debug, PartialEq, Eq, Clone, Copy)]
pub enum ProtocolError {
    /// The frame is not all there yet. This is no fault of the bytes:
    /// the same buffer with more bytes behind it may hold a frame.
    Incomplete,
    /// The first byte of a frame is none of `+`, `-`, `:`, `$` and `*`.
    UnknownType(u8),
    /// A length prefix is not valid: it is not a decimal integer, or it is
    /// less than -1, or it is not the length of the payload, in that the
    /// terminator does not stand behind that many bytes.
    InvalidLength,
    /// An integer value is not a decimal integer of 64 bits.
    InvalidInteger,
    /// A text is not UTF-8.
    InvalidUtf8,
}

impl ProtocolError {
    /// Whether more bytes can still make a frame of the buffer.
    pub open spec fn is_resumable(self) -> bool {
        self is Incomplete
    }

    /// The diagnostic that a client is sent for the error. It depends on
    /// the kind of fault alone, and is one line.
    pub open spec fn diagnostic(self) -> Seq<char> {
        match self {
            ProtocolError::Incomplete => "ERR incomplete frame"@,
            ProtocolError::UnknownType(_) => "ERR unknown type prefix"@,
            ProtocolError::InvalidLength => "ERR invalid length"@,
            ProtocolError::InvalidInteger => "ERR invalid integer"@,
            ProtocolError::InvalidUtf8 => "ERR text is not UTF-8"@,
        }
    }

    /// The text of the error. It is the same for every fault.
    pub open spec fn text(self) -> Seq<char> {
        "Cannot parse data"@
    }

    /// The text of the error.
    pub fn message(&self) -> (out: String)
        ensures
            out@ == self.text(),
    {
        "Cannot parse data".to_owned()
    }

    /// The diagnostic that a client is sent for the error.
    pub fn reply(&self) -> (out: String)
        ensures
            out@ == self.diagnostic(),
    {
        match self {
            ProtocolError::Incomplete => "ERR incomplete frame".to_owned(),
            ProtocolError::UnknownType(_) => "ERR unknown type prefix".to_owned(),
            ProtocolError::InvalidLength => "ERR invalid length".to_owned(),
            ProtocolError::InvalidInteger => "ERR invalid integer".to_owned(),
            ProtocolError::InvalidUtf8 => "ERR text is not UTF-8".to_owned(),
        }
    }
}

} // verus!
