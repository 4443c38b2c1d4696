//! The fixed pieces of the wire grammar.

use vstd::prelude::*;

verus! {

/// Every line of the protocol ends with this.
pub const RESP_TERMINATOR: &'static str = "\r\n";

/// The bulk string that stands for an absent value.
pub const RESP_NULL_BULK_STR: &'static str = "$-1\r\n";

/// The characters that open the five kinds of frame.
pub const RESP_DEL_SIMPLE_STR: char = '+';

pub const RESP_DEL_SIMPLE_ERR: char = '-';

pub const RESP_DEL_INTEGER: char = ':';

pub const RESP_DEL_BULK_STR: char = '$';

pub const RESP_DEL_ARRAY: char = '*';

/// The byte `+`, which opens a simple string.
pub const SIMPLE_STR_FLAG: u8 = 43;

/// The byte `-`, which opens an error.
pub const SIMPLE_ERR_FLAG: u8 = 45;

/// The byte `:`, which opens an integer.
pub const INTEGER_FLAG: u8 = 58;

/// The byte `$`, which opens a bulk string.
pub const BULK_STR_FLAG: u8 = 36;

/// The byte `*`, which opens an array.
pub const ARRAY_FLAG: u8 = 42;

/// The carriage return.
pub const CR: u8 = 13;

/// The line feed.
pub const LF: u8 = 10;

/// The line terminator as text.
pub open spec fn terminator() -> Seq<char> {
    seq!['\r', '\n']
}

/// The line terminator as bytes.
pub open spec fn crlf() -> Seq<u8> {
    seq![CR, LF]
}

/// The null bulk string as text.
pub open spec fn null_bulk() -> Seq<char> {
    seq!['$', '-', '1', '\r', '\n']
}

/// The named texts are what their spelled-out forms say.
pub proof fn lemma_constants()
    ensures
        RESP_TERMINATOR@ == terminator(),
        RESP_NULL_BULK_STR@ == null_bulk(),
{
    reveal_strlit("\r\n");
    reveal_strlit("$-1\r\n");
    assert(RESP_TERMINATOR@ =~= terminator());
    assert(RESP_NULL_BULK_STR@ =~= null_bulk());
}

} // verus!
