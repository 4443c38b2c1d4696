//! The five kinds of value, told apart by the first byte of a frame.

use crate::resp::constant::{
    RESP_DEL_ARRAY, RESP_DEL_BULK_STR, RESP_DEL_INTEGER, RESP_DEL_SIMPLE_ERR,
    RESP_DEL_SIMPLE_STR,
};
use vstd::prelude::*;
use vstd::std_specs::convert::TryFromSpecImpl;

verus! {

/// The kinds of value.
#[derive(Debug)]
pub enum DataType {
    SimpleString,
    SimpleError,
    Integer,
    BulkString,
    Array,
}

/// The character is no type flag.
#[derive(Debug)]
pub enum DataTypeParsingError {
    UnknownTypeFlag(char),
}

/// The kind that a type flag stands for.
pub open spec fn data_type_of(value: char) -> Result<DataType, DataTypeParsingError> {
    if value == '+' {
        Ok(DataType::SimpleString)
    } else if value == '$' {
        Ok(DataType::BulkString)
    } else if value == '-' {
        Ok(DataType::SimpleError)
    } else if value == ':' {
        Ok(DataType::Integer)
    } else if value == '*' {
        Ok(DataType::Array)
    } else {
        Err(DataTypeParsingError::UnknownTypeFlag(value))
    }
}

impl DataTypeParsingError {
    /// The text of the error: a fixed phrase, then the flag.
    pub open spec fn text(self) -> Seq<char> {
        match self {
            DataTypeParsingError::UnknownTypeFlag(c) => "Unknown type_flag: "@.push(c),
        }
    }

    /// The text of the error.
    pub fn message(&self) -> (out: String)
        ensures
            out@ == self.text(),
    {
        match self {
            DataTypeParsingError::UnknownTypeFlag(c) => {
                let mut out: String = "Unknown type_flag: ".to_owned();
                out.push(*c);
                out
            },
        }
    }
}

impl TryFrom<char> for DataType {
    type Error = DataTypeParsingError;

    /// The kind that a type flag stands for.
    fn try_from(value: char) -> (r: Result<Self, Self::Error>)
        ensures
            r == data_type_of(value),
    {
        if value == RESP_DEL_SIMPLE_STR {
            Ok(DataType::SimpleString)
        } else if value == RESP_DEL_BULK_STR {
            Ok(DataType::BulkString)
        } else if value == RESP_DEL_SIMPLE_ERR {
            Ok(DataType::SimpleError)
        } else if value == RESP_DEL_INTEGER {
            Ok(DataType::Integer)
        } else if value == RESP_DEL_ARRAY {
            Ok(DataType::Array)
        } else {
            Err(DataTypeParsingError::UnknownTypeFlag(value))
        }
    }
}

impl TryFromSpecImpl<char> for DataType {
    open spec fn obeys_try_from_spec() -> bool {
        true
    }

    open spec fn try_from_spec(value: char) -> Result<Self, Self::Error> {
        data_type_of(value)
    }
}

} // verus!
