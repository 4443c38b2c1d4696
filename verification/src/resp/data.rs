//! The values of the protocol, and how a run of tokens gives one.

use crate::resp::constant::terminator;
use crate::resp::error::ProtocolError;
use crate::resp::token::{
    decoded, joined, lemma_tokens_join_back, line_len, tokens_of, RespTokens,
};
use crate::resp::value::{
    decoding, encoding, lemma_decode_encode, lemma_tokens_of_encoding, writable,
};
use crate::text::{join, texts};
use vstd::prelude::*;
use vstd::std_specs::convert::TryFromSpecImpl;
use vstd::utf8::encode_utf8;

verus! {

/// A value of the protocol. A bulk string without payload is the null
/// value. An array holds values of any kind, arrays among them.
#[derive(Debug, PartialEq)]
pub enum RespData {
    SimpleString(String),
    Error(String),
    Integer(i64),
    BulkString(Option<Vec<u8>>),
    Array(Vec<RespData>),
}

/// A value as contracts speak of it.
pub enum Model {
    SimpleString(Seq<char>),
    Error(Seq<char>),
    Integer(i64),
    BulkString(Option<Seq<u8>>),
    Array(Seq<Model>),
}

/// The model of a value.
pub open spec fn model_of(v: RespData) -> Model
    decreases v,
{
    match v {
        RespData::SimpleString(s) => Model::SimpleString(s@),
        RespData::Error(s) => Model::Error(s@),
        RespData::Integer(n) => Model::Integer(n),
        RespData::BulkString(None) => Model::BulkString(None),
        RespData::BulkString(Some(p)) => Model::BulkString(Some(p@)),
        RespData::Array(items) => Model::Array(models_of(items@)),
    }
}

/// The models of values, in order.
pub open spec fn models_of(vs: Seq<RespData>) -> Seq<Model>
    decreases vs,
{
    if vs.len() == 0 {
        Seq::empty()
    } else {
        models_of(vs.drop_last()).push(model_of(vs.last()))
    }
}

impl View for RespData {
    type V = Model;

    open spec fn view(&self) -> Model {
        model_of(*self)
    }
}

/// The models of values stand in the order of the values.
pub proof fn lemma_models_of(vs: Seq<RespData>)
    ensures
        models_of(vs).len() == vs.len(),
        forall|i: int| 0 <= i < vs.len() ==> #[trigger] models_of(vs)[i] == model_of(vs[i]),
    decreases vs.len(),
{
    if vs.len() > 0 {
        lemma_models_of(vs.drop_last());
    }
}

/// The fault of data of which nothing more is known.
#[allow(unused)]
#[derive(Debug, PartialEq, Eq, Clone, Copy)]
pub enum RespDataParseError {
    Unknown,
}

impl RespDataParseError {
    /// The text of the error.
    pub open spec fn text(self) -> Seq<char> {
        "Unknown RESP data parse error"@
    }

    /// The text of the error.
    pub fn message(&self) -> (out: String)
        ensures
            out@ == self.text(),
    {
        "Unknown RESP data parse error".to_owned()
    }
}

/// The buffer that tokens were cut from: the tokens in order, with the
/// terminator between each two, as UTF-8.
pub open spec fn buffer_of(tokens: Seq<Seq<char>>) -> Seq<u8> {
    encode_utf8(join(tokens, terminator()))
}

/// The value that stands at the head of a buffer, whatever its length.
pub open spec fn first_value(buf: Seq<u8>) -> Result<Model, ProtocolError> {
    match decoding(buf) {
        Ok((value, _)) => Ok(value),
        Err(e) => Err(e),
    }
}

impl TryFrom<RespTokens> for RespData {
    type Error = ProtocolError;

    /// The value that the tokens start with: the one that stands at the
    /// head of the buffer that the tokens were cut from. The first byte
    /// alone says of which kind it is, and the text of a simple string, an
    /// error or an integer is all that stands behind that byte. The
    /// payload of a bulk string is the token behind its header, a header of
    /// -1 gives the null bulk string, and an array takes as many values as
    /// its header says, arrays among them.
    fn try_from(value: RespTokens) -> (r: Result<Self, ProtocolError>)
        ensures
            match r {
                Ok(data) => first_value(buffer_of(texts(value.0@))) == Ok::<
                    Model,
                    ProtocolError,
                >(data@),
                Err(e) => first_value(buffer_of(texts(value.0@))) == Err::<
                    Model,
                    ProtocolError,
                >(e),
            },
    {
        let buffer: String = joined(&value.0);
        match RespData::decode(buffer.as_str().as_bytes()) {
            Ok((data, _)) => Ok(data),
            Err(e) => Err(e),
        }
    }
}

impl TryFromSpecImpl<RespTokens> for RespData {
    /// The contract stands on `try_from`, which speaks of texts.
    open spec fn obeys_try_from_spec() -> bool {
        false
    }

    open spec fn try_from_spec(value: RespTokens) -> Result<Self, ProtocolError> {
        arbitrary()
    }
}

/// What the tokens of a text give is what the text gives: cutting a buffer
/// into tokens first changes nothing of the value that is read from it.
pub proof fn lemma_tokens_give_the_value(value: Seq<char>)
    ensures
        tokens_of(encode_utf8(value)) matches Ok(tokens) ==> first_value(
            buffer_of(decoded(tokens)),
        ) == first_value(encode_utf8(value)),
{
    lemma_tokens_join_back(value);
}

/// Round trip through the tokens: where the bytes of a value are a text,
/// the text can be cut into tokens, and the tokens give the value back.
pub proof fn lemma_round_trip_through_tokens(v: Model, text: Seq<char>)
    requires
        writable(v),
        encode_utf8(text) == encoding(v),
    ensures
        tokens_of(encode_utf8(text)) is Ok,
        first_value(buffer_of(decoded(tokens_of(encode_utf8(text))->Ok_0))) == Ok::<
            Model,
            ProtocolError,
        >(v),
{
    assert(tokens_of(Seq::<u8>::empty()) is Ok) by {
        assert(line_len(Seq::<u8>::empty()) is None);
    }
    lemma_tokens_of_encoding(v, Seq::empty());
    lemma_decode_encode(v, Seq::empty());
    assert(encoding(v) + Seq::<u8>::empty() =~= encoding(v));
    lemma_tokens_give_the_value(text);
}

} // verus!
