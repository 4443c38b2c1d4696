//! Replies: how the outcome of a command is written for the client.

use crate::clock::current_millis;
use crate::command::{Command, CommandModel};
use crate::decimal::{format_u64, int_digits, lemma_nat_digits, nat_digits};
use crate::persist::store::{
    after_set, after_set_exp, expiry_at, lookup, Entry, StoreService,
};
use crate::resp::constant::{
    crlf, lemma_constants, null_bulk, terminator, RESP_DEL_BULK_STR, RESP_DEL_SIMPLE_ERR,
    RESP_DEL_SIMPLE_STR, RESP_NULL_BULK_STR, RESP_TERMINATOR,
};
use crate::resp::data::Model;
use crate::resp::value::encoding;
use crate::text::{latin, lemma_encode_concat, lemma_encode_latin, push_latin};
use vstd::prelude::*;
use vstd::string::StringExecFns;
use vstd::utf8::encode_utf8;

verus! {

/// The fixed texts of replies.
pub const PONG: &'static str = "PONG";

pub const OK: &'static str = "OK";

pub const GENERIC_ERR: &'static str = "Unknown error";

/// A simple string: `+`, the text, the terminator.
pub open spec fn simple_text(value: Seq<char>) -> Seq<char> {
    seq!['+'] + value + terminator()
}

/// An error: `-`, the text, the terminator.
pub open spec fn error_text(value: Seq<char>) -> Seq<char> {
    seq!['-'] + value + terminator()
}

/// A bulk string: `$`, the number of bytes that the text takes in UTF-8,
/// the terminator, the text, the terminator.
pub open spec fn bulk_text(value: Seq<char>) -> Seq<char> {
    seq!['$'] + latin(int_digits(encode_utf8(value).len() as int)) + terminator() + value
        + terminator()
}

/// The reply to a command that is executed at the moment `now` on the
/// entries `m`.
pub open spec fn reply_text(m: Map<Seq<char>, Entry>, command: CommandModel, now: u64) -> Seq<
    char,
> {
    match command {
        CommandModel::Ping => simple_text(PONG@),
        CommandModel::Echo(arg) => bulk_text(arg),
        CommandModel::Get(key) => match lookup(m, key, now) {
            Some(value) => bulk_text(value),
            None => null_bulk(),
        },
        CommandModel::SetValue(_, _) => simple_text(OK@),
        CommandModel::SetWithExp { key: _, value: _, exp_type, ttl, options: _ } => match expiry_at(
            ttl,
            exp_type,
            now,
        ) {
            Ok(_) => simple_text(OK@),
            Err(_) => error_text(GENERIC_ERR@),
        },
    }
}

/// The entries after a command is executed at the moment `now` on the
/// entries `m`. Only a write that is accepted changes them.
pub open spec fn state_after(m: Map<Seq<char>, Entry>, command: CommandModel, now: u64) -> Map<
    Seq<char>,
    Entry,
> {
    match command {
        CommandModel::SetValue(key, value) => after_set(m, key, value),
        CommandModel::SetWithExp { key, value, exp_type, ttl, options: _ } => match expiry_at(
            ttl,
            exp_type,
            now,
        ) {
            Ok(moment) => after_set_exp(m, key, value, moment),
            Err(_) => m,
        },
        _ => m,
    }
}

/// Writes texts as frames.
pub struct Formatter;

impl Formatter {
    /// The text as a bulk string.
    pub fn to_bulk_str(value: String) -> (out: String)
        ensures
            out@ == bulk_text(value@),
    {
        let mut out: String = String::new();
        out.push(RESP_DEL_BULK_STR);
        let digits: Vec<u8> = format_u64(value.as_str().as_bytes().len() as u64);
        push_latin(&mut out, &digits);
        out.append(RESP_TERMINATOR);
        out.append(value.as_str());
        out.append(RESP_TERMINATOR);
        proof {
            lemma_constants();
            assert(out@ =~= bulk_text(value@));
        }
        out
    }

    /// The text as a simple string.
    pub fn to_simple_str(value: String) -> (out: String)
        ensures
            out@ == simple_text(value@),
    {
        let mut out: String = String::new();
        out.push(RESP_DEL_SIMPLE_STR);
        out.append(value.as_str());
        out.append(RESP_TERMINATOR);
        proof {
            lemma_constants();
            assert(out@ =~= simple_text(value@));
        }
        out
    }

    /// The text as an error.
    pub fn to_err_str(value: String) -> (out: String)
        ensures
            out@ == error_text(value@),
    {
        let mut out: String = String::new();
        out.push(RESP_DEL_SIMPLE_ERR);
        out.append(value.as_str());
        out.append(RESP_TERMINATOR);
        proof {
            lemma_constants();
            assert(out@ =~= error_text(value@));
        }
        out
    }
}

/// Executes commands on a store and writes the replies. Its view is the
/// entries of the store.
pub struct ResponseService {
    store: StoreService,
}

impl View for ResponseService {
    type V = Map<Seq<char>, Entry>;

    closed spec fn view(&self) -> Map<Seq<char>, Entry> {
        self.store@
    }
}

impl ResponseService {
    /// A service over the given store.
    pub fn new(store: StoreService) -> (r: Self)
        ensures
            r@ == store@,
    {
        Self { store }
    }

    /// Executes the command at the moment `now` and returns the reply.
    pub fn execute_at(&mut self, command: Command, now: u64) -> (out: String)
        ensures
            out@ == reply_text(old(self)@, command@, now),
            final(self)@ == state_after(old(self)@, command@, now),
    {
        match command {
            Command::Ping => Formatter::to_simple_str(PONG.to_owned()),
            Command::Echo(arg) => Formatter::to_bulk_str(arg),
            Command::Get(key) => {
                match self.store.get_at(key.as_str(), now) {
                    Some(value) => Formatter::to_bulk_str(value),
                    None => {
                        proof {
                            lemma_constants();
                        }
                        RESP_NULL_BULK_STR.to_owned()
                    },
                }
            },
            Command::SetValue((key, val)) => {
                match self.store.set(key, val) {
                    Ok(_) => Formatter::to_simple_str(OK.to_owned()),
                    Err(_) => Formatter::to_err_str(GENERIC_ERR.to_owned()),
                }
            },
            Command::SetWithExp { kv: (key, val), exp_type, ttl, options } => {
                match self.store.set_exp_at(key, val, ttl, exp_type, options, now) {
                    Ok(_) => Formatter::to_simple_str(OK.to_owned()),
                    Err(_) => Formatter::to_err_str(GENERIC_ERR.to_owned()),
                }
            },
        }
    }

    /// Executes the command at the present moment: what `execute_at` does
    /// for some reading of the clock.
    pub fn execute(&mut self, command: Command) -> (out: String)
        ensures
            exists|now: u64|
                now <= i64::MAX && out@ == #[trigger] reply_text(old(self)@, command@, now)
                    && final(self)@ == state_after(old(self)@, command@, now),
    {
        let now: u64 = current_millis();
        let ghost c = command@;
        let out = self.execute_at(command, now);
        assert(out@ == reply_text(old(self)@, c, now));
        out
    }
}

/// The value that a reply carries.
pub open spec fn reply_value(m: Map<Seq<char>, Entry>, command: CommandModel, now: u64) -> Model {
    match command {
        CommandModel::Ping => Model::SimpleString(PONG@),
        CommandModel::Echo(arg) => Model::BulkString(Some(encode_utf8(arg))),
        CommandModel::Get(key) => match lookup(m, key, now) {
            Some(value) => Model::BulkString(Some(encode_utf8(value))),
            None => Model::BulkString(None),
        },
        CommandModel::SetValue(_, _) => Model::SimpleString(OK@),
        CommandModel::SetWithExp { key: _, value: _, exp_type, ttl, options: _ } => match expiry_at(
            ttl,
            exp_type,
            now,
        ) {
            Ok(_) => Model::SimpleString(OK@),
            Err(_) => Model::Error(GENERIC_ERR@),
        },
    }
}

/// The three forms of reply are frames: as UTF-8 they are, byte for byte,
/// what the protocol writes for a simple string, an error and a bulk string
/// with the same content, and the null reply is the null bulk string.
pub proof fn lemma_texts_are_frames(value: Seq<char>)
    ensures
        encode_utf8(simple_text(value)) == encoding(Model::SimpleString(value)),
        encode_utf8(error_text(value)) == encoding(Model::Error(value)),
        encode_utf8(bulk_text(value)) == encoding(Model::BulkString(Some(encode_utf8(value)))),
        encode_utf8(null_bulk()) == encoding(Model::BulkString(None)),
{
    let end = terminator();
    assert(end =~= latin(crlf()));
    lemma_encode_latin(crlf());
    assert(seq!['+'] =~= latin(seq![43u8]));
    lemma_encode_latin(seq![43u8]);
    assert(seq!['-'] =~= latin(seq![45u8]));
    lemma_encode_latin(seq![45u8]);
    assert(seq!['$'] =~= latin(seq![36u8]));
    lemma_encode_latin(seq![36u8]);

    lemma_encode_concat(seq!['+'], value);
    lemma_encode_concat(seq!['+'] + value, end);
    lemma_encode_concat(seq!['-'], value);
    lemma_encode_concat(seq!['-'] + value, end);

    let size = int_digits(encode_utf8(value).len() as int);
    lemma_digits_are_ascii(encode_utf8(value).len() as int);
    lemma_encode_latin(size);
    lemma_encode_concat(seq!['$'], latin(size));
    lemma_encode_concat(seq!['$'] + latin(size), end);
    lemma_encode_concat(seq!['$'] + latin(size) + end, value);
    lemma_encode_concat(seq!['$'] + latin(size) + end + value, end);

    let minus_one = int_digits(-1);
    lemma_digits_are_ascii(-1);
    lemma_encode_latin(minus_one);
    assert(minus_one =~= seq![45u8, 49u8]) by {
        reveal_with_fuel(nat_digits, 2);
    }
    assert(null_bulk() =~= seq!['$'] + latin(minus_one) + end);
    lemma_encode_concat(seq!['$'], latin(minus_one));
    lemma_encode_concat(seq!['$'] + latin(minus_one), end);
}

/// The digits of a number are ASCII.
pub proof fn lemma_digits_are_ascii(n: int)
    ensures
        forall|i: int| 0 <= i < int_digits(n).len() ==> int_digits(n)[i] < 128,
{
    let digits = int_digits(n);
    if n < 0 {
        lemma_nat_digits((-n) as nat);
        assert forall|i: int| 0 <= i < digits.len() implies digits[i] < 128 by {
            if i > 0 {
                assert(digits[i] == nat_digits((-n) as nat)[i - 1]);
            }
        }
    } else {
        lemma_nat_digits(n as nat);
    }
}

/// Every reply is a frame: the text that a command is answered with is,
/// as UTF-8, the encoding of the value that the reply carries.
pub proof fn lemma_reply_is_a_frame(m: Map<Seq<char>, Entry>, command: CommandModel, now: u64)
    ensures
        encode_utf8(reply_text(m, command, now)) == encoding(reply_value(m, command, now)),
{
    lemma_texts_are_frames(PONG@);
    lemma_texts_are_frames(OK@);
    lemma_texts_are_frames(GENERIC_ERR@);
    match command {
        CommandModel::Echo(arg) => {
            lemma_texts_are_frames(arg);
        },
        CommandModel::Get(key) => {
            if lookup(m, key, now) is Some {
                lemma_texts_are_frames(lookup(m, key, now)->Some_0);
            }
        },
        _ => {},
    }
}

} // verus!
