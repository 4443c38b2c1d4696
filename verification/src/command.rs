//! The commands that the server understands, and the mapping from a
//! request to a command.
//!
//! A request arrives as an array of bulk strings. Its elements, read as
//! UTF-8, are the words of the request: the verb, then its arguments.

use crate::resp::error::ProtocolError;
use crate::resp::data::{lemma_models_of, model_of, models_of, Model, RespData};
use crate::resp::value::{decoding, encoding, lemma_decode_encode, writable};
use crate::text::{
    eq_ignore_case, lowercase_of, lowered, string_from_utf8, texts, to_lowercase,
};
use vstd::string::StringExecFns;
use vstd::prelude::*;
use vstd::std_specs::convert::TryFromSpecImpl;
use vstd::utf8::{
    decode_utf8, encode_utf8, encode_utf8_decode_utf8, encode_utf8_valid_utf8, valid_utf8,
};

verus! {

/// The verbs, in lower case.
pub const ECHO: &'static str = "echo";

pub const PING: &'static str = "ping";

pub const SET: &'static str = "set";

pub const GET: &'static str = "get";

/// The keywords for the unit of a time-to-live, in lower case.
pub const SET_EX: &'static str = "ex";

pub const SET_PX: &'static str = "px";

/// The unit in which a time-to-live is given.
#[derive(Debug, PartialEq)]
pub enum SetExpiration {
    /// Seconds
    Ex,
    /// Milliseconds
    Px,
}

/// Conditions on a write. None of them changes what the store does yet.
#[allow(unused)]
#[derive(Debug, PartialEq)]
pub enum SetOptions {
    /// Set only if it does not exist
    Nx,
    /// Set only if it does exist
    Xx,
    /// Keep the time-to-live of the entry
    KeepTtl,
}

/// What a client asks for.
#[derive(Debug, PartialEq)]
pub enum Command {
    Ping,
    Echo(String),
    /// Key-Value tuple
    SetValue((String, String)),
    SetWithExp {
        /// Key-Value tuple
        kv: (String, String),
        /// PX, EX etc.
        exp_type: SetExpiration,
        ttl: String,
        options: Option<SetOptions>,
    },
    Get(String),
}

/// A command as contracts speak of it.
pub enum CommandModel {
    Ping,
    Echo(Seq<char>),
    SetValue(Seq<char>, Seq<char>),
    SetWithExp {
        key: Seq<char>,
        value: Seq<char>,
        exp_type: SetExpiration,
        ttl: Seq<char>,
        options: Option<SetOptions>,
    },
    Get(Seq<char>),
}

impl View for Command {
    type V = CommandModel;

    open spec fn view(&self) -> CommandModel {
        match self {
            Command::Ping => CommandModel::Ping,
            Command::Echo(arg) => CommandModel::Echo(arg@),
            Command::SetValue((key, val)) => CommandModel::SetValue(key@, val@),
            Command::SetWithExp { kv: (key, val), exp_type, ttl, options } => {
                CommandModel::SetWithExp {
                    key: key@,
                    value: val@,
                    exp_type: *exp_type,
                    ttl: ttl@,
                    options: *options,
                }
            },
            Command::Get(key) => CommandModel::Get(key@),
        }
    }
}

/// Why a request is not a command. Where one word is at fault, the error
/// carries it.
#[derive(Debug, PartialEq)]
pub enum CommandError {
    /// The request is no array.
    NotAnArray,
    /// An element of the request is no bulk string with a payload: it is a
    /// value of another kind, an array among them, or the null bulk string.
    NotBulkString,
    /// An element of the request is not UTF-8.
    InvalidUtf8,
    /// The request has no words at all.
    Empty,
    /// The first word is no verb that the server knows.
    UnknownCommand(String),
    /// The word is no verb that stands alone.
    UnknownVerb(String),
    /// The verb is known but does not take this number of words.
    WrongArity(String),
    /// The word that should be `EX` or `PX` is neither.
    InvalidExpiration(String),
}

/// An error as contracts speak of it.
pub enum CommandFault {
    NotAnArray,
    NotBulkString,
    InvalidUtf8,
    Empty,
    UnknownCommand(Seq<char>),
    UnknownVerb(Seq<char>),
    WrongArity(Seq<char>),
    InvalidExpiration(Seq<char>),
}

impl View for CommandError {
    type V = CommandFault;

    open spec fn view(&self) -> CommandFault {
        match self {
            CommandError::NotAnArray => CommandFault::NotAnArray,
            CommandError::NotBulkString => CommandFault::NotBulkString,
            CommandError::InvalidUtf8 => CommandFault::InvalidUtf8,
            CommandError::Empty => CommandFault::Empty,
            CommandError::UnknownCommand(w) => CommandFault::UnknownCommand(w@),
            CommandError::UnknownVerb(w) => CommandFault::UnknownVerb(w@),
            CommandError::WrongArity(w) => CommandFault::WrongArity(w@),
            CommandError::InvalidExpiration(w) => CommandFault::InvalidExpiration(w@),
        }
    }
}

/// The text of the error for a word that names no unit of time: a fixed
/// phrase, then the word in lower case between backquotes.
pub open spec fn invalid_expiration_text(lowered: Seq<char>) -> Seq<char> {
    "Invalid SetExpiration value: `"@ + lowered + "`"@
}

impl CommandFault {
    /// The text of the error. For a word that names no unit of time it
    /// holds the word, in the lower case that `lowercase_of` gives it.
    pub open spec fn text(self) -> Seq<char> {
        match self {
            CommandFault::InvalidExpiration(word) => invalid_expiration_text(lowercase_of(word)),
            CommandFault::UnknownVerb(_) => "Cannot parse `Command` from &str"@,
            _ => "Cannot parse `Command`"@,
        }
    }

    /// The diagnostic that a client is sent for the error. It depends on
    /// the kind of error alone, and is one line.
    pub open spec fn diagnostic(self) -> Seq<char> {
        match self {
            CommandFault::NotAnArray => "ERR request is not an array"@,
            CommandFault::NotBulkString => "ERR argument is not a bulk string"@,
            CommandFault::InvalidUtf8 => "ERR argument is not UTF-8"@,
            CommandFault::Empty => "ERR empty request"@,
            CommandFault::UnknownCommand(_) => "ERR unknown command"@,
            CommandFault::UnknownVerb(_) => "ERR unknown command"@,
            CommandFault::WrongArity(_) => "ERR wrong number of arguments"@,
            CommandFault::InvalidExpiration(_) => "ERR expiration is neither EX nor PX"@,
        }
    }
}

/// The text of the error for a word that names no unit of time, given the
/// word in lower case.
pub fn invalid_expiration_message(lowered: &str) -> (out: String)
    ensures
        out@ == invalid_expiration_text(lowered@),
{
    let mut out: String = "Invalid SetExpiration value: `".to_owned();
    out.append(lowered);
    out.append("`");
    out
}

impl CommandError {
    /// The text of the error.
    pub fn message(&self) -> (out: String)
        ensures
            out@ == self@.text(),
    {
        match self {
            CommandError::InvalidExpiration(word) => {
                let lowered: String = to_lowercase(word.as_str());
                invalid_expiration_message(lowered.as_str())
            },
            CommandError::UnknownVerb(_) => "Cannot parse `Command` from &str".to_owned(),
            _ => "Cannot parse `Command`".to_owned(),
        }
    }

    /// The diagnostic that a client is sent for the error.
    pub fn reply(&self) -> (out: String)
        ensures
            out@ == self@.diagnostic(),
    {
        match self {
            CommandError::NotAnArray => "ERR request is not an array".to_owned(),
            CommandError::NotBulkString => "ERR argument is not a bulk string".to_owned(),
            CommandError::InvalidUtf8 => "ERR argument is not UTF-8".to_owned(),
            CommandError::Empty => "ERR empty request".to_owned(),
            CommandError::UnknownCommand(_) => "ERR unknown command".to_owned(),
            CommandError::UnknownVerb(_) => "ERR unknown command".to_owned(),
            CommandError::WrongArity(_) => "ERR wrong number of arguments".to_owned(),
            CommandError::InvalidExpiration(_) => "ERR expiration is neither EX nor PX".to_owned(),
        }
    }
}

/// The command or the error of a result, as contracts speak of them.
pub open spec fn outcome(r: Result<Command, CommandError>) -> Result<CommandModel, CommandFault> {
    match r {
        Ok(c) => Ok(c@),
        Err(e) => Err(e@),
    }
}

/// Whether the word, in lower case, is the keyword.
pub open spec fn is_word(word: Seq<char>, keyword: &'static str) -> bool {
    lowered(word) == keyword@
}

/// The unit that a keyword names.
pub open spec fn expiration_of(word: Seq<char>) -> Result<SetExpiration, CommandFault> {
    if is_word(word, SET_EX) {
        Ok(SetExpiration::Ex)
    } else if is_word(word, SET_PX) {
        Ok(SetExpiration::Px)
    } else {
        Err(CommandFault::InvalidExpiration(word))
    }
}

/// The command that a request of five words starting with `SET` denotes.
pub open spec fn set_with_expiry_of(words: Seq<Seq<char>>) -> Result<CommandModel, CommandFault> {
    match expiration_of(words[3]) {
        Ok(exp_type) => Ok(
            CommandModel::SetWithExp {
                key: words[1],
                value: words[2],
                exp_type,
                ttl: words[4],
                options: None,
            },
        ),
        Err(e) => Err(e),
    }
}

/// The command that the words of a request denote: the verb is matched
/// without regard to case, and each verb takes a fixed number of words.
pub open spec fn command_of(words: Seq<Seq<char>>) -> Result<CommandModel, CommandFault> {
    if words.len() == 0 {
        Err(CommandFault::Empty)
    } else if is_word(words[0], PING) {
        if words.len() == 1 {
            Ok(CommandModel::Ping)
        } else {
            Err(CommandFault::WrongArity(words[0]))
        }
    } else if is_word(words[0], ECHO) {
        if words.len() == 2 {
            Ok(CommandModel::Echo(words[1]))
        } else {
            Err(CommandFault::WrongArity(words[0]))
        }
    } else if is_word(words[0], GET) {
        if words.len() == 2 {
            Ok(CommandModel::Get(words[1]))
        } else {
            Err(CommandFault::WrongArity(words[0]))
        }
    } else if is_word(words[0], SET) {
        if words.len() == 3 {
            Ok(CommandModel::SetValue(words[1], words[2]))
        } else if words.len() == 5 {
            set_with_expiry_of(words)
        } else {
            Err(CommandFault::WrongArity(words[0]))
        }
    } else {
        Err(CommandFault::UnknownCommand(words[0]))
    }
}

/// The word that an element of a request gives: the payload of a bulk
/// string, read as UTF-8. No other value gives a word; an array inside a
/// request is refused, not flattened.
pub open spec fn word_of(item: Model) -> Result<Seq<char>, CommandFault> {
    match item {
        Model::BulkString(Some(p)) => if valid_utf8(p) {
            Ok(decode_utf8(p))
        } else {
            Err(CommandFault::InvalidUtf8)
        },
        _ => Err(CommandFault::NotBulkString),
    }
}

/// Words, with some more in front of them.
pub open spec fn behind(
    first: Seq<Seq<char>>,
    rest: Result<Seq<Seq<char>>, CommandFault>,
) -> Result<Seq<Seq<char>>, CommandFault> {
    match rest {
        Ok(words) => Ok(first + words),
        Err(e) => Err(e),
    }
}

/// The words of the elements of a request. The first element that gives no
/// word decides the error.
pub open spec fn words_of_items(items: Seq<Model>) -> Result<Seq<Seq<char>>, CommandFault>
    decreases items.len(),
{
    if items.len() == 0 {
        Ok(Seq::empty())
    } else {
        match word_of(items[0]) {
            Err(e) => Err(e),
            Ok(w) => behind(seq![w], words_of_items(items.drop_first())),
        }
    }
}

/// The words of a request.
pub open spec fn request_words(v: Model) -> Result<Seq<Seq<char>>, CommandFault> {
    match v {
        Model::Array(items) => words_of_items(items),
        _ => Err(CommandFault::NotAnArray),
    }
}

/// The command that a request denotes.
pub open spec fn request_command(v: Model) -> Result<CommandModel, CommandFault> {
    match request_words(v) {
        Ok(words) => command_of(words),
        Err(e) => Err(e),
    }
}

impl TryFrom<String> for SetExpiration {
    type Error = CommandError;

    fn try_from(value: String) -> (r: Result<Self, Self::Error>)
        ensures
            match r {
                Ok(unit) => expiration_of(value@) == Ok::<SetExpiration, CommandFault>(unit),
                Err(e) => expiration_of(value@) == Err::<SetExpiration, CommandFault>(e@),
            },
    {
        if eq_ignore_case(value.as_str(), SET_EX) {
            Ok(SetExpiration::Ex)
        } else if eq_ignore_case(value.as_str(), SET_PX) {
            Ok(SetExpiration::Px)
        } else {
            Err(CommandError::InvalidExpiration(value))
        }
    }
}

impl TryFromSpecImpl<String> for SetExpiration {
    /// The contract stands on `try_from`, which speaks of texts.
    open spec fn obeys_try_from_spec() -> bool {
        false
    }

    open spec fn try_from_spec(value: String) -> Result<Self, Self::Error> {
        arbitrary()
    }
}

impl<'a> TryFrom<&'a str> for Command {
    type Error = CommandError;

    /// The command that a lone verb denotes.
    fn try_from(value: &'a str) -> (r: Result<Self, Self::Error>)
        ensures
            outcome(r) == if is_word(value@, PING) {
                Ok::<CommandModel, CommandFault>(CommandModel::Ping)
            } else {
                Err::<CommandModel, CommandFault>(CommandFault::UnknownVerb(value@))
            },
    {
        if eq_ignore_case(value, PING) {
            Ok(Command::Ping)
        } else {
            Err(CommandError::UnknownVerb(value.to_owned()))
        }
    }
}

impl<'a> TryFromSpecImpl<&'a str> for Command {
    /// The contract stands on `try_from`, which speaks of texts.
    open spec fn obeys_try_from_spec() -> bool {
        false
    }

    open spec fn try_from_spec(value: &'a str) -> Result<Self, Self::Error> {
        arbitrary()
    }
}

impl TryFrom<Vec<String>> for Command {
    type Error = CommandError;

    fn try_from(value: Vec<String>) -> (r: Result<Self, Self::Error>)
        ensures
            outcome(r) == command_of(texts(value@)),
    {
        let n: usize = value.len();
        if n == 0 {
            return Err(CommandError::Empty);
        }
        let verb: &String = &value[0];
        let ghost words = texts(value@);
        assert(words[0] == verb@);
        if eq_ignore_case(verb.as_str(), PING) {
            if n == 1 {
                Ok(Command::Ping)
            } else {
                Err(CommandError::WrongArity(verb.clone()))
            }
        } else if eq_ignore_case(verb.as_str(), ECHO) {
            if n == 2 {
                assert(words[1] == value@[1]@);
                Ok(Command::Echo(value[1].clone()))
            } else {
                Err(CommandError::WrongArity(verb.clone()))
            }
        } else if eq_ignore_case(verb.as_str(), GET) {
            if n == 2 {
                assert(words[1] == value@[1]@);
                Ok(Command::Get(value[1].clone()))
            } else {
                Err(CommandError::WrongArity(verb.clone()))
            }
        } else if eq_ignore_case(verb.as_str(), SET) {
            if n == 3 {
                assert(words[1] == value@[1]@ && words[2] == value@[2]@);
                Ok(Command::SetValue((value[1].clone(), value[2].clone())))
            } else if n == 5 {
                assert(words[1] == value@[1]@ && words[2] == value@[2]@);
                assert(words[3] == value@[3]@ && words[4] == value@[4]@);
                match SetExpiration::try_from(value[3].clone()) {
                    Ok(exp_type) => Ok(
                        Command::SetWithExp {
                            kv: (value[1].clone(), value[2].clone()),
                            exp_type,
                            ttl: value[4].clone(),
                            options: None,
                        },
                    ),
                    Err(e) => Err(e),
                }
            } else {
                Err(CommandError::WrongArity(verb.clone()))
            }
        } else {
            Err(CommandError::UnknownCommand(verb.clone()))
        }
    }
}

impl TryFromSpecImpl<Vec<String>> for Command {
    /// The contract stands on `try_from`, which speaks of texts.
    open spec fn obeys_try_from_spec() -> bool {
        false
    }

    open spec fn try_from_spec(value: Vec<String>) -> Result<Self, Self::Error> {
        arbitrary()
    }
}

/// Putting words in front in two steps is putting them in front at once.
pub proof fn lemma_behind(
    first: Seq<Seq<char>>,
    second: Seq<Seq<char>>,
    rest: Result<Seq<Seq<char>>, CommandFault>,
)
    ensures
        behind(first, behind(second, rest)) == behind(first + second, rest),
{
    match rest {
        Ok(words) => {
            assert(first + (second + words) =~= (first + second) + words);
        },
        Err(_) => {},
    }
}

/// The words of a request, each as a string.
pub fn words_of_request(value: &RespData) -> (r: Result<Vec<String>, CommandError>)
    ensures
        match r {
            Ok(words) => request_words(value@) == Ok::<Seq<Seq<char>>, CommandFault>(
                texts(words@),
            ),
            Err(e) => request_words(value@) == Err::<Seq<Seq<char>>, CommandFault>(e@),
        },
{
    let items: &Vec<RespData> = match value {
        RespData::Array(items) => items,
        _ => {
            return Err(CommandError::NotAnArray);
        },
    };
    let ghost all = models_of(items@);
    let mut out: Vec<String> = Vec::new();
    let mut i: usize = 0;
    proof {
        lemma_models_of(items@);
        assert(all.skip(0) =~= all);
        assert(texts(out@) =~= Seq::<Seq<char>>::empty());
        match words_of_items(all) {
            Ok(w) => assert(Seq::<Seq<char>>::empty() + w =~= w),
            Err(_) => {},
        }
    }
    while i < items.len()
        invariant
            i <= items.len(),
            all == models_of(items@),
            all.len() == items.len(),
            request_words(value@) == words_of_items(all),
            forall|j: int| 0 <= j < items.len() ==> #[trigger] all[j] == model_of(items@[j]),
            words_of_items(all) == behind(texts(out@), words_of_items(all.skip(i as int))),
        decreases items.len() - i,
    {
        let ghost rest = all.skip(i as int);
        let ghost done = texts(out@);
        assert(rest[0] == model_of(items@[i as int]));
        assert(rest.drop_first() =~= all.skip(i + 1));
        match &items[i] {
            RespData::BulkString(Some(p)) => {
                match string_from_utf8(p.clone()) {
                    Some(s) => {
                        proof {
                            encode_utf8_decode_utf8(s@);
                            lemma_behind(done, seq![s@], words_of_items(rest.drop_first()));
                            assert(texts(out@.push(s)) =~= done + seq![s@]);
                        }
                        out.push(s);
                    },
                    None => {
                        return Err(CommandError::InvalidUtf8);
                    },
                }
            },
            _ => {
                return Err(CommandError::NotBulkString);
            },
        }
        i += 1;
    }
    proof {
        assert(texts(out@) + Seq::<Seq<char>>::empty() =~= texts(out@));
    }
    Ok(out)
}

impl TryFrom<RespData> for Vec<String> {
    type Error = CommandError;

    /// The words of a request: one word for each element, which is the
    /// whole payload of the bulk string that the element is.
    fn try_from(value: RespData) -> (r: Result<Self, Self::Error>)
        ensures
            match r {
                Ok(words) => request_words(value@) == Ok::<Seq<Seq<char>>, CommandFault>(
                    texts(words@),
                ),
                Err(e) => request_words(value@) == Err::<Seq<Seq<char>>, CommandFault>(e@),
            },
    {
        words_of_request(&value)
    }
}

impl TryFromSpecImpl<RespData> for Vec<String> {
    /// The contract stands on `try_from`, which speaks of texts.
    open spec fn obeys_try_from_spec() -> bool {
        false
    }

    open spec fn try_from_spec(value: RespData) -> Result<Self, Self::Error> {
        arbitrary()
    }
}

impl<'a> TryFrom<&'a RespData> for Command {
    type Error = CommandError;

    /// The command that a request denotes.
    fn try_from(value: &'a RespData) -> (r: Result<Self, Self::Error>)
        ensures
            outcome(r) == request_command(value@),
    {
        match words_of_request(value) {
            Ok(words) => Command::try_from(words),
            Err(e) => Err(e),
        }
    }
}

impl<'a> TryFromSpecImpl<&'a RespData> for Command {
    /// The contract stands on `try_from`, which speaks of texts.
    open spec fn obeys_try_from_spec() -> bool {
        false
    }

    open spec fn try_from_spec(value: &'a RespData) -> Result<Self, Self::Error> {
        arbitrary()
    }
}

/// The request that a client writes for the given words: an array with
/// one bulk string for each word, holding the word in UTF-8.
pub open spec fn request_of(words: Seq<Seq<char>>) -> Model {
    Model::Array(words.map_values(|w: Seq<char>| Model::BulkString(Some(encode_utf8(w)))))
}

/// The words of a request that was written for words are those words.
pub proof fn lemma_request_words(words: Seq<Seq<char>>)
    ensures
        request_words(request_of(words)) == Ok::<Seq<Seq<char>>, CommandFault>(words),
    decreases words.len(),
{
    let items = words.map_values(|w: Seq<char>| Model::BulkString(Some(encode_utf8(w))));
    if words.len() == 0 {
        assert(words =~= Seq::<Seq<char>>::empty());
    } else {
        let others = words.drop_first();
        lemma_request_words(others);
        assert(items.drop_first() =~= others.map_values(
            |w: Seq<char>| Model::BulkString(Some(encode_utf8(w))),
        ));
        encode_utf8_valid_utf8(words[0]);
        encode_utf8_decode_utf8(words[0]);
        assert(seq![words[0]] + others =~= words);
    }
}

/// What a client writes, the server understands: the bytes of a request
/// for the given words are read back as that request, and the request
/// denotes the command that the words denote.
pub proof fn lemma_request_is_understood(words: Seq<Seq<char>>, tail: Seq<u8>)
    requires
        writable(request_of(words)),
    ensures
        decoding(encoding(request_of(words)) + tail) == Ok::<(Model, nat), ProtocolError>(
            (request_of(words), encoding(request_of(words)).len()),
        ),
        request_command(request_of(words)) == command_of(words),
{
    lemma_decode_encode(request_of(words), tail);
    lemma_request_words(words);
}

} // verus!
