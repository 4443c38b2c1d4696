//! The service in one piece: it holds the entries itself and answers a
//! command with the reply.

use crate::clock::current_millis;
use crate::command::Command;
use crate::persist::store::{after_set, after_set_exp, entries, expiry_for, Entry};
use crate::resp::constant::{lemma_constants, RESP_NULL_BULK_STR};
use crate::response::{
    bulk_text, reply_text, simple_text, state_after, Formatter, GENERIC_ERR, OK, PONG,
};
use vstd::prelude::*;

verus! {

/// One entry as the service holds it.
pub type Data = crate::persist::store::Data;

/// The map that holds the entries of the service.
pub type Store = crate::persist::store::Store;

/// Executes commands on entries of its own and writes the replies. Its
/// view is the entries.
pub struct Service {
    store: Store,
}

impl View for Service {
    type V = Map<Seq<char>, Entry>;

    closed spec fn view(&self) -> Map<Seq<char>, Entry> {
        entries(self.store@)
    }
}

impl Service {
    /// A service over the given map, with the entries that the map holds.
    pub fn new(store: Store) -> (r: Self)
        ensures
            r@ == entries(store@),
    {
        Self { store }
    }

    /// Executes the command at the moment `now` and returns the reply.
    pub fn execute_at(&mut self, command: Command, now: u64) -> (out: String)
        ensures
            out@ == reply_text(old(self)@, command@, now),
            final(self)@ == state_after(old(self)@, command@, now),
    {
        match command {
            Command::Ping => RespResponseFormatter::to_simple_str(PONG.to_owned()),
            Command::Echo(arg) => RespResponseFormatter::to_bulk_str(arg),
            Command::Get(key) => {
                proof {
                    lemma_constants();
                }
                match self.store.get(key.as_str()) {
                    Some(data) => match data.expires_at {
                        Some(ex) => {
                            if now < ex {
                                RespResponseFormatter::to_bulk_str(data.val.clone())
                            } else {
                                RESP_NULL_BULK_STR.to_owned()
                            }
                        },
                        None => RespResponseFormatter::to_bulk_str(data.val.clone()),
                    },
                    None => RESP_NULL_BULK_STR.to_owned(),
                }
            },
            Command::SetValue((key, val)) => {
                let ghost (k, v) = (key@, val@);
                self.store.insert(key, Data { val, expires_at: None });
                assert(self@ =~= after_set(old(self)@, k, v));
                RespResponseFormatter::to_simple_str(OK.to_owned())
            },
            Command::SetWithExp { kv: (key, val), exp_type, ttl, options } => {
                match expiry_for(&ttl, &exp_type, now) {
                    Ok(expires_at) => {
                        let ghost (k, v) = (key@, val@);
                        self.store.insert(key, Data { val, expires_at: Some(expires_at) });
                        assert(self@ =~= after_set_exp(old(self)@, k, v, expires_at));
                        RespResponseFormatter::to_simple_str(OK.to_owned())
                    },
                    Err(_) => Formatter::to_err_str(GENERIC_ERR.to_owned()),
                }
            },
        }
    }

    /// Executes the command at the present moment: what `execute_at` does
    /// for some reading of the clock.
    pub fn execute(&mut self, command: Command) -> (out: String)
        ensures
            exists|now: u64|
                now <= i64::MAX && out@ == #[trigger] reply_text(old(self)@, command@, now)
                    && final(self)@ == state_after(old(self)@, command@, now),
    {
        let now: u64 = current_millis();
        let ghost c = command@;
        let out = self.execute_at(command, now);
        assert(out@ == reply_text(old(self)@, c, now));
        out
    }
}

/// Writes the texts of this service as frames.
pub struct RespResponseFormatter;

impl RespResponseFormatter {
    /// The text as a bulk string.
    pub fn to_bulk_str(value: String) -> (out: String)
        ensures
            out@ == bulk_text(value@),
    {
        Formatter::to_bulk_str(value)
    }

    /// The text as a simple string.
    pub fn to_simple_str(value: String) -> (out: String)
        ensures
            out@ == simple_text(value@),
    {
        Formatter::to_simple_str(value)
    }
}

} // verus!
