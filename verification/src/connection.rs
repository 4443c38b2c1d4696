//! One connection, as a state machine.
//!
//! The connection itself does nothing to the outside world. Whoever drives
//! it performs the action that a step hands out (read from the socket,
//! execute a command on the store, write to the socket) and hands the
//! outcome back as the next event. The bytes that were received and not yet
//! used stay in the connection, so a request may arrive in any number of
//! pieces, and several requests may arrive in one piece.

use crate::command::{
    command_of, lemma_request_is_understood, request_command, request_of, Command, CommandModel,
};
use crate::resp::error::ProtocolError;
use crate::resp::data::{Model, RespData};
use crate::resp::value::{
    decoding, encoding, lemma_decoding_bound, lemma_decoding_stable, writable,
};
use crate::response::{error_text, Formatter};
use vstd::prelude::*;
use vstd::slice::{slice_subrange, slice_to_vec};

verus! {

/// Where a connection stands in the cycle of one request. Decoding is no
/// phase of its own: it happens within the step that follows a read or a
/// write.
#[derive(Debug, PartialEq, Eq, Clone, Copy)]
pub enum Phase {
    /// It waits for bytes from the peer.
    Reading,
    /// It has handed out a command and waits for the reply.
    Dispatching,
    /// It has handed out a reply and waits for it to be written.
    Writing,
    /// It is over: the peer has gone, or the socket has failed.
    Closed,
}

/// What has happened since the last step.
#[derive(Debug, PartialEq)]
pub enum Event {
    /// The socket gave these bytes.
    Received(Vec<u8>),
    /// The command was executed, with this reply.
    Executed(String),
    /// The reply was written.
    Written,
    /// The peer has closed the socket, or reading or writing has failed.
    Closed,
}

/// What is to be done next.
#[derive(Debug, PartialEq)]
pub enum Action {
    /// Read from the socket.
    Read,
    /// Execute the command on the store.
    Execute(Command),
    /// Write the reply to the socket.
    Write(String),
    /// Give the connection up.
    Close,
}

/// An event as contracts speak of it.
pub enum Happened {
    Received(Seq<u8>),
    Executed(Seq<char>),
    Written,
    Closed,
}

/// An action as contracts speak of it.
pub enum Todo {
    Read,
    Execute(CommandModel),
    Write(Seq<char>),
    Close,
}

impl View for Event {
    type V = Happened;

    open spec fn view(&self) -> Happened {
        match self {
            Event::Received(bytes) => Happened::Received(bytes@),
            Event::Executed(reply) => Happened::Executed(reply@),
            Event::Written => Happened::Written,
            Event::Closed => Happened::Closed,
        }
    }
}

impl View for Action {
    type V = Todo;

    open spec fn view(&self) -> Todo {
        match self {
            Action::Read => Todo::Read,
            Action::Execute(command) => Todo::Execute(command@),
            Action::Write(reply) => Todo::Write(reply@),
            Action::Close => Todo::Close,
        }
    }
}

/// A connection between two steps: its phase and the bytes it holds.
pub struct Situation {
    pub phase: Phase,
    pub buffer: Seq<u8>,
}

/// What a connection that holds `buffer` does next, and what it holds
/// after that.
///
/// While the buffer holds no complete request, it reads, and keeps every
/// byte. A complete request leaves the buffer; it is executed if it is a
/// command, and answered with an error if it is not. Bytes that are no
/// request at all are answered with an error and dropped with all that
/// came behind them.
pub open spec fn next_request(buffer: Seq<u8>) -> (Situation, Todo) {
    match decoding(buffer) {
        Err(e) => if e.is_resumable() {
            (Situation { phase: Phase::Reading, buffer }, Todo::Read)
        } else {
            (
                Situation { phase: Phase::Writing, buffer: Seq::empty() },
                Todo::Write(error_text(e.diagnostic())),
            )
        },
        Ok((request, used)) => match request_command(request) {
            Ok(command) => (
                Situation { phase: Phase::Dispatching, buffer: buffer.skip(used as int) },
                Todo::Execute(command),
            ),
            Err(e) => (
                Situation { phase: Phase::Writing, buffer: buffer.skip(used as int) },
                Todo::Write(error_text(e.diagnostic())),
            ),
        },
    }
}

/// One step: the situation after an event, and the action to perform.
///
/// Bytes that were read join the buffer, and the next request is looked
/// for. The reply to a command is written. Once a reply is written, the
/// next request is looked for in what the buffer still holds. The end of
/// the socket closes the connection, and so does any event that the phase
/// does not wait for.
pub open spec fn step_of(now: Situation, event: Happened) -> (Situation, Todo) {
    match (now.phase, event) {
        (Phase::Reading, Happened::Received(bytes)) => next_request(now.buffer + bytes),
        (Phase::Dispatching, Happened::Executed(reply)) => (
            Situation { phase: Phase::Writing, buffer: now.buffer },
            Todo::Write(reply),
        ),
        (Phase::Writing, Happened::Written) => next_request(now.buffer),
        _ => (Situation { phase: Phase::Closed, buffer: now.buffer }, Todo::Close),
    }
}

/// One connection: its phase and the bytes that it has received and not
/// yet used.
pub struct Connection {
    phase: Phase,
    buffer: Vec<u8>,
}

impl View for Connection {
    type V = Situation;

    closed spec fn view(&self) -> Situation {
        Situation { phase: self.phase, buffer: self.buffer@ }
    }
}

impl Connection {
    /// A connection that was just accepted: it holds nothing and is to be
    /// read from.
    pub fn new() -> (r: Self)
        ensures
            r@ == (Situation { phase: Phase::Reading, buffer: Seq::empty() }),
    {
        Self { phase: Phase::Reading, buffer: Vec::new() }
    }

    /// The phase that the connection stands in.
    pub fn phase(&self) -> (r: Phase)
        ensures
            r == self@.phase,
    {
        self.phase
    }

    /// The number of bytes that were received and not yet used.
    pub fn buffered(&self) -> (r: usize)
        ensures
            r == self@.buffer.len(),
    {
        self.buffer.len()
    }

    /// Takes the next request out of the buffer, if one is complete.
    fn advance(&mut self) -> (action: Action)
        ensures
            (final(self)@, action@) == next_request(old(self)@.buffer),
    {
        match RespData::decode(self.buffer.as_slice()) {
            Err(ProtocolError::Incomplete) => {
                self.phase = Phase::Reading;
                Action::Read
            },
            Err(e) => {
                self.phase = Phase::Writing;
                self.buffer = Vec::new();
                Action::Write(Formatter::to_err_str(e.reply()))
            },
            Ok((request, used)) => {
                let rest: Vec<u8> = slice_to_vec(
                    slice_subrange(self.buffer.as_slice(), used, self.buffer.len()),
                );
                assert(rest@ =~= old(self)@.buffer.skip(used as int));
                self.buffer = rest;
                match Command::try_from(&request) {
                    Ok(command) => {
                        self.phase = Phase::Dispatching;
                        Action::Execute(command)
                    },
                    Err(e) => {
                        self.phase = Phase::Writing;
                        Action::Write(Formatter::to_err_str(e.reply()))
                    },
                }
            },
        }
    }

    /// Takes note of an event and says what is to be done next.
    pub fn step(&mut self, event: Event) -> (action: Action)
        ensures
            (final(self)@, action@) == step_of(old(self)@, event@),
    {
        match (self.phase, event) {
            (Phase::Reading, Event::Received(bytes)) => {
                self.buffer.extend_from_slice(bytes.as_slice());
                assert(self.buffer@ =~= old(self)@.buffer + bytes@);
                self.advance()
            },
            (Phase::Dispatching, Event::Executed(reply)) => {
                self.phase = Phase::Writing;
                Action::Write(reply)
            },
            (Phase::Writing, Event::Written) => self.advance(),
            _ => {
                self.phase = Phase::Closed;
                Action::Close
            },
        }
    }
}

/// A closed connection stays closed, whatever happens.
pub proof fn lemma_closed_stays_closed(now: Situation, event: Happened)
    requires
        now.phase == Phase::Closed,
    ensures
        step_of(now, event).0.phase == Phase::Closed,
        step_of(now, event).1 == Todo::Close,
        step_of(now, event).0.buffer == now.buffer,
{
}

/// The action of a step and the phase after it go together: the connection
/// reads while it waits for bytes, has one command out while it waits for a
/// reply, has one reply out while it waits for the write, and is closed
/// once it has said so. So no request is taken up before the reply to the
/// one before it was written.
pub proof fn lemma_one_request_at_a_time(now: Situation, event: Happened)
    ensures
        ({
            let (then, todo) = step_of(now, event);
            &&& todo is Read <==> then.phase == Phase::Reading
            &&& todo is Execute <==> then.phase == Phase::Dispatching
            &&& todo is Write <==> then.phase == Phase::Writing
            &&& todo is Close <==> then.phase == Phase::Closed
        }),
{
}

/// A request that arrives in two pieces is the request that arrives in
/// one: while the first piece alone is no complete request, nothing of it
/// is lost, and the second piece is read behind it.
pub proof fn lemma_pieces_add_up(buffer: Seq<u8>, first: Seq<u8>, second: Seq<u8>)
    requires
        decoding(buffer + first) == Err::<(Model, nat), ProtocolError>(
            ProtocolError::Incomplete,
        ),
    ensures
        ({
            let start = Situation { phase: Phase::Reading, buffer };
            let (waiting, todo) = step_of(start, Happened::Received(first));
            &&& todo == Todo::Read
            &&& waiting == (Situation { phase: Phase::Reading, buffer: buffer + first })
            &&& step_of(waiting, Happened::Received(second)) == step_of(
                start,
                Happened::Received(first + second),
            )
        }),
{
    assert((buffer + first) + second =~= buffer + (first + second));
}

/// A request that is complete in the buffer is settled: bytes that come
/// behind it change neither what is done with it nor what it leaves in
/// the buffer, but for standing behind that.
pub proof fn lemma_complete_request_is_settled(buffer: Seq<u8>, more: Seq<u8>)
    requires
        decoding(buffer) is Ok,
    ensures
        ({
            let (alone, todo) = next_request(buffer);
            let (followed, todo_followed) = next_request(buffer + more);
            &&& todo_followed == todo
            &&& followed.phase == alone.phase
            &&& followed.buffer == alone.buffer + more
        }),
{
    lemma_decoding_stable(buffer, more);
    lemma_decoding_bound(buffer);
    let used = decoding(buffer)->Ok_0.1;
    assert((buffer + more).skip(used as int) =~= buffer.skip(used as int) + more);
}

/// A connection that holds exactly the bytes of a request for words that
/// denote a command hands that command out and holds nothing after it.
pub proof fn lemma_written_request_is_executed(words: Seq<Seq<char>>)
    requires
        writable(request_of(words)),
        command_of(words) is Ok,
    ensures
        ({
            let bytes = encoding(request_of(words));
            let (then, todo) = next_request(bytes);
            &&& todo == Todo::Execute(command_of(words)->Ok_0)
            &&& then.phase == Phase::Dispatching
            &&& then.buffer == Seq::<u8>::empty()
        }),
{
    let bytes = encoding(request_of(words));
    lemma_request_is_understood(words, Seq::empty());
    assert(bytes + Seq::<u8>::empty() =~= bytes);
    assert(bytes.skip(bytes.len() as int) =~= Seq::<u8>::empty());
}

} // verus!
