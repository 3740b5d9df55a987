//! The server's side: what is answered to a request, what a connection does
//! with the bytes it has, and what the acceptor does next.

use vstd::prelude::*;
use crate::engine::{lookup, KvsEngine};
use crate::err::{lemma_key_not_found_words, KvsError};
use crate::json::Fault;
use crate::network::codec::{
    decode_request, encode_response, request_at, response_at, response_text,
};
use crate::network::{
    Command, CommandModel, NetRequest, NetResponse, ReplyModel, RequestModel, Response,
    ResponseModel, ServerError,
};

verus! {

/// The response to a `Get`, given what the engine returned: the value that
/// was found, or the engine's failure in words.
pub fn reply_to_get(req: &NetRequest, found: Result<Option<String>, KvsError>) -> (resp:
    NetResponse)
    ensures
        resp.id == req.id,
        match found {
            Ok(value) => resp.response == Response::Success(value),
            Err(e) => resp.response@ == ResponseModel::Failure(e.message_text()),
        },
{
    match found {
        Ok(value) => NetResponse::success(req, value),
        Err(e) => NetResponse::err(req, ServerError::Core(e)),
    }
}

/// The response to a `Set` or a `Rm`, given what the engine returned: a
/// success that carries nothing, or the engine's failure in words.
pub fn reply_to_write(req: &NetRequest, done: Result<(), KvsError>) -> (resp: NetResponse)
    ensures
        resp.id == req.id,
        match done {
            Ok(_) => resp.response == Response::Success(None),
            Err(e) => resp.response@ == ResponseModel::Failure(e.message_text()),
        },
{
    match done {
        Ok(_) => NetResponse::success(req, None),
        Err(e) => NetResponse::err(req, ServerError::Core(e)),
    }
}

/// The words of some failure of an engine.
pub open spec fn engine_words(msg: Seq<char>) -> bool {
    exists|e: KvsError| msg == #[trigger] e.message_text()
}

/// `resp` answers `req` on an engine whose bindings were `before` and are
/// `after`: a success tells what the command did, and a removal that is
/// refused for want of the key has changed nothing.
pub open spec fn answers(
    before: Map<Seq<char>, Seq<char>>,
    after: Map<Seq<char>, Seq<char>>,
    req: RequestModel,
    resp: ReplyModel,
) -> bool {
    match req.command {
        CommandModel::Get { key } => {
            &&& after == before
            &&& resp.response matches ResponseModel::Success(found) ==> found == lookup(before, key)
        },
        CommandModel::Put { key, value } => {
            resp.response matches ResponseModel::Success(found) ==> found is None && after
                == before.insert(key, value)
        },
        CommandModel::Rm { key } => {
            &&& resp.response matches ResponseModel::Success(found) ==> found is None
                && before.contains_key(key) && after == before.remove(key)
            &&& resp.response == ResponseModel::Failure(KvsError::KeyNotFound.message_text())
                ==> !before.contains_key(key) && after == before
        },
    }
}

/// The answer to `req` of an engine that does not fail and whose bindings
/// are `before`: a `Get` finds what is bound, a `Set` is done, and a `Rm` is
/// done where the key is bound and refused where it is not.
pub open spec fn due_reply(before: Map<Seq<char>, Seq<char>>, req: RequestModel) -> ReplyModel {
    ReplyModel {
        id: req.id,
        response: match req.command {
            CommandModel::Get { key } => ResponseModel::Success(lookup(before, key)),
            CommandModel::Put { .. } => ResponseModel::Success(None),
            CommandModel::Rm { key } => if before.contains_key(key) {
                ResponseModel::Success(None)
            } else {
                ResponseModel::Failure(KvsError::KeyNotFound.message_text())
            },
        },
    }
}

/// The bindings of an engine that does not fail after it has served `req`.
pub open spec fn bindings_after(before: Map<Seq<char>, Seq<char>>, req: RequestModel) -> Map<
    Seq<char>,
    Seq<char>,
> {
    match req.command {
        CommandModel::Get { .. } => before,
        CommandModel::Put { key, value } => before.insert(key, value),
        CommandModel::Rm { key } => if before.contains_key(key) {
            before.remove(key)
        } else {
            before
        },
    }
}

/// Hands the command of `req` to the engine and answers with what it
/// returned, under the number of `req`. A failure of the engine is answered
/// in band, in the engine's words. Of an engine that says what it holds, the
/// answer tells what was done; of one that does not fail either, the answer
/// is the one that is due.
pub fn respond<E: KvsEngine>(engine: &mut E, req: &NetRequest) -> (resp: NetResponse)
    requires
        old(engine).valid(),
    ensures
        final(engine).valid(),
        resp.id == req.id,
        resp@.response matches ResponseModel::Failure(msg) ==> engine_words(msg),
        E::described() ==> answers(old(engine).contents(), final(engine).contents(), req@, resp@),
        E::described() && E::unfailing() ==> resp@ == due_reply(old(engine).contents(), req@),
        E::described() && E::unfailing() ==> final(engine).contents() == bindings_after(
            old(engine).contents(),
            req@,
        ),
{
    match &req.command {
        Command::Get { key } => {
            let found = engine.get(key.clone());
            reply_to_get(req, found)
        },
        Command::Rm { key } => {
            let done = engine.remove(key.clone());
            proof {
                if done is Err {
                    lemma_key_not_found_words(done->Err_0);
                }
            }
            reply_to_write(req, done)
        },
        Command::Put { key, value } => {
            let done = engine.set(key.clone(), value.clone());
            reply_to_write(req, done)
        },
    }
}

/// What a connection does next with the bytes it has read.
#[derive(Debug)]
pub enum Step {
    /// A request was read and served: send `bytes`, go on at `next`.
    Reply { bytes: Vec<u8>, next: usize },
    /// No whole request is there yet: read more bytes, or close where the
    /// peer has closed.
    Wait,
    /// The bytes are no request: close the connection.
    Close,
}

/// Serves the request that starts at or after `pos`, if the bytes hold one.
///
/// A whole request is handed to the engine, and its response comes back in
/// bytes. Where the bytes end before the request does, nothing happens and
/// the connection waits; where they are no request, nothing happens and the
/// connection is to be closed.
pub fn serve_next<E: KvsEngine>(engine: &mut E, input: &[u8], pos: usize) -> (step: Step)
    requires
        old(engine).valid(),
        pos <= input@.len(),
    ensures
        final(engine).valid(),
        match request_at(input@, pos as int) {
            Ok((req, e)) => step matches Step::Reply { bytes, next } && {
                &&& next == e
                &&& pos < next <= input@.len()
                &&& response_at(bytes@, 0) is Ok
                &&& response_at(bytes@, 0)->Ok_0.1 == bytes@.len()
                &&& response_at(bytes@, 0)->Ok_0.0.id == req.id
                &&& E::described() ==> answers(
                    old(engine).contents(),
                    final(engine).contents(),
                    req,
                    response_at(bytes@, 0)->Ok_0.0,
                )
                &&& E::described() && E::unfailing() ==> bytes@ == response_text(
                    due_reply(old(engine).contents(), req),
                )
                &&& E::described() && E::unfailing() ==> final(engine).contents() == bindings_after(
                    old(engine).contents(),
                    req,
                )
            },
            Err(Fault::Incomplete) => step is Wait && *final(engine) == *old(engine),
            Err(Fault::Malformed) => step is Close && *final(engine) == *old(engine),
        },
{
    match decode_request(input, pos) {
        Ok((req, next)) => {
            let resp = respond(engine, &req);
            let bytes = encode_response(&resp);
            Step::Reply { bytes, next }
        },
        Err(Fault::Incomplete) => Step::Wait,
        Err(Fault::Malformed) => Step::Close,
    }
}

/// Where the acceptor stands in its loop.
#[derive(Clone, Copy, Debug, PartialEq, Eq, Structural)]
pub enum Acceptor {
    /// About to look for the shutdown signal.
    Polling,
    /// About to try to accept a connection.
    Accepting,
    /// The loop has ended.
    Stopped,
}

/// What the acceptor was told.
#[derive(Clone, Copy, Debug, PartialEq, Eq, Structural)]
pub enum Event {
    /// The shutdown signal was looked for, and was or was not there.
    Signal(bool),
    /// A connection was accepted.
    Accepted,
    /// No connection is waiting.
    WouldBlock,
    /// Accepting failed otherwise.
    Failed,
}

/// What the acceptor does next.
#[derive(Clone, Copy, Debug, PartialEq, Eq, Structural)]
pub enum Action {
    /// Look for the shutdown signal, without blocking.
    Poll,
    /// Try to accept a connection, without blocking.
    Accept,
    /// Hand the accepted connection, with a handle to the engine, to the
    /// pool; then look for the shutdown signal.
    Spawn,
    /// Wait a short while; then look for the shutdown signal.
    Pause,
    /// Leave the loop. Connections that are being served run to their end.
    Stop,
}

/// The acceptor's next state and action.
pub open spec fn transition(state: Acceptor, event: Event) -> (Acceptor, Action) {
    match (state, event) {
        (Acceptor::Stopped, _) => (Acceptor::Stopped, Action::Stop),
        (Acceptor::Polling, Event::Signal(true)) => (Acceptor::Stopped, Action::Stop),
        (Acceptor::Polling, Event::Signal(false)) => (Acceptor::Accepting, Action::Accept),
        (Acceptor::Polling, _) => (Acceptor::Polling, Action::Poll),
        (Acceptor::Accepting, Event::Accepted) => (Acceptor::Polling, Action::Spawn),
        (Acceptor::Accepting, Event::WouldBlock) => (Acceptor::Polling, Action::Pause),
        (Acceptor::Accepting, Event::Failed) => (Acceptor::Polling, Action::Pause),
        (Acceptor::Accepting, Event::Signal(_)) => (Acceptor::Accepting, Action::Accept),
    }
}

impl Acceptor {
    /// The state in which the loop begins.
    pub fn new() -> (state: Acceptor)
        ensures
            state == Acceptor::Polling,
    {
        Acceptor::Polling
    }

    /// One turn of the accept loop: given what happened, the state that
    /// follows and what to do next.
    ///
    /// The shutdown signal is looked for before each attempt to accept, and
    /// ends the loop at once. An accepted connection is handed to the pool.
    /// Where no connection waits, or accepting fails, the acceptor pauses
    /// and goes on. An event that does not answer what was asked is
    /// ignored, and the question is asked again.
    pub fn advance(self, event: Event) -> (r: (Acceptor, Action))
        ensures
            r == transition(self, event),
    {
        match self {
            Acceptor::Stopped => (Acceptor::Stopped, Action::Stop),
            Acceptor::Polling => match event {
                Event::Signal(true) => (Acceptor::Stopped, Action::Stop),
                Event::Signal(false) => (Acceptor::Accepting, Action::Accept),
                _ => (Acceptor::Polling, Action::Poll),
            },
            Acceptor::Accepting => match event {
                Event::Accepted => (Acceptor::Polling, Action::Spawn),
                Event::WouldBlock => (Acceptor::Polling, Action::Pause),
                Event::Failed => (Acceptor::Polling, Action::Pause),
                Event::Signal(_) => (Acceptor::Accepting, Action::Accept),
            },
        }
    }
}

} // verus!
