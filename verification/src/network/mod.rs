//! The wire protocol: requests, responses and their errors.

pub mod client;
pub mod codec;
pub mod server;

use vstd::prelude::*;
use vstd::string::StringExecFns;
use crate::err::KvsError;

verus! {

/// What a client asks of the server.
#[derive(Clone, Debug)]
pub enum Command {
    Get { key: String },
    Rm { key: String },
    Put { key: String, value: String },
}

/// A command as the contracts see it.
pub ghost enum CommandModel {
    Get { key: Seq<char> },
    Rm { key: Seq<char> },
    Put { key: Seq<char>, value: Seq<char> },
}

impl View for Command {
    type V = CommandModel;

    open spec fn view(&self) -> CommandModel {
        match self {
            Command::Get { key } => CommandModel::Get { key: key@ },
            Command::Rm { key } => CommandModel::Rm { key: key@ },
            Command::Put { key, value } => CommandModel::Put { key: key@, value: value@ },
        }
    }
}

/// A command with the number by which its response is told from others.
#[derive(Clone, Debug)]
pub struct NetRequest {
    pub id: u64,
    pub command: Command,
}

/// A request as the contracts see it.
pub ghost struct RequestModel {
    pub id: u64,
    pub command: CommandModel,
}

impl View for NetRequest {
    type V = RequestModel;

    open spec fn view(&self) -> RequestModel {
        RequestModel { id: self.id, command: self.command@ }
    }
}

/// What the server answers.
#[derive(Clone, Debug)]
pub enum Response {
    /// The command failed; the message says how.
    Failure(String),
    /// The command was done. A `Get` carries the value, or nothing where
    /// the key is not bound; the others carry nothing.
    Success(Option<String>),
}

/// An answer as the contracts see it.
pub ghost enum ResponseModel {
    Failure(Seq<char>),
    Success(Option<Seq<char>>),
}

impl View for Response {
    type V = ResponseModel;

    open spec fn view(&self) -> ResponseModel {
        match self {
            Response::Failure(msg) => ResponseModel::Failure(msg@),
            Response::Success(found) => ResponseModel::Success(
                match found {
                    Some(value) => Some(value@),
                    None => None,
                },
            ),
        }
    }
}

/// An answer with the number of the request that it answers.
#[derive(Clone, Debug)]
pub struct NetResponse {
    pub id: u64,
    pub response: Response,
}

/// A response as the contracts see it.
pub ghost struct ReplyModel {
    pub id: u64,
    pub response: ResponseModel,
}

impl View for NetResponse {
    type V = ReplyModel;

    open spec fn view(&self) -> ReplyModel {
        ReplyModel { id: self.id, response: self.response@ }
    }
}

/// What can go wrong while a request is served.
#[derive(Debug)]
pub enum ServerError {
    /// The engine failed.
    Core(KvsError),
    /// The connection failed; the message says how.
    Io(String),
    /// Bytes that are no request; the message says why.
    Serde(String),
}

impl ServerError {
    /// The words in which the failure is reported to the client. A failure
    /// of the engine is reported in the engine's own words.
    pub open spec fn message_text(self) -> Seq<char> {
        match self {
            ServerError::Core(e) => e.message_text(),
            ServerError::Io(msg) => "network io: "@ + msg@,
            ServerError::Serde(msg) => "network codec: "@ + msg@,
        }
    }

    /// The words in which the failure is reported to the client.
    pub fn message(&self) -> (msg: String)
        ensures
            msg@ == self.message_text(),
    {
        match self {
            ServerError::Core(e) => e.message(),
            ServerError::Io(msg) => String::from_str("network io: ").concat(msg.as_str()),
            ServerError::Serde(msg) => String::from_str("network codec: ").concat(msg.as_str()),
        }
    }
}

impl From<KvsError> for ServerError {
    fn from(e: KvsError) -> (r: ServerError) {
        ServerError::Core(e)
    }
}

impl vstd::std_specs::convert::FromSpecImpl<KvsError> for ServerError {
    open spec fn obeys_from_spec() -> bool {
        true
    }

    open spec fn from_spec(e: KvsError) -> ServerError {
        ServerError::Core(e)
    }
}

/// What a client reports: the failure in words.
#[derive(Debug)]
pub enum ClientError {
    Error(String),
}

impl ClientError {
    /// The words of the failure.
    pub fn message(&self) -> (msg: String)
        ensures
            self matches ClientError::Error(text) && msg@ == text@,
    {
        match self {
            ClientError::Error(text) => text.clone(),
        }
    }
}

impl From<String> for ClientError {
    fn from(s: String) -> (r: ClientError) {
        ClientError::Error(s)
    }
}

impl vstd::std_specs::convert::FromSpecImpl<String> for ClientError {
    open spec fn obeys_from_spec() -> bool {
        true
    }

    open spec fn from_spec(s: String) -> ClientError {
        ClientError::Error(s)
    }
}

impl NetResponse {
    /// The response that reports the failure `e` of the request `req`.
    pub fn err(req: &NetRequest, e: ServerError) -> (resp: NetResponse)
        ensures
            resp@ == (ReplyModel { id: req.id, response: ResponseModel::Failure(e.message_text()) }),
    {
        NetResponse { id: req.id, response: Response::Failure(e.message()) }
    }

    /// The response that reports that the request `req` was done, with what
    /// it found.
    pub fn success(req: &NetRequest, res: Option<String>) -> (resp: NetResponse)
        ensures
            resp.id == req.id,
            resp.response == Response::Success(res),
    {
        NetResponse { id: req.id, response: Response::Success(res) }
    }
}

} // verus!
