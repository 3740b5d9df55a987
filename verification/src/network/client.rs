//! The client's side of an exchange: the request that goes out, and what the
//! bytes that come back mean.

use vstd::prelude::*;
use vstd::string::StringExecFns;
use crate::json::{skip_spaces, skip_white_space};
use crate::network::codec::{decode_response, response_at};
use crate::network::{
    ClientError, Command, CommandModel, NetRequest, NetResponse, ReplyModel, Response,
};

verus! {

/// `rand::random` for a `u64`. Nothing is claimed of the number.
#[verifier::external_body]
fn random_id() -> (id: u64) {
    rand::random::<u64>()
}

/// The request for `command` under the number `id`.
pub fn request_with_id(id: u64, command: Command) -> (req: NetRequest)
    ensures
        req.id == id,
        req.command == command,
{
    NetRequest { id, command }
}

/// A request for the value of `key`, under a number drawn at random.
pub fn new_get_req(key: String) -> (req: NetRequest)
    ensures
        req.command@ == (CommandModel::Get { key: key@ }),
{
    request_with_id(random_id(), Command::Get { key })
}

/// A request to bind `key` to `value`, under a number drawn at random.
pub fn new_set_req(key: String, value: String) -> (req: NetRequest)
    ensures
        req.command@ == (CommandModel::Put { key: key@, value: value@ }),
{
    request_with_id(random_id(), Command::Put { key, value })
}

/// A request to remove `key`, under a number drawn at random.
pub fn new_rm_req(key: String) -> (req: NetRequest)
    ensures
        req.command@ == (CommandModel::Rm { key: key@ }),
{
    request_with_id(random_id(), Command::Rm { key })
}

/// Accepts `response` as the answer to `req` if it carries the number of
/// `req`, and no other response.
pub fn check_response(req: &NetRequest, response: NetResponse) -> (r: Result<
    NetResponse,
    ClientError,
>)
    ensures
        response.id == req.id ==> r == Ok::<NetResponse, ClientError>(response),
        response.id != req.id ==> (r matches Err(ClientError::Error(msg)) && msg@
            == "Invalid response"@),
{
    if response.id != req.id {
        return Err(ClientError::Error(String::from_str("Invalid response")));
    }
    Ok(response)
}

/// The response that `bytes` hold: one response, with nothing but white
/// space before and after it.
pub open spec fn reply_in(bytes: Seq<u8>) -> Option<ReplyModel> {
    match response_at(bytes, 0) {
        Ok((resp, e)) => if skip_spaces(bytes, e) >= bytes.len() {
            Some(resp)
        } else {
            None
        },
        Err(_) => None,
    }
}

/// Reads the bytes that came back for `req`. They are accepted if they hold
/// one response and it carries the number of `req`.
pub fn read_reply(req: &NetRequest, bytes: &[u8]) -> (r: Result<NetResponse, ClientError>)
    ensures
        match reply_in(bytes@) {
            Some(resp) => if resp.id == req.id {
                r matches Ok(got) && got@ == resp
            } else {
                r matches Err(ClientError::Error(msg)) && msg@ == "Invalid response"@
            },
            None => r matches Err(ClientError::Error(msg)) && msg@ == "Malformed response"@,
        },
{
    match decode_response(bytes, 0) {
        Ok((response, end)) => {
            let rest: usize = skip_white_space(bytes, end);
            if rest < bytes.len() {
                return Err(ClientError::Error(String::from_str("Malformed response")));
            }
            check_response(req, response)
        },
        Err(_) => Err(ClientError::Error(String::from_str("Malformed response"))),
    }
}

/// What a response means to the caller of `get`: the value, nothing where
/// the key is not bound, or the server's failure.
pub fn get_outcome(response: NetResponse) -> (r: Result<Option<String>, ClientError>)
    ensures
        match response.response {
            Response::Failure(msg) => r == Err::<Option<String>, ClientError>(
                ClientError::Error(msg),
            ),
            Response::Success(found) => r == Ok::<Option<String>, ClientError>(found),
        },
{
    match response.response {
        Response::Failure(msg) => Err(ClientError::Error(msg)),
        Response::Success(found) => Ok(found),
    }
}

/// What a response means to the caller of `set` or `remove`: done, or the
/// server's failure.
pub fn write_outcome(response: NetResponse) -> (r: Result<(), ClientError>)
    ensures
        match response.response {
            Response::Failure(msg) => r == Err::<(), ClientError>(ClientError::Error(msg)),
            Response::Success(_) => r == Ok::<(), ClientError>(()),
        },
{
    match response.response {
        Response::Failure(msg) => Err(ClientError::Error(msg)),
        Response::Success(_) => Ok(()),
    }
}

} // verus!
