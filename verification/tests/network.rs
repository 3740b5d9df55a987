use kvs::engine::kvs::KvStore;
use kvs::err::KvsError;
use kvs::json::Fault;
use kvs::network::client::{
    check_response, get_outcome, new_get_req, new_rm_req, new_set_req, read_reply,
    request_with_id, write_outcome,
};
use kvs::network::codec::{decode_request, decode_response, encode_request, encode_response};
use kvs::network::server::{
    reply_to_get, reply_to_write, respond, serve_next, Acceptor, Action, Event, Step,
};
use kvs::network::{ClientError, Command, NetRequest, NetResponse, Response, ServerError};

fn s(text: &str) -> String {
    text.to_string()
}

fn text(bytes: Vec<u8>) -> String {
    String::from_utf8(bytes).unwrap()
}

fn same_request(a: &NetRequest, b: &NetRequest) -> bool {
    a.id == b.id
        && match (&a.command, &b.command) {
            (Command::Get { key: x }, Command::Get { key: y }) => x == y,
            (Command::Rm { key: x }, Command::Rm { key: y }) => x == y,
            (Command::Put { key: x, value: v }, Command::Put { key: y, value: w }) => {
                x == y && v == w
            }
            _ => false,
        }
}

fn same_response(a: &NetResponse, b: &NetResponse) -> bool {
    a.id == b.id
        && match (&a.response, &b.response) {
            (Response::Failure(x), Response::Failure(y)) => x == y,
            (Response::Success(x), Response::Success(y)) => x == y,
            _ => false,
        }
}

#[test]
fn requests_are_written_as_the_schema_says() {
    let get = request_with_id(7, Command::Get { key: s("k") });
    assert_eq!(text(encode_request(&get)), "{\"id\":7,\"command\":{\"Get\":{\"key\":\"k\"}}}");
    let rm = request_with_id(0, Command::Rm { key: s("k") });
    assert_eq!(text(encode_request(&rm)), "{\"id\":0,\"command\":{\"Rm\":{\"key\":\"k\"}}}");
    let put = request_with_id(u64::MAX, Command::Put { key: s("k"), value: s("v") });
    assert_eq!(
        text(encode_request(&put)),
        "{\"id\":18446744073709551615,\"command\":{\"Set\":{\"key\":\"k\",\"value\":\"v\"}}}"
    );
}

#[test]
fn responses_are_written_as_the_schema_says() {
    let done = NetResponse { id: 3, response: Response::Success(None) };
    assert_eq!(text(encode_response(&done)), "{\"id\":3,\"response\":{\"Success\":null}}");
    let found = NetResponse { id: 3, response: Response::Success(Some(s("v"))) };
    assert_eq!(text(encode_response(&found)), "{\"id\":3,\"response\":{\"Success\":\"v\"}}");
    let failed = NetResponse { id: 3, response: Response::Failure(s("key not found")) };
    assert_eq!(
        text(encode_response(&failed)),
        "{\"id\":3,\"response\":{\"Err\":\"key not found\"}}"
    );
}

#[test]
fn a_request_is_read_back_as_it_was_written() {
    let requests = vec![
        request_with_id(1, Command::Get { key: s("a \"quoted\" key") }),
        request_with_id(2, Command::Rm { key: s("") }),
        request_with_id(u64::MAX, Command::Put { key: s("k\n"), value: s("\u{1F600}\\") }),
    ];
    let mut stream = Vec::new();
    for req in &requests {
        stream.extend_from_slice(&encode_request(req));
    }
    let mut pos = 0;
    for req in &requests {
        let (back, end) = decode_request(&stream, pos).unwrap();
        assert!(same_request(&back, req));
        pos = end;
    }
    assert_eq!(pos, stream.len());
    assert_eq!(decode_request(&stream, pos).unwrap_err(), Fault::Incomplete);
}

#[test]
fn a_response_is_read_back_as_it_was_written() {
    let responses = vec![
        NetResponse { id: 1, response: Response::Success(None) },
        NetResponse { id: 2, response: Response::Success(Some(s("null"))) },
        NetResponse { id: 3, response: Response::Failure(s("io: broken \"pipe\"")) },
    ];
    for resp in &responses {
        let bytes = encode_response(resp);
        let (back, end) = decode_response(&bytes, 0).unwrap();
        assert!(same_response(&back, resp));
        assert_eq!(end, bytes.len());
    }
}

#[test]
fn a_request_with_white_space_is_read() {
    let bytes = b"\n{ \"id\" : 12 ,\t\"command\" : { \"Set\" : { \"key\" : \"k\" , \"value\" : \"v\" } } }\r\n";
    let (req, end) = decode_request(bytes, 0).unwrap();
    assert!(same_request(&req, &request_with_id(12, Command::Put { key: s("k"), value: s("v") })));
    assert_eq!(end, bytes.len() - 2);
}

#[test]
fn bytes_that_are_no_request_are_malformed() {
    assert_eq!(decode_request(b"hello", 0).unwrap_err(), Fault::Malformed);
    assert_eq!(
        decode_request(b"{\"id\":-1,\"command\":{\"Get\":{\"key\":\"k\"}}}", 0).unwrap_err(),
        Fault::Malformed
    );
    assert_eq!(
        decode_request(b"{\"id\":1.5,\"command\":{\"Get\":{\"key\":\"k\"}}}", 0).unwrap_err(),
        Fault::Malformed
    );
    assert_eq!(
        decode_request(b"{\"id\":1,\"command\":{\"Put\":{\"key\":\"k\"}}}", 0).unwrap_err(),
        Fault::Malformed
    );
    assert_eq!(
        decode_request(b"{\"id\":1,\"command\":{\"Get\":{\"key\":\"k\"", 0).unwrap_err(),
        Fault::Incomplete
    );
}

#[test]
fn new_requests_carry_their_command() {
    let get = new_get_req(s("k"));
    assert!(matches!(&get.command, Command::Get { key } if key == "k"));
    let put = new_set_req(s("k"), s("v"));
    assert!(matches!(&put.command, Command::Put { key, value } if key == "k" && value == "v"));
    let rm = new_rm_req(s("k"));
    assert!(matches!(&rm.command, Command::Rm { key } if key == "k"));
}

#[test]
fn a_client_accepts_only_the_response_with_its_number() {
    let req = request_with_id(41, Command::Get { key: s("k") });
    let right = NetResponse { id: 41, response: Response::Success(Some(s("v"))) };
    let wrong = NetResponse { id: 42, response: Response::Success(Some(s("v"))) };
    assert!(same_response(&check_response(&req, right.clone()).unwrap(), &right));
    let ClientError::Error(msg) = check_response(&req, wrong.clone()).unwrap_err();
    assert_eq!(msg, "Invalid response");
    assert!(same_response(&read_reply(&req, &encode_response(&right)).unwrap(), &right));
    let ClientError::Error(msg) = read_reply(&req, &encode_response(&wrong)).unwrap_err();
    assert_eq!(msg, "Invalid response");
    let ClientError::Error(msg) = read_reply(&req, b"{\"id\":41").unwrap_err();
    assert_eq!(msg, "Malformed response");
    let mut twice = encode_response(&right);
    twice.extend_from_slice(&encode_response(&right));
    let ClientError::Error(msg) = read_reply(&req, &twice).unwrap_err();
    assert_eq!(msg, "Malformed response");
    let mut spaced = b" ".to_vec();
    spaced.extend_from_slice(&encode_response(&right));
    spaced.extend_from_slice(b"\n");
    assert!(same_response(&read_reply(&req, &spaced).unwrap(), &right));
}

#[test]
fn outcomes_translate_responses() {
    let found = NetResponse { id: 1, response: Response::Success(Some(s("v"))) };
    let nothing = NetResponse { id: 1, response: Response::Success(None) };
    let failed = NetResponse { id: 1, response: Response::Failure(s("key not found")) };
    assert_eq!(get_outcome(found.clone()).unwrap(), Some(s("v")));
    assert_eq!(get_outcome(nothing.clone()).unwrap(), None);
    let ClientError::Error(msg) = get_outcome(failed.clone()).unwrap_err();
    assert_eq!(msg, "key not found");
    assert!(write_outcome(nothing).is_ok());
    assert!(write_outcome(found).is_ok());
    let error = write_outcome(failed).unwrap_err();
    assert_eq!(error.message(), "key not found");
}

#[test]
fn replies_report_what_the_engine_returned() {
    let req = request_with_id(9, Command::Get { key: s("k") });
    let resp = reply_to_get(&req, Ok(Some(s("v"))));
    assert!(same_response(&resp, &NetResponse { id: 9, response: Response::Success(Some(s("v"))) }));
    let resp = reply_to_get(&req, Ok(None));
    assert!(same_response(&resp, &NetResponse { id: 9, response: Response::Success(None) }));
    let resp = reply_to_get(&req, Err(KvsError::Io(s("disk full"))));
    assert!(same_response(&resp, &NetResponse { id: 9, response: Response::Failure(s("io: disk full")) }));
    let resp = reply_to_write(&req, Ok(()));
    assert!(same_response(&resp, &NetResponse { id: 9, response: Response::Success(None) }));
    let resp = reply_to_write(&req, Err(KvsError::KeyNotFound));
    assert!(same_response(&resp, &NetResponse { id: 9, response: Response::Failure(s("key not found")) }));
}

#[test]
fn err_and_success_echo_the_number_of_the_request() {
    let req = request_with_id(5, Command::Rm { key: s("k") });
    let resp = NetResponse::success(&req, Some(s("v")));
    assert!(same_response(&resp, &NetResponse { id: 5, response: Response::Success(Some(s("v"))) }));
    let resp = NetResponse::err(&req, ServerError::Core(KvsError::KeyNotFound));
    assert!(same_response(&resp, &NetResponse { id: 5, response: Response::Failure(s("key not found")) }));
    let resp = NetResponse::err(&req, ServerError::Io(s("reset")));
    assert!(same_response(&resp, &NetResponse { id: 5, response: Response::Failure(s("network io: reset")) }));
    let resp = NetResponse::err(&req, ServerError::Serde(s("eof")));
    assert!(same_response(&resp, &NetResponse { id: 5, response: Response::Failure(s("network codec: eof")) }));
    let lifted: ServerError = KvsError::Codec.into();
    assert_eq!(lifted.message(), "malformed record");
    let lifted: ClientError = s("boom").into();
    assert_eq!(lifted.message(), "boom");
    assert_eq!(KvsError::Internal.message(), "engine state is inconsistent");
}

#[test]
fn the_server_serves_requests_in_order() {
    let mut store = KvStore::open(Vec::new()).unwrap();
    let put = request_with_id(1, Command::Put { key: s("a"), value: s("1") });
    let get = request_with_id(2, Command::Get { key: s("a") });
    let rm = request_with_id(3, Command::Rm { key: s("a") });
    let again = request_with_id(4, Command::Rm { key: s("a") });
    let gone = request_with_id(5, Command::Get { key: s("a") });
    assert!(same_response(&respond(&mut store, &put), &NetResponse { id: 1, response: Response::Success(None) }));
    assert!(same_response(&respond(&mut store, &get), &NetResponse { id: 2, response: Response::Success(Some(s("1"))) }));
    assert!(same_response(&respond(&mut store, &rm), &NetResponse { id: 3, response: Response::Success(None) }));
    assert!(same_response(&respond(&mut store, &again), &NetResponse { id: 4, response: Response::Failure(s("key not found")) }));
    assert!(same_response(&respond(&mut store, &gone), &NetResponse { id: 5, response: Response::Success(None) }));
}

#[test]
fn a_connection_answers_each_request_and_waits_for_more() {
    let mut store = KvStore::open(Vec::new()).unwrap();
    let mut input = encode_request(&request_with_id(1, Command::Put { key: s("a"), value: s("1") }));
    input.extend_from_slice(&encode_request(&request_with_id(2, Command::Get { key: s("a") })));
    let whole = input.len();
    input.extend_from_slice(b"{\"id\":3,\"comm");
    let mut pos = 0;
    let mut output = Vec::new();
    loop {
        match serve_next(&mut store, &input, pos) {
            Step::Reply { bytes, next } => {
                output.extend_from_slice(&bytes);
                pos = next;
            }
            Step::Wait => break,
            Step::Close => panic!("the input is well formed"),
        }
    }
    assert_eq!(pos, whole);
    assert_eq!(
        text(output),
        "{\"id\":1,\"response\":{\"Success\":null}}{\"id\":2,\"response\":{\"Success\":\"1\"}}"
    );
    assert!(matches!(serve_next(&mut store, b"   ", 0), Step::Wait));
}

#[test]
fn a_connection_closes_on_malformed_bytes() {
    let mut store = KvStore::open(Vec::new()).unwrap();
    assert!(matches!(serve_next(&mut store, b"not json", 0), Step::Close));
    assert!(matches!(serve_next(&mut store, b"{\"id\":1}", 0), Step::Close));
    let fine = encode_request(&request_with_id(1, Command::Get { key: s("a") }));
    assert!(matches!(serve_next(&mut store, &fine, 0), Step::Reply { .. }));
}

#[test]
fn the_acceptor_polls_accepts_and_stops() {
    let state = Acceptor::new();
    assert_eq!(state, Acceptor::Polling);
    let (state, action) = state.advance(Event::Signal(false));
    assert_eq!((state, action), (Acceptor::Accepting, Action::Accept));
    let (state, action) = state.advance(Event::Accepted);
    assert_eq!((state, action), (Acceptor::Polling, Action::Spawn));
    let (state, _) = state.advance(Event::Signal(false));
    let (state, action) = state.advance(Event::WouldBlock);
    assert_eq!((state, action), (Acceptor::Polling, Action::Pause));
    let (state, _) = state.advance(Event::Signal(false));
    let (state, action) = state.advance(Event::Failed);
    assert_eq!((state, action), (Acceptor::Polling, Action::Pause));
    let (state, action) = state.advance(Event::Signal(true));
    assert_eq!((state, action), (Acceptor::Stopped, Action::Stop));
    let (state, action) = state.advance(Event::Accepted);
    assert_eq!((state, action), (Acceptor::Stopped, Action::Stop));
    assert_eq!(Acceptor::Polling.advance(Event::Accepted), (Acceptor::Polling, Action::Poll));
    assert_eq!(Acceptor::Accepting.advance(Event::Signal(true)), (Acceptor::Accepting, Action::Accept));
}

#[test]
fn the_members_of_a_request_are_read_in_either_order() {
    let want = request_with_id(5, Command::Put { key: s("k"), value: s("v") });
    let texts: [&[u8]; 4] = [
        b"{\"id\":5,\"command\":{\"Set\":{\"key\":\"k\",\"value\":\"v\"}}}",
        b"{\"id\":5,\"command\":{\"Set\":{\"value\":\"v\",\"key\":\"k\"}}}",
        b"{\"command\":{\"Set\":{\"key\":\"k\",\"value\":\"v\"}},\"id\":5}",
        b"{\"command\":{\"Set\":{\"value\":\"v\",\"key\":\"k\"}},\"id\":5}",
    ];
    for text in texts {
        let (req, end) = decode_request(text, 0).unwrap();
        assert!(same_request(&req, &want));
        assert_eq!(end, text.len());
    }
    let get = b"{\"command\":{\"Get\":{\"key\":\"k\"}},\"id\":18446744073709551615}";
    let (req, end) = decode_request(get, 0).unwrap();
    assert!(same_request(&req, &request_with_id(u64::MAX, Command::Get { key: s("k") })));
    assert_eq!(end, get.len());
    let rm = b"{ \"command\" : { \"Rm\" : { \"key\" : \"k\" } } , \"id\" : 0 }";
    let (req, end) = decode_request(rm, 0).unwrap();
    assert!(same_request(&req, &request_with_id(0, Command::Rm { key: s("k") })));
    assert_eq!(end, rm.len());
    assert_eq!(
        decode_request(b"{\"command\":{\"Get\":{\"key\":\"k\"}},\"id\":7", 0).unwrap_err(),
        Fault::Incomplete
    );
    assert_eq!(
        decode_request(b"{\"command\":{\"Get\":{\"key\":\"k\"}},\"command\":1}", 0).unwrap_err(),
        Fault::Malformed
    );
}

#[test]
fn the_members_of_a_response_are_read_in_either_order() {
    let cases: [(&[u8], NetResponse); 3] = [
        (
            b"{\"response\":{\"Err\":\"no\"},\"id\":9}",
            NetResponse { id: 9, response: Response::Failure(s("no")) },
        ),
        (
            b"{\"response\":{\"Success\":null},\"id\":9}",
            NetResponse { id: 9, response: Response::Success(None) },
        ),
        (
            b"{\"response\":{\"Success\":\"v\"},\"id\":9}",
            NetResponse { id: 9, response: Response::Success(Some(s("v"))) },
        ),
    ];
    for (text, want) in cases {
        let (resp, end) = decode_response(text, 0).unwrap();
        assert!(same_response(&resp, &want));
        assert_eq!(end, text.len());
    }
}
