//! The bytes of requests and responses.
//!
//! A request is `{"id":N,"command":{"Get":{"key":K}}}`, with `Rm` in place
//! of `Get`, or with `Set` and a second member `"value":V`. A response is
//! `{"id":N,"response":{"Err":M}}`, or with `Success` and `null` or a
//! string. So they are written. They are read with white space between the
//! tokens, and with the two members of an object in either order.

use vstd::prelude::*;
use crate::json::{holds_at, Fault, Lexeme, Token};
use crate::network::{
    Command, CommandModel, NetRequest, NetResponse, ReplyModel, RequestModel, Response,
    ResponseModel,
};
use crate::shape::{
    all_read_back, choice, disjoint, exclusive, first_shape_at, fits, lemma_first_from_found,
    lemma_first_shape_written, lemma_shape_from_fits, lexemes_text, mark_slot, name_slot,
    name_token, number_of, read_first, shape_views, slot_views, text_of, token_views, writable,
    write_tokens, Slot, SlotModel,
};

verus! {

/// The shape of a request for a command with one member, the key, with
/// the number first: `{"id":N,"command":{NAME:{"key":K}}}`.
pub open spec fn id_first_one(name: Seq<char>) -> Seq<SlotModel> {
    seq![
        SlotModel::Exact(Lexeme::Open),
        SlotModel::Exact(Lexeme::Text("id"@)),
        SlotModel::Exact(Lexeme::Colon),
        SlotModel::AnyNumber,
        SlotModel::Exact(Lexeme::Comma),
        SlotModel::Exact(Lexeme::Text("command"@)),
        SlotModel::Exact(Lexeme::Colon),
        SlotModel::Exact(Lexeme::Open),
        SlotModel::Exact(Lexeme::Text(name)),
        SlotModel::Exact(Lexeme::Colon),
        SlotModel::Exact(Lexeme::Open),
        SlotModel::Exact(Lexeme::Text("key"@)),
        SlotModel::Exact(Lexeme::Colon),
        SlotModel::AnyText,
        SlotModel::Exact(Lexeme::Close),
        SlotModel::Exact(Lexeme::Close),
        SlotModel::Exact(Lexeme::Close),
    ]
}

/// The shape of a request for a command with two members, with the number
/// first: `{"id":N,"command":{NAME:{FIRST:A,SECOND:B}}}`.
pub open spec fn id_first_two(name: Seq<char>, first: Seq<char>, second: Seq<char>) -> Seq<SlotModel> {
    seq![
        SlotModel::Exact(Lexeme::Open),
        SlotModel::Exact(Lexeme::Text("id"@)),
        SlotModel::Exact(Lexeme::Colon),
        SlotModel::AnyNumber,
        SlotModel::Exact(Lexeme::Comma),
        SlotModel::Exact(Lexeme::Text("command"@)),
        SlotModel::Exact(Lexeme::Colon),
        SlotModel::Exact(Lexeme::Open),
        SlotModel::Exact(Lexeme::Text(name)),
        SlotModel::Exact(Lexeme::Colon),
        SlotModel::Exact(Lexeme::Open),
        SlotModel::Exact(Lexeme::Text(first)),
        SlotModel::Exact(Lexeme::Colon),
        SlotModel::AnyText,
        SlotModel::Exact(Lexeme::Comma),
        SlotModel::Exact(Lexeme::Text(second)),
        SlotModel::Exact(Lexeme::Colon),
        SlotModel::AnyText,
        SlotModel::Exact(Lexeme::Close),
        SlotModel::Exact(Lexeme::Close),
        SlotModel::Exact(Lexeme::Close),
    ]
}

/// The shape of a request for a command with one member, the key, with
/// the number last: `{"command":{NAME:{"key":K}},"id":N}`.
pub open spec fn id_last_one(name: Seq<char>) -> Seq<SlotModel> {
    seq![
        SlotModel::Exact(Lexeme::Open),
        SlotModel::Exact(Lexeme::Text("command"@)),
        SlotModel::Exact(Lexeme::Colon),
        SlotModel::Exact(Lexeme::Open),
        SlotModel::Exact(Lexeme::Text(name)),
        SlotModel::Exact(Lexeme::Colon),
        SlotModel::Exact(Lexeme::Open),
        SlotModel::Exact(Lexeme::Text("key"@)),
        SlotModel::Exact(Lexeme::Colon),
        SlotModel::AnyText,
        SlotModel::Exact(Lexeme::Close),
        SlotModel::Exact(Lexeme::Close),
        SlotModel::Exact(Lexeme::Comma),
        SlotModel::Exact(Lexeme::Text("id"@)),
        SlotModel::Exact(Lexeme::Colon),
        SlotModel::AnyNumber,
        SlotModel::Exact(Lexeme::Close),
    ]
}

/// The shape of a request for a command with two members, with the number
/// last: `{"command":{NAME:{FIRST:A,SECOND:B}},"id":N}`.
pub open spec fn id_last_two(name: Seq<char>, first: Seq<char>, second: Seq<char>) -> Seq<SlotModel> {
    seq![
        SlotModel::Exact(Lexeme::Open),
        SlotModel::Exact(Lexeme::Text("command"@)),
        SlotModel::Exact(Lexeme::Colon),
        SlotModel::Exact(Lexeme::Open),
        SlotModel::Exact(Lexeme::Text(name)),
        SlotModel::Exact(Lexeme::Colon),
        SlotModel::Exact(Lexeme::Open),
        SlotModel::Exact(Lexeme::Text(first)),
        SlotModel::Exact(Lexeme::Colon),
        SlotModel::AnyText,
        SlotModel::Exact(Lexeme::Comma),
        SlotModel::Exact(Lexeme::Text(second)),
        SlotModel::Exact(Lexeme::Colon),
        SlotModel::AnyText,
        SlotModel::Exact(Lexeme::Close),
        SlotModel::Exact(Lexeme::Close),
        SlotModel::Exact(Lexeme::Comma),
        SlotModel::Exact(Lexeme::Text("id"@)),
        SlotModel::Exact(Lexeme::Colon),
        SlotModel::AnyNumber,
        SlotModel::Exact(Lexeme::Close),
    ]
}

/// The shapes of a request. The first three are the ones that are written:
/// `Get`, `Rm` and `Set` with the key before the value, each with the number
/// first.
pub open spec fn request_shapes() -> Seq<Seq<SlotModel>> {
    seq![
        id_first_one("Get"@),
        id_first_one("Rm"@),
        id_first_two("Set"@, "key"@, "value"@),
        id_first_two("Set"@, "value"@, "key"@),
        id_last_one("Get"@),
        id_last_one("Rm"@),
        id_last_two("Set"@, "key"@, "value"@),
        id_last_two("Set"@, "value"@, "key"@),
    ]
}

/// Where the number of the request stands in shape number `which`.
pub open spec fn number_place(which: int) -> int {
    if which < 4 {
        3
    } else if which < 6 {
        15
    } else {
        19
    }
}

/// Where the first string of the command stands in shape number `which`.
pub open spec fn first_place(which: int) -> int {
    if which < 4 {
        13
    } else {
        9
    }
}

/// Where the second string of the command stands in shape number `which`,
/// if the command has two.
pub open spec fn second_place(which: int) -> int {
    if which < 4 {
        17
    } else {
        13
    }
}

/// The tokens of a request as it is written.
pub open spec fn request_lexemes(req: RequestModel) -> Seq<Lexeme> {
    match req.command {
        CommandModel::Get { key } => seq![
            Lexeme::Open,
            Lexeme::Text("id"@),
            Lexeme::Colon,
            Lexeme::Number(req.id),
            Lexeme::Comma,
            Lexeme::Text("command"@),
            Lexeme::Colon,
            Lexeme::Open,
            Lexeme::Text("Get"@),
            Lexeme::Colon,
            Lexeme::Open,
            Lexeme::Text("key"@),
            Lexeme::Colon,
            Lexeme::Text(key),
            Lexeme::Close,
            Lexeme::Close,
            Lexeme::Close,
        ],
        CommandModel::Rm { key } => seq![
            Lexeme::Open,
            Lexeme::Text("id"@),
            Lexeme::Colon,
            Lexeme::Number(req.id),
            Lexeme::Comma,
            Lexeme::Text("command"@),
            Lexeme::Colon,
            Lexeme::Open,
            Lexeme::Text("Rm"@),
            Lexeme::Colon,
            Lexeme::Open,
            Lexeme::Text("key"@),
            Lexeme::Colon,
            Lexeme::Text(key),
            Lexeme::Close,
            Lexeme::Close,
            Lexeme::Close,
        ],
        CommandModel::Put { key, value } => seq![
            Lexeme::Open,
            Lexeme::Text("id"@),
            Lexeme::Colon,
            Lexeme::Number(req.id),
            Lexeme::Comma,
            Lexeme::Text("command"@),
            Lexeme::Colon,
            Lexeme::Open,
            Lexeme::Text("Set"@),
            Lexeme::Colon,
            Lexeme::Open,
            Lexeme::Text("key"@),
            Lexeme::Colon,
            Lexeme::Text(key),
            Lexeme::Comma,
            Lexeme::Text("value"@),
            Lexeme::Colon,
            Lexeme::Text(value),
            Lexeme::Close,
            Lexeme::Close,
            Lexeme::Close,
        ],
    }
}

/// The number of the shape in which a request is written.
pub open spec fn request_shape_of(req: RequestModel) -> int {
    match req.command {
        CommandModel::Get { .. } => 0,
        CommandModel::Rm { .. } => 1,
        CommandModel::Put { .. } => 2,
    }
}

/// The bytes of a request as this crate writes it.
pub open spec fn request_text(req: RequestModel) -> Seq<u8> {
    lexemes_text(request_lexemes(req))
}

/// The request that the tokens of shape number `which` denote.
pub open spec fn request_of(which: int, ts: Seq<Lexeme>) -> RequestModel {
    let first = ts[first_place(which)]->Text_0;
    let second = ts[second_place(which)]->Text_0;
    RequestModel {
        id: ts[number_place(which)]->Number_0,
        command: if which == 0 || which == 4 {
            CommandModel::Get { key: first }
        } else if which == 1 || which == 5 {
            CommandModel::Rm { key: first }
        } else if which == 2 || which == 6 {
            CommandModel::Put { key: first, value: second }
        } else {
            CommandModel::Put { key: second, value: first }
        },
    }
}

/// The request that starts at or after `i`, white space skipped, and where
/// it ends.
pub open spec fn request_at(s: Seq<u8>, i: int) -> Result<(RequestModel, int), Fault> {
    match first_shape_at(s, i, request_shapes()) {
        Ok((which, ts, e)) => Ok((request_of(which, ts), e)),
        Err(f) => Err(f),
    }
}

/// The shape of a response with the number first:
/// `{"id":N,"response":{NAME:CARRIED}}`.
pub open spec fn answer_id_first(name: Seq<char>, carried: SlotModel) -> Seq<SlotModel> {
    seq![
        SlotModel::Exact(Lexeme::Open),
        SlotModel::Exact(Lexeme::Text("id"@)),
        SlotModel::Exact(Lexeme::Colon),
        SlotModel::AnyNumber,
        SlotModel::Exact(Lexeme::Comma),
        SlotModel::Exact(Lexeme::Text("response"@)),
        SlotModel::Exact(Lexeme::Colon),
        SlotModel::Exact(Lexeme::Open),
        SlotModel::Exact(Lexeme::Text(name)),
        SlotModel::Exact(Lexeme::Colon),
        carried,
        SlotModel::Exact(Lexeme::Close),
        SlotModel::Exact(Lexeme::Close),
    ]
}

/// The shape of a response with the number last:
/// `{"response":{NAME:CARRIED},"id":N}`.
pub open spec fn answer_id_last(name: Seq<char>, carried: SlotModel) -> Seq<SlotModel> {
    seq![
        SlotModel::Exact(Lexeme::Open),
        SlotModel::Exact(Lexeme::Text("response"@)),
        SlotModel::Exact(Lexeme::Colon),
        SlotModel::Exact(Lexeme::Open),
        SlotModel::Exact(Lexeme::Text(name)),
        SlotModel::Exact(Lexeme::Colon),
        carried,
        SlotModel::Exact(Lexeme::Close),
        SlotModel::Exact(Lexeme::Comma),
        SlotModel::Exact(Lexeme::Text("id"@)),
        SlotModel::Exact(Lexeme::Colon),
        SlotModel::AnyNumber,
        SlotModel::Exact(Lexeme::Close),
    ]
}

/// The shapes of a response. The first three are the ones that are written:
/// a failure with its message, a success with nothing, a success with a
/// value, each with the number first.
pub open spec fn response_shapes() -> Seq<Seq<SlotModel>> {
    seq![
        answer_id_first("Err"@, SlotModel::AnyText),
        answer_id_first("Success"@, SlotModel::Exact(Lexeme::Null)),
        answer_id_first("Success"@, SlotModel::AnyText),
        answer_id_last("Err"@, SlotModel::AnyText),
        answer_id_last("Success"@, SlotModel::Exact(Lexeme::Null)),
        answer_id_last("Success"@, SlotModel::AnyText),
    ]
}

/// The tokens of a response as it is written.
pub open spec fn response_lexemes(resp: ReplyModel) -> Seq<Lexeme> {
    let (name, carried) = match resp.response {
        ResponseModel::Failure(msg) => ("Err"@, Lexeme::Text(msg)),
        ResponseModel::Success(None) => ("Success"@, Lexeme::Null),
        ResponseModel::Success(Some(value)) => ("Success"@, Lexeme::Text(value)),
    };
    seq![
        Lexeme::Open,
        Lexeme::Text("id"@),
        Lexeme::Colon,
        Lexeme::Number(resp.id),
        Lexeme::Comma,
        Lexeme::Text("response"@),
        Lexeme::Colon,
        Lexeme::Open,
        Lexeme::Text(name),
        Lexeme::Colon,
        carried,
        Lexeme::Close,
        Lexeme::Close,
    ]
}

/// The number of the shape in which a response is written.
pub open spec fn response_shape_of(resp: ReplyModel) -> int {
    match resp.response {
        ResponseModel::Failure(_) => 0,
        ResponseModel::Success(None) => 1,
        ResponseModel::Success(Some(_)) => 2,
    }
}

/// The bytes of a response as this crate writes it.
pub open spec fn response_text(resp: ReplyModel) -> Seq<u8> {
    lexemes_text(response_lexemes(resp))
}

/// The response that the tokens of shape number `which` denote.
pub open spec fn response_of(which: int, ts: Seq<Lexeme>) -> ReplyModel {
    let carried = ts[if which < 3 {
        10int
    } else {
        6int
    }];
    ReplyModel {
        id: ts[if which < 3 {
            3int
        } else {
            11int
        }]->Number_0,
        response: if which == 0 || which == 3 {
            ResponseModel::Failure(carried->Text_0)
        } else if which == 1 || which == 4 {
            ResponseModel::Success(None)
        } else {
            ResponseModel::Success(Some(carried->Text_0))
        },
    }
}

/// The response that starts at or after `i`, white space skipped, and where
/// it ends.
pub open spec fn response_at(s: Seq<u8>, i: int) -> Result<(ReplyModel, int), Fault> {
    match first_shape_at(s, i, response_shapes()) {
        Ok((which, ts, e)) => Ok((response_of(which, ts), e)),
        Err(f) => Err(f),
    }
}

/// `r` is what the contracts say of reading a request.
pub open spec fn request_read(
    r: Result<(NetRequest, usize), Fault>,
    m: Result<(RequestModel, int), Fault>,
) -> bool {
    match r {
        Ok((req, e)) => m == Ok::<(RequestModel, int), Fault>((req@, e as int)),
        Err(f) => m == Err::<(RequestModel, int), Fault>(f),
    }
}

/// `r` is what the contracts say of reading a response.
pub open spec fn response_read(
    r: Result<(NetResponse, usize), Fault>,
    m: Result<(ReplyModel, int), Fault>,
) -> bool {
    match r {
        Ok((resp, e)) => m == Ok::<(ReplyModel, int), Fault>((resp@, e as int)),
        Err(f) => m == Err::<(ReplyModel, int), Fault>(f),
    }
}

// ---------------------------------------------------------------------------
// Facts
// ---------------------------------------------------------------------------

/// Places that ask for different strings have no token in common.
pub proof fn lemma_names_disjoint(x: Seq<char>, y: Seq<char>)
    requires
        x != y,
    ensures
        disjoint(SlotModel::Exact(Lexeme::Text(x)), SlotModel::Exact(Lexeme::Text(y))),
{
}

/// The names of the members and of the commands differ from each other.
pub proof fn lemma_request_names()
    ensures
        "id"@ != "command"@,
        "Get"@ != "Rm"@,
        "Get"@ != "Set"@,
        "Rm"@ != "Set"@,
        "key"@ != "value"@,
{
    reveal_strlit("id");
    reveal_strlit("command");
    reveal_strlit("Get");
    reveal_strlit("Rm");
    reveal_strlit("Set");
    reveal_strlit("key");
    reveal_strlit("value");
    assert("id"@.len() != "command"@.len());
    assert("Get"@.len() != "Rm"@.len());
    assert("Get"@[0] != "Set"@[0]);
    assert("Rm"@.len() != "Set"@.len());
    assert("key"@.len() != "value"@.len());
}

/// The shapes of a request are a choice: no bytes fit two of them.
pub proof fn lemma_request_shapes()
    ensures
        choice(request_shapes()),
{
    lemma_request_names();
    let s = request_shapes();
    lemma_names_disjoint("id"@, "command"@);
    lemma_names_disjoint("Get"@, "Rm"@);
    lemma_names_disjoint("Get"@, "Set"@);
    lemma_names_disjoint("Rm"@, "Get"@);
    lemma_names_disjoint("Rm"@, "Set"@);
    lemma_names_disjoint("key"@, "value"@);
    assert forall|m: int, n: int| 0 <= m < 4 && 4 <= n < 8 implies exclusive(
        #[trigger] s[m],
        #[trigger] s[n],
    ) by {
        assert(m == 0 || m == 1 || m == 2 || m == 3);
        assert(n == 4 || n == 5 || n == 6 || n == 7);
        assert(s[m][1] == SlotModel::Exact(Lexeme::Text("id"@)));
        assert(s[n][1] == SlotModel::Exact(Lexeme::Text("command"@)));
        assert(disjoint(s[m][1], s[n][1]));
    }
    assert(exclusive(s[0], s[1])) by {
        assert(disjoint(s[0][8], s[1][8]));
    }
    assert(exclusive(s[0], s[2])) by {
        assert(disjoint(s[0][8], s[2][8]));
    }
    assert(exclusive(s[0], s[3])) by {
        assert(disjoint(s[0][8], s[3][8]));
    }
    assert(exclusive(s[1], s[2])) by {
        assert(disjoint(s[1][8], s[2][8]));
    }
    assert(exclusive(s[1], s[3])) by {
        assert(disjoint(s[1][8], s[3][8]));
    }
    assert(exclusive(s[2], s[3])) by {
        assert(disjoint(s[2][11], s[3][11]));
    }
    assert(exclusive(s[4], s[5])) by {
        assert(disjoint(s[4][4], s[5][4]));
    }
    assert(exclusive(s[4], s[6])) by {
        assert(disjoint(s[4][4], s[6][4]));
    }
    assert(exclusive(s[4], s[7])) by {
        assert(disjoint(s[4][4], s[7][4]));
    }
    assert(exclusive(s[5], s[6])) by {
        assert(disjoint(s[5][4], s[6][4]));
    }
    assert(exclusive(s[5], s[7])) by {
        assert(disjoint(s[5][4], s[7][4]));
    }
    assert(exclusive(s[6], s[7])) by {
        assert(disjoint(s[6][7], s[7][7]));
    }
    assert forall|m: int, n: int| 0 <= m < n < s.len() implies exclusive(
        #[trigger] s[m],
        #[trigger] s[n],
    ) by {
        assert(m == 0 || m == 1 || m == 2 || m == 3 || m == 4 || m == 5 || m == 6);
        assert(n == 1 || n == 2 || n == 3 || n == 4 || n == 5 || n == 6 || n == 7);
    }
    assert forall|n: int| 0 <= n < s.len() implies (#[trigger] s[n]).len() > 0
        && crate::shape::takes_no_number(s[n].last()) by {
        assert(n == 0 || n == 1 || n == 2 || n == 3 || n == 4 || n == 5 || n == 6 || n == 7);
        assert(s[n].last() == SlotModel::Exact(Lexeme::Close));
    }
}

/// What stands at the places of a shape of a request from which the request
/// is read: a number, a string, and in a shape with two members a second
/// string.
pub proof fn lemma_request_places(which: int)
    requires
        0 <= which < 8,
    ensures
        ({
            let shape = request_shapes()[which];
            &&& number_place(which) < shape.len()
            &&& shape[number_place(which)] == SlotModel::AnyNumber
            &&& first_place(which) < shape.len()
            &&& shape[first_place(which)] == SlotModel::AnyText
            &&& !(which == 0 || which == 1 || which == 4 || which == 5) ==> second_place(which)
                < shape.len() && shape[second_place(which)] == SlotModel::AnyText
        }),
{
    assert(which == 0 || which == 1 || which == 2 || which == 3 || which == 4 || which == 5
        || which == 6 || which == 7);
}

/// The tokens of a request fit the shape in which it is written.
pub proof fn lemma_request_writable(req: RequestModel)
    requires
        all_read_back(request_lexemes(req)),
    ensures
        writable(request_lexemes(req), request_shapes()[request_shape_of(req)]),
        request_of(request_shape_of(req), request_lexemes(req)) == req,
{
    let ts = request_lexemes(req);
    let shape = request_shapes()[request_shape_of(req)];
    assert(ts[3] == Lexeme::Number(req.id));
    assert(ts[4] == Lexeme::Comma);
    assert forall|j: int| 0 <= j < ts.len() implies fits(shape[j], #[trigger] ts[j]) by {}
    assert forall|j: int| 0 <= j < ts.len() && (#[trigger] ts[j]) is Number implies j + 1
        < ts.len() && !(ts[j + 1] is Number) by {
        assert(j == 3);
    }
}

/// The bytes written for a request are read back as that request, wherever
/// they stand and whatever follows them.
pub proof fn lemma_request_text_read(s: Seq<u8>, i: int, req: RequestModel)
    requires
        all_read_back(request_lexemes(req)),
        holds_at(s, i, request_text(req)),
    ensures
        request_at(s, i) == Ok::<(RequestModel, int), Fault>((req, i + request_text(req).len())),
{
    lemma_request_shapes();
    lemma_request_writable(req);
    lemma_first_shape_written(s, i, request_lexemes(req), request_shapes(), request_shape_of(req));
}

/// The names of the members and of the answers differ from each other.
pub proof fn lemma_response_names()
    ensures
        "id"@ != "response"@,
        "Err"@ != "Success"@,
{
    reveal_strlit("id");
    reveal_strlit("response");
    reveal_strlit("Err");
    reveal_strlit("Success");
    assert("id"@.len() != "response"@.len());
    assert("Err"@.len() != "Success"@.len());
}

/// The shapes of a response are a choice: no bytes fit two of them.
pub proof fn lemma_response_shapes()
    ensures
        choice(response_shapes()),
{
    lemma_response_names();
    let s = response_shapes();
    lemma_names_disjoint("id"@, "response"@);
    lemma_names_disjoint("Err"@, "Success"@);
    assert(disjoint(SlotModel::Exact(Lexeme::Null), SlotModel::AnyText));
    assert forall|m: int, n: int| 0 <= m < 3 && 3 <= n < 6 implies exclusive(
        #[trigger] s[m],
        #[trigger] s[n],
    ) by {
        assert(m == 0 || m == 1 || m == 2);
        assert(n == 3 || n == 4 || n == 5);
        assert(s[m][1] == SlotModel::Exact(Lexeme::Text("id"@)));
        assert(s[n][1] == SlotModel::Exact(Lexeme::Text("response"@)));
        assert(disjoint(s[m][1], s[n][1]));
    }
    assert(exclusive(s[0], s[1])) by {
        assert(disjoint(s[0][8], s[1][8]));
    }
    assert(exclusive(s[0], s[2])) by {
        assert(disjoint(s[0][8], s[2][8]));
    }
    assert(exclusive(s[1], s[2])) by {
        assert(disjoint(s[1][10], s[2][10]));
    }
    assert(exclusive(s[3], s[4])) by {
        assert(disjoint(s[3][4], s[4][4]));
    }
    assert(exclusive(s[3], s[5])) by {
        assert(disjoint(s[3][4], s[5][4]));
    }
    assert(exclusive(s[4], s[5])) by {
        assert(disjoint(s[4][6], s[5][6]));
    }
    assert forall|m: int, n: int| 0 <= m < n < s.len() implies exclusive(
        #[trigger] s[m],
        #[trigger] s[n],
    ) by {
        assert(m == 0 || m == 1 || m == 2 || m == 3 || m == 4);
        assert(n == 1 || n == 2 || n == 3 || n == 4 || n == 5);
    }
    assert forall|n: int| 0 <= n < s.len() implies (#[trigger] s[n]).len() > 0
        && crate::shape::takes_no_number(s[n].last()) by {
        assert(n == 0 || n == 1 || n == 2 || n == 3 || n == 4 || n == 5);
        assert(s[n].last() == SlotModel::Exact(Lexeme::Close));
    }
}

/// The tokens of a response fit the shape in which it is written.
pub proof fn lemma_response_writable(resp: ReplyModel)
    requires
        all_read_back(response_lexemes(resp)),
    ensures
        writable(response_lexemes(resp), response_shapes()[response_shape_of(resp)]),
        response_of(response_shape_of(resp), response_lexemes(resp)) == resp,
{
    let ts = response_lexemes(resp);
    let shape = response_shapes()[response_shape_of(resp)];
    assert(ts[3] == Lexeme::Number(resp.id));
    assert(ts[4] == Lexeme::Comma);
    assert forall|j: int| 0 <= j < ts.len() implies fits(shape[j], #[trigger] ts[j]) by {}
    assert forall|j: int| 0 <= j < ts.len() && (#[trigger] ts[j]) is Number implies j + 1
        < ts.len() && !(ts[j + 1] is Number) by {
        assert(j == 3);
    }
}

/// The bytes written for a response are read back as that response,
/// wherever they stand and whatever follows them.
pub proof fn lemma_response_text_read(s: Seq<u8>, i: int, resp: ReplyModel)
    requires
        all_read_back(response_lexemes(resp)),
        holds_at(s, i, response_text(resp)),
    ensures
        response_at(s, i) == Ok::<(ReplyModel, int), Fault>(
            (resp, i + response_text(resp).len()),
        ),
{
    lemma_response_shapes();
    lemma_response_writable(resp);
    lemma_first_shape_written(
        s,
        i,
        response_lexemes(resp),
        response_shapes(),
        response_shape_of(resp),
    );
}

// ---------------------------------------------------------------------------
// Reading and writing
// ---------------------------------------------------------------------------

/// The shape of a request with one member and the number first.
fn id_first_one_slots(name: &str) -> (shape: Vec<Slot>)
    ensures
        slot_views(shape@) == id_first_one(name@),
{
    let shape: Vec<Slot> = vec![
        mark_slot(Token::Open),
        name_slot("id"),
        mark_slot(Token::Colon),
        Slot::AnyNumber,
        mark_slot(Token::Comma),
        name_slot("command"),
        mark_slot(Token::Colon),
        mark_slot(Token::Open),
        name_slot(name),
        mark_slot(Token::Colon),
        mark_slot(Token::Open),
        name_slot("key"),
        mark_slot(Token::Colon),
        Slot::AnyText,
        mark_slot(Token::Close),
        mark_slot(Token::Close),
        mark_slot(Token::Close),
    ];
    proof {
        assert(slot_views(shape@) =~= id_first_one(name@));
    }
    shape
}

/// The shape of a request with two members and the number first.
fn id_first_two_slots(name: &str, first: &str, second: &str) -> (shape: Vec<Slot>)
    ensures
        slot_views(shape@) == id_first_two(name@, first@, second@),
{
    let shape: Vec<Slot> = vec![
        mark_slot(Token::Open),
        name_slot("id"),
        mark_slot(Token::Colon),
        Slot::AnyNumber,
        mark_slot(Token::Comma),
        name_slot("command"),
        mark_slot(Token::Colon),
        mark_slot(Token::Open),
        name_slot(name),
        mark_slot(Token::Colon),
        mark_slot(Token::Open),
        name_slot(first),
        mark_slot(Token::Colon),
        Slot::AnyText,
        mark_slot(Token::Comma),
        name_slot(second),
        mark_slot(Token::Colon),
        Slot::AnyText,
        mark_slot(Token::Close),
        mark_slot(Token::Close),
        mark_slot(Token::Close),
    ];
    proof {
        assert(slot_views(shape@) =~= id_first_two(name@, first@, second@));
    }
    shape
}

/// The shape of a request with one member and the number last.
fn id_last_one_slots(name: &str) -> (shape: Vec<Slot>)
    ensures
        slot_views(shape@) == id_last_one(name@),
{
    let shape: Vec<Slot> = vec![
        mark_slot(Token::Open),
        name_slot("command"),
        mark_slot(Token::Colon),
        mark_slot(Token::Open),
        name_slot(name),
        mark_slot(Token::Colon),
        mark_slot(Token::Open),
        name_slot("key"),
        mark_slot(Token::Colon),
        Slot::AnyText,
        mark_slot(Token::Close),
        mark_slot(Token::Close),
        mark_slot(Token::Comma),
        name_slot("id"),
        mark_slot(Token::Colon),
        Slot::AnyNumber,
        mark_slot(Token::Close),
    ];
    proof {
        assert(slot_views(shape@) =~= id_last_one(name@));
    }
    shape
}

/// The shape of a request with two members and the number last.
fn id_last_two_slots(name: &str, first: &str, second: &str) -> (shape: Vec<Slot>)
    ensures
        slot_views(shape@) == id_last_two(name@, first@, second@),
{
    let shape: Vec<Slot> = vec![
        mark_slot(Token::Open),
        name_slot("command"),
        mark_slot(Token::Colon),
        mark_slot(Token::Open),
        name_slot(name),
        mark_slot(Token::Colon),
        mark_slot(Token::Open),
        name_slot(first),
        mark_slot(Token::Colon),
        Slot::AnyText,
        mark_slot(Token::Comma),
        name_slot(second),
        mark_slot(Token::Colon),
        Slot::AnyText,
        mark_slot(Token::Close),
        mark_slot(Token::Close),
        mark_slot(Token::Comma),
        name_slot("id"),
        mark_slot(Token::Colon),
        Slot::AnyNumber,
        mark_slot(Token::Close),
    ];
    proof {
        assert(slot_views(shape@) =~= id_last_two(name@, first@, second@));
    }
    shape
}

/// The shape of a response with the number first.
fn answer_id_first_slots(name: &str, carried: Slot) -> (shape: Vec<Slot>)
    ensures
        slot_views(shape@) == answer_id_first(name@, carried@),
{
    let shape: Vec<Slot> = vec![
        mark_slot(Token::Open),
        name_slot("id"),
        mark_slot(Token::Colon),
        Slot::AnyNumber,
        mark_slot(Token::Comma),
        name_slot("response"),
        mark_slot(Token::Colon),
        mark_slot(Token::Open),
        name_slot(name),
        mark_slot(Token::Colon),
        carried,
        mark_slot(Token::Close),
        mark_slot(Token::Close),
    ];
    proof {
        assert(slot_views(shape@) =~= answer_id_first(name@, carried@));
    }
    shape
}

/// The shape of a response with the number last.
fn answer_id_last_slots(name: &str, carried: Slot) -> (shape: Vec<Slot>)
    ensures
        slot_views(shape@) == answer_id_last(name@, carried@),
{
    let shape: Vec<Slot> = vec![
        mark_slot(Token::Open),
        name_slot("response"),
        mark_slot(Token::Colon),
        mark_slot(Token::Open),
        name_slot(name),
        mark_slot(Token::Colon),
        carried,
        mark_slot(Token::Close),
        mark_slot(Token::Comma),
        name_slot("id"),
        mark_slot(Token::Colon),
        Slot::AnyNumber,
        mark_slot(Token::Close),
    ];
    proof {
        assert(slot_views(shape@) =~= answer_id_last(name@, carried@));
    }
    shape
}

/// The shapes of a request.
fn request_slots() -> (shapes: Vec<Vec<Slot>>)
    ensures
        shape_views(shapes@) == request_shapes(),
{
    let shapes: Vec<Vec<Slot>> = vec![
        id_first_one_slots("Get"),
        id_first_one_slots("Rm"),
        id_first_two_slots("Set", "key", "value"),
        id_first_two_slots("Set", "value", "key"),
        id_last_one_slots("Get"),
        id_last_one_slots("Rm"),
        id_last_two_slots("Set", "key", "value"),
        id_last_two_slots("Set", "value", "key"),
    ];
    proof {
        assert(shape_views(shapes@) =~= request_shapes());
    }
    shapes
}

/// The shapes of a response.
fn response_slots() -> (shapes: Vec<Vec<Slot>>)
    ensures
        shape_views(shapes@) == response_shapes(),
{
    let shapes: Vec<Vec<Slot>> = vec![
        answer_id_first_slots("Err", Slot::AnyText),
        answer_id_first_slots("Success", mark_slot(Token::Null)),
        answer_id_first_slots("Success", Slot::AnyText),
        answer_id_last_slots("Err", Slot::AnyText),
        answer_id_last_slots("Success", mark_slot(Token::Null)),
        answer_id_last_slots("Success", Slot::AnyText),
    ];
    proof {
        assert(shape_views(shapes@) =~= response_shapes());
    }
    shapes
}

/// The tokens of a request.
fn request_tokens(req: &NetRequest) -> (tokens: Vec<Token>)
    ensures
        token_views(tokens@) == request_lexemes(req@),
{
    let tokens: Vec<Token> = match &req.command {
        Command::Get { key } => vec![
            Token::Open,
            name_token("id"),
            Token::Colon,
            Token::Number(req.id),
            Token::Comma,
            name_token("command"),
            Token::Colon,
            Token::Open,
            name_token("Get"),
            Token::Colon,
            Token::Open,
            name_token("key"),
            Token::Colon,
            Token::Text(key.clone()),
            Token::Close,
            Token::Close,
            Token::Close,
        ],
        Command::Rm { key } => vec![
            Token::Open,
            name_token("id"),
            Token::Colon,
            Token::Number(req.id),
            Token::Comma,
            name_token("command"),
            Token::Colon,
            Token::Open,
            name_token("Rm"),
            Token::Colon,
            Token::Open,
            name_token("key"),
            Token::Colon,
            Token::Text(key.clone()),
            Token::Close,
            Token::Close,
            Token::Close,
        ],
        Command::Put { key, value } => vec![
            Token::Open,
            name_token("id"),
            Token::Colon,
            Token::Number(req.id),
            Token::Comma,
            name_token("command"),
            Token::Colon,
            Token::Open,
            name_token("Set"),
            Token::Colon,
            Token::Open,
            name_token("key"),
            Token::Colon,
            Token::Text(key.clone()),
            Token::Comma,
            name_token("value"),
            Token::Colon,
            Token::Text(value.clone()),
            Token::Close,
            Token::Close,
            Token::Close,
        ],
    };
    proof {
        assert(token_views(tokens@) =~= request_lexemes(req@));
    }
    tokens
}

/// Writes a request: the bytes that go over the wire for `req`. What is
/// written is read back as `req`.
pub fn encode_request(req: &NetRequest) -> (out: Vec<u8>)
    ensures
        out@ == request_text(req@),
        all_read_back(request_lexemes(req@)),
        request_at(out@, 0) == Ok::<(RequestModel, int), Fault>((req@, out@.len() as int)),
{
    let tokens = request_tokens(req);
    let mut out: Vec<u8> = Vec::new();
    write_tokens(&mut out, &tokens);
    proof {
        assert(out@ =~= request_text(req@));
        assert(out@.subrange(0, out@.len() as int) =~= out@);
        lemma_request_text_read(out@, 0, req@);
    }
    out
}

/// Reads the request that starts at or after `pos`.
pub fn decode_request(bytes: &[u8], pos: usize) -> (r: Result<(NetRequest, usize), Fault>)
    requires
        pos <= bytes@.len(),
    ensures
        request_read(r, request_at(bytes@, pos as int)),
        r matches Ok((_, e)) ==> pos < e <= bytes@.len(),
{
    let shapes = request_slots();
    match read_first(bytes, pos, &shapes) {
        Ok((which, tokens, end)) => {
            let number_at: usize = if which < 4 {
                3
            } else if which < 6 {
                15
            } else {
                19
            };
            let first_at: usize = if which < 4 {
                13
            } else {
                9
            };
            let second_at: usize = if which < 4 {
                17
            } else {
                13
            };
            proof {
                lemma_first_from_found(bytes@, pos as int, request_shapes(), 0);
                let shape = request_shapes()[which as int];
                lemma_shape_from_fits(bytes@, pos as int, shape, 0);
                lemma_request_places(which as int);
                let ts = token_views(tokens@);
                assert(fits(shape[number_at as int], ts[number_at as int]));
                assert(fits(shape[first_at as int], ts[first_at as int]));
                if !(which == 0 || which == 1 || which == 4 || which == 5) {
                    assert(fits(shape[second_at as int], ts[second_at as int]));
                }
            }
            let id: u64 = number_of(&tokens, number_at);
            let first = text_of(&tokens, first_at);
            let command = if which == 0 || which == 4 {
                Command::Get { key: first }
            } else if which == 1 || which == 5 {
                Command::Rm { key: first }
            } else if which == 2 || which == 6 {
                Command::Put { key: first, value: text_of(&tokens, second_at) }
            } else {
                Command::Put { key: text_of(&tokens, second_at), value: first }
            };
            Ok((NetRequest { id, command }, end))
        },
        Err(f) => Err(f),
    }
}

/// The tokens of a response.
fn response_tokens(resp: &NetResponse) -> (tokens: Vec<Token>)
    ensures
        token_views(tokens@) == response_lexemes(resp@),
{
    let (name, carried) = match &resp.response {
        Response::Failure(msg) => (name_token("Err"), Token::Text(msg.clone())),
        Response::Success(None) => (name_token("Success"), Token::Null),
        Response::Success(Some(value)) => (name_token("Success"), Token::Text(value.clone())),
    };
    let tokens: Vec<Token> = vec![
        Token::Open,
        name_token("id"),
        Token::Colon,
        Token::Number(resp.id),
        Token::Comma,
        name_token("response"),
        Token::Colon,
        Token::Open,
        name,
        Token::Colon,
        carried,
        Token::Close,
        Token::Close,
    ];
    proof {
        assert(token_views(tokens@) =~= response_lexemes(resp@));
    }
    tokens
}

/// Writes a response: the bytes that go over the wire for `resp`. What is
/// written is read back as `resp`.
pub fn encode_response(resp: &NetResponse) -> (out: Vec<u8>)
    ensures
        out@ == response_text(resp@),
        all_read_back(response_lexemes(resp@)),
        response_at(out@, 0) == Ok::<(ReplyModel, int), Fault>((resp@, out@.len() as int)),
{
    let tokens = response_tokens(resp);
    let mut out: Vec<u8> = Vec::new();
    write_tokens(&mut out, &tokens);
    proof {
        assert(out@ =~= response_text(resp@));
        assert(out@.subrange(0, out@.len() as int) =~= out@);
        lemma_response_text_read(out@, 0, resp@);
    }
    out
}

/// Reads the response that starts at or after `pos`.
pub fn decode_response(bytes: &[u8], pos: usize) -> (r: Result<(NetResponse, usize), Fault>)
    requires
        pos <= bytes@.len(),
    ensures
        response_read(r, response_at(bytes@, pos as int)),
        r matches Ok((_, e)) ==> pos < e <= bytes@.len(),
{
    let shapes = response_slots();
    match read_first(bytes, pos, &shapes) {
        Ok((which, tokens, end)) => {
            let number_at: usize = if which < 3 {
                3
            } else {
                11
            };
            let carried_at: usize = if which < 3 {
                10
            } else {
                6
            };
            proof {
                lemma_first_from_found(bytes@, pos as int, response_shapes(), 0);
                let shape = response_shapes()[which as int];
                lemma_shape_from_fits(bytes@, pos as int, shape, 0);
                assert(which == 0 || which == 1 || which == 2 || which == 3 || which == 4 || which
                    == 5);
                let ts = token_views(tokens@);
                assert(fits(shape[number_at as int], ts[number_at as int]));
                assert(fits(shape[carried_at as int], ts[carried_at as int]));
            }
            let id: u64 = number_of(&tokens, number_at);
            let response = if which == 0 || which == 3 {
                Response::Failure(text_of(&tokens, carried_at))
            } else if which == 1 || which == 4 {
                Response::Success(None)
            } else {
                Response::Success(Some(text_of(&tokens, carried_at)))
            };
            Ok((NetResponse { id, response }, end))
        },
        Err(f) => Err(f),
    }
}

} // verus!
