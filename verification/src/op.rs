//! The operation record: the one value that is ever written to the log, and
//! its bytes.

use vstd::prelude::*;
use crate::json::{holds_at, Fault, Lexeme, Token};
use crate::shape::{
    all_read_back, choice, disjoint, exclusive, first_shape_at, fits, lemma_first_from_found,
    lemma_first_shape_local, lemma_first_shape_written, lemma_shape_from_fits, lexemes_text,
    mark_slot, name_slot, name_token, read_first, shape_views, slot_views, text_of, token_views, writable,
    write_tokens, Slot, SlotModel,
};
use crate::json::same_bytes;

verus! {

/// A write operation on the store.
#[derive(Clone, Debug, PartialEq, Eq, Hash)]
pub enum Op {
    /// Bind `key` to `value`.
    Put { key: String, value: String },
    /// Remove the binding of `key`.
    Rm { key: String },
}

/// An operation as the contracts see it.
pub ghost enum OpModel {
    Put { key: Seq<char>, value: Seq<char> },
    Rm { key: Seq<char> },
}

impl View for Op {
    type V = OpModel;

    open spec fn view(&self) -> OpModel {
        match self {
            Op::Put { key, value } => OpModel::Put { key: key@, value: value@ },
            Op::Rm { key } => OpModel::Rm { key: key@ },
        }
    }
}

impl Op {
    /// The operation that binds `key` to `value`.
    pub fn set(key: String, value: String) -> (op: Op)
        ensures
            op@ == (OpModel::Put { key: key@, value: value@ }),
    {
        Op::Put { key, value }
    }

    /// The operation that removes the binding of `key`.
    pub fn rm(key: String) -> (op: Op)
        ensures
            op@ == (OpModel::Rm { key: key@ }),
    {
        Op::Rm { key }
    }
}

impl OpModel {
    /// The key that the operation is about.
    pub open spec fn key(self) -> Seq<char> {
        match self {
            OpModel::Put { key, .. } => key,
            OpModel::Rm { key } => key,
        }
    }
}

/// The shape of the record of a `Put`: `{"Set":{"key":..,"value":..}}`.
pub open spec fn set_shape() -> Seq<SlotModel> {
    seq![
        SlotModel::Exact(Lexeme::Open),
        SlotModel::Exact(Lexeme::Text("Set"@)),
        SlotModel::Exact(Lexeme::Colon),
        SlotModel::Exact(Lexeme::Open),
        SlotModel::Exact(Lexeme::Text("key"@)),
        SlotModel::Exact(Lexeme::Colon),
        SlotModel::AnyText,
        SlotModel::Exact(Lexeme::Comma),
        SlotModel::Exact(Lexeme::Text("value"@)),
        SlotModel::Exact(Lexeme::Colon),
        SlotModel::AnyText,
        SlotModel::Exact(Lexeme::Close),
        SlotModel::Exact(Lexeme::Close),
    ]
}

/// The shape of the record of a `Rm`: `{"Rm":{"key":..}}`.
pub open spec fn rm_shape() -> Seq<SlotModel> {
    seq![
        SlotModel::Exact(Lexeme::Open),
        SlotModel::Exact(Lexeme::Text("Rm"@)),
        SlotModel::Exact(Lexeme::Colon),
        SlotModel::Exact(Lexeme::Open),
        SlotModel::Exact(Lexeme::Text("key"@)),
        SlotModel::Exact(Lexeme::Colon),
        SlotModel::AnyText,
        SlotModel::Exact(Lexeme::Close),
        SlotModel::Exact(Lexeme::Close),
    ]
}

/// The shape of the record of a `Put` whose value stands before its key:
/// `{"Set":{"value":..,"key":..}}`.
pub open spec fn set_shape_turned() -> Seq<SlotModel> {
    seq![
        SlotModel::Exact(Lexeme::Open),
        SlotModel::Exact(Lexeme::Text("Set"@)),
        SlotModel::Exact(Lexeme::Colon),
        SlotModel::Exact(Lexeme::Open),
        SlotModel::Exact(Lexeme::Text("value"@)),
        SlotModel::Exact(Lexeme::Colon),
        SlotModel::AnyText,
        SlotModel::Exact(Lexeme::Comma),
        SlotModel::Exact(Lexeme::Text("key"@)),
        SlotModel::Exact(Lexeme::Colon),
        SlotModel::AnyText,
        SlotModel::Exact(Lexeme::Close),
        SlotModel::Exact(Lexeme::Close),
    ]
}

/// The shapes of a record: the two that are written, and the `Put` with its
/// members the other way round.
pub open spec fn op_shapes() -> Seq<Seq<SlotModel>> {
    seq![set_shape(), rm_shape(), set_shape_turned()]
}

/// The tokens of a record.
pub open spec fn op_lexemes(op: OpModel) -> Seq<Lexeme> {
    match op {
        OpModel::Put { key, value } => seq![
            Lexeme::Open,
            Lexeme::Text("Set"@),
            Lexeme::Colon,
            Lexeme::Open,
            Lexeme::Text("key"@),
            Lexeme::Colon,
            Lexeme::Text(key),
            Lexeme::Comma,
            Lexeme::Text("value"@),
            Lexeme::Colon,
            Lexeme::Text(value),
            Lexeme::Close,
            Lexeme::Close,
        ],
        OpModel::Rm { key } => seq![
            Lexeme::Open,
            Lexeme::Text("Rm"@),
            Lexeme::Colon,
            Lexeme::Open,
            Lexeme::Text("key"@),
            Lexeme::Colon,
            Lexeme::Text(key),
            Lexeme::Close,
            Lexeme::Close,
        ],
    }
}

/// The bytes of a record as this crate writes it: its tokens with nothing
/// between them.
pub open spec fn op_text(op: OpModel) -> Seq<u8> {
    lexemes_text(op_lexemes(op))
}

/// The operation that the tokens of shape number `which` denote.
pub open spec fn op_of(which: int, ts: Seq<Lexeme>) -> OpModel {
    if which == 0 {
        OpModel::Put { key: ts[6]->Text_0, value: ts[10]->Text_0 }
    } else if which == 1 {
        OpModel::Rm { key: ts[6]->Text_0 }
    } else {
        OpModel::Put { key: ts[10]->Text_0, value: ts[6]->Text_0 }
    }
}

/// The record that starts at or after `i`, white space skipped, and where
/// it ends. White space may stand between its tokens, and its members in
/// either order.
pub open spec fn op_at(s: Seq<u8>, i: int) -> Result<(OpModel, int), Fault> {
    match first_shape_at(s, i, op_shapes()) {
        Ok((which, ts, e)) => Ok((op_of(which, ts), e)),
        Err(f) => Err(f),
    }
}

/// Every string of the record is read back from its literal.
pub open spec fn op_reads_back(op: OpModel) -> bool {
    all_read_back(op_lexemes(op))
}

/// `r` is what the contracts say of reading a record.
pub open spec fn op_read(r: Result<(Op, usize), Fault>, m: Result<(OpModel, int), Fault>) -> bool {
    match r {
        Ok((op, e)) => m == Ok::<(OpModel, int), Fault>((op@, e as int)),
        Err(f) => m == Err::<(OpModel, int), Fault>(f),
    }
}

/// The shapes of a record are a choice: no bytes fit two of them.
pub proof fn lemma_op_shapes()
    ensures
        choice(op_shapes()),
{
    reveal_strlit("Set");
    reveal_strlit("Rm");
    reveal_strlit("key");
    reveal_strlit("value");
    let a = set_shape();
    let b = rm_shape();
    let c = set_shape_turned();
    assert("Set"@.len() != "Rm"@.len());
    assert("key"@.len() != "value"@.len());
    assert(disjoint(a[1], b[1]));
    assert(disjoint(a[4], c[4]));
    assert(disjoint(b[1], c[1]));
    assert(exclusive(a, b));
    assert(exclusive(a, c));
    assert(exclusive(b, c));
    let shapes = op_shapes();
    assert forall|m: int, n: int| 0 <= m < n < shapes.len() implies exclusive(
        #[trigger] shapes[m],
        #[trigger] shapes[n],
    ) by {
        assert(m == 0 || m == 1);
    }
}

/// A record that was read has ended after it began, within the bytes.
pub proof fn lemma_op_at_bounds(s: Seq<u8>, i: int)
    requires
        0 <= i <= s.len(),
        op_at(s, i) is Ok,
    ensures
        i < op_at(s, i)->Ok_0.1 <= s.len(),
{
    lemma_first_from_found(s, i, op_shapes(), 0);
    let (w, ts, e) = first_shape_at(s, i, op_shapes())->Ok_0;
    lemma_shape_from_fits(s, i, op_shapes()[w], 0);
}

/// A record that was read once is read alike wherever the same bytes stand.
pub proof fn lemma_op_at_local(s1: Seq<u8>, s2: Seq<u8>, i: int, d: int)
    requires
        0 <= i <= s1.len(),
        op_at(s1, i) is Ok,
        same_bytes(s1, s2, i, op_at(s1, i)->Ok_0.1, d),
    ensures
        op_at(s2, i + d) == Ok::<(OpModel, int), Fault>(
            (op_at(s1, i)->Ok_0.0, op_at(s1, i)->Ok_0.1 + d),
        ),
{
    lemma_op_shapes();
    lemma_first_shape_local(s1, s2, i, d, op_shapes());
}

/// The bytes written for a record are read back as that record, wherever
/// they stand and whatever follows them.
pub proof fn lemma_op_text_read(s: Seq<u8>, i: int, op: OpModel)
    requires
        op_reads_back(op),
        holds_at(s, i, op_text(op)),
    ensures
        op_at(s, i) == Ok::<(OpModel, int), Fault>((op, i + op_text(op).len())),
{
    lemma_op_shapes();
    let ts = op_lexemes(op);
    match op {
        OpModel::Put { key, value } => {
            assert(writable(ts, op_shapes()[0]));
            lemma_first_shape_written(s, i, ts, op_shapes(), 0);
        },
        OpModel::Rm { key } => {
            assert(writable(ts, op_shapes()[1]));
            lemma_first_shape_written(s, i, ts, op_shapes(), 1);
        },
    }
}

/// The shapes of a record.
fn op_slots() -> (shapes: Vec<Vec<Slot>>)
    ensures
        shape_views(shapes@) == op_shapes(),
{
    let set: Vec<Slot> = vec![
        mark_slot(Token::Open),
        name_slot("Set"),
        mark_slot(Token::Colon),
        mark_slot(Token::Open),
        name_slot("key"),
        mark_slot(Token::Colon),
        Slot::AnyText,
        mark_slot(Token::Comma),
        name_slot("value"),
        mark_slot(Token::Colon),
        Slot::AnyText,
        mark_slot(Token::Close),
        mark_slot(Token::Close),
    ];
    let rm: Vec<Slot> = vec![
        mark_slot(Token::Open),
        name_slot("Rm"),
        mark_slot(Token::Colon),
        mark_slot(Token::Open),
        name_slot("key"),
        mark_slot(Token::Colon),
        Slot::AnyText,
        mark_slot(Token::Close),
        mark_slot(Token::Close),
    ];
    let turned: Vec<Slot> = vec![
        mark_slot(Token::Open),
        name_slot("Set"),
        mark_slot(Token::Colon),
        mark_slot(Token::Open),
        name_slot("value"),
        mark_slot(Token::Colon),
        Slot::AnyText,
        mark_slot(Token::Comma),
        name_slot("key"),
        mark_slot(Token::Colon),
        Slot::AnyText,
        mark_slot(Token::Close),
        mark_slot(Token::Close),
    ];
    proof {
        assert(slot_views(set@) =~= set_shape());
        assert(slot_views(rm@) =~= rm_shape());
        assert(slot_views(turned@) =~= set_shape_turned());
    }
    let shapes: Vec<Vec<Slot>> = vec![set, rm, turned];
    proof {
        assert(shape_views(shapes@) =~= op_shapes());
    }
    shapes
}

/// Writes a record: the bytes that the log holds for `op`.
pub fn encode_op(op: &Op) -> (out: Vec<u8>)
    ensures
        out@ == op_text(op@),
        op_reads_back(op@),
        op_at(out@, 0) == Ok::<(OpModel, int), Fault>((op@, out@.len() as int)),
        out@.len() > 0 && out@[0] == 0x7b,
{
    let tokens: Vec<Token> = match op {
        Op::Put { key, value } => vec![
            Token::Open,
            name_token("Set"),
            Token::Colon,
            Token::Open,
            name_token("key"),
            Token::Colon,
            Token::Text(key.clone()),
            Token::Comma,
            name_token("value"),
            Token::Colon,
            Token::Text(value.clone()),
            Token::Close,
            Token::Close,
        ],
        Op::Rm { key } => vec![
            Token::Open,
            name_token("Rm"),
            Token::Colon,
            Token::Open,
            name_token("key"),
            Token::Colon,
            Token::Text(key.clone()),
            Token::Close,
            Token::Close,
        ],
    };
    proof {
        assert(token_views(tokens@) =~= op_lexemes(op@));
    }
    let mut out: Vec<u8> = Vec::new();
    write_tokens(&mut out, &tokens);
    proof {
        assert(out@ =~= Seq::<u8>::empty() + op_text(op@));
        assert(out@.subrange(0, out@.len() as int) =~= out@);
        lemma_op_text_read(out@, 0, op@);
        assert(op_lexemes(op@)[0] == Lexeme::Open);
        assert(op_text(op@) == crate::json::lexeme_text(Lexeme::Open) + crate::shape::text_from(
            op_lexemes(op@),
            1,
        ));
    }
    out
}

/// A reader of records. It holds the shapes of a record, which are made
/// once for all the records that it reads.
pub struct OpReader {
    shapes: Vec<Vec<Slot>>,
}

impl OpReader {
    /// The reader holds the shapes of a record.
    pub closed spec fn ready(&self) -> bool {
        shape_views(self.shapes@) == op_shapes()
    }

    /// A reader of records.
    pub fn new() -> (reader: OpReader)
        ensures
            reader.ready(),
    {
        OpReader { shapes: op_slots() }
    }

    /// Reads the record that starts at or after `pos`.
    pub fn read(&self, bytes: &[u8], pos: usize) -> (r: Result<(Op, usize), Fault>)
        requires
            self.ready(),
            pos <= bytes@.len(),
        ensures
            op_read(r, op_at(bytes@, pos as int)),
            r matches Ok((_, e)) ==> pos < e <= bytes@.len(),
    {
        match read_first(bytes, pos, &self.shapes) {
            Ok((which, tokens, end)) => {
                proof {
                    lemma_first_from_found(bytes@, pos as int, op_shapes(), 0);
                    lemma_shape_from_fits(bytes@, pos as int, op_shapes()[which as int], 0);
                    lemma_op_at_bounds(bytes@, pos as int);
                    let ts = token_views(tokens@);
                    assert(fits(op_shapes()[which as int][6], ts[6]));
                    if which != 1 {
                        assert(fits(op_shapes()[which as int][10], ts[10]));
                    }
                }
                if which == 0 {
                    let key = text_of(&tokens, 6);
                    let value = text_of(&tokens, 10);
                    Ok((Op::Put { key, value }, end))
                } else if which == 1 {
                    let key = text_of(&tokens, 6);
                    Ok((Op::Rm { key }, end))
                } else {
                    let key = text_of(&tokens, 10);
                    let value = text_of(&tokens, 6);
                    Ok((Op::Put { key, value }, end))
                }
            },
            Err(f) => Err(f),
        }
    }
}

/// Reads the record that starts at or after `pos`.
pub fn decode_op(bytes: &[u8], pos: usize) -> (r: Result<(Op, usize), Fault>)
    requires
        pos <= bytes@.len(),
    ensures
        op_read(r, op_at(bytes@, pos as int)),
        r matches Ok((_, e)) ==> pos < e <= bytes@.len(),
{
    OpReader::new().read(bytes, pos)
}

} // verus!
