//! Documents as runs of tokens.
//!
//! Every document of this crate (a log record, a request, a response) is one
//! of a few shapes: a fixed run of tokens in which some places take any
//! string or any number. This module reads a run of bytes against such
//! shapes, writes a run of tokens, and proves that what was written is read
//! back, and that what was read once is read alike wherever the same bytes
//! stand.

use vstd::prelude::*;
use vstd::string::StringExecFns;
use crate::json::{
    holds_at, is_digit, lemma_digits_end_bounds, lemma_lexeme_text_head, lemma_next_token_bounds,
    lemma_next_token_local, lemma_skip_spaces_bounds, lemma_token_text_read, lexeme_text,
    next_token, read_token, reads_back, same_bytes, skip_spaces, write_number, write_text, Fault,
    Lexeme, Token,
};

verus! {

/// What one place of a shape asks of its token, as the contracts see it.
pub ghost enum SlotModel {
    Exact(Lexeme),
    AnyText,
    AnyNumber,
}

/// What one place of a shape asks of its token.
#[derive(Debug)]
pub enum Slot {
    /// This very token.
    Exact(Token),
    /// Any string literal.
    AnyText,
    /// Any number.
    AnyNumber,
}

impl View for Slot {
    type V = SlotModel;

    open spec fn view(&self) -> SlotModel {
        match self {
            Slot::Exact(t) => SlotModel::Exact(t@),
            Slot::AnyText => SlotModel::AnyText,
            Slot::AnyNumber => SlotModel::AnyNumber,
        }
    }
}

/// The token is one that the place asks for.
pub open spec fn fits(slot: SlotModel, t: Lexeme) -> bool {
    match slot {
        SlotModel::Exact(want) => t == want,
        SlotModel::AnyText => t is Text,
        SlotModel::AnyNumber => t is Number,
    }
}

/// A place that no number fits.
pub open spec fn takes_no_number(slot: SlotModel) -> bool {
    match slot {
        SlotModel::Exact(want) => !(want is Number),
        SlotModel::AnyText => true,
        SlotModel::AnyNumber => false,
    }
}

/// No token fits both places.
pub open spec fn disjoint(x: SlotModel, y: SlotModel) -> bool {
    forall|t: Lexeme| !(#[trigger] fits(x, t) && fits(y, t))
}

/// Two shapes that no run of tokens fits both: at some place they ask for
/// different things.
pub open spec fn exclusive(a: Seq<SlotModel>, b: Seq<SlotModel>) -> bool {
    exists|j: int| 0 <= j < a.len() && j < b.len() && #[trigger] disjoint(a[j], b[j])
}

/// A list of shapes among which reading can choose: each ends in a place
/// that takes no number, and no two of them fit the same tokens.
pub open spec fn choice(shapes: Seq<Seq<SlotModel>>) -> bool {
    &&& forall|n: int|
        0 <= n < shapes.len() ==> (#[trigger] shapes[n]).len() > 0 && takes_no_number(
            shapes[n].last(),
        )
    &&& forall|m: int, n: int|
        0 <= m < n < shapes.len() ==> exclusive(#[trigger] shapes[m], #[trigger] shapes[n])
}

/// A shape as the contracts see it.
pub open spec fn slot_views(shape: Seq<Slot>) -> Seq<SlotModel> {
    Seq::new(shape.len(), |j: int| shape[j]@)
}

/// A list of shapes as the contracts see it.
pub open spec fn shape_views(shapes: Seq<Vec<Slot>>) -> Seq<Seq<SlotModel>> {
    Seq::new(shapes.len(), |n: int| slot_views(shapes[n]@))
}

/// A run of tokens as the contracts see it.
pub open spec fn token_views(tokens: Seq<Token>) -> Seq<Lexeme> {
    Seq::new(tokens.len(), |j: int| tokens[j]@)
}

/// The tokens from place `k` of `shape` on, read from `i`, and where the last
/// of them ends. Reading fails at the first token that cannot be read or
/// does not fit its place.
pub open spec fn shape_from(s: Seq<u8>, i: int, shape: Seq<SlotModel>, k: int) -> Result<
    (Seq<Lexeme>, int),
    Fault,
>
    decreases shape.len() - k,
{
    if k < 0 || k >= shape.len() {
        Ok((Seq::empty(), i))
    } else {
        match next_token(s, i) {
            Ok((t, e)) => if fits(shape[k], t) {
                match shape_from(s, e, shape, k + 1) {
                    Ok((ts, end)) => Ok((seq![t] + ts, end)),
                    Err(f) => Err(f),
                }
            } else {
                Err(Fault::Malformed)
            },
            Err(f) => Err(f),
        }
    }
}

/// The tokens of `shape`, read from `i`.
pub open spec fn shape_at(s: Seq<u8>, i: int, shape: Seq<SlotModel>) -> Result<
    (Seq<Lexeme>, int),
    Fault,
> {
    shape_from(s, i, shape, 0)
}

/// The first of the shapes from number `n` on that the bytes at `i` fit, with
/// its tokens and their end. Where none fits, the bytes are incomplete if
/// they are for any of the shapes, malformed else.
pub open spec fn first_from(s: Seq<u8>, i: int, shapes: Seq<Seq<SlotModel>>, n: int) -> Result<
    (int, Seq<Lexeme>, int),
    Fault,
>
    decreases shapes.len() - n,
{
    if n < 0 || n >= shapes.len() {
        Err(Fault::Malformed)
    } else {
        match shape_at(s, i, shapes[n]) {
            Ok((ts, e)) => Ok((n, ts, e)),
            Err(f) => match first_from(s, i, shapes, n + 1) {
                Ok(found) => Ok(found),
                Err(g) => Err(
                    if f == Fault::Incomplete {
                        Fault::Incomplete
                    } else {
                        g
                    },
                ),
            },
        }
    }
}

/// The first of `shapes` that the bytes at `i` fit.
pub open spec fn first_shape_at(s: Seq<u8>, i: int, shapes: Seq<Seq<SlotModel>>) -> Result<
    (int, Seq<Lexeme>, int),
    Fault,
> {
    first_from(s, i, shapes, 0)
}

/// The canonical bytes of the tokens from number `k` on, with nothing
/// between them.
pub open spec fn text_from(ts: Seq<Lexeme>, k: int) -> Seq<u8>
    decreases ts.len() - k,
{
    if k < 0 || k >= ts.len() {
        Seq::empty()
    } else {
        lexeme_text(ts[k]) + text_from(ts, k + 1)
    }
}

/// The canonical bytes of a run of tokens.
pub open spec fn lexemes_text(ts: Seq<Lexeme>) -> Seq<u8> {
    text_from(ts, 0)
}

/// Every string among the tokens is read back from its literal.
pub open spec fn all_read_back(ts: Seq<Lexeme>) -> bool {
    forall|j: int|
        0 <= j < ts.len() ==> ((#[trigger] ts[j]) matches Lexeme::Text(x) ==> reads_back(x))
}

/// `ts` is a run of tokens that `shape` describes and that can be written
/// and read again: each token fits its place, each string is read back from
/// its literal, and a number is never the last token nor followed by a
/// number.
pub open spec fn writable(ts: Seq<Lexeme>, shape: Seq<SlotModel>) -> bool {
    &&& ts.len() == shape.len()
    &&& forall|j: int| 0 <= j < ts.len() ==> fits(shape[j], #[trigger] ts[j])
    &&& all_read_back(ts)
    &&& forall|j: int|
        0 <= j < ts.len() && (#[trigger] ts[j]) is Number ==> j + 1 < ts.len() && !(ts[j
            + 1] is Number)
}

/// `r` is what the contracts say of reading a shape.
pub open spec fn shape_read(
    r: Result<(Vec<Token>, usize), Fault>,
    m: Result<(Seq<Lexeme>, int), Fault>,
) -> bool {
    match r {
        Ok((tokens, e)) => m == Ok::<(Seq<Lexeme>, int), Fault>((token_views(tokens@), e as int)),
        Err(f) => m == Err::<(Seq<Lexeme>, int), Fault>(f),
    }
}

/// `r` is what the contracts say of reading the first shape that fits.
pub open spec fn first_read(
    r: Result<(usize, Vec<Token>, usize), Fault>,
    m: Result<(int, Seq<Lexeme>, int), Fault>,
) -> bool {
    match r {
        Ok((n, tokens, e)) => m == Ok::<(int, Seq<Lexeme>, int), Fault>(
            (n as int, token_views(tokens@), e as int),
        ),
        Err(f) => m == Err::<(int, Seq<Lexeme>, int), Fault>(f),
    }
}

// ---------------------------------------------------------------------------
// Facts
// ---------------------------------------------------------------------------

/// What was read fits the shape, and ends no earlier than it began.
pub proof fn lemma_shape_from_fits(s: Seq<u8>, i: int, shape: Seq<SlotModel>, k: int)
    requires
        0 <= i <= s.len(),
        0 <= k <= shape.len(),
        shape_from(s, i, shape, k) is Ok,
    ensures
        ({
            let (ts, e) = shape_from(s, i, shape, k)->Ok_0;
            &&& ts.len() == shape.len() - k
            &&& i <= e <= s.len()
            &&& k < shape.len() ==> i < e
            &&& forall|j: int| 0 <= j < ts.len() ==> fits(shape[k + j], #[trigger] ts[j])
        }),
    decreases shape.len() - k,
{
    if k < shape.len() {
        let (t, e1) = next_token(s, i)->Ok_0;
        lemma_next_token_bounds(s, i);
        lemma_shape_from_fits(s, e1, shape, k + 1);
        let (rest, e) = shape_from(s, e1, shape, k + 1)->Ok_0;
        let ts = seq![t] + rest;
        assert forall|j: int| 0 <= j < ts.len() implies fits(shape[k + j], #[trigger] ts[j]) by {
            if j > 0 {
                assert(ts[j] == rest[j - 1]);
            }
        }
    }
}

/// A number that was read is followed by a byte that is no digit.
pub proof fn lemma_number_is_followed(s: Seq<u8>, i: int)
    requires
        0 <= i <= s.len(),
        next_token(s, i) is Ok,
        next_token(s, i)->Ok_0.0 is Number,
    ensures
        next_token(s, i)->Ok_0.1 < s.len(),
        !is_digit(s[next_token(s, i)->Ok_0.1]),
{
    lemma_skip_spaces_bounds(s, i);
    let p = skip_spaces(s, i);
    assert(is_digit(s[p]) && s[p] != 0x6e && s[p] != 0x22);
    lemma_digits_end_bounds(s, p);
}

/// What was read once is read alike wherever the same bytes stand, if the
/// shape does not end in a number.
pub proof fn lemma_shape_from_local(
    s1: Seq<u8>,
    s2: Seq<u8>,
    i: int,
    d: int,
    shape: Seq<SlotModel>,
    k: int,
)
    requires
        0 <= i <= s1.len(),
        0 <= k <= shape.len(),
        shape_from(s1, i, shape, k) is Ok,
        same_bytes(s1, s2, i, shape_from(s1, i, shape, k)->Ok_0.1, d),
        shape.len() > 0 ==> takes_no_number(shape.last()),
    ensures
        shape_from(s2, i + d, shape, k) == Ok::<(Seq<Lexeme>, int), Fault>(
            (shape_from(s1, i, shape, k)->Ok_0.0, shape_from(s1, i, shape, k)->Ok_0.1 + d),
        ),
    decreases shape.len() - k,
{
    if k < shape.len() {
        let (t, e1) = next_token(s1, i)->Ok_0;
        let e = shape_from(s1, i, shape, k)->Ok_0.1;
        lemma_next_token_bounds(s1, i);
        lemma_shape_from_fits(s1, e1, shape, k + 1);
        assert forall|j: int| i <= j < e1 implies s1[j] == #[trigger] s2[j + d] by {}
        if t is Number {
            lemma_number_is_followed(s1, i);
            assert(k + 1 < shape.len());
            assert(e1 < e);
            assert(s1[e1] == s2[e1 + d]);
        }
        lemma_next_token_local(s1, s2, i, d);
        assert forall|j: int| e1 <= j < e implies s1[j] == #[trigger] s2[j + d] by {}
        lemma_shape_from_local(s1, s2, e1, d, shape, k + 1);
    }
}

/// Two shapes that both fit the same bytes read the same tokens as far as
/// both reach.
pub proof fn lemma_shape_from_agree(s: Seq<u8>, i: int, a: Seq<SlotModel>, b: Seq<SlotModel>, k: int)
    requires
        0 <= i <= s.len(),
        0 <= k <= a.len(),
        k <= b.len(),
        shape_from(s, i, a, k) is Ok,
        shape_from(s, i, b, k) is Ok,
    ensures
        forall|j: int|
            0 <= j < a.len() - k && j < b.len() - k ==> shape_from(s, i, a, k)->Ok_0.0[j]
                == shape_from(s, i, b, k)->Ok_0.0[j],
    decreases a.len() - k,
{
    if k < a.len() && k < b.len() {
        let (t, e1) = next_token(s, i)->Ok_0;
        lemma_next_token_bounds(s, i);
        lemma_shape_from_agree(s, e1, a, b, k + 1);
        lemma_shape_from_fits(s, e1, a, k + 1);
        lemma_shape_from_fits(s, e1, b, k + 1);
        let ra = shape_from(s, e1, a, k + 1)->Ok_0.0;
        let rb = shape_from(s, e1, b, k + 1)->Ok_0.0;
        let ta = shape_from(s, i, a, k)->Ok_0.0;
        let tb = shape_from(s, i, b, k)->Ok_0.0;
        assert(ta == seq![t] + ra);
        assert(tb == seq![t] + rb);
        assert forall|j: int| 0 <= j < a.len() - k && j < b.len() - k implies ta[j] == tb[j] by {
            if j > 0 {
                assert(ta[j] == ra[j - 1]);
                assert(tb[j] == rb[j - 1]);
            }
        }
    }
}

/// Of two exclusive shapes at most one fits given bytes.
pub proof fn lemma_exclusive(s: Seq<u8>, i: int, a: Seq<SlotModel>, b: Seq<SlotModel>)
    requires
        0 <= i <= s.len(),
        exclusive(a, b),
        shape_at(s, i, a) is Ok,
    ensures
        shape_at(s, i, b) is Err,
{
    if shape_at(s, i, b) is Ok {
        let j = choose|j: int| 0 <= j < a.len() && j < b.len() && #[trigger] disjoint(a[j], b[j]);
        lemma_shape_from_agree(s, i, a, b, 0);
        lemma_shape_from_fits(s, i, a, 0);
        lemma_shape_from_fits(s, i, b, 0);
        let ta = shape_at(s, i, a)->Ok_0.0;
        let tb = shape_at(s, i, b)->Ok_0.0;
        assert(ta[j] == tb[j]);
        assert(fits(a[j], ta[j]));
        assert(fits(b[j], tb[j]));
    }
}

/// Disjoint places are so in either order.
pub proof fn lemma_exclusive_symmetric(a: Seq<SlotModel>, b: Seq<SlotModel>)
    requires
        exclusive(a, b),
    ensures
        exclusive(b, a),
{
    let j = choose|j: int| 0 <= j < a.len() && j < b.len() && #[trigger] disjoint(a[j], b[j]);
    assert forall|t: Lexeme| !(#[trigger] fits(b[j], t) && fits(a[j], t)) by {
        assert(!(fits(a[j], t) && fits(b[j], t)));
    }
    assert(disjoint(b[j], a[j]));
}

/// Where shape `w` of a choice fits, it is the one that reading finds.
pub proof fn lemma_first_from_is(s: Seq<u8>, i: int, shapes: Seq<Seq<SlotModel>>, n: int, w: int)
    requires
        0 <= i <= s.len(),
        0 <= n <= w < shapes.len(),
        choice(shapes),
        shape_at(s, i, shapes[w]) is Ok,
    ensures
        first_from(s, i, shapes, n) == Ok::<(int, Seq<Lexeme>, int), Fault>(
            (w, shape_at(s, i, shapes[w])->Ok_0.0, shape_at(s, i, shapes[w])->Ok_0.1),
        ),
    decreases w - n,
{
    if n < w {
        assert(exclusive(shapes[n], shapes[w]));
        lemma_exclusive_symmetric(shapes[n], shapes[w]);
        lemma_exclusive(s, i, shapes[w], shapes[n]);
        lemma_first_from_is(s, i, shapes, n + 1, w);
    }
}

/// What reading finds is a shape of the list that fits.
pub proof fn lemma_first_from_found(s: Seq<u8>, i: int, shapes: Seq<Seq<SlotModel>>, n: int)
    requires
        0 <= n,
        first_from(s, i, shapes, n) is Ok,
    ensures
        ({
            let (w, ts, e) = first_from(s, i, shapes, n)->Ok_0;
            &&& n <= w < shapes.len()
            &&& shape_at(s, i, shapes[w]) == Ok::<(Seq<Lexeme>, int), Fault>((ts, e))
        }),
    decreases shapes.len() - n,
{
    if n < shapes.len() && shape_at(s, i, shapes[n]) is Err {
        lemma_first_from_found(s, i, shapes, n + 1);
    }
}

/// What was found once is found alike wherever the same bytes stand.
pub proof fn lemma_first_shape_local(
    s1: Seq<u8>,
    s2: Seq<u8>,
    i: int,
    d: int,
    shapes: Seq<Seq<SlotModel>>,
)
    requires
        0 <= i <= s1.len(),
        choice(shapes),
        first_shape_at(s1, i, shapes) is Ok,
        same_bytes(s1, s2, i, first_shape_at(s1, i, shapes)->Ok_0.2, d),
    ensures
        first_shape_at(s2, i + d, shapes) == Ok::<(int, Seq<Lexeme>, int), Fault>(
            (
                first_shape_at(s1, i, shapes)->Ok_0.0,
                first_shape_at(s1, i, shapes)->Ok_0.1,
                first_shape_at(s1, i, shapes)->Ok_0.2 + d,
            ),
        ),
{
    lemma_first_from_found(s1, i, shapes, 0);
    let (w, ts, e) = first_shape_at(s1, i, shapes)->Ok_0;
    lemma_shape_from_local(s1, s2, i, d, shapes[w], 0);
    lemma_first_from_is(s2, i + d, shapes, 0, w);
}

/// The canonical bytes of a writable run of tokens are read as those tokens
/// wherever they stand.
pub proof fn lemma_shape_from_written(
    s: Seq<u8>,
    i: int,
    ts: Seq<Lexeme>,
    shape: Seq<SlotModel>,
    k: int,
)
    requires
        0 <= k <= ts.len(),
        writable(ts, shape),
        holds_at(s, i, text_from(ts, k)),
    ensures
        shape_from(s, i, shape, k) == Ok::<(Seq<Lexeme>, int), Fault>(
            (ts.skip(k), i + text_from(ts, k).len()),
        ),
    decreases ts.len() - k,
{
    if k < ts.len() {
        let t = ts[k];
        let head = lexeme_text(t);
        let tail = text_from(ts, k + 1);
        let whole = text_from(ts, k);
        assert(whole == head + tail);
        let e1 = i + head.len();
        assert(s.subrange(i, e1) =~= head) by {
            assert(s.subrange(i, i + whole.len()) == whole);
            assert forall|j: int| 0 <= j < head.len() implies s.subrange(i, e1)[j] == head[j] by {
                assert(s.subrange(i, i + whole.len())[j] == whole[j]);
            }
        }
        assert(s.subrange(e1, e1 + tail.len()) =~= tail) by {
            assert forall|j: int| 0 <= j < tail.len() implies s.subrange(e1, e1 + tail.len())[j]
                == tail[j] by {
                assert(s.subrange(i, i + whole.len())[head.len() + j] == whole[head.len() + j]);
            }
        }
        if t is Number {
            let next = ts[k + 1];
            assert(tail == lexeme_text(next) + text_from(ts, k + 2));
            lemma_lexeme_text_head(next);
            assert(s[e1] == s.subrange(e1, e1 + tail.len())[0]);
            assert(tail[0] == lexeme_text(next)[0]);
        }
        lemma_token_text_read(s, i, t);
        lemma_shape_from_written(s, e1, ts, shape, k + 1);
        assert(ts.skip(k) =~= seq![t] + ts.skip(k + 1));
    } else {
        assert(ts.skip(k) =~= Seq::<Lexeme>::empty());
    }
}

/// What is written for shape `w` of a choice is read back as that shape and
/// those tokens, whatever follows it.
pub proof fn lemma_first_shape_written(
    s: Seq<u8>,
    i: int,
    ts: Seq<Lexeme>,
    shapes: Seq<Seq<SlotModel>>,
    w: int,
)
    requires
        0 <= w < shapes.len(),
        choice(shapes),
        writable(ts, shapes[w]),
        holds_at(s, i, lexemes_text(ts)),
    ensures
        first_shape_at(s, i, shapes) == Ok::<(int, Seq<Lexeme>, int), Fault>(
            (w, ts, i + lexemes_text(ts).len()),
        ),
{
    lemma_shape_from_written(s, i, ts, shapes[w], 0);
    assert(ts.skip(0) =~= ts);
    lemma_first_from_is(s, i, shapes, 0, w);
}

// ---------------------------------------------------------------------------
// Reading and writing
// ---------------------------------------------------------------------------

/// Whether two tokens are the same.
fn same_token(a: &Token, b: &Token) -> (same: bool)
    ensures
        same == (a@ == b@),
{
    match (a, b) {
        (Token::Open, Token::Open) => true,
        (Token::Close, Token::Close) => true,
        (Token::Colon, Token::Colon) => true,
        (Token::Comma, Token::Comma) => true,
        (Token::Null, Token::Null) => true,
        (Token::Text(x), Token::Text(y)) => *x == *y,
        (Token::Number(m), Token::Number(n)) => *m == *n,
        _ => false,
    }
}

/// Whether the token is one that the place asks for.
fn token_fits(slot: &Slot, t: &Token) -> (b: bool)
    ensures
        b == fits(slot@, t@),
{
    match slot {
        Slot::Exact(want) => same_token(t, want),
        Slot::AnyText => match t {
            Token::Text(_) => true,
            _ => false,
        },
        Slot::AnyNumber => match t {
            Token::Number(_) => true,
            _ => false,
        },
    }
}

/// What was read, with the tokens that were read before it in front.
pub open spec fn prepend(front: Seq<Lexeme>, r: Result<(Seq<Lexeme>, int), Fault>) -> Result<
    (Seq<Lexeme>, int),
    Fault,
> {
    match r {
        Ok((ts, e)) => Ok((front + ts, e)),
        Err(f) => Err(f),
    }
}

/// Reads the tokens of `shape` from `pos` on.
pub fn read_shape(bytes: &[u8], pos: usize, shape: &Vec<Slot>) -> (r: Result<
    (Vec<Token>, usize),
    Fault,
>)
    requires
        pos <= bytes@.len(),
    ensures
        shape_read(r, shape_at(bytes@, pos as int, slot_views(shape@))),
        r matches Ok((_, e)) ==> pos <= e <= bytes@.len(),
{
    let ghost s = bytes@;
    let ghost model = slot_views(shape@);
    let mut tokens: Vec<Token> = Vec::new();
    let mut at: usize = pos;
    let mut k: usize = 0;
    proof {
        assert(token_views(tokens@) =~= Seq::<Lexeme>::empty());
        assert(prepend(Seq::<Lexeme>::empty(), shape_from(s, pos as int, model, 0)) == shape_from(
            s,
            pos as int,
            model,
            0,
        )) by {
            match shape_from(s, pos as int, model, 0) {
                Ok((ts, e)) => {
                    assert(Seq::<Lexeme>::empty() + ts =~= ts);
                },
                Err(_) => {},
            }
        }
    }
    while k < shape.len()
        invariant
            s == bytes@,
            model == slot_views(shape@),
            k <= shape@.len(),
            pos <= at <= s.len(),
            shape_at(s, pos as int, model) == prepend(
                token_views(tokens@),
                shape_from(s, at as int, model, k as int),
            ),
        decreases shape@.len() - k,
    {
        let ghost before = token_views(tokens@);
        match read_token(bytes, at) {
            Ok((t, e)) => {
                if !token_fits(&shape[k], &t) {
                    return Err(Fault::Malformed);
                }
                proof {
                    let rest = shape_from(s, e as int, model, k + 1);
                    match rest {
                        Ok((ts, end)) => {
                            assert(before + (seq![t@] + ts) =~= before.push(t@) + ts);
                        },
                        Err(_) => {},
                    }
                }
                tokens.push(t);
                proof {
                    assert(token_views(tokens@) =~= before.push(t@));
                }
                at = e;
            },
            Err(f) => {
                return Err(f);
            },
        }
        k = k + 1;
    }
    proof {
        assert(token_views(tokens@) + Seq::<Lexeme>::empty() =~= token_views(tokens@));
    }
    Ok((tokens, at))
}

/// Reads from `pos` on the first of `shapes` that the bytes fit, and says
/// which it was.
pub fn read_first(bytes: &[u8], pos: usize, shapes: &Vec<Vec<Slot>>) -> (r: Result<
    (usize, Vec<Token>, usize),
    Fault,
>)
    requires
        pos <= bytes@.len(),
    ensures
        first_read(r, first_shape_at(bytes@, pos as int, shape_views(shapes@))),
        r matches Ok((_, _, e)) ==> pos <= e <= bytes@.len(),
{
    let ghost s = bytes@;
    let ghost models = shape_views(shapes@);
    let mut incomplete: bool = false;
    let mut n: usize = 0;
    while n < shapes.len()
        invariant
            s == bytes@,
            models == shape_views(shapes@),
            pos <= s.len(),
            n <= shapes@.len(),
            first_shape_at(s, pos as int, models) == (match first_from(s, pos as int, models, n as int) {
                Ok(found) => Ok(found),
                Err(g) => Err(
                    if incomplete {
                        Fault::Incomplete
                    } else {
                        g
                    },
                ),
            }),
        decreases shapes@.len() - n,
    {
        match read_shape(bytes, pos, &shapes[n]) {
            Ok((tokens, e)) => {
                return Ok((n, tokens, e));
            },
            Err(f) => {
                if f == Fault::Incomplete {
                    incomplete = true;
                }
            },
        }
        n = n + 1;
    }
    if incomplete {
        Err(Fault::Incomplete)
    } else {
        Err(Fault::Malformed)
    }
}

/// Appends the canonical bytes of one token.
pub fn write_token(out: &mut Vec<u8>, t: &Token)
    ensures
        final(out)@ == old(out)@ + lexeme_text(t@),
        t@ matches Lexeme::Text(x) ==> reads_back(x),
{
    match t {
        Token::Open => {
            out.push(0x7b);
            assert(out@ =~= old(out)@ + lexeme_text(t@));
        },
        Token::Close => {
            out.push(0x7d);
            assert(out@ =~= old(out)@ + lexeme_text(t@));
        },
        Token::Colon => {
            out.push(0x3a);
            assert(out@ =~= old(out)@ + lexeme_text(t@));
        },
        Token::Comma => {
            out.push(0x2c);
            assert(out@ =~= old(out)@ + lexeme_text(t@));
        },
        Token::Null => {
            out.push(0x6e);
            out.push(0x75);
            out.push(0x6c);
            out.push(0x6c);
            assert(out@ =~= old(out)@ + lexeme_text(t@));
        },
        Token::Text(s) => {
            write_text(out, s.as_str());
        },
        Token::Number(n) => {
            write_number(out, *n);
        },
    }
}

/// Appends the canonical bytes of a run of tokens, with nothing between
/// them.
pub fn write_tokens(out: &mut Vec<u8>, tokens: &Vec<Token>)
    ensures
        final(out)@ == old(out)@ + lexemes_text(token_views(tokens@)),
        all_read_back(token_views(tokens@)),
{
    let ghost ts = token_views(tokens@);
    let mut k: usize = 0;
    while k < tokens.len()
        invariant
            ts == token_views(tokens@),
            k <= tokens@.len(),
            out@ + text_from(ts, k as int) == old(out)@ + text_from(ts, 0),
            forall|j: int| 0 <= j < k ==> ((#[trigger] ts[j]) matches Lexeme::Text(x) ==> reads_back(x)),
        decreases tokens@.len() - k,
    {
        let ghost before = out@;
        write_token(out, &tokens[k]);
        proof {
            assert(ts[k as int] == tokens@[k as int]@);
            assert(out@ + text_from(ts, k + 1) =~= before + text_from(ts, k as int));
        }
        k = k + 1;
    }
    proof {
        assert(out@ + Seq::<u8>::empty() =~= out@);
    }
}


/// The string that the token at place `j` holds.
pub fn text_of(tokens: &Vec<Token>, j: usize) -> (s: String)
    requires
        j < tokens@.len(),
        tokens@[j as int]@ is Text,
    ensures
        tokens@[j as int]@ == Lexeme::Text(s@),
{
    match &tokens[j] {
        Token::Text(s) => s.clone(),
        _ => String::new(),
    }
}

/// The number that the token at place `j` holds.
pub fn number_of(tokens: &Vec<Token>, j: usize) -> (n: u64)
    requires
        j < tokens@.len(),
        tokens@[j as int]@ is Number,
    ensures
        tokens@[j as int]@ == Lexeme::Number(n),
{
    match &tokens[j] {
        Token::Number(n) => *n,
        _ => 0,
    }
}

/// The place that asks for the token `t`.
pub fn mark_slot(t: Token) -> (slot: Slot)
    ensures
        slot@ == SlotModel::Exact(t@),
{
    Slot::Exact(t)
}

/// The place that asks for the string `name`.
pub fn name_slot(name: &str) -> (slot: Slot)
    ensures
        slot@ == SlotModel::Exact(Lexeme::Text(name@)),
{
    Slot::Exact(Token::Text(String::from_str(name)))
}

/// The token that holds the string `name`.
pub fn name_token(name: &str) -> (t: Token)
    ensures
        t@ == Lexeme::Text(name@),
{
    Token::Text(String::from_str(name))
}

} // verus!
