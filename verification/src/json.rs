//! The lexical layer of the JSON texts this crate reads and writes.
//!
//! A text is a run of tokens: the four punctuation marks of an object, the
//! word `null`, string literals and unsigned decimal numbers, with optional
//! white space before each token. String literals are escaped and unescaped
//! by `serde_json`; everything else is read and written here.

use vstd::prelude::*;
use vstd::slice::slice_subrange;

verus! {

/// Why reading stopped before a whole value was read.
#[derive(Clone, Copy, Debug, PartialEq, Eq, Structural)]
pub enum Fault {
    /// The bytes end inside the value: more bytes may complete it.
    Incomplete,
    /// A byte that cannot stand where it stands: no more bytes can mend it.
    Malformed,
}

/// A token as the contracts see it.
pub ghost enum Lexeme {
    Open,
    Close,
    Colon,
    Comma,
    Null,
    Text(Seq<char>),
    Number(u64),
}

/// A token of a JSON text.
#[derive(Debug)]
pub enum Token {
    /// `{`
    Open,
    /// `}`
    Close,
    /// `:`
    Colon,
    /// `,`
    Comma,
    /// `null`
    Null,
    /// A string literal, unescaped.
    Text(String),
    /// An unsigned decimal number.
    Number(u64),
}

impl View for Token {
    type V = Lexeme;

    open spec fn view(&self) -> Lexeme {
        match self {
            Token::Open => Lexeme::Open,
            Token::Close => Lexeme::Close,
            Token::Colon => Lexeme::Colon,
            Token::Comma => Lexeme::Comma,
            Token::Null => Lexeme::Null,
            Token::Text(s) => Lexeme::Text(s@),
            Token::Number(n) => Lexeme::Number(*n),
        }
    }
}

/// The bytes that `serde_json` writes for a string: the literal with its
/// quotes and escapes.
pub uninterp spec fn json_string_literal(s: Seq<char>) -> Seq<u8>;

/// What `serde_json` reads from bytes that are to hold one string literal:
/// the string, or nothing where the bytes are no such literal.
pub uninterp spec fn json_string_value(literal: Seq<u8>) -> Option<Seq<char>>;

/// White space: a blank, a tab, a line feed or a carriage return.
pub open spec fn is_space(b: u8) -> bool {
    b == 0x20 || b == 0x09 || b == 0x0a || b == 0x0d
}

/// A decimal digit.
pub open spec fn is_digit(b: u8) -> bool {
    0x30 <= b <= 0x39
}

/// The first position at or after `i` that holds no white space.
pub open spec fn skip_spaces(s: Seq<u8>, i: int) -> int
    decreases s.len() - i,
{
    if 0 <= i < s.len() && is_space(s[i]) {
        skip_spaces(s, i + 1)
    } else {
        i
    }
}

/// Where the string literal ends whose body is read from `j` on: one past
/// the first quote that no backslash escapes. A backslash takes the byte
/// after it along; a control byte cannot stand in a literal.
pub open spec fn string_end(s: Seq<u8>, j: int) -> Result<int, Fault>
    decreases s.len() - j,
{
    if j < 0 || j >= s.len() {
        Err(Fault::Incomplete)
    } else if s[j] == 0x22 {
        Ok(j + 1)
    } else if s[j] == 0x5c {
        if j + 1 >= s.len() {
            Err(Fault::Incomplete)
        } else {
            string_end(s, j + 2)
        }
    } else if s[j] < 0x20 {
        Err(Fault::Malformed)
    } else {
        string_end(s, j + 1)
    }
}

/// `literal` is a string literal as this layer reads it, and stands for `s`.
pub open spec fn is_literal_of(literal: Seq<u8>, s: Seq<char>) -> bool {
    &&& literal.len() >= 2
    &&& literal[0] == 0x22
    &&& string_end(literal, 1) == Ok::<int, Fault>(literal.len() as int)
    &&& json_string_value(literal) == Some(s)
}

/// The literal that is written for `s` is read back as `s`.
pub open spec fn reads_back(s: Seq<char>) -> bool {
    is_literal_of(json_string_literal(s), s)
}

/// The end of the run of digits that starts at `i`.
pub open spec fn digits_end(s: Seq<u8>, i: int) -> int
    decreases s.len() - i,
{
    if 0 <= i < s.len() && is_digit(s[i]) {
        digits_end(s, i + 1)
    } else {
        i
    }
}

/// The number that a run of decimal digits denotes.
pub open spec fn digits_value(d: Seq<u8>) -> nat
    decreases d.len(),
{
    if d.len() == 0 {
        0
    } else {
        digits_value(d.drop_last()) * 10 + (d.last() - 0x30) as nat
    }
}

/// The decimal digits of `n`, without leading zeros.
pub open spec fn decimal(n: nat) -> Seq<u8>
    decreases n,
{
    if n < 10 {
        seq![(0x30 + n) as u8]
    } else {
        decimal(n / 10).push((0x30 + n % 10) as u8)
    }
}

/// The word `null`.
pub open spec fn null_text() -> Seq<u8> {
    seq![0x6e, 0x75, 0x6c, 0x6c]
}

/// The canonical bytes of a token.
pub open spec fn lexeme_text(t: Lexeme) -> Seq<u8> {
    match t {
        Lexeme::Open => seq![0x7b],
        Lexeme::Close => seq![0x7d],
        Lexeme::Colon => seq![0x3a],
        Lexeme::Comma => seq![0x2c],
        Lexeme::Null => null_text(),
        Lexeme::Text(s) => json_string_literal(s),
        Lexeme::Number(n) => decimal(n as nat),
    }
}

/// The word that starts at `i` with the letter `n`.
pub open spec fn null_at(s: Seq<u8>, i: int) -> Result<(Lexeme, int), Fault> {
    if i + 4 <= s.len() {
        if s.subrange(i, i + 4) == null_text() {
            Ok((Lexeme::Null, i + 4))
        } else {
            Err(Fault::Malformed)
        }
    } else if s.subrange(i, s.len() as int) == null_text().subrange(0, s.len() - i) {
        Err(Fault::Incomplete)
    } else {
        Err(Fault::Malformed)
    }
}

/// The number that starts at `i` with a digit. It ends before the first byte
/// that is no digit, so a run that reaches the end of the bytes is not yet
/// known to be whole. A number of several digits does not begin with zero.
pub open spec fn number_at(s: Seq<u8>, i: int) -> Result<(Lexeme, int), Fault> {
    let e = digits_end(s, i);
    if e >= s.len() {
        Err(Fault::Incomplete)
    } else if s[i] == 0x30 && e > i + 1 {
        Err(Fault::Malformed)
    } else if digits_value(s.subrange(i, e)) > u64::MAX {
        Err(Fault::Malformed)
    } else {
        Ok((Lexeme::Number(digits_value(s.subrange(i, e)) as u64), e))
    }
}

/// The string literal that opens at `i` with a quote.
pub open spec fn text_at(s: Seq<u8>, i: int) -> Result<(Lexeme, int), Fault> {
    match string_end(s, i + 1) {
        Ok(e) => match json_string_value(s.subrange(i, e)) {
            Some(v) => Ok((Lexeme::Text(v), e)),
            None => Err(Fault::Malformed),
        },
        Err(f) => Err(f),
    }
}

/// The token that starts exactly at `i`, and where it ends.
pub open spec fn token_at(s: Seq<u8>, i: int) -> Result<(Lexeme, int), Fault> {
    if i < 0 || i >= s.len() {
        Err(Fault::Incomplete)
    } else if s[i] == 0x7b {
        Ok((Lexeme::Open, i + 1))
    } else if s[i] == 0x7d {
        Ok((Lexeme::Close, i + 1))
    } else if s[i] == 0x3a {
        Ok((Lexeme::Colon, i + 1))
    } else if s[i] == 0x2c {
        Ok((Lexeme::Comma, i + 1))
    } else if s[i] == 0x22 {
        text_at(s, i)
    } else if s[i] == 0x6e {
        null_at(s, i)
    } else if is_digit(s[i]) {
        number_at(s, i)
    } else {
        Err(Fault::Malformed)
    }
}

/// The first token at or after `i`, white space skipped, and where it ends.
pub open spec fn next_token(s: Seq<u8>, i: int) -> Result<(Lexeme, int), Fault> {
    token_at(s, skip_spaces(s, i))
}

/// `r` is what the contracts say of reading a token.
pub open spec fn token_read(r: Result<(Token, usize), Fault>, m: Result<(Lexeme, int), Fault>) -> bool {
    match r {
        Ok((t, e)) => m == Ok::<(Lexeme, int), Fault>((t@, e as int)),
        Err(f) => m == Err::<(Lexeme, int), Fault>(f),
    }
}

/// `s2` holds from `i + d` on what `s1` holds from `i` to `e`.
pub open spec fn same_bytes(s1: Seq<u8>, s2: Seq<u8>, i: int, e: int, d: int) -> bool {
    &&& 0 <= i <= e <= s1.len()
    &&& 0 <= i + d
    &&& e + d <= s2.len()
    &&& forall|j: int| i <= j < e ==> s1[j] == #[trigger] s2[j + d]
}

// ---------------------------------------------------------------------------
// Calls into serde_json
// ---------------------------------------------------------------------------

/// `serde_json::to_vec` on a string. The contract claims that the bytes are
/// the string's literal: a quote, a body in which every quote, backslash and
/// control byte is escaped by a backslash, and a quote; and that
/// `serde_json::from_slice` reads this literal back as the same string.
#[verifier::external_body]
fn encode_string(s: &str) -> (out: Vec<u8>)
    ensures
        out@ == json_string_literal(s@),
        is_literal_of(out@, s@),
{
    serde_json::to_vec(s).unwrap()
}

/// `serde_json::from_slice` for a `String`. The contract gives the result a
/// name: the string that the bytes denote, or nothing where `serde_json`
/// refuses them.
#[verifier::external_body]
fn decode_string(literal: &[u8]) -> (out: Option<String>)
    ensures
        match out {
            Some(s) => json_string_value(literal@) == Some(s@),
            None => json_string_value(literal@) is None,
        },
{
    serde_json::from_slice::<String>(literal).ok()
}

// ---------------------------------------------------------------------------
// Facts about the spec functions
// ---------------------------------------------------------------------------

/// White space is skipped up to a byte that is none, or to the end.
pub proof fn lemma_skip_spaces_bounds(s: Seq<u8>, i: int)
    requires
        0 <= i <= s.len(),
    ensures
        i <= skip_spaces(s, i) <= s.len(),
        skip_spaces(s, i) < s.len() ==> !is_space(s[skip_spaces(s, i)]),
        forall|j: int| i <= j < skip_spaces(s, i) ==> is_space(#[trigger] s[j]),
    decreases s.len() - i,
{
    if i < s.len() && is_space(s[i]) {
        lemma_skip_spaces_bounds(s, i + 1);
    }
}

/// White space is skipped alike wherever the same bytes stand.
pub proof fn lemma_skip_spaces_local(s1: Seq<u8>, s2: Seq<u8>, i: int, d: int)
    requires
        0 <= i <= s1.len(),
        skip_spaces(s1, i) < s1.len(),
        same_bytes(s1, s2, i, skip_spaces(s1, i) + 1, d),
    ensures
        skip_spaces(s2, i + d) == skip_spaces(s1, i) + d,
    decreases s1.len() - i,
{
    lemma_skip_spaces_bounds(s1, i);
    if is_space(s1[i]) {
        assert(s1[i] == s2[i + d]);
        lemma_skip_spaces_local(s1, s2, i + 1, d);
    } else {
        assert(s1[i] == s2[i + d]);
    }
}

/// A literal ends after it began, within the bytes.
pub proof fn lemma_string_end_bounds(s: Seq<u8>, j: int)
    requires
        0 <= j,
        string_end(s, j) is Ok,
    ensures
        j < string_end(s, j)->Ok_0 <= s.len(),
    decreases s.len() - j,
{
    if j < s.len() && s[j] != 0x22 {
        if s[j] == 0x5c {
            lemma_string_end_bounds(s, j + 2);
        } else {
            lemma_string_end_bounds(s, j + 1);
        }
    }
}

/// A literal ends alike wherever the same bytes stand.
pub proof fn lemma_string_end_local(s1: Seq<u8>, s2: Seq<u8>, i: int, j: int, e: int, d: int)
    requires
        0 <= i <= j,
        string_end(s1, j) == Ok::<int, Fault>(e),
        same_bytes(s1, s2, i, e, d),
    ensures
        string_end(s2, j + d) == Ok::<int, Fault>(e + d),
    decreases s1.len() - j,
{
    lemma_string_end_bounds(s1, j);
    assert(s1[j] == s2[j + d]);
    if s1[j] != 0x22 {
        if s1[j] == 0x5c {
            lemma_string_end_bounds(s1, j + 2);
            lemma_string_end_local(s1, s2, i, j + 2, e, d);
        } else {
            lemma_string_end_local(s1, s2, i, j + 1, e, d);
        }
    }
}

/// A run of digits ends before a byte that is no digit, or at the end.
pub proof fn lemma_digits_end_bounds(s: Seq<u8>, i: int)
    requires
        0 <= i <= s.len(),
    ensures
        i <= digits_end(s, i) <= s.len(),
        digits_end(s, i) < s.len() ==> !is_digit(s[digits_end(s, i)]),
        forall|j: int| i <= j < digits_end(s, i) ==> is_digit(#[trigger] s[j]),
    decreases s.len() - i,
{
    if i < s.len() && is_digit(s[i]) {
        lemma_digits_end_bounds(s, i + 1);
    }
}

/// A run of digits that stops before `e` ends at `e`.
pub proof fn lemma_digits_end_is(s: Seq<u8>, i: int, e: int)
    requires
        0 <= i <= e <= s.len(),
        forall|j: int| i <= j < e ==> is_digit(#[trigger] s[j]),
        e < s.len() ==> !is_digit(s[e]),
    ensures
        digits_end(s, i) == e,
    decreases e - i,
{
    if i < e {
        lemma_digits_end_is(s, i + 1, e);
    }
}

/// The same bytes hold the same piece.
pub proof fn lemma_same_subrange(s1: Seq<u8>, s2: Seq<u8>, i: int, e: int, d: int)
    requires
        same_bytes(s1, s2, i, e, d),
    ensures
        s1.subrange(i, e) == s2.subrange(i + d, e + d),
{
    assert forall|k: int| 0 <= k < e - i implies s1.subrange(i, e)[k] == s2.subrange(i + d, e + d)[k] by {
        assert(s1[i + k] == s2[i + k + d]);
    }
    assert(s1.subrange(i, e) =~= s2.subrange(i + d, e + d));
}

/// A token ends after it began, within the bytes.
pub proof fn lemma_token_at_bounds(s: Seq<u8>, i: int)
    requires
        0 <= i,
        token_at(s, i) is Ok,
    ensures
        i < token_at(s, i)->Ok_0.1 <= s.len(),
{
    if s[i] == 0x22 {
        lemma_string_end_bounds(s, i + 1);
    } else if is_digit(s[i]) && s[i] != 0x6e {
        lemma_digits_end_bounds(s, i);
    }
}

/// The first token after `i` ends after `i`, within the bytes.
pub proof fn lemma_next_token_bounds(s: Seq<u8>, i: int)
    requires
        0 <= i <= s.len(),
        next_token(s, i) is Ok,
    ensures
        i < next_token(s, i)->Ok_0.1 <= s.len(),
        skip_spaces(s, i) < next_token(s, i)->Ok_0.1,
{
    lemma_skip_spaces_bounds(s, i);
    lemma_token_at_bounds(s, skip_spaces(s, i));
}

/// A token that was read at `i` is read alike wherever the same bytes stand,
/// if a number there is followed by a byte that is no digit.
pub proof fn lemma_token_at_local(s1: Seq<u8>, s2: Seq<u8>, i: int, d: int)
    requires
        0 <= i,
        token_at(s1, i) is Ok,
        same_bytes(s1, s2, i, token_at(s1, i)->Ok_0.1, d),
        token_at(s1, i)->Ok_0.0 is Number ==> {
            let e = token_at(s1, i)->Ok_0.1;
            e + d < s2.len() && !is_digit(s2[e + d])
        },
    ensures
        token_at(s2, i + d) == Ok::<(Lexeme, int), Fault>(
            (token_at(s1, i)->Ok_0.0, token_at(s1, i)->Ok_0.1 + d),
        ),
{
    let e = token_at(s1, i)->Ok_0.1;
    lemma_token_at_bounds(s1, i);
    assert(s1[i] == s2[i + d]);
    lemma_same_subrange(s1, s2, i, e, d);
    if s1[i] == 0x22 {
        lemma_string_end_local(s1, s2, i, i + 1, e, d);
    } else if s1[i] == 0x6e {
        assert(e == i + 4);
    } else if is_digit(s1[i]) {
        lemma_digits_end_bounds(s1, i);
        assert forall|j: int| i + d <= j < e + d implies is_digit(#[trigger] s2[j]) by {
            assert(s1[j - d] == s2[(j - d) + d]);
        }
        lemma_digits_end_is(s2, i + d, e + d);
    }
}

/// The first token after `i` is read alike wherever the same bytes stand.
pub proof fn lemma_next_token_local(s1: Seq<u8>, s2: Seq<u8>, i: int, d: int)
    requires
        0 <= i <= s1.len(),
        next_token(s1, i) is Ok,
        same_bytes(s1, s2, i, next_token(s1, i)->Ok_0.1, d),
        next_token(s1, i)->Ok_0.0 is Number ==> {
            let e = next_token(s1, i)->Ok_0.1;
            e + d < s2.len() && !is_digit(s2[e + d])
        },
    ensures
        next_token(s2, i + d) == Ok::<(Lexeme, int), Fault>(
            (next_token(s1, i)->Ok_0.0, next_token(s1, i)->Ok_0.1 + d),
        ),
{
    let p = skip_spaces(s1, i);
    let e = next_token(s1, i)->Ok_0.1;
    lemma_skip_spaces_bounds(s1, i);
    lemma_token_at_bounds(s1, p);
    assert forall|j: int| i <= j < p + 1 implies s1[j] == #[trigger] s2[j + d] by {}
    lemma_skip_spaces_local(s1, s2, i, d);
    assert forall|j: int| p <= j < e implies s1[j] == #[trigger] s2[j + d] by {}
    lemma_token_at_local(s1, s2, p, d);
}


/// `text` stands in `s` from `i` on.
pub open spec fn holds_at(s: Seq<u8>, i: int, text: Seq<u8>) -> bool {
    &&& 0 <= i
    &&& i + text.len() <= s.len()
    &&& s.subrange(i, i + text.len()) == text
}

/// The digits of a number: at least one, all of them digits, a zero in
/// front only for a number below ten, and they denote the number.
pub proof fn lemma_decimal(n: nat)
    ensures
        decimal(n).len() >= 1,
        n < 10 ==> decimal(n).len() == 1,
        n >= 10 ==> decimal(n).len() >= 2 && decimal(n)[0] != 0x30,
        forall|j: int| 0 <= j < decimal(n).len() ==> is_digit(#[trigger] decimal(n)[j]),
        digits_value(decimal(n)) == n,
    decreases n,
{
    if n < 10 {
        let d = decimal(n);
        assert(d.drop_last() =~= Seq::<u8>::empty());
        assert(digits_value(d.drop_last()) == 0);
    } else {
        lemma_decimal(n / 10);
        let front = decimal(n / 10);
        let d = decimal(n);
        assert(d.drop_last() =~= front);
        assert(d[0] == front[0]);
        assert(n / 10 < 10 ==> front[0] == (0x30 + n / 10) as u8);
    }
}

/// The first byte of a token's text is neither white space nor, but in a
/// number, a digit.
pub proof fn lemma_lexeme_text_head(t: Lexeme)
    requires
        t matches Lexeme::Text(x) ==> reads_back(x),
    ensures
        lexeme_text(t).len() >= 1,
        !is_space(lexeme_text(t)[0]),
        !(t is Number) ==> !is_digit(lexeme_text(t)[0]),
{
    match t {
        Lexeme::Number(n) => {
            lemma_decimal(n as nat);
        },
        _ => {},
    }
}

/// A token's text is read as that token wherever it stands, if after a
/// number there follows a byte that is no digit.
pub proof fn lemma_token_text_read(s: Seq<u8>, i: int, t: Lexeme)
    requires
        holds_at(s, i, lexeme_text(t)),
        t matches Lexeme::Text(x) ==> reads_back(x),
        t is Number ==> {
            let e = i + lexeme_text(t).len();
            e < s.len() && !is_digit(s[e])
        },
    ensures
        next_token(s, i) == Ok::<(Lexeme, int), Fault>((t, i + lexeme_text(t).len())),
{
    let text = lexeme_text(t);
    let e = i + text.len();
    lemma_lexeme_text_head(t);
    assert(s[i] == s.subrange(i, e)[0]);
    assert(skip_spaces(s, i) == i);
    assert forall|j: int| 0 <= j < text.len() implies text[j] == #[trigger] s[j + i] by {
        assert(s.subrange(i, e)[j] == s[i + j]);
    }
    match t {
        Lexeme::Text(x) => {
            lemma_string_end_local(text, s, 0, 1, text.len() as int, i);
        },
        Lexeme::Number(n) => {
            lemma_decimal(n as nat);
            assert forall|j: int| i <= j < e implies is_digit(#[trigger] s[j]) by {
                assert(text[j - i] == s[(j - i) + i]);
            }
            lemma_digits_end_is(s, i, e);
        },
        Lexeme::Null => {
            assert(text.len() == 4);
        },
        _ => {},
    }
}

// ---------------------------------------------------------------------------
// Reading
// ---------------------------------------------------------------------------

/// Skips the white space at `pos`.
pub fn skip_white_space(bytes: &[u8], pos: usize) -> (p: usize)
    requires
        pos <= bytes@.len(),
    ensures
        p == skip_spaces(bytes@, pos as int),
        pos <= p <= bytes@.len(),
{
    let n: usize = bytes.len();
    let mut p: usize = pos;
    while p < n && (bytes[p] == 0x20 || bytes[p] == 0x09 || bytes[p] == 0x0a || bytes[p] == 0x0d)
        invariant
            n == bytes@.len(),
            pos <= p <= n,
            skip_spaces(bytes@, pos as int) == skip_spaces(bytes@, p as int),
        decreases n - p,
    {
        p = p + 1;
    }
    p
}

/// Reads the word `null` that starts at `i`.
fn read_null(bytes: &[u8], i: usize) -> (r: Result<(Token, usize), Fault>)
    requires
        i < bytes@.len(),
        bytes@[i as int] == 0x6e,
    ensures
        token_read(r, null_at(bytes@, i as int)),
{
    let n: usize = bytes.len();
    let ghost s = bytes@;
    if n - i >= 4 {
        if bytes[i + 1] == 0x75 && bytes[i + 2] == 0x6c && bytes[i + 3] == 0x6c {
            assert(s.subrange(i as int, i + 4) =~= null_text());
            Ok((Token::Null, i + 4))
        } else {
            proof {
                let w = s.subrange(i as int, i + 4);
                assert(w[1] == s[i + 1] && w[2] == s[i + 2] && w[3] == s[i + 3]);
            }
            Err(Fault::Malformed)
        }
    } else {
        let ghost w = s.subrange(i as int, n as int);
        let ghost want = null_text().subrange(0, n - i);
        if (n - i < 2 || bytes[i + 1] == 0x75) && (n - i < 3 || bytes[i + 2] == 0x6c) {
            assert(w =~= want);
            Err(Fault::Incomplete)
        } else {
            proof {
                if n - i >= 2 && s[i + 1] != 0x75 {
                    assert(w[1] == s[i + 1] && want[1] == 0x75);
                } else {
                    assert(w[2] == s[i + 2] && want[2] == 0x6c);
                }
            }
            Err(Fault::Malformed)
        }
    }
}

/// Reads the number that starts at `i`.
fn read_number(bytes: &[u8], i: usize) -> (r: Result<(Token, usize), Fault>)
    requires
        i < bytes@.len(),
        is_digit(bytes@[i as int]),
    ensures
        token_read(r, number_at(bytes@, i as int)),
{
    let n: usize = bytes.len();
    let ghost s = bytes@;
    let mut j: usize = i;
    let mut acc: u64 = 0;
    let mut overflow: bool = false;
    proof {
        assert(s.subrange(i as int, i as int) =~= Seq::<u8>::empty());
    }
    while j < n && 0x30 <= bytes[j] && bytes[j] <= 0x39
        invariant
            n == s.len(),
            s == bytes@,
            i <= j <= n,
            digits_end(s, i as int) == digits_end(s, j as int),
            !overflow ==> acc == digits_value(s.subrange(i as int, j as int)),
            overflow ==> digits_value(s.subrange(i as int, j as int)) > u64::MAX,
        decreases n - j,
    {
        let d: u64 = (bytes[j] - 0x30) as u64;
        proof {
            let longer = s.subrange(i as int, j + 1);
            assert(longer.drop_last() =~= s.subrange(i as int, j as int));
            assert(longer.last() == s[j as int]);
        }
        if !overflow {
            if acc > (u64::MAX - d) / 10 {
                overflow = true;
            } else {
                acc = acc * 10 + d;
            }
        }
        j = j + 1;
    }
    if j >= n {
        Err(Fault::Incomplete)
    } else if bytes[i] == 0x30 && j > i + 1 {
        Err(Fault::Malformed)
    } else if overflow {
        Err(Fault::Malformed)
    } else {
        Ok((Token::Number(acc), j))
    }
}

/// Reads the string literal that opens at `i`: finds its end, and has
/// `serde_json` unescape it.
fn read_text(bytes: &[u8], i: usize) -> (r: Result<(Token, usize), Fault>)
    requires
        i < bytes@.len(),
        bytes@[i as int] == 0x22,
    ensures
        token_read(r, text_at(bytes@, i as int)),
{
    let n: usize = bytes.len();
    let ghost s = bytes@;
    let mut j: usize = i + 1;
    let mut end: usize = 0;
    let mut found: bool = false;
    while !found
        invariant
            n == s.len(),
            s == bytes@,
            i < n,
            !found ==> i + 1 <= j <= n,
            !found ==> string_end(s, i + 1) == string_end(s, j as int),
            found ==> string_end(s, i + 1) == Ok::<int, Fault>(end as int) && i + 1 < end <= n,
        decreases (if found { 0int } else { 1int }), n - j,
    {
        if j >= n {
            return Err(Fault::Incomplete);
        }
        let b: u8 = bytes[j];
        if b == 0x22 {
            end = j + 1;
            found = true;
        } else if b == 0x5c {
            if j + 1 >= n {
                return Err(Fault::Incomplete);
            }
            j = j + 2;
        } else if b < 0x20 {
            return Err(Fault::Malformed);
        } else {
            j = j + 1;
        }
    }
    let literal = slice_subrange(bytes, i, end);
    match decode_string(literal) {
        Some(text) => Ok((Token::Text(text), end)),
        None => Err(Fault::Malformed),
    }
}

/// Reads the first token at or after `pos`.
pub fn read_token(bytes: &[u8], pos: usize) -> (r: Result<(Token, usize), Fault>)
    requires
        pos <= bytes@.len(),
    ensures
        token_read(r, next_token(bytes@, pos as int)),
        r matches Ok((_, e)) ==> pos < e <= bytes@.len(),
{
    let i: usize = skip_white_space(bytes, pos);
    if i >= bytes.len() {
        return Err(Fault::Incomplete);
    }
    let b: u8 = bytes[i];
    let r = if b == 0x7b {
        Ok((Token::Open, i + 1))
    } else if b == 0x7d {
        Ok((Token::Close, i + 1))
    } else if b == 0x3a {
        Ok((Token::Colon, i + 1))
    } else if b == 0x2c {
        Ok((Token::Comma, i + 1))
    } else if b == 0x22 {
        read_text(bytes, i)
    } else if b == 0x6e {
        read_null(bytes, i)
    } else if 0x30 <= b && b <= 0x39 {
        read_number(bytes, i)
    } else {
        Err(Fault::Malformed)
    };
    proof {
        if r is Ok {
            lemma_next_token_bounds(bytes@, pos as int);
        }
    }
    r
}

// ---------------------------------------------------------------------------
// Writing
// ---------------------------------------------------------------------------

/// Appends `bytes` to `out`.
pub fn write_bytes(out: &mut Vec<u8>, bytes: &[u8])
    ensures
        final(out)@ == old(out)@ + bytes@,
{
    let n: usize = bytes.len();
    let mut k: usize = 0;
    while k < n
        invariant
            n == bytes@.len(),
            k <= n,
            out@ == old(out)@ + bytes@.subrange(0, k as int),
        decreases n - k,
    {
        out.push(bytes[k]);
        proof {
            assert(bytes@.subrange(0, k + 1) =~= bytes@.subrange(0, k as int).push(bytes@[k as int]));
            assert(out@ =~= old(out)@ + bytes@.subrange(0, k + 1));
        }
        k = k + 1;
    }
    proof {
        assert(bytes@.subrange(0, n as int) =~= bytes@);
    }
}

/// Appends the literal of `s` to `out`.
pub fn write_text(out: &mut Vec<u8>, s: &str)
    ensures
        final(out)@ == old(out)@ + json_string_literal(s@),
        reads_back(s@),
{
    let literal = encode_string(s);
    write_bytes(out, literal.as_slice());
}

/// Appends the decimal digits of `n` to `out`.
pub fn write_number(out: &mut Vec<u8>, n: u64)
    ensures
        final(out)@ == old(out)@ + decimal(n as nat),
{
    let mut digits: Vec<u8> = Vec::new();
    let mut m: u64 = n;
    let mut more: bool = true;
    while more
        invariant
            more ==> decimal(n as nat) == decimal(m as nat) + digits@.reverse(),
            !more ==> decimal(n as nat) == digits@.reverse(),
        decreases (if more { 1int } else { 0int }), m,
    {
        let d: u8 = (m % 10) as u8 + 0x30;
        let ghost before = digits@;
        digits.push(d);
        proof {
            assert(digits@.reverse() =~= seq![d] + before.reverse());
            if m >= 10 {
                assert(decimal(m as nat) == decimal((m / 10) as nat).push(d));
                assert(decimal(m as nat) + before.reverse() =~= decimal((m / 10) as nat)
                    + digits@.reverse());
            } else {
                assert(decimal(m as nat) =~= seq![d]);
                assert(decimal(m as nat) + before.reverse() =~= digits@.reverse());
            }
        }
        if m >= 10 {
            m = m / 10;
        } else {
            more = false;
        }
    }
    let ghost base = out@;
    let mut k: usize = digits.len();
    while k > 0
        invariant
            k <= digits@.len(),
            out@ == base + digits@.reverse().subrange(0, digits@.len() - k),
        decreases k,
    {
        k = k - 1;
        out.push(digits[k]);
        proof {
            let r = digits@.reverse();
            let done = digits@.len() - k;
            assert(r[done - 1] == digits@[k as int]);
            assert(r.subrange(0, done) =~= r.subrange(0, done - 1).push(r[done - 1]));
            assert(out@ =~= base + r.subrange(0, done));
        }
    }
    proof {
        let r = digits@.reverse();
        assert(r.subrange(0, digits@.len() as int) =~= r);
    }
}

} // verus!
