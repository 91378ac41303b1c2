use vstd::prelude::*;
use crate::chars::{alphabetic, alphanumeric, byte_at, is_digit, unescape_code, whitespace};
use crate::error::{
    ErrorModel, Failure, ParseBitSequenceError, ParseCharError, ParseComplexError, ParseErrorKind,
    ParseNumberError, ParseStringError,
};
use crate::value::{CompositeModel, Model, PrimitiveModel};

verus! {

/// The outcome of one grammar rule at a position: the rule does not apply, it applies
/// but the text is malformed, or it reads a value and ends at a position.
pub enum Step<A> {
    NoMatch,
    Fail(ErrorModel),
    Done(A, int),
}

pub open spec fn err_at(s: Seq<char>, i: int, kind: ParseErrorKind) -> ErrorModel {
    ErrorModel { start: byte_at(s, i), end: None, failure: Failure::Kind(kind) }
}

/// An error on the character at `i` (or just past the end).
pub open spec fn err_one(s: Seq<char>, i: int, kind: ParseErrorKind) -> ErrorModel {
    ErrorModel { start: byte_at(s, i), end: Some(byte_at(s, i) + 1), failure: Failure::Kind(kind) }
}

pub open spec fn starts_with(s: Seq<char>, i: int, lit: Seq<char>) -> bool {
    0 <= i && i + lit.len() <= s.len() && s.subrange(i, i + lit.len()) == lit
}

pub open spec fn at(s: Seq<char>, i: int, c: char) -> bool {
    0 <= i < s.len() && s[i] == c
}

pub open spec fn advances(s: Seq<char>, i: int, k: int) -> bool {
    i < k <= s.len()
}

/// The end of the run of whitespace that starts at `i`.
pub open spec fn ws_end(s: Seq<char>, i: int) -> int
    decreases s.len() - i,
{
    if 0 <= i < s.len() && whitespace(s[i]) {
        ws_end(s, i + 1)
    } else {
        i
    }
}

/// The end of the run of identifier characters that starts at `i`.
pub open spec fn word_end(s: Seq<char>, i: int) -> int
    decreases s.len() - i,
{
    if 0 <= i < s.len() && (alphanumeric(s[i]) || s[i] == '_') {
        word_end(s, i + 1)
    } else {
        i
    }
}

/// The end of the run of digits and underscores that starts at `i`.
pub open spec fn digits_end(s: Seq<char>, i: int) -> int
    decreases s.len() - i,
{
    if 0 <= i < s.len() && (is_digit(s[i]) || s[i] == '_') {
        digits_end(s, i + 1)
    } else {
        i
    }
}

/// The end of the run of `0` and `1` that starts at `i`.
pub open spec fn bits_end(s: Seq<char>, i: int) -> int
    decreases s.len() - i,
{
    if 0 <= i < s.len() && (s[i] == '0' || s[i] == '1') {
        bits_end(s, i + 1)
    } else {
        i
    }
}

/// The number that the decimal digits of `t` spell, other characters skipped.
pub open spec fn decimal_value(t: Seq<char>) -> nat
    decreases t.len(),
{
    if t.len() == 0 {
        0
    } else if is_digit(t.last()) {
        10 * decimal_value(t.drop_last()) + ((t.last() as u32) - ('0' as u32)) as nat
    } else {
        decimal_value(t.drop_last())
    }
}

pub open spec fn bits_of(t: Seq<char>) -> Seq<bool> {
    Seq::new(t.len(), |k: int| t[k] == '1')
}

pub open spec fn true_text() -> Seq<char> {
    seq!['t', 'r', 'u', 'e']
}

pub open spec fn false_text() -> Seq<char> {
    seq!['f', 'a', 'l', 's', 'e']
}

pub open spec fn bool_rule(s: Seq<char>, i: int) -> Step<PrimitiveModel> {
    if starts_with(s, i, true_text()) {
        Step::Done(PrimitiveModel::Bool(true), i + 4)
    } else if starts_with(s, i, false_text()) {
        Step::Done(PrimitiveModel::Bool(false), i + 5)
    } else {
        Step::NoMatch
    }
}

pub open spec fn char_rule(s: Seq<char>, i: int) -> Step<PrimitiveModel> {
    if !at(s, i, '\'') {
        Step::NoMatch
    } else if i + 1 >= s.len() {
        Step::Fail(err_one(s, i + 1, ParseErrorKind::Char(ParseCharError::ExpectedValidCharacter)))
    } else {
        let c = s[i + 1];
        let (ch, k) = if c == '\\' {
            if i + 2 >= s.len() {
                (None, i + 2)
            } else {
                (unescape_code(s[i + 2]), i + 3)
            }
        } else {
            (Some(c), i + 2)
        };
        match ch {
            None => Step::Fail(
                err_one(s, k, ParseErrorKind::Char(ParseCharError::ExpectedValidEscapeCode)),
            ),
            Some(ch) => if at(s, k, '\'') {
                Step::Done(PrimitiveModel::Char(ch), k + 1)
            } else {
                Step::Fail(
                    err_one(
                        s,
                        k,
                        ParseErrorKind::Char(
                            ParseCharError::ExpectedClosingQuoteToMatch(byte_at(s, i) as usize),
                        ),
                    ),
                )
            },
        }
    }
}

pub open spec fn prepend(c: char, r: Step<Seq<char>>) -> Step<Seq<char>> {
    match r {
        Step::Done(t, j) => Step::Done(seq![c] + t, j),
        other => other,
    }
}

/// The body of a string literal from `k` on, whose opening quote stands at `open`.
pub open spec fn string_body(s: Seq<char>, k: int, open: int) -> Step<Seq<char>>
    decreases s.len() - k,
{
    let unclosed = Step::Fail(
        err_one(
            s,
            s.len() as int,
            ParseErrorKind::String(ParseStringError::ExpectedClosingQuoteToMatch(
                byte_at(s, open) as usize,
            )),
        ),
    );
    if k < 0 || k >= s.len() {
        unclosed
    } else if s[k] == '\\' {
        if k + 1 >= s.len() {
            unclosed
        } else {
            match unescape_code(s[k + 1]) {
                None => Step::Fail(
                    err_one(s, k + 1, ParseErrorKind::String(ParseStringError::ExpectedValidEscapeCode)),
                ),
                Some(u) => prepend(u, string_body(s, k + 2, open)),
            }
        }
    } else if s[k] == '"' {
        Step::Done(seq![], k + 1)
    } else {
        prepend(s[k], string_body(s, k + 1, open))
    }
}

pub open spec fn string_rule(s: Seq<char>, i: int) -> Step<Seq<char>> {
    if !at(s, i, '"') {
        Step::NoMatch
    } else {
        string_body(s, i + 1, i)
    }
}

pub open spec fn number_rule(s: Seq<char>, i: int) -> Step<PrimitiveModel> {
    let plus = at(s, i, '+');
    let minus = !plus && at(s, i, '-');
    let k = if plus || minus { i + 1 } else { i };
    let j = if 0 <= k < s.len() && is_digit(s[k]) { digits_end(s, k + 1) } else { k };
    let v = decimal_value(s.subrange(k, j));
    if j == i {
        Step::NoMatch
    } else if j == k {
        Step::Fail(err_one(s, j, ParseErrorKind::Number(ParseNumberError::ExpectedDigit)))
    } else if !minus && v <= u128::MAX {
        Step::Done(PrimitiveModel::U128(v as u128), j)
    } else if minus && v <= 0x8000_0000_0000_0000_0000_0000_0000_0000 {
        Step::Done(PrimitiveModel::I128((-v) as i128), j)
    } else {
        Step::Fail(
            ErrorModel { start: byte_at(s, i), end: Some(byte_at(s, j)), failure: Failure::Overflow },
        )
    }
}

pub open spec fn bits_rule(s: Seq<char>, i: int) -> Step<Seq<bool>> {
    if !at(s, i, '<') {
        Step::NoMatch
    } else {
        let j = bits_end(s, i + 1);
        if at(s, j, '>') {
            Step::Done(bits_of(s.subrange(i + 1, j)), j + 1)
        } else {
            Step::Fail(
                err_one(
                    s,
                    j,
                    ParseErrorKind::BitSequence(
                        ParseBitSequenceError::ExpectedClosingBracketToMatch(byte_at(s, i) as usize),
                    ),
                ),
            )
        }
    }
}

pub open spec fn ident_rule(s: Seq<char>, i: int) -> Step<Seq<char>> {
    if 0 <= i < s.len() && alphabetic(s[i]) {
        let j = word_end(s, i + 1);
        Step::Done(s.subrange(i, j), j)
    } else {
        Step::Fail(
            err_one(s, i, ParseErrorKind::Complex(ParseComplexError::InvalidStartingCharacterInIdent)),
        )
    }
}

pub open spec fn field_name_rule(s: Seq<char>, i: int) -> Step<Seq<char>> {
    match string_rule(s, i) {
        Step::NoMatch => ident_rule(s, i),
        r => r,
    }
}

/// A variant's name: `v` and a string literal, else an identifier.
pub open spec fn variant_name_rule(s: Seq<char>, i: int) -> Option<(Seq<char>, int)> {
    let quoted = if at(s, i, 'v') {
        string_rule(s, i + 1)
    } else {
        Step::NoMatch
    };
    match quoted {
        Step::Done(n, j) => Some((n, j)),
        _ => match ident_rule(s, i) {
            Step::Done(n, j) => Some((n, j)),
            _ => None,
        },
    }
}

/// A separator with optional whitespace on either side: whether it was found, and
/// where reading goes on.
pub open spec fn separator(s: Seq<char>, i: int, c: char) -> (bool, int) {
    let j = ws_end(s, i);
    if at(s, j, c) {
        (true, ws_end(s, j + 1))
    } else {
        (false, j)
    }
}

pub open spec fn value_rule(s: Seq<char>, i: int) -> Step<Model>
    decreases s.len() - i, 2nat,
{
    match bool_rule(s, i) {
        Step::Done(p, j) => Step::Done(Model::Primitive(p), j),
        _ => match char_rule(s, i) {
            Step::Done(p, j) => Step::Done(Model::Primitive(p), j),
            Step::Fail(e) => Step::Fail(e),
            Step::NoMatch => match string_rule(s, i) {
                Step::Done(t, j) => Step::Done(Model::Primitive(PrimitiveModel::String(t)), j),
                Step::Fail(e) => Step::Fail(e),
                Step::NoMatch => match number_rule(s, i) {
                    Step::Done(p, j) => Step::Done(Model::Primitive(p), j),
                    Step::Fail(e) => Step::Fail(e),
                    Step::NoMatch => match named_rule(s, i) {
                        Step::Done(c, j) => Step::Done(Model::Composite(c), j),
                        Step::Fail(e) => Step::Fail(e),
                        Step::NoMatch => match unnamed_rule(s, i) {
                            Step::Done(c, j) => Step::Done(Model::Composite(c), j),
                            Step::Fail(e) => Step::Fail(e),
                            Step::NoMatch => match bits_rule(s, i) {
                                Step::Done(b, j) => Step::Done(Model::BitSequence(b), j),
                                Step::Fail(e) => Step::Fail(e),
                                Step::NoMatch => match variant_rule(s, i) {
                                    Step::Done(v, j) => Step::Done(v, j),
                                    Step::Fail(e) => Step::Fail(e),
                                    Step::NoMatch => Step::Fail(
                                        err_at(s, i, ParseErrorKind::ExpectedValue),
                                    ),
                                },
                            },
                        },
                    },
                },
            },
        },
    }
}

/// One `name: value` field.
pub open spec fn field_rule(s: Seq<char>, i: int) -> Step<(Seq<char>, Model)>
    decreases s.len() - i, 0nat,
{
    match field_name_rule(s, i) {
        Step::Done(name, j) => {
            let (found, k) = separator(s, j, ':');
            if !found {
                Step::Fail(
                    err_one(s, k, ParseErrorKind::Complex(ParseComplexError::MissingFieldSeparator(':'))),
                )
            } else if advances(s, i, k) {
                match value_rule(s, k) {
                    Step::Done(v, m) => Step::Done((name, v), m),
                    Step::Fail(e) => Step::Fail(e),
                    Step::NoMatch => Step::NoMatch,
                }
            } else {
                Step::NoMatch
            }
        },
        Step::Fail(e) => Step::Fail(e),
        Step::NoMatch => Step::NoMatch,
    }
}

/// Fields separated by commas, at least one.
pub open spec fn fields_rule(s: Seq<char>, i: int) -> Step<Seq<(Seq<char>, Model)>>
    decreases s.len() - i, 1nat,
{
    match field_rule(s, i) {
        Step::Done(f, j) => {
            let (found, k) = separator(s, j, ',');
            if !found {
                Step::Done(seq![f], j)
            } else if advances(s, i, k) {
                match fields_rule(s, k) {
                    Step::Done(fs, m) => Step::Done(seq![f] + fs, m),
                    Step::Fail(e) => Step::Fail(e),
                    Step::NoMatch => Step::NoMatch,
                }
            } else {
                Step::NoMatch
            }
        },
        Step::Fail(e) => Step::Fail(e),
        Step::NoMatch => Step::NoMatch,
    }
}

/// Values separated by commas, at least one.
pub open spec fn elems_rule(s: Seq<char>, i: int) -> Step<Seq<Model>>
    decreases s.len() - i, 3nat,
{
    match value_rule(s, i) {
        Step::Done(v, j) => {
            let (found, k) = separator(s, j, ',');
            if !found {
                Step::Done(seq![v], j)
            } else if advances(s, i, k) {
                match elems_rule(s, k) {
                    Step::Done(vs, m) => Step::Done(seq![v] + vs, m),
                    Step::Fail(e) => Step::Fail(e),
                    Step::NoMatch => Step::NoMatch,
                }
            } else {
                Step::NoMatch
            }
        },
        Step::Fail(e) => Step::Fail(e),
        Step::NoMatch => Step::NoMatch,
    }
}

pub open spec fn closer_missing(s: Seq<char>, open: int, k: int, closer: char) -> ErrorModel {
    err_one(
        s,
        k,
        ParseErrorKind::Complex(ParseComplexError::ExpectedCloserToMatch(closer, byte_at(s, open) as usize)),
    )
}

pub open spec fn named_rule(s: Seq<char>, i: int) -> Step<CompositeModel>
    decreases s.len() - i, 1nat,
{
    if !at(s, i, '{') {
        Step::NoMatch
    } else {
        let k = ws_end(s, i + 1);
        if at(s, k, '}') {
            Step::Done(CompositeModel::Named(seq![]), k + 1)
        } else if advances(s, i, k) {
            match fields_rule(s, k) {
                Step::Done(fs, j) => {
                    let m = ws_end(s, j);
                    if at(s, m, '}') {
                        Step::Done(CompositeModel::Named(fs), m + 1)
                    } else {
                        Step::Fail(closer_missing(s, i, m, '}'))
                    }
                },
                Step::Fail(e) => Step::Fail(e),
                Step::NoMatch => Step::NoMatch,
            }
        } else {
            Step::NoMatch
        }
    }
}

pub open spec fn unnamed_rule(s: Seq<char>, i: int) -> Step<CompositeModel>
    decreases s.len() - i, 1nat,
{
    if !at(s, i, '(') {
        Step::NoMatch
    } else {
        let k = ws_end(s, i + 1);
        if at(s, k, ')') {
            Step::Done(CompositeModel::Unnamed(seq![]), k + 1)
        } else if advances(s, i, k) {
            match elems_rule(s, k) {
                Step::Done(vs, j) => {
                    let m = ws_end(s, j);
                    if at(s, m, ')') {
                        Step::Done(CompositeModel::Unnamed(vs), m + 1)
                    } else {
                        Step::Fail(closer_missing(s, i, m, ')'))
                    }
                },
                Step::Fail(e) => Step::Fail(e),
                Step::NoMatch => Step::NoMatch,
            }
        } else {
            Step::NoMatch
        }
    }
}

pub open spec fn variant_rule(s: Seq<char>, i: int) -> Step<Model>
    decreases s.len() - i, 1nat,
{
    match variant_name_rule(s, i) {
        None => Step::NoMatch,
        Some((name, j)) => {
            let k = ws_end(s, j);
            if advances(s, i, k) {
                match named_rule(s, k) {
                    Step::Done(c, m) => Step::Done(Model::Variant(name, c), m),
                    Step::Fail(e) => Step::Fail(e),
                    Step::NoMatch => match unnamed_rule(s, k) {
                        Step::Done(c, m) => Step::Done(Model::Variant(name, c), m),
                        Step::Fail(e) => Step::Fail(e),
                        Step::NoMatch => Step::NoMatch,
                    },
                }
            } else {
                Step::NoMatch
            }
        },
    }
}

} // verus!
