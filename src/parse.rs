use vstd::prelude::*;
use vstd::string::*;
use crate::chars::{
    byte_offset, from_escape_code, is_alphabetic, is_alphanumeric, is_digit,
    is_whitespace, lemma_byte_at_bounded, push_char, utf8_byte_len, utf8_len,
};
use crate::error::{
    ParseBitSequenceError, ParseCharError, ParseComplexError, ParseError, ParseErrorKind,
    ParseNumberError, ParseStringError,
};
use crate::grammar::{
    bits_end, bits_of, bits_rule, bool_rule, char_rule, decimal_value, digits_end, elems_rule,
    err_at, err_one, field_name_rule, field_rule, fields_rule, ident_rule, named_rule, prepend,
    separator, starts_with, string_body, string_rule, unnamed_rule, value_rule, variant_name_rule,
    variant_rule, word_end, ws_end, at, number_rule, Step,
};
use crate::value::{
    composite_model, named_models, primitive_model, unnamed_models, Composite, Model, Primitive, PrimitiveModel, Value, Variant,
};

verus! {

/// Whether an executable parse result is what the grammar gives, the read value seen
/// through `f`.
pub open spec fn agrees<A, B>(
    r: Result<(A, usize), Option<ParseError>>,
    m: Step<B>,
    f: spec_fn(A) -> B,
) -> bool {
    match m {
        Step::NoMatch => r matches Err(None),
        Step::Fail(e) => r matches Err(Some(pe)) && pe.reports(e),
        Step::Done(b, j) => r matches Ok((a, k)) && f(a) == b && k == j,
    }
}

pub open spec fn moves_on<A>(r: Result<(A, usize), Option<ParseError>>, s: Seq<char>, i: int) -> bool {
    r matches Ok((_, j)) ==> i < j <= s.len()
}

pub open spec fn well_sized(s: Seq<char>) -> bool {
    utf8_len(s) < usize::MAX && s.len() < usize::MAX
}

/// Relies on u128's `FromStr`: a string of decimal digits gives its value, or an error
/// when the value does not fit.
#[verifier::external_body]
fn parse_u128(t: &str) -> (r: Result<u128, std::num::ParseIntError>)
    requires
        t@.len() > 0,
        forall|k: int| 0 <= k < t@.len() ==> is_digit(#[trigger] t@[k]),
    ensures
        match r {
            Ok(n) => n == decimal_value(t@),
            Err(_) => decimal_value(t@) > u128::MAX,
        },
{
    t.parse::<u128>()
}

/// Relies on i128's `FromStr`: a minus sign and decimal digits give the negated value,
/// or an error when it does not fit.
#[verifier::external_body]
fn parse_i128(t: &str) -> (r: Result<i128, std::num::ParseIntError>)
    requires
        t@.len() > 1,
        t@[0] == '-',
        forall|k: int| 1 <= k < t@.len() ==> is_digit(#[trigger] t@[k]),
    ensures
        match r {
            Ok(n) => n == -decimal_value(t@),
            Err(_) => decimal_value(t@) > 0x8000_0000_0000_0000_0000_0000_0000_0000,
        },
{
    t.parse::<i128>()
}

fn error_at(s: &Vec<char>, i: usize, kind: ParseErrorKind) -> (r: ParseError)
    requires
        i <= s@.len(),
        well_sized(s@),
    ensures
        r.reports(err_at(s@, i as int, kind)),
{
    ParseError::new_at(kind, byte_offset(s, i))
}

fn error_one(s: &Vec<char>, i: usize, kind: ParseErrorKind) -> (r: ParseError)
    requires
        i <= s@.len(),
        well_sized(s@),
    ensures
        r.reports(err_one(s@, i as int, kind)),
{
    proof {
        lemma_byte_at_bounded(s@, i as int);
    }
    let b = byte_offset(s, i);
    ParseError::new_between(kind, b, b + 1)
}

fn char_at(s: &Vec<char>, i: usize, c: char) -> (r: bool)
    ensures
        r == at(s@, i as int, c),
{
    i < s.len() && s[i] == c
}

proof fn lemma_starts_with(s: Seq<char>, i: int, lit: Seq<char>, k: int)
    requires
        starts_with(s, i, lit),
        0 <= k < lit.len(),
    ensures
        s[i + k] == lit[k],
{
    assert(s.subrange(i, i + lit.len())[k] == s[i + k]);
}

fn parse_bool(s: &Vec<char>, i: usize) -> (r: Option<(bool, usize)>)
    requires
        i <= s@.len(),
        well_sized(s@),
    ensures
        match bool_rule(s@, i as int) {
            Step::Done(p, j) => r matches Some((b, k)) && p == PrimitiveModel::Bool(b) && k == j,
            _ => r is None,
        },
        r matches Some((_, j)) ==> i < j <= s@.len(),
{
    let ghost t = seq!['t', 'r', 'u', 'e'];
    let ghost f = seq!['f', 'a', 'l', 's', 'e'];
    if char_at(s, i, 't') && char_at(s, i + 1, 'r') && char_at(s, i + 2, 'u') && char_at(
        s,
        i + 3,
        'e',
    ) {
        proof {
            assert(s@.subrange(i as int, i + 4) =~= t);
        }
        return Some((true, i + 4));
    }
    proof {
        if starts_with(s@, i as int, t) {
            lemma_starts_with(s@, i as int, t, 0);
            lemma_starts_with(s@, i as int, t, 1);
            lemma_starts_with(s@, i as int, t, 2);
            lemma_starts_with(s@, i as int, t, 3);
        }
    }
    if char_at(s, i, 'f') && char_at(s, i + 1, 'a') && char_at(s, i + 2, 'l') && char_at(
        s,
        i + 3,
        's',
    ) && char_at(s, i + 4, 'e') {
        proof {
            assert(s@.subrange(i as int, i + 5) =~= f);
        }
        return Some((false, i + 5));
    }
    proof {
        if starts_with(s@, i as int, f) {
            lemma_starts_with(s@, i as int, f, 0);
            lemma_starts_with(s@, i as int, f, 1);
            lemma_starts_with(s@, i as int, f, 2);
            lemma_starts_with(s@, i as int, f, 3);
            lemma_starts_with(s@, i as int, f, 4);
        }
    }
    None
}

fn parse_char(s: &Vec<char>, i: usize) -> (r: Result<(char, usize), Option<ParseError>>)
    requires
        i <= s@.len(),
        well_sized(s@),
    ensures
        agrees(r, char_rule(s@, i as int), |c: char| PrimitiveModel::Char(c)),
        moves_on(r, s@, i as int),
{
    if !char_at(s, i, '\'') {
        return Err(None);
    }
    if i + 1 >= s.len() {
        return Err(
            Some(error_one(s, i + 1, ParseErrorKind::Char(ParseCharError::ExpectedValidCharacter))),
        );
    }
    let c = s[i + 1];
    let mut ch = c;
    let mut k = i + 2;
    if c == '\\' {
        if i + 2 >= s.len() {
            return Err(
                Some(error_one(s, i + 2, ParseErrorKind::Char(ParseCharError::ExpectedValidEscapeCode))),
            );
        }
        match from_escape_code(s[i + 2]) {
            None => {
                return Err(
                    Some(
                        error_one(
                            s,
                            i + 3,
                            ParseErrorKind::Char(ParseCharError::ExpectedValidEscapeCode),
                        ),
                    ),
                );
            },
            Some(u) => {
                ch = u;
                k = i + 3;
            },
        }
    }
    if char_at(s, k, '\'') {
        Ok((ch, k + 1))
    } else {
        let open = byte_offset(s, i);
        Err(
            Some(
                error_one(
                    s,
                    k,
                    ParseErrorKind::Char(ParseCharError::ExpectedClosingQuoteToMatch(open)),
                ),
            ),
        )
    }
}

/// A string read so far, in front of what the rest of the literal gives.
pub open spec fn after(p: Seq<char>, r: Step<Seq<char>>) -> Step<Seq<char>> {
    match r {
        Step::Done(t, j) => Step::Done(p + t, j),
        other => other,
    }
}

proof fn lemma_after_prepend(p: Seq<char>, c: char, r: Step<Seq<char>>)
    ensures
        after(p, prepend(c, r)) == after(p.push(c), r),
{
    if let Step::Done(t, j) = r {
        assert(p + (seq![c] + t) =~= p.push(c) + t);
    }
}

fn parse_string(s: &Vec<char>, i: usize) -> (r: Result<(String, usize), Option<ParseError>>)
    requires
        i <= s@.len(),
        well_sized(s@),
    ensures
        agrees(r, string_rule(s@, i as int), |t: String| t@),
        moves_on(r, s@, i as int),
{
    if !char_at(s, i, '"') {
        return Err(None);
    }
    let mut out = String::new();
    let mut k = i + 1;
    proof {
        assert(after(out@, string_body(s@, k as int, i as int)) == string_body(
            s@,
            k as int,
            i as int,
        )) by {
            if let Step::Done(t, j) = string_body(s@, k as int, i as int) {
                assert(out@ + t =~= t);
            }
        }
    }
    loop
        invariant
            i < k <= s@.len(),
            well_sized(s@),
            string_rule(s@, i as int) == after(out@, string_body(s@, k as int, i as int)),
        decreases s@.len() - k,
    {
        if k >= s.len() {
            let open = byte_offset(s, i);
            return Err(
                Some(
                    error_one(
                        s,
                        s.len(),
                        ParseErrorKind::String(ParseStringError::ExpectedClosingQuoteToMatch(open)),
                    ),
                ),
            );
        }
        let c = s[k];
        if c == '\\' {
            if k + 1 >= s.len() {
                let open = byte_offset(s, i);
                return Err(
                    Some(
                        error_one(
                            s,
                            s.len(),
                            ParseErrorKind::String(
                                ParseStringError::ExpectedClosingQuoteToMatch(open),
                            ),
                        ),
                    ),
                );
            }
            match from_escape_code(s[k + 1]) {
                None => {
                    return Err(
                        Some(
                            error_one(
                                s,
                                k + 1,
                                ParseErrorKind::String(ParseStringError::ExpectedValidEscapeCode),
                            ),
                        ),
                    );
                },
                Some(u) => {
                    proof {
                        lemma_after_prepend(out@, u, string_body(s@, k + 2, i as int));
                    }
                    push_char(&mut out, u);
                    k = k + 2;
                },
            }
        } else if c == '"' {
            proof {
                assert(out@ + seq![] =~= out@);
            }
            return Ok((out, k + 1));
        } else {
            proof {
                lemma_after_prepend(out@, c, string_body(s@, k + 1, i as int));
            }
            push_char(&mut out, c);
            k = k + 1;
        }
    }
}

fn parse_number(s: &Vec<char>, i: usize) -> (r: Result<(Primitive, usize), Option<ParseError>>)
    requires
        i <= s@.len(),
        well_sized(s@),
    ensures
        agrees(r, number_rule(s@, i as int), |p: Primitive| primitive_model(p)),
        moves_on(r, s@, i as int),
{
    let plus = char_at(s, i, '+');
    let minus = !plus && char_at(s, i, '-');
    let k = if plus || minus {
        i + 1
    } else {
        i
    };
    let mut digits = String::new();
    if minus {
        push_char(&mut digits, '-');
    }
    let mut j = k;
    if k < s.len() && '0' <= s[k] && s[k] <= '9' {
        let ghost prev = digits@;
        proof {
            assert(s@.subrange(k as int, k + 1).drop_last() =~= s@.subrange(k as int, k as int));
            assert(decimal_value(s@.subrange(k as int, k as int)) == 0);
            if minus {
                assert(prev.drop_last() =~= Seq::<char>::empty());
                assert(decimal_value(prev.drop_last()) == 0);
                assert(!is_digit(prev.last()));
            } else {
                assert(digits@ =~= Seq::<char>::empty());
            }
            assert(decimal_value(prev) == 0);
        }
        push_char(&mut digits, s[k]);
        proof {
            assert(digits@.drop_last() =~= prev);
        }
        j = k + 1;
        while j < s.len() && (('0' <= s[j] && s[j] <= '9') || s[j] == '_')
            invariant
                k < j <= s@.len(),
                digits_end(s@, k + 1) == digits_end(s@, j as int),
                decimal_value(digits@) == decimal_value(s@.subrange(k as int, j as int)),
                digits@.len() >= (if minus { 2int } else { 1int }),
                minus ==> digits@[0] == '-',
                forall|m: int|
                    (if minus { 1int } else { 0int }) <= m < digits@.len() ==> is_digit(
                        #[trigger] digits@[m],
                    ),
            decreases s@.len() - j,
        {
            let c = s[j];
            proof {
                assert(s@.subrange(k as int, j + 1).drop_last() =~= s@.subrange(
                    k as int,
                    j as int,
                ));
                assert(digits@.push(c).drop_last() =~= digits@);
            }
            if c != '_' {
                push_char(&mut digits, c);
            }
            j = j + 1;
        }
    }
    if j == i {
        return Err(None);
    }
    if j == k {
        return Err(Some(error_one(s, j, ParseErrorKind::Number(ParseNumberError::ExpectedDigit))));
    }
    if !minus {
        match parse_u128(digits.as_str()) {
            Ok(n) => Ok((Primitive::U128(n), j)),
            Err(e) => {
                let start = byte_offset(s, i);
                let end = byte_offset(s, j);
                Err(
                    Some(
                        ParseError::new_between(
                            ParseErrorKind::Number(ParseNumberError::ParsingFailed(e)),
                            start,
                            end,
                        ),
                    ),
                )
            },
        }
    } else {
        match parse_i128(digits.as_str()) {
            Ok(n) => Ok((Primitive::I128(n), j)),
            Err(e) => {
                let start = byte_offset(s, i);
                let end = byte_offset(s, j);
                Err(
                    Some(
                        ParseError::new_between(
                            ParseErrorKind::Number(ParseNumberError::ParsingFailed(e)),
                            start,
                            end,
                        ),
                    ),
                )
            },
        }
    }
}

fn parse_bit_sequence(s: &Vec<char>, i: usize) -> (r: Result<(Vec<bool>, usize), Option<ParseError>>)
    requires
        i <= s@.len(),
        well_sized(s@),
    ensures
        agrees(r, bits_rule(s@, i as int), |b: Vec<bool>| b@),
        moves_on(r, s@, i as int),
{
    if !char_at(s, i, '<') {
        return Err(None);
    }
    let mut bits: Vec<bool> = Vec::new();
    let mut j = i + 1;
    proof {
        assert(bits@ =~= bits_of(s@.subrange(i + 1, j as int)));
    }
    while j < s.len() && (s[j] == '0' || s[j] == '1')
        invariant
            i < j <= s@.len(),
            bits_end(s@, i + 1) == bits_end(s@, j as int),
            bits@ =~= bits_of(s@.subrange(i + 1, j as int)),
        decreases s@.len() - j,
    {
        bits.push(s[j] == '1');
        j = j + 1;
        proof {
            assert(bits@ =~= bits_of(s@.subrange(i + 1, j as int)));
        }
    }
    if char_at(s, j, '>') {
        Ok((bits, j + 1))
    } else {
        let open = byte_offset(s, i);
        Err(
            Some(
                error_one(
                    s,
                    j,
                    ParseErrorKind::BitSequence(
                        ParseBitSequenceError::ExpectedClosingBracketToMatch(open),
                    ),
                ),
            ),
        )
    }
}

fn parse_ident(s: &Vec<char>, i: usize) -> (r: Result<(String, usize), Option<ParseError>>)
    requires
        i <= s@.len(),
        well_sized(s@),
    ensures
        agrees(r, ident_rule(s@, i as int), |t: String| t@),
        moves_on(r, s@, i as int),
{
    if !(i < s.len() && is_alphabetic(s[i])) {
        return Err(
            Some(
                error_one(
                    s,
                    i,
                    ParseErrorKind::Complex(ParseComplexError::InvalidStartingCharacterInIdent),
                ),
            ),
        );
    }
    let mut out = String::new();
    push_char(&mut out, s[i]);
    let mut j = i + 1;
    proof {
        assert(out@ =~= s@.subrange(i as int, j as int));
    }
    while j < s.len() && (is_alphanumeric(s[j]) || s[j] == '_')
        invariant
            i < j <= s@.len(),
            word_end(s@, i + 1) == word_end(s@, j as int),
            out@ =~= s@.subrange(i as int, j as int),
        decreases s@.len() - j,
    {
        push_char(&mut out, s[j]);
        j = j + 1;
        proof {
            assert(out@ =~= s@.subrange(i as int, j as int));
        }
    }
    Ok((out, j))
}

fn parse_field_name(s: &Vec<char>, i: usize) -> (r: Result<(String, usize), Option<ParseError>>)
    requires
        i <= s@.len(),
        well_sized(s@),
    ensures
        agrees(r, field_name_rule(s@, i as int), |t: String| t@),
        moves_on(r, s@, i as int),
{
    match parse_string(s, i) {
        Err(None) => parse_ident(s, i),
        r => r,
    }
}

fn parse_optional_variant_ident(s: &Vec<char>, i: usize) -> (r: Option<(String, usize)>)
    requires
        i <= s@.len(),
        well_sized(s@),
    ensures
        match variant_name_rule(s@, i as int) {
            Some((n, j)) => r matches Some((t, k)) && t@ == n && k == j && i < k <= s@.len(),
            None => r is None,
        },
{
    if char_at(s, i, 'v') {
        if let Ok((name, j)) = parse_string(s, i + 1) {
            return Some((name, j));
        }
    }
    match parse_ident(s, i) {
        Ok((name, j)) => Some((name, j)),
        Err(_) => None,
    }
}

fn skip_whitespace(s: &Vec<char>, i: usize) -> (j: usize)
    requires
        i <= s@.len(),
    ensures
        j == ws_end(s@, i as int),
        i <= j <= s@.len(),
{
    let mut j = i;
    while j < s.len() && is_whitespace(s[j])
        invariant
            i <= j <= s@.len(),
            ws_end(s@, i as int) == ws_end(s@, j as int),
        decreases s@.len() - j,
    {
        j = j + 1;
    }
    j
}

fn skip_spaced_separator(s: &Vec<char>, i: usize, c: char) -> (r: (bool, usize))
    requires
        i <= s@.len(),
        well_sized(s@),
    ensures
        (r.0, r.1 as int) == separator(s@, i as int, c),
        i <= r.1 <= s@.len(),
        r.0 ==> i < r.1,
{
    let j = skip_whitespace(s, i);
    if char_at(s, j, c) {
        (true, skip_whitespace(s, j + 1))
    } else {
        (false, j)
    }
}

pub open spec fn field_model(f: (String, Value<()>)) -> (Seq<char>, Model) {
    (f.0@, f.1.model())
}

/// Fields read so far, in front of what the rest of the list gives.
pub open spec fn fields_after(
    p: Seq<(Seq<char>, Model)>,
    r: Step<Seq<(Seq<char>, Model)>>,
) -> Step<Seq<(Seq<char>, Model)>> {
    match r {
        Step::Done(t, j) => Step::Done(p + t, j),
        other => other,
    }
}

pub open spec fn elems_after(p: Seq<Model>, r: Step<Seq<Model>>) -> Step<Seq<Model>> {
    match r {
        Step::Done(t, j) => Step::Done(p + t, j),
        other => other,
    }
}

fn parse_field_name_and_value(s: &Vec<char>, i: usize) -> (r: Result<
    ((String, Value<()>), usize),
    Option<ParseError>,
>)
    requires
        i <= s@.len(),
        well_sized(s@),
    ensures
        agrees(r, field_rule(s@, i as int), |f: (String, Value<()>)| field_model(f)),
        moves_on(r, s@, i as int),
    decreases s@.len() - i, 0nat,
{
    let (name, j) = match parse_field_name(s, i) {
        Ok(x) => x,
        Err(e) => {
            return Err(e);
        },
    };
    let (found, k) = skip_spaced_separator(s, j, ':');
    if !found {
        return Err(
            Some(
                error_one(
                    s,
                    k,
                    ParseErrorKind::Complex(ParseComplexError::MissingFieldSeparator(':')),
                ),
            ),
        );
    }
    match parse_value(s, k) {
        Ok((v, m)) => Ok(((name, v), m)),
        Err(e) => Err(e),
    }
}

fn parse_fields(s: &Vec<char>, i: usize) -> (r: Result<
    (Vec<(String, Value<()>)>, usize),
    Option<ParseError>,
>)
    requires
        i <= s@.len(),
        well_sized(s@),
    ensures
        agrees(r, fields_rule(s@, i as int), |v: Vec<(String, Value<()>)>| named_models(v@)),
        moves_on(r, s@, i as int),
    decreases s@.len() - i, 1nat,
{
    let mut vals: Vec<(String, Value<()>)> = Vec::new();
    let mut k = i;
    proof {
        assert(fields_after(named_models(vals@), fields_rule(s@, i as int)) == fields_rule(
            s@,
            i as int,
        )) by {
            if let Step::Done(t, j) = fields_rule(s@, i as int) {
                assert(named_models(vals@) + t =~= t);
            }
        }
    }
    loop
        invariant
            i <= k <= s@.len(),
            well_sized(s@),
            fields_rule(s@, i as int) == fields_after(
                named_models(vals@),
                fields_rule(s@, k as int),
            ),
        decreases s@.len() - k,
    {
        let (f, j) = match parse_field_name_and_value(s, k) {
            Ok(x) => x,
            Err(e) => {
                return Err(e);
            },
        };
        let ghost fm = field_model(f);
        let ghost prev = vals@;
        let ghost before = named_models(vals@);
        vals.push(f);
        proof {
            assert(vals@.drop_last() =~= prev);
        }
        let (found, next) = skip_spaced_separator(s, j, ',');
        if !found {
            proof {
                assert(before + seq![fm] =~= named_models(vals@));
            }
            return Ok((vals, j));
        }
        proof {
            let rest = fields_rule(s@, next as int);
            if let Step::Done(t, m) = rest {
                assert(before + (seq![fm] + t) =~= named_models(vals@) + t);
            }
        }
        k = next;
    }
}

fn parse_elems(s: &Vec<char>, i: usize) -> (r: Result<(Vec<Value<()>>, usize), Option<ParseError>>)
    requires
        i <= s@.len(),
        well_sized(s@),
    ensures
        agrees(r, elems_rule(s@, i as int), |v: Vec<Value<()>>| unnamed_models(v@)),
        moves_on(r, s@, i as int),
    decreases s@.len() - i, 3nat,
{
    let mut vals: Vec<Value<()>> = Vec::new();
    let mut k = i;
    proof {
        assert(elems_after(unnamed_models(vals@), elems_rule(s@, i as int)) == elems_rule(
            s@,
            i as int,
        )) by {
            if let Step::Done(t, j) = elems_rule(s@, i as int) {
                assert(unnamed_models(vals@) + t =~= t);
            }
        }
    }
    loop
        invariant
            i <= k <= s@.len(),
            well_sized(s@),
            elems_rule(s@, i as int) == elems_after(
                unnamed_models(vals@),
                elems_rule(s@, k as int),
            ),
        decreases s@.len() - k,
    {
        let (v, j) = match parse_value(s, k) {
            Ok(x) => x,
            Err(e) => {
                return Err(e);
            },
        };
        let ghost vm = v.model();
        let ghost prev = vals@;
        let ghost before = unnamed_models(vals@);
        vals.push(v);
        proof {
            assert(vals@.drop_last() =~= prev);
        }
        let (found, next) = skip_spaced_separator(s, j, ',');
        if !found {
            proof {
                assert(before + seq![vm] =~= unnamed_models(vals@));
            }
            return Ok((vals, j));
        }
        proof {
            let rest = elems_rule(s@, next as int);
            if let Step::Done(t, m) = rest {
                assert(before + (seq![vm] + t) =~= unnamed_models(vals@) + t);
            }
        }
        k = next;
    }
}

fn parse_named_composite(s: &Vec<char>, i: usize) -> (r: Result<(Composite<()>, usize), Option<ParseError>>)
    requires
        i <= s@.len(),
        well_sized(s@),
    ensures
        agrees(r, named_rule(s@, i as int), |c: Composite<()>| composite_model(c)),
        moves_on(r, s@, i as int),
    decreases s@.len() - i, 1nat,
{
    if !char_at(s, i, '{') {
        return Err(None);
    }
    let k = skip_whitespace(s, i + 1);
    if char_at(s, k, '}') {
        let vals: Vec<(String, Value<()>)> = Vec::new();
        proof {
            assert(named_models(vals@) =~= seq![]);
        }
        return Ok((Composite::Named(vals), k + 1));
    }
    let (vals, j) = match parse_fields(s, k) {
        Ok(x) => x,
        Err(e) => {
            return Err(e);
        },
    };
    let m = skip_whitespace(s, j);
    if char_at(s, m, '}') {
        Ok((Composite::Named(vals), m + 1))
    } else {
        let open = byte_offset(s, i);
        Err(
            Some(
                error_one(
                    s,
                    m,
                    ParseErrorKind::Complex(ParseComplexError::ExpectedCloserToMatch('}', open)),
                ),
            ),
        )
    }
}

fn parse_unnamed_composite(s: &Vec<char>, i: usize) -> (r: Result<(Composite<()>, usize), Option<ParseError>>)
    requires
        i <= s@.len(),
        well_sized(s@),
    ensures
        agrees(r, unnamed_rule(s@, i as int), |c: Composite<()>| composite_model(c)),
        moves_on(r, s@, i as int),
    decreases s@.len() - i, 1nat,
{
    if !char_at(s, i, '(') {
        return Err(None);
    }
    let k = skip_whitespace(s, i + 1);
    if char_at(s, k, ')') {
        let vals: Vec<Value<()>> = Vec::new();
        proof {
            assert(unnamed_models(vals@) =~= seq![]);
        }
        return Ok((Composite::Unnamed(vals), k + 1));
    }
    let (vals, j) = match parse_elems(s, k) {
        Ok(x) => x,
        Err(e) => {
            return Err(e);
        },
    };
    let m = skip_whitespace(s, j);
    if char_at(s, m, ')') {
        Ok((Composite::Unnamed(vals), m + 1))
    } else {
        let open = byte_offset(s, i);
        Err(
            Some(
                error_one(
                    s,
                    m,
                    ParseErrorKind::Complex(ParseComplexError::ExpectedCloserToMatch(')', open)),
                ),
            ),
        )
    }
}

fn parse_variant(s: &Vec<char>, i: usize) -> (r: Result<(Value<()>, usize), Option<ParseError>>)
    requires
        i <= s@.len(),
        well_sized(s@),
    ensures
        agrees(r, variant_rule(s@, i as int), |v: Value<()>| v.model()),
        moves_on(r, s@, i as int),
    decreases s@.len() - i, 1nat,
{
    let (name, j) = match parse_optional_variant_ident(s, i) {
        Some(x) => x,
        None => {
            return Err(None);
        },
    };
    let k = skip_whitespace(s, j);
    let values = match parse_named_composite(s, k) {
        Ok((c, m)) => (c, m),
        Err(Some(e)) => {
            return Err(Some(e));
        },
        Err(None) => match parse_unnamed_composite(s, k) {
            Ok((c, m)) => (c, m),
            Err(e) => {
                return Err(e);
            },
        },
    };
    Ok((Value::variant(Variant { name, values: values.0 }), values.1))
}

fn parse_value(s: &Vec<char>, i: usize) -> (r: Result<(Value<()>, usize), Option<ParseError>>)
    requires
        i <= s@.len(),
        well_sized(s@),
    ensures
        agrees(r, value_rule(s@, i as int), |v: Value<()>| v.model()),
        moves_on(r, s@, i as int),
    decreases s@.len() - i, 2nat,
{
    if let Some((b, j)) = parse_bool(s, i) {
        return Ok((Value::bool(b), j));
    }
    match parse_char(s, i) {
        Ok((c, j)) => {
            return Ok((Value::char(c), j));
        },
        Err(Some(e)) => {
            return Err(Some(e));
        },
        Err(None) => {},
    }
    match parse_string(s, i) {
        Ok((t, j)) => {
            return Ok((Value::primitive(Primitive::String(t)), j));
        },
        Err(Some(e)) => {
            return Err(Some(e));
        },
        Err(None) => {},
    }
    match parse_number(s, i) {
        Ok((p, j)) => {
            return Ok((Value::primitive(p), j));
        },
        Err(Some(e)) => {
            return Err(Some(e));
        },
        Err(None) => {},
    }
    match parse_named_composite(s, i) {
        Ok((c, j)) => {
            return Ok((Value::composite(c), j));
        },
        Err(Some(e)) => {
            return Err(Some(e));
        },
        Err(None) => {},
    }
    match parse_unnamed_composite(s, i) {
        Ok((c, j)) => {
            return Ok((Value::composite(c), j));
        },
        Err(Some(e)) => {
            return Err(Some(e));
        },
        Err(None) => {},
    }
    match parse_bit_sequence(s, i) {
        Ok((b, j)) => {
            return Ok((Value::bit_sequence(b), j));
        },
        Err(Some(e)) => {
            return Err(Some(e));
        },
        Err(None) => {},
    }
    match parse_variant(s, i) {
        Ok((v, j)) => {
            return Ok((v, j));
        },
        Err(Some(e)) => {
            return Err(Some(e));
        },
        Err(None) => {},
    }
    Err(Some(error_at(s, i, ParseErrorKind::ExpectedValue)))
}

proof fn lemma_utf8_len_at_least(s: Seq<char>)
    ensures
        utf8_len(s) >= s.len(),
    decreases s.len(),
{
    if s.len() > 0 {
        lemma_utf8_len_at_least(s.drop_last());
    }
}

fn to_chars(s: &str) -> (r: Vec<char>)
    ensures
        r@ == s@,
{
    let n = s.unicode_len();
    let mut out: Vec<char> = Vec::new();
    let mut k: usize = 0;
    while k < n
        invariant
            n == s@.len(),
            k <= n,
            out@ =~= s@.subrange(0, k as int),
        decreases n - k,
    {
        out.push(s.get_char(k));
        k = k + 1;
        proof {
            assert(out@ =~= s@.subrange(0, k as int));
        }
    }
    proof {
        assert(out@ =~= s@);
    }
    out
}

/// Parses a value from the start of `s`, and hands back what follows it. When parsing
/// fails the whole of `s` is handed back. Parsing recurses once per level of nesting,
/// so deeply nested text uses stack in proportion.
pub fn from_str(s: &str) -> (r: (Result<Value<()>, ParseError>, &str))
    ensures
        match value_rule(s@, 0) {
            Step::Done(m, j) => r.0 matches Ok(v) && v.model() == m && r.1@ == s@.subrange(
                j,
                s@.len() as int,
            ),
            Step::Fail(e) => r.0 matches Err(pe) && pe.reports(e) && r.1@ == s@,
            Step::NoMatch => false,
        },
{
    let bytes = utf8_byte_len(s);
    let chars = to_chars(s);
    proof {
        lemma_utf8_len_at_least(s@);
    }
    match parse_value(&chars, 0) {
        Ok((v, j)) => (Ok(v), s.substring_char(j, chars.len())),
        Err(Some(e)) => (Err(e), s),
        Err(None) => (Err(ParseError::new_at(ParseErrorKind::ExpectedValue, 0)), s),
    }
}

} // verus!
