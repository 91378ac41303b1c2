use vstd::prelude::*;
use vstd::string::*;
use crate::chars::{
    alphabetic, alphanumeric, escape_code, is_alphabetic, is_alphanumeric, push_char,
    to_escape_code,
};
use crate::grammar::{false_text, starts_with, true_text};
use crate::value::{
    composite_model, named_models, unnamed_models, value_model, Composite, CompositeModel, Model,
    Primitive, PrimitiveModel, Value, ValueDef, Variant,
};

verus! {

broadcast use vstd::std_specs::vec::axiom_vec_decreases_to_view,
    vstd::std_specs::vec::axiom_vec_index_decreases,
    vstd::seq::axiom_seq_index_decreases,
    vstd::seq::axiom_seq_subrange_decreases;

/// The value holds a 256-bit integer, which has no text form.
#[derive(Debug, Clone, Copy, PartialEq, Eq)]
pub struct UnsupportedPrimitiveError;

/// A character as it stands inside a quoted literal.
pub open spec fn escaped(c: char) -> Seq<char> {
    match escape_code(c) {
        Some(e) => seq!['\\', e],
        None => seq![c],
    }
}

pub open spec fn escape_all(t: Seq<char>) -> Seq<char>
    decreases t.len(),
{
    if t.len() == 0 {
        seq![]
    } else {
        escape_all(t.drop_last()) + escaped(t.last())
    }
}

pub open spec fn string_text(t: Seq<char>) -> Seq<char> {
    seq!['"'] + escape_all(t) + seq!['"']
}

pub open spec fn char_text(c: char) -> Seq<char> {
    seq!['\''] + escaped(c) + seq!['\'']
}

/// A name that reads as an identifier: alphabetic first, then alphanumeric or `_`.
pub open spec fn ident_like(t: Seq<char>) -> bool {
    &&& t.len() > 0
    &&& alphabetic(t[0])
    &&& forall|k: int| 1 <= k < t.len() ==> alphanumeric(#[trigger] t[k]) || t[k] == '_'
}

pub open spec fn field_name_text(t: Seq<char>) -> Seq<char> {
    if ident_like(t) {
        t
    } else {
        string_text(t)
    }
}

/// A variant name that can be written bare: it reads as an identifier, and it does not
/// start with `true` or `false`, which would read as a boolean.
pub open spec fn bare_variant_name(t: Seq<char>) -> bool {
    ident_like(t) && !starts_with(t, 0, true_text()) && !starts_with(t, 0, false_text())
}

pub open spec fn variant_name_text(t: Seq<char>) -> Seq<char> {
    if bare_variant_name(t) {
        t
    } else {
        seq!['v'] + string_text(t)
    }
}

pub open spec fn digit_char(d: nat) -> char {
    if d == 0 {
        '0'
    } else if d == 1 {
        '1'
    } else if d == 2 {
        '2'
    } else if d == 3 {
        '3'
    } else if d == 4 {
        '4'
    } else if d == 5 {
        '5'
    } else if d == 6 {
        '6'
    } else if d == 7 {
        '7'
    } else if d == 8 {
        '8'
    } else {
        '9'
    }
}

/// The decimal digits of `n`, without separators.
pub open spec fn decimal_text(n: nat) -> Seq<char>
    decreases n,
{
    if n < 10 {
        seq![digit_char(n)]
    } else {
        decimal_text(n / 10).push(digit_char(n % 10))
    }
}

pub open spec fn signed_text(n: int) -> Seq<char> {
    if n < 0 {
        seq!['-'] + decimal_text((-n) as nat)
    } else {
        decimal_text(n as nat)
    }
}

pub open spec fn bits_text(b: Seq<bool>) -> Seq<char> {
    Seq::new(b.len(), |k: int| if b[k] { '1' } else { '0' })
}

pub open spec fn primitive_text(p: PrimitiveModel) -> Option<Seq<char>> {
    match p {
        PrimitiveModel::Bool(true) => Some(seq!['t', 'r', 'u', 'e']),
        PrimitiveModel::Bool(false) => Some(seq!['f', 'a', 'l', 's', 'e']),
        PrimitiveModel::Char(c) => Some(char_text(c)),
        PrimitiveModel::String(t) => Some(string_text(t)),
        PrimitiveModel::U128(n) => Some(decimal_text(n as nat)),
        PrimitiveModel::I128(n) => Some(signed_text(n as int)),
        PrimitiveModel::U256(_) => None,
        PrimitiveModel::I256(_) => None,
    }
}

/// The canonical text of a value; none where it holds a 256-bit integer.
pub open spec fn model_text(m: Model) -> Option<Seq<char>>
    decreases m,
{
    match m {
        Model::Composite(c) => composite_text(c),
        Model::Variant(name, c) => match composite_text(c) {
            Some(t) => Some(variant_name_text(name) + t),
            None => None,
        },
        Model::BitSequence(b) => Some(seq!['<'] + bits_text(b) + seq!['>']),
        Model::Primitive(p) => primitive_text(p),
    }
}

pub open spec fn composite_text(c: CompositeModel) -> Option<Seq<char>>
    decreases c,
{
    match c {
        CompositeModel::Named(fs) => match fields_text(fs) {
            Some(t) => Some(seq!['{', ' '] + t + seq![' ', '}']),
            None => None,
        },
        CompositeModel::Unnamed(vs) => match elems_text(vs) {
            Some(t) => Some(seq!['('] + t + seq![')']),
            None => None,
        },
    }
}

/// `name: value` pairs joined by `, `.
pub open spec fn fields_text(fs: Seq<(Seq<char>, Model)>) -> Option<Seq<char>>
    decreases fs,
{
    if fs.len() == 0 {
        Some(seq![])
    } else {
        let last = fs[fs.len() - 1];
        match (fields_text(fs.drop_last()), model_text(last.1)) {
            (Some(a), Some(b)) => {
                let f = field_name_text(last.0) + seq![':', ' '] + b;
                Some(
                    if fs.len() == 1 {
                        f
                    } else {
                        a + seq![',', ' '] + f
                    },
                )
            },
            _ => None,
        }
    }
}

/// Values joined by `, `.
pub open spec fn elems_text(vs: Seq<Model>) -> Option<Seq<char>>
    decreases vs,
{
    if vs.len() == 0 {
        Some(seq![])
    } else {
        match (elems_text(vs.drop_last()), model_text(vs[vs.len() - 1])) {
            (Some(a), Some(b)) => Some(
                if vs.len() == 1 {
                    b
                } else {
                    a + seq![',', ' '] + b
                },
            ),
            _ => None,
        }
    }
}

/// Relies on u128's `Display`: the decimal digits, with no sign or separators.
#[verifier::external_body]
fn u128_text(n: u128) -> (r: String)
    ensures
        r@ == decimal_text(n as nat),
{
    n.to_string()
}

/// Relies on i128's `Display`: a minus sign where negative, then the decimal digits.
#[verifier::external_body]
fn i128_text(n: i128) -> (r: String)
    ensures
        r@ == signed_text(n as int),
{
    n.to_string()
}

fn push_escaped(out: &mut String, c: char)
    ensures
        final(out)@ == old(out)@ + escaped(c),
{
    match to_escape_code(c) {
        Some(e) => {
            push_char(out, '\\');
            push_char(out, e);
            assert(final(out)@ =~= old(out)@ + escaped(c));
        },
        None => {
            push_char(out, c);
            assert(final(out)@ =~= old(out)@ + escaped(c));
        },
    }
}

/// Writes `s` as a quoted string literal.
pub fn fmt_string(s: &str, out: &mut String)
    ensures
        final(out)@ == old(out)@ + string_text(s@),
{
    let ghost start = out@;
    push_char(out, '"');
    let n = s.unicode_len();
    let mut k: usize = 0;
    proof {
        assert(s@.subrange(0, 0) =~= Seq::<char>::empty());
        assert(out@ =~= start + seq!['"'] + escape_all(s@.subrange(0, 0)));
    }
    while k < n
        invariant
            n == s@.len(),
            k <= n,
            out@ == start + seq!['"'] + escape_all(s@.subrange(0, k as int)),
        decreases n - k,
    {
        let c = s.get_char(k);
        push_escaped(out, c);
        proof {
            assert(s@.subrange(0, k + 1).drop_last() =~= s@.subrange(0, k as int));
            assert(out@ =~= start + seq!['"'] + escape_all(s@.subrange(0, k + 1)));
        }
        k = k + 1;
    }
    push_char(out, '"');
    proof {
        assert(s@.subrange(0, n as int) =~= s@);
        assert(out@ =~= start + string_text(s@));
    }
}

/// Writes `c` as a quoted character literal.
pub fn fmt_char(c: char, out: &mut String)
    ensures
        final(out)@ == old(out)@ + char_text(c),
{
    push_char(out, '\'');
    push_escaped(out, c);
    push_char(out, '\'');
    assert(final(out)@ =~= old(out)@ + char_text(c));
}

/// Writes a bit sequence as `<` and `>` around a `1` or `0` for each bit.
pub fn fmt_bitsequence(b: &Vec<bool>, out: &mut String)
    ensures
        final(out)@ == old(out)@ + seq!['<'] + bits_text(b@) + seq!['>'],
{
    let ghost start = out@;
    push_char(out, '<');
    let mut k: usize = 0;
    while k < b.len()
        invariant
            k <= b@.len(),
            out@ =~= start + seq!['<'] + bits_text(b@.subrange(0, k as int)),
        decreases b@.len() - k,
    {
        if b[k] {
            push_char(out, '1');
        } else {
            push_char(out, '0');
        }
        k = k + 1;
        proof {
            assert(out@ =~= start + seq!['<'] + bits_text(b@.subrange(0, k as int)));
        }
    }
    push_char(out, '>');
    proof {
        assert(b@.subrange(0, b@.len() as int) =~= b@);
    }
}

/// Whether `s` reads as an identifier, so that it can be written without quotes.
pub fn is_ident(s: &str) -> (r: bool)
    ensures
        r == ident_like(s@),
{
    let n = s.unicode_len();
    if n == 0 {
        return false;
    }
    if !is_alphabetic(s.get_char(0)) {
        return false;
    }
    let mut k: usize = 1;
    while k < n
        invariant
            n == s@.len(),
            1 <= k <= n,
            forall|m: int| 1 <= m < k ==> alphanumeric(#[trigger] s@[m]) || s@[m] == '_',
        decreases n - k,
    {
        let c = s.get_char(k);
        if !(is_alphanumeric(c) || c == '_') {
            return false;
        }
        k = k + 1;
    }
    true
}

proof fn lemma_named_models<T>(s: Seq<(String, Value<T>)>)
    ensures
        named_models(s).len() == s.len(),
        forall|k: int|
            0 <= k < s.len() ==> #[trigger] named_models(s)[k] == (s[k].0@, value_model(s[k].1)),
    decreases s.len(),
{
    if s.len() > 0 {
        lemma_named_models(s.drop_last());
    }
}

proof fn lemma_unnamed_models<T>(s: Seq<Value<T>>)
    ensures
        unnamed_models(s).len() == s.len(),
        forall|k: int| 0 <= k < s.len() ==> #[trigger] unnamed_models(s)[k] == value_model(s[k]),
    decreases s.len(),
{
    if s.len() > 0 {
        lemma_unnamed_models(s.drop_last());
    }
}

proof fn lemma_fields_text_some(fs: Seq<(Seq<char>, Model)>, k: int)
    requires
        fields_text(fs) is Some,
        0 <= k < fs.len(),
    ensures
        model_text(fs[k].1) is Some,
    decreases fs.len(),
{
    if k < fs.len() - 1 {
        lemma_fields_text_some(fs.drop_last(), k);
    }
}

proof fn lemma_elems_text_some(vs: Seq<Model>, k: int)
    requires
        elems_text(vs) is Some,
        0 <= k < vs.len(),
    ensures
        model_text(vs[k]) is Some,
    decreases vs.len(),
{
    if k < vs.len() - 1 {
        lemma_elems_text_some(vs.drop_last(), k);
    }
}

fn write_primitive(p: &Primitive, out: &mut String) -> (ok: bool)
    ensures
        match primitive_text(crate::value::primitive_model(*p)) {
            Some(t) => ok && final(out)@ == old(out)@ + t,
            None => !ok,
        },
{
    match p {
        Primitive::Bool(b) => {
            if *b {
                push_char(out, 't');
                push_char(out, 'r');
                push_char(out, 'u');
                push_char(out, 'e');
            } else {
                push_char(out, 'f');
                push_char(out, 'a');
                push_char(out, 'l');
                push_char(out, 's');
                push_char(out, 'e');
            }
            assert(final(out)@ =~= old(out)@ + primitive_text(
                crate::value::primitive_model(*p),
            ).unwrap());
            true
        },
        Primitive::Char(c) => {
            fmt_char(*c, out);
            true
        },
        Primitive::String(t) => {
            fmt_string(t.as_str(), out);
            true
        },
        Primitive::U128(n) => {
            let t = u128_text(*n);
            out.append(t.as_str());
            true
        },
        Primitive::I128(n) => {
            let t = i128_text(*n);
            out.append(t.as_str());
            true
        },
        Primitive::U256(_) => false,
        Primitive::I256(_) => false,
    }
}

fn write_value<T>(v: &Value<T>, out: &mut String) -> (ok: bool)
    ensures
        match model_text(v.model()) {
            Some(t) => ok && final(out)@ == old(out)@ + t,
            None => !ok,
        },
    decreases v,
{
    match &v.value {
        ValueDef::Composite(c) => write_composite(c, out),
        ValueDef::Variant(var) => write_variant(var, out),
        ValueDef::BitSequence(b) => {
            fmt_bitsequence(b, out);
            true
        },
        ValueDef::Primitive(p) => write_primitive(p, out),
    }
}

fn starts_with_word(s: &str, w: &str) -> (r: bool)
    ensures
        r == starts_with(s@, 0, w@),
{
    let n = s.unicode_len();
    let m = w.unicode_len();
    if m > n {
        return false;
    }
    let mut k: usize = 0;
    while k < m
        invariant
            n == s@.len(),
            m == w@.len(),
            m <= n,
            k <= m,
            forall|j: int| 0 <= j < k ==> s@[j] == w@[j],
        decreases m - k,
    {
        if s.get_char(k) != w.get_char(k) {
            proof {
                if starts_with(s@, 0, w@) {
                    assert(s@.subrange(0, m as int)[k as int] == s@[k as int]);
                }
            }
            return false;
        }
        k = k + 1;
    }
    proof {
        assert(s@.subrange(0, m as int) =~= w@);
    }
    true
}

/// Whether `s` starts with `true` or `false`.
fn names_boolean(s: &str) -> (r: bool)
    ensures
        r == (starts_with(s@, 0, true_text()) || starts_with(s@, 0, false_text())),
{
    proof {
        reveal_strlit("true");
        reveal_strlit("false");
        assert("true"@ =~= true_text());
        assert("false"@ =~= false_text());
    }
    starts_with_word(s, "true") || starts_with_word(s, "false")
}

fn write_variant<T>(var: &Variant<T>, out: &mut String) -> (ok: bool)
    ensures
        match composite_text(composite_model(var.values)) {
            Some(t) => ok && final(out)@ == old(out)@ + variant_name_text(var.name@) + t,
            None => !ok,
        },
    decreases var,
{
    let ghost start = out@;
    if is_ident(var.name.as_str()) && !names_boolean(var.name.as_str()) {
        out.append(var.name.as_str());
    } else {
        push_char(out, 'v');
        fmt_string(var.name.as_str(), out);
        assert(out@ =~= start + variant_name_text(var.name@));
    }
    let ghost mid = out@;
    let ok = write_composite(&var.values, out);
    proof {
        if ok {
            let t = composite_text(composite_model(var.values)).unwrap();
            assert(out@ =~= start + variant_name_text(var.name@) + t);
        }
    }
    ok
}

fn write_composite<T>(c: &Composite<T>, out: &mut String) -> (ok: bool)
    ensures
        match composite_text(composite_model(*c)) {
            Some(t) => ok && final(out)@ == old(out)@ + t,
            None => !ok,
        },
    decreases c,
{
    let ghost start = out@;
    match c {
        Composite::Named(vals) => {
            let ghost ms = named_models(vals@);
            proof {
                lemma_named_models(vals@);
            }
            push_char(out, '{');
            push_char(out, ' ');
            let mut idx: usize = 0;
            proof {
                assert(ms.subrange(0, 0) =~= Seq::<(Seq<char>, Model)>::empty());
                assert(out@ =~= start + seq!['{', ' '] + fields_text(ms.subrange(0, 0)).unwrap());
            }
            while idx < vals.len()
                invariant
                    idx <= vals@.len(),
                    *c == Composite::<T>::Named(*vals),
                    ms == named_models(vals@),
                    ms.len() == vals@.len(),
                    forall|k: int|
                        0 <= k < vals@.len() ==> #[trigger] ms[k] == (
                            vals@[k].0@,
                            value_model(vals@[k].1),
                        ),
                    fields_text(ms.subrange(0, idx as int)) is Some,
                    out@ == start + seq!['{', ' '] + fields_text(
                        ms.subrange(0, idx as int),
                    ).unwrap(),
                decreases vals@.len() - idx,
            {
                let ghost before = out@;
                let ghost prefix = fields_text(ms.subrange(0, idx as int)).unwrap();
                if idx != 0 {
                    push_char(out, ',');
                    push_char(out, ' ');
                }
                let ghost after_sep = out@;
                let name = vals[idx].0.as_str();
                if is_ident(name) {
                    out.append(name);
                } else {
                    fmt_string(name, out);
                }
                push_char(out, ':');
                push_char(out, ' ');
                let ghost after_name = out@;
                proof {
                    assert(decreases_to!(*vals => vals@[idx as int]));
                    assert(decreases_to!(*c => *vals));
                    assert(decreases_to!(vals@[idx as int] => vals@[idx as int].1));
                }
                let ok = write_value(&vals[idx].1, out);
                proof {
                    assert(ms.subrange(0, idx + 1).drop_last() =~= ms.subrange(0, idx as int));
                    assert(ms.subrange(0, idx + 1)[idx as int] == ms[idx as int]);
                }
                if !ok {
                    proof {
                        assert(composite_model(*c) == CompositeModel::Named(ms));
                        if fields_text(ms) is Some {
                            lemma_fields_text_some(ms, idx as int);
                        }
                    }
                    return false;
                }
                proof {
                    let b = model_text(value_model(vals@[idx as int].1)).unwrap();
                    let f = field_name_text(vals@[idx as int].0@) + seq![':', ' '] + b;
                    assert(out@ =~= after_name + b);
                    assert(after_name =~= after_sep + field_name_text(vals@[idx as int].0@)
                        + seq![':', ' ']);
                    if idx == 0 {
                        assert(prefix =~= Seq::<char>::empty());
                        assert(fields_text(ms.subrange(0, idx + 1)).unwrap() =~= f);
                    } else {
                        assert(fields_text(ms.subrange(0, idx + 1)).unwrap() =~= prefix + seq![
                            ',',
                            ' ',
                        ] + f);
                    }
                    assert(out@ =~= start + seq!['{', ' '] + fields_text(
                        ms.subrange(0, idx + 1),
                    ).unwrap());
                }
                idx = idx + 1;
            }
            push_char(out, ' ');
            push_char(out, '}');
            proof {
                assert(ms.subrange(0, vals@.len() as int) =~= ms);
                assert(out@ =~= start + composite_text(composite_model(*c)).unwrap());
            }
            true
        },
        Composite::Unnamed(vals) => {
            let ghost ms = unnamed_models(vals@);
            proof {
                lemma_unnamed_models(vals@);
            }
            push_char(out, '(');
            let mut idx: usize = 0;
            proof {
                assert(ms.subrange(0, 0) =~= Seq::<Model>::empty());
                assert(out@ =~= start + seq!['('] + elems_text(ms.subrange(0, 0)).unwrap());
            }
            while idx < vals.len()
                invariant
                    idx <= vals@.len(),
                    *c == Composite::<T>::Unnamed(*vals),
                    ms == unnamed_models(vals@),
                    ms.len() == vals@.len(),
                    forall|k: int|
                        0 <= k < vals@.len() ==> #[trigger] ms[k] == value_model(vals@[k]),
                    elems_text(ms.subrange(0, idx as int)) is Some,
                    out@ == start + seq!['('] + elems_text(ms.subrange(0, idx as int)).unwrap(),
                decreases vals@.len() - idx,
            {
                let ghost prefix = elems_text(ms.subrange(0, idx as int)).unwrap();
                if idx != 0 {
                    push_char(out, ',');
                    push_char(out, ' ');
                }
                let ghost after_sep = out@;
                proof {
                    assert(decreases_to!(*vals => vals@[idx as int]));
                    assert(decreases_to!(*c => *vals));
                }
                let ok = write_value(&vals[idx], out);
                proof {
                    assert(ms.subrange(0, idx + 1).drop_last() =~= ms.subrange(0, idx as int));
                    assert(ms.subrange(0, idx + 1)[idx as int] == ms[idx as int]);
                }
                if !ok {
                    proof {
                        assert(composite_model(*c) == CompositeModel::Unnamed(ms));
                        if elems_text(ms) is Some {
                            lemma_elems_text_some(ms, idx as int);
                        }
                    }
                    return false;
                }
                proof {
                    let b = model_text(value_model(vals@[idx as int])).unwrap();
                    assert(out@ =~= after_sep + b);
                    if idx == 0 {
                        assert(prefix =~= Seq::<char>::empty());
                        assert(elems_text(ms.subrange(0, idx + 1)).unwrap() =~= b);
                    } else {
                        assert(elems_text(ms.subrange(0, idx + 1)).unwrap() =~= prefix + seq![
                            ',',
                            ' ',
                        ] + b);
                    }
                    assert(out@ =~= start + seq!['('] + elems_text(
                        ms.subrange(0, idx + 1),
                    ).unwrap());
                }
                idx = idx + 1;
            }
            push_char(out, ')');
            proof {
                assert(ms.subrange(0, vals@.len() as int) =~= ms);
                assert(out@ =~= start + composite_text(composite_model(*c)).unwrap());
            }
            true
        },
    }
}

impl<T> Value<T> {
    /// The canonical text of this value, or an error where it holds a 256-bit integer.
    /// Writing recurses once per level of nesting.
    pub fn to_text(&self) -> (r: Result<String, UnsupportedPrimitiveError>)
        ensures
            match model_text(self.model()) {
                Some(t) => r matches Ok(s) && s@ == t,
                None => r is Err,
            },
    {
        let mut out = String::new();
        if write_value(self, &mut out) {
            assert(out@ =~= model_text(self.model()).unwrap());
            Ok(out)
        } else {
            Err(UnsupportedPrimitiveError)
        }
    }
}

} // verus!
