use vstd::prelude::*;
use crate::chars::{
    alphanumeric, escape_code, is_ascii, is_digit, whitespace,
};
use crate::format::{
    bits_text, char_text, composite_text, decimal_text, digit_char, elems_text, escape_all,
    escaped, field_name_text, fields_text, ident_like, bare_variant_name, model_text, primitive_text, signed_text,
    string_text, variant_name_text,
};
use crate::grammar::{
    bits_end, bits_of, bits_rule, bool_rule, char_rule, decimal_value, digits_end, elems_rule,
    field_name_rule, field_rule, fields_rule, named_rule, number_rule, separator,
    starts_with, string_body, string_rule, unnamed_rule, value_rule, variant_name_rule,
    word_end, ws_end, true_text, false_text, Step,
};
use crate::value::{CompositeModel, Model, PrimitiveModel, Value};

verus! {

proof fn lemma_window(s: Seq<char>, i: int, t: Seq<char>, k: int)
    requires
        starts_with(s, i, t),
        0 <= k < t.len(),
    ensures
        s[i + k] == t[k],
{
    assert(s.subrange(i, i + t.len())[k] == s[i + k]);
}

proof fn lemma_window_split(s: Seq<char>, i: int, a: Seq<char>, b: Seq<char>)
    requires
        starts_with(s, i, a + b),
    ensures
        starts_with(s, i, a),
        starts_with(s, i + a.len(), b),
{
    assert forall|k: int| 0 <= k < a.len() implies s.subrange(i, i + a.len())[k] == a[k] by {
        lemma_window(s, i, a + b, k);
    }
    assert(s.subrange(i, i + a.len()) =~= a);
    assert forall|k: int| 0 <= k < b.len() implies s.subrange(
        i + a.len(),
        i + a.len() + b.len(),
    )[k] == b[k] by {
        lemma_window(s, i, a + b, a.len() + k);
    }
    assert(s.subrange(i + a.len(), i + a.len() + b.len()) =~= b);
}

proof fn lemma_not_starting(s: Seq<char>, i: int, lit: Seq<char>)
    requires
        0 <= i < s.len(),
        lit.len() > 0,
        s[i] != lit[0],
    ensures
        !starts_with(s, i, lit),
{
    if starts_with(s, i, lit) {
        lemma_window(s, i, lit, 0);
    }
}

proof fn lemma_ws_skip(s: Seq<char>, i: int, n: int)
    requires
        0 <= i,
        0 <= n,
        i + n <= s.len(),
        forall|k: int| i <= k < i + n ==> whitespace(#[trigger] s[k]),
        i + n == s.len() || !whitespace(s[i + n]),
    ensures
        ws_end(s, i) == i + n,
    decreases n,
{
    if n > 0 {
        lemma_ws_skip(s, i + 1, n - 1);
    }
}

/// Brackets with only white space between them read as an empty list of values, braces
/// as an empty list of fields, and `<>` as an empty bit sequence.
pub proof fn lemma_empty_containers(w: Seq<char>)
    requires
        forall|k: int| 0 <= k < w.len() ==> whitespace(#[trigger] w[k]),
    ensures
        value_rule(seq!['('] + w + seq![')'], 0) == Step::Done(
            Model::Composite(CompositeModel::Unnamed(seq![])),
            w.len() + 2int,
        ),
        value_rule(seq!['{'] + w + seq!['}'], 0) == Step::Done(
            Model::Composite(CompositeModel::Named(seq![])),
            w.len() + 2int,
        ),
        value_rule(seq!['<', '>'], 0) == Step::Done(Model::BitSequence(seq![]), 2),
{
    let t = seq!['t', 'r', 'u', 'e'];
    let f = seq!['f', 'a', 'l', 's', 'e'];
    let u = seq!['('] + w + seq![')'];
    assert forall|k: int| 1 <= k < 1 + w.len() implies whitespace(#[trigger] u[k]) by {
        assert(u[k] == w[k - 1]);
    }
    assert(u[1 + w.len() as int] == ')');
    lemma_ws_skip(u, 1, w.len() as int);
    lemma_not_starting(u, 0, t);
    lemma_not_starting(u, 0, f);
    let n = seq!['{'] + w + seq!['}'];
    assert forall|k: int| 1 <= k < 1 + w.len() implies whitespace(#[trigger] n[k]) by {
        assert(n[k] == w[k - 1]);
    }
    assert(n[1 + w.len() as int] == '}');
    lemma_ws_skip(n, 1, w.len() as int);
    lemma_not_starting(n, 0, t);
    lemma_not_starting(n, 0, f);
    let b = seq!['<', '>'];
    lemma_not_starting(b, 0, t);
    lemma_not_starting(b, 0, f);
    assert(bits_of(b.subrange(1, 1)) =~= Seq::<bool>::empty());
}

proof fn lemma_escape_all_front(t: Seq<char>)
    requires
        t.len() > 0,
    ensures
        escape_all(t) == escaped(t[0]) + escape_all(t.drop_first()),
    decreases t.len(),
{
    if t.len() == 1 {
        assert(t.drop_last() =~= Seq::<char>::empty());
        assert(t.drop_first() =~= Seq::<char>::empty());
        assert(escape_all(t) =~= escaped(t[0]) + escape_all(t.drop_first()));
    } else {
        lemma_escape_all_front(t.drop_last());
        assert(t.drop_first().drop_last() =~= t.drop_last().drop_first());
        assert(t.drop_last()[0] == t[0]);
        assert(t.drop_first().last() == t.last());
        assert(escape_all(t) =~= escaped(t[0]) + escape_all(t.drop_first()));
    }
}

proof fn lemma_string_body(s: Seq<char>, k: int, open: int, t: Seq<char>)
    requires
        starts_with(s, k, escape_all(t) + seq!['"']),
    ensures
        string_body(s, k, open) == Step::Done(t, k + escape_all(t).len() + 1),
    decreases t.len(),
{
    let q = seq!['"'];
    if t.len() == 0 {
        lemma_window(s, k, escape_all(t) + q, 0);
        assert(t =~= Seq::<char>::empty());
    } else {
        let c = t[0];
        let rest = t.drop_first();
        lemma_escape_all_front(t);
        assert(escape_all(t) + q =~= escaped(c) + (escape_all(rest) + q));
        lemma_window_split(s, k, escaped(c), escape_all(rest) + q);
        lemma_window(s, k, escaped(c), 0);
        match escape_code(c) {
            Some(e) => {
                lemma_window(s, k, escaped(c), 1);
                lemma_string_body(s, k + 2, open, rest);
            },
            None => {
                lemma_string_body(s, k + 1, open, rest);
            },
        }
        assert(seq![c] + rest =~= t);
    }
}

/// A quoted string literal reads back as the string it was written from.
proof fn lemma_string_at(s: Seq<char>, i: int, t: Seq<char>)
    requires
        starts_with(s, i, string_text(t)),
    ensures
        string_rule(s, i) == Step::Done(t, i + string_text(t).len()),
{
    let q = seq!['"'];
    assert(string_text(t) =~= q + (escape_all(t) + q));
    lemma_window_split(s, i, q, escape_all(t) + q);
    lemma_window(s, i, q, 0);
    lemma_string_body(s, i + 1, i, t);
}

proof fn lemma_char_at(s: Seq<char>, i: int, c: char)
    requires
        starts_with(s, i, char_text(c)),
    ensures
        char_rule(s, i) == Step::Done(PrimitiveModel::Char(c), i + char_text(c).len()),
{
    let t = char_text(c);
    lemma_window(s, i, t, 0);
    lemma_window(s, i, t, 1);
    lemma_window(s, i, t, 2);
    if escape_code(c) is Some {
        lemma_window(s, i, t, 3);
    }
}

proof fn lemma_digit_char(d: nat)
    requires
        d < 10,
    ensures
        is_digit(digit_char(d)),
        (digit_char(d) as u32) - ('0' as u32) == d,
{
}

proof fn lemma_decimal_text(n: nat)
    ensures
        decimal_text(n).len() >= 1,
        forall|k: int| 0 <= k < decimal_text(n).len() ==> is_digit(#[trigger] decimal_text(n)[k]),
        decimal_value(decimal_text(n)) == n,
    decreases n,
{
    if n < 10 {
        lemma_digit_char(n);
        let t = decimal_text(n);
        assert(t.drop_last() =~= Seq::<char>::empty());
        assert(t.last() == digit_char(n));
        assert(decimal_value(t.drop_last()) == 0);
        assert(decimal_value(t) == n);
    } else {
        lemma_decimal_text(n / 10);
        lemma_digit_char(n % 10);
        let t = decimal_text(n);
        assert(t.drop_last() =~= decimal_text(n / 10));
        assert(t.last() == digit_char(n % 10));
        assert(decimal_value(t.drop_last()) == n / 10);
        assert(is_digit(t.last()));
        assert(decimal_value(t) == 10 * (n / 10) + n % 10);
        assert(10 * (n / 10) + n % 10 == n) by (nonlinear_arith);
    }
}

proof fn lemma_digits_end(s: Seq<char>, k: int, n: int)
    requires
        0 <= k,
        0 <= n,
        k + n <= s.len(),
        forall|m: int| k <= m < k + n ==> is_digit(#[trigger] s[m]),
        k + n == s.len() || !(is_digit(s[k + n]) || s[k + n] == '_'),
    ensures
        digits_end(s, k) == k + n,
    decreases n,
{
    if n > 0 {
        lemma_digits_end(s, k + 1, n - 1);
    }
}

/// Whether what follows position `j` cannot lengthen a number that ends there.
pub open spec fn ends_number(s: Seq<char>, j: int) -> bool {
    j == s.len() || !(is_digit(s[j]) || s[j] == '_')
}

proof fn lemma_unsigned_at(s: Seq<char>, i: int, n: u128)
    requires
        starts_with(s, i, decimal_text(n as nat)),
        ends_number(s, i + decimal_text(n as nat).len()),
    ensures
        number_rule(s, i) == Step::Done(
            PrimitiveModel::U128(n),
            i + decimal_text(n as nat).len(),
        ),
{
    let t = decimal_text(n as nat);
    lemma_decimal_text(n as nat);
    assert forall|m: int| i <= m < i + t.len() implies is_digit(#[trigger] s[m]) by {
        lemma_window(s, i, t, m - i);
    }
    lemma_window(s, i, t, 0);
    lemma_digits_end(s, i + 1, t.len() - 1);
    assert(s.subrange(i, i + t.len()) == t);
}

proof fn lemma_signed_at(s: Seq<char>, i: int, n: i128)
    requires
        n < 0,
        starts_with(s, i, signed_text(n as int)),
        ends_number(s, i + signed_text(n as int).len()),
    ensures
        number_rule(s, i) == Step::Done(PrimitiveModel::I128(n), i + signed_text(n as int).len()),
{
    let d = decimal_text((-n) as nat);
    lemma_decimal_text((-n) as nat);
    assert(signed_text(n as int) == seq!['-'] + d);
    lemma_window_split(s, i, seq!['-'], d);
    lemma_window(s, i, seq!['-'], 0);
    assert forall|m: int| i + 1 <= m < i + 1 + d.len() implies is_digit(#[trigger] s[m]) by {
        lemma_window(s, i + 1, d, m - i - 1);
    }
    lemma_window(s, i + 1, d, 0);
    lemma_digits_end(s, i + 2, d.len() - 1);
    assert(s.subrange(i + 1, i + 1 + d.len()) == d);
}

proof fn lemma_bits_end(s: Seq<char>, k: int, n: int)
    requires
        0 <= k,
        0 <= n,
        k + n < s.len(),
        forall|m: int| k <= m < k + n ==> (#[trigger] s[m] == '0' || s[m] == '1'),
        s[k + n] == '>',
    ensures
        bits_end(s, k) == k + n,
    decreases n,
{
    if n > 0 {
        lemma_bits_end(s, k + 1, n - 1);
    }
}

proof fn lemma_bits_at(s: Seq<char>, i: int, b: Seq<bool>)
    requires
        starts_with(s, i, seq!['<'] + bits_text(b) + seq!['>']),
    ensures
        bits_rule(s, i) == Step::Done(b, i + b.len() + 2),
{
    let t = seq!['<'] + bits_text(b) + seq!['>'];
    lemma_window(s, i, t, 0);
    lemma_window(s, i, t, b.len() + 1int);
    assert forall|m: int| i + 1 <= m < i + 1 + b.len() implies (#[trigger] s[m] == '0' || s[m]
        == '1') && (s[m] == '1' <==> b[m - i - 1]) by {
        lemma_window(s, i, t, m - i);
    }
    lemma_bits_end(s, i + 1, b.len() as int);
    assert(bits_of(s.subrange(i + 1, i + 1 + b.len())) =~= b);
}

proof fn lemma_word_end(s: Seq<char>, k: int, n: int)
    requires
        0 <= k,
        0 <= n,
        k + n <= s.len(),
        forall|m: int| k <= m < k + n ==> alphanumeric(#[trigger] s[m]) || s[m] == '_',
        k + n == s.len() || !(alphanumeric(s[k + n]) || s[k + n] == '_'),
    ensures
        word_end(s, k) == k + n,
    decreases n,
{
    if n > 0 {
        lemma_word_end(s, k + 1, n - 1);
    }
}

/// A field name written bare starts with an ASCII letter.
pub open spec fn field_name_ok(n: Seq<char>) -> bool {
    ident_like(n) ==> is_ascii(n[0])
}

/// A variant name written bare starts with an ASCII letter.
pub open spec fn variant_name_ok(n: Seq<char>) -> bool {
    bare_variant_name(n) ==> is_ascii(n[0])
}

/// Whether the bare names in a value are held to `field_name_ok` and `variant_name_ok`:
/// that a non-ASCII letter is never white space is not known here, so values with such
/// names are left out, though they read back.
pub open spec fn names_read_back(m: Model) -> bool
    decreases m,
{
    match m {
        Model::Composite(c) => composite_names_read_back(c),
        Model::Variant(n, c) => variant_name_ok(n) && composite_names_read_back(c),
        _ => true,
    }
}

pub open spec fn composite_names_read_back(c: CompositeModel) -> bool
    decreases c,
{
    match c {
        CompositeModel::Named(fs) => fields_names_read_back(fs),
        CompositeModel::Unnamed(vs) => elems_names_read_back(vs),
    }
}

pub open spec fn fields_names_read_back(fs: Seq<(Seq<char>, Model)>) -> bool
    decreases fs,
{
    fs.len() == 0 || (field_name_ok(fs[0].0) && names_read_back(fs[0].1)
        && fields_names_read_back(fs.drop_first()))
}

pub open spec fn elems_names_read_back(vs: Seq<Model>) -> bool
    decreases vs,
{
    vs.len() == 0 || (names_read_back(vs[0]) && elems_names_read_back(vs.drop_first()))
}

/// What the canonical text of a value reads back as: a signed integer that is not
/// negative is written without a sign, and comes back unsigned.
pub open spec fn read_as(m: Model) -> Model
    decreases m,
{
    match m {
        Model::Composite(c) => Model::Composite(read_as_composite(c)),
        Model::Variant(n, c) => Model::Variant(n, read_as_composite(c)),
        Model::Primitive(PrimitiveModel::I128(n)) => if n >= 0 {
            Model::Primitive(PrimitiveModel::U128(n as u128))
        } else {
            m
        },
        _ => m,
    }
}

pub open spec fn read_as_composite(c: CompositeModel) -> CompositeModel
    decreases c,
{
    match c {
        CompositeModel::Named(fs) => CompositeModel::Named(read_as_fields(fs)),
        CompositeModel::Unnamed(vs) => CompositeModel::Unnamed(read_as_elems(vs)),
    }
}

pub open spec fn read_as_fields(fs: Seq<(Seq<char>, Model)>) -> Seq<(Seq<char>, Model)>
    decreases fs,
{
    if fs.len() == 0 {
        seq![]
    } else {
        seq![(fs[0].0, read_as(fs[0].1))] + read_as_fields(fs.drop_first())
    }
}

pub open spec fn read_as_elems(vs: Seq<Model>) -> Seq<Model>
    decreases vs,
{
    if vs.len() == 0 {
        seq![]
    } else {
        seq![read_as(vs[0])] + read_as_elems(vs.drop_first())
    }
}

/// Whether the canonical text of a value reads back as that value itself.
pub open spec fn reads_back(m: Model) -> bool {
    names_read_back(m) && read_as(m) == m
}

pub open spec fn field_text(f: (Seq<char>, Model)) -> Seq<char> {
    field_name_text(f.0) + seq![':', ' '] + model_text(f.1).unwrap()
}

proof fn lemma_fields_text_front(fs: Seq<(Seq<char>, Model)>)
    requires
        fs.len() >= 1,
        fields_text(fs) is Some,
    ensures
        model_text(fs[0].1) is Some,
        fields_text(fs.drop_first()) is Some,
        fields_text(fs).unwrap() == if fs.len() == 1 {
            field_text(fs[0])
        } else {
            field_text(fs[0]) + seq![',', ' '] + fields_text(fs.drop_first()).unwrap()
        },
    decreases fs.len(),
{
    if fs.len() == 1 {
        assert(fs.drop_last() =~= Seq::<(Seq<char>, Model)>::empty());
        assert(fs.drop_first() =~= Seq::<(Seq<char>, Model)>::empty());
    } else {
        lemma_fields_text_front(fs.drop_last());
        assert(fs.drop_first().drop_last() =~= fs.drop_last().drop_first());
        assert(fs.drop_last()[0] == fs[0]);
        assert(fs.drop_first()[fs.drop_first().len() - 1] == fs[fs.len() - 1]);
        if fs.len() == 2 {
            assert(fs.drop_first().drop_last() =~= Seq::<(Seq<char>, Model)>::empty());
        }
        assert(fields_text(fs).unwrap() =~= field_text(fs[0]) + seq![',', ' '] + fields_text(
            fs.drop_first(),
        ).unwrap());
    }
}

proof fn lemma_elems_text_front(vs: Seq<Model>)
    requires
        vs.len() >= 1,
        elems_text(vs) is Some,
    ensures
        model_text(vs[0]) is Some,
        elems_text(vs.drop_first()) is Some,
        elems_text(vs).unwrap() == if vs.len() == 1 {
            model_text(vs[0]).unwrap()
        } else {
            model_text(vs[0]).unwrap() + seq![',', ' '] + elems_text(vs.drop_first()).unwrap()
        },
    decreases vs.len(),
{
    if vs.len() == 1 {
        assert(vs.drop_last() =~= Seq::<Model>::empty());
        assert(vs.drop_first() =~= Seq::<Model>::empty());
    } else {
        lemma_elems_text_front(vs.drop_last());
        assert(vs.drop_first().drop_last() =~= vs.drop_last().drop_first());
        assert(vs.drop_last()[0] == vs[0]);
        assert(vs.drop_first()[vs.drop_first().len() - 1] == vs[vs.len() - 1]);
        if vs.len() == 2 {
            assert(vs.drop_first().drop_last() =~= Seq::<Model>::empty());
        }
        assert(elems_text(vs).unwrap() =~= model_text(vs[0]).unwrap() + seq![',', ' ']
            + elems_text(vs.drop_first()).unwrap());
    }
}

/// The canonical text of a value starts with a character that is not white space.
proof fn lemma_first_char(m: Model)
    requires
        names_read_back(m),
        model_text(m) is Some,
    ensures
        model_text(m).unwrap().len() > 0,
        is_ascii(model_text(m).unwrap()[0]),
        !whitespace(model_text(m).unwrap()[0]),
        model_text(m).unwrap()[0] != ')',
{
    match m {
        Model::Primitive(PrimitiveModel::U128(n)) => {
            lemma_decimal_text(n as nat);
        },
        Model::Primitive(PrimitiveModel::I128(n)) => {
            if n < 0 {
                lemma_decimal_text((-n) as nat);
            } else {
                lemma_decimal_text(n as nat);
            }
        },
        Model::Variant(name, c) => {
            if bare_variant_name(name) {
                assert(model_text(m).unwrap()[0] == name[0]);
            }
        },
        _ => {},
    }
}

proof fn lemma_field_name_at(s: Seq<char>, k: int, n: Seq<char>)
    requires
        field_name_ok(n),
        starts_with(s, k, field_name_text(n) + seq![':']),
    ensures
        field_name_rule(s, k) == Step::Done(n, k + field_name_text(n).len()),
{
    let t = field_name_text(n);
    lemma_window_split(s, k, t, seq![':']);
    lemma_window(s, k + t.len(), seq![':'], 0);
    if ident_like(n) {
        lemma_window(s, k, t, 0);
        assert forall|m: int| k + 1 <= m < k + n.len() implies alphanumeric(#[trigger] s[m])
            || s[m] == '_' by {
            lemma_window(s, k, t, m - k);
        }
        lemma_word_end(s, k + 1, n.len() - 1);
    } else {
        lemma_string_at(s, k, n);
    }
}

/// The first character of a field's text is not white space.
proof fn lemma_field_first_char(n: Seq<char>)
    requires
        field_name_ok(n),
    ensures
        field_name_text(n).len() > 0,
        !whitespace(field_name_text(n)[0]),
        field_name_text(n)[0] != '}',
{
    if ident_like(n) {
        assert(field_name_text(n)[0] == n[0]);
    } else {
        assert(field_name_text(n)[0] == '"');
    }
}

#[verifier::rlimit(100)]
proof fn lemma_field_at(s: Seq<char>, k: int, f: (Seq<char>, Model), tail: Seq<char>)
    requires
        field_name_ok(f.0),
        names_read_back(f.1),
        model_text(f.1) is Some,
        tail.len() > 0,
        tail[0] == ',' || tail[0] == ' ',
        starts_with(s, k, field_text(f) + tail),
    ensures
        field_rule(s, k) == Step::Done((f.0, read_as(f.1)), k + field_text(f).len()),
        starts_with(s, k + field_text(f).len(), tail),
    decreases f, 5nat,
{
    let vt = model_text(f.1).unwrap();
    let nt = field_name_text(f.0);
    assert(field_text(f) + tail =~= nt + (seq![':', ' '] + (vt + tail)));
    lemma_window_split(s, k, nt, seq![':', ' '] + (vt + tail));
    let j = k + nt.len();
    lemma_window_split(s, j, seq![':', ' '], vt + tail);
    lemma_window_split(s, j + 2, vt, tail);
    assert(nt + (seq![':', ' '] + (vt + tail)) =~= (nt + seq![':']) + (seq![' '] + (vt + tail)));
    lemma_window_split(s, k, nt + seq![':'], seq![' '] + (vt + tail));
    lemma_field_name_at(s, k, f.0);
    lemma_window(s, j, seq![':', ' '], 0);
    lemma_window(s, j, seq![':', ' '], 1);
    lemma_first_char(f.1);
    lemma_window(s, j + 2, vt, 0);
    lemma_ws_skip(s, j, 0);
    lemma_ws_skip(s, j + 1, 1);
    let e = j + 2 + vt.len();
    lemma_window(s, e, tail, 0);
    lemma_value_at(s, j + 2, f.1);
    assert(separator(s, j, ':') == (true, j + 2));
}

#[verifier::rlimit(100)]
proof fn lemma_fields_at(s: Seq<char>, k: int, fs: Seq<(Seq<char>, Model)>)
    requires
        fs.len() >= 1,
        fields_names_read_back(fs),
        fields_text(fs) is Some,
        starts_with(s, k, fields_text(fs).unwrap() + seq![' ', '}']),
    ensures
        fields_rule(s, k) == Step::Done(read_as_fields(fs), k + fields_text(fs).unwrap().len()),
    decreases fs, 6nat,
{
    lemma_fields_text_front(fs);
    let f = fs[0];
    let ft = field_text(f);
    let whole = fields_text(fs).unwrap();
    let tail = if fs.len() == 1 {
        seq![' ', '}']
    } else {
        seq![',', ' '] + fields_text(fs.drop_first()).unwrap() + seq![' ', '}']
    };
    assert(whole + seq![' ', '}'] =~= ft + tail);
    lemma_field_at(s, k, f, tail);
    let e = k + ft.len();
    lemma_window(s, e, tail, 0);
    lemma_window(s, e, tail, 1);
    if fs.len() == 1 {
        lemma_ws_skip(s, e, 1);
        assert(separator(s, e, ',') == (false, e + 1));
        assert(fs.drop_first() =~= Seq::<(Seq<char>, Model)>::empty());
        assert(read_as_fields(fs.drop_first()) == Seq::<(Seq<char>, Model)>::empty());
        assert(read_as_fields(fs) =~= seq![(f.0, read_as(f.1))]);
    } else {
        let rest = fs.drop_first();
        let rt = fields_text(rest).unwrap();
        lemma_ws_skip(s, e, 0);
        lemma_fields_text_front(rest);
        assert(tail =~= seq![',', ' '] + (rt + seq![' ', '}']));
        lemma_window_split(s, e, seq![',', ' '], rt + seq![' ', '}']);
        lemma_window(s, e + 2, rt + seq![' ', '}'], 0);
        assert(fields_names_read_back(rest));
        assert(field_name_ok(rest[0].0));
        lemma_field_first_char(rest[0].0);
        assert(rt[0] == field_name_text(rest[0].0)[0]);
        lemma_ws_skip(s, e + 1, 1);
        assert(separator(s, e, ',') == (true, e + 2));
        lemma_fields_at(s, e + 2, rest);
    }
}

#[verifier::rlimit(100)]
proof fn lemma_elems_at(s: Seq<char>, k: int, vs: Seq<Model>)
    requires
        vs.len() >= 1,
        elems_names_read_back(vs),
        elems_text(vs) is Some,
        starts_with(s, k, elems_text(vs).unwrap() + seq![')']),
    ensures
        elems_rule(s, k) == Step::Done(read_as_elems(vs), k + elems_text(vs).unwrap().len()),
    decreases vs, 6nat,
{
    lemma_elems_text_front(vs);
    let v = vs[0];
    let vt = model_text(v).unwrap();
    let whole = elems_text(vs).unwrap();
    let tail = if vs.len() == 1 {
        seq![')']
    } else {
        seq![',', ' '] + elems_text(vs.drop_first()).unwrap() + seq![')']
    };
    assert(whole + seq![')'] =~= vt + tail);
    lemma_window_split(s, k, vt, tail);
    let e = k + vt.len();
    lemma_window(s, e, tail, 0);
    lemma_value_at(s, k, v);
    lemma_ws_skip(s, e, 0);
    if vs.len() == 1 {
        assert(vs.drop_first() =~= Seq::<Model>::empty());
        assert(read_as_elems(vs.drop_first()) == Seq::<Model>::empty());
        assert(read_as_elems(vs) =~= seq![read_as(v)]);
    } else {
        let rest = vs.drop_first();
        let rt = elems_text(rest).unwrap();
        lemma_elems_text_front(rest);
        assert(tail =~= seq![',', ' '] + (rt + seq![')']));
        lemma_window_split(s, e, seq![',', ' '], rt + seq![')']);
        lemma_window(s, e, seq![',', ' '], 1);
        lemma_window(s, e + 2, rt + seq![')'], 0);
        assert(elems_names_read_back(rest));
        assert(names_read_back(rest[0]));
        lemma_first_char(rest[0]);
        assert(rt[0] == model_text(rest[0]).unwrap()[0]);
        lemma_ws_skip(s, e + 1, 1);
        lemma_elems_at(s, e + 2, rest);
    }
}

#[verifier::rlimit(100)]
proof fn lemma_composite_at(s: Seq<char>, i: int, c: CompositeModel)
    requires
        composite_names_read_back(c),
        composite_text(c) is Some,
        starts_with(s, i, composite_text(c).unwrap()),
    ensures
        c is Named ==> named_rule(s, i) == Step::Done(
            read_as_composite(c),
            i + composite_text(c).unwrap().len(),
        ),
        c is Unnamed ==> named_rule(s, i) is NoMatch && unnamed_rule(s, i) == Step::Done(
            read_as_composite(c),
            i + composite_text(c).unwrap().len(),
        ),
    decreases c, 2nat,
{
    let t = composite_text(c).unwrap();
    lemma_window(s, i, t, 0);
    match c {
        CompositeModel::Named(fs) => {
            let ft = fields_text(fs).unwrap();
            assert(t =~= seq!['{', ' '] + (ft + seq![' ', '}']));
            lemma_window_split(s, i, seq!['{', ' '], ft + seq![' ', '}']);
            lemma_window(s, i, seq!['{', ' '], 1);
            if fs.len() == 0 {
                assert(ft =~= Seq::<char>::empty());
                lemma_window(s, i + 2, ft + seq![' ', '}'], 0);
                lemma_window(s, i + 2, ft + seq![' ', '}'], 1);
                lemma_ws_skip(s, i + 1, 2);
                assert(fs =~= Seq::<(Seq<char>, Model)>::empty());
                assert(ws_end(s, i + 1) == i + 3);
                assert(named_rule(s, i) == Step::Done(read_as_composite(c), i + 4));
                assert(t.len() == 4);
            } else {
                lemma_fields_text_front(fs);
                lemma_window(s, i + 2, ft + seq![' ', '}'], 0);
                assert(fields_names_read_back(fs));
                assert(field_name_ok(fs[0].0));
                lemma_field_first_char(fs[0].0);
                assert(ft[0] == field_name_text(fs[0].0)[0]);
                lemma_ws_skip(s, i + 1, 1);
                lemma_fields_at(s, i + 2, fs);
                lemma_window(s, i + 2, ft + seq![' ', '}'], ft.len() as int);
                lemma_window(s, i + 2, ft + seq![' ', '}'], ft.len() + 1int);
                lemma_ws_skip(s, i + 2 + ft.len(), 1);
                assert(ws_end(s, i + 1) == i + 2);
                assert(ws_end(s, i + 2 + ft.len()) == i + 3 + ft.len());
                assert(named_rule(s, i) == Step::Done(read_as_composite(c), i + 4 + ft.len()));
                assert(t.len() == 4 + ft.len());
            }
            assert(named_rule(s, i) == Step::Done(
                read_as_composite(c),
                i + composite_text(c).unwrap().len(),
            ));
        },
        CompositeModel::Unnamed(vs) => {
            let et = elems_text(vs).unwrap();
            assert(t =~= seq!['('] + (et + seq![')']));
            lemma_window_split(s, i, seq!['('], et + seq![')']);
            lemma_window(s, i + 1, et + seq![')'], 0);
            if vs.len() == 0 {
                assert(et =~= Seq::<char>::empty());
                lemma_ws_skip(s, i + 1, 0);
                assert(vs =~= Seq::<Model>::empty());
                assert(unnamed_rule(s, i) == Step::Done(read_as_composite(c), i + 2));
            } else {
                lemma_elems_text_front(vs);
                lemma_first_char(vs[0]);
                assert(et[0] == model_text(vs[0]).unwrap()[0]);
                lemma_ws_skip(s, i + 1, 0);
                lemma_elems_at(s, i + 1, vs);
                lemma_window(s, i + 1, et + seq![')'], et.len() as int);
                lemma_ws_skip(s, i + 1 + et.len(), 0);
                assert(ws_end(s, i + 1) == i + 1);
                assert(!(s[i + 1] == ')'));
                assert(unnamed_rule(s, i) == Step::Done(read_as_composite(c), i + 2 + et.len()));
            }
        },
    }
}

proof fn lemma_not_bool(s: Seq<char>, i: int)
    requires
        0 <= i < s.len(),
        s[i] != 't',
        s[i] != 'f',
    ensures
        bool_rule(s, i) is NoMatch,
{
    lemma_not_starting(s, i, true_text());
    lemma_not_starting(s, i, false_text());
}

/// A bare name followed by a character that no literal holds does not start a literal
/// that the name itself does not start.
proof fn lemma_name_not_literal(s: Seq<char>, i: int, n: Seq<char>, lit: Seq<char>, next: char)
    requires
        starts_with(s, i, n + seq![next]),
        !starts_with(n, 0, lit),
        forall|k: int| 0 <= k < lit.len() ==> lit[k] != next,
    ensures
        !starts_with(s, i, lit),
{
    if starts_with(s, i, lit) {
        if n.len() >= lit.len() {
            assert forall|k: int| 0 <= k < lit.len() implies n.subrange(0, lit.len() as int)[k]
                == lit[k] by {
                lemma_window(s, i, lit, k);
                lemma_window(s, i, n + seq![next], k);
            }
            assert(n.subrange(0, lit.len() as int) =~= lit);
        } else {
            lemma_window(s, i, lit, n.len() as int);
            lemma_window(s, i, n + seq![next], n.len() as int);
        }
    }
}

#[verifier::rlimit(100)]
proof fn lemma_primitive_at(s: Seq<char>, i: int, p: PrimitiveModel)
    requires
        primitive_text(p) is Some,
        starts_with(s, i, primitive_text(p).unwrap()),
        ends_number(s, i + primitive_text(p).unwrap().len()),
    ensures
        value_rule(s, i) == Step::Done(
            read_as(Model::Primitive(p)),
            i + primitive_text(p).unwrap().len(),
        ),
{
    let t = primitive_text(p).unwrap();
    lemma_first_char(Model::Primitive(p));
    lemma_window(s, i, t, 0);
    match p {
        PrimitiveModel::Bool(b) => {
            if b {
                assert(t =~= true_text());
            } else {
                lemma_not_starting(s, i, true_text());
                assert(t =~= false_text());
            }
        },
        PrimitiveModel::Char(c) => {
            lemma_not_bool(s, i);
            lemma_char_at(s, i, c);
        },
        PrimitiveModel::String(st) => {
            lemma_not_bool(s, i);
            lemma_string_at(s, i, st);
        },
        PrimitiveModel::U128(n) => {
            lemma_decimal_text(n as nat);
            lemma_not_bool(s, i);
            lemma_unsigned_at(s, i, n);
        },
        PrimitiveModel::I128(n) => {
            if n >= 0 {
                lemma_decimal_text(n as nat);
            }
            lemma_not_bool(s, i);
            if n < 0 {
                lemma_signed_at(s, i, n);
            } else {
                assert(decimal_text((n as u128) as nat) == t);
                lemma_unsigned_at(s, i, n as u128);
            }
        },
        _ => {},
    }
}

#[verifier::rlimit(100)]
proof fn lemma_variant_at(s: Seq<char>, i: int, name: Seq<char>, c: CompositeModel)
    requires
        variant_name_ok(name),
        composite_names_read_back(c),
        composite_text(c) is Some,
        starts_with(s, i, variant_name_text(name) + composite_text(c).unwrap()),
    ensures
        value_rule(s, i) == Step::Done(
            Model::Variant(name, read_as_composite(c)),
            i + variant_name_text(name).len() + composite_text(c).unwrap().len(),
        ),
    decreases c, 3nat,
{
    let nt = variant_name_text(name);
    let ct = composite_text(c).unwrap();
    let t = nt + ct;
    lemma_window_split(s, i, nt, ct);
    lemma_window(s, i + nt.len(), ct, 0);
    assert(ct[0] == '{' || ct[0] == '(');
    lemma_ws_skip(s, i + nt.len(), 0);
    lemma_composite_at(s, i + nt.len(), c);
    if bare_variant_name(name) {
        lemma_window(s, i, nt, 0);
        assert(nt + ct =~= (name + seq![ct[0]]) + ct.drop_first());
        lemma_window_split(s, i, name + seq![ct[0]], ct.drop_first());
        lemma_name_not_literal(s, i, name, true_text(), ct[0]);
        lemma_name_not_literal(s, i, name, false_text(), ct[0]);
        assert forall|k: int| i + 1 <= k < i + name.len() implies alphanumeric(#[trigger] s[k])
            || s[k] == '_' by {
            lemma_window(s, i, nt, k - i);
        }
        lemma_word_end(s, i + 1, name.len() - 1);
        if name.len() > 1 {
            lemma_window(s, i, nt, 1);
        }
        assert(s.subrange(i, i + name.len()) == name);
        assert(variant_name_rule(s, i) == Some((name, i + name.len())));
    } else {
        lemma_window(s, i, nt, 0);
        lemma_window(s, i, nt, 1);
        assert(nt =~= seq!['v'] + string_text(name));
        lemma_window_split(s, i, seq!['v'], string_text(name));
        lemma_string_at(s, i + 1, name);
        lemma_not_bool(s, i);
        assert(variant_name_rule(s, i) == Some((name, i + nt.len())));
    }
}

#[verifier::rlimit(100)]
proof fn lemma_value_at(s: Seq<char>, i: int, m: Model)
    requires
        names_read_back(m),
        model_text(m) is Some,
        starts_with(s, i, model_text(m).unwrap()),
        ends_number(s, i + model_text(m).unwrap().len()),
    ensures
        value_rule(s, i) == Step::Done(read_as(m), i + model_text(m).unwrap().len()),
    decreases m, 4nat,
{
    let t = model_text(m).unwrap();
    match m {
        Model::Primitive(p) => {
            lemma_primitive_at(s, i, p);
        },
        Model::BitSequence(b) => {
            lemma_window(s, i, t, 0);
            lemma_not_bool(s, i);
            lemma_bits_at(s, i, b);
        },
        Model::Composite(c) => {
            lemma_window(s, i, t, 0);
            lemma_not_bool(s, i);
            lemma_composite_at(s, i, c);
        },
        Model::Variant(name, c) => {
            lemma_variant_at(s, i, name, c);
        },
    }
}

/// Reading the canonical text of a value gives back the value with its context left
/// out, and uses up the whole text.
pub proof fn lemma_round_trip<T>(v: Value<T>)
    requires
        model_text(v.model()) is Some,
        reads_back(v.model()),
    ensures
        value_rule(model_text(v.model()).unwrap(), 0) == Step::Done(
            v.model(),
            model_text(v.model()).unwrap().len() as int,
        ),
{
    let t = model_text(v.model()).unwrap();
    assert(t.subrange(0, t.len() as int) =~= t);
    lemma_value_at(t, 0, v.model());
}

proof fn lemma_read_as_fields(fs: Seq<(Seq<char>, Model)>)
    ensures
        read_as_fields(fs).len() == fs.len(),
        forall|k: int|
            0 <= k < fs.len() ==> #[trigger] read_as_fields(fs)[k] == (fs[k].0, read_as(fs[k].1)),
    decreases fs.len(),
{
    if fs.len() > 0 {
        lemma_read_as_fields(fs.drop_first());
        assert forall|k: int| 0 <= k < fs.len() implies #[trigger] read_as_fields(fs)[k] == (
            fs[k].0,
            read_as(fs[k].1),
        ) by {
            if k > 0 {
                assert(read_as_fields(fs)[k] == read_as_fields(fs.drop_first())[k - 1]);
            }
        }
    }
}

proof fn lemma_read_as_elems(vs: Seq<Model>)
    ensures
        read_as_elems(vs).len() == vs.len(),
        forall|k: int| 0 <= k < vs.len() ==> #[trigger] read_as_elems(vs)[k] == read_as(vs[k]),
    decreases vs.len(),
{
    if vs.len() > 0 {
        lemma_read_as_elems(vs.drop_first());
        assert forall|k: int| 0 <= k < vs.len() implies #[trigger] read_as_elems(vs)[k] == read_as(
            vs[k],
        ) by {
            if k > 0 {
                assert(read_as_elems(vs)[k] == read_as_elems(vs.drop_first())[k - 1]);
            }
        }
    }
}

proof fn lemma_fields_text_pointwise(a: Seq<(Seq<char>, Model)>, b: Seq<(Seq<char>, Model)>)
    requires
        a.len() == b.len(),
        forall|k: int| 0 <= k < a.len() ==> #[trigger] a[k].0 == b[k].0 && model_text(a[k].1)
            == model_text(b[k].1),
    ensures
        fields_text(a) == fields_text(b),
    decreases a.len(),
{
    if a.len() > 0 {
        lemma_fields_text_pointwise(a.drop_last(), b.drop_last());
        assert(a[a.len() - 1].0 == b[b.len() - 1].0);
    }
}

proof fn lemma_elems_text_pointwise(a: Seq<Model>, b: Seq<Model>)
    requires
        a.len() == b.len(),
        forall|k: int| 0 <= k < a.len() ==> model_text(#[trigger] a[k]) == model_text(b[k]),
    ensures
        elems_text(a) == elems_text(b),
    decreases a.len(),
{
    if a.len() > 0 {
        lemma_elems_text_pointwise(a.drop_last(), b.drop_last());
        assert(model_text(a[a.len() - 1]) == model_text(b[b.len() - 1]));
    }
}

/// Reading a value as its text reads back keeps the text.
proof fn lemma_read_as_text(m: Model)
    ensures
        model_text(read_as(m)) == model_text(m),
    decreases m,
{
    match m {
        Model::Composite(c) => {
            lemma_read_as_composite_text(c);
        },
        Model::Variant(n, c) => {
            lemma_read_as_composite_text(c);
        },
        Model::Primitive(PrimitiveModel::I128(n)) => {
            if n >= 0 {
                assert(decimal_text((n as u128) as nat) == signed_text(n as int));
            }
        },
        _ => {},
    }
}

proof fn lemma_read_as_composite_text(c: CompositeModel)
    ensures
        composite_text(read_as_composite(c)) == composite_text(c),
    decreases c,
{
    match c {
        CompositeModel::Named(fs) => {
            lemma_read_as_fields(fs);
            assert forall|k: int| 0 <= k < fs.len() implies #[trigger] read_as_fields(fs)[k].0
                == fs[k].0 && model_text(read_as_fields(fs)[k].1) == model_text(fs[k].1) by {
                lemma_read_as_text(fs[k].1);
            }
            lemma_fields_text_pointwise(read_as_fields(fs), fs);
        },
        CompositeModel::Unnamed(vs) => {
            lemma_read_as_elems(vs);
            assert forall|k: int| 0 <= k < vs.len() implies model_text(
                #[trigger] read_as_elems(vs)[k],
            ) == model_text(vs[k]) by {
                lemma_read_as_text(vs[k]);
            }
            lemma_elems_text_pointwise(read_as_elems(vs), vs);
        },
    }
}

/// Writing out what the canonical text of a value reads back as gives the same text.
pub proof fn lemma_canonical_text_is_stable<T>(v: Value<T>)
    requires
        model_text(v.model()) is Some,
        names_read_back(v.model()),
    ensures
        value_rule(model_text(v.model()).unwrap(), 0) matches Step::Done(m, _) && model_text(m)
            == model_text(v.model()),
{
    let t = model_text(v.model()).unwrap();
    assert(t.subrange(0, t.len() as int) =~= t);
    lemma_value_at(t, 0, v.model());
    lemma_read_as_text(v.model());
}

} // verus!
