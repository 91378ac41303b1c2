use vstd::prelude::*;
use vstd::string::*;

verus! {

broadcast use vstd::std_specs::vec::axiom_vec_decreases_to_view,
    vstd::std_specs::vec::axiom_vec_index_decreases,
    vstd::seq::axiom_seq_index_decreases;

/// A dynamically typed value, tagged with some context that the text codec ignores.
#[derive(Debug, PartialEq)]
pub struct Value<T> {
    pub value: ValueDef<T>,
    pub context: T,
}

/// The shape of a value.
#[derive(Debug, PartialEq)]
pub enum ValueDef<T> {
    Composite(Composite<T>),
    Variant(Variant<T>),
    BitSequence(Vec<bool>),
    Primitive(Primitive),
}

/// An aggregate value: named fields or positional values, in order.
#[derive(Debug, PartialEq)]
pub enum Composite<T> {
    Named(Vec<(String, Value<T>)>),
    Unnamed(Vec<Value<T>>),
}

/// A tagged, enum-like value.
#[derive(Debug, PartialEq)]
pub struct Variant<T> {
    pub name: String,
    pub values: Composite<T>,
}

/// A scalar value.
#[derive(Debug, Clone, PartialEq)]
pub enum Primitive {
    Bool(bool),
    Char(char),
    String(String),
    U128(u128),
    I128(i128),
    U256([u8; 32]),
    I256([u8; 32]),
}

/// The mathematical content of a value, with its context left out.
pub enum Model {
    Composite(CompositeModel),
    Variant(Seq<char>, CompositeModel),
    BitSequence(Seq<bool>),
    Primitive(PrimitiveModel),
}

pub enum CompositeModel {
    Named(Seq<(Seq<char>, Model)>),
    Unnamed(Seq<Model>),
}

pub enum PrimitiveModel {
    Bool(bool),
    Char(char),
    String(Seq<char>),
    U128(u128),
    I128(i128),
    U256([u8; 32]),
    I256([u8; 32]),
}

pub open spec fn primitive_model(p: Primitive) -> PrimitiveModel {
    match p {
        Primitive::Bool(b) => PrimitiveModel::Bool(b),
        Primitive::Char(c) => PrimitiveModel::Char(c),
        Primitive::String(s) => PrimitiveModel::String(s@),
        Primitive::U128(n) => PrimitiveModel::U128(n),
        Primitive::I128(n) => PrimitiveModel::I128(n),
        Primitive::U256(b) => PrimitiveModel::U256(b),
        Primitive::I256(b) => PrimitiveModel::I256(b),
    }
}

pub open spec fn value_model<T>(v: Value<T>) -> Model
    decreases v,
{
    match v.value {
        ValueDef::Composite(c) => Model::Composite(composite_model(c)),
        ValueDef::Variant(var) => Model::Variant(var.name@, composite_model(var.values)),
        ValueDef::BitSequence(b) => Model::BitSequence(b@),
        ValueDef::Primitive(p) => Model::Primitive(primitive_model(p)),
    }
}

pub open spec fn composite_model<T>(c: Composite<T>) -> CompositeModel
    decreases c,
{
    match c {
        Composite::Named(vals) => CompositeModel::Named(named_models(vals@)),
        Composite::Unnamed(vals) => CompositeModel::Unnamed(unnamed_models(vals@)),
    }
}

pub open spec fn named_models<T>(s: Seq<(String, Value<T>)>) -> Seq<(Seq<char>, Model)>
    decreases s, s.len(),
{
    if s.len() == 0 {
        seq![]
    } else {
        let last = s[s.len() - 1];
        named_models(s.drop_last()).push((last.0@, value_model(last.1)))
    }
}

pub open spec fn unnamed_models<T>(s: Seq<Value<T>>) -> Seq<Model>
    decreases s, s.len(),
{
    if s.len() == 0 {
        seq![]
    } else {
        unnamed_models(s.drop_last()).push(value_model(s[s.len() - 1]))
    }
}

impl<T> Value<T> {
    pub open spec fn model(&self) -> Model {
        value_model(*self)
    }
}

impl Value<()> {
    pub fn bool(b: bool) -> (r: Value<()>)
        ensures
            r.model() == Model::Primitive(PrimitiveModel::Bool(b)),
    {
        Value { value: ValueDef::Primitive(Primitive::Bool(b)), context: () }
    }

    pub fn char(c: char) -> (r: Value<()>)
        ensures
            r.model() == Model::Primitive(PrimitiveModel::Char(c)),
    {
        Value { value: ValueDef::Primitive(Primitive::Char(c)), context: () }
    }

    pub fn string(s: &str) -> (r: Value<()>)
        ensures
            r.model() == Model::Primitive(PrimitiveModel::String(s@)),
    {
        Value { value: ValueDef::Primitive(Primitive::String(String::from_str(s))), context: () }
    }

    pub fn uint(n: u128) -> (r: Value<()>)
        ensures
            r.model() == Model::Primitive(PrimitiveModel::U128(n)),
    {
        Value { value: ValueDef::Primitive(Primitive::U128(n)), context: () }
    }

    pub fn sint(n: i128) -> (r: Value<()>)
        ensures
            r.model() == Model::Primitive(PrimitiveModel::I128(n)),
    {
        Value { value: ValueDef::Primitive(Primitive::I128(n)), context: () }
    }

    pub fn primitive(p: Primitive) -> (r: Value<()>)
        ensures
            r.model() == Model::Primitive(primitive_model(p)),
    {
        Value { value: ValueDef::Primitive(p), context: () }
    }

    pub fn bit_sequence(bits: Vec<bool>) -> (r: Value<()>)
        ensures
            r.model() == Model::BitSequence(bits@),
    {
        Value { value: ValueDef::BitSequence(bits), context: () }
    }

    pub fn composite(c: Composite<()>) -> (r: Value<()>)
        ensures
            r.model() == Model::Composite(composite_model(c)),
    {
        Value { value: ValueDef::Composite(c), context: () }
    }

    pub fn variant(v: Variant<()>) -> (r: Value<()>)
        ensures
            r.model() == Model::Variant(v.name@, composite_model(v.values)),
    {
        Value { value: ValueDef::Variant(v), context: () }
    }

    pub fn named_composite(fields: Vec<(String, Value<()>)>) -> (r: Value<()>)
        ensures
            r.model() == Model::Composite(CompositeModel::Named(named_models(fields@))),
    {
        Value::composite(Composite::Named(fields))
    }

    pub fn unnamed_composite(vals: Vec<Value<()>>) -> (r: Value<()>)
        ensures
            r.model() == Model::Composite(CompositeModel::Unnamed(unnamed_models(vals@))),
    {
        Value::composite(Composite::Unnamed(vals))
    }

    pub fn named_variant(name: &str, fields: Vec<(String, Value<()>)>) -> (r: Value<()>)
        ensures
            r.model() == Model::Variant(name@, CompositeModel::Named(named_models(fields@))),
    {
        Value::variant(Variant { name: String::from_str(name), values: Composite::Named(fields) })
    }

    pub fn unnamed_variant(name: &str, vals: Vec<Value<()>>) -> (r: Value<()>)
        ensures
            r.model() == Model::Variant(name@, CompositeModel::Unnamed(unnamed_models(vals@))),
    {
        Value::variant(Variant { name: String::from_str(name), values: Composite::Unnamed(vals) })
    }
}

} // verus!
