//! The polymorphic value model of the AMQP 1.0 type system.
//!
//! `Value` is the owned sum of every primitive the wire format can carry.  Its
//! mathematical view is `ValueModel`, the same sum over `Seq`-based leaves,
//! which the wire-format specification functions and all contracts speak of.

use vstd::prelude::*;
use vstd::utf8::{valid_utf8, decode_utf8, encode_utf8};

verus! {

broadcast use vstd::std_specs::vec::axiom_vec_index_decreases, vstd::seq::axiom_seq_index_decreases, vstd::seq::group_seq_axioms;

/// An AMQP symbol: an ASCII identifier, carried as opaque bytes on the wire
/// and kept distinct from both `Binary` and `String`.
#[derive(Clone, Debug, PartialEq, Eq, PartialOrd, Ord)]
pub struct Symbol {
    data: Vec<u8>,
}

impl View for Symbol {
    type V = Seq<u8>;

    closed spec fn view(&self) -> Seq<u8> {
        self.data@
    }
}

impl Symbol {
    /// Builds a symbol by copying the given bytes.
    pub fn from_slice(data: &[u8]) -> (r: Symbol)
        ensures
            r@ == data@,
    {
        let mut vec: Vec<u8> = Vec::new();
        vec.extend_from_slice(data);
        Symbol { data: vec }
    }

    /// Builds a symbol from the UTF-8 bytes of the given text.
    pub fn from_str(data: &str) -> (r: Symbol)
        ensures
            r@ == encode_utf8(data@),
    {
        Symbol::from_slice(data.as_bytes())
    }

    /// Builds a symbol that takes ownership of the given bytes.
    pub fn from_vec(data: Vec<u8>) -> (r: Symbol)
        ensures
            r@ == data@,
    {
        Symbol { data }
    }

    /// Builds a symbol from the UTF-8 bytes of the given text.
    pub fn from_string(data: &str) -> (r: Symbol)
        ensures
            r@ == encode_utf8(data@),
    {
        Symbol::from_str(data)
    }

    /// Borrows the byte payload of the symbol.
    pub fn to_slice(&self) -> (r: &[u8])
        ensures
            r@ == self@,
    {
        self.data.as_slice()
    }
}

/// One key/value entry of an AMQP map value.
#[derive(Debug, PartialEq)]
pub struct MapEntry {
    pub key: Value,
    pub value: Value,
}

/// The owned sum of the AMQP primitive types.
///
/// A `Mapping` is kept as a sequence of key/value entries; the codec encodes
/// the entries in the order given and decoding preserves wire order.
#[derive(Debug, PartialEq)]
pub enum Value {
    Described(Box<Value>, Box<Value>),
    Null,
    Bool(bool),
    Ubyte(u8),
    Ushort(u16),
    Uint(u32),
    Ulong(u64),
    Byte(i8),
    Short(i16),
    Int(i32),
    Long(i64),
    String(String),
    Binary(Vec<u8>),
    Symbol(Symbol),
    Array(Vec<Value>),
    List(Vec<Value>),
    Mapping(Vec<MapEntry>),
}

/// The mathematical model of a `Value`: the same sum with sequence leaves.
#[verifier::ext_equal]
pub enum ValueModel {
    Described(Box<ValueModel>, Box<ValueModel>),
    Null,
    Bool(bool),
    Ubyte(u8),
    Ushort(u16),
    Uint(u32),
    Ulong(u64),
    Byte(i8),
    Short(i16),
    Int(i32),
    Long(i64),
    String(Seq<char>),
    Binary(Seq<u8>),
    Symbol(Seq<u8>),
    Array(Seq<ValueModel>),
    List(Seq<ValueModel>),
    Mapping(Seq<(ValueModel, ValueModel)>),
}

/// The model of an owned value.
pub open spec fn value_model(v: Value) -> ValueModel
    decreases v,
{
    match v {
        Value::Described(d, b) => ValueModel::Described(
            Box::new(value_model(*d)),
            Box::new(value_model(*b)),
        ),
        Value::Null => ValueModel::Null,
        Value::Bool(b) => ValueModel::Bool(b),
        Value::Ubyte(n) => ValueModel::Ubyte(n),
        Value::Ushort(n) => ValueModel::Ushort(n),
        Value::Uint(n) => ValueModel::Uint(n),
        Value::Ulong(n) => ValueModel::Ulong(n),
        Value::Byte(n) => ValueModel::Byte(n),
        Value::Short(n) => ValueModel::Short(n),
        Value::Int(n) => ValueModel::Int(n),
        Value::Long(n) => ValueModel::Long(n),
        Value::String(s) => ValueModel::String(s@),
        Value::Binary(b) => ValueModel::Binary(b@),
        Value::Symbol(s) => ValueModel::Symbol(s@),
        Value::Array(es) => ValueModel::Array(
            Seq::new(es@.len(), |i: int| if 0 <= i < es@.len() {
                value_model(es@[i])
            } else {
                ValueModel::Null
            }),
        ),
        Value::List(es) => ValueModel::List(
            Seq::new(es@.len(), |i: int| if 0 <= i < es@.len() {
                value_model(es@[i])
            } else {
                ValueModel::Null
            }),
        ),
        Value::Mapping(ps) => ValueModel::Mapping(
            Seq::new(ps@.len(), |i: int| if 0 <= i < ps@.len() {
                (value_model(ps@[i].key), value_model(ps@[i].value))
            } else {
                (ValueModel::Null, ValueModel::Null)
            }),
        ),
    }
}

impl View for Value {
    type V = ValueModel;

    open spec fn view(&self) -> ValueModel {
        value_model(*self)
    }
}

/// The models of a sequence of owned values.
pub open spec fn seq_model(s: Seq<Value>) -> Seq<ValueModel> {
    Seq::new(s.len(), |i: int| value_model(s[i]))
}

/// The models of a sequence of owned key/value entries.
pub open spec fn pair_seq_model(s: Seq<MapEntry>) -> Seq<(ValueModel, ValueModel)> {
    Seq::new(s.len(), |i: int| (value_model(s[i].key), value_model(s[i].value)))
}

/// Holds when the value carries text: a string, or a symbol whose byte
/// payload is valid UTF-8.
pub open spec fn has_text(m: ValueModel) -> bool {
    match m {
        ValueModel::String(_) => true,
        ValueModel::Symbol(bs) => valid_utf8(bs),
        _ => false,
    }
}

/// The text carried by a value for which `has_text` holds.
pub open spec fn text_of(m: ValueModel) -> Seq<char>
    recommends
        has_text(m),
{
    match m {
        ValueModel::String(cs) => cs,
        ValueModel::Symbol(bs) => decode_utf8(bs),
        _ => Seq::empty(),
    }
}

/// The kinds of scalar payload a value can carry.
#[derive(Clone, Copy, Debug, PartialEq, Eq, PartialOrd, Ord)]
pub enum ValueKind {
    Null,
    Bool,
    Ubyte,
    Ushort,
    Uint,
    Ulong,
    Byte,
    Short,
    Int,
    Long,
    String,
    Binary,
    Symbol,
}

/// The AMQP primitive type codes: one member for each defined wire encoding.
/// The constructor byte `0x00` introducing a described value is listed as
/// `Described`; it is not itself a primitive encoding.
#[derive(Clone, Copy, Debug, PartialEq, Eq, Structural)]
pub enum TypeCode {
    Described,
    Null,
    Boolean,
    Booleantrue,
    Booleanfalse,
    Ubyte,
    Ushort,
    Uint,
    Uintsmall,
    Uint0,
    Ulong,
    Ulongsmall,
    Ulong0,
    Byte,
    Short,
    Int,
    Intsmall,
    Long,
    Longsmall,
    Bin8,
    Bin32,
    Str8,
    Str32,
    Sym8,
    Sym32,
    List0,
    List8,
    List32,
    Map8,
    Map32,
    Array8,
    Array32,
}

/// The model of a list value is the list of the element models.
pub proof fn lemma_model_of_list(es: Vec<Value>)
    ensures
        value_model(Value::List(es)) == ValueModel::List(seq_model(es@)),
{
    let m = value_model(Value::List(es));
    assert(m is List);
    let a = m->List_0;
    assert(a.len() == es@.len());
    assert forall|i: int| 0 <= i < es@.len() implies a[i] == seq_model(es@)[i] by {}
    assert(a =~= seq_model(es@));
}

/// The model of an array value is the array of the element models.
pub proof fn lemma_model_of_array(es: Vec<Value>)
    ensures
        value_model(Value::Array(es)) == ValueModel::Array(seq_model(es@)),
{
    let m = value_model(Value::Array(es));
    assert(m is Array);
    let a = m->Array_0;
    assert(a.len() == es@.len());
    assert forall|i: int| 0 <= i < es@.len() implies a[i] == seq_model(es@)[i] by {}
    assert(a =~= seq_model(es@));
}

/// The model of a map value is the entry-wise model of its entries.
pub proof fn lemma_model_of_mapping(ps: Vec<MapEntry>)
    ensures
        value_model(Value::Mapping(ps)) == ValueModel::Mapping(pair_seq_model(ps@)),
{
    let m = value_model(Value::Mapping(ps));
    assert(m is Mapping);
    let a = m->Mapping_0;
    assert(a.len() == ps@.len());
    assert forall|i: int| 0 <= i < ps@.len() implies a[i] == pair_seq_model(ps@)[i] by {}
    assert(a =~= pair_seq_model(ps@));
}

} // verus!
