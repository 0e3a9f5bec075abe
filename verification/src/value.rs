//! The Value model: a closed tagged union over every datum the codecs
//! handle, together with its mathematical model (`ValueModel`), which the
//! codec contracts are stated over.

use vstd::prelude::*;

verus! {

broadcast use {vstd::std_specs::vec::group_vec_axioms, vstd::seq::axiom_seq_index_decreases,
vstd::seq::axiom_seq_subrange_decreases};

/// The mathematical model of a [`Value`]: the same tagged union over
/// abstract sequences instead of heap-allocated strings and vectors.
/// Structural equality of two `Value`s is equality of their models.
pub ghost enum ValueModel {
    /// The absent / null datum.
    Null,
    /// A boolean.
    Bool(bool),
    /// A signed integer.
    Int(i64),
    /// A floating-point number, carried as its decimal rendering. The
    /// rendering is produced at the system boundary; the codecs treat it
    /// as opaque text, so no floating-point arithmetic happens here.
    Float(Seq<char>),
    /// An arbitrary-precision decimal number, carried as its exact
    /// decimal rendering.
    Decimal(Seq<char>),
    /// A text string.
    Strand(Seq<char>),
    /// A byte string.
    Bytes(Seq<u8>),
    /// A duration: whole seconds and additional nanoseconds.
    Duration(u64, u32),
    /// A record identifier: table name and record key.
    Thing(Seq<char>, Seq<char>),
    /// An ordered sequence of values.
    Array(Seq<ValueModel>),
    /// An ordered mapping from string keys to values; insertion order is
    /// part of the model.
    Object(Seq<(Seq<char>, ValueModel)>),
    /// A nested sub-query expression, carried as its source text.
    Query(Seq<char>),
}

/// One key/value entry of an object `Value`. Entries keep the insertion
/// order of the object they belong to.
#[derive(Debug, PartialEq, Eq)]
pub struct Entry {
    pub key: String,
    pub value: Value,
}

/// The canonical in-memory representation of a parsed datum: a closed
/// tagged union. A `Value` is constructed by a codec's decode operation or
/// directly by the caller; it is never mutated by formatting.
#[derive(Debug, PartialEq, Eq)]
pub enum Value {
    /// The absent / null datum.
    Null,
    /// A boolean.
    Bool(bool),
    /// A signed integer.
    Int(i64),
    /// A floating-point number as its decimal rendering (see
    /// [`ValueModel::Float`]).
    Float(String),
    /// An arbitrary-precision decimal number as its exact rendering.
    Decimal(String),
    /// A text string.
    Strand(String),
    /// A byte string.
    Bytes(Vec<u8>),
    /// A duration: whole seconds and additional nanoseconds.
    Duration(u64, u32),
    /// A record identifier: table name and record key.
    Thing(String, String),
    /// An ordered sequence of values.
    Array(Vec<Value>),
    /// An ordered mapping from string keys to values.
    Object(Vec<Entry>),
    /// A nested sub-query expression, carried as its source text.
    Query(String),
}

/// The model of one value.
pub open spec fn model_of(v: Value) -> ValueModel
    decreases v,
{
    match v {
        Value::Null => ValueModel::Null,
        Value::Bool(b) => ValueModel::Bool(b),
        Value::Int(i) => ValueModel::Int(i),
        Value::Float(s) => ValueModel::Float(s@),
        Value::Decimal(s) => ValueModel::Decimal(s@),
        Value::Strand(s) => ValueModel::Strand(s@),
        Value::Bytes(b) => ValueModel::Bytes(b@),
        Value::Duration(s, n) => ValueModel::Duration(s, n),
        Value::Thing(t, i) => ValueModel::Thing(t@, i@),
        Value::Array(items) => ValueModel::Array(models_of(items@)),
        Value::Object(entries) => ValueModel::Object(entry_models_of(entries@)),
        Value::Query(s) => ValueModel::Query(s@),
    }
}

/// The models of a sequence of values, in order.
pub open spec fn models_of(s: Seq<Value>) -> Seq<ValueModel>
    decreases s,
{
    if s.len() == 0 {
        Seq::empty()
    } else {
        models_of(s.drop_last()).push(model_of(s.last()))
    }
}

/// The models of a sequence of object entries, in order.
pub open spec fn entry_models_of(s: Seq<Entry>) -> Seq<(Seq<char>, ValueModel)>
    decreases s,
{
    if s.len() == 0 {
        Seq::empty()
    } else {
        entry_models_of(s.drop_last()).push((s.last().key@, model_of(s.last().value)))
    }
}

impl View for Value {
    type V = ValueModel;

    open spec fn view(&self) -> ValueModel {
        model_of(*self)
    }
}

impl View for Entry {
    type V = (Seq<char>, ValueModel);

    open spec fn view(&self) -> (Seq<char>, ValueModel) {
        (self.key@, model_of(self.value))
    }
}

/// Each element of a sequence of values models to the matching element of
/// `models_of` that sequence.
pub proof fn lemma_models_of_index(s: Seq<Value>, i: int)
    requires
        0 <= i < s.len(),
    ensures
        models_of(s).len() == s.len(),
        models_of(s)[i] == model_of(s[i]),
    decreases s,
{
    if s.len() > 0 {
        if i < s.len() - 1 {
            lemma_models_of_index(s.drop_last(), i);
        } else {
            lemma_models_of_len(s.drop_last());
        }
    }
}

/// `models_of` keeps the length of the sequence.
pub proof fn lemma_models_of_len(s: Seq<Value>)
    ensures
        models_of(s).len() == s.len(),
    decreases s,
{
    if s.len() > 0 {
        lemma_models_of_len(s.drop_last());
    }
}

/// Each entry of a sequence of entries models to the matching element of
/// `entry_models_of` that sequence.
pub proof fn lemma_entry_models_of_index(s: Seq<Entry>, i: int)
    requires
        0 <= i < s.len(),
    ensures
        entry_models_of(s).len() == s.len(),
        entry_models_of(s)[i] == (s[i].key@, model_of(s[i].value)),
    decreases s,
{
    if s.len() > 0 {
        if i < s.len() - 1 {
            lemma_entry_models_of_index(s.drop_last(), i);
        } else {
            lemma_entry_models_of_len(s.drop_last());
        }
    }
}

/// Appending a value appends its model.
pub proof fn lemma_models_of_push(s: Seq<Value>, v: Value)
    ensures
        models_of(s.push(v)) == models_of(s).push(model_of(v)),
{
    assert(s.push(v).drop_last() =~= s);
}

/// Appending an entry appends its model.
pub proof fn lemma_entry_models_of_push(s: Seq<Entry>, e: Entry)
    ensures
        entry_models_of(s.push(e)) == entry_models_of(s).push((e.key@, model_of(e.value))),
{
    assert(s.push(e).drop_last() =~= s);
}

/// `entry_models_of` keeps the length of the sequence.
pub proof fn lemma_entry_models_of_len(s: Seq<Entry>)
    ensures
        entry_models_of(s).len() == s.len(),
    decreases s,
{
    if s.len() > 0 {
        lemma_entry_models_of_len(s.drop_last());
    }
}

} // verus!
