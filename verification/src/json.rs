//! The document model: a JSON value tree holding exactly what schema
//! inference reads of a document.
//!
//! Boolean and numeric payloads play no part in shape classification, so the
//! corresponding variants carry none; a caller that parses text with an
//! outside parser converts its tree into this one before inference.

use vstd::prelude::*;

verus! {

/// Mathematical model of one JSON value.
pub enum JsonModel {
    Null,
    Bool,
    Number,
    Text(Seq<char>),
    Arr(Seq<JsonModel>),
    Obj(Seq<(Seq<char>, JsonModel)>),
}

/// One JSON value: a scalar, a string, an array of values, or an object given
/// as its fields in document order.
pub enum JsonValue {
    Null,
    Bool,
    Number,
    Text(String),
    Arr(Vec<JsonValue>),
    Obj(Vec<(String, JsonValue)>),
}

impl JsonValue {
    /// The mathematical value of this JSON tree.
    pub open spec fn model(&self) -> JsonModel
        decreases self,
    {
        match self {
            JsonValue::Null => JsonModel::Null,
            JsonValue::Bool => JsonModel::Bool,
            JsonValue::Number => JsonModel::Number,
            JsonValue::Text(s) => JsonModel::Text(s@),
            JsonValue::Arr(vs) => JsonModel::Arr(json_list_model(vs@)),
            JsonValue::Obj(fs) => JsonModel::Obj(json_fields_model(fs@)),
        }
    }
}

/// The models of a list of JSON values, in order.
pub open spec fn json_list_model(vs: Seq<JsonValue>) -> Seq<JsonModel>
    decreases vs,
{
    if vs.len() == 0 {
        Seq::empty()
    } else {
        json_list_model(vs.drop_last()).push(vs.last().model())
    }
}

/// The models of an object's field list, in order.
pub open spec fn json_fields_model(fs: Seq<(String, JsonValue)>) -> Seq<(Seq<char>, JsonModel)>
    decreases fs,
{
    if fs.len() == 0 {
        Seq::empty()
    } else {
        json_fields_model(fs.drop_last()).push((fs.last().0@, fs.last().1.model()))
    }
}

impl View for JsonValue {
    type V = JsonModel;

    open spec fn view(&self) -> JsonModel {
        self.model()
    }
}

/// `json_list_model` maps the list elementwise.
pub proof fn lemma_json_list_model(vs: Seq<JsonValue>)
    ensures
        json_list_model(vs).len() == vs.len(),
        forall|i: int| 0 <= i < vs.len() ==> json_list_model(vs)[i] == vs[i]@,
    decreases vs.len(),
{
    if vs.len() > 0 {
        lemma_json_list_model(vs.drop_last());
        assert forall|i: int| 0 <= i < vs.len() implies json_list_model(vs)[i] == vs[i]@ by {
            if i < vs.len() - 1 {
                assert(vs.drop_last()[i] == vs[i]);
            }
        }
    }
}

/// `json_fields_model` maps the field list elementwise.
pub proof fn lemma_json_fields_model(fs: Seq<(String, JsonValue)>)
    ensures
        json_fields_model(fs).len() == fs.len(),
        forall|i: int|
            0 <= i < fs.len() ==> json_fields_model(fs)[i] == (fs[i].0@, fs[i].1@),
    decreases fs.len(),
{
    if fs.len() > 0 {
        lemma_json_fields_model(fs.drop_last());
        assert forall|i: int| 0 <= i < fs.len() implies json_fields_model(fs)[i] == (
        fs[i].0@,
        fs[i].1@,
        ) by {
            if i < fs.len() - 1 {
                assert(fs.drop_last()[i] == fs[i]);
            }
        }
    }
}

/// Size of one JSON model value, used as a termination measure.
pub open spec fn json_size(j: JsonModel) -> nat
    decreases j,
{
    match j {
        JsonModel::Null => 1,
        JsonModel::Bool => 1,
        JsonModel::Number => 1,
        JsonModel::Text(_) => 1,
        JsonModel::Arr(es) => 1 + json_list_size(es),
        JsonModel::Obj(fs) => 1 + json_fields_size(fs),
    }
}

/// Total size of a list of JSON model values.
pub open spec fn json_list_size(es: Seq<JsonModel>) -> nat
    decreases es,
{
    if es.len() == 0 {
        0
    } else {
        json_list_size(es.drop_last()) + json_size(es.last())
    }
}

/// Total size of the field list of a JSON object model.
pub open spec fn json_fields_size(fs: Seq<(Seq<char>, JsonModel)>) -> nat
    decreases fs,
{
    if fs.len() == 0 {
        0
    } else {
        json_fields_size(fs.drop_last()) + 1 + json_size(fs.last().1)
    }
}

/// Every element of a list weighs no more than the whole list.
pub proof fn lemma_json_list_size_elem(es: Seq<JsonModel>, i: int)
    requires
        0 <= i < es.len(),
    ensures
        json_size(es[i]) <= json_list_size(es),
    decreases es.len(),
{
    if i == es.len() - 1 {
    } else {
        lemma_json_list_size_elem(es.drop_last(), i);
        assert(es.drop_last()[i] == es[i]);
    }
}

/// Every field's value weighs less than the whole field list.
pub proof fn lemma_json_fields_size_elem(fs: Seq<(Seq<char>, JsonModel)>, i: int)
    requires
        0 <= i < fs.len(),
    ensures
        json_size(fs[i].1) < json_fields_size(fs),
    decreases fs.len(),
{
    if i == fs.len() - 1 {
    } else {
        lemma_json_fields_size_elem(fs.drop_last(), i);
        assert(fs.drop_last()[i] == fs[i]);
    }
}


/// The model of a pushed JSON list.
pub proof fn lemma_json_list_model_push(vs: Seq<JsonValue>, v: JsonValue)
    ensures
        json_list_model(vs.push(v)) == json_list_model(vs).push(v@),
{
    assert(vs.push(v).drop_last() =~= vs);
    assert(vs.push(v).last() == v);
}

/// The model of a pushed JSON field list.
pub proof fn lemma_json_fields_model_push(fs: Seq<(String, JsonValue)>, f: (String, JsonValue))
    ensures
        json_fields_model(fs.push(f)) == json_fields_model(fs).push((f.0@, f.1@)),
{
    assert(fs.push(f).drop_last() =~= fs);
    assert(fs.push(f).last() == f);
}

} // verus!
