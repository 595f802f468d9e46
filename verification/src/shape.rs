//! Value shapes: the classified form of one concrete JSON value instance,
//! before any merging.

use vstd::prelude::*;

use crate::json::{
    json_fields_size, json_list_size, json_size, lemma_json_fields_size_elem,
    lemma_json_list_size_elem, JsonModel, JsonValue,
};
use crate::json::{json_fields_model, json_list_model, lemma_json_fields_model,
    lemma_json_list_model};
use vstd::string::StrSliceExecFns;

verus! {

/// Mathematical model of one value shape.
///
/// `Text` carries the character count of the one sampled string; `Obj` the
/// (field name, shape) pairs of one object instance in document order; `Arr`
/// the per-element shapes of one array instance in order.
pub enum ShapeModel {
    Null,
    Bool,
    Number,
    Text(nat),
    Obj(Seq<(Seq<char>, ShapeModel)>),
    Arr(Seq<ShapeModel>),
}

/// The model of one object instance: its (field name, shape) pairs in order.
pub type FieldsModel = Seq<(Seq<char>, ShapeModel)>;

/// The shape of one sampled JSON value.
pub enum ValueType {
    Null,
    Bool,
    Number,
    Text(usize),
    Object(SchemaObject),
    Array(Vec<ValueType>),
}

/// One (field name, shape) pair of a single object instance.
pub struct SchemaObjectKey {
    pub id: String,
    pub v_type: ValueType,
}

/// The ordered field list extracted from a single JSON object instance.
pub struct SchemaObject {
    pub keys: Vec<SchemaObjectKey>,
}

impl ValueType {
    /// The mathematical shape this value describes.
    pub open spec fn model(&self) -> ShapeModel
        decreases self,
    {
        match self {
            ValueType::Null => ShapeModel::Null,
            ValueType::Bool => ShapeModel::Bool,
            ValueType::Number => ShapeModel::Number,
            ValueType::Text(n) => ShapeModel::Text(*n as nat),
            ValueType::Object(obj) => ShapeModel::Obj(shape_fields_model(obj.keys@)),
            ValueType::Array(vs) => ShapeModel::Arr(shape_list_model(vs@)),
        }
    }
}

/// The models of a list of shapes, in order.
pub open spec fn shape_list_model(vs: Seq<ValueType>) -> Seq<ShapeModel>
    decreases vs,
{
    if vs.len() == 0 {
        Seq::empty()
    } else {
        shape_list_model(vs.drop_last()).push(vs.last().model())
    }
}

/// The models of an object instance's field pairs, in order.
pub open spec fn shape_fields_model(ks: Seq<SchemaObjectKey>) -> FieldsModel
    decreases ks,
{
    if ks.len() == 0 {
        Seq::empty()
    } else {
        shape_fields_model(ks.drop_last()).push((ks.last().id@, ks.last().v_type.model()))
    }
}

impl View for ValueType {
    type V = ShapeModel;

    open spec fn view(&self) -> ShapeModel {
        self.model()
    }
}

impl View for SchemaObject {
    type V = FieldsModel;

    open spec fn view(&self) -> FieldsModel {
        shape_fields_model(self.keys@)
    }
}

/// The models of a batch of object instances, in order.
pub open spec fn objects_model(objs: Seq<SchemaObject>) -> Seq<FieldsModel>
    decreases objs,
{
    if objs.len() == 0 {
        Seq::empty()
    } else {
        objects_model(objs.drop_last()).push(objs.last()@)
    }
}

/// `shape_list_model` maps the list elementwise.
pub proof fn lemma_shape_list_model(vs: Seq<ValueType>)
    ensures
        shape_list_model(vs).len() == vs.len(),
        forall|i: int| 0 <= i < vs.len() ==> shape_list_model(vs)[i] == vs[i]@,
    decreases vs.len(),
{
    if vs.len() > 0 {
        lemma_shape_list_model(vs.drop_last());
        assert forall|i: int| 0 <= i < vs.len() implies shape_list_model(vs)[i] == vs[i]@ by {
            if i < vs.len() - 1 {
                assert(vs.drop_last()[i] == vs[i]);
            }
        }
    }
}

/// `shape_fields_model` maps the field pairs elementwise.
pub proof fn lemma_shape_fields_model(ks: Seq<SchemaObjectKey>)
    ensures
        shape_fields_model(ks).len() == ks.len(),
        forall|i: int|
            0 <= i < ks.len() ==> shape_fields_model(ks)[i] == (ks[i].id@, ks[i].v_type@),
    decreases ks.len(),
{
    if ks.len() > 0 {
        lemma_shape_fields_model(ks.drop_last());
        assert forall|i: int| 0 <= i < ks.len() implies shape_fields_model(ks)[i] == (
        ks[i].id@,
        ks[i].v_type@,
        ) by {
            if i < ks.len() - 1 {
                assert(ks.drop_last()[i] == ks[i]);
            }
        }
    }
}

/// `objects_model` maps the batch elementwise.
pub proof fn lemma_objects_model(objs: Seq<SchemaObject>)
    ensures
        objects_model(objs).len() == objs.len(),
        forall|i: int| 0 <= i < objs.len() ==> objects_model(objs)[i] == objs[i]@,
    decreases objs.len(),
{
    if objs.len() > 0 {
        lemma_objects_model(objs.drop_last());
        assert forall|i: int| 0 <= i < objs.len() implies objects_model(objs)[i] == objs[i]@ by {
            if i < objs.len() - 1 {
                assert(objs.drop_last()[i] == objs[i]);
            }
        }
    }
}

/// Size of one shape; objects weigh one more than the fields they carry, so
/// that unwrapping an `Obj` into its descriptor strictly shrinks a batch.
pub open spec fn shape_size(s: ShapeModel) -> nat
    decreases s,
{
    match s {
        ShapeModel::Null => 1,
        ShapeModel::Bool => 1,
        ShapeModel::Number => 1,
        ShapeModel::Text(_) => 1,
        ShapeModel::Obj(fs) => 2 + fields_size(fs),
        ShapeModel::Arr(es) => 1 + shape_list_size(es),
    }
}

/// Size of a (field name, shape) pair list, one extra unit per pair.
pub open spec fn fields_size(fs: FieldsModel) -> nat
    decreases fs,
{
    if fs.len() == 0 {
        0
    } else {
        fields_size(fs.drop_last()) + 1 + shape_size(fs.last().1)
    }
}

/// Size of a plain shape list.
pub open spec fn shape_list_size(es: Seq<ShapeModel>) -> nat
    decreases es,
{
    if es.len() == 0 {
        0
    } else {
        shape_list_size(es.drop_last()) + shape_size(es.last())
    }
}

/// Size of a batch of object descriptors, one extra unit per descriptor.
pub open spec fn batch_size(objs: Seq<FieldsModel>) -> nat
    decreases objs,
{
    if objs.len() == 0 {
        0
    } else {
        batch_size(objs.drop_last()) + 1 + fields_size(objs.last())
    }
}

/// Every element of a shape list weighs no more than the whole list.
pub proof fn lemma_shape_list_size_elem(es: Seq<ShapeModel>, i: int)
    requires
        0 <= i < es.len(),
    ensures
        shape_size(es[i]) <= shape_list_size(es),
    decreases es.len(),
{
    if i == es.len() - 1 {
    } else {
        lemma_shape_list_size_elem(es.drop_last(), i);
        assert(es.drop_last()[i] == es[i]);
    }
}

/// Every field's shape weighs less than the whole field list.
pub proof fn lemma_fields_size_elem(fs: FieldsModel, i: int)
    requires
        0 <= i < fs.len(),
    ensures
        shape_size(fs[i].1) < fields_size(fs),
    decreases fs.len(),
{
    if i == fs.len() - 1 {
    } else {
        lemma_fields_size_elem(fs.drop_last(), i);
        assert(fs.drop_last()[i] == fs[i]);
    }
}

/// The shape that classifying a given JSON value yields.
pub open spec fn spec_shape_of(j: JsonModel) -> ShapeModel
    decreases j,
{
    match j {
        JsonModel::Null => ShapeModel::Null,
        JsonModel::Bool => ShapeModel::Bool,
        JsonModel::Number => ShapeModel::Number,
        JsonModel::Text(s) => ShapeModel::Text(s.len()),
        JsonModel::Obj(fs) => ShapeModel::Obj(shapes_of_fields(fs)),
        JsonModel::Arr(es) => ShapeModel::Arr(shapes_of_list(es)),
    }
}

/// Classification of every element of a JSON array model.
pub open spec fn shapes_of_list(es: Seq<JsonModel>) -> Seq<ShapeModel>
    decreases es,
{
    if es.len() == 0 {
        Seq::empty()
    } else {
        shapes_of_list(es.drop_last()).push(spec_shape_of(es.last()))
    }
}

/// Classification of every field of a JSON object model.
pub open spec fn shapes_of_fields(fs: Seq<(Seq<char>, JsonModel)>) -> FieldsModel
    decreases fs,
{
    if fs.len() == 0 {
        Seq::empty()
    } else {
        shapes_of_fields(fs.drop_last()).push((fs.last().0, spec_shape_of(fs.last().1)))
    }
}

/// `shapes_of_list` classifies elementwise.
pub proof fn lemma_shapes_of_list(es: Seq<JsonModel>)
    ensures
        shapes_of_list(es).len() == es.len(),
        forall|i: int| 0 <= i < es.len() ==> shapes_of_list(es)[i] == spec_shape_of(es[i]),
    decreases es.len(),
{
    if es.len() > 0 {
        lemma_shapes_of_list(es.drop_last());
        assert forall|i: int| 0 <= i < es.len() implies shapes_of_list(es)[i] == spec_shape_of(
            es[i],
        ) by {
            if i < es.len() - 1 {
                assert(es.drop_last()[i] == es[i]);
            }
        }
    }
}

/// `shapes_of_fields` classifies elementwise.
pub proof fn lemma_shapes_of_fields(fs: Seq<(Seq<char>, JsonModel)>)
    ensures
        shapes_of_fields(fs).len() == fs.len(),
        forall|i: int|
            0 <= i < fs.len() ==> shapes_of_fields(fs)[i] == (fs[i].0, spec_shape_of(fs[i].1)),
    decreases fs.len(),
{
    if fs.len() > 0 {
        lemma_shapes_of_fields(fs.drop_last());
        assert forall|i: int| 0 <= i < fs.len() implies shapes_of_fields(fs)[i] == (
        fs[i].0,
        spec_shape_of(fs[i].1),
        ) by {
            if i < fs.len() - 1 {
                assert(fs.drop_last()[i] == fs[i]);
            }
        }
    }
}

/// Classify every element of a list of JSON values.
#[verifier::loop_isolation(false)]
fn classify_list(vs: &Vec<JsonValue>) -> (r: Vec<ValueType>)
    ensures
        r@.len() == vs@.len(),
        forall|k: int| 0 <= k < vs@.len() ==> r@[k]@ == spec_shape_of(#[trigger] vs@[k]@),
    decreases json_list_size(json_list_model(vs@)), 1nat, 0nat,
{
    let mut values: Vec<ValueType> = Vec::new();
    let mut i: usize = 0;
    while i < vs.len()
        invariant
            i <= vs@.len(),
            values@.len() == i,
            forall|k: int| 0 <= k < i ==> values@[k]@ == spec_shape_of(#[trigger] vs@[k]@),
        decreases vs@.len() - i,
    {
        proof {
            lemma_json_list_model(vs@);
            lemma_json_list_size_elem(json_list_model(vs@), i as int);
        }
        values.push(ValueType::from_json(&vs[i]));
        i = i + 1;
    }
    values
}

/// Classify every field of a JSON object's field list.
#[verifier::loop_isolation(false)]
fn classify_fields(fs: &Vec<(String, JsonValue)>) -> (r: Vec<SchemaObjectKey>)
    ensures
        r@.len() == fs@.len(),
        forall|k: int|
            0 <= k < fs@.len() ==> (#[trigger] r@[k]).id@ == fs@[k].0@ && r@[k].v_type@
                == spec_shape_of(fs@[k].1@),
    decreases json_fields_size(json_fields_model(fs@)), 1nat, 0nat,
{
    let mut keys: Vec<SchemaObjectKey> = Vec::new();
    let mut i: usize = 0;
    while i < fs.len()
        invariant
            i <= fs@.len(),
            keys@.len() == i,
            forall|k: int|
                0 <= k < i ==> (#[trigger] keys@[k]).id@ == fs@[k].0@ && keys@[k].v_type@
                    == spec_shape_of(fs@[k].1@),
        decreases fs@.len() - i,
    {
        proof {
            lemma_json_fields_model(fs@);
            lemma_json_fields_size_elem(json_fields_model(fs@), i as int);
        }
        let id = fs[i].0.clone();
        let v_type = ValueType::from_json(&fs[i].1);
        keys.push(SchemaObjectKey { id, v_type });
        i = i + 1;
    }
    keys
}

impl ValueType {
    /// Classify one JSON value into its shape. Total: every well-formed JSON
    /// value classifies successfully.
    pub fn from_json(json: &JsonValue) -> (r: Self)
        ensures
            r@ == spec_shape_of(json@),
        decreases json_size(json@), 0nat, 1nat,
    {
        match json {
            JsonValue::Null => ValueType::Null,
            JsonValue::Bool => ValueType::Bool,
            JsonValue::Number => ValueType::Number,
            JsonValue::Text(s) => ValueType::Text(s.as_str().unicode_len()),
            JsonValue::Obj(_) => ValueType::Object(SchemaObject::from_json(json)),
            JsonValue::Arr(vs) => {
                let values = classify_list(vs);
                let ghost vals = values@;
                let r = ValueType::Array(values);
                proof {
                    lemma_shape_list_model(vals);
                    lemma_json_list_model(vs@);
                    lemma_shapes_of_list(json_list_model(vs@));
                    assert(r@->Arr_0 =~= spec_shape_of(json@)->Arr_0);
                }
                r
            },
        }
    }
}

impl SchemaObject {
    /// Extract the ordered field list of one JSON object instance.
    pub fn from_json(json: &JsonValue) -> (r: Self)
        requires
            json@ matches JsonModel::Obj(_),
        ensures
            spec_shape_of(json@) == ShapeModel::Obj(r@),
        decreases json_size(json@), 0nat, 0nat,
    {
        match json {
            JsonValue::Obj(fs) => {
                let keys = classify_fields(fs);
                let ghost ks = keys@;
                let r = SchemaObject { keys };
                proof {
                    lemma_shape_fields_model(ks);
                    lemma_json_fields_model(fs@);
                    lemma_shapes_of_fields(json_fields_model(fs@));
                    assert(spec_shape_of(json@)->Obj_0 =~= r@);
                }
                r
            },
            _ => SchemaObject { keys: Vec::new() },
        }
    }
}

/// Copy every element of a shape list.
#[verifier::loop_isolation(false)]
fn dup_list(vs: &Vec<ValueType>) -> (r: Vec<ValueType>)
    ensures
        r@.len() == vs@.len(),
        forall|k: int| 0 <= k < vs@.len() ==> r@[k]@ == #[trigger] vs@[k]@,
    decreases shape_list_size(shape_list_model(vs@)), 1nat,
{
    let mut out: Vec<ValueType> = Vec::new();
    let mut i: usize = 0;
    while i < vs.len()
        invariant
            i <= vs@.len(),
            out@.len() == i,
            forall|k: int| 0 <= k < i ==> out@[k]@ == #[trigger] vs@[k]@,
        decreases vs@.len() - i,
    {
        proof {
            lemma_shape_list_model(vs@);
            lemma_shape_list_size_elem(shape_list_model(vs@), i as int);
        }
        out.push(vs[i].duplicate());
        i = i + 1;
    }
    out
}

/// Copy every field pair of an object instance.
#[verifier::loop_isolation(false)]
fn dup_keys(ks: &Vec<SchemaObjectKey>) -> (r: Vec<SchemaObjectKey>)
    ensures
        r@.len() == ks@.len(),
        forall|k: int|
            0 <= k < ks@.len() ==> (#[trigger] r@[k]).id@ == ks@[k].id@ && r@[k].v_type@
                == ks@[k].v_type@,
    decreases fields_size(shape_fields_model(ks@)), 1nat,
{
    let mut out: Vec<SchemaObjectKey> = Vec::new();
    let mut i: usize = 0;
    while i < ks.len()
        invariant
            i <= ks@.len(),
            out@.len() == i,
            forall|k: int|
                0 <= k < i ==> (#[trigger] out@[k]).id@ == ks@[k].id@ && out@[k].v_type@
                    == ks@[k].v_type@,
        decreases ks@.len() - i,
    {
        proof {
            lemma_shape_fields_model(ks@);
            lemma_fields_size_elem(shape_fields_model(ks@), i as int);
        }
        let id = ks[i].id.clone();
        let v_type = ks[i].v_type.duplicate();
        out.push(SchemaObjectKey { id, v_type });
        i = i + 1;
    }
    out
}

impl ValueType {
    /// A copy of this shape, equal to it in the model.
    pub fn duplicate(&self) -> (r: Self)
        ensures
            r@ == self@,
        decreases shape_size(self@), 0nat,
    {
        match self {
            ValueType::Null => ValueType::Null,
            ValueType::Bool => ValueType::Bool,
            ValueType::Number => ValueType::Number,
            ValueType::Text(n) => ValueType::Text(*n),
            ValueType::Object(obj) => {
                let keys = dup_keys(&obj.keys);
                let ghost ks = keys@;
                let r = ValueType::Object(SchemaObject { keys });
                proof {
                    lemma_shape_fields_model(ks);
                    lemma_shape_fields_model(obj.keys@);
                    assert(r@->Obj_0 =~= self@->Obj_0);
                }
                r
            },
            ValueType::Array(vs) => {
                let values = dup_list(vs);
                let ghost vals = values@;
                let r = ValueType::Array(values);
                proof {
                    lemma_shape_list_model(vals);
                    lemma_shape_list_model(vs@);
                    assert(r@->Arr_0 =~= self@->Arr_0);
                }
                r
            },
        }
    }
}

impl SchemaObject {
    /// A copy of this object descriptor, equal to it in the model.
    pub fn duplicate(&self) -> (r: Self)
        ensures
            r@ == self@,
    {
        let keys = dup_keys(&self.keys);
        let ghost ks = keys@;
        let r = SchemaObject { keys };
        proof {
            lemma_shape_fields_model(ks);
            lemma_shape_fields_model(self.keys@);
            assert(r@ =~= self@);
        }
        r
    }
}


/// The model of a pushed shape list.
pub proof fn lemma_shape_list_model_push(vs: Seq<ValueType>, v: ValueType)
    ensures
        shape_list_model(vs.push(v)) == shape_list_model(vs).push(v@),
{
    assert(vs.push(v).drop_last() =~= vs);
    assert(vs.push(v).last() == v);
}

/// The model of a pushed field-pair list.
pub proof fn lemma_shape_fields_model_push(ks: Seq<SchemaObjectKey>, k: SchemaObjectKey)
    ensures
        shape_fields_model(ks.push(k)) == shape_fields_model(ks).push((k.id@, k.v_type@)),
{
    assert(ks.push(k).drop_last() =~= ks);
    assert(ks.push(k).last() == k);
}

/// The model of a pushed descriptor batch.
pub proof fn lemma_objects_model_push(objs: Seq<SchemaObject>, o: SchemaObject)
    ensures
        objects_model(objs.push(o)) == objects_model(objs).push(o@),
{
    assert(objs.push(o).drop_last() =~= objs);
    assert(objs.push(o).last() == o);
}

} // verus!
