//! The reduced-feature classifier behind the host-runtime binding: per
//! field, the coarse type tags observed across an array of objects, without
//! string-length ranges and with nested objects always merged. Its taxonomy
//! (NULL, BOOL, NUMBER, STRING) matches the core's primitive kinds.

use vstd::prelude::*;

use crate::json::{
    json_fields_model, json_fields_size, json_list_model, json_list_size, json_size,
    lemma_json_fields_model, lemma_json_fields_size_elem, lemma_json_list_model,
    lemma_json_list_size_elem, JsonModel, JsonValue,
};
use crate::schema::SchemaError;

verus! {

/// The coarse tag of one JSON value.
#[allow(non_camel_case_types)]
#[derive(Clone, Copy, PartialEq, Eq, Structural, Debug)]
pub enum FieldType {
    NULL,
    BOOL,
    NUMBER,
    STRING,
}

/// The classified form of one JSON value: a tag, a classified object, or a
/// classified array.
pub enum ResultValue {
    Type(FieldType),
    Obj(Vec<(String, ResultValue)>),
    Array(Vec<ResultValue>),
}

/// Mathematical model of one classified value.
pub enum ResultModel {
    Type(FieldType),
    Obj(Seq<(Seq<char>, ResultModel)>),
    Arr(Seq<ResultModel>),
}

impl ResultValue {
    /// The mathematical value of this classification.
    pub open spec fn model(&self) -> ResultModel
        decreases self,
    {
        match self {
            ResultValue::Type(t) => ResultModel::Type(*t),
            ResultValue::Obj(fs) => ResultModel::Obj(rv_fields_model(fs@)),
            ResultValue::Array(vs) => ResultModel::Arr(rv_list_model(vs@)),
        }
    }
}

/// The models of a list of classified values, in order.
pub open spec fn rv_list_model(vs: Seq<ResultValue>) -> Seq<ResultModel>
    decreases vs,
{
    if vs.len() == 0 {
        Seq::empty()
    } else {
        rv_list_model(vs.drop_last()).push(vs.last().model())
    }
}

/// The models of a classified field list, in order.
pub open spec fn rv_fields_model(fs: Seq<(String, ResultValue)>) -> Seq<(Seq<char>, ResultModel)>
    decreases fs,
{
    if fs.len() == 0 {
        Seq::empty()
    } else {
        rv_fields_model(fs.drop_last()).push((fs.last().0@, fs.last().1.model()))
    }
}

impl View for ResultValue {
    type V = ResultModel;

    open spec fn view(&self) -> ResultModel {
        self.model()
    }
}

/// `rv_list_model` maps the list elementwise.
pub proof fn lemma_rv_list_model(vs: Seq<ResultValue>)
    ensures
        rv_list_model(vs).len() == vs.len(),
        forall|i: int| 0 <= i < vs.len() ==> rv_list_model(vs)[i] == vs[i]@,
    decreases vs.len(),
{
    if vs.len() > 0 {
        lemma_rv_list_model(vs.drop_last());
        assert forall|i: int| 0 <= i < vs.len() implies rv_list_model(vs)[i] == vs[i]@ by {
            if i < vs.len() - 1 {
                assert(vs.drop_last()[i] == vs[i]);
            }
        }
    }
}

/// `rv_fields_model` maps the field list elementwise.
pub proof fn lemma_rv_fields_model(fs: Seq<(String, ResultValue)>)
    ensures
        rv_fields_model(fs).len() == fs.len(),
        forall|i: int| 0 <= i < fs.len() ==> rv_fields_model(fs)[i] == (fs[i].0@, fs[i].1@),
    decreases fs.len(),
{
    if fs.len() > 0 {
        lemma_rv_fields_model(fs.drop_last());
        assert forall|i: int| 0 <= i < fs.len() implies rv_fields_model(fs)[i] == (
        fs[i].0@,
        fs[i].1@,
        ) by {
            if i < fs.len() - 1 {
                assert(fs.drop_last()[i] == fs[i]);
            }
        }
    }
}

/// The classification of one JSON value: scalars and strings to their tags,
/// objects and arrays elementwise.
pub open spec fn spec_typed_of(j: JsonModel) -> ResultModel
    decreases j,
{
    match j {
        JsonModel::Null => ResultModel::Type(FieldType::NULL),
        JsonModel::Bool => ResultModel::Type(FieldType::BOOL),
        JsonModel::Number => ResultModel::Type(FieldType::NUMBER),
        JsonModel::Text(_) => ResultModel::Type(FieldType::STRING),
        JsonModel::Obj(fs) => ResultModel::Obj(typed_fields(fs)),
        JsonModel::Arr(es) => ResultModel::Arr(typed_list(es)),
    }
}

/// The classifications of a list of JSON values, in order.
pub open spec fn typed_list(es: Seq<JsonModel>) -> Seq<ResultModel>
    decreases es,
{
    if es.len() == 0 {
        Seq::empty()
    } else {
        typed_list(es.drop_last()).push(spec_typed_of(es.last()))
    }
}

/// The classifications of an object's fields, in order.
pub open spec fn typed_fields(fs: Seq<(Seq<char>, JsonModel)>) -> Seq<(Seq<char>, ResultModel)>
    decreases fs,
{
    if fs.len() == 0 {
        Seq::empty()
    } else {
        typed_fields(fs.drop_last()).push((fs.last().0, spec_typed_of(fs.last().1)))
    }
}

/// `typed_list` classifies elementwise.
pub proof fn lemma_typed_list(es: Seq<JsonModel>)
    ensures
        typed_list(es).len() == es.len(),
        forall|i: int| 0 <= i < es.len() ==> typed_list(es)[i] == spec_typed_of(es[i]),
    decreases es.len(),
{
    if es.len() > 0 {
        lemma_typed_list(es.drop_last());
        assert forall|i: int| 0 <= i < es.len() implies typed_list(es)[i] == spec_typed_of(
            es[i],
        ) by {
            if i < es.len() - 1 {
                assert(es.drop_last()[i] == es[i]);
            }
        }
    }
}

/// `typed_fields` classifies elementwise.
pub proof fn lemma_typed_fields(fs: Seq<(Seq<char>, JsonModel)>)
    ensures
        typed_fields(fs).len() == fs.len(),
        forall|i: int|
            0 <= i < fs.len() ==> typed_fields(fs)[i] == (fs[i].0, spec_typed_of(fs[i].1)),
    decreases fs.len(),
{
    if fs.len() > 0 {
        lemma_typed_fields(fs.drop_last());
        assert forall|i: int| 0 <= i < fs.len() implies typed_fields(fs)[i] == (
        fs[i].0,
        spec_typed_of(fs[i].1),
        ) by {
            if i < fs.len() - 1 {
                assert(fs.drop_last()[i] == fs[i]);
            }
        }
    }
}

/// Classify one JSON value.
fn typed_value(json: &JsonValue) -> (r: ResultValue)
    ensures
        r@ == spec_typed_of(json@),
    decreases json_size(json@), 0nat,
{
    match json {
        JsonValue::Null => ResultValue::Type(FieldType::NULL),
        JsonValue::Bool => ResultValue::Type(FieldType::BOOL),
        JsonValue::Number => ResultValue::Type(FieldType::NUMBER),
        JsonValue::Text(_) => ResultValue::Type(FieldType::STRING),
        JsonValue::Obj(fs) => {
            let out = get_typed_map(fs);
            let ghost om = out@;
            let r = ResultValue::Obj(out);
            proof {
                lemma_rv_fields_model(om);
                lemma_json_fields_model(fs@);
                lemma_typed_fields(json_fields_model(fs@));
                assert(r@->Obj_0 =~= spec_typed_of(json@)->Obj_0);
            }
            r
        },
        JsonValue::Arr(vs) => {
            let out = get_typed_array(vs);
            let ghost om = out@;
            let r = ResultValue::Array(out);
            proof {
                lemma_rv_list_model(om);
                lemma_json_list_model(vs@);
                lemma_typed_list(json_list_model(vs@));
                assert(r@->Arr_0 =~= spec_typed_of(json@)->Arr_0);
            }
            r
        },
    }
}

/// Classify every element of a JSON array.
#[verifier::loop_isolation(false)]
pub fn get_typed_array(input_arr: &Vec<JsonValue>) -> (r: Vec<ResultValue>)
    ensures
        r@.len() == input_arr@.len(),
        forall|k: int|
            0 <= k < input_arr@.len() ==> r@[k]@ == spec_typed_of(#[trigger] input_arr@[k]@),
    decreases json_list_size(json_list_model(input_arr@)), 1nat,
{
    let mut out: Vec<ResultValue> = Vec::new();
    let mut i: usize = 0;
    while i < input_arr.len()
        invariant
            i <= input_arr@.len(),
            out@.len() == i,
            forall|k: int| 0 <= k < i ==> out@[k]@ == spec_typed_of(#[trigger] input_arr@[k]@),
        decreases input_arr@.len() - i,
    {
        proof {
            lemma_json_list_model(input_arr@);
            lemma_json_list_size_elem(json_list_model(input_arr@), i as int);
        }
        out.push(typed_value(&input_arr[i]));
        i = i + 1;
    }
    out
}

/// Classify every field of a JSON object.
#[verifier::loop_isolation(false)]
pub fn get_typed_map(input_obj: &Vec<(String, JsonValue)>) -> (r: Vec<(String, ResultValue)>)
    ensures
        r@.len() == input_obj@.len(),
        forall|k: int|
            0 <= k < input_obj@.len() ==> (#[trigger] r@[k]).0@ == input_obj@[k].0@
                && r@[k].1@ == spec_typed_of(input_obj@[k].1@),
    decreases json_fields_size(json_fields_model(input_obj@)), 1nat,
{
    let mut out: Vec<(String, ResultValue)> = Vec::new();
    let mut i: usize = 0;
    while i < input_obj.len()
        invariant
            i <= input_obj@.len(),
            out@.len() == i,
            forall|k: int|
                0 <= k < i ==> (#[trigger] out@[k]).0@ == input_obj@[k].0@ && out@[k].1@
                    == spec_typed_of(input_obj@[k].1@),
        decreases input_obj@.len() - i,
    {
        proof {
            lemma_json_fields_model(input_obj@);
            lemma_json_fields_size_elem(json_fields_model(input_obj@), i as int);
        }
        let key = input_obj[i].0.clone();
        let value = typed_value(&input_obj[i].1);
        out.push((key, value));
        i = i + 1;
    }
    out
}

/// Size of one classified value, used as a termination measure.
pub open spec fn rv_size(v: ResultModel) -> nat
    decreases v,
{
    match v {
        ResultModel::Type(_) => 1,
        ResultModel::Obj(fs) => 1 + rv_fields_size(fs),
        ResultModel::Arr(vs) => 1 + rv_list_size(vs),
    }
}

/// Size of a classified list, one extra unit per element.
pub open spec fn rv_list_size(vs: Seq<ResultModel>) -> nat
    decreases vs,
{
    if vs.len() == 0 {
        0
    } else {
        rv_list_size(vs.drop_last()) + 1 + rv_size(vs.last())
    }
}

/// Size of a classified field list, one extra unit per field.
pub open spec fn rv_fields_size(fs: Seq<(Seq<char>, ResultModel)>) -> nat
    decreases fs,
{
    if fs.len() == 0 {
        0
    } else {
        rv_fields_size(fs.drop_last()) + 1 + rv_size(fs.last().1)
    }
}

/// Every element of a classified list weighs less than the whole list.
pub proof fn lemma_rv_list_size_elem(vs: Seq<ResultModel>, i: int)
    requires
        0 <= i < vs.len(),
    ensures
        rv_size(vs[i]) < rv_list_size(vs),
    decreases vs.len(),
{
    if i == vs.len() - 1 {
    } else {
        lemma_rv_list_size_elem(vs.drop_last(), i);
        assert(vs.drop_last()[i] == vs[i]);
    }
}

/// Every field's value weighs less than the whole field list.
pub proof fn lemma_rv_fields_size_elem(fs: Seq<(Seq<char>, ResultModel)>, i: int)
    requires
        0 <= i < fs.len(),
    ensures
        rv_size(fs[i].1) < rv_fields_size(fs),
    decreases fs.len(),
{
    if i == fs.len() - 1 {
    } else {
        lemma_rv_fields_size_elem(fs.drop_last(), i);
        assert(fs.drop_last()[i] == fs[i]);
    }
}

/// Whether two classified lists denote the same value list.
#[verifier::loop_isolation(false)]
fn rv_list_eq(xs: &Vec<ResultValue>, ys: &Vec<ResultValue>) -> (r: bool)
    ensures
        r == (rv_list_model(xs@) == rv_list_model(ys@)),
    decreases rv_list_size(rv_list_model(xs@)) + rv_list_size(rv_list_model(ys@)),
{
    let ghost xm = rv_list_model(xs@);
    let ghost ym = rv_list_model(ys@);
    proof {
        lemma_rv_list_model(xs@);
        lemma_rv_list_model(ys@);
    }
    if xs.len() != ys.len() {
        return false;
    }
    let mut all = true;
    let mut i: usize = 0;
    while i < xs.len()
        invariant
            i <= xs@.len(),
            all == forall|k: int| 0 <= k < i ==> #[trigger] xm[k] == ym[k],
        decreases xs@.len() - i,
    {
        proof {
            lemma_rv_list_size_elem(xm, i as int);
            lemma_rv_list_size_elem(ym, i as int);
        }
        if !rv_eq(&xs[i], &ys[i]) {
            all = false;
            proof {
                assert(xm[i as int] != ym[i as int]);
            }
        }
        i = i + 1;
    }
    proof {
        if all {
            assert(xm =~= ym);
        } else {
            let k = choose|k: int| 0 <= k < xs@.len() && #[trigger] xm[k] != ym[k];
            assert(xm != ym);
        }
    }
    all
}

/// Whether two classified field lists denote the same field list.
#[verifier::loop_isolation(false)]
fn rv_fields_eq(xs: &Vec<(String, ResultValue)>, ys: &Vec<(String, ResultValue)>) -> (r: bool)
    ensures
        r == (rv_fields_model(xs@) == rv_fields_model(ys@)),
    decreases rv_fields_size(rv_fields_model(xs@)) + rv_fields_size(rv_fields_model(ys@)),
{
    let ghost xm = rv_fields_model(xs@);
    let ghost ym = rv_fields_model(ys@);
    proof {
        lemma_rv_fields_model(xs@);
        lemma_rv_fields_model(ys@);
    }
    if xs.len() != ys.len() {
        return false;
    }
    let mut all = true;
    let mut i: usize = 0;
    while i < xs.len()
        invariant
            i <= xs@.len(),
            all == forall|k: int| 0 <= k < i ==> #[trigger] xm[k] == ym[k],
        decreases xs@.len() - i,
    {
        proof {
            lemma_rv_fields_size_elem(xm, i as int);
            lemma_rv_fields_size_elem(ym, i as int);
        }
        let names = xs[i].0 == ys[i].0;
        let values = rv_eq(&xs[i].1, &ys[i].1);
        if !(names && values) {
            all = false;
            proof {
                assert(xm[i as int] != ym[i as int]);
            }
        }
        i = i + 1;
    }
    proof {
        if all {
            assert(xm =~= ym);
        } else {
            let k = choose|k: int| 0 <= k < xs@.len() && #[trigger] xm[k] != ym[k];
            assert(xm != ym);
        }
    }
    all
}

/// Whether two classified values are equal. This is the full structural
/// equality the binding's deduplication uses.
pub fn rv_eq(a: &ResultValue, b: &ResultValue) -> (r: bool)
    ensures
        r == (a@ == b@),
    decreases rv_size(a@) + rv_size(b@),
{
    match (a, b) {
        (ResultValue::Type(x), ResultValue::Type(y)) => *x == *y,
        (ResultValue::Obj(f1), ResultValue::Obj(f2)) => rv_fields_eq(f1, f2),
        (ResultValue::Array(v1), ResultValue::Array(v2)) => rv_list_eq(v1, v2),
        _ => false,
    }
}

/// Append a classified value to a row unless an equal one is present.
pub open spec fn rv_row_dedup(l: Seq<ResultModel>, v: ResultModel) -> Seq<ResultModel> {
    if l.contains(v) {
        l
    } else {
        l.push(v)
    }
}

/// The index of the row with the given field name; negative when absent.
pub open spec fn find_row(rows: Seq<(Seq<char>, Seq<ResultModel>)>, name: Seq<char>) -> int
    decreases rows.len(),
{
    if rows.len() == 0 {
        -1
    } else if rows.first().0 == name {
        0
    } else {
        let r = find_row(rows.drop_first(), name);
        if r < 0 {
            -1
        } else {
            r + 1
        }
    }
}

/// `find_row` names the first matching row, or reports absence.
pub proof fn lemma_find_row(rows: Seq<(Seq<char>, Seq<ResultModel>)>, name: Seq<char>)
    ensures
        find_row(rows, name) < 0 ==> forall|k: int|
            0 <= k < rows.len() ==> (#[trigger] rows[k]).0 != name,
        find_row(rows, name) >= 0 ==> 0 <= find_row(rows, name) < rows.len() && rows[
            find_row(rows, name)].0 == name && (forall|k: int|
            0 <= k < find_row(rows, name) ==> (#[trigger] rows[k]).0 != name),
    decreases rows.len(),
{
    if rows.len() > 0 && rows.first().0 != name {
        lemma_find_row(rows.drop_first(), name);
        let tail = rows.drop_first();
        let r = find_row(tail, name);
        if r < 0 {
            assert forall|k: int| 0 <= k < rows.len() implies (#[trigger] rows[k]).0 != name by {
                if k > 0 {
                    assert(tail[k - 1] == rows[k]);
                }
            }
        } else {
            assert(rows[r + 1] == tail[r]);
            assert forall|k: int| 0 <= k < r + 1 implies (#[trigger] rows[k]).0 != name by {
                if k > 0 {
                    assert(tail[k - 1] == rows[k]);
                }
            }
        }
    }
}

/// One field observation folded into the accumulated rows: a new row for a
/// new name, a deduplicating append to the existing row otherwise.
pub open spec fn add_row(
    rows: Seq<(Seq<char>, Seq<ResultModel>)>,
    name: Seq<char>,
    v: ResultModel,
) -> Seq<(Seq<char>, Seq<ResultModel>)> {
    let i = find_row(rows, name);
    if i < 0 {
        rows.push((name, seq![v]))
    } else {
        rows.update(i, (rows[i].0, rv_row_dedup(rows[i].1, v)))
    }
}

/// A whole object's fields folded into the accumulated rows, in order.
pub open spec fn add_fields(
    rows: Seq<(Seq<char>, Seq<ResultModel>)>,
    fs: Seq<(Seq<char>, ResultModel)>,
) -> Seq<(Seq<char>, Seq<ResultModel>)>
    decreases fs.len(),
{
    if fs.len() == 0 {
        rows
    } else {
        add_fields(add_row(rows, fs.first().0, fs.first().1), fs.drop_first())
    }
}

/// Every object of the sample folded into the accumulated rows, in order.
pub open spec fn typed_rows(
    rows: Seq<(Seq<char>, Seq<ResultModel>)>,
    es: Seq<JsonModel>,
) -> Seq<(Seq<char>, Seq<ResultModel>)>
    decreases es.len(),
{
    if es.len() == 0 {
        rows
    } else {
        typed_rows(add_fields(rows, typed_fields(es.first()->Obj_0)), es.drop_first())
    }
}

/// One step of `add_fields` over a shrinking remainder.
pub proof fn lemma_add_fields_step(
    rows: Seq<(Seq<char>, Seq<ResultModel>)>,
    fs: Seq<(Seq<char>, ResultModel)>,
)
    requires
        fs.len() > 0,
    ensures
        add_fields(rows, fs) == add_fields(add_row(rows, fs.first().0, fs.first().1), fs.drop_first()),
{
}

/// One step of `typed_rows` over a shrinking remainder.
pub proof fn lemma_typed_rows_step(rows: Seq<(Seq<char>, Seq<ResultModel>)>, es: Seq<JsonModel>)
    requires
        es.len() > 0,
    ensures
        typed_rows(rows, es) == typed_rows(
            add_fields(rows, typed_fields(es.first()->Obj_0)),
            es.drop_first(),
        ),
{
}

/// The models of the accumulated rows, in order.
pub open spec fn rows_model(rs: Seq<(String, Vec<ResultValue>)>) -> Seq<
    (Seq<char>, Seq<ResultModel>),
>
    decreases rs,
{
    if rs.len() == 0 {
        Seq::empty()
    } else {
        rows_model(rs.drop_last()).push((rs.last().0@, rv_list_model(rs.last().1@)))
    }
}

/// `rows_model` maps the rows elementwise.
pub proof fn lemma_rows_model(rs: Seq<(String, Vec<ResultValue>)>)
    ensures
        rows_model(rs).len() == rs.len(),
        forall|i: int|
            0 <= i < rs.len() ==> rows_model(rs)[i] == (rs[i].0@, rv_list_model(rs[i].1@)),
    decreases rs.len(),
{
    if rs.len() > 0 {
        lemma_rows_model(rs.drop_last());
        assert forall|i: int| 0 <= i < rs.len() implies rows_model(rs)[i] == (
        rs[i].0@,
        rv_list_model(rs[i].1@),
        ) by {
            if i < rs.len() - 1 {
                assert(rs.drop_last()[i] == rs[i]);
            }
        }
    }
}

/// The model of a pushed classified list.
pub proof fn lemma_rv_list_model_push(vs: Seq<ResultValue>, v: ResultValue)
    ensures
        rv_list_model(vs.push(v)) == rv_list_model(vs).push(v@),
{
    assert(vs.push(v).drop_last() =~= vs);
    assert(vs.push(v).last() == v);
}

/// The model of a pushed row list.
pub proof fn lemma_rows_model_push(rs: Seq<(String, Vec<ResultValue>)>, r: (String, Vec<ResultValue>))
    ensures
        rows_model(rs.push(r)) == rows_model(rs).push((r.0@, rv_list_model(r.1@))),
{
    assert(rs.push(r).drop_last() =~= rs);
    assert(rs.push(r).last() == r);
}

/// Folding no fields changes nothing.
pub proof fn lemma_add_fields_nil(rows: Seq<(Seq<char>, Seq<ResultModel>)>)
    ensures
        add_fields(rows, Seq::empty()) == rows,
{
}

/// Folding no objects changes nothing.
pub proof fn lemma_typed_rows_nil(rows: Seq<(Seq<char>, Seq<ResultModel>)>)
    ensures
        typed_rows(rows, Seq::empty()) == rows,
{
}

/// The row with the given name, if any.
#[verifier::loop_isolation(false)]
fn position_of(rows: &Vec<(String, Vec<ResultValue>)>, name: &String) -> (r: Option<usize>)
    ensures
        r matches Some(ix) ==> find_row(rows_model(rows@), name@) == ix,
        r matches None ==> find_row(rows_model(rows@), name@) < 0,
{
    let ghost rm = rows_model(rows@);
    proof {
        lemma_rows_model(rows@);
        lemma_find_row(rm, name@);
    }
    let mut j: usize = 0;
    while j < rows.len()
        invariant
            j <= rows@.len(),
            forall|k: int| 0 <= k < j ==> (#[trigger] rm[k]).0 != name@,
        decreases rows@.len() - j,
    {
        if rows[j].0 == *name {
            proof {
                assert(rm[j as int].0 == name@);
                if find_row(rm, name@) < 0 {
                    assert(false);
                }
                if find_row(rm, name@) < j {
                    assert(rm[find_row(rm, name@)].0 == name@);
                    assert(false);
                }
                if find_row(rm, name@) > j {
                    assert(rm[j as int].0 != name@);
                    assert(false);
                }
            }
            return Some(j);
        }
        j = j + 1;
    }
    proof {
        if find_row(rm, name@) >= 0 {
            assert(rm[find_row(rm, name@)].0 == name@);
            assert(false);
        }
    }
    None
}

/// Whether the row already holds an equal classified value.
#[verifier::loop_isolation(false)]
fn row_contains(row: &Vec<ResultValue>, v: &ResultValue) -> (r: bool)
    ensures
        r == rv_list_model(row@).contains(v@),
{
    let ghost rm = rv_list_model(row@);
    proof {
        lemma_rv_list_model(row@);
    }
    let mut found = false;
    let mut j: usize = 0;
    while j < row.len()
        invariant
            j <= row@.len(),
            found == exists|k: int| 0 <= k < j && #[trigger] rm[k] == v@,
        decreases row@.len() - j,
    {
        if rv_eq(&row[j], v) {
            found = true;
            proof {
                assert(rm[j as int] == v@);
            }
        }
        j = j + 1;
    }
    proof {
        if found {
            let k = choose|k: int| 0 <= k < row@.len() && #[trigger] rm[k] == v@;
            assert(rm.contains(v@));
        }
        if rm.contains(v@) {
            let k = choose|k: int| 0 <= k < rm.len() && rm[k] == v@;
            assert(0 <= k < j && rm[k] == v@);
        }
    }
    found
}

/// Summarize an array of objects: for every field, the list of distinct
/// classified values observed for it across all instances. Fails when the
/// document is not an array of objects.
#[verifier::loop_isolation(false)]
pub fn create_typed_object(json: &JsonValue) -> (r: Result<
    Vec<(String, Vec<ResultValue>)>,
    SchemaError,
>)
    ensures
        json@ matches JsonModel::Arr(es) ==> ((forall|i: int|
            0 <= i < es.len() ==> (#[trigger] es[i]) matches JsonModel::Obj(_)) ==> (r matches Ok(
        rows) && rows_model(rows@) == typed_rows(Seq::empty(), es))),
        json@ matches JsonModel::Arr(es) ==> (!(forall|i: int|
            0 <= i < es.len() ==> (#[trigger] es[i]) matches JsonModel::Obj(_)) ==> (r
            matches Err(e) && e == SchemaError::InvalidInput)),
        !(json@ matches JsonModel::Arr(_)) ==> (r matches Err(e) && e
            == SchemaError::InvalidInput),
{
    match json {
        JsonValue::Arr(vs) => {
            let ghost em = json_list_model(vs@);
            proof {
                lemma_json_list_model(vs@);
            }
            let mut rows: Vec<(String, Vec<ResultValue>)> = Vec::new();
            let mut i: usize = 0;
            proof {
                assert(em.skip(0) =~= em);
                assert(rows_model(rows@) =~= Seq::<(Seq<char>, Seq<ResultModel>)>::empty());
            }
            while i < vs.len()
                invariant
                    i <= vs@.len(),
                    forall|k: int| 0 <= k < i ==> (#[trigger] em[k]) matches JsonModel::Obj(_),
                    typed_rows(rows_model(rows@), em.skip(i as int)) == typed_rows(
                        Seq::empty(),
                        em,
                    ),
                decreases vs@.len() - i,
            {
                match &vs[i] {
                    JsonValue::Obj(fs) => {
                        let ghost fm = em[i as int]->Obj_0;
                        proof {
                            assert(em.skip(i as int).first() == em[i as int]);
                            assert(em.skip(i as int).drop_first() =~= em.skip(i + 1));
                            lemma_typed_rows_step(rows_model(rows@), em.skip(i as int));
                            lemma_json_fields_model(fs@);
                            lemma_typed_fields(fm);
                        }
                        let ghost target = add_fields(rows_model(rows@), typed_fields(fm));
                        let mut typed = get_typed_map(fs);
                        proof {
                            lemma_rv_fields_model(typed@);
                            assert(rv_fields_model(typed@) =~= typed_fields(fm));
                        }
                        while typed.len() > 0
                            invariant
                                add_fields(rows_model(rows@), rv_fields_model(typed@)) == target,
                            decreases typed@.len(),
                        {
                            let ghost tm = rv_fields_model(typed@);
                            let ghost before_rows = rows_model(rows@);
                            proof {
                                lemma_rv_fields_model(typed@);
                                lemma_add_fields_step(before_rows, tm);
                                lemma_rows_model(rows@);
                            }
                            let ghost rvec = rows@;
                            let (key, value) = typed.remove(0);
                            proof {
                                lemma_rv_fields_model(typed@);
                                assert(tm.drop_first() =~= rv_fields_model(typed@));
                                assert(tm.first() == (key@, value@));
                                lemma_find_row(before_rows, key@);
                            }
                            let pos = position_of(&rows, &key);
                            match pos {
                                Some(ix) => {
                                    let ghost gix = ix as int;
                                    let mut row = rows.remove(ix);
                                    let ghost rowm = rv_list_model(row.1@);
                                    proof {
                                        assert(rowm == before_rows[gix].1);
                                        assert(row.0@ == before_rows[gix].0);
                                    }
                                    let keep = row_contains(&row.1, &value);
                                    if !keep {
                                        proof {
                                            lemma_rv_list_model_push(row.1@, value);
                                        }
                                        row.1.push(value);
                                    }
                                    proof {
                                        assert(rv_list_model(row.1@) == rv_row_dedup(
                                            rowm,
                                            value@,
                                        ));
                                    }
                                    let ghost newrow = row;
                                    rows.insert(ix, row);
                                    proof {
                                        assert(rows@ =~= rvec.update(gix, newrow));
                                        lemma_rows_model(rows@);
                                        lemma_rows_model(rvec);
                                        assert(rows_model(rows@) =~= add_row(
                                            before_rows,
                                            key@,
                                            value@,
                                        ));
                                    }
                                },
                                None => {
                                    let single = vec![value];
                                    let ghost sv = single@;
                                    proof {
                                        lemma_rv_list_model(sv);
                                    }
                                    let entry = (key, single);
                                    proof {
                                        lemma_rows_model_push(rows@, entry);
                                        assert(rv_list_model(sv) =~= seq![tm.first().1]);
                                    }
                                    rows.push(entry);
                                    proof {
                                        assert(rows_model(rows@) =~= add_row(
                                            before_rows,
                                            tm.first().0,
                                            tm.first().1,
                                        ));
                                    }
                                },
                            }
                        }
                        proof {
                            assert(rv_fields_model(typed@) =~= Seq::<
                                (Seq<char>, ResultModel),
                            >::empty());
                            lemma_add_fields_nil(rows_model(rows@));
                        }
                    },
                    _ => {
                        proof {
                            assert(!(em[i as int] matches JsonModel::Obj(_)));
                        }
                        return Err(SchemaError::InvalidInput);
                    },
                }
                i = i + 1;
            }
            proof {
                assert(em.skip(em.len() as int) =~= Seq::<JsonModel>::empty());
                lemma_typed_rows_nil(rows_model(rows@));
            }
            Ok(rows)
        },
        _ => Err(SchemaError::InvalidInput),
    }
}

} // verus!
