//! The schema serializer: rendering a schema into a plain JSON document.

use vstd::prelude::*;

use crate::json::{
    json_fields_model, json_list_model, lemma_json_fields_model, lemma_json_list_model,
    lemma_json_fields_model_push, lemma_json_list_model_push, JsonModel, JsonValue,
};
use crate::schema::{
    entries_model, entry_list_size, lemma_entries_model, lemma_entry_list_size_elem,
    lemma_variant_list_model, lemma_variant_list_size_elem, schema_size, variant_list_model,
    variant_list_size, variant_size, PrimitiveKind, Schema, SchemaModel, SchemaValueType,
    VariantModel,
};
use crate::agg::lemma_take_step;
use vstd::string::StringExecFns;

verus! {

/// The decimal digit character of one value below ten.
pub open spec fn spec_dec_digit(d: nat) -> Seq<char> {
    if d == 0 {
        "0"@
    } else if d == 1 {
        "1"@
    } else if d == 2 {
        "2"@
    } else if d == 3 {
        "3"@
    } else if d == 4 {
        "4"@
    } else if d == 5 {
        "5"@
    } else if d == 6 {
        "6"@
    } else if d == 7 {
        "7"@
    } else if d == 8 {
        "8"@
    } else {
        "9"@
    }
}

/// The decimal rendering of a count, most significant digit first.
pub open spec fn spec_dec(n: nat) -> Seq<char>
    decreases n,
{
    if n < 10 {
        spec_dec_digit(n)
    } else {
        spec_dec(n / 10) + spec_dec_digit(n % 10)
    }
}

/// The rendering of a string range: `STRING(n)` for a single observed
/// length, `STRING(min, max)` otherwise.
pub open spec fn spec_range_text(lo: nat, hi: nat) -> Seq<char> {
    if lo == hi {
        "STRING("@ + spec_dec(lo) + ")"@
    } else {
        "STRING("@ + spec_dec(lo) + ", "@ + spec_dec(hi) + ")"@
    }
}

/// The rendering of a primitive kind.
pub open spec fn spec_kind_text(k: PrimitiveKind) -> Seq<char> {
    match k {
        PrimitiveKind::Null => "NULL"@,
        PrimitiveKind::Bool => "BOOL"@,
        PrimitiveKind::Number => "NUMBER"@,
    }
}

/// The document that one variant renders to.
pub open spec fn spec_render_variant(v: VariantModel) -> JsonModel
    decreases variant_size(v), 0nat,
{
    match v {
        VariantModel::Primitive(k) => JsonModel::Text(spec_kind_text(k)),
        VariantModel::StringRange(lo, hi) => JsonModel::Text(spec_range_text(lo, hi)),
        VariantModel::Arr(vs) => JsonModel::Obj(
            seq![("ARRAY"@, JsonModel::Arr(spec_render_list(vs)))],
        ),
        VariantModel::Obj(s) => spec_render_schema(s),
    }
}

/// The renderings of a variant list, in order.
pub open spec fn spec_render_list(vs: Seq<VariantModel>) -> Seq<JsonModel>
    decreases variant_list_size(vs), 1nat,
{
    if vs.len() == 0 {
        Seq::empty()
    } else {
        spec_render_list(vs.drop_last()).push(spec_render_variant(vs.last()))
    }
}

/// The document that a schema renders to: one entry per field, each holding
/// a `types` list with the rendering of every variant.
pub open spec fn spec_render_schema(s: SchemaModel) -> JsonModel
    decreases schema_size(s), 1nat,
{
    JsonModel::Obj(spec_render_entries(s.map))
}

/// The rendered entries of a schema's field map, in order.
pub open spec fn spec_render_entries(m: Seq<(Seq<char>, Seq<VariantModel>)>) -> Seq<
    (Seq<char>, JsonModel),
>
    decreases entry_list_size(m), 1nat,
{
    if m.len() == 0 {
        Seq::empty()
    } else {
        spec_render_entries(m.drop_last()).push(
            (
                m.last().0,
                JsonModel::Obj(seq![("types"@, JsonModel::Arr(spec_render_list(m.last().1)))]),
            ),
        )
    }
}

/// One step of `spec_render_list` over a growing prefix.
pub proof fn lemma_render_list_step(vs: Seq<VariantModel>, j: int)
    requires
        0 <= j < vs.len(),
    ensures
        spec_render_list(vs.take(j + 1)) == spec_render_list(vs.take(j)).push(
            spec_render_variant(vs[j]),
        ),
{
    lemma_take_step(vs, j);
}

/// One step of `spec_render_entries` over a growing prefix.
pub proof fn lemma_render_entries_step(m: Seq<(Seq<char>, Seq<VariantModel>)>, i: int)
    requires
        0 <= i < m.len(),
    ensures
        spec_render_entries(m.take(i + 1)) == spec_render_entries(m.take(i)).push(
            (
                m[i].0,
                JsonModel::Obj(seq![("types"@, JsonModel::Arr(spec_render_list(m[i].1)))]),
            ),
        ),
{
    lemma_take_step(m, i);
}

/// The decimal digit of one value below ten.
fn dec_digit(d: usize) -> (s: &'static str)
    requires
        d < 10,
    ensures
        s@ == spec_dec_digit(d as nat),
{
    if d == 0 {
        "0"
    } else if d == 1 {
        "1"
    } else if d == 2 {
        "2"
    } else if d == 3 {
        "3"
    } else if d == 4 {
        "4"
    } else if d == 5 {
        "5"
    } else if d == 6 {
        "6"
    } else if d == 7 {
        "7"
    } else if d == 8 {
        "8"
    } else {
        "9"
    }
}

/// The decimal rendering of a count.
fn decimal_string(n: usize) -> (s: String)
    ensures
        s@ == spec_dec(n as nat),
    decreases n,
{
    if n < 10 {
        String::from_str(dec_digit(n))
    } else {
        let mut s = decimal_string(n / 10);
        s.append(dec_digit(n % 10));
        s
    }
}

/// The `STRING(..)` rendering of a string range.
fn range_text(lo: usize, hi: usize) -> (s: String)
    ensures
        s@ == spec_range_text(lo as nat, hi as nat),
{
    let mut s = String::from_str("STRING(");
    let d = decimal_string(lo);
    s.append(d.as_str());
    if lo != hi {
        s.append(", ");
        let d2 = decimal_string(hi);
        s.append(d2.as_str());
    }
    s.append(")");
    s
}

impl SchemaValueType {
    /// Render one variant into a plain JSON document: a primitive as its
    /// kind name, a string range as `STRING(..)`, an array as an
    /// `ARRAY`-tagged list, an object as its nested schema document.
    #[verifier::loop_isolation(false)]
    pub fn to_json(&self) -> (r: JsonValue)
        ensures
            r@ == spec_render_variant(self@),
        decreases variant_size(self@), 0nat,
    {
        match self {
            SchemaValueType::Primitive(k) => {
                let text = match k {
                    PrimitiveKind::Null => String::from_str("NULL"),
                    PrimitiveKind::Bool => String::from_str("BOOL"),
                    PrimitiveKind::Number => String::from_str("NUMBER"),
                };
                JsonValue::Text(text)
            },
            SchemaValueType::StringRange(lo, hi) => JsonValue::Text(range_text(*lo, *hi)),
            SchemaValueType::Array(vs) => {
                let ghost vm = variant_list_model(vs@);
                proof {
                    lemma_variant_list_model(vs@);
                }
                let mut types: Vec<JsonValue> = Vec::new();
                let mut j: usize = 0;
                while j < vs.len()
                    invariant
                        j <= vs@.len(),
                        json_list_model(types@) == spec_render_list(vm.take(j as int)),
                    decreases vs@.len() - j,
                {
                    proof {
                        lemma_render_list_step(vm, j as int);
                        lemma_variant_list_size_elem(vm, j as int);
                    }
                    let rendered = vs[j].to_json();
                    proof {
                        lemma_json_list_model_push(types@, rendered);
                    }
                    types.push(rendered);
                    j = j + 1;
                }
                proof {
                    assert(vm.take(vm.len() as int) =~= vm);
                }
                let tag = String::from_str("ARRAY");
                let fields = vec![(tag, JsonValue::Arr(types))];
                let r = JsonValue::Obj(fields);
                proof {
                    lemma_json_fields_model(r->Obj_0@);
                    assert(r@->Obj_0 =~= spec_render_variant(self@)->Obj_0);
                }
                r
            },
            SchemaValueType::Object(s) => s.to_json(),
        }
    }
}

impl Schema {
    /// Render a schema into a plain JSON document: for each field an entry
    /// whose `types` list holds the rendering of every variant.
    #[verifier::loop_isolation(false)]
    pub fn to_json(&self) -> (r: JsonValue)
        ensures
            r@ == spec_render_schema(self@),
        decreases schema_size(self@), 1nat,
    {
        let ghost em = entries_model(self.map@);
        proof {
            lemma_entries_model(self.map@);
        }
        let mut fields: Vec<(String, JsonValue)> = Vec::new();
        let mut i: usize = 0;
        while i < self.map.len()
            invariant
                i <= self.map@.len(),
                json_fields_model(fields@) == spec_render_entries(em.take(i as int)),
            decreases self.map@.len() - i,
        {
            proof {
                lemma_render_entries_step(em, i as int);
                lemma_entry_list_size_elem(em, i as int);
                lemma_variant_list_model(self.map@[i as int].1@);
            }
            let ghost vm = em[i as int].1;
            let entry = &self.map[i];
            let mut types: Vec<JsonValue> = Vec::new();
            let mut j: usize = 0;
            while j < entry.1.len()
                invariant
                    j <= entry.1@.len(),
                    json_list_model(types@) == spec_render_list(vm.take(j as int)),
                decreases entry.1@.len() - j,
            {
                proof {
                    lemma_render_list_step(vm, j as int);
                    lemma_variant_list_size_elem(vm, j as int);
                }
                let rendered = entry.1[j].to_json();
                proof {
                    lemma_json_list_model_push(types@, rendered);
                }
                types.push(rendered);
                j = j + 1;
            }
            proof {
                assert(vm.take(vm.len() as int) =~= vm);
            }
            let tag = String::from_str("types");
            let inner = vec![(tag, JsonValue::Arr(types))];
            let name = entry.0.clone();
            let rendered_entry = (name, JsonValue::Obj(inner));
            proof {
                lemma_json_fields_model(rendered_entry.1->Obj_0@);
                assert(json_fields_model(rendered_entry.1->Obj_0@) =~= seq![
                    ("types"@, JsonModel::Arr(spec_render_list(vm))),
                ]);
                lemma_json_fields_model_push(fields@, rendered_entry);
            }
            fields.push(rendered_entry);
            i = i + 1;
        }
        proof {
            assert(em.take(em.len() as int) =~= em);
        }
        JsonValue::Obj(fields)
    }
}

} // verus!
