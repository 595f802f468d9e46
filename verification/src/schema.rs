//! Merged schema values: the distinct type variants observed for each field
//! across many instances, and structural equality between them.

use vstd::prelude::*;

verus! {

/// The kind of a scalar JSON value.
#[derive(Clone, Copy, PartialEq, Eq, Structural, Debug)]
pub enum PrimitiveKind {
    Null,
    Bool,
    Number,
}

/// The one failure condition of schema inference: the top-level JSON value is
/// neither an object nor an array.
#[derive(Clone, Copy, PartialEq, Eq, Structural, Debug)]
pub enum SchemaError {
    InvalidInput,
}

/// One merged type variant attached to a field.
///
/// `StringRange(min, max)` carries the inclusive bounds of every sampled
/// string length for the field; `Array` the distinct element variants seen
/// across every array instance; `Object` a fully aggregated nested schema.
pub enum SchemaValueType {
    Primitive(PrimitiveKind),
    StringRange(usize, usize),
    Array(Vec<SchemaValueType>),
    Object(Schema),
}

/// A schema: for every field name observed, the list of distinct type
/// variants seen for that field. `name` is diagnostic only.
pub struct Schema {
    pub name: String,
    pub map: Vec<(String, Vec<SchemaValueType>)>,
}

/// Mathematical model of one type variant.
pub enum VariantModel {
    Primitive(PrimitiveKind),
    StringRange(nat, nat),
    Arr(Seq<VariantModel>),
    Obj(SchemaModel),
}

/// Mathematical model of a schema.
pub struct SchemaModel {
    pub name: Seq<char>,
    pub map: Seq<(Seq<char>, Seq<VariantModel>)>,
}

impl SchemaValueType {
    /// The mathematical variant this value denotes.
    pub open spec fn model(&self) -> VariantModel
        decreases self,
    {
        match self {
            SchemaValueType::Primitive(k) => VariantModel::Primitive(*k),
            SchemaValueType::StringRange(lo, hi) => VariantModel::StringRange(
                *lo as nat,
                *hi as nat,
            ),
            SchemaValueType::Array(vs) => VariantModel::Arr(variant_list_model(vs@)),
            SchemaValueType::Object(s) => VariantModel::Obj(s.model()),
        }
    }
}

impl Schema {
    /// The mathematical schema this value denotes.
    pub open spec fn model(&self) -> SchemaModel
        decreases self,
    {
        SchemaModel { name: self.name@, map: entries_model(self.map@) }
    }
}

/// The models of a variant list, in order.
pub open spec fn variant_list_model(vs: Seq<SchemaValueType>) -> Seq<VariantModel>
    decreases vs,
{
    if vs.len() == 0 {
        Seq::empty()
    } else {
        variant_list_model(vs.drop_last()).push(vs.last().model())
    }
}

/// The models of a schema's field entries, in order.
pub open spec fn entries_model(es: Seq<(String, Vec<SchemaValueType>)>) -> Seq<
    (Seq<char>, Seq<VariantModel>),
>
    decreases es,
{
    if es.len() == 0 {
        Seq::empty()
    } else {
        entries_model(es.drop_last()).push((es.last().0@, variant_list_model(es.last().1@)))
    }
}

impl View for SchemaValueType {
    type V = VariantModel;

    open spec fn view(&self) -> VariantModel {
        self.model()
    }
}

impl View for Schema {
    type V = SchemaModel;

    open spec fn view(&self) -> SchemaModel {
        self.model()
    }
}

/// `variant_list_model` maps the list elementwise.
pub proof fn lemma_variant_list_model(vs: Seq<SchemaValueType>)
    ensures
        variant_list_model(vs).len() == vs.len(),
        forall|i: int| 0 <= i < vs.len() ==> variant_list_model(vs)[i] == vs[i]@,
    decreases vs.len(),
{
    if vs.len() > 0 {
        lemma_variant_list_model(vs.drop_last());
        assert forall|i: int| 0 <= i < vs.len() implies variant_list_model(vs)[i] == vs[i]@ by {
            if i < vs.len() - 1 {
                assert(vs.drop_last()[i] == vs[i]);
            }
        }
    }
}

/// `entries_model` maps the entry list elementwise.
pub proof fn lemma_entries_model(es: Seq<(String, Vec<SchemaValueType>)>)
    ensures
        entries_model(es).len() == es.len(),
        forall|i: int|
            0 <= i < es.len() ==> entries_model(es)[i] == (
                es[i].0@,
                variant_list_model(es[i].1@),
            ),
    decreases es.len(),
{
    if es.len() > 0 {
        lemma_entries_model(es.drop_last());
        assert forall|i: int| 0 <= i < es.len() implies entries_model(es)[i] == (
        es[i].0@,
        variant_list_model(es[i].1@),
        ) by {
            if i < es.len() - 1 {
                assert(es.drop_last()[i] == es[i]);
            }
        }
    }
}

/// Size of one variant model, used as a termination measure.
pub open spec fn variant_size(v: VariantModel) -> nat
    decreases v,
{
    match v {
        VariantModel::Primitive(_) => 1,
        VariantModel::StringRange(_, _) => 1,
        VariantModel::Arr(vs) => 1 + variant_list_size(vs),
        VariantModel::Obj(s) => 2 + schema_size(s),
    }
}

/// Size of a variant list, one extra unit per element.
pub open spec fn variant_list_size(vs: Seq<VariantModel>) -> nat
    decreases vs,
{
    if vs.len() == 0 {
        0
    } else {
        variant_list_size(vs.drop_last()) + 1 + variant_size(vs.last())
    }
}

/// Size of a schema's entry list, one extra unit per entry.
pub open spec fn entry_list_size(es: Seq<(Seq<char>, Seq<VariantModel>)>) -> nat
    decreases es,
{
    if es.len() == 0 {
        0
    } else {
        entry_list_size(es.drop_last()) + 1 + variant_list_size(es.last().1)
    }
}

/// Size of a schema model.
pub open spec fn schema_size(s: SchemaModel) -> nat
    decreases s,
{
    1 + entry_list_size(s.map)
}

/// Structural equality of two variants, the relation deduplication uses.
///
/// Two `Arr` variants are equal iff their element lists are equal as sets;
/// two `Obj` variants iff their schemas are structurally equal.
pub open spec fn variant_equiv(a: VariantModel, b: VariantModel) -> bool
    decreases variant_size(a) + variant_size(b),
{
    match (a, b) {
        (VariantModel::Primitive(k1), VariantModel::Primitive(k2)) => k1 == k2,
        (VariantModel::StringRange(lo1, hi1), VariantModel::StringRange(lo2, hi2)) => lo1 == lo2
            && hi1 == hi2,
        (VariantModel::Arr(xs), VariantModel::Arr(ys)) => vlist_subset(xs, ys) && vlist_subset(
            ys,
            xs,
        ),
        (VariantModel::Obj(s1), VariantModel::Obj(s2)) => schema_equiv(s1, s2),
        _ => false,
    }
}

/// Whether some element of `ys` is structurally equal to `v`.
pub open spec fn vlist_contains(ys: Seq<VariantModel>, v: VariantModel) -> bool
    decreases variant_list_size(ys) + variant_size(v),
{
    ys.len() > 0 && (variant_equiv(v, ys.last()) || vlist_contains(ys.drop_last(), v))
}

/// Whether every element of `xs` is structurally equal to some element of
/// `ys`.
pub open spec fn vlist_subset(xs: Seq<VariantModel>, ys: Seq<VariantModel>) -> bool
    decreases variant_list_size(xs) + variant_list_size(ys),
{
    xs.len() == 0 || (vlist_contains(ys, xs.last()) && vlist_subset(xs.drop_last(), ys))
}

/// Set equality of two variant lists under structural equality.
pub open spec fn vlist_set_equiv(xs: Seq<VariantModel>, ys: Seq<VariantModel>) -> bool
    decreases variant_list_size(xs) + variant_list_size(ys) + 1,
{
    vlist_subset(xs, ys) && vlist_subset(ys, xs)
}

/// Whether `m` holds an entry with `e`'s name whose variant list is
/// set-equal to `e`'s.
pub open spec fn entry_in(m: Seq<(Seq<char>, Seq<VariantModel>)>, e: (Seq<char>, Seq<VariantModel>))
    -> bool
    decreases entry_list_size(m) + variant_list_size(e.1) + 2,
{
    m.len() > 0 && ((m.last().0 == e.0 && vlist_set_equiv(e.1, m.last().1)) || entry_in(
        m.drop_last(),
        e,
    ))
}

/// Whether every entry of `m1` appears, up to variant-set equality, in `m2`.
pub open spec fn entry_list_subset(
    m1: Seq<(Seq<char>, Seq<VariantModel>)>,
    m2: Seq<(Seq<char>, Seq<VariantModel>)>,
) -> bool
    decreases entry_list_size(m1) + entry_list_size(m2) + 3,
{
    m1.len() == 0 || (entry_in(m2, m1.last()) && entry_list_subset(m1.drop_last(), m2))
}

/// Structural equality of two schemas: same name, and the same field-to-
/// variant-set mapping, regardless of entry order.
pub open spec fn schema_equiv(s1: SchemaModel, s2: SchemaModel) -> bool
    decreases schema_size(s1) + schema_size(s2) + 2,
{
    s1.name == s2.name && entry_list_subset(s1.map, s2.map) && entry_list_subset(s2.map, s1.map)
}

/// Every element of a variant list weighs less than the whole list.
pub proof fn lemma_variant_list_size_elem(vs: Seq<VariantModel>, i: int)
    requires
        0 <= i < vs.len(),
    ensures
        variant_size(vs[i]) < variant_list_size(vs),
    decreases vs.len(),
{
    if i == vs.len() - 1 {
    } else {
        lemma_variant_list_size_elem(vs.drop_last(), i);
        assert(vs.drop_last()[i] == vs[i]);
    }
}

/// Every entry's variant list weighs less than the whole entry list.
pub proof fn lemma_entry_list_size_elem(m: Seq<(Seq<char>, Seq<VariantModel>)>, i: int)
    requires
        0 <= i < m.len(),
    ensures
        variant_list_size(m[i].1) < entry_list_size(m),
    decreases m.len(),
{
    if i == m.len() - 1 {
    } else {
        lemma_entry_list_size_elem(m.drop_last(), i);
        assert(m.drop_last()[i] == m[i]);
    }
}

/// `vlist_contains` holds exactly when some element is structurally equal.
pub proof fn lemma_vlist_contains_iff(ys: Seq<VariantModel>, v: VariantModel)
    ensures
        vlist_contains(ys, v) <==> exists|j: int|
            0 <= j < ys.len() && variant_equiv(v, #[trigger] ys[j]),
    decreases ys.len(),
{
    if ys.len() > 0 {
        lemma_vlist_contains_iff(ys.drop_last(), v);
        assert forall|j: int| 0 <= j < ys.len() - 1 implies ys.drop_last()[j] == ys[j] by {}
        if vlist_contains(ys, v) {
            if variant_equiv(v, ys.last()) {
                assert(variant_equiv(v, ys[ys.len() - 1]));
            }
        }
        if exists|j: int| 0 <= j < ys.len() && variant_equiv(v, #[trigger] ys[j]) {
            let j = choose|j: int| 0 <= j < ys.len() && variant_equiv(v, #[trigger] ys[j]);
            if j < ys.len() - 1 {
                assert(variant_equiv(v, ys.drop_last()[j]));
            }
        }
    }
}

/// `vlist_subset` holds exactly when every element is contained.
pub proof fn lemma_vlist_subset_iff(xs: Seq<VariantModel>, ys: Seq<VariantModel>)
    ensures
        vlist_subset(xs, ys) <==> forall|i: int|
            0 <= i < xs.len() ==> vlist_contains(ys, #[trigger] xs[i]),
    decreases xs.len(),
{
    if xs.len() > 0 {
        lemma_vlist_subset_iff(xs.drop_last(), ys);
        assert forall|i: int| 0 <= i < xs.len() - 1 implies xs.drop_last()[i] == xs[i] by {}
        if vlist_subset(xs, ys) {
            assert forall|i: int| 0 <= i < xs.len() implies vlist_contains(
                ys,
                #[trigger] xs[i],
            ) by {
                if i < xs.len() - 1 {
                    assert(vlist_contains(ys, xs.drop_last()[i]));
                }
            }
        }
    }
}

/// `entry_in` holds exactly when some entry matches by name and variant set.
pub proof fn lemma_entry_in_iff(
    m: Seq<(Seq<char>, Seq<VariantModel>)>,
    e: (Seq<char>, Seq<VariantModel>),
)
    ensures
        entry_in(m, e) <==> exists|j: int|
            0 <= j < m.len() && (#[trigger] m[j]).0 == e.0 && vlist_set_equiv(e.1, m[j].1),
    decreases m.len(),
{
    if m.len() > 0 {
        lemma_entry_in_iff(m.drop_last(), e);
        assert forall|j: int| 0 <= j < m.len() - 1 implies m.drop_last()[j] == m[j] by {}
        if entry_in(m, e) {
            if m.last().0 == e.0 && vlist_set_equiv(e.1, m.last().1) {
                assert((m[m.len() - 1]).0 == e.0 && vlist_set_equiv(e.1, m[m.len() - 1].1));
            }
        }
        if exists|j: int|
            0 <= j < m.len() && (#[trigger] m[j]).0 == e.0 && vlist_set_equiv(e.1, m[j].1) {
            let j = choose|j: int|
                0 <= j < m.len() && (#[trigger] m[j]).0 == e.0 && vlist_set_equiv(e.1, m[j].1);
            if j < m.len() - 1 {
                assert((m.drop_last()[j]).0 == e.0 && vlist_set_equiv(e.1, m.drop_last()[j].1));
            }
        }
    }
}

/// `entry_list_subset` holds exactly when every entry is matched.
pub proof fn lemma_entry_list_subset_iff(
    m1: Seq<(Seq<char>, Seq<VariantModel>)>,
    m2: Seq<(Seq<char>, Seq<VariantModel>)>,
)
    ensures
        entry_list_subset(m1, m2) <==> forall|i: int|
            0 <= i < m1.len() ==> entry_in(m2, #[trigger] m1[i]),
    decreases m1.len(),
{
    if m1.len() > 0 {
        lemma_entry_list_subset_iff(m1.drop_last(), m2);
        assert forall|i: int| 0 <= i < m1.len() - 1 implies m1.drop_last()[i] == m1[i] by {}
        if entry_list_subset(m1, m2) {
            assert forall|i: int| 0 <= i < m1.len() implies entry_in(m2, #[trigger] m1[i]) by {
                if i < m1.len() - 1 {
                    assert(entry_in(m2, m1.drop_last()[i]));
                }
            }
        }
    }
}

/// Whether some element of `ys` is structurally equal to `v`.
#[verifier::loop_isolation(false)]
pub(crate) fn list_contains_eq(ys: &Vec<SchemaValueType>, v: &SchemaValueType) -> (r: bool)
    ensures
        r == vlist_contains(variant_list_model(ys@), v@),
    decreases variant_list_size(variant_list_model(ys@)) + variant_size(v@),
{
    let ghost ylm = variant_list_model(ys@);
    proof {
        lemma_variant_list_model(ys@);
    }
    let mut found = false;
    let mut j: usize = 0;
    while j < ys.len()
        invariant
            j <= ys@.len(),
            found == exists|k: int| 0 <= k < j && variant_equiv(v@, #[trigger] ylm[k]),
        decreases ys@.len() - j,
    {
        proof {
            lemma_variant_list_size_elem(ylm, j as int);
        }
        if v.structural_eq(&ys[j]) {
            found = true;
            proof {
                assert(variant_equiv(v@, ylm[j as int]));
            }
        }
        j = j + 1;
    }
    proof {
        lemma_vlist_contains_iff(ylm, v@);
    }
    found
}

/// Whether every element of `xs` is structurally equal to some element of
/// `ys`.
#[verifier::loop_isolation(false)]
pub(crate) fn list_subset_eq(xs: &Vec<SchemaValueType>, ys: &Vec<SchemaValueType>) -> (r: bool)
    ensures
        r == vlist_subset(variant_list_model(xs@), variant_list_model(ys@)),
    decreases variant_list_size(variant_list_model(xs@)) + variant_list_size(
        variant_list_model(ys@),
    ),
{
    let ghost xlm = variant_list_model(xs@);
    let ghost ylm = variant_list_model(ys@);
    proof {
        lemma_variant_list_model(xs@);
    }
    let mut ok = true;
    let mut i: usize = 0;
    while i < xs.len()
        invariant
            i <= xs@.len(),
            ok == forall|k: int| 0 <= k < i ==> vlist_contains(ylm, #[trigger] xlm[k]),
        decreases xs@.len() - i,
    {
        proof {
            lemma_variant_list_size_elem(xlm, i as int);
        }
        if !list_contains_eq(ys, &xs[i]) {
            ok = false;
        }
        i = i + 1;
    }
    proof {
        lemma_vlist_subset_iff(xlm, ylm);
    }
    ok
}

impl SchemaValueType {
    /// Structural equality, the relation deduplication uses: array variants
    /// compare as sets of element variants, object variants by their schemas.
    pub fn structural_eq(&self, other: &SchemaValueType) -> (r: bool)
        ensures
            r == variant_equiv(self@, other@),
        decreases variant_size(self@) + variant_size(other@),
    {
        match (self, other) {
            (SchemaValueType::Primitive(k1), SchemaValueType::Primitive(k2)) => *k1 == *k2,
            (SchemaValueType::StringRange(lo1, hi1), SchemaValueType::StringRange(lo2, hi2)) => *lo1
                == *lo2 && *hi1 == *hi2,
            (SchemaValueType::Array(xs), SchemaValueType::Array(ys)) => {
                let fwd = list_subset_eq(xs, ys);
                let bwd = list_subset_eq(ys, xs);
                fwd && bwd
            },
            (SchemaValueType::Object(s1), SchemaValueType::Object(s2)) => s1.structural_eq(s2),
            _ => false,
        }
    }
}

/// Whether `m2` holds an entry with `e`'s name and a set-equal variant list.
#[verifier::loop_isolation(false)]
fn entry_in_eq(m2: &Vec<(String, Vec<SchemaValueType>)>, e: &(String, Vec<SchemaValueType>)) -> (r:
    bool)
    ensures
        r == entry_in(entries_model(m2@), (e.0@, variant_list_model(e.1@))),
    decreases entry_list_size(entries_model(m2@)) + variant_list_size(variant_list_model(e.1@))
        + 2,
{
    let ghost em2 = entries_model(m2@);
    let ghost ee = (e.0@, variant_list_model(e.1@));
    proof {
        lemma_entries_model(m2@);
    }
    let mut found = false;
    let mut j: usize = 0;
    while j < m2.len()
        invariant
            j <= m2@.len(),
            found == exists|k: int|
                0 <= k < j && (#[trigger] em2[k]).0 == ee.0 && vlist_set_equiv(ee.1, em2[k].1),
        decreases m2@.len() - j,
    {
        proof {
            lemma_entry_list_size_elem(em2, j as int);
        }
        if m2[j].0 == e.0 {
            let fwd = list_subset_eq(&e.1, &m2[j].1);
            let bwd = list_subset_eq(&m2[j].1, &e.1);
            if fwd && bwd {
                found = true;
                proof {
                    assert((em2[j as int]).0 == ee.0 && vlist_set_equiv(ee.1, em2[j as int].1));
                }
            }
        }
        j = j + 1;
    }
    proof {
        lemma_entry_in_iff(em2, ee);
    }
    found
}

/// Whether every entry of `m1` is matched in `m2`.
#[verifier::loop_isolation(false)]
fn entries_subset_eq(
    m1: &Vec<(String, Vec<SchemaValueType>)>,
    m2: &Vec<(String, Vec<SchemaValueType>)>,
) -> (r: bool)
    ensures
        r == entry_list_subset(entries_model(m1@), entries_model(m2@)),
    decreases entry_list_size(entries_model(m1@)) + entry_list_size(entries_model(m2@)) + 3,
{
    let ghost em1 = entries_model(m1@);
    let ghost em2 = entries_model(m2@);
    proof {
        lemma_entries_model(m1@);
    }
    let mut ok = true;
    let mut i: usize = 0;
    while i < m1.len()
        invariant
            i <= m1@.len(),
            ok == forall|k: int| 0 <= k < i ==> entry_in(em2, #[trigger] em1[k]),
        decreases m1@.len() - i,
    {
        proof {
            lemma_entry_list_size_elem(em1, i as int);
        }
        if !entry_in_eq(m2, &m1[i]) {
            ok = false;
        }
        i = i + 1;
    }
    proof {
        lemma_entry_list_subset_iff(em1, em2);
    }
    ok
}

impl Schema {
    /// Structural equality of two schemas: same name and the same field-to-
    /// variant-set mapping, regardless of entry order.
    pub fn structural_eq(&self, other: &Schema) -> (r: bool)
        ensures
            r == schema_equiv(self@, other@),
        decreases schema_size(self@) + schema_size(other@) + 2,
    {
        let names = self.name == other.name;
        let fwd = entries_subset_eq(&self.map, &other.map);
        let bwd = entries_subset_eq(&other.map, &self.map);
        names && fwd && bwd
    }
}


/// The model of a pushed variant list.
pub proof fn lemma_variant_list_model_push(vs: Seq<SchemaValueType>, v: SchemaValueType)
    ensures
        variant_list_model(vs.push(v)) == variant_list_model(vs).push(v@),
{
    assert(vs.push(v).drop_last() =~= vs);
    assert(vs.push(v).last() == v);
}

/// The model of a pushed entry list.
pub proof fn lemma_entries_model_push(
    es: Seq<(String, Vec<SchemaValueType>)>,
    e: (String, Vec<SchemaValueType>),
)
    ensures
        entries_model(es.push(e)) == entries_model(es).push((e.0@, variant_list_model(e.1@))),
{
    assert(es.push(e).drop_last() =~= es);
    assert(es.push(e).last() == e);
}

} // verus!
