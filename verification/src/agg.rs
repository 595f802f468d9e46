//! The schema aggregator: merging the shapes observed for each field, across
//! a batch of sibling object instances, into one schema.

use vstd::prelude::*;

use crate::schema::{
    entries_model, lemma_entries_model, lemma_entries_model_push, lemma_variant_list_model,
    lemma_variant_list_model_push, variant_list_model, vlist_contains, PrimitiveKind, Schema,
    SchemaError, SchemaModel, SchemaValueType, VariantModel,
};
use crate::json::{JsonModel, JsonValue};
use crate::shape::{
    batch_size, fields_size, lemma_fields_size_elem, lemma_objects_model,
    lemma_objects_model_push, lemma_shape_fields_model, lemma_shape_fields_model_push,
    lemma_shape_list_model, lemma_shape_list_model_push, lemma_shape_list_size_elem,
    objects_model, shape_fields_model, shape_list_model, shape_list_size, shape_size,
    shapes_of_fields, spec_shape_of, FieldsModel, SchemaObject, SchemaObjectKey, ShapeModel,
    ValueType,
};

verus! {

/// A one-step prefix extension: `s.take(i + 1)` is `s.take(i)` plus `s[i]`.
pub proof fn lemma_take_step<A>(s: Seq<A>, i: int)
    requires
        0 <= i < s.len(),
    ensures
        s.take(i + 1).drop_last() =~= s.take(i),
        s.take(i + 1).last() == s[i],
        s.take(i + 1).len() == i + 1,
{
}

/// A pushed sequence splits back into its base and its last element.
pub proof fn lemma_push_step<A>(s: Seq<A>, v: A)
    ensures
        s.push(v).drop_last() =~= s,
        s.push(v).last() == v,
{
}

/// Every (field, shape) pair of every descriptor in a batch, in batch order.
pub open spec fn batch_pairs(objs: Seq<FieldsModel>) -> FieldsModel
    decreases objs,
{
    if objs.len() == 0 {
        Seq::empty()
    } else {
        batch_pairs(objs.drop_last()) + objs.last()
    }
}

/// The shapes observed for field `f`, in order of occurrence.
pub open spec fn bucket_of(ps: FieldsModel, f: Seq<char>) -> Seq<ShapeModel>
    decreases ps,
{
    if ps.len() == 0 {
        Seq::empty()
    } else {
        bucket_of(ps.drop_last(), f) + (if ps.last().0 == f {
            seq![ps.last().1]
        } else {
            Seq::empty()
        })
    }
}

/// The distinct field names of a pair list, in order of first occurrence.
pub open spec fn field_names(ps: FieldsModel) -> Seq<Seq<char>>
    decreases ps,
{
    if ps.len() == 0 {
        Seq::empty()
    } else {
        let rest = field_names(ps.drop_last());
        if rest.contains(ps.last().0) {
            rest
        } else {
            rest.push(ps.last().0)
        }
    }
}

/// Whether a shape is a scalar: a null, boolean, or number.
pub open spec fn is_scalar(s: ShapeModel) -> bool {
    s matches ShapeModel::Null || s matches ShapeModel::Bool || s matches ShapeModel::Number
}

/// The primitive kind of a scalar shape.
pub open spec fn prim_kind_of(s: ShapeModel) -> PrimitiveKind {
    match s {
        ShapeModel::Bool => PrimitiveKind::Bool,
        ShapeModel::Number => PrimitiveKind::Number,
        _ => PrimitiveKind::Null,
    }
}

/// The primitive variants of the scalar shapes of a bucket, in order, with
/// duplicates still present.
pub open spec fn scalar_prims(shapes: Seq<ShapeModel>) -> Seq<VariantModel>
    decreases shapes,
{
    if shapes.len() == 0 {
        Seq::empty()
    } else {
        scalar_prims(shapes.drop_last()) + (if is_scalar(shapes.last()) {
            seq![VariantModel::Primitive(prim_kind_of(shapes.last()))]
        } else {
            Seq::empty()
        })
    }
}

/// Append a variant unless a structurally equal one is already present.
pub open spec fn dedup_push(acc: Seq<VariantModel>, v: VariantModel) -> Seq<VariantModel> {
    if vlist_contains(acc, v) {
        acc
    } else {
        acc.push(v)
    }
}

/// Deduplicate a variant list front to back, by structural equality.
pub open spec fn dedup_list(vs: Seq<VariantModel>) -> Seq<VariantModel>
    decreases vs,
{
    if vs.len() == 0 {
        Seq::empty()
    } else {
        dedup_push(dedup_list(vs.drop_last()), vs.last())
    }
}

/// The character counts of the string shapes of a bucket, in order.
pub open spec fn text_lens(shapes: Seq<ShapeModel>) -> Seq<nat>
    decreases shapes,
{
    if shapes.len() == 0 {
        Seq::empty()
    } else {
        text_lens(shapes.drop_last()) + (if shapes.last() matches ShapeModel::Text(_) {
            seq![shapes.last()->Text_0]
        } else {
            Seq::empty()
        })
    }
}

/// The least element of a list of counts; zero when the list is empty.
pub open spec fn min_of(lens: Seq<nat>) -> nat
    decreases lens,
{
    if lens.len() == 0 {
        0
    } else if lens.len() == 1 {
        lens[0]
    } else {
        let rest = min_of(lens.drop_last());
        if lens.last() < rest {
            lens.last()
        } else {
            rest
        }
    }
}

/// The greatest element of a list of counts; zero when the list is empty.
pub open spec fn max_of(lens: Seq<nat>) -> nat
    decreases lens,
{
    if lens.len() == 0 {
        0
    } else if lens.len() == 1 {
        lens[0]
    } else {
        let rest = max_of(lens.drop_last());
        if lens.last() > rest {
            lens.last()
        } else {
            rest
        }
    }
}

/// The nested object descriptors of a bucket, in order.
pub open spec fn obj_descs(shapes: Seq<ShapeModel>) -> Seq<FieldsModel>
    decreases shapes,
{
    if shapes.len() == 0 {
        Seq::empty()
    } else {
        obj_descs(shapes.drop_last()) + (if shapes.last() matches ShapeModel::Obj(_) {
            seq![shapes.last()->Obj_0]
        } else {
            Seq::empty()
        })
    }
}

/// Whether any shape of a bucket is an array.
pub open spec fn has_arr(shapes: Seq<ShapeModel>) -> bool
    decreases shapes,
{
    shapes.len() > 0 && (shapes.last() matches ShapeModel::Arr(_) || has_arr(shapes.drop_last()))
}

/// Every element shape of every array instance of a bucket, in order.
pub open spec fn arr_elems(shapes: Seq<ShapeModel>) -> Seq<ShapeModel>
    decreases shapes,
{
    if shapes.len() == 0 {
        Seq::empty()
    } else {
        arr_elems(shapes.drop_last()) + (if shapes.last() matches ShapeModel::Arr(_) {
            shapes.last()->Arr_0
        } else {
            Seq::empty()
        })
    }
}

/// Whether some field of `b` bears the given name.
pub open spec fn has_key(b: FieldsModel, n: Seq<char>) -> bool {
    exists|j: int| 0 <= j < b.len() && (#[trigger] b[j].0) == n
}

/// Whether two object descriptors have the same field-name set: the
/// order-independent fingerprint that groups structurally similar objects.
pub open spec fn same_key_set(a: FieldsModel, b: FieldsModel) -> bool {
    (forall|i: int| 0 <= i < a.len() ==> has_key(b, (#[trigger] a[i]).0)) && (forall|j: int|
        0 <= j < b.len() ==> has_key(a, (#[trigger] b[j]).0))
}

/// The descriptors of a batch whose field-name set equals the pivot's.
pub open spec fn filter_same_keys(descs: Seq<FieldsModel>, pivot: FieldsModel) -> Seq<FieldsModel>
    decreases descs,
{
    if descs.len() == 0 {
        Seq::empty()
    } else {
        filter_same_keys(descs.drop_last(), pivot) + (if same_key_set(descs.last(), pivot) {
            seq![descs.last()]
        } else {
            Seq::empty()
        })
    }
}

/// The descriptors of a batch whose field-name set differs from the pivot's.
pub open spec fn filter_diff_keys(descs: Seq<FieldsModel>, pivot: FieldsModel) -> Seq<FieldsModel>
    decreases descs,
{
    if descs.len() == 0 {
        Seq::empty()
    } else {
        filter_diff_keys(descs.drop_last(), pivot) + (if !same_key_set(descs.last(), pivot) {
            seq![descs.last()]
        } else {
            Seq::empty()
        })
    }
}

/// The field-name-set relation is reflexive.
pub proof fn lemma_same_key_set_refl(a: FieldsModel)
    ensures
        same_key_set(a, a),
{
    assert forall|i: int| 0 <= i < a.len() implies has_key(a, (#[trigger] a[i]).0) by {
        assert(0 <= i < a.len() && a[i].0 == a[i].0);
    }
}

/// Sizes of pair lists add over concatenation.
pub proof fn lemma_fields_size_concat(a: FieldsModel, b: FieldsModel)
    ensures
        fields_size(a + b) == fields_size(a) + fields_size(b),
    decreases b.len(),
{
    if b.len() == 0 {
        assert(a + b =~= a);
    } else {
        lemma_fields_size_concat(a, b.drop_last());
        assert((a + b).drop_last() =~= a + b.drop_last());
        assert((a + b).last() == b.last());
    }
}

/// Sizes of shape lists add over concatenation.
pub proof fn lemma_shape_list_size_concat(a: Seq<ShapeModel>, b: Seq<ShapeModel>)
    ensures
        shape_list_size(a + b) == shape_list_size(a) + shape_list_size(b),
    decreases b.len(),
{
    if b.len() == 0 {
        assert(a + b =~= a);
    } else {
        lemma_shape_list_size_concat(a, b.drop_last());
        assert((a + b).drop_last() =~= a + b.drop_last());
        assert((a + b).last() == b.last());
    }
}

/// Sizes of descriptor batches add over concatenation.
pub proof fn lemma_batch_size_concat(a: Seq<FieldsModel>, b: Seq<FieldsModel>)
    ensures
        batch_size(a + b) == batch_size(a) + batch_size(b),
    decreases b.len(),
{
    if b.len() == 0 {
        assert(a + b =~= a);
    } else {
        lemma_batch_size_concat(a, b.drop_last());
        assert((a + b).drop_last() =~= a + b.drop_last());
        assert((a + b).last() == b.last());
    }
}

/// The size of an empty shape list.
pub proof fn lemma_sls_empty()
    ensures
        shape_list_size(Seq::<ShapeModel>::empty()) == 0,
{
}

/// The size of a one-shape list.
pub proof fn lemma_sls_singleton(x: ShapeModel)
    ensures
        shape_list_size(seq![x]) == shape_size(x),
{
    assert(seq![x].drop_last() =~= Seq::<ShapeModel>::empty());
    lemma_sls_empty();
}

/// The size of an empty batch.
pub proof fn lemma_batch_empty()
    ensures
        batch_size(Seq::<FieldsModel>::empty()) == 0,
{
}

/// The size of a one-descriptor batch.
pub proof fn lemma_batch_singleton(fs: FieldsModel)
    ensures
        batch_size(seq![fs]) == 1 + fields_size(fs),
{
    assert(seq![fs].drop_last() =~= Seq::<FieldsModel>::empty());
    lemma_batch_empty();
}

/// The pairs of a batch weigh no more than the batch.
pub proof fn lemma_batch_pairs_size(objs: Seq<FieldsModel>)
    ensures
        fields_size(batch_pairs(objs)) + objs.len() == batch_size(objs),
    decreases objs.len(),
{
    if objs.len() > 0 {
        lemma_batch_pairs_size(objs.drop_last());
        lemma_fields_size_concat(batch_pairs(objs.drop_last()), objs.last());
    }
}

/// A field's bucket weighs no more than the pair list it came from.
pub proof fn lemma_bucket_size(ps: FieldsModel, f: Seq<char>)
    ensures
        shape_list_size(bucket_of(ps, f)) <= fields_size(ps),
    decreases ps.len(),
{
    if ps.len() > 0 {
        lemma_bucket_size(ps.drop_last(), f);
        if ps.last().0 == f {
            lemma_shape_list_size_concat(bucket_of(ps.drop_last(), f), seq![ps.last().1]);
            lemma_sls_singleton(ps.last().1);
        } else {
            lemma_shape_list_size_concat(bucket_of(ps.drop_last(), f), Seq::empty());
            lemma_sls_empty();
        }
    }
}

/// The nested descriptors of a bucket weigh strictly less than the bucket
/// whenever there is at least one.
pub proof fn lemma_obj_descs_size(shapes: Seq<ShapeModel>)
    ensures
        batch_size(obj_descs(shapes)) + obj_descs(shapes).len() <= shape_list_size(shapes),
    decreases shapes.len(),
{
    if shapes.len() > 0 {
        lemma_obj_descs_size(shapes.drop_last());
        assert(shape_list_size(shapes) == shape_list_size(shapes.drop_last()) + shape_size(
            shapes.last(),
        ));
        if shapes.last() matches ShapeModel::Obj(_) {
            lemma_batch_size_concat(obj_descs(shapes.drop_last()), seq![shapes.last()->Obj_0]);
            lemma_batch_singleton(shapes.last()->Obj_0);
            assert(shape_size(shapes.last()) == 2 + fields_size(shapes.last()->Obj_0));
        } else {
            lemma_batch_size_concat(obj_descs(shapes.drop_last()), Seq::empty());
            lemma_batch_empty();
            assert(obj_descs(shapes) =~= obj_descs(shapes.drop_last()));
        }
    }
}

/// The array elements of a bucket weigh strictly less than the bucket
/// whenever an array shape occurs in it.
pub proof fn lemma_arr_elems_size(shapes: Seq<ShapeModel>)
    ensures
        shape_list_size(arr_elems(shapes)) <= shape_list_size(shapes),
        has_arr(shapes) ==> shape_list_size(arr_elems(shapes)) < shape_list_size(shapes),
    decreases shapes.len(),
{
    if shapes.len() > 0 {
        lemma_arr_elems_size(shapes.drop_last());
        assert(shape_list_size(shapes) == shape_list_size(shapes.drop_last()) + shape_size(
            shapes.last(),
        ));
        if shapes.last() matches ShapeModel::Arr(_) {
            lemma_shape_list_size_concat(arr_elems(shapes.drop_last()), shapes.last()->Arr_0);
            assert(shape_size(shapes.last()) == 1 + shape_list_size(shapes.last()->Arr_0));
        } else {
            lemma_shape_list_size_concat(arr_elems(shapes.drop_last()), Seq::empty());
            lemma_sls_empty();
            assert(arr_elems(shapes) =~= arr_elems(shapes.drop_last()));
        }
    }
}

/// Both key-set filters select sub-batches, and together they partition: a
/// matching pivot member makes the differing side strictly lighter.
pub proof fn lemma_filter_size(descs: Seq<FieldsModel>, pivot: FieldsModel)
    ensures
        filter_same_keys(descs, pivot).len() + filter_diff_keys(descs, pivot).len() == descs.len(),
        batch_size(filter_same_keys(descs, pivot)) + batch_size(filter_diff_keys(descs, pivot))
            == batch_size(descs),
    decreases descs.len(),
{
    if descs.len() > 0 {
        lemma_filter_size(descs.drop_last(), pivot);
        lemma_batch_singleton(descs.last());
        lemma_batch_empty();
        if same_key_set(descs.last(), pivot) {
            lemma_batch_size_concat(filter_same_keys(descs.drop_last(), pivot), seq![descs.last()]);
            lemma_batch_size_concat(filter_diff_keys(descs.drop_last(), pivot), Seq::empty());
        } else {
            lemma_batch_size_concat(filter_same_keys(descs.drop_last(), pivot), Seq::empty());
            lemma_batch_size_concat(filter_diff_keys(descs.drop_last(), pivot), seq![descs.last()]);
        }
    }
}

/// A batch member whose key set matches the pivot lands on the matching side,
/// so the differing side is strictly shorter.
pub proof fn lemma_filter_diff_drops(descs: Seq<FieldsModel>, pivot: FieldsModel, i: int)
    requires
        0 <= i < descs.len(),
        same_key_set(descs[i], pivot),
    ensures
        filter_diff_keys(descs, pivot).len() < descs.len(),
        batch_size(filter_diff_keys(descs, pivot)) < batch_size(descs),
    decreases descs.len(),
{
    lemma_filter_size(descs, pivot);
    assert(filter_same_keys(descs, pivot).len() > 0) by {
        lemma_filter_same_keeps(descs, pivot, i);
    }
    lemma_filter_same_batch_pos(descs, pivot);
}

/// A matching member is kept by the matching filter.
pub proof fn lemma_filter_same_keeps(descs: Seq<FieldsModel>, pivot: FieldsModel, i: int)
    requires
        0 <= i < descs.len(),
        same_key_set(descs[i], pivot),
    ensures
        filter_same_keys(descs, pivot).len() > 0,
    decreases descs.len(),
{
    if i == descs.len() - 1 {
    } else {
        lemma_filter_same_keeps(descs.drop_last(), pivot, i);
        assert(descs.drop_last()[i] == descs[i]);
    }
}

/// A non-empty batch weighs at least its length.
pub proof fn lemma_filter_same_batch_pos(descs: Seq<FieldsModel>, pivot: FieldsModel)
    ensures
        batch_size(filter_same_keys(descs, pivot)) >= filter_same_keys(descs, pivot).len(),
    decreases descs.len(),
{
    if descs.len() > 0 {
        lemma_filter_same_batch_pos(descs.drop_last(), pivot);
        if same_key_set(descs.last(), pivot) {
            lemma_batch_size_concat(filter_same_keys(descs.drop_last(), pivot), seq![descs.last()]);
            lemma_batch_singleton(descs.last());
        } else {
            lemma_batch_size_concat(filter_same_keys(descs.drop_last(), pivot), Seq::empty());
            lemma_batch_empty();
        }
    }
}

/// The fingerprint grouping of a batch of descriptors: clusters in order of
/// first occurrence, each holding every descriptor of one field-name set.
pub open spec fn spec_group(descs: Seq<FieldsModel>) -> Seq<Seq<FieldsModel>>
    decreases descs.len(),
    via spec_group_dec
{
    if descs.len() == 0 {
        Seq::empty()
    } else {
        seq![filter_same_keys(descs, descs[0])] + spec_group(filter_diff_keys(descs, descs[0]))
    }
}

#[via_fn]
proof fn spec_group_dec(descs: Seq<FieldsModel>) {
    if descs.len() > 0 {
        lemma_same_key_set_refl(descs[0]);
        lemma_filter_diff_drops(descs, descs[0], 0);
    }
}

/// The schema that aggregating a batch of sibling object descriptors yields:
/// for every field, in order of first occurrence, its distinct variants.
pub open spec fn spec_schema_of(name: Seq<char>, objs: Seq<FieldsModel>, merge: bool) -> SchemaModel
    decreases batch_size(objs), 1nat, 0nat,
    via spec_schema_of_dec
{
    SchemaModel {
        name: name,
        map: spec_entries(field_names(batch_pairs(objs)), batch_pairs(objs), merge),
    }
}

#[via_fn]
proof fn spec_schema_of_dec(name: Seq<char>, objs: Seq<FieldsModel>, merge: bool) {
    lemma_batch_pairs_size(objs);
}

/// One schema entry per field name, aggregating that field's bucket.
pub open spec fn spec_entries(ns: Seq<Seq<char>>, ps: FieldsModel, merge: bool) -> Seq<
    (Seq<char>, Seq<VariantModel>),
>
    decreases fields_size(ps), 0nat, ns.len(),
    via spec_entries_dec
{
    if ns.len() == 0 {
        Seq::empty()
    } else {
        spec_entries(ns.drop_last(), ps, merge).push(
            (ns.last(), spec_field_variants(ns.last(), bucket_of(ps, ns.last()), merge)),
        )
    }
}

#[via_fn]
proof fn spec_entries_dec(ns: Seq<Seq<char>>, ps: FieldsModel, merge: bool) {
    if ns.len() > 0 {
        lemma_bucket_size(ps, ns.last());
    }
}

/// The variant list of one field: deduplicated scalar primitives, then one
/// string range if any string occurred, then the object variant or variants,
/// then one array variant if any array occurred.
pub open spec fn spec_field_variants(f: Seq<char>, shapes: Seq<ShapeModel>, merge: bool) -> Seq<
    VariantModel,
>
    decreases shape_list_size(shapes), 0nat, 0nat,
    via spec_field_variants_dec
{
    dedup_list(scalar_prims(shapes)) + (if text_lens(shapes).len() > 0 {
        seq![
            VariantModel::StringRange(min_of(text_lens(shapes)), max_of(text_lens(shapes))),
        ]
    } else {
        Seq::empty()
    }) + (if obj_descs(shapes).len() > 0 {
        if merge {
            seq![VariantModel::Obj(spec_schema_of(f, obj_descs(shapes), true))]
        } else {
            spec_grouped_variants(obj_descs(shapes), f)
        }
    } else {
        Seq::empty()
    }) + (if has_arr(shapes) {
        seq![VariantModel::Arr(spec_array_inner(f, arr_elems(shapes), merge))]
    } else {
        Seq::empty()
    })
}

#[via_fn]
proof fn spec_field_variants_dec(f: Seq<char>, shapes: Seq<ShapeModel>, merge: bool) {
    lemma_obj_descs_size(shapes);
    lemma_arr_elems_size(shapes);
}

/// One object variant per fingerprint cluster, in order of first occurrence.
pub open spec fn spec_grouped_variants(descs: Seq<FieldsModel>, f: Seq<char>) -> Seq<VariantModel>
    decreases batch_size(descs), 2nat, 0nat,
    via spec_grouped_variants_dec
{
    if descs.len() == 0 {
        Seq::empty()
    } else {
        seq![
            VariantModel::Obj(spec_schema_of(f, filter_same_keys(descs, descs[0]), false)),
        ] + spec_grouped_variants(filter_diff_keys(descs, descs[0]), f)
    }
}

#[via_fn]
proof fn spec_grouped_variants_dec(descs: Seq<FieldsModel>, f: Seq<char>) {
    if descs.len() > 0 {
        lemma_filter_size(descs, descs[0]);
        lemma_same_key_set_refl(descs[0]);
        lemma_filter_diff_drops(descs, descs[0], 0);
    }
}

/// The inner variant list of a field's array variant: object variants first,
/// then the deduplicated converted scalar and nested-array elements, then one
/// string range if any string element occurred.
pub open spec fn spec_array_inner(f: Seq<char>, elems: Seq<ShapeModel>, merge: bool) -> Seq<
    VariantModel,
>
    decreases shape_list_size(elems), 1nat, 1nat,
    via spec_array_inner_dec
{
    (if obj_descs(elems).len() > 0 {
        if merge {
            seq![VariantModel::Obj(spec_schema_of(f, obj_descs(elems), true))]
        } else {
            spec_grouped_variants(obj_descs(elems), f)
        }
    } else {
        Seq::empty()
    }) + dedup_list(conv_elems(elems, merge)) + (if text_lens(elems).len() > 0 {
        seq![
            VariantModel::StringRange(min_of(text_lens(elems)), max_of(text_lens(elems))),
        ]
    } else {
        Seq::empty()
    })
}

#[via_fn]
proof fn spec_array_inner_dec(f: Seq<char>, elems: Seq<ShapeModel>, merge: bool) {
    lemma_obj_descs_size(elems);
}

/// The conversions of the scalar and nested-array elements of an array
/// bucket, in order, duplicates still present.
pub open spec fn conv_elems(es: Seq<ShapeModel>, merge: bool) -> Seq<VariantModel>
    decreases shape_list_size(es), 0nat, 1nat,
    via conv_elems_dec
{
    if es.len() == 0 {
        Seq::empty()
    } else {
        conv_elems(es.drop_last(), merge) + (if is_scalar(es.last()) || es.last()
            matches ShapeModel::Arr(_) {
            seq![spec_conv(es.last(), merge)]
        } else {
            Seq::empty()
        })
    }
}

/// The conversions of every element of one array instance, in order.
pub open spec fn conv_list(es: Seq<ShapeModel>, merge: bool) -> Seq<VariantModel>
    decreases shape_list_size(es), 0nat, 1nat,
    via conv_list_dec
{
    if es.len() == 0 {
        Seq::empty()
    } else {
        conv_list(es.drop_last(), merge).push(spec_conv(es.last(), merge))
    }
}

#[via_fn]
proof fn conv_elems_dec(es: Seq<ShapeModel>, merge: bool) {
    lemma_sls_last_pos(es);
}

#[via_fn]
proof fn conv_list_dec(es: Seq<ShapeModel>, merge: bool) {
    lemma_sls_last_pos(es);
}

/// Dropping the last shape strictly shrinks a non-empty list's size.
pub proof fn lemma_sls_last_pos(es: Seq<ShapeModel>)
    ensures
        es.len() > 0 ==> shape_list_size(es.drop_last()) < shape_list_size(es),
{
    if es.len() > 0 {
        assert(shape_size(es.last()) >= 1);
    }
}

/// The schema variant that one shape converts to: a scalar to its primitive,
/// a string to a degenerate range, an object to a single-instance schema, an
/// array to the deduplicated conversions of its elements.
pub open spec fn spec_conv(s: ShapeModel, merge: bool) -> VariantModel
    decreases shape_size(s), 0nat, 0nat,
    via spec_conv_dec
{
    match s {
        ShapeModel::Null => VariantModel::Primitive(PrimitiveKind::Null),
        ShapeModel::Bool => VariantModel::Primitive(PrimitiveKind::Bool),
        ShapeModel::Number => VariantModel::Primitive(PrimitiveKind::Number),
        ShapeModel::Text(n) => VariantModel::StringRange(n, n),
        ShapeModel::Obj(fs) => VariantModel::Obj(spec_schema_of("object"@, seq![fs], merge)),
        ShapeModel::Arr(es) => VariantModel::Arr(dedup_list(conv_list(es, merge))),
    }
}

#[via_fn]
proof fn spec_conv_dec(s: ShapeModel, merge: bool) {
    if s matches ShapeModel::Obj(_) {
        lemma_batch_singleton(s->Obj_0);
    }
}

/// One step of `batch_pairs` over a growing prefix.
pub proof fn lemma_batch_pairs_step(objs: Seq<FieldsModel>, i: int)
    requires
        0 <= i < objs.len(),
    ensures
        batch_pairs(objs.take(i + 1)) == batch_pairs(objs.take(i)) + objs[i],
{
    lemma_take_step(objs, i);
}

/// One step of `bucket_of` over a growing prefix.
pub proof fn lemma_bucket_step(ps: FieldsModel, f: Seq<char>, i: int)
    requires
        0 <= i < ps.len(),
    ensures
        bucket_of(ps.take(i + 1), f) == bucket_of(ps.take(i), f) + (if ps[i].0 == f {
            seq![ps[i].1]
        } else {
            Seq::empty()
        }),
{
    lemma_take_step(ps, i);
}

/// One step of `field_names` over a growing prefix.
pub proof fn lemma_field_names_step(ps: FieldsModel, i: int)
    requires
        0 <= i < ps.len(),
    ensures
        field_names(ps.take(i + 1)) == (if field_names(ps.take(i)).contains(ps[i].0) {
            field_names(ps.take(i))
        } else {
            field_names(ps.take(i)).push(ps[i].0)
        }),
{
    lemma_take_step(ps, i);
}

/// One step of `scalar_prims` over a growing prefix.
pub proof fn lemma_scalar_prims_step(shapes: Seq<ShapeModel>, i: int)
    requires
        0 <= i < shapes.len(),
    ensures
        scalar_prims(shapes.take(i + 1)) == scalar_prims(shapes.take(i)) + (if is_scalar(
            shapes[i],
        ) {
            seq![VariantModel::Primitive(prim_kind_of(shapes[i]))]
        } else {
            Seq::empty()
        }),
{
    lemma_take_step(shapes, i);
}

/// One step of `text_lens` over a growing prefix.
pub proof fn lemma_text_lens_step(shapes: Seq<ShapeModel>, i: int)
    requires
        0 <= i < shapes.len(),
    ensures
        text_lens(shapes.take(i + 1)) == text_lens(shapes.take(i)) + (if shapes[i]
            matches ShapeModel::Text(_) {
            seq![shapes[i]->Text_0]
        } else {
            Seq::empty()
        }),
{
    lemma_take_step(shapes, i);
}

/// One step of `obj_descs` over a growing prefix.
pub proof fn lemma_obj_descs_step(shapes: Seq<ShapeModel>, i: int)
    requires
        0 <= i < shapes.len(),
    ensures
        obj_descs(shapes.take(i + 1)) == obj_descs(shapes.take(i)) + (if shapes[i]
            matches ShapeModel::Obj(_) {
            seq![shapes[i]->Obj_0]
        } else {
            Seq::empty()
        }),
{
    lemma_take_step(shapes, i);
}

/// One step of `has_arr` over a growing prefix.
pub proof fn lemma_has_arr_step(shapes: Seq<ShapeModel>, i: int)
    requires
        0 <= i < shapes.len(),
    ensures
        has_arr(shapes.take(i + 1)) == (has_arr(shapes.take(i)) || shapes[i]
            matches ShapeModel::Arr(_)),
{
    lemma_take_step(shapes, i);
}

/// One step of `arr_elems` over a growing prefix.
pub proof fn lemma_arr_elems_step(shapes: Seq<ShapeModel>, i: int)
    requires
        0 <= i < shapes.len(),
    ensures
        arr_elems(shapes.take(i + 1)) == arr_elems(shapes.take(i)) + (if shapes[i]
            matches ShapeModel::Arr(_) {
            shapes[i]->Arr_0
        } else {
            Seq::empty()
        }),
{
    lemma_take_step(shapes, i);
}

/// Deduplicating a pushed list is one deduplicating push.
pub proof fn lemma_dedup_list_push(vs: Seq<VariantModel>, v: VariantModel)
    ensures
        dedup_list(vs.push(v)) == dedup_push(dedup_list(vs), v),
{
    lemma_push_step(vs, v);
}

/// The least element after one more count.
pub proof fn lemma_min_of_push(lens: Seq<nat>, v: nat)
    ensures
        min_of(lens.push(v)) == (if lens.len() == 0 {
            v
        } else if v < min_of(lens) {
            v
        } else {
            min_of(lens)
        }),
{
    lemma_push_step(lens, v);
}

/// The greatest element after one more count.
pub proof fn lemma_max_of_push(lens: Seq<nat>, v: nat)
    ensures
        max_of(lens.push(v)) == (if lens.len() == 0 {
            v
        } else if v > max_of(lens) {
            v
        } else {
            max_of(lens)
        }),
{
    lemma_push_step(lens, v);
}

/// One step of `conv_elems` over a growing prefix.
pub proof fn lemma_conv_elems_step(es: Seq<ShapeModel>, merge: bool, i: int)
    requires
        0 <= i < es.len(),
    ensures
        conv_elems(es.take(i + 1), merge) == conv_elems(es.take(i), merge) + (if is_scalar(es[i])
            || es[i] matches ShapeModel::Arr(_) {
            seq![spec_conv(es[i], merge)]
        } else {
            Seq::empty()
        }),
{
    lemma_take_step(es, i);
}

/// One step of `conv_list` over a growing prefix.
pub proof fn lemma_conv_list_step(es: Seq<ShapeModel>, merge: bool, i: int)
    requires
        0 <= i < es.len(),
    ensures
        conv_list(es.take(i + 1), merge) == conv_list(es.take(i), merge).push(
            spec_conv(es[i], merge),
        ),
{
    lemma_take_step(es, i);
}

/// One step of `spec_entries` over a growing name prefix.
pub proof fn lemma_spec_entries_step(ns: Seq<Seq<char>>, ps: FieldsModel, merge: bool, i: int)
    requires
        0 <= i < ns.len(),
    ensures
        spec_entries(ns.take(i + 1), ps, merge) == spec_entries(ns.take(i), ps, merge).push(
            (ns[i], spec_field_variants(ns[i], bucket_of(ps, ns[i]), merge)),
        ),
{
    lemma_take_step(ns, i);
}

/// One step of the key-set filters over a growing prefix.
pub proof fn lemma_filters_step(descs: Seq<FieldsModel>, pivot: FieldsModel, i: int)
    requires
        0 <= i < descs.len(),
    ensures
        filter_same_keys(descs.take(i + 1), pivot) == filter_same_keys(descs.take(i), pivot) + (
        if same_key_set(descs[i], pivot) {
            seq![descs[i]]
        } else {
            Seq::empty()
        }),
        filter_diff_keys(descs.take(i + 1), pivot) == filter_diff_keys(descs.take(i), pivot) + (
        if !same_key_set(descs[i], pivot) {
            seq![descs[i]]
        } else {
            Seq::empty()
        }),
{
    lemma_take_step(descs, i);
}

/// The views of a list of strings, in order.
pub open spec fn str_list_model(ss: Seq<String>) -> Seq<Seq<char>>
    decreases ss,
{
    if ss.len() == 0 {
        Seq::empty()
    } else {
        str_list_model(ss.drop_last()).push(ss.last()@)
    }
}

/// `str_list_model` maps the list elementwise.
pub proof fn lemma_str_list_model(ss: Seq<String>)
    ensures
        str_list_model(ss).len() == ss.len(),
        forall|i: int| 0 <= i < ss.len() ==> str_list_model(ss)[i] == ss[i]@,
    decreases ss.len(),
{
    if ss.len() > 0 {
        lemma_str_list_model(ss.drop_last());
        assert forall|i: int| 0 <= i < ss.len() implies str_list_model(ss)[i] == ss[i]@ by {
            if i < ss.len() - 1 {
                assert(ss.drop_last()[i] == ss[i]);
            }
        }
    }
}

/// The view of a pushed string list.
pub proof fn lemma_str_list_model_push(ss: Seq<String>, s: String)
    ensures
        str_list_model(ss.push(s)) == str_list_model(ss).push(s@),
{
    assert(ss.push(s).drop_last() =~= ss);
    assert(ss.push(s).last() == s);
}

/// Whether one of the collected names equals the given one.
#[verifier::loop_isolation(false)]
fn names_contain(names: &Vec<String>, s: &String) -> (r: bool)
    ensures
        r == str_list_model(names@).contains(s@),
{
    let ghost nm = str_list_model(names@);
    proof {
        lemma_str_list_model(names@);
    }
    let mut found = false;
    let mut j: usize = 0;
    while j < names.len()
        invariant
            j <= names@.len(),
            found == exists|k: int| 0 <= k < j && #[trigger] nm[k] == s@,
        decreases names@.len() - j,
    {
        if names[j] == *s {
            found = true;
            proof {
                assert(nm[j as int] == s@);
            }
        }
        j = j + 1;
    }
    proof {
        if found {
            let k = choose|k: int| 0 <= k < j && #[trigger] nm[k] == s@;
            assert(nm.contains(s@));
        }
        if nm.contains(s@) {
            let k = choose|k: int| 0 <= k < nm.len() && nm[k] == s@;
            assert(0 <= k < j && nm[k] == s@);
        }
    }
    found
}

/// Every (field, shape) pair of every descriptor of the batch, in order.
#[verifier::loop_isolation(false)]
fn collect_pairs(objects: &Vec<SchemaObject>) -> (pairs: Vec<SchemaObjectKey>)
    ensures
        shape_fields_model(pairs@) == batch_pairs(objects_model(objects@)),
{
    let ghost om = objects_model(objects@);
    proof {
        lemma_objects_model(objects@);
    }
    let mut pairs: Vec<SchemaObjectKey> = Vec::new();
    let mut i: usize = 0;
    while i < objects.len()
        invariant
            i <= objects@.len(),
            shape_fields_model(pairs@) == batch_pairs(om.take(i as int)),
        decreases objects@.len() - i,
    {
        let ghost base = batch_pairs(om.take(i as int));
        let ghost fm = om[i as int];
        proof {
            lemma_batch_pairs_step(om, i as int);
            lemma_shape_fields_model(objects@[i as int].keys@);
        }
        let obj = &objects[i];
        let mut j: usize = 0;
        while j < obj.keys.len()
            invariant
                j <= obj.keys@.len(),
                shape_fields_model(pairs@) == base + fm.take(j as int),
            decreases obj.keys@.len() - j,
        {
            let id = obj.keys[j].id.clone();
            let v_type = obj.keys[j].v_type.duplicate();
            proof {
                lemma_shape_fields_model_push(
                    pairs@,
                    SchemaObjectKey { id: id, v_type: v_type },
                );
                assert(fm.take(j + 1) =~= fm.take(j as int).push(fm[j as int]));
                assert((base + fm.take(j as int)).push(fm[j as int]) =~= base + fm.take(j + 1));
            }
            pairs.push(SchemaObjectKey { id, v_type });
            j = j + 1;
        }
        proof {
            assert(fm.take(fm.len() as int) =~= fm);
        }
        i = i + 1;
    }
    proof {
        assert(om.take(om.len() as int) =~= om);
    }
    pairs
}

/// The shapes observed for one field, in order of occurrence.
#[verifier::loop_isolation(false)]
fn bucket_for(pairs: &Vec<SchemaObjectKey>, f: &String) -> (shapes: Vec<ValueType>)
    ensures
        shape_list_model(shapes@) == bucket_of(shape_fields_model(pairs@), f@),
{
    let ghost pm = shape_fields_model(pairs@);
    proof {
        lemma_shape_fields_model(pairs@);
    }
    let mut shapes: Vec<ValueType> = Vec::new();
    let mut j: usize = 0;
    while j < pairs.len()
        invariant
            j <= pairs@.len(),
            shape_list_model(shapes@) == bucket_of(pm.take(j as int), f@),
        decreases pairs@.len() - j,
    {
        proof {
            lemma_bucket_step(pm, f@, j as int);
        }
        if pairs[j].id == *f {
            let v = pairs[j].v_type.duplicate();
            proof {
                lemma_shape_list_model_push(shapes@, v);
                assert(bucket_of(pm.take(j as int), f@) + seq![pm[j as int].1] =~= bucket_of(
                    pm.take(j as int),
                    f@,
                ).push(pm[j as int].1));
            }
            shapes.push(v);
        } else {
            proof {
                assert(bucket_of(pm.take(j as int), f@) + Seq::<ShapeModel>::empty() =~= bucket_of(
                    pm.take(j as int),
                    f@,
                ));
            }
        }
        j = j + 1;
    }
    proof {
        assert(pm.take(pm.len() as int) =~= pm);
    }
    shapes
}

/// The distinct field names of the batch, in order of first occurrence.
#[verifier::loop_isolation(false)]
fn names_of_pairs(pairs: &Vec<SchemaObjectKey>) -> (names: Vec<String>)
    ensures
        str_list_model(names@) == field_names(shape_fields_model(pairs@)),
{
    let ghost pm = shape_fields_model(pairs@);
    proof {
        lemma_shape_fields_model(pairs@);
    }
    let mut names: Vec<String> = Vec::new();
    let mut j: usize = 0;
    while j < pairs.len()
        invariant
            j <= pairs@.len(),
            str_list_model(names@) == field_names(pm.take(j as int)),
        decreases pairs@.len() - j,
    {
        proof {
            lemma_field_names_step(pm, j as int);
        }
        if !names_contain(&names, &pairs[j].id) {
            let id = pairs[j].id.clone();
            proof {
                lemma_str_list_model_push(names@, id);
            }
            names.push(id);
        }
        j = j + 1;
    }
    proof {
        assert(pm.take(pm.len() as int) =~= pm);
    }
    names
}

/// Whether some field of the descriptor bears the given name.
#[verifier::loop_isolation(false)]
fn has_key_exec(obj: &SchemaObject, name: &String) -> (r: bool)
    ensures
        r == has_key(obj@, name@),
{
    let ghost fm = obj@;
    proof {
        lemma_shape_fields_model(obj.keys@);
    }
    let mut found = false;
    let mut j: usize = 0;
    while j < obj.keys.len()
        invariant
            j <= obj.keys@.len(),
            found == exists|k: int| 0 <= k < j && (#[trigger] fm[k].0) == name@,
        decreases obj.keys@.len() - j,
    {
        if obj.keys[j].id == *name {
            found = true;
            proof {
                assert(fm[j as int].0 == name@);
            }
        }
        j = j + 1;
    }
    found
}

/// Whether two descriptors carry the same field-name set.
#[verifier::loop_isolation(false)]
fn same_key_set_exec(a: &SchemaObject, b: &SchemaObject) -> (r: bool)
    ensures
        r == same_key_set(a@, b@),
{
    let ghost am = a@;
    let ghost bm = b@;
    proof {
        lemma_shape_fields_model(a.keys@);
        lemma_shape_fields_model(b.keys@);
    }
    let mut fwd = true;
    let mut i: usize = 0;
    while i < a.keys.len()
        invariant
            i <= a.keys@.len(),
            fwd == forall|k: int| 0 <= k < i ==> has_key(bm, (#[trigger] am[k]).0),
        decreases a.keys@.len() - i,
    {
        if !has_key_exec(b, &a.keys[i].id) {
            fwd = false;
            proof {
                assert(am[i as int].0 == a.keys@[i as int].id@);
            }
        }
        i = i + 1;
    }
    let mut bwd = true;
    let mut j: usize = 0;
    while j < b.keys.len()
        invariant
            j <= b.keys@.len(),
            bwd == forall|k: int| 0 <= k < j ==> has_key(am, (#[trigger] bm[k]).0),
        decreases b.keys@.len() - j,
    {
        if !has_key_exec(a, &b.keys[j].id) {
            bwd = false;
            proof {
                assert(bm[j as int].0 == b.keys@[j as int].id@);
            }
        }
        j = j + 1;
    }
    fwd && bwd
}

/// The models of a list of clusters, in order.
pub open spec fn groups_model(gs: Seq<Vec<SchemaObject>>) -> Seq<Seq<FieldsModel>>
    decreases gs,
{
    if gs.len() == 0 {
        Seq::empty()
    } else {
        groups_model(gs.drop_last()).push(objects_model(gs.last()@))
    }
}

/// The model of a pushed cluster list.
pub proof fn lemma_groups_model_push(gs: Seq<Vec<SchemaObject>>, g: Vec<SchemaObject>)
    ensures
        groups_model(gs.push(g)) == groups_model(gs).push(objects_model(g@)),
{
    assert(gs.push(g).drop_last() =~= gs);
    assert(gs.push(g).last() == g);
}

impl Schema {
    /// Partition a batch of descriptors into clusters by field-name-set
    /// fingerprint, regardless of position in the batch, in order of each
    /// cluster's first occurrence.
    #[verifier::loop_isolation(false)]
    pub fn group_objects_by_keys_fingerprint(objects: Vec<SchemaObject>) -> (groups: Vec<
        Vec<SchemaObject>,
    >)
        ensures
            groups_model(groups@) == spec_group(objects_model(objects@)),
    {
        let mut groups: Vec<Vec<SchemaObject>> = Vec::new();
        let mut rest = objects;
        let ghost whole = objects_model(rest@);
        proof {
            assert(groups_model(groups@) + spec_group(whole) =~= spec_group(whole));
        }
        while rest.len() > 0
            invariant
                groups_model(groups@) + spec_group(objects_model(rest@)) == spec_group(whole),
            decreases objects_model(rest@).len(),
        {
            let ghost rm = objects_model(rest@);
            proof {
                lemma_objects_model(rest@);
            }
            let mut grp: Vec<SchemaObject> = Vec::new();
            let mut others: Vec<SchemaObject> = Vec::new();
            let mut j: usize = 0;
            while j < rest.len()
                invariant
                    j <= rest@.len(),
                    objects_model(grp@) == filter_same_keys(rm.take(j as int), rm[0]),
                    objects_model(others@) == filter_diff_keys(rm.take(j as int), rm[0]),
                    j > 0 ==> grp@.len() > 0,
                decreases rest@.len() - j,
            {
                proof {
                    lemma_filters_step(rm, rm[0], j as int);
                }
                let same = same_key_set_exec(&rest[j], &rest[0]);
                let copy = rest[j].duplicate();
                if same {
                    proof {
                        lemma_objects_model_push(grp@, copy);
                        assert(filter_same_keys(rm.take(j as int), rm[0]) + seq![rm[j as int]]
                            =~= filter_same_keys(rm.take(j as int), rm[0]).push(rm[j as int]));
                        assert(filter_diff_keys(rm.take(j as int), rm[0])
                            + Seq::<FieldsModel>::empty() =~= filter_diff_keys(
                            rm.take(j as int),
                            rm[0],
                        ));
                        if j == 0 {
                            lemma_same_key_set_refl(rm[0]);
                        }
                    }
                    grp.push(copy);
                } else {
                    proof {
                        lemma_objects_model_push(others@, copy);
                        assert(filter_diff_keys(rm.take(j as int), rm[0]) + seq![rm[j as int]]
                            =~= filter_diff_keys(rm.take(j as int), rm[0]).push(rm[j as int]));
                        assert(filter_same_keys(rm.take(j as int), rm[0])
                            + Seq::<FieldsModel>::empty() =~= filter_same_keys(
                            rm.take(j as int),
                            rm[0],
                        ));
                        if j == 0 {
                            lemma_same_key_set_refl(rm[0]);
                            assert(false);
                        }
                    }
                    others.push(copy);
                }
                j = j + 1;
            }
            proof {
                assert(rm.take(rm.len() as int) =~= rm);
                lemma_same_key_set_refl(rm[0]);
                lemma_filter_diff_drops(rm, rm[0], 0);
                lemma_groups_model_push(groups@, grp);
                assert(spec_group(rm) == seq![filter_same_keys(rm, rm[0])] + spec_group(
                    filter_diff_keys(rm, rm[0]),
                ));
                assert((groups_model(groups@).push(objects_model(grp@))) + spec_group(
                    filter_diff_keys(rm, rm[0]),
                ) =~= groups_model(groups@) + spec_group(rm));
                lemma_objects_model(others@);
            }
            groups.push(grp);
            rest = others;
        }
        proof {
            assert(objects_model(rest@).len() == 0) by {
                lemma_objects_model(rest@);
            }
            assert(spec_group(objects_model(rest@)) =~= Seq::<Seq<FieldsModel>>::empty());
            assert(groups_model(groups@) + Seq::<Seq<FieldsModel>>::empty() =~= groups_model(
                groups@,
            ));
        }
        groups
    }
}

/// Models of variant lists add over concatenation.
pub proof fn lemma_vlm_concat(a: Seq<SchemaValueType>, b: Seq<SchemaValueType>)
    ensures
        variant_list_model(a + b) == variant_list_model(a) + variant_list_model(b),
{
    lemma_variant_list_model(a);
    lemma_variant_list_model(b);
    lemma_variant_list_model(a + b);
    assert(variant_list_model(a + b) =~= variant_list_model(a) + variant_list_model(b));
}

/// Each fingerprint cluster weighs no more than the whole batch.
pub proof fn lemma_group_sizes(descs: Seq<FieldsModel>)
    ensures
        forall|i: int|
            0 <= i < spec_group(descs).len() ==> batch_size(#[trigger] spec_group(descs)[i])
                <= batch_size(descs),
    decreases descs.len(),
{
    if descs.len() > 0 {
        lemma_same_key_set_refl(descs[0]);
        lemma_filter_diff_drops(descs, descs[0], 0);
        lemma_filter_size(descs, descs[0]);
        lemma_group_sizes(filter_diff_keys(descs, descs[0]));
        let head = filter_same_keys(descs, descs[0]);
        let tail = spec_group(filter_diff_keys(descs, descs[0]));
        assert forall|i: int| 0 <= i < spec_group(descs).len() implies batch_size(
            #[trigger] spec_group(descs)[i],
        ) <= batch_size(descs) by {
            if i == 0 {
                assert(spec_group(descs)[0] == head);
            } else {
                assert(spec_group(descs)[i] == tail[i - 1]);
            }
        }
    }
}

/// The grouped object variants are one `Obj` variant per cluster, in order.
pub proof fn lemma_grouped_variants(descs: Seq<FieldsModel>, f: Seq<char>)
    ensures
        spec_grouped_variants(descs, f).len() == spec_group(descs).len(),
        forall|i: int|
            0 <= i < spec_group(descs).len() ==> spec_grouped_variants(descs, f)[i]
                == VariantModel::Obj(
                spec_schema_of(f, #[trigger] spec_group(descs)[i], false),
            ),
    decreases descs.len(),
{
    if descs.len() > 0 {
        lemma_same_key_set_refl(descs[0]);
        lemma_filter_diff_drops(descs, descs[0], 0);
        lemma_grouped_variants(filter_diff_keys(descs, descs[0]), f);
        let head = filter_same_keys(descs, descs[0]);
        let gtail = spec_group(filter_diff_keys(descs, descs[0]));
        let vtail = spec_grouped_variants(filter_diff_keys(descs, descs[0]), f);
        assert forall|i: int| 0 <= i < spec_group(descs).len() implies spec_grouped_variants(
            descs,
            f,
        )[i] == VariantModel::Obj(spec_schema_of(f, #[trigger] spec_group(descs)[i], false)) by {
            if i == 0 {
                assert(spec_group(descs)[0] == head);
                assert(spec_grouped_variants(descs, f)[0] == VariantModel::Obj(
                    spec_schema_of(f, head, false),
                ));
            } else {
                assert(spec_group(descs)[i] == gtail[i - 1]);
                assert(spec_grouped_variants(descs, f)[i] == vtail[i - 1]);
            }
        }
    }
}

impl ValueType {
    /// Convert one shape to its schema variant: a scalar to its primitive, a
    /// string to a degenerate range, an object to a single-instance schema,
    /// an array to the deduplicated conversions of its elements.
    #[verifier::loop_isolation(false)]
    pub fn to_schema_value_type(&self, merge_objects: bool) -> (r: SchemaValueType)
        ensures
            r@ == spec_conv(self@, merge_objects),
        decreases shape_size(self@), 0nat, 0nat,
    {
        match self {
            ValueType::Null => SchemaValueType::Primitive(PrimitiveKind::Null),
            ValueType::Bool => SchemaValueType::Primitive(PrimitiveKind::Bool),
            ValueType::Number => SchemaValueType::Primitive(PrimitiveKind::Number),
            ValueType::Text(n) => SchemaValueType::StringRange(*n, *n),
            ValueType::Object(obj) => {
                let ghost fm = obj@;
                let copy = obj.duplicate();
                let descs = vec![copy];
                proof {
                    lemma_objects_model(descs@);
                    assert(objects_model(descs@) =~= seq![fm]);
                    lemma_batch_singleton(fm);
                }
                SchemaValueType::Object(
                    Schema::from_objects(String::from_str("object"), descs, merge_objects),
                )
            },
            ValueType::Array(arr) => {
                let ghost am = shape_list_model(arr@);
                proof {
                    lemma_shape_list_model(arr@);
                }
                let mut list: Vec<SchemaValueType> = Vec::new();
                let mut j: usize = 0;
                while j < arr.len()
                    invariant
                        j <= arr@.len(),
                        variant_list_model(list@) == dedup_list(
                            conv_list(am.take(j as int), merge_objects),
                        ),
                    decreases arr@.len() - j,
                {
                    proof {
                        lemma_conv_list_step(am, merge_objects, j as int);
                        lemma_shape_list_size_elem(am, j as int);
                    }
                    let v = arr[j].to_schema_value_type(merge_objects);
                    proof {
                        lemma_dedup_list_push(
                            conv_list(am.take(j as int), merge_objects),
                            spec_conv(am[j as int], merge_objects),
                        );
                    }
                    if !crate::schema::list_contains_eq(&list, &v) {
                        proof {
                            lemma_variant_list_model_push(list@, v);
                        }
                        list.push(v);
                    }
                    j = j + 1;
                }
                proof {
                    assert(am.take(am.len() as int) =~= am);
                }
                SchemaValueType::Array(list)
            },
        }
    }
}

/// Build the deduplicated scalar-primitive variants of a bucket.
#[verifier::loop_isolation(false)]
fn scalar_part(shapes: &Vec<ValueType>) -> (r: Vec<SchemaValueType>)
    ensures
        variant_list_model(r@) == dedup_list(scalar_prims(shape_list_model(shapes@))),
{
    let ghost sm = shape_list_model(shapes@);
    proof {
        lemma_shape_list_model(shapes@);
    }
    let mut out: Vec<SchemaValueType> = Vec::new();
    let mut i: usize = 0;
    while i < shapes.len()
        invariant
            i <= shapes@.len(),
            variant_list_model(out@) == dedup_list(scalar_prims(sm.take(i as int))),
        decreases shapes@.len() - i,
    {
        proof {
            lemma_scalar_prims_step(sm, i as int);
        }
        let cand: Option<SchemaValueType> = match &shapes[i] {
            ValueType::Null => Some(SchemaValueType::Primitive(PrimitiveKind::Null)),
            ValueType::Bool => Some(SchemaValueType::Primitive(PrimitiveKind::Bool)),
            ValueType::Number => Some(SchemaValueType::Primitive(PrimitiveKind::Number)),
            _ => None,
        };
        match cand {
            Some(v) => {
                proof {
                    assert(scalar_prims(sm.take(i as int)) + seq![v@] =~= scalar_prims(
                        sm.take(i as int),
                    ).push(v@));
                    lemma_dedup_list_push(scalar_prims(sm.take(i as int)), v@);
                }
                if !crate::schema::list_contains_eq(&out, &v) {
                    proof {
                        lemma_variant_list_model_push(out@, v);
                    }
                    out.push(v);
                }
            },
            None => {
                proof {
                    assert(scalar_prims(sm.take(i as int)) + Seq::<VariantModel>::empty()
                        =~= scalar_prims(sm.take(i as int)));
                }
            },
        }
        i = i + 1;
    }
    proof {
        assert(sm.take(sm.len() as int) =~= sm);
    }
    out
}

/// The inclusive bounds of every string length of a bucket, if any string
/// occurred in it.
#[verifier::loop_isolation(false)]
fn string_bounds(shapes: &Vec<ValueType>) -> (r: Option<(usize, usize)>)
    ensures
        r matches Some(b) ==> text_lens(shape_list_model(shapes@)).len() > 0 && b.0 as nat
            == min_of(text_lens(shape_list_model(shapes@))) && b.1 as nat == max_of(
            text_lens(shape_list_model(shapes@)),
        ),
        r matches None ==> text_lens(shape_list_model(shapes@)).len() == 0,
{
    let ghost sm = shape_list_model(shapes@);
    proof {
        lemma_shape_list_model(shapes@);
    }
    let mut lo: usize = 0;
    let mut hi: usize = 0;
    let mut seen = false;
    let mut i: usize = 0;
    while i < shapes.len()
        invariant
            i <= shapes@.len(),
            seen == (text_lens(sm.take(i as int)).len() > 0),
            seen ==> lo as nat == min_of(text_lens(sm.take(i as int))) && hi as nat == max_of(
                text_lens(sm.take(i as int)),
            ),
        decreases shapes@.len() - i,
    {
        proof {
            lemma_text_lens_step(sm, i as int);
        }
        match &shapes[i] {
            ValueType::Text(n) => {
                proof {
                    assert(text_lens(sm.take(i as int)) + seq![sm[i as int]->Text_0] =~= text_lens(
                        sm.take(i as int),
                    ).push(sm[i as int]->Text_0));
                    lemma_min_of_push(text_lens(sm.take(i as int)), sm[i as int]->Text_0);
                    lemma_max_of_push(text_lens(sm.take(i as int)), sm[i as int]->Text_0);
                }
                if !seen {
                    lo = *n;
                    hi = *n;
                    seen = true;
                } else {
                    if *n < lo {
                        lo = *n;
                    }
                    if *n > hi {
                        hi = *n;
                    }
                }
            },
            _ => {
                proof {
                    assert(text_lens(sm.take(i as int)) + Seq::<nat>::empty() =~= text_lens(
                        sm.take(i as int),
                    ));
                }
            },
        }
        i = i + 1;
    }
    proof {
        assert(sm.take(sm.len() as int) =~= sm);
    }
    if seen {
        Some((lo, hi))
    } else {
        None
    }
}

/// Collect copies of the nested object descriptors of a bucket.
#[verifier::loop_isolation(false)]
fn object_descriptors(shapes: &Vec<ValueType>) -> (r: Vec<SchemaObject>)
    ensures
        objects_model(r@) == obj_descs(shape_list_model(shapes@)),
{
    let ghost sm = shape_list_model(shapes@);
    proof {
        lemma_shape_list_model(shapes@);
    }
    let mut descs: Vec<SchemaObject> = Vec::new();
    let mut i: usize = 0;
    while i < shapes.len()
        invariant
            i <= shapes@.len(),
            objects_model(descs@) == obj_descs(sm.take(i as int)),
        decreases shapes@.len() - i,
    {
        proof {
            lemma_obj_descs_step(sm, i as int);
        }
        match &shapes[i] {
            ValueType::Object(obj) => {
                let copy = obj.duplicate();
                proof {
                    lemma_objects_model_push(descs@, copy);
                    assert(obj_descs(sm.take(i as int)) + seq![sm[i as int]->Obj_0] =~= obj_descs(
                        sm.take(i as int),
                    ).push(sm[i as int]->Obj_0));
                }
                descs.push(copy);
            },
            _ => {
                proof {
                    assert(obj_descs(sm.take(i as int)) + Seq::<FieldsModel>::empty() =~= obj_descs(
                        sm.take(i as int),
                    ));
                }
            },
        }
        i = i + 1;
    }
    proof {
        assert(sm.take(sm.len() as int) =~= sm);
    }
    descs
}

/// Collect copies of every array element of a bucket, and whether an array
/// occurred at all.
#[verifier::loop_isolation(false)]
fn array_elements(shapes: &Vec<ValueType>) -> (r: (Vec<ValueType>, bool))
    ensures
        shape_list_model(r.0@) == arr_elems(shape_list_model(shapes@)),
        r.1 == has_arr(shape_list_model(shapes@)),
{
    let ghost sm = shape_list_model(shapes@);
    proof {
        lemma_shape_list_model(shapes@);
    }
    let mut elems: Vec<ValueType> = Vec::new();
    let mut saw = false;
    let mut i: usize = 0;
    while i < shapes.len()
        invariant
            i <= shapes@.len(),
            shape_list_model(elems@) == arr_elems(sm.take(i as int)),
            saw == has_arr(sm.take(i as int)),
        decreases shapes@.len() - i,
    {
        proof {
            lemma_arr_elems_step(sm, i as int);
            lemma_has_arr_step(sm, i as int);
        }
        match &shapes[i] {
            ValueType::Array(arr) => {
                let ghost base = arr_elems(sm.take(i as int));
                let ghost am = sm[i as int]->Arr_0;
                proof {
                    lemma_shape_list_model(arr@);
                    assert(am == shape_list_model(arr@));
                }
                let mut j: usize = 0;
                while j < arr.len()
                    invariant
                        j <= arr@.len(),
                        shape_list_model(elems@) == base + am.take(j as int),
                    decreases arr@.len() - j,
                {
                    let copy = arr[j].duplicate();
                    proof {
                        lemma_shape_list_model_push(elems@, copy);
                        assert(am.take(j + 1) =~= am.take(j as int).push(am[j as int]));
                        assert((base + am.take(j as int)).push(am[j as int]) =~= base + am.take(
                            j + 1,
                        ));
                    }
                    elems.push(copy);
                    j = j + 1;
                }
                proof {
                    assert(am.take(am.len() as int) =~= am);
                }
                saw = true;
            },
            _ => {
                proof {
                    assert(arr_elems(sm.take(i as int)) + Seq::<ShapeModel>::empty() =~= arr_elems(
                        sm.take(i as int),
                    ));
                }
            },
        }
        i = i + 1;
    }
    proof {
        assert(sm.take(sm.len() as int) =~= sm);
    }
    (elems, saw)
}

/// Build the object variant or variants of a field: one merged child schema,
/// or one child schema per fingerprint cluster.
#[verifier::loop_isolation(false)]
fn object_variants(f: &String, descs: Vec<SchemaObject>, merge_objects: bool) -> (r: Vec<
    SchemaValueType,
>)
    requires
        descs@.len() > 0,
    ensures
        variant_list_model(r@) == (if merge_objects {
            seq![
                VariantModel::Obj(spec_schema_of(f@, objects_model(descs@), true)),
            ]
        } else {
            spec_grouped_variants(objects_model(descs@), f@)
        }),
    decreases batch_size(objects_model(descs@)), 6nat, 0nat,
{
    let ghost dm = objects_model(descs@);
    let mut out: Vec<SchemaValueType> = Vec::new();
    if merge_objects {
        let name = f.clone();
        let child = Schema::from_objects(name, descs, true);
        proof {
            lemma_variant_list_model_push(out@, SchemaValueType::Object(child));
            assert(variant_list_model(out@) =~= Seq::<VariantModel>::empty());
        }
        out.push(SchemaValueType::Object(child));
        proof {
            assert(variant_list_model(out@) =~= seq![
                VariantModel::Obj(spec_schema_of(f@, dm, true)),
            ]);
        }
    } else {
        proof {
            lemma_group_sizes(dm);
            lemma_grouped_variants(dm, f@);
        }
        let mut groups = Schema::group_objects_by_keys_fingerprint(descs);
        let ghost gm = spec_group(dm);
        let ghost gv = spec_grouped_variants(dm, f@);
        let ghost mut c: int = 0;
        proof {
            assert(groups_model(groups@) == gm);
            lemma_groups_model_len(groups@);
        }
        let ghost total = groups@.len();
        while groups.len() > 0
            invariant
                0 <= c,
                c + groups@.len() == total,
                total == gm.len(),
                variant_list_model(out@) == gv.take(c),
                forall|k: int|
                    0 <= k < groups@.len() ==> objects_model(#[trigger] groups@[k]@) == gm[
                    c + k],
            decreases groups@.len(),
        {
            let g = groups.remove(0);
            proof {
                assert(objects_model(g@) == gm[c]);
                assert(batch_size(gm[c]) <= batch_size(dm));
            }
            let name = f.clone();
            let child = Schema::from_objects(name, g, false);
            proof {
                lemma_variant_list_model_push(out@, SchemaValueType::Object(child));
                assert(gv.take(c + 1) =~= gv.take(c).push(gv[c]));
            }
            out.push(SchemaValueType::Object(child));
            proof {
                c = c + 1;
            }
        }
        proof {
            assert(gv.take(gv.len() as int) =~= gv);
        }
    }
    out
}

/// The number of clusters equals the length of their model list.
pub proof fn lemma_groups_model_len(gs: Seq<Vec<SchemaObject>>)
    ensures
        groups_model(gs).len() == gs.len(),
        forall|i: int| 0 <= i < gs.len() ==> groups_model(gs)[i] == objects_model(gs[i]@),
    decreases gs.len(),
{
    if gs.len() > 0 {
        lemma_groups_model_len(gs.drop_last());
        assert forall|i: int| 0 <= i < gs.len() implies groups_model(gs)[i] == objects_model(
            gs[i]@,
        ) by {
            if i < gs.len() - 1 {
                assert(gs.drop_last()[i] == gs[i]);
            }
        }
    }
}

/// Build the deduplicated conversions of the scalar and nested-array
/// elements of an array bucket.
#[verifier::loop_isolation(false)]
fn converted_elements(elems: &Vec<ValueType>, merge_objects: bool) -> (r: Vec<SchemaValueType>)
    ensures
        variant_list_model(r@) == dedup_list(conv_elems(shape_list_model(elems@), merge_objects)),
    decreases shape_list_size(shape_list_model(elems@)), 1nat, 0nat,
{
    let ghost em = shape_list_model(elems@);
    proof {
        lemma_shape_list_model(elems@);
    }
    let mut out: Vec<SchemaValueType> = Vec::new();
    let mut i: usize = 0;
    while i < elems.len()
        invariant
            i <= elems@.len(),
            variant_list_model(out@) == dedup_list(conv_elems(em.take(i as int), merge_objects)),
        decreases elems@.len() - i,
    {
        proof {
            lemma_conv_elems_step(em, merge_objects, i as int);
        }
        let convertible = match &elems[i] {
            ValueType::Null => true,
            ValueType::Bool => true,
            ValueType::Number => true,
            ValueType::Array(_) => true,
            _ => false,
        };
        if convertible {
            proof {
                lemma_shape_list_size_elem(em, i as int);
            }
            let v = elems[i].to_schema_value_type(merge_objects);
            proof {
                assert(conv_elems(em.take(i as int), merge_objects) + seq![v@] =~= conv_elems(
                    em.take(i as int),
                    merge_objects,
                ).push(v@));
                lemma_dedup_list_push(conv_elems(em.take(i as int), merge_objects), v@);
            }
            if !crate::schema::list_contains_eq(&out, &v) {
                proof {
                    lemma_variant_list_model_push(out@, v);
                }
                out.push(v);
            }
        } else {
            proof {
                assert(conv_elems(em.take(i as int), merge_objects) + Seq::<VariantModel>::empty()
                    =~= conv_elems(em.take(i as int), merge_objects));
            }
        }
        i = i + 1;
    }
    proof {
        assert(em.take(em.len() as int) =~= em);
    }
    out
}

/// Build the inner variant list of a field's array variant.
#[verifier::loop_isolation(false)]
fn array_inner(f: &String, elems: &Vec<ValueType>, merge_objects: bool) -> (r: Vec<
    SchemaValueType,
>)
    ensures
        variant_list_model(r@) == spec_array_inner(f@, shape_list_model(elems@), merge_objects),
    decreases shape_list_size(shape_list_model(elems@)), 2nat, 0nat,
{
    let ghost em = shape_list_model(elems@);
    let descs = object_descriptors(elems);
    let mut out: Vec<SchemaValueType> = Vec::new();
    if descs.len() > 0 {
        proof {
            lemma_objects_model(descs@);
            lemma_obj_descs_size(em);
        }
        out = object_variants(f, descs, merge_objects);
    } else {
        proof {
            lemma_objects_model(descs@);
        }
    }
    let ghost part_obj = variant_list_model(out@);
    let mut prims = converted_elements(elems, merge_objects);
    let ghost pm = prims@;
    proof {
        lemma_vlm_concat(out@, prims@);
    }
    out.append(&mut prims);
    let ghost part_ab = variant_list_model(out@);
    let bounds = string_bounds(elems);
    match bounds {
        Some((lo, hi)) => {
            let v = SchemaValueType::StringRange(lo, hi);
            proof {
                lemma_variant_list_model_push(out@, v);
            }
            out.push(v);
        },
        None => {},
    }
    proof {
        let objpart: Seq<VariantModel> = if obj_descs(em).len() > 0 {
            if merge_objects {
                seq![VariantModel::Obj(spec_schema_of(f@, obj_descs(em), true))]
            } else {
                spec_grouped_variants(obj_descs(em), f@)
            }
        } else {
            Seq::empty()
        };
        let strpart: Seq<VariantModel> = if text_lens(em).len() > 0 {
            seq![
                VariantModel::StringRange(min_of(text_lens(em)), max_of(text_lens(em))),
            ]
        } else {
            Seq::empty()
        };
        assert(part_obj =~= objpart);
        assert(part_ab == objpart + dedup_list(conv_elems(em, merge_objects)));
        assert(variant_list_model(out@) =~= objpart + dedup_list(conv_elems(em, merge_objects))
            + strpart);
    }
    out
}

/// Build the full variant list of one field from its bucket of shapes.
#[verifier::loop_isolation(false)]
fn field_variants(f: &String, shapes: &Vec<ValueType>, merge_objects: bool) -> (r: Vec<
    SchemaValueType,
>)
    ensures
        variant_list_model(r@) == spec_field_variants(
            f@,
            shape_list_model(shapes@),
            merge_objects,
        ),
    decreases shape_list_size(shape_list_model(shapes@)), 3nat, 0nat,
{
    let ghost sm = shape_list_model(shapes@);
    let mut out = scalar_part(shapes);
    let ghost part_a = variant_list_model(out@);
    let bounds = string_bounds(shapes);
    match bounds {
        Some((lo, hi)) => {
            let v = SchemaValueType::StringRange(lo, hi);
            proof {
                lemma_variant_list_model_push(out@, v);
            }
            out.push(v);
        },
        None => {},
    }
    let ghost part_ab = variant_list_model(out@);
    let descs = object_descriptors(shapes);
    if descs.len() > 0 {
        proof {
            lemma_objects_model(descs@);
            lemma_obj_descs_size(sm);
        }
        let mut ovs = object_variants(f, descs, merge_objects);
        proof {
            lemma_vlm_concat(out@, ovs@);
        }
        out.append(&mut ovs);
    } else {
        proof {
            lemma_objects_model(descs@);
        }
    }
    let ghost part_abc = variant_list_model(out@);
    let (elems, saw) = array_elements(shapes);
    if saw {
        proof {
            lemma_arr_elems_size(sm);
        }
        let inner = array_inner(f, &elems, merge_objects);
        let v = SchemaValueType::Array(inner);
        proof {
            lemma_variant_list_model_push(out@, v);
        }
        out.push(v);
    }
    proof {
        let prims = dedup_list(scalar_prims(sm));
        let strpart: Seq<VariantModel> = if text_lens(sm).len() > 0 {
            seq![
                VariantModel::StringRange(min_of(text_lens(sm)), max_of(text_lens(sm))),
            ]
        } else {
            Seq::empty()
        };
        let objpart: Seq<VariantModel> = if obj_descs(sm).len() > 0 {
            if merge_objects {
                seq![VariantModel::Obj(spec_schema_of(f@, obj_descs(sm), true))]
            } else {
                spec_grouped_variants(obj_descs(sm), f@)
            }
        } else {
            Seq::empty()
        };
        let arrpart: Seq<VariantModel> = if has_arr(sm) {
            seq![
                VariantModel::Arr(spec_array_inner(f@, arr_elems(sm), merge_objects)),
            ]
        } else {
            Seq::empty()
        };
        assert(part_ab =~= prims + strpart);
        assert(part_abc =~= prims + strpart + objpart);
        assert(variant_list_model(out@) =~= prims + strpart + objpart + arrpart);
    }
    out
}

impl Schema {
    /// Aggregate a batch of object descriptors into the field map of a
    /// schema: one entry per field, in order of first occurrence.
    #[verifier::loop_isolation(false)]
    pub fn create_map(objects: Vec<SchemaObject>, merge_objects: bool) -> (r: Vec<
        (String, Vec<SchemaValueType>),
    >)
        ensures
            entries_model(r@) == spec_entries(
                field_names(batch_pairs(objects_model(objects@))),
                batch_pairs(objects_model(objects@)),
                merge_objects,
            ),
        decreases batch_size(objects_model(objects@)), 4nat, 0nat,
    {
        let ghost om = objects_model(objects@);
        let pairs = collect_pairs(&objects);
        let ghost ps = shape_fields_model(pairs@);
        let names = names_of_pairs(&pairs);
        let ghost nm = str_list_model(names@);
        proof {
            lemma_str_list_model(names@);
            lemma_batch_pairs_size(om);
            lemma_objects_model(objects@);
        }
        let mut out: Vec<(String, Vec<SchemaValueType>)> = Vec::new();
        let mut i: usize = 0;
        while i < names.len()
            invariant
                i <= names@.len(),
                entries_model(out@) == spec_entries(nm.take(i as int), ps, merge_objects),
            decreases names@.len() - i,
        {
            proof {
                lemma_spec_entries_step(nm, ps, merge_objects, i as int);
            }
            let bucket = bucket_for(&pairs, &names[i]);
            proof {
                lemma_bucket_size(ps, nm[i as int]);
                if om.len() == 0 {
                    assert(ps =~= Seq::<(Seq<char>, ShapeModel)>::empty());
                    assert(nm.len() == 0);
                }
            }
            let variants = field_variants(&names[i], &bucket, merge_objects);
            let name = names[i].clone();
            proof {
                lemma_entries_model_push(out@, (name, variants));
            }
            out.push((name, variants));
            i = i + 1;
        }
        proof {
            assert(nm.take(nm.len() as int) =~= nm);
        }
        out
    }

    /// Aggregate a batch of object descriptors into a schema with the given
    /// diagnostic name.
    pub fn from_objects(name: String, objects: Vec<SchemaObject>, merge_objects: bool) -> (r:
        Schema)
        ensures
            r@ == spec_schema_of(name@, objects_model(objects@), merge_objects),
        decreases batch_size(objects_model(objects@)), 5nat, 0nat,
    {
        let ghost nv = name@;
        let ghost om = objects_model(objects@);
        let map = Self::create_map(objects, merge_objects);
        Schema { name, map }
    }
}

/// The descriptors that a top-level JSON array contributes: one per object
/// element, in order; elements of any other kind are dropped.
pub open spec fn spec_root_descs(es: Seq<JsonModel>) -> Seq<FieldsModel>
    decreases es,
{
    if es.len() == 0 {
        Seq::empty()
    } else {
        spec_root_descs(es.drop_last()) + (if es.last() matches JsonModel::Obj(_) {
            seq![shapes_of_fields(es.last()->Obj_0)]
        } else {
            Seq::empty()
        })
    }
}

/// One step of `spec_root_descs` over a growing prefix.
pub proof fn lemma_root_descs_step(es: Seq<JsonModel>, i: int)
    requires
        0 <= i < es.len(),
    ensures
        spec_root_descs(es.take(i + 1)) == spec_root_descs(es.take(i)) + (if es[i]
            matches JsonModel::Obj(_) {
            seq![shapes_of_fields(es[i]->Obj_0)]
        } else {
            Seq::empty()
        }),
{
    lemma_take_step(es, i);
}

impl Schema {
    /// Infer a schema from a JSON document: one object is one instance; an
    /// array contributes its object elements as instances, other elements
    /// are dropped. Any other document is rejected.
    #[verifier::loop_isolation(false)]
    pub fn from_json(json: &JsonValue, merge_objects: bool) -> (r: Result<Schema, SchemaError>)
        ensures
            json@ matches JsonModel::Obj(fs) ==> (r matches Ok(s) && s@ == spec_schema_of(
                "root"@,
                seq![shapes_of_fields(fs)],
                merge_objects,
            )),
            json@ matches JsonModel::Arr(es) ==> (r matches Ok(s) && s@ == spec_schema_of(
                "root"@,
                spec_root_descs(es),
                merge_objects,
            )),
            !(json@ matches JsonModel::Obj(_)) && !(json@ matches JsonModel::Arr(_)) ==> (r
                matches Err(e) && e == SchemaError::InvalidInput),
    {
        match json {
            JsonValue::Obj(_) => {
                let desc = SchemaObject::from_json(json);
                let ghost dm = desc@;
                let descs = vec![desc];
                proof {
                    lemma_objects_model(descs@);
                    assert(objects_model(descs@) =~= seq![dm]);
                }
                Ok(Schema::from_objects(String::from_str("root"), descs, merge_objects))
            },
            JsonValue::Arr(vs) => {
                let ghost em = crate::json::json_list_model(vs@);
                proof {
                    crate::json::lemma_json_list_model(vs@);
                }
                let mut descs: Vec<SchemaObject> = Vec::new();
                let mut i: usize = 0;
                while i < vs.len()
                    invariant
                        i <= vs@.len(),
                        objects_model(descs@) == spec_root_descs(em.take(i as int)),
                    decreases vs@.len() - i,
                {
                    proof {
                        lemma_root_descs_step(em, i as int);
                    }
                    match &vs[i] {
                        JsonValue::Obj(_) => {
                            let desc = SchemaObject::from_json(&vs[i]);
                            proof {
                                lemma_objects_model_push(descs@, desc);
                                assert(spec_shape_of(em[i as int]) == ShapeModel::Obj(
                                    shapes_of_fields(em[i as int]->Obj_0),
                                ));
                                assert(spec_root_descs(em.take(i as int)) + seq![
                                    shapes_of_fields(em[i as int]->Obj_0),
                                ] =~= spec_root_descs(em.take(i as int)).push(
                                    shapes_of_fields(em[i as int]->Obj_0),
                                ));
                            }
                            descs.push(desc);
                        },
                        _ => {
                            proof {
                                assert(spec_root_descs(em.take(i as int))
                                    + Seq::<FieldsModel>::empty() =~= spec_root_descs(
                                    em.take(i as int),
                                ));
                            }
                        },
                    }
                    i = i + 1;
                }
                proof {
                    assert(em.take(em.len() as int) =~= em);
                }
                Ok(Schema::from_objects(String::from_str("root"), descs, merge_objects))
            },
            _ => Err(SchemaError::InvalidInput),
        }
    }
}

} // verus!
