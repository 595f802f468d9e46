//! Laws of the aggregator and serializer, stated and proved over the same
//! spec functions that the executable functions' contracts use.

use vstd::prelude::*;

use crate::agg::{
    arr_elems, batch_pairs, bucket_of, dedup_list, field_names, has_arr, is_scalar,
    lemma_grouped_variants, lemma_push_step, min_of, max_of, obj_descs, prim_kind_of,
    scalar_prims, spec_array_inner, spec_entries, spec_field_variants, spec_group,
    spec_grouped_variants, spec_schema_of, same_key_set, filter_diff_keys, filter_same_keys,
    text_lens,
};
use crate::json::JsonModel;
use crate::render::{spec_render_entries, spec_render_list, spec_render_schema, spec_render_variant};
use crate::schema::{
    variant_equiv, vlist_contains, PrimitiveKind, SchemaModel, VariantModel,
};
use crate::shape::{FieldsModel, ShapeModel};

verus! {

/// A variant is structurally equal to a primitive exactly when it is that
/// primitive.
pub proof fn lemma_prim_equiv_rigid(v: VariantModel, k: PrimitiveKind)
    ensures
        variant_equiv(VariantModel::Primitive(k), v) <==> v == VariantModel::Primitive(k),
        variant_equiv(v, VariantModel::Primitive(k)) <==> v == VariantModel::Primitive(k),
{
}

/// A primitive occurs in a list, up to structural equality, exactly when it
/// occurs in it as an element.
pub proof fn lemma_prim_contains(vs: Seq<VariantModel>, k: PrimitiveKind)
    ensures
        vlist_contains(vs, VariantModel::Primitive(k)) <==> exists|i: int|
            0 <= i < vs.len() && vs[i] == VariantModel::Primitive(k),
    decreases vs.len(),
{
    if vs.len() > 0 {
        lemma_prim_contains(vs.drop_last(), k);
        lemma_prim_equiv_rigid(vs.last(), k);
        if vlist_contains(vs, VariantModel::Primitive(k)) {
            if variant_equiv(VariantModel::Primitive(k), vs.last()) {
                assert(vs[vs.len() - 1] == VariantModel::Primitive(k));
            } else {
                let i = choose|i: int|
                    0 <= i < vs.drop_last().len() && vs.drop_last()[i] == VariantModel::Primitive(
                        k,
                    );
                assert(vs[i] == VariantModel::Primitive(k));
            }
        }
        if exists|i: int| 0 <= i < vs.len() && vs[i] == VariantModel::Primitive(k) {
            let i = choose|i: int| 0 <= i < vs.len() && vs[i] == VariantModel::Primitive(k);
            if i < vs.len() - 1 {
                assert(vs.drop_last()[i] == VariantModel::Primitive(k));
            }
        }
    }
}

/// Deduplication keeps a primitive exactly when the source held it.
pub proof fn lemma_dedup_prim_membership(vs: Seq<VariantModel>, k: PrimitiveKind)
    ensures
        (exists|i: int| 0 <= i < dedup_list(vs).len() && dedup_list(vs)[i]
            == VariantModel::Primitive(k)) <==> (exists|i: int|
            0 <= i < vs.len() && vs[i] == VariantModel::Primitive(k)),
    decreases vs.len(),
{
    if vs.len() > 0 {
        lemma_dedup_prim_membership(vs.drop_last(), k);
        lemma_prim_contains(dedup_list(vs.drop_last()), k);
        lemma_prim_equiv_rigid(vs.last(), k);
        let base = dedup_list(vs.drop_last());
        if vlist_contains(base, vs.last()) {
            assert(dedup_list(vs) == base);
            if vs.last() == VariantModel::Primitive(k) {
                assert(vlist_contains(base, VariantModel::Primitive(k)));
            }
            assert forall|i: int|
                0 <= i < vs.len() && vs[i] == VariantModel::Primitive(k) implies exists|j: int|
                0 <= j < dedup_list(vs).len() && dedup_list(vs)[j] == VariantModel::Primitive(
                    k,
                ) by {
                if i < vs.len() - 1 {
                    assert(vs.drop_last()[i] == VariantModel::Primitive(k));
                }
            }
        } else {
            assert(dedup_list(vs) == base.push(vs.last()));
            assert forall|i: int|
                0 <= i < vs.len() && vs[i] == VariantModel::Primitive(k) implies exists|j: int|
                0 <= j < dedup_list(vs).len() && dedup_list(vs)[j] == VariantModel::Primitive(
                    k,
                ) by {
                if i < vs.len() - 1 {
                    assert(vs.drop_last()[i] == VariantModel::Primitive(k));
                    let j = choose|j: int|
                        0 <= j < base.len() && base[j] == VariantModel::Primitive(k);
                    assert(dedup_list(vs)[j] == VariantModel::Primitive(k));
                } else {
                    assert(dedup_list(vs)[base.len() as int] == vs.last());
                }
            }
            assert forall|j: int|
                0 <= j < dedup_list(vs).len() && dedup_list(vs)[j] == VariantModel::Primitive(
                    k,
                ) implies exists|i: int| 0 <= i < vs.len() && vs[i] == VariantModel::Primitive(
                k,
            ) by {
                if j < base.len() {
                    assert(base[j] == VariantModel::Primitive(k));
                    let i = choose|i: int|
                        0 <= i < vs.drop_last().len() && vs.drop_last()[i]
                            == VariantModel::Primitive(k);
                    assert(vs[i] == VariantModel::Primitive(k));
                } else {
                    assert(vs[vs.len() - 1] == VariantModel::Primitive(k));
                }
            }
        }
    }
}

/// No two elements of a deduplicated list are structurally equal.
pub proof fn lemma_dedup_distinct(vs: Seq<VariantModel>)
    ensures
        forall|i: int, j: int|
            0 <= i < j < dedup_list(vs).len() ==> !variant_equiv(
                #[trigger] dedup_list(vs)[j],
                #[trigger] dedup_list(vs)[i],
            ),
    decreases vs.len(),
{
    if vs.len() > 0 {
        lemma_dedup_distinct(vs.drop_last());
        let base = dedup_list(vs.drop_last());
        if !vlist_contains(base, vs.last()) {
            crate::schema::lemma_vlist_contains_iff(base, vs.last());
            assert(dedup_list(vs) == base.push(vs.last()));
            assert forall|i: int, j: int|
                0 <= i < j < dedup_list(vs).len() implies !variant_equiv(
                #[trigger] dedup_list(vs)[j],
                #[trigger] dedup_list(vs)[i],
            ) by {
                if j < base.len() {
                    assert(dedup_list(vs)[j] == base[j] && dedup_list(vs)[i] == base[i]);
                } else {
                    assert(dedup_list(vs)[j] == vs.last());
                    assert(dedup_list(vs)[i] == base[i]);
                }
            }
        }
    }
}

/// The scalar-primitive projection holds a NULL primitive exactly when the
/// bucket holds a null shape.
pub proof fn lemma_scalar_prims_null(shapes: Seq<ShapeModel>)
    ensures
        (exists|i: int| 0 <= i < scalar_prims(shapes).len() && scalar_prims(shapes)[i]
            == VariantModel::Primitive(PrimitiveKind::Null)) <==> shapes.contains(
            ShapeModel::Null,
        ),
    decreases shapes.len(),
{
    if shapes.len() > 0 {
        lemma_scalar_prims_null(shapes.drop_last());
        let base = scalar_prims(shapes.drop_last());
        let whole = scalar_prims(shapes);
        assert forall|i: int| 0 <= i < base.len() implies whole[i] == base[i] by {}
        if shapes.contains(ShapeModel::Null) {
            let i = choose|i: int| 0 <= i < shapes.len() && shapes[i] == ShapeModel::Null;
            if i < shapes.len() - 1 {
                assert(shapes.drop_last()[i] == ShapeModel::Null);
                assert(shapes.drop_last().contains(ShapeModel::Null));
                let j = choose|j: int|
                    0 <= j < base.len() && base[j] == VariantModel::Primitive(PrimitiveKind::Null);
                assert(whole[j] == VariantModel::Primitive(PrimitiveKind::Null));
            } else {
                assert(whole[base.len() as int] == VariantModel::Primitive(PrimitiveKind::Null));
            }
        }
        if exists|i: int| 0 <= i < whole.len() && whole[i] == VariantModel::Primitive(
            PrimitiveKind::Null,
        ) {
            let i = choose|i: int|
                0 <= i < whole.len() && whole[i] == VariantModel::Primitive(PrimitiveKind::Null);
            if i < base.len() {
                assert(base[i] == VariantModel::Primitive(PrimitiveKind::Null));
                let j = choose|j: int|
                    0 <= j < shapes.drop_last().len() && shapes.drop_last()[j] == ShapeModel::Null;
                assert(shapes[j] == ShapeModel::Null);
            } else {
                assert(is_scalar(shapes.last()) && prim_kind_of(shapes.last())
                    == PrimitiveKind::Null);
                assert(shapes[shapes.len() - 1] == ShapeModel::Null);
            }
        }
    }
}

/// Law (null versus absent): a field that was observed as JSON `null` in at
/// least one instance carries exactly one `NULL` primitive variant, and a
/// field never observed as `null` carries none; instances from which the
/// field is absent contribute nothing either way.
pub proof fn lemma_null_vs_absent(f: Seq<char>, shapes: Seq<ShapeModel>, merge: bool)
    ensures
        shapes.contains(ShapeModel::Null) ==> (exists|i: int|
            0 <= i < spec_field_variants(f, shapes, merge).len() && #[trigger] spec_field_variants(
                f,
                shapes,
                merge,
            )[i] == VariantModel::Primitive(PrimitiveKind::Null) && (forall|j: int|
                0 <= j < spec_field_variants(f, shapes, merge).len() && j != i
                    ==> #[trigger] spec_field_variants(f, shapes, merge)[j]
                    != VariantModel::Primitive(PrimitiveKind::Null))),
        !shapes.contains(ShapeModel::Null) ==> (forall|j: int|
            0 <= j < spec_field_variants(f, shapes, merge).len() ==> #[trigger] spec_field_variants(
                f,
                shapes,
                merge,
            )[j] != VariantModel::Primitive(PrimitiveKind::Null)),
{
    let vs = spec_field_variants(f, shapes, merge);
    let prims = dedup_list(scalar_prims(shapes));
    lemma_scalar_prims_null(shapes);
    lemma_dedup_prim_membership(scalar_prims(shapes), PrimitiveKind::Null);
    lemma_dedup_distinct(scalar_prims(shapes));
    lemma_grouped_variants(obj_descs(shapes), f);
    assert forall|j: int| prims.len() <= j < vs.len() implies vs[j] != VariantModel::Primitive(
        PrimitiveKind::Null,
    ) by {
        let strpart: Seq<VariantModel> = if text_lens(shapes).len() > 0 {
            seq![
                VariantModel::StringRange(min_of(text_lens(shapes)), max_of(text_lens(shapes))),
            ]
        } else {
            Seq::empty()
        };
        let objpart: Seq<VariantModel> = if obj_descs(shapes).len() > 0 {
            if merge {
                seq![VariantModel::Obj(spec_schema_of(f, obj_descs(shapes), true))]
            } else {
                spec_grouped_variants(obj_descs(shapes), f)
            }
        } else {
            Seq::empty()
        };
        let arrpart: Seq<VariantModel> = if has_arr(shapes) {
            seq![VariantModel::Arr(spec_array_inner(f, arr_elems(shapes), merge))]
        } else {
            Seq::empty()
        };
        assert(vs == prims + strpart + objpart + arrpart);
        if j < prims.len() + strpart.len() {
            assert(vs[j] == strpart[j - prims.len()]);
        } else if j < prims.len() + strpart.len() + objpart.len() {
            assert(vs[j] == objpart[j - prims.len() - strpart.len()]);
            if !merge {
                let idx = j - prims.len() - strpart.len();
                assert(objpart[idx] == VariantModel::Obj(
                    spec_schema_of(f, spec_group(obj_descs(shapes))[idx], false),
                ));
            }
        } else {
            assert(vs[j] == arrpart[j - prims.len() - strpart.len() - objpart.len()]);
        }
    }
    assert forall|j: int| 0 <= j < prims.len() implies vs[j] == prims[j] by {}
    if shapes.contains(ShapeModel::Null) {
        let i = choose|i: int|
            0 <= i < prims.len() && prims[i] == VariantModel::Primitive(PrimitiveKind::Null);
        assert(vs[i] == VariantModel::Primitive(PrimitiveKind::Null));
        assert forall|j: int|
            0 <= j < vs.len() && j != i implies vs[j] != VariantModel::Primitive(
            PrimitiveKind::Null,
        ) by {
            if j < prims.len() {
                if vs[j] == VariantModel::Primitive(PrimitiveKind::Null) {
                    lemma_prim_equiv_rigid(prims[j], PrimitiveKind::Null);
                    if i < j {
                        assert(!variant_equiv(prims[j], prims[i]));
                    } else {
                        assert(!variant_equiv(prims[i], prims[j]));
                    }
                }
            }
        }
    }
}

/// Appending one descriptor appends its pairs.
pub proof fn lemma_batch_pairs_push(objs: Seq<FieldsModel>, d: FieldsModel)
    ensures
        batch_pairs(objs.push(d)) == batch_pairs(objs) + d,
{
    lemma_push_step(objs, d);
}

/// Buckets split over concatenated pair lists.
pub proof fn lemma_bucket_concat(a: FieldsModel, b: FieldsModel, f: Seq<char>)
    ensures
        bucket_of(a + b, f) == bucket_of(a, f) + bucket_of(b, f),
    decreases b.len(),
{
    if b.len() == 0 {
        assert(a + b =~= a);
        assert(bucket_of(a, f) + bucket_of(b, f) =~= bucket_of(a, f));
    } else {
        lemma_bucket_concat(a, b.drop_last(), f);
        assert((a + b).drop_last() =~= a + b.drop_last());
        assert((a + b).last() == b.last());
        if b.last().0 == f {
            assert((bucket_of(a, f) + bucket_of(b.drop_last(), f)) + seq![b.last().1]
                =~= bucket_of(a, f) + (bucket_of(b.drop_last(), f) + seq![b.last().1]));
        } else {
            assert((bucket_of(a, f) + bucket_of(b.drop_last(), f)) + Seq::<ShapeModel>::empty()
                =~= bucket_of(a, f) + (bucket_of(b.drop_last(), f)
                + Seq::<ShapeModel>::empty()));
        }
    }
}

/// Whether some pair of the list bears the given name.
pub open spec fn pair_name_present(ps: FieldsModel, n: Seq<char>) -> bool {
    exists|i: int| 0 <= i < ps.len() && (#[trigger] ps[i]).0 == n
}

/// A name stands among the field names exactly when some pair bears it.
pub proof fn lemma_field_names_members(ps: FieldsModel, n: Seq<char>)
    ensures
        field_names(ps).contains(n) <==> pair_name_present(ps, n),
    decreases ps.len(),
{
    if ps.len() > 0 {
        lemma_field_names_members(ps.drop_last(), n);
        if field_names(ps).contains(n) {
            if !field_names(ps.drop_last()).contains(n) {
                assert(ps[ps.len() - 1].0 == n);
            } else {
                let i = choose|i: int|
                    0 <= i < ps.drop_last().len() && (#[trigger] ps.drop_last()[i]).0 == n;
                assert(ps[i].0 == n);
            }
        }
        if pair_name_present(ps, n) {
            let i = choose|i: int| 0 <= i < ps.len() && (#[trigger] ps[i]).0 == n;
            if i < ps.len() - 1 {
                assert(ps.drop_last()[i].0 == n);
                assert(field_names(ps.drop_last()).contains(n));
                if !field_names(ps).contains(n) {
                    let rest = field_names(ps.drop_last());
                    let j = choose|j: int| 0 <= j < rest.len() && rest[j] == n;
                    if rest.contains(ps.last().0) {
                    } else {
                        assert(field_names(ps)[j] == n);
                    }
                }
            } else {
                if !field_names(ps.drop_last()).contains(n) {
                    assert(field_names(ps).last() == n);
                } else {
                    let rest = field_names(ps.drop_last());
                    let j = choose|j: int| 0 <= j < rest.len() && rest[j] == n;
                    if rest.contains(ps.last().0) {
                    } else {
                        assert(field_names(ps)[j] == n);
                    }
                }
            }
        }
    }
}

/// Pairs whose names are already present add no field name.
pub proof fn lemma_field_names_subsumed(ps: FieldsModel, qs: FieldsModel)
    requires
        forall|k: int| 0 <= k < qs.len() ==> pair_name_present(ps, (#[trigger] qs[k]).0),
    ensures
        field_names(ps + qs) == field_names(ps),
    decreases qs.len(),
{
    if qs.len() == 0 {
        assert(ps + qs =~= ps);
    } else {
        assert forall|k: int| 0 <= k < qs.drop_last().len() implies pair_name_present(
            ps,
            (#[trigger] qs.drop_last()[k]).0,
        ) by {
            assert(qs.drop_last()[k] == qs[k]);
        }
        lemma_field_names_subsumed(ps, qs.drop_last());
        assert((ps + qs).drop_last() =~= ps + qs.drop_last());
        assert((ps + qs).last() == qs.last());
        let n = qs.last().0;
        assert(pair_name_present(ps, n)) by {
            assert((qs[qs.len() - 1]).0 == n);
        }
        lemma_field_names_members(ps, n);
        assert(field_names(ps).contains(n));
    }
}

/// Every pair of a batch member stands among the batch's pairs.
pub proof fn lemma_batch_pairs_member(objs: Seq<FieldsModel>, j: int, k: int)
    requires
        0 <= j < objs.len(),
        0 <= k < objs[j].len(),
    ensures
        batch_pairs(objs).contains(objs[j][k]),
    decreases objs.len(),
{
    if j == objs.len() - 1 {
        let ps = batch_pairs(objs.drop_last());
        assert(batch_pairs(objs)[ps.len() + k] == objs[j][k]);
    } else {
        lemma_batch_pairs_member(objs.drop_last(), j, k);
        assert(objs.drop_last()[j] == objs[j]);
        let base = batch_pairs(objs.drop_last());
        let i = choose|i: int| 0 <= i < base.len() && base[i] == objs[j][k];
        assert(batch_pairs(objs)[i] == objs[j][k]);
    }
}

/// A bucket holds a shape exactly when the pair list holds that pair.
pub proof fn lemma_bucket_member(ps: FieldsModel, f: Seq<char>, s: ShapeModel)
    ensures
        bucket_of(ps, f).contains(s) <==> exists|i: int|
            0 <= i < ps.len() && #[trigger] ps[i] == (f, s),
    decreases ps.len(),
{
    if ps.len() > 0 {
        lemma_bucket_member(ps.drop_last(), f, s);
        let base = bucket_of(ps.drop_last(), f);
        if bucket_of(ps, f).contains(s) {
            let i = choose|i: int|
                0 <= i < bucket_of(ps, f).len() && bucket_of(ps, f)[i] == s;
            if i < base.len() {
                assert(base[i] == s);
                let j = choose|j: int|
                    0 <= j < ps.drop_last().len() && #[trigger] ps.drop_last()[j] == (f, s);
                assert(ps[j] == (f, s));
            } else {
                assert(ps.last().0 == f && ps.last().1 == s);
                assert(ps[ps.len() - 1] == (f, s));
            }
        }
        if exists|i: int| 0 <= i < ps.len() && #[trigger] ps[i] == (f, s) {
            let i = choose|i: int| 0 <= i < ps.len() && #[trigger] ps[i] == (f, s);
            if i < ps.len() - 1 {
                assert(ps.drop_last()[i] == (f, s));
                let j = choose|j: int| 0 <= j < base.len() && base[j] == s;
                assert(bucket_of(ps, f)[j] == s);
            } else {
                assert(bucket_of(ps, f)[base.len() as int] == s);
            }
        }
    }
}

/// The bucket projections split over concatenated buckets.
pub proof fn lemma_projections_concat(a: Seq<ShapeModel>, b: Seq<ShapeModel>)
    ensures
        scalar_prims(a + b) == scalar_prims(a) + scalar_prims(b),
        text_lens(a + b) == text_lens(a) + text_lens(b),
        obj_descs(a + b) == obj_descs(a) + obj_descs(b),
        arr_elems(a + b) == arr_elems(a) + arr_elems(b),
        has_arr(a + b) == (has_arr(a) || has_arr(b)),
    decreases b.len(),
{
    if b.len() == 0 {
        assert(a + b =~= a);
        assert(scalar_prims(a) + scalar_prims(b) =~= scalar_prims(a));
        assert(text_lens(a) + text_lens(b) =~= text_lens(a));
        assert(obj_descs(a) + obj_descs(b) =~= obj_descs(a));
        assert(arr_elems(a) + arr_elems(b) =~= arr_elems(a));
    } else {
        lemma_projections_concat(a, b.drop_last());
        assert((a + b).drop_last() =~= a + b.drop_last());
        assert((a + b).last() == b.last());
        assert(scalar_prims(a + b) =~= scalar_prims(a) + scalar_prims(b));
        assert(text_lens(a + b) =~= text_lens(a) + text_lens(b));
        assert(obj_descs(a + b) =~= obj_descs(a) + obj_descs(b));
        assert(arr_elems(a + b) =~= arr_elems(a) + arr_elems(b));
    }
}

/// Every scalar primitive of a bucket comes from a scalar shape of it, and
/// every scalar shape contributes its primitive.
pub proof fn lemma_scalar_prims_members(shapes: Seq<ShapeModel>)
    ensures
        forall|j: int|
            0 <= j < scalar_prims(shapes).len() ==> exists|i: int|
                0 <= i < shapes.len() && is_scalar(#[trigger] shapes[i]) && #[trigger] scalar_prims(
                    shapes,
                )[j] == VariantModel::Primitive(prim_kind_of(shapes[i])),
        forall|i: int|
            0 <= i < shapes.len() && is_scalar(#[trigger] shapes[i]) ==> scalar_prims(
                shapes,
            ).contains(VariantModel::Primitive(prim_kind_of(shapes[i]))),
    decreases shapes.len(),
{
    if shapes.len() > 0 {
        lemma_scalar_prims_members(shapes.drop_last());
        let base = scalar_prims(shapes.drop_last());
        let whole = scalar_prims(shapes);
        assert forall|j: int| 0 <= j < whole.len() implies exists|i: int|
            0 <= i < shapes.len() && is_scalar(#[trigger] shapes[i]) && #[trigger] scalar_prims(
                shapes,
            )[j] == VariantModel::Primitive(prim_kind_of(shapes[i])) by {
            if j < base.len() {
                assert(whole[j] == base[j]);
                let i = choose|i: int|
                    0 <= i < shapes.drop_last().len() && is_scalar(
                        #[trigger] shapes.drop_last()[i],
                    ) && base[j] == VariantModel::Primitive(prim_kind_of(shapes.drop_last()[i]));
                assert(shapes[i] == shapes.drop_last()[i]);
            } else {
                assert(is_scalar(shapes[shapes.len() - 1]));
                assert(whole[j] == VariantModel::Primitive(
                    prim_kind_of(shapes[shapes.len() - 1]),
                ));
            }
        }
        assert forall|i: int|
            0 <= i < shapes.len() && is_scalar(#[trigger] shapes[i]) implies scalar_prims(
            shapes,
        ).contains(VariantModel::Primitive(prim_kind_of(shapes[i]))) by {
            if i < shapes.len() - 1 {
                assert(shapes.drop_last()[i] == shapes[i]);
                let j = choose|j: int|
                    0 <= j < base.len() && base[j] == VariantModel::Primitive(
                        prim_kind_of(shapes.drop_last()[i]),
                    );
                assert(whole[j] == VariantModel::Primitive(prim_kind_of(shapes[i])));
            } else {
                assert(whole[base.len() as int] == VariantModel::Primitive(
                    prim_kind_of(shapes[i]),
                ));
            }
        }
    }
}

/// Deduplicating after appending already-present primitives changes nothing.
pub proof fn lemma_dedup_append_prims(xs: Seq<VariantModel>, ys: Seq<VariantModel>)
    requires
        forall|k: int|
            0 <= k < ys.len() ==> ((#[trigger] ys[k]) matches VariantModel::Primitive(_)
                && xs.contains(ys[k])),
    ensures
        dedup_list(xs + ys) == dedup_list(xs),
    decreases ys.len(),
{
    if ys.len() == 0 {
        assert(xs + ys =~= xs);
    } else {
        assert forall|k: int|
            0 <= k < ys.drop_last().len() implies ((#[trigger] ys.drop_last()[k])
            matches VariantModel::Primitive(_) && xs.contains(ys.drop_last()[k])) by {
            assert(ys.drop_last()[k] == ys[k]);
        }
        lemma_dedup_append_prims(xs, ys.drop_last());
        assert((xs + ys).drop_last() =~= xs + ys.drop_last());
        assert((xs + ys).last() == ys.last());
        let v = ys.last();
        assert(v == ys[ys.len() - 1]);
        let k = v->Primitive_0;
        lemma_dedup_prim_membership(xs, k);
        lemma_prim_contains(dedup_list(xs), k);
        assert(vlist_contains(dedup_list(xs), v));
    }
}

/// An already-present descriptor lands in the matching filter side, so both
/// filters keep their members.
pub proof fn lemma_filter_concat(a: Seq<FieldsModel>, b: Seq<FieldsModel>, p: FieldsModel)
    ensures
        filter_same_keys(a + b, p) == filter_same_keys(a, p) + filter_same_keys(b, p),
        filter_diff_keys(a + b, p) == filter_diff_keys(a, p) + filter_diff_keys(b, p),
    decreases b.len(),
{
    if b.len() == 0 {
        assert(a + b =~= a);
        assert(filter_same_keys(a, p) + filter_same_keys(b, p) =~= filter_same_keys(a, p));
        assert(filter_diff_keys(a, p) + filter_diff_keys(b, p) =~= filter_diff_keys(a, p));
    } else {
        lemma_filter_concat(a, b.drop_last(), p);
        assert((a + b).drop_last() =~= a + b.drop_last());
        assert((a + b).last() == b.last());
        assert(filter_same_keys(a + b, p) =~= filter_same_keys(a, p) + filter_same_keys(b, p));
        assert(filter_diff_keys(a + b, p) =~= filter_diff_keys(a, p) + filter_diff_keys(b, p));
    }
}

/// A member of the batch that differs from the pivot is kept by the
/// differing filter.
pub proof fn lemma_filter_diff_member(descs: Seq<FieldsModel>, p: FieldsModel, i: int)
    requires
        0 <= i < descs.len(),
        !same_key_set(descs[i], p),
    ensures
        filter_diff_keys(descs, p).contains(descs[i]),
    decreases descs.len(),
{
    let base = filter_diff_keys(descs.drop_last(), p);
    if i == descs.len() - 1 {
        assert(filter_diff_keys(descs, p)[base.len() as int] == descs[i]);
    } else {
        lemma_filter_diff_member(descs.drop_last(), p, i);
        assert(descs.drop_last()[i] == descs[i]);
        let j = choose|j: int| 0 <= j < base.len() && base[j] == descs[i];
        assert(filter_diff_keys(descs, p)[j] == descs[i]);
    }
}

/// Every kept descriptor of the differing filter is a member of the batch
/// whose key set differs from the pivot's.
pub proof fn lemma_filter_diff_src(descs: Seq<FieldsModel>, p: FieldsModel)
    ensures
        forall|j: int|
            0 <= j < filter_diff_keys(descs, p).len() ==> (!same_key_set(
                #[trigger] filter_diff_keys(descs, p)[j],
                p,
            ) && descs.contains(filter_diff_keys(descs, p)[j])),
    decreases descs.len(),
{
    if descs.len() > 0 {
        lemma_filter_diff_src(descs.drop_last(), p);
        let base = filter_diff_keys(descs.drop_last(), p);
        assert forall|j: int| 0 <= j < filter_diff_keys(descs, p).len() implies (!same_key_set(
            #[trigger] filter_diff_keys(descs, p)[j],
            p,
        ) && descs.contains(filter_diff_keys(descs, p)[j])) by {
            if j < base.len() {
                assert(filter_diff_keys(descs, p)[j] == base[j]);
                let i = choose|i: int|
                    0 <= i < descs.drop_last().len() && descs.drop_last()[i] == base[j];
                assert(descs[i] == base[j]);
            } else {
                assert(filter_diff_keys(descs, p)[j] == descs.last());
                assert(descs[descs.len() - 1] == descs.last());
            }
        }
    }
}

/// Appending descriptors whose key sets already occur in the batch adds no
/// fingerprint cluster.
pub proof fn lemma_group_len_dups(descs: Seq<FieldsModel>, dups: Seq<FieldsModel>)
    requires
        forall|k: int| 0 <= k < dups.len() ==> descs.contains(#[trigger] dups[k]),
    ensures
        spec_group(descs + dups).len() == spec_group(descs).len(),
    decreases descs.len() + dups.len(),
{
    if dups.len() == 0 {
        assert(descs + dups =~= descs);
    } else if descs.len() == 0 {
        assert(descs.contains(dups[0]));
        assert(false);
    } else {
        let p = descs[0];
        assert((descs + dups)[0] == p);
        lemma_filter_concat(descs, dups, p);
        crate::agg::lemma_same_key_set_refl(p);
        crate::agg::lemma_filter_diff_drops(descs, p, 0);
        let d2 = filter_diff_keys(descs, p);
        let u2 = filter_diff_keys(dups, p);
        assert forall|k: int| 0 <= k < u2.len() implies d2.contains(#[trigger] u2[k]) by {
            lemma_filter_diff_src(dups, p);
            let x = u2[k];
            let i = choose|i: int| 0 <= i < descs.len() && descs[i] == x;
            lemma_filter_diff_member(descs, p, i);
        }
        assert(u2.len() <= dups.len()) by {
            crate::agg::lemma_filter_size(dups, p);
        }
        assert(d2.len() < descs.len());
        lemma_group_len_dups(d2, u2);
        assert(spec_group(descs + dups).len() == 1 + spec_group(d2 + u2).len());
        assert(spec_group(descs).len() == 1 + spec_group(d2).len());
    }
}

/// Appending, to one field's bucket, only shapes the bucket already holds
/// leaves that field's variant count unchanged.
pub proof fn lemma_field_count_dups(
    f: Seq<char>,
    b: Seq<ShapeModel>,
    e: Seq<ShapeModel>,
    merge: bool,
)
    requires
        forall|k: int| 0 <= k < e.len() ==> b.contains(#[trigger] e[k]),
    ensures
        spec_field_variants(f, b + e, merge).len() == spec_field_variants(f, b, merge).len(),
{
    lemma_projections_concat(b, e);
    lemma_scalar_prims_members(b);
    lemma_scalar_prims_members(e);
    // scalar part: the appended primitives are already present
    assert forall|k: int|
        0 <= k < scalar_prims(e).len() implies ((#[trigger] scalar_prims(e)[k])
        matches VariantModel::Primitive(_) && scalar_prims(b).contains(scalar_prims(e)[k])) by {
        let i = choose|i: int|
            0 <= i < e.len() && is_scalar(#[trigger] e[i]) && scalar_prims(e)[k]
                == VariantModel::Primitive(prim_kind_of(e[i]));
        let j = choose|j: int| 0 <= j < b.len() && b[j] == e[i];
        assert(scalar_prims(b).contains(VariantModel::Primitive(prim_kind_of(b[j]))));
    }
    lemma_dedup_append_prims(scalar_prims(b), scalar_prims(e));
    // string part: a string length in the extension implies one in the base
    if text_lens(e).len() > 0 {
        lemma_text_lens_members(e);
        lemma_text_lens_members(b);
        let i = choose|i: int|
            0 <= i < e.len() && (#[trigger] e[i]) matches ShapeModel::Text(_);
        let j = choose|j: int| 0 <= j < b.len() && b[j] == e[i];
        assert(text_lens(b).len() > 0);
    }
    // object part: nested descriptors of the extension already occur
    assert forall|k: int|
        0 <= k < obj_descs(e).len() implies obj_descs(b).contains(
        #[trigger] obj_descs(e)[k],
    ) by {
        lemma_obj_desc_src_at(e, k);
        let i = choose|i: int|
            0 <= i < e.len() && ((#[trigger] e[i]) matches ShapeModel::Obj(_)) && obj_descs(
                e,
            )[k] == e[i]->Obj_0;
        let j = choose|j: int| 0 <= j < b.len() && b[j] == e[i];
        lemma_obj_desc_present(b, j);
    }
    if obj_descs(e).len() > 0 {
        assert(obj_descs(b).contains(obj_descs(e)[0]));
        assert(obj_descs(b).len() > 0);
    }
    if !merge && obj_descs(b).len() > 0 {
        lemma_group_len_dups(obj_descs(b), obj_descs(e));
        lemma_grouped_variants(obj_descs(b) + obj_descs(e), f);
        lemma_grouped_variants(obj_descs(b), f);
    }
    // array part: an array shape in the extension implies one in the base
    if has_arr(e) {
        lemma_has_arr_members(e);
        let i = choose|i: int|
            0 <= i < e.len() && (#[trigger] e[i]) matches ShapeModel::Arr(_);
        let j = choose|j: int| 0 <= j < b.len() && b[j] == e[i];
        lemma_has_arr_witness(b, j);
    }
}

/// A bucket holds a string length exactly when it holds a string shape.
pub proof fn lemma_text_lens_members(shapes: Seq<ShapeModel>)
    ensures
        text_lens(shapes).len() > 0 <==> exists|i: int|
            0 <= i < shapes.len() && (#[trigger] shapes[i]) matches ShapeModel::Text(_),
    decreases shapes.len(),
{
    if shapes.len() > 0 {
        lemma_text_lens_members(shapes.drop_last());
        if text_lens(shapes).len() > 0 && !(shapes.last() matches ShapeModel::Text(_)) {
            let i = choose|i: int|
                0 <= i < shapes.drop_last().len() && (#[trigger] shapes.drop_last()[i])
                    matches ShapeModel::Text(_);
            assert(shapes[i] matches ShapeModel::Text(_));
        }
        if exists|i: int|
            0 <= i < shapes.len() && (#[trigger] shapes[i]) matches ShapeModel::Text(_) {
            let i = choose|i: int|
                0 <= i < shapes.len() && (#[trigger] shapes[i]) matches ShapeModel::Text(_);
            if i < shapes.len() - 1 {
                assert(shapes.drop_last()[i] matches ShapeModel::Text(_));
            }
        }
    }
}

/// Each nested descriptor of a bucket comes from an object shape of it.
pub proof fn lemma_obj_desc_src_at(shapes: Seq<ShapeModel>, k: int)
    requires
        0 <= k < obj_descs(shapes).len(),
    ensures
        exists|i: int|
            0 <= i < shapes.len() && ((#[trigger] shapes[i]) matches ShapeModel::Obj(_))
                && obj_descs(shapes)[k] == shapes[i]->Obj_0,
    decreases shapes.len(),
{
    let base = obj_descs(shapes.drop_last());
    let whole = obj_descs(shapes);
    if k < base.len() {
        lemma_obj_desc_src_at(shapes.drop_last(), k);
        assert(whole[k] == base[k]);
        let i = choose|i: int|
            0 <= i < shapes.drop_last().len() && ((#[trigger] shapes.drop_last()[i])
                matches ShapeModel::Obj(_)) && base[k] == shapes.drop_last()[i]->Obj_0;
        assert(shapes[i] == shapes.drop_last()[i]);
    } else {
        if shapes.last() matches ShapeModel::Obj(_) {
            assert(whole[k] == shapes[shapes.len() - 1]->Obj_0);
        } else {
            assert(whole =~= base);
        }
    }
}

/// Each object shape of a bucket contributes its descriptor.
pub proof fn lemma_obj_desc_present(shapes: Seq<ShapeModel>, i: int)
    requires
        0 <= i < shapes.len(),
        shapes[i] matches ShapeModel::Obj(_),
    ensures
        obj_descs(shapes).contains(shapes[i]->Obj_0),
    decreases shapes.len(),
{
    let base = obj_descs(shapes.drop_last());
    let whole = obj_descs(shapes);
    if i < shapes.len() - 1 {
        lemma_obj_desc_present(shapes.drop_last(), i);
        assert(shapes.drop_last()[i] == shapes[i]);
        let k = choose|k: int| 0 <= k < base.len() && base[k] == shapes.drop_last()[i]->Obj_0;
        assert(whole[k] == shapes[i]->Obj_0);
    } else {
        assert(whole[base.len() as int] == shapes[i]->Obj_0);
    }
}

/// A bucket with any array shape reports one.
pub proof fn lemma_has_arr_members(shapes: Seq<ShapeModel>)
    ensures
        has_arr(shapes) <==> exists|i: int|
            0 <= i < shapes.len() && (#[trigger] shapes[i]) matches ShapeModel::Arr(_),
    decreases shapes.len(),
{
    if shapes.len() > 0 {
        lemma_has_arr_members(shapes.drop_last());
        if has_arr(shapes) && !(shapes.last() matches ShapeModel::Arr(_)) {
            let i = choose|i: int|
                0 <= i < shapes.drop_last().len() && (#[trigger] shapes.drop_last()[i])
                    matches ShapeModel::Arr(_);
            assert(shapes[i] matches ShapeModel::Arr(_));
        }
        if exists|i: int|
            0 <= i < shapes.len() && (#[trigger] shapes[i]) matches ShapeModel::Arr(_) {
            let i = choose|i: int|
                0 <= i < shapes.len() && (#[trigger] shapes[i]) matches ShapeModel::Arr(_);
            if i < shapes.len() - 1 {
                assert(shapes.drop_last()[i] matches ShapeModel::Arr(_));
            }
        }
    }
}

/// One witnessing array shape suffices.
pub proof fn lemma_has_arr_witness(shapes: Seq<ShapeModel>, i: int)
    requires
        0 <= i < shapes.len(),
        shapes[i] matches ShapeModel::Arr(_),
    ensures
        has_arr(shapes),
{
    lemma_has_arr_members(shapes);
}

/// A schema has exactly one entry per field name.
pub proof fn lemma_spec_entries_len(ns: Seq<Seq<char>>, ps: FieldsModel, merge: bool)
    ensures
        spec_entries(ns, ps, merge).len() == ns.len(),
    decreases ns.len(),
{
    if ns.len() > 0 {
        lemma_spec_entries_len(ns.drop_last(), ps, merge);
    }
}

/// Entry names and variant counts agree between a pair list and its
/// extension by already-observed pairs, field by field.
pub proof fn lemma_entries_counts(
    ns: Seq<Seq<char>>,
    ps: FieldsModel,
    e: FieldsModel,
    merge: bool,
)
    requires
        forall|k: int| 0 <= k < e.len() ==> ps.contains(#[trigger] e[k]),
    ensures
        spec_entries(ns, ps + e, merge).len() == spec_entries(ns, ps, merge).len(),
        forall|i: int|
            0 <= i < ns.len() ==> (#[trigger] spec_entries(ns, ps + e, merge)[i]).0
                == spec_entries(ns, ps, merge)[i].0 && spec_entries(ns, ps + e, merge)[i].1.len()
                == spec_entries(ns, ps, merge)[i].1.len(),
    decreases ns.len(),
{
    if ns.len() > 0 {
        lemma_entries_counts(ns.drop_last(), ps, e, merge);
        let f = ns.last();
        lemma_bucket_concat(ps, e, f);
        assert forall|k: int|
            0 <= k < bucket_of(e, f).len() implies bucket_of(ps, f).contains(
            #[trigger] bucket_of(e, f)[k],
        ) by {
            lemma_bucket_member(e, f, bucket_of(e, f)[k]);
            let i = choose|i: int| 0 <= i < e.len() && #[trigger] e[i] == (f, bucket_of(e, f)[k]);
            let j = choose|j: int| 0 <= j < ps.len() && ps[j] == e[i];
            lemma_bucket_member(ps, f, bucket_of(e, f)[k]);
            assert(ps[j] == (f, bucket_of(e, f)[k]));
        }
        lemma_field_count_dups(f, bucket_of(ps, f), bucket_of(e, f), merge);
        let w1 = spec_entries(ns, ps, merge);
        let w2 = spec_entries(ns, ps + e, merge);
        let b1 = spec_entries(ns.drop_last(), ps, merge);
        let b2 = spec_entries(ns.drop_last(), ps + e, merge);
        lemma_spec_entries_len(ns, ps, merge);
        lemma_spec_entries_len(ns, ps + e, merge);
        lemma_spec_entries_len(ns.drop_last(), ps, merge);
        lemma_spec_entries_len(ns.drop_last(), ps + e, merge);
        assert(w1 == b1.push((f, spec_field_variants(f, bucket_of(ps, f), merge))));
        assert(w2 == b2.push((f, spec_field_variants(f, bucket_of(ps + e, f), merge))));
        assert forall|i: int| 0 <= i < ns.len() implies (#[trigger] w2[i]).0 == w1[i].0 && w2[
        i].1.len() == w1[i].1.len() by {
            if i < ns.len() - 1 {
                assert(w1[i] == b1[i] && w2[i] == b2[i]);
            } else {
                assert(w1[i] == (f, spec_field_variants(f, bucket_of(ps, f), merge)));
                assert(w2[i] == (f, spec_field_variants(f, bucket_of(ps + e, f), merge)));
            }
        }
    }
}

/// Law (deduplication idempotence): appending to the batch an exact repeat
/// of an instance already in it leaves the schema's field set unchanged and
/// changes no field's variant count.
pub proof fn lemma_repeat_instance(
    name: Seq<char>,
    objs: Seq<FieldsModel>,
    d: FieldsModel,
    merge: bool,
)
    requires
        objs.contains(d),
    ensures
        spec_schema_of(name, objs.push(d), merge).map.len() == spec_schema_of(
            name,
            objs,
            merge,
        ).map.len(),
        forall|i: int|
            0 <= i < spec_schema_of(name, objs, merge).map.len()
                ==> (#[trigger] spec_schema_of(name, objs.push(d), merge).map[i]).0
                == spec_schema_of(name, objs, merge).map[i].0 && spec_schema_of(
                name,
                objs.push(d),
                merge,
            ).map[i].1.len() == spec_schema_of(name, objs, merge).map[i].1.len(),
{
    let ps = batch_pairs(objs);
    lemma_batch_pairs_push(objs, d);
    let j = choose|j: int| 0 <= j < objs.len() && objs[j] == d;
    assert forall|k: int| 0 <= k < d.len() implies ps.contains(#[trigger] d[k]) by {
        lemma_batch_pairs_member(objs, j, k);
    }
    assert forall|k: int| 0 <= k < d.len() implies pair_name_present(ps, (#[trigger] d[k]).0) by {
        let i = choose|i: int| 0 <= i < ps.len() && ps[i] == d[k];
        assert((ps[i]).0 == d[k].0);
    }
    lemma_field_names_subsumed(ps, d);
    lemma_entries_counts(field_names(ps), ps, d, merge);
    let ns = field_names(ps);
    let m1 = spec_schema_of(name, objs, merge).map;
    let m2 = spec_schema_of(name, objs.push(d), merge).map;
    assert(m1 == spec_entries(ns, ps, merge));
    assert(m2 == spec_entries(ns, ps + d, merge));
    lemma_spec_entries_len(ns, ps, merge);
    assert forall|i: int| 0 <= i < m1.len() implies (#[trigger] m2[i]).0 == m1[i].0 && m2[
    i].1.len() == m1[i].1.len() by {
        assert((spec_entries(ns, ps + d, merge)[i]).0 == spec_entries(ns, ps, merge)[i].0
            && spec_entries(ns, ps + d, merge)[i].1.len() == spec_entries(
            ns,
            ps,
            merge,
        )[i].1.len());
    }
}

/// `spec_render_entries` maps the entry list elementwise.
pub proof fn lemma_render_entries_elems(m: Seq<(Seq<char>, Seq<VariantModel>)>)
    ensures
        spec_render_entries(m).len() == m.len(),
        forall|i: int|
            0 <= i < m.len() ==> #[trigger] spec_render_entries(m)[i] == (
                m[i].0,
                JsonModel::Obj(seq![("types"@, JsonModel::Arr(spec_render_list(m[i].1)))]),
            ),
    decreases m.len(),
{
    if m.len() > 0 {
        lemma_render_entries_elems(m.drop_last());
        assert forall|i: int| 0 <= i < m.len() implies #[trigger] spec_render_entries(m)[i] == (
        m[i].0,
        JsonModel::Obj(seq![("types"@, JsonModel::Arr(spec_render_list(m[i].1)))]),
        ) by {
            if i < m.len() - 1 {
                assert(m.drop_last()[i] == m[i]);
            }
        }
    }
}

/// `spec_render_list` maps a variant list elementwise.
pub proof fn lemma_render_list_elems(vs: Seq<VariantModel>)
    ensures
        spec_render_list(vs).len() == vs.len(),
        forall|i: int|
            0 <= i < vs.len() ==> #[trigger] spec_render_list(vs)[i] == spec_render_variant(
                vs[i],
            ),
    decreases vs.len(),
{
    if vs.len() > 0 {
        lemma_render_list_elems(vs.drop_last());
        assert forall|i: int| 0 <= i < vs.len() implies #[trigger] spec_render_list(vs)[i]
            == spec_render_variant(vs[i]) by {
            if i < vs.len() - 1 {
                assert(vs.drop_last()[i] == vs[i]);
            }
        }
    }
}

/// Law (round trip): the serialized document of a schema is an object that
/// reproduces the schema's field set exactly, field by field and in order,
/// and under each field a `types` list with exactly one rendering per
/// variant. Reading the document back therefore recovers the same field set
/// and the same type tags as inspecting the schema itself.
pub proof fn lemma_round_trip(s: SchemaModel)
    ensures
        spec_render_schema(s) matches JsonModel::Obj(entries) && entries.len() == s.map.len()
            && (forall|i: int|
            0 <= i < s.map.len() ==> (#[trigger] entries[i]).0 == s.map[i].0) && (forall|i: int|
            0 <= i < s.map.len() ==> (#[trigger] entries[i]).1 == JsonModel::Obj(
                seq![("types"@, JsonModel::Arr(spec_render_list(s.map[i].1)))],
            )) && (forall|i: int|
            0 <= i < s.map.len() ==> spec_render_list(#[trigger] s.map[i].1).len()
                == s.map[i].1.len()),
{
    lemma_render_entries_elems(s.map);
    assert forall|i: int| 0 <= i < s.map.len() implies spec_render_list(
        #[trigger] s.map[i].1,
    ).len() == s.map[i].1.len() by {
        lemma_render_list_elems(s.map[i].1);
    }
}

} // verus!
