//! Removing image metadata and renaming `imageScaleMode` to `scaleMode`.

use vstd::prelude::*;
use crate::error::FigError;
use crate::json::{
    Json, JsonView, EntryView, field, get_field, key_position, set_field, entries_view, find_field,
    lemma_field_push, lemma_field_set_field, lemma_key_position, lemma_set_field_entries,
    lemma_set_field_sorted, well_formed, keys_sorted, key_before,
    find_key, set_entry, lemma_object_entries_view, lemma_array_view, lemma_view_array_index,
};
use super::prune::key_is;

verus! {

/// Image metadata fields, removed everywhere.
pub open spec fn is_image_metadata_key(k: Seq<char>) -> bool {
    ||| k == "thumbHash"@
    ||| k == "animationFrame"@
    ||| k == "imageShouldColorManage"@
    ||| k == "originalImageWidth"@
    ||| k == "originalImageHeight"@
    ||| k == "altText"@
    ||| k == "imageThumbnail"@
}

/// An image paint: its `type` is an object whose `value` is `"IMAGE"`.
pub open spec fn is_image_paint(node: JsonView) -> bool {
    match get_field(node, "type"@) {
        Some(JsonView::Object(t)) => match field(t, "value"@) {
            Some(JsonView::Str(v)) => v == "IMAGE"@,
            _ => false,
        },
        _ => false,
    }
}

/// Whether the pass drops the key `k` from an object (`image_paint` tells
/// whether the object is an image paint). `imageScaleMode` leaves its place
/// and comes back as `scaleMode`.
pub open spec fn image_pass_drops(k: Seq<char>, image_paint: bool) -> bool {
    ||| is_image_metadata_key(k)
    ||| k == "imageScaleMode"@
    ||| image_paint && (k == "rotation"@ || k == "scale"@)
}

/// The document after `remove_image_metadata_fields`.
pub open spec fn strip_image_metadata(j: JsonView) -> JsonView
    decreases j,
{
    match j {
        JsonView::Array(items) => JsonView::Array(
            Seq::new(
                items.len(),
                |i: int|
                    if 0 <= i < items.len() {
                        strip_image_metadata(items[i])
                    } else {
                        JsonView::Null
                    },
            ),
        ),
        JsonView::Object(es) => {
            let kept = image_kept_entries(is_image_paint(j), es);
            let p = key_position(es, "imageScaleMode"@);
            JsonView::Object(
                if 0 <= p < es.len() {
                    set_field(kept, "scaleMode"@, strip_image_metadata(es[p].1))
                } else {
                    kept
                },
            )
        },
        _ => j,
    }
}

/// The entries of `es` that stay in place, with their values cleaned.
pub open spec fn image_kept_entries(image_paint: bool, es: Seq<EntryView>) -> Seq<EntryView>
    decreases es,
{
    if es.len() == 0 {
        Seq::empty()
    } else {
        let kept = image_kept_entries(image_paint, es.drop_last());
        let e = es.last();
        if image_pass_drops(e.0, image_paint) {
            kept
        } else {
            kept.push((e.0, strip_image_metadata(e.1)))
        }
    }
}

fn is_image_paint_exec(node: &Json) -> (r: bool)
    ensures
        r == is_image_paint(node@),
{
    match node.get("type") {
        Some(Json::Object(t)) => {
            proof { lemma_object_entries_view(*t); }
            match find_field(t, "value") {
                Some(Json::Str(v)) => crate::text::str_eq(v.as_str(), "IMAGE"),
                _ => false,
            }
        },
        _ => false,
    }
}

fn image_pass_drops_exec(k: &String, image_paint: bool) -> (r: bool)
    ensures
        r == image_pass_drops(k@, image_paint),
{
    key_is(k, "thumbHash") || key_is(k, "animationFrame") || key_is(k, "imageShouldColorManage")
        || key_is(k, "originalImageWidth") || key_is(k, "originalImageHeight") || key_is(
        k,
        "altText",
    ) || key_is(k, "imageThumbnail") || key_is(k, "imageScaleMode") || (image_paint && (key_is(
        k,
        "rotation",
    ) || key_is(k, "scale")))
}

/// Builds the cleaned copy of `v`.
#[verifier::loop_isolation(false)]
fn strip_image_metadata_json(v: &Json) -> (r: Json)
    ensures
        r@ == strip_image_metadata(v@),
    decreases v,
{
    broadcast use vstd::std_specs::vec::axiom_vec_index_decreases;

    match v {
        Json::Array(items) => {
            let ghost iv = Json::Array(*items)@->Array_0;
            let mut out: Vec<Json> = Vec::new();
            let mut i: usize = 0;
            while i < items.len()
                invariant
                    i <= items@.len(),
                    iv == Json::Array(*items)@->Array_0,
                    iv.len() == items@.len(),
                    out@.len() == i,
                    forall|k: int| 0 <= k < i ==> #[trigger] out@[k]@ == strip_image_metadata(iv[k]),
                decreases items@.len() - i,
            {
                proof { lemma_view_array_index(*items, i as int); }
                let c = strip_image_metadata_json(&items[i]);
                out.push(c);
                i += 1;
            }
            proof { lemma_array_view(out, strip_image_metadata(v@)->Array_0); }
            Json::Array(out)
        },
        Json::Object(entries) => {
            proof { lemma_object_entries_view(*entries); }
            let ghost ev = entries_view(entries@);
            let image_paint = is_image_paint_exec(v);
            let mut out: Vec<(String, Json)> = Vec::new();
            let mut i: usize = 0;
            while i < entries.len()
                invariant
                    i <= entries@.len(),
                    ev == entries_view(entries@),
                    image_paint == is_image_paint(v@),
                    entries_view(out@) == image_kept_entries(image_paint, ev.take(i as int)),
                decreases entries@.len() - i,
            {
                assert(ev.take(i + 1).drop_last() =~= ev.take(i as int));
                assert(ev.take(i + 1).last() == ev[i as int]);
                if !image_pass_drops_exec(&entries[i].0, image_paint) {
                    let c = strip_image_metadata_json(&entries[i].1);
                    let ghost before = entries_view(out@);
                    out.push((entries[i].0.clone(), c));
                    assert(entries_view(out@) =~= before.push((ev[i as int].0, strip_image_metadata(ev[i as int].1))));
                }
                i += 1;
            }
            assert(ev.take(entries@.len() as int) =~= ev);
            proof { crate::json::lemma_key_position(ev, "imageScaleMode"@); }
            match find_key(entries, "imageScaleMode") {
                Some(p) => {
                    let mode = strip_image_metadata_json(&entries[p].1);
                    set_entry(&mut out, "scaleMode".to_owned(), mode);
                },
                None => {},
            }
            proof { lemma_object_entries_view(out); }
            Json::Object(out)
        },
        Json::Null => Json::Null,
        Json::Bool(b) => Json::Bool(*b),
        Json::Number(n) => Json::Number(*n),
        Json::Str(s) => Json::Str(s.clone()),
    }
}

/// Removes image metadata (`thumbHash`, `animationFrame`,
/// `imageShouldColorManage`, `originalImageWidth`, `originalImageHeight`,
/// `altText`, `imageThumbnail`) from every object, renames
/// `imageScaleMode` to `scaleMode` (the name Figma's REST API uses, which
/// renderers need to choose between fill, fit, crop and stretch), and
/// removes `rotation` and `scale` from image paints.
pub fn remove_image_metadata_fields(tree: &mut Json) -> (r: Result<(), FigError>)
    ensures
        r is Ok,
        final(tree)@ == strip_image_metadata(old(tree)@),
{
    let cleaned = strip_image_metadata_json(tree);
    *tree = cleaned;
    Ok(())
}

/// A key that the pass keeps in place keeps its field, cleaned.
proof fn lemma_image_field_kept(image_paint: bool, es: Seq<EntryView>, k: Seq<char>)
    requires
        !image_pass_drops(k, image_paint),
    ensures
        field(image_kept_entries(image_paint, es), k) == match field(es, k) {
            Some(v) => Some(strip_image_metadata(v)),
            None => None,
        },
    decreases es.len(),
{
    if es.len() > 0 {
        let d = es.drop_last();
        let e = es.last();
        lemma_image_field_kept(image_paint, d, k);
        assert(es =~= d.push(e));
        lemma_field_push(d, e, k);
        if !image_pass_drops(e.0, image_paint) {
            lemma_field_push(image_kept_entries(image_paint, d), (e.0, strip_image_metadata(e.1)), k);
        }
    }
}

/// Each entry kept in place comes from an entry of `es` that the pass
/// keeps, with its value cleaned.
proof fn lemma_image_kept_origin(image_paint: bool, es: Seq<EntryView>)
    ensures
        forall|k: int|
            0 <= k < image_kept_entries(image_paint, es).len() ==> exists|i: int|
                0 <= i < es.len() && !image_pass_drops(es[i].0, image_paint)
                    && #[trigger] image_kept_entries(image_paint, es)[k] == (
                    es[i].0,
                    strip_image_metadata(es[i].1),
                ),
    decreases es.len(),
{
    if es.len() > 0 {
        let d = es.drop_last();
        lemma_image_kept_origin(image_paint, d);
        let kept = image_kept_entries(image_paint, d);
        let r = image_kept_entries(image_paint, es);
        assert forall|k: int| 0 <= k < r.len() implies exists|i: int|
            0 <= i < es.len() && !image_pass_drops(es[i].0, image_paint) && #[trigger] r[k] == (
                es[i].0,
                strip_image_metadata(es[i].1),
            ) by {
            if k < kept.len() {
                assert(r[k] == kept[k]);
                let i = choose|i: int|
                    0 <= i < d.len() && !image_pass_drops(d[i].0, image_paint) && #[trigger] kept[k] == (
                        d[i].0,
                        strip_image_metadata(d[i].1),
                    );
                assert(d[i] == es[i]);
            } else {
                assert(r[k] == (es[es.len() - 1].0, strip_image_metadata(es[es.len() - 1].1)));
            }
        }
    }
}

/// The pass keeps nothing of `es` in place that it would drop, when every
/// value is already clean.
proof fn lemma_image_entries_fixed(image_paint: bool, es: Seq<EntryView>)
    requires
        forall|k: int|
            0 <= k < es.len() ==> !image_pass_drops(#[trigger] es[k].0, image_paint)
                && strip_image_metadata(es[k].1) == es[k].1,
    ensures
        image_kept_entries(image_paint, es) == es,
    decreases es.len(),
{
    if es.len() > 0 {
        let d = es.drop_last();
        assert forall|k: int| 0 <= k < d.len() implies !image_pass_drops(#[trigger] d[k].0, image_paint)
            && strip_image_metadata(d[k].1) == d[k].1 by {
            assert(d[k] == es[k]);
        }
        lemma_image_entries_fixed(image_paint, d);
        let last = es.len() - 1;
        assert(!image_pass_drops(es[last].0, image_paint));
        assert(d.push(es.last()) =~= es);
    }
}

proof fn lemma_image_keys()
    ensures
        !image_pass_drops("type"@, true),
        !image_pass_drops("value"@, true),
        !image_pass_drops("scaleMode"@, true),
        "type"@ != "scaleMode"@,
        "value"@ != "scaleMode"@,
        "scaleMode"@ != "imageScaleMode"@,
{
    reveal_strlit("type");
    reveal_strlit("value");
    reveal_strlit("scaleMode");
    reveal_strlit("thumbHash");
    reveal_strlit("animationFrame");
    reveal_strlit("imageShouldColorManage");
    reveal_strlit("originalImageWidth");
    reveal_strlit("originalImageHeight");
    reveal_strlit("altText");
    reveal_strlit("imageThumbnail");
    reveal_strlit("imageScaleMode");
    reveal_strlit("rotation");
    reveal_strlit("scale");
    assert("scaleMode"@[0] != "thumbHash"@[0]);
    assert("scaleMode"@.len() != "rotation"@.len());
    assert("scaleMode"@.len() != "scale"@.len());
    assert("scaleMode"@.len() != "altText"@.len());
    assert("scaleMode"@.len() != "imageScaleMode"@.len());
    assert("scaleMode"@.len() != "animationFrame"@.len());
    assert("scaleMode"@.len() != "imageShouldColorManage"@.len());
    assert("scaleMode"@.len() != "originalImageWidth"@.len());
    assert("scaleMode"@.len() != "originalImageHeight"@.len());
    assert("scaleMode"@.len() != "imageThumbnail"@.len());
    assert("type"@.len() != "thumbHash"@.len());
    assert("type"@.len() != "rotation"@.len());
    assert("type"@.len() != "scale"@.len());
    assert("type"@.len() != "altText"@.len());
    assert("type"@.len() != "imageScaleMode"@.len());
    assert("type"@.len() != "animationFrame"@.len());
    assert("type"@.len() != "imageShouldColorManage"@.len());
    assert("type"@.len() != "originalImageWidth"@.len());
    assert("type"@.len() != "originalImageHeight"@.len());
    assert("type"@.len() != "imageThumbnail"@.len());
    assert("type"@.len() != "scaleMode"@.len());
    assert("value"@.len() != "thumbHash"@.len());
    assert("value"@.len() != "rotation"@.len());
    assert("value"@[0] != "scale"@[0]);
    assert("value"@.len() != "altText"@.len());
    assert("value"@.len() != "imageScaleMode"@.len());
    assert("value"@.len() != "animationFrame"@.len());
    assert("value"@.len() != "imageShouldColorManage"@.len());
    assert("value"@.len() != "originalImageWidth"@.len());
    assert("value"@.len() != "originalImageHeight"@.len());
    assert("value"@.len() != "imageThumbnail"@.len());
    assert("value"@.len() != "scaleMode"@.len());
}

/// The field `k` of a cleaned object, for a key kept in place that is not
/// `scaleMode`.
proof fn lemma_image_field(j: JsonView, k: Seq<char>)
    requires
        j is Object,
        !image_pass_drops(k, true),
        k != "scaleMode"@,
    ensures
        get_field(strip_image_metadata(j), k) == match get_field(j, k) {
            Some(v) => Some(strip_image_metadata(v)),
            None => None,
        },
{
    let es = j->Object_0;
    let ip = is_image_paint(j);
    let kept = image_kept_entries(ip, es);
    lemma_image_field_kept(ip, es, k);
    let p = key_position(es, "imageScaleMode"@);
    if 0 <= p < es.len() {
        lemma_field_set_field(kept, "scaleMode"@, strip_image_metadata(es[p].1), k);
    }
}

/// Cleaning does not change whether an object is an image paint.
proof fn lemma_image_paint_kept(j: JsonView)
    ensures
        is_image_paint(strip_image_metadata(j)) == is_image_paint(j),
{
    lemma_image_keys();
    if j is Object {
        lemma_image_field(j, "type"@);
        if let Some(JsonView::Object(t)) = get_field(j, "type"@) {
            lemma_image_field(JsonView::Object(t), "value"@);
        }
    }
}

/// `remove_image_metadata_fields` leaves no image metadata behind: a
/// second pass changes nothing.
pub proof fn lemma_remove_image_metadata_idempotent(j: JsonView)
    ensures
        strip_image_metadata(strip_image_metadata(j)) == strip_image_metadata(j),
    decreases j,
{
    match j {
        JsonView::Array(items) => {
            let s1 = strip_image_metadata(j)->Array_0;
            assert forall|i: int| 0 <= i < s1.len() implies strip_image_metadata(#[trigger] s1[i]) == s1[i] by {
                lemma_remove_image_metadata_idempotent(items[i]);
            }
            assert(strip_image_metadata(strip_image_metadata(j))->Array_0 =~= s1);
        },
        JsonView::Object(es) => {
            lemma_image_keys();
            let ip = is_image_paint(j);
            let kept = image_kept_entries(ip, es);
            let p = key_position(es, "imageScaleMode"@);
            lemma_key_position(es, "imageScaleMode"@);
            let e1 = strip_image_metadata(j)->Object_0;
            lemma_image_paint_kept(j);
            lemma_image_kept_origin(ip, es);
            assert forall|k: int| 0 <= k < kept.len() implies !image_pass_drops(#[trigger] kept[k].0, ip)
                && strip_image_metadata(kept[k].1) == kept[k].1 by {
                let i = choose|i: int|
                    0 <= i < es.len() && !image_pass_drops(es[i].0, ip) && #[trigger] kept[k] == (
                        es[i].0,
                        strip_image_metadata(es[i].1),
                    );
                lemma_remove_image_metadata_idempotent(es[i].1);
            }
            assert forall|k: int| 0 <= k < kept.len() implies (#[trigger] kept[k]).0 != "imageScaleMode"@ by {
                let i = choose|i: int|
                    0 <= i < es.len() && !image_pass_drops(es[i].0, ip) && #[trigger] kept[k] == (
                        es[i].0,
                        strip_image_metadata(es[i].1),
                    );
            }
            if 0 <= p < es.len() {
                let m = strip_image_metadata(es[p].1);
                lemma_remove_image_metadata_idempotent(es[p].1);
                lemma_set_field_entries(kept, "scaleMode"@, m);
                assert forall|k: int| 0 <= k < e1.len() implies !image_pass_drops(#[trigger] e1[k].0, ip)
                    && strip_image_metadata(e1[k].1) == e1[k].1 && e1[k].0 != "imageScaleMode"@ by {
                    if e1[k] != ("scaleMode"@, m) {
                        let i = choose|i: int| 0 <= i < kept.len() && kept[i] == e1[k];
                        assert(!image_pass_drops(kept[i].0, ip));
                        assert(kept[i].0 != "imageScaleMode"@);
                    }
                }
            }
            lemma_key_position(e1, "imageScaleMode"@);
            lemma_image_entries_fixed(ip, e1);
        },
        _ => {},
    }
}

proof fn lemma_image_kept_sorted(image_paint: bool, es: Seq<EntryView>)
    requires
        keys_sorted(es),
    ensures
        keys_sorted(image_kept_entries(image_paint, es)),
    decreases es.len(),
{
    if es.len() > 0 {
        let d = es.drop_last();
        assert(keys_sorted(d)) by {
            assert forall|i: int, k: int| 0 <= i < k < d.len() implies key_before(#[trigger] d[i].0, #[trigger] d[k].0) by {
                assert(d[i] == es[i] && d[k] == es[k]);
            }
        }
        lemma_image_kept_sorted(image_paint, d);
        lemma_image_kept_origin(image_paint, d);
        let kept = image_kept_entries(image_paint, d);
        let r = image_kept_entries(image_paint, es);
        let last = es.len() - 1;
        assert forall|i: int, k: int| 0 <= i < k < r.len() implies key_before(#[trigger] r[i].0, #[trigger] r[k].0) by {
            if k < kept.len() {
                assert(r[i] == kept[i] && r[k] == kept[k]);
            } else {
                let a = choose|a: int|
                    0 <= a < d.len() && !image_pass_drops(d[a].0, image_paint) && #[trigger] kept[i] == (
                        d[a].0,
                        strip_image_metadata(d[a].1),
                    );
                assert(r[i] == kept[i]);
                assert(d[a] == es[a]);
                assert(r[k].0 == es[last].0);
            }
        }
    }
}

/// `remove_image_metadata_fields` keeps a well-formed document
/// well-formed: `scaleMode` takes its place in key order.
pub proof fn lemma_remove_image_metadata_keeps_well_formed(j: JsonView)
    requires
        well_formed(j),
    ensures
        well_formed(strip_image_metadata(j)),
    decreases j,
{
    match j {
        JsonView::Array(items) => {
            let s1 = strip_image_metadata(j)->Array_0;
            assert forall|i: int| 0 <= i < s1.len() implies well_formed(#[trigger] s1[i]) by {
                lemma_remove_image_metadata_keeps_well_formed(items[i]);
            }
        },
        JsonView::Object(es) => {
            let ip = is_image_paint(j);
            let kept = image_kept_entries(ip, es);
            lemma_image_kept_sorted(ip, es);
            lemma_image_kept_origin(ip, es);
            assert forall|k: int| 0 <= k < kept.len() implies well_formed(#[trigger] kept[k].1) by {
                let i = choose|i: int|
                    0 <= i < es.len() && !image_pass_drops(es[i].0, ip) && #[trigger] kept[k] == (
                        es[i].0,
                        strip_image_metadata(es[i].1),
                    );
                assert(well_formed(es[i].1));
                lemma_remove_image_metadata_keeps_well_formed(es[i].1);
            }
            let p = key_position(es, "imageScaleMode"@);
            if 0 <= p < es.len() {
                let m = strip_image_metadata(es[p].1);
                assert(well_formed(es[p].1));
                lemma_remove_image_metadata_keeps_well_formed(es[p].1);
                lemma_set_field_sorted(kept, "scaleMode"@, m);
                lemma_set_field_entries(kept, "scaleMode"@, m);
                let e1 = set_field(kept, "scaleMode"@, m);
                assert forall|k: int| 0 <= k < e1.len() implies well_formed(#[trigger] e1[k].1) by {
                    if e1[k] != ("scaleMode"@, m) {
                        let i = choose|i: int| 0 <= i < kept.len() && kept[i] == e1[k];
                        assert(well_formed(kept[i].1));
                    }
                }
            }
        },
        _ => {},
    }
}

/// No object of the document holds image metadata (`thumbHash`,
/// `animationFrame`, `imageShouldColorManage`, `originalImageWidth`,
/// `originalImageHeight`, `altText`, `imageThumbnail`, `imageScaleMode`),
/// and no image paint (an object whose `type` has the `value` `IMAGE`)
/// holds `rotation` or `scale`.
pub open spec fn free_of_image_metadata(j: JsonView) -> bool
    decreases j,
{
    match j {
        JsonView::Array(items) => forall|i: int|
            0 <= i < items.len() ==> free_of_image_metadata(#[trigger] items[i]),
        JsonView::Object(es) => {
            &&& forall|i: int|
                0 <= i < es.len() ==> !(es[i].0 == "thumbHash"@ || es[i].0 == "animationFrame"@ || es[i].0 == "imageShouldColorManage"@ || es[i].0 == "originalImageWidth"@ || es[i].0 == "originalImageHeight"@ || es[i].0 == "altText"@ || es[i].0 == "imageThumbnail"@ || es[i].0 == "imageScaleMode"@) && free_of_image_metadata(#[trigger] es[i].1)
            &&& (get_field(j, "type"@) matches Some(JsonView::Object(t)) && field(t, "value"@) == Some(
                JsonView::Str("IMAGE"@),
            )) ==> forall|i: int| 0 <= i < es.len() ==> #[trigger] es[i].0 != "rotation"@ && es[i].0 != "scale"@
        },
        _ => true,
    }
}

proof fn lemma_kept_entries_free(j: JsonView)
    requires
        j is Object,
        forall|x: JsonView| #![trigger strip_image_metadata(x)] occurs_as_value(x, j) ==> free_of_image_metadata(
            strip_image_metadata(x),
        ),
    ensures
        forall|k: int|
            0 <= k < image_kept_entries(is_image_paint(j), j->Object_0).len() ==> !image_pass_drops(
                #[trigger] image_kept_entries(is_image_paint(j), j->Object_0)[k].0,
                is_image_paint(j),
            ) && free_of_image_metadata(image_kept_entries(is_image_paint(j), j->Object_0)[k].1),
{
    let es = j->Object_0;
    let ip = is_image_paint(j);
    let kept = image_kept_entries(ip, es);
    lemma_image_kept_origin(ip, es);
    assert forall|k: int| 0 <= k < kept.len() implies !image_pass_drops(#[trigger] kept[k].0, ip)
        && free_of_image_metadata(kept[k].1) by {
        let i = choose|i: int|
            0 <= i < es.len() && !image_pass_drops(es[i].0, ip) && #[trigger] kept[k] == (
                es[i].0,
                strip_image_metadata(es[i].1),
            );
        assert(occurs_as_value(es[i].1, j));
    }
}

/// `x` is the value of an entry of the object `j`.
spec fn occurs_as_value(x: JsonView, j: JsonView) -> bool {
    exists|i: int| 0 <= i < j->Object_0.len() && #[trigger] j->Object_0[i].1 == x
}

proof fn lemma_entries_free(es: Seq<EntryView>, ip: bool)
    requires
        forall|k: int| 0 <= k < es.len() ==> !image_pass_drops(#[trigger] es[k].0, ip)
            && free_of_image_metadata(es[k].1),
        (get_field(JsonView::Object(es), "type"@) matches Some(JsonView::Object(t)) && field(t, "value"@)
            == Some(JsonView::Str("IMAGE"@))) ==> ip,
    ensures
        free_of_image_metadata(JsonView::Object(es)),
{
    assert forall|i: int| 0 <= i < es.len() implies !(es[i].0 == "thumbHash"@ || es[i].0
        == "animationFrame"@ || es[i].0 == "imageShouldColorManage"@ || es[i].0 == "originalImageWidth"@
        || es[i].0 == "originalImageHeight"@ || es[i].0 == "altText"@ || es[i].0 == "imageThumbnail"@
        || es[i].0 == "imageScaleMode"@) && free_of_image_metadata(#[trigger] es[i].1) by {
        assert(!image_pass_drops(es[i].0, ip));
    }
}

/// `remove_image_metadata_fields` cleans every value of the document, every
/// array element alike: nothing it removes is left anywhere.
pub proof fn lemma_image_metadata_gone(j: JsonView)
    ensures
        free_of_image_metadata(strip_image_metadata(j)),
    decreases j,
{
    match j {
        JsonView::Array(items) => {
            let s1 = strip_image_metadata(j)->Array_0;
            assert forall|i: int| 0 <= i < s1.len() implies free_of_image_metadata(#[trigger] s1[i]) by {
                lemma_image_metadata_gone(items[i]);
            }
        },
        JsonView::Object(es) => {
            lemma_image_keys();
            let ip = is_image_paint(j);
            let kept = image_kept_entries(ip, es);
            lemma_image_paint_kept(j);
            let e1 = strip_image_metadata(j)->Object_0;
            assert forall|x: JsonView| #![trigger strip_image_metadata(x)] occurs_as_value(x, j)
                implies free_of_image_metadata(strip_image_metadata(x)) by {
                let i = choose|i: int| 0 <= i < es.len() && #[trigger] es[i].1 == x;
                lemma_image_metadata_gone(es[i].1);
            }
            lemma_kept_entries_free(j);
            let p = key_position(es, "imageScaleMode"@);
            if 0 <= p < es.len() {
                let m = strip_image_metadata(es[p].1);
                assert(occurs_as_value(es[p].1, j));
                lemma_set_field_entries(kept, "scaleMode"@, m);
                assert forall|k: int| 0 <= k < e1.len() implies !image_pass_drops(#[trigger] e1[k].0, ip)
                    && free_of_image_metadata(e1[k].1) by {
                    if e1[k] != ("scaleMode"@, m) {
                        let i = choose|i: int| 0 <= i < kept.len() && kept[i] == e1[k];
                        assert(!image_pass_drops(kept[i].0, ip));
                    }
                }
                lemma_entries_free(e1, ip);
            } else {
                assert(e1 == kept);
                lemma_entries_free(kept, ip);
            }
        },
        _ => {},
    }
}

/// The pass treats every element of an array alike: the result has the
/// same length and its element `i` is the pass applied to element `i`.
pub proof fn lemma_image_pass_elementwise(items: Seq<JsonView>)
    ensures
        strip_image_metadata(JsonView::Array(items)) is Array,
        strip_image_metadata(JsonView::Array(items))->Array_0.len() == items.len(),
        forall|i: int|
            0 <= i < items.len() ==> strip_image_metadata(JsonView::Array(items))->Array_0[i]
                == strip_image_metadata(#[trigger] items[i]),
{
}

/// The image pass keeps every field of an object other than the image
/// metadata, `rotation`, `scale` and `scaleMode`.
pub proof fn lemma_image_other_fields_kept(j: JsonView, k: Seq<char>)
    requires
        j is Object,
        !(k == "thumbHash"@ || k == "animationFrame"@ || k == "imageShouldColorManage"@ || k == "originalImageWidth"@ || k == "originalImageHeight"@ || k == "altText"@ || k == "imageThumbnail"@ || k == "imageScaleMode"@ || k == "rotation"@ || k == "scale"@ || k == "scaleMode"@),
    ensures
        get_field(strip_image_metadata(j), k) is Some <==> get_field(j, k) is Some,
{
    lemma_image_field(j, k);
}

/// The value of `imageScaleMode` comes back, cleaned, as `scaleMode`.
pub proof fn lemma_scale_mode_renamed(j: JsonView, v: JsonView)
    requires
        j is Object,
        get_field(j, "imageScaleMode"@) == Some(v),
    ensures
        get_field(strip_image_metadata(j), "scaleMode"@) == Some(strip_image_metadata(v)),
{
    let es = j->Object_0;
    let ip = is_image_paint(j);
    lemma_key_position(es, "imageScaleMode"@);
    let p = key_position(es, "imageScaleMode"@);
    lemma_field_set_field(image_kept_entries(ip, es), "scaleMode"@, strip_image_metadata(es[p].1), "scaleMode"@);
}

} // verus!
