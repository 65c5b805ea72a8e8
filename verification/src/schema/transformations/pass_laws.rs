//! Which fields each deleting pass removes from an object and which it
//! keeps, stated key by key.

use vstd::prelude::*;
use crate::json::{JsonView, get_field, keys_sorted};
use super::prune::{PruneRule, prune, prune_entries, drops, child_context};
use super::prune_laws::{
    lemma_field_pruned, lemma_field_dropped, lemma_field_kept, lemma_protected_subtree_unchanged,
    lemma_kept_entries_origin,
};

verus! {

/// `remove_text_metadata_fields` removes from an object exactly the
/// thirteen text configuration fields and keeps every other field.
pub proof fn lemma_text_metadata_fields_removed(j: JsonView, ctx: bool, k: Seq<char>)
    requires
        j is Object,
    ensures
        get_field(prune(PruneRule::TextMetadata, ctx, j), k) is Some <==> get_field(j, k) is Some && !(
        k == "textBidiVersion"@ || k == "textExplicitLayoutVersion"@ || k == "textUserLayoutVersion"@
            || k == "textDecorationSkipInk"@ || k == "fontVariantCommonLigatures"@ || k
            == "fontVariantContextualLigatures"@ || k == "fontVariantNumericFigure"@ || k
            == "fontVariantNumericSpacing"@ || k == "fontVariations"@ || k == "fontVersion"@ || k
            == "emojiImageSet"@ || k == "autoRename"@ || k == "textTracking"@),
{
    let es = j->Object_0;
    if k == "textBidiVersion"@ || k == "textExplicitLayoutVersion"@ || k == "textUserLayoutVersion"@
        || k == "textDecorationSkipInk"@ || k == "fontVariantCommonLigatures"@ || k
        == "fontVariantContextualLigatures"@ || k == "fontVariantNumericFigure"@ || k
        == "fontVariantNumericSpacing"@ || k == "fontVariations"@ || k == "fontVersion"@ || k
        == "emojiImageSet"@ || k == "autoRename"@ || k == "textTracking"@ {
        lemma_field_dropped(PruneRule::TextMetadata, ctx, j, es, k);
    } else {
        lemma_field_pruned(PruneRule::TextMetadata, ctx, j, es, k);
    }
}

/// `remove_frame_properties` removes `targetAspectRatio` from an object and
/// keeps every other field.
pub proof fn lemma_frame_properties_removed(j: JsonView, ctx: bool, k: Seq<char>)
    requires
        j is Object,
    ensures
        get_field(prune(PruneRule::FrameProperties, ctx, j), k) is Some <==> get_field(j, k) is Some
            && k != "targetAspectRatio"@,
{
    let es = j->Object_0;
    if k == "targetAspectRatio"@ {
        lemma_field_dropped(PruneRule::FrameProperties, ctx, j, es, k);
    } else {
        lemma_field_pruned(PruneRule::FrameProperties, ctx, j, es, k);
    }
}

/// Outside the protected subtrees, the guid-path pass removes `guidPath`
/// from an object and keeps every other field.
pub proof fn lemma_guid_paths_removed(j: JsonView, k: Seq<char>)
    requires
        j is Object,
    ensures
        get_field(prune(PruneRule::GuidPaths, false, j), k) is Some <==> get_field(j, k) is Some && k
            != "guidPath"@,
{
    let es = j->Object_0;
    if k == "guidPath"@ {
        lemma_field_dropped(PruneRule::GuidPaths, false, j, es, k);
    } else {
        lemma_field_pruned(PruneRule::GuidPaths, false, j, es, k);
    }
}

/// The guid-path pass leaves the values under `derivedSymbolData` and
/// `symbolOverrides` as they are.
pub proof fn lemma_guid_paths_keep_overrides(j: JsonView, k: Seq<char>)
    requires
        j is Object,
        k == "derivedSymbolData"@ || k == "symbolOverrides"@,
    ensures
        get_field(prune(PruneRule::GuidPaths, false, j), k) == get_field(j, k),
{
    reveal_strlit("derivedSymbolData");
    reveal_strlit("symbolOverrides");
    reveal_strlit("guidPath");
    assert(k != "guidPath"@) by {
        assert(k.len() != "guidPath"@.len());
    }
    lemma_field_pruned(PruneRule::GuidPaths, false, j, j->Object_0, k);
    if let Some(v) = get_field(j, k) {
        lemma_protected_subtree_unchanged(PruneRule::GuidPaths, v);
    }
}

/// Outside the component masters, the guid pass removes `guid` from an
/// object and keeps every other field.
pub proof fn lemma_guids_removed(j: JsonView, k: Seq<char>)
    requires
        j is Object,
    ensures
        get_field(prune(PruneRule::Guids, false, j), k) is Some <==> get_field(j, k) is Some && k
            != "guid"@,
{
    let es = j->Object_0;
    if k == "guid"@ {
        lemma_field_dropped(PruneRule::Guids, false, j, es, k);
    } else {
        lemma_field_pruned(PruneRule::Guids, false, j, es, k);
    }
}

/// Outside paint lists, `remove_type` removes `type` from an object and
/// keeps every other field.
pub proof fn lemma_node_type_removed(j: JsonView, k: Seq<char>)
    requires
        j is Object,
    ensures
        get_field(prune(PruneRule::NodeType, false, j), k) is Some <==> get_field(j, k) is Some && k
            != "type"@,
{
    let es = j->Object_0;
    if k == "type"@ {
        lemma_field_dropped(PruneRule::NodeType, false, j, es, k);
    } else {
        lemma_field_pruned(PruneRule::NodeType, false, j, es, k);
    }
}

/// `remove_type` leaves the paint and effect lists, and the `type` of each
/// paint or effect, as they are.
pub proof fn lemma_node_type_keeps_paints(j: JsonView, k: Seq<char>)
    requires
        j is Object,
        k == "fillPaints"@ || k == "strokePaints"@ || k == "effects"@,
    ensures
        get_field(prune(PruneRule::NodeType, false, j), k) == get_field(j, k),
{
    reveal_strlit("fillPaints");
    reveal_strlit("strokePaints");
    reveal_strlit("effects");
    reveal_strlit("type");
    assert(k != "type"@) by {
        assert(k.len() != "type"@.len());
    }
    lemma_field_pruned(PruneRule::NodeType, false, j, j->Object_0, k);
    if let Some(v) = get_field(j, k) {
        lemma_protected_subtree_unchanged(PruneRule::NodeType, v);
    }
}

/// Outside `symbolData`, `remove_symbol_id_fields` removes `symbolID` from
/// an object exactly when its value is an object whose keys are all
/// `localID` or `sessionID`, and keeps every other field.
pub proof fn lemma_symbol_ids_removed(j: JsonView, k: Seq<char>)
    requires
        j is Object,
        keys_sorted(j->Object_0),
    ensures
        get_field(prune(PruneRule::SymbolIds, false, j), k) is Some <==> get_field(j, k) is Some && !(k
            == "symbolID"@ && (get_field(j, k) matches Some(JsonView::Object(o)) && forall|i: int|
            0 <= i < o.len() ==> #[trigger] o[i].0 == "localID"@ || o[i].0 == "sessionID"@)),
{
    let es = j->Object_0;
    crate::json::lemma_key_position(es, k);
    let p = crate::json::key_position(es, k);
    assert forall|i: int| 0 <= i < es.len() && es[i].0 == k implies i == p by {
        if i != p {
            if i < p {
                assert(es[i].0 != k);
            } else {
                assert(crate::json::key_before(es[p].0, es[i].0));
            }
        }
    }
    let plain = k == "symbolID"@ && (get_field(j, k) matches Some(JsonView::Object(o)) && forall|i: int|
        0 <= i < o.len() ==> #[trigger] o[i].0 == "localID"@ || o[i].0 == "sessionID"@);
    if plain {
        lemma_field_dropped(PruneRule::SymbolIds, false, j, es, k);
    } else {
        lemma_field_kept(PruneRule::SymbolIds, false, j, es, k);
    }
}

/// `remove_symbol_id_fields` leaves the value under `symbolData` (the link
/// from an instance to its master) as it is.
pub proof fn lemma_symbol_ids_keep_symbol_data(j: JsonView)
    requires
        j is Object,
    ensures
        get_field(prune(PruneRule::SymbolIds, false, j), "symbolData"@) == get_field(j, "symbolData"@),
{
    reveal_strlit("symbolData");
    reveal_strlit("symbolID");
    assert("symbolData"@.len() != "symbolID"@.len());
    lemma_field_pruned(PruneRule::SymbolIds, false, j, j->Object_0, "symbolData"@);
    if let Some(v) = get_field(j, "symbolData"@) {
        lemma_protected_subtree_unchanged(PruneRule::SymbolIds, v);
    }
}

/// The geometry pass keeps every field of an object but `fillGeometry`,
/// `strokeGeometry`, `windingRule` and `styleID`.
pub proof fn lemma_geometry_other_fields_kept(j: JsonView, k: Seq<char>)
    requires
        j is Object,
        !(k == "fillGeometry"@ || k == "strokeGeometry"@ || k == "windingRule"@ || k == "styleID"@),
    ensures
        get_field(prune(PruneRule::Geometry, false, j), k) is Some <==> get_field(j, k) is Some,
{
    lemma_field_pruned(PruneRule::Geometry, false, j, j->Object_0, k);
}

/// A node some entry of whose `symbolData.symbolOverrides` (at any index)
/// has an `exportSettings` element with an `imageType` is an image: the
/// geometry pass keeps all its fields.
pub proof fn lemma_geometry_kept_on_images(
    j: JsonView,
    sd: JsonView,
    ovs: Seq<JsonView>,
    i: int,
    settings: Seq<JsonView>,
    m: int,
    k: Seq<char>,
)
    requires
        j is Object,
        get_field(j, "symbolData"@) == Some(sd),
        get_field(sd, "symbolOverrides"@) == Some(JsonView::Array(ovs)),
        0 <= i < ovs.len(),
        get_field(ovs[i], "exportSettings"@) == Some(JsonView::Array(settings)),
        0 <= m < settings.len(),
        get_field(settings[m], "imageType"@) is Some,
    ensures
        get_field(prune(PruneRule::Geometry, false, j), k) is Some <==> get_field(j, k) is Some,
{
    assert(super::prune::exports_image(ovs[i])) by {
        assert(exists|m2: int|
            0 <= m2 < settings.len() && (#[trigger] get_field(settings[m2], "imageType"@)) is Some);
    }
    assert(super::prune::has_image_export(j)) by {
        let sdv = get_field(j, "symbolData"@)->0;
        assert(sdv == sd);
        let ovv = get_field(sdv, "symbolOverrides"@)->0->Array_0;
        assert(ovv == ovs);
        assert(super::prune::exports_image(ovv[i]));
    }
    lemma_field_pruned(PruneRule::Geometry, false, j, j->Object_0, k);
}

/// A node whose own name starts with `icon/` or `arrows/` is an icon: the
/// geometry pass keeps all its fields.
pub proof fn lemma_geometry_kept_on_icons(j: JsonView, name: Seq<char>, k: Seq<char>)
    requires
        j is Object,
        get_field(j, "name"@) == Some(JsonView::Str(name)),
        "icon/"@.is_prefix_of(name) || "arrows/"@.is_prefix_of(name),
    ensures
        get_field(prune(PruneRule::Geometry, false, j), k) is Some <==> get_field(j, k) is Some,
{
    lemma_field_pruned(PruneRule::Geometry, false, j, j->Object_0, k);
}

/// The geometry pass leaves the value under `derivedSymbolData` as it is.
pub proof fn lemma_geometry_keeps_derived_data(j: JsonView)
    requires
        j is Object,
    ensures
        get_field(prune(PruneRule::Geometry, false, j), "derivedSymbolData"@) == get_field(
            j,
            "derivedSymbolData"@,
        ),
{
    reveal_strlit("derivedSymbolData");
    reveal_strlit("fillGeometry");
    reveal_strlit("strokeGeometry");
    reveal_strlit("windingRule");
    reveal_strlit("styleID");
    assert("derivedSymbolData"@.len() != "fillGeometry"@.len());
    assert("derivedSymbolData"@.len() != "strokeGeometry"@.len());
    assert("derivedSymbolData"@.len() != "windingRule"@.len());
    assert("derivedSymbolData"@.len() != "styleID"@.len());
    lemma_field_pruned(PruneRule::Geometry, false, j, j->Object_0, "derivedSymbolData"@);
    if let Some(v) = get_field(j, "derivedSymbolData"@) {
        lemma_protected_subtree_unchanged(PruneRule::Geometry, v);
    }
}

/// No object of `j` holds a key that `gone` selects, except inside the
/// values under keys that `kept_below` selects, which are not looked at.
pub open spec fn key_gone_below(
    gone: spec_fn(Seq<char>) -> bool,
    kept_below: spec_fn(Seq<char>) -> bool,
    j: JsonView,
) -> bool
    decreases j,
{
    match j {
        JsonView::Array(items) => forall|i: int|
            0 <= i < items.len() ==> key_gone_below(gone, kept_below, #[trigger] items[i]),
        JsonView::Object(es) => forall|i: int|
            0 <= i < es.len() ==> !gone(#[trigger] es[i].0) && (kept_below(es[i].0) || key_gone_below(
                gone,
                kept_below,
                es[i].1,
            )),
        _ => true,
    }
}

proof fn lemma_pass_leaves_key_gone(
    rule: PruneRule,
    gone: spec_fn(Seq<char>) -> bool,
    kept_below: spec_fn(Seq<char>) -> bool,
    j: JsonView,
)
    requires
        forall|node: JsonView, k: Seq<char>, v: JsonView| gone(k) ==> #[trigger] drops(rule, false, node, k, v),
        forall|k: Seq<char>| !kept_below(k) ==> !#[trigger] child_context(rule, false, k),
    ensures
        key_gone_below(gone, kept_below, prune(rule, false, j)),
    decreases j,
{
    match j {
        JsonView::Array(items) => {
            let r = prune(rule, false, j)->Array_0;
            assert forall|i: int| 0 <= i < r.len() implies key_gone_below(gone, kept_below, #[trigger] r[i]) by {
                lemma_pass_leaves_key_gone(rule, gone, kept_below, items[i]);
            }
        },
        JsonView::Object(es) => {
            let r = prune_entries(rule, false, j, es);
            lemma_kept_entries_origin(rule, false, j, es);
            assert forall|m: int| 0 <= m < r.len() implies !gone(#[trigger] r[m].0) && (kept_below(r[m].0)
                || key_gone_below(gone, kept_below, r[m].1)) by {
                let i = choose|i: int|
                    0 <= i < es.len() && !drops(rule, false, j, es[i].0, es[i].1) && #[trigger] r[m] == (
                        es[i].0,
                        prune(rule, child_context(rule, false, es[i].0), es[i].1),
                    );
                if gone(es[i].0) {
                    assert(drops(rule, false, j, es[i].0, es[i].1));
                }
                if !kept_below(es[i].0) {
                    assert(!child_context(rule, false, es[i].0));
                    lemma_pass_leaves_key_gone(rule, gone, kept_below, es[i].1);
                }
            }
        },
        _ => {},
    }
}

/// After `remove_text_metadata_fields` no object anywhere in the document
/// holds one of the thirteen text configuration fields.
pub proof fn lemma_text_metadata_gone_everywhere(j: JsonView)
    ensures
        key_gone_below(
            |k: Seq<char>| k == "textBidiVersion"@ || k == "textExplicitLayoutVersion"@ || k == "textUserLayoutVersion"@ || k == "textDecorationSkipInk"@ || k == "fontVariantCommonLigatures"@ || k == "fontVariantContextualLigatures"@ || k == "fontVariantNumericFigure"@ || k == "fontVariantNumericSpacing"@ || k == "fontVariations"@ || k == "fontVersion"@ || k == "emojiImageSet"@ || k == "autoRename"@ || k == "textTracking"@,
            |k: Seq<char>| false,
            prune(PruneRule::TextMetadata, false, j),
        ),
{
    lemma_pass_leaves_key_gone(
        PruneRule::TextMetadata,
        |k: Seq<char>| k == "textBidiVersion"@ || k == "textExplicitLayoutVersion"@ || k == "textUserLayoutVersion"@ || k == "textDecorationSkipInk"@ || k == "fontVariantCommonLigatures"@ || k == "fontVariantContextualLigatures"@ || k == "fontVariantNumericFigure"@ || k == "fontVariantNumericSpacing"@ || k == "fontVariations"@ || k == "fontVersion"@ || k == "emojiImageSet"@ || k == "autoRename"@ || k == "textTracking"@,
        |k: Seq<char>| false,
        j,
    );
}

/// After `remove_frame_properties` no object anywhere in the document holds
/// `targetAspectRatio`.
pub proof fn lemma_frame_properties_gone_everywhere(j: JsonView)
    ensures
        key_gone_below(
            |k: Seq<char>| k == "targetAspectRatio"@,
            |k: Seq<char>| false,
            prune(PruneRule::FrameProperties, false, j),
        ),
{
    lemma_pass_leaves_key_gone(
        PruneRule::FrameProperties,
        |k: Seq<char>| k == "targetAspectRatio"@,
        |k: Seq<char>| false,
        j,
    );
}

/// After the guid pass (outside the component masters) no object anywhere
/// in the document holds `guid`.
pub proof fn lemma_guids_gone_everywhere(j: JsonView)
    ensures
        key_gone_below(|k: Seq<char>| k == "guid"@, |k: Seq<char>| false, prune(PruneRule::Guids, false, j)),
{
    lemma_pass_leaves_key_gone(PruneRule::Guids, |k: Seq<char>| k == "guid"@, |k: Seq<char>| false, j);
}

/// After `remove_guid_paths` no object holds `guidPath`, except inside the
/// values under `derivedSymbolData` and `symbolOverrides`.
pub proof fn lemma_guid_paths_gone_everywhere(j: JsonView)
    ensures
        key_gone_below(
            |k: Seq<char>| k == "guidPath"@,
            |k: Seq<char>| k == "derivedSymbolData"@ || k == "symbolOverrides"@,
            prune(PruneRule::GuidPaths, false, j),
        ),
{
    lemma_pass_leaves_key_gone(
        PruneRule::GuidPaths,
        |k: Seq<char>| k == "guidPath"@,
        |k: Seq<char>| k == "derivedSymbolData"@ || k == "symbolOverrides"@,
        j,
    );
}

/// After `remove_type` no object holds `type`, except inside the values
/// under `fillPaints`, `strokePaints` and `effects`.
pub proof fn lemma_node_types_gone_everywhere(j: JsonView)
    ensures
        key_gone_below(
            |k: Seq<char>| k == "type"@,
            |k: Seq<char>| k == "fillPaints"@ || k == "strokePaints"@ || k == "effects"@,
            prune(PruneRule::NodeType, false, j),
        ),
{
    lemma_pass_leaves_key_gone(
        PruneRule::NodeType,
        |k: Seq<char>| k == "type"@,
        |k: Seq<char>| k == "fillPaints"@ || k == "strokePaints"@ || k == "effects"@,
        j,
    );
}

} // verus!
