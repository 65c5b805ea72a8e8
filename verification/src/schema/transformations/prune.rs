//! Key pruning: the walk shared by the passes that delete fields.
//!
//! A pass visits every value of the document. At each object it drops the
//! entries that its rule selects, then descends into the values of the
//! entries it kept; arrays are walked element by element. A rule may carry
//! one bit of context (such as "below a `derivedSymbolData` key") that is
//! set when the walk enters certain keys and then stays set for the whole
//! subtree.

use vstd::prelude::*;
use crate::json::{Json, JsonView, EntryView, get_field, entries_view};
use crate::text::{str_eq, str_starts_with};

verus! {

/// Which fields a pruning pass deletes.
#[derive(Clone, Copy, PartialEq, Eq, Structural, Debug)]
pub enum PruneRule {
    /// `targetAspectRatio` everywhere.
    FrameProperties,
    /// The geometry fields of every node that is not an icon or image, and
    /// nothing below a `derivedSymbolData` key.
    Geometry,
    /// `guidPath` everywhere except below `derivedSymbolData` and
    /// `symbolOverrides` keys.
    GuidPaths,
    /// `guid` everywhere (unless the walk starts in context).
    Guids,
    /// The text configuration fields everywhere.
    TextMetadata,
    /// `type` everywhere except below `fillPaints`, `strokePaints` and
    /// `effects` keys.
    NodeType,
    /// `symbolID` objects holding only `localID`/`sessionID`, except below a
    /// `symbolData` key.
    SymbolIds,
}

pub open spec fn is_geometry_key(k: Seq<char>) -> bool {
    ||| k == "fillGeometry"@
    ||| k == "strokeGeometry"@
    ||| k == "windingRule"@
    ||| k == "styleID"@
}

pub open spec fn is_text_metadata_key(k: Seq<char>) -> bool {
    ||| k == "textBidiVersion"@
    ||| k == "textExplicitLayoutVersion"@
    ||| k == "textUserLayoutVersion"@
    ||| k == "textDecorationSkipInk"@
    ||| k == "fontVariantCommonLigatures"@
    ||| k == "fontVariantContextualLigatures"@
    ||| k == "fontVariantNumericFigure"@
    ||| k == "fontVariantNumericSpacing"@
    ||| k == "fontVariations"@
    ||| k == "fontVersion"@
    ||| k == "emojiImageSet"@
    ||| k == "autoRename"@
    ||| k == "textTracking"@
}

pub open spec fn is_guid_part(k: Seq<char>) -> bool {
    k == "localID"@ || k == "sessionID"@
}

pub proof fn lemma_not_plain(ev: Seq<EntryView>, i: int)
    requires
        0 <= i < ev.len(),
        !is_guid_part(ev[i].0),
    ensures
        !is_plain_guid(JsonView::Object(ev)),
{
    let j = JsonView::Object(ev);
    assert(j->Object_0 == ev);
    assert(!(forall|k: int| 0 <= k < ev.len() ==> is_guid_part(#[trigger] ev[k].0)));
}

/// An object whose keys are all `localID` or `sessionID` (possibly none).
pub open spec fn is_plain_guid(v: JsonView) -> bool {
    match v {
        JsonView::Object(es) => forall|i: int| 0 <= i < es.len() ==> is_guid_part(#[trigger] es[i].0),
        _ => false,
    }
}

/// The node's own name starts with `icon/` or `arrows/`.
pub open spec fn has_icon_name(node: JsonView) -> bool {
    match get_field(node, "name"@) {
        Some(JsonView::Str(n)) => "icon/"@.is_prefix_of(n) || "arrows/"@.is_prefix_of(n),
        _ => false,
    }
}

/// An override entry whose `exportSettings` array has an entry with an
/// `imageType`.
pub open spec fn exports_image(ov: JsonView) -> bool {
    match get_field(ov, "exportSettings"@) {
        Some(JsonView::Array(settings)) => exists|j: int|
            0 <= j < settings.len() && (#[trigger] get_field(settings[j], "imageType"@)) is Some,
        _ => false,
    }
}

/// Some entry of `symbolData.symbolOverrides` exports an image.
pub open spec fn has_image_export(node: JsonView) -> bool {
    match get_field(node, "symbolData"@) {
        Some(sd) => match get_field(sd, "symbolOverrides"@) {
            Some(JsonView::Array(ovs)) => exists|i: int|
                0 <= i < ovs.len() && #[trigger] exports_image(ovs[i]),
            _ => false,
        },
        None => false,
    }
}

/// Icons and images keep their geometry.
pub open spec fn preserves_geometry(node: JsonView) -> bool {
    has_icon_name(node) || has_image_export(node)
}

/// Whether the entry `key: value` of the object `node` is deleted, with
/// context bit `ctx`.
pub open spec fn drops(
    rule: PruneRule,
    ctx: bool,
    node: JsonView,
    key: Seq<char>,
    value: JsonView,
) -> bool {
    match rule {
        PruneRule::FrameProperties => key == "targetAspectRatio"@,
        PruneRule::Geometry => !ctx && !preserves_geometry(node) && is_geometry_key(key),
        PruneRule::GuidPaths => !ctx && key == "guidPath"@,
        PruneRule::Guids => !ctx && key == "guid"@,
        PruneRule::TextMetadata => is_text_metadata_key(key),
        PruneRule::NodeType => !ctx && key == "type"@,
        PruneRule::SymbolIds => !ctx && key == "symbolID"@ && is_plain_guid(value),
    }
}

/// The context bit for the value under `key`.
pub open spec fn child_context(rule: PruneRule, ctx: bool, key: Seq<char>) -> bool {
    match rule {
        PruneRule::Geometry => ctx || key == "derivedSymbolData"@,
        PruneRule::GuidPaths => ctx || key == "derivedSymbolData"@ || key == "symbolOverrides"@,
        PruneRule::NodeType => ctx || key == "fillPaints"@ || key == "strokePaints"@ || key
            == "effects"@,
        PruneRule::SymbolIds => ctx || key == "symbolData"@,
        _ => ctx,
    }
}

/// The document after a pruning pass with rule `rule` in context `ctx`.
pub open spec fn prune(rule: PruneRule, ctx: bool, j: JsonView) -> JsonView
    decreases j,
{
    match j {
        JsonView::Array(items) => JsonView::Array(
            Seq::new(
                items.len(),
                |i: int|
                    if 0 <= i < items.len() {
                        prune(rule, ctx, items[i])
                    } else {
                        JsonView::Null
                    },
            ),
        ),
        JsonView::Object(es) => JsonView::Object(prune_entries(rule, ctx, j, es)),
        _ => j,
    }
}

/// The entries of `es` (a prefix of the entries of object `node`) that the
/// pass keeps, each with its value pruned in the context of its key.
pub open spec fn prune_entries(
    rule: PruneRule,
    ctx: bool,
    node: JsonView,
    es: Seq<EntryView>,
) -> Seq<EntryView>
    decreases es,
{
    if es.len() == 0 {
        Seq::empty()
    } else {
        let kept = prune_entries(rule, ctx, node, es.drop_last());
        let e = es.last();
        if drops(rule, ctx, node, e.0, e.1) {
            kept
        } else {
            kept.push((e.0, prune(rule, child_context(rule, ctx, e.0), e.1)))
        }
    }
}

/// Whether the key `k` is the literal `lit`.
pub fn key_is(k: &String, lit: &str) -> (r: bool)
    ensures
        r == (k@ == lit@),
{
    str_eq(k.as_str(), lit)
}

fn is_geometry_key_exec(k: &String) -> (r: bool)
    ensures
        r == is_geometry_key(k@),
{
    key_is(k, "fillGeometry") || key_is(k, "strokeGeometry") || key_is(k, "windingRule")
        || key_is(k, "styleID")
}

fn is_text_metadata_key_exec(k: &String) -> (r: bool)
    ensures
        r == is_text_metadata_key(k@),
{
    key_is(k, "textBidiVersion") || key_is(k, "textExplicitLayoutVersion") || key_is(
        k,
        "textUserLayoutVersion",
    ) || key_is(k, "textDecorationSkipInk") || key_is(k, "fontVariantCommonLigatures")
        || key_is(k, "fontVariantContextualLigatures") || key_is(k, "fontVariantNumericFigure")
        || key_is(k, "fontVariantNumericSpacing") || key_is(k, "fontVariations") || key_is(
        k,
        "fontVersion",
    ) || key_is(k, "emojiImageSet") || key_is(k, "autoRename") || key_is(k, "textTracking")
}

/// Whether `v` is an object holding only `localID`/`sessionID` keys.
#[verifier::loop_isolation(false)]
pub fn is_plain_guid_exec(v: &Json) -> (r: bool)
    ensures
        r == is_plain_guid(v@),
{
    match v {
        Json::Object(es) => {
            proof { crate::json::lemma_object_entries_view(*es); }
            let ghost ev = entries_view(es@);
            let mut i: usize = 0;
            while i < es.len()
                invariant
                    i <= es@.len(),
                    ev == entries_view(es@),
                    forall|k: int|
                        0 <= k < i ==> is_guid_part(#[trigger] ev[k].0),
                decreases es@.len() - i,
            {
                if !key_is(&es[i].0, "localID") && !key_is(&es[i].0, "sessionID") {
                    proof { lemma_not_plain(ev, i as int); }
                    return false;
                }
                i += 1;
            }
            true
        },
        _ => false,
    }
}

fn has_icon_name_exec(v: &Json) -> (r: bool)
    ensures
        r == has_icon_name(v@),
{
    match v.get("name") {
        Some(Json::Str(n)) => str_starts_with(n.as_str(), "icon/") || str_starts_with(
            n.as_str(),
            "arrows/",
        ),
        _ => false,
    }
}

#[verifier::loop_isolation(false)]
fn exports_image_exec(ov: &Json) -> (r: bool)
    ensures
        r == exports_image(ov@),
{
    match ov.get("exportSettings") {
        Some(Json::Array(settings)) => {
            let ghost sv = Json::Array(*settings)@->Array_0;
            let mut j: usize = 0;
            while j < settings.len()
                invariant
                    j <= settings@.len(),
                    sv == Json::Array(*settings)@->Array_0,
                    sv.len() == settings@.len(),
                    forall|k: int| 0 <= k < j ==> (#[trigger] get_field(sv[k], "imageType"@)) is None,
                decreases settings@.len() - j,
            {
                proof { crate::json::lemma_view_array_index(*settings, j as int); }
                if settings[j].get("imageType").is_some() {
                    assert(get_field(sv[j as int], "imageType"@) is Some);
                    return true;
                }
                j += 1;
            }
            false
        },
        _ => false,
    }
}

#[verifier::loop_isolation(false)]
fn has_image_export_exec(v: &Json) -> (r: bool)
    ensures
        r == has_image_export(v@),
{
    match v.get("symbolData") {
        Some(sd) => match sd.get("symbolOverrides") {
            Some(Json::Array(ovs)) => {
                let ghost ov_views = Json::Array(*ovs)@->Array_0;
                let mut i: usize = 0;
                while i < ovs.len()
                    invariant
                        i <= ovs@.len(),
                        ov_views == Json::Array(*ovs)@->Array_0,
                        ov_views.len() == ovs@.len(),
                        forall|k: int| 0 <= k < i ==> !#[trigger] exports_image(ov_views[k]),
                    decreases ovs@.len() - i,
                {
                    proof { crate::json::lemma_view_array_index(*ovs, i as int); }
                    if exports_image_exec(&ovs[i]) {
                        assert(exports_image(ov_views[i as int]));
                        return true;
                    }
                    i += 1;
                }
                false
            },
            _ => false,
        },
        None => false,
    }
}

/// Whether `node` is an icon or image, whose geometry is kept.
pub fn preserves_geometry_exec(node: &Json) -> (r: bool)
    ensures
        r == preserves_geometry(node@),
{
    has_icon_name_exec(node) || has_image_export_exec(node)
}

fn drops_exec(
    rule: PruneRule,
    ctx: bool,
    node_preserves: bool,
    Ghost(node): Ghost<JsonView>,
    key: &String,
    value: &Json,
) -> (r: bool)
    requires
        rule is Geometry ==> node_preserves == preserves_geometry(node),
    ensures
        r == drops(rule, ctx, node, key@, value@),
{
    match rule {
        PruneRule::FrameProperties => key_is(key, "targetAspectRatio"),
        PruneRule::Geometry => !ctx && !node_preserves && is_geometry_key_exec(key),
        PruneRule::GuidPaths => !ctx && key_is(key, "guidPath"),
        PruneRule::Guids => !ctx && key_is(key, "guid"),
        PruneRule::TextMetadata => is_text_metadata_key_exec(key),
        PruneRule::NodeType => !ctx && key_is(key, "type"),
        PruneRule::SymbolIds => !ctx && key_is(key, "symbolID") && is_plain_guid_exec(value),
    }
}

fn child_context_exec(rule: PruneRule, ctx: bool, key: &String) -> (r: bool)
    ensures
        r == child_context(rule, ctx, key@),
{
    match rule {
        PruneRule::Geometry => ctx || key_is(key, "derivedSymbolData"),
        PruneRule::GuidPaths => ctx || key_is(key, "derivedSymbolData") || key_is(
            key,
            "symbolOverrides",
        ),
        PruneRule::NodeType => ctx || key_is(key, "fillPaints") || key_is(key, "strokePaints")
            || key_is(key, "effects"),
        PruneRule::SymbolIds => ctx || key_is(key, "symbolData"),
        _ => ctx,
    }
}

/// Runs the pruning pass `rule` over `v` in context `ctx`, building the
/// pruned copy.
#[verifier::loop_isolation(false)]
pub fn prune_json(rule: PruneRule, ctx: bool, v: &Json) -> (r: Json)
    ensures
        r@ == prune(rule, ctx, v@),
    decreases v,
{
    broadcast use vstd::std_specs::vec::axiom_vec_index_decreases;

    match v {
        Json::Null => Json::Null,
        Json::Bool(b) => Json::Bool(*b),
        Json::Number(n) => Json::Number(*n),
        Json::Str(s) => Json::Str(s.clone()),
        Json::Array(items) => {
            let ghost iv = Json::Array(*items)@->Array_0;
            let mut out: Vec<Json> = Vec::new();
            let mut i: usize = 0;
            while i < items.len()
                invariant
                    i <= items@.len(),
                    iv == Json::Array(*items)@->Array_0,
                    iv.len() == items@.len(),
                    out@.len() == i,
                    forall|k: int| 0 <= k < i ==> #[trigger] out@[k]@ == prune(rule, ctx, iv[k]),
                decreases items@.len() - i,
            {
                proof { crate::json::lemma_view_array_index(*items, i as int); }
                let c = prune_json(rule, ctx, &items[i]);
                out.push(c);
                i += 1;
            }
            let ghost pruned = prune(rule, ctx, v@)->Array_0;
            proof { crate::json::lemma_array_view(out, pruned); }
            Json::Array(out)
        },
        Json::Object(entries) => {
            proof { crate::json::lemma_object_entries_view(*entries); }
            let ghost ev = entries_view(entries@);
            let ghost node = v@;
            let node_preserves = match rule {
                PruneRule::Geometry => preserves_geometry_exec(v),
                _ => false,
            };
            let mut out: Vec<(String, Json)> = Vec::new();
            let ghost mut kept: Seq<EntryView> = Seq::empty();
            let mut i: usize = 0;
            while i < entries.len()
                invariant
                    i <= entries@.len(),
                    ev == entries_view(entries@),
                    node == JsonView::Object(ev),
                    rule is Geometry ==> node_preserves == preserves_geometry(node),
                    kept == prune_entries(rule, ctx, node, ev.take(i as int)),
                    out@.len() == kept.len(),
                    forall|k: int|
                        0 <= k < kept.len() ==> (#[trigger] out@[k]).0@ == kept[k].0 && out@[k].1@
                            == kept[k].1,
                decreases entries@.len() - i,
            {
                assert(ev.take(i + 1).drop_last() =~= ev.take(i as int));
                assert(ev.take(i + 1).last() == ev[i as int]);
                let key = &entries[i].0;
                let value = &entries[i].1;
                if !drops_exec(rule, ctx, node_preserves, Ghost(node), key, value) {
                    let child_ctx = child_context_exec(rule, ctx, key);
                    let c = prune_json(rule, child_ctx, value);
                    out.push((key.clone(), c));
                    proof {
                        kept = kept.push((key@, prune(rule, child_ctx, value@)));
                    }
                }
                i += 1;
            }
            assert(ev.take(entries@.len() as int) =~= ev);
            proof { crate::json::lemma_object_view(out, kept); }
            Json::Object(out)
        },
    }
}

} // verus!
