//! What every pruning pass guarantees.

use vstd::prelude::*;
use crate::json::{
    JsonView, EntryView, well_formed, keys_sorted, key_before, field, get_field, lemma_field_push,
};
use super::prune::{
    PruneRule, prune, prune_entries, drops, child_context, is_geometry_key, exports_image,
    has_image_export, preserves_geometry,
};

verus! {

/// The rules whose context, once set, protects a whole subtree.
pub open spec fn has_protected_context(rule: PruneRule) -> bool {
    match rule {
        PruneRule::Geometry | PruneRule::GuidPaths | PruneRule::Guids | PruneRule::NodeType
        | PruneRule::SymbolIds => true,
        _ => false,
    }
}

/// Inside a protected subtree (below `derivedSymbolData` for geometry,
/// `symbolOverrides` for guid paths, the component masters for guids, paint
/// lists for node types, `symbolData` for symbol ids) a pass changes
/// nothing.
pub proof fn lemma_protected_subtree_unchanged(rule: PruneRule, j: JsonView)
    requires
        has_protected_context(rule),
    ensures
        prune(rule, true, j) == j,
    decreases j,
{
    match j {
        JsonView::Array(items) => {
            assert forall|i: int| 0 <= i < items.len() implies prune(rule, true, items[i]) == items[i] by {
                lemma_protected_subtree_unchanged(rule, items[i]);
            }
            assert(prune(rule, true, j)->Array_0 =~= items);
        },
        JsonView::Object(es) => {
            lemma_protected_entries_unchanged(rule, j, es);
        },
        _ => {},
    }
}

proof fn lemma_protected_entries_unchanged(rule: PruneRule, node: JsonView, es: Seq<EntryView>)
    requires
        has_protected_context(rule),
    ensures
        prune_entries(rule, true, node, es) == es,
    decreases es,
{
    if es.len() > 0 {
        lemma_protected_entries_unchanged(rule, node, es.drop_last());
        lemma_protected_subtree_unchanged(rule, es.last().1);
        assert(es.drop_last().push(es.last()) =~= es);
    }
}

/// Each kept entry comes from an entry of `es` with the same key.
pub proof fn lemma_kept_entries_origin(rule: PruneRule, ctx: bool, node: JsonView, es: Seq<EntryView>)
    ensures
        forall|k: int|
            0 <= k < prune_entries(rule, ctx, node, es).len() ==> exists|i: int|
                0 <= i < es.len() && !drops(rule, ctx, node, es[i].0, es[i].1)
                    && #[trigger] prune_entries(rule, ctx, node, es)[k] == (
                    es[i].0,
                    prune(rule, child_context(rule, ctx, es[i].0), es[i].1),
                ),
    decreases es.len(),
{
    if es.len() > 0 {
        let d = es.drop_last();
        lemma_kept_entries_origin(rule, ctx, node, d);
        let kept = prune_entries(rule, ctx, node, d);
        let r = prune_entries(rule, ctx, node, es);
        assert forall|k: int| 0 <= k < r.len() implies exists|i: int|
            0 <= i < es.len() && !drops(rule, ctx, node, es[i].0, es[i].1) && #[trigger] r[k] == (
                es[i].0,
                prune(rule, child_context(rule, ctx, es[i].0), es[i].1),
            ) by {
            if k < kept.len() {
                assert(r[k] == kept[k]);
                let i = choose|i: int|
                    0 <= i < d.len() && !drops(rule, ctx, node, d[i].0, d[i].1) && #[trigger] kept[k] == (
                        d[i].0,
                        prune(rule, child_context(rule, ctx, d[i].0), d[i].1),
                    );
                assert(d[i] == es[i]);
            } else {
                assert(r[k] == (es[es.len() - 1].0, prune(rule, child_context(rule, ctx, es[es.len() - 1].0), es[es.len() - 1].1)));
            }
        }
    }
}

proof fn lemma_kept_keys_sorted(rule: PruneRule, ctx: bool, node: JsonView, es: Seq<EntryView>)
    requires
        keys_sorted(es),
    ensures
        keys_sorted(prune_entries(rule, ctx, node, es)),
    decreases es.len(),
{
    if es.len() > 0 {
        let d = es.drop_last();
        assert(keys_sorted(d)) by {
            assert forall|i: int, k: int| 0 <= i < k < d.len() implies key_before(#[trigger] d[i].0, #[trigger] d[k].0) by {
                assert(d[i] == es[i] && d[k] == es[k]);
            }
        }
        lemma_kept_keys_sorted(rule, ctx, node, d);
        lemma_kept_entries_origin(rule, ctx, node, d);
        let kept = prune_entries(rule, ctx, node, d);
        let r = prune_entries(rule, ctx, node, es);
        let last = es.len() - 1;
        assert forall|i: int, k: int| 0 <= i < k < r.len() implies key_before(#[trigger] r[i].0, #[trigger] r[k].0) by {
            if k < kept.len() {
                assert(r[i] == kept[i] && r[k] == kept[k]);
            } else {
                let a = choose|a: int|
                    0 <= a < d.len() && !drops(rule, ctx, node, d[a].0, d[a].1) && #[trigger] kept[i] == (
                        d[a].0,
                        prune(rule, child_context(rule, ctx, d[a].0), d[a].1),
                    );
                assert(r[i] == kept[i]);
                assert(d[a] == es[a]);
                assert(r[k].0 == es[last].0);
            }
        }
    }
}

/// A pass keeps every object's keys sorted and distinct: the result of a
/// pass over a well-formed document is well-formed.
pub proof fn lemma_prune_keeps_well_formed(rule: PruneRule, ctx: bool, j: JsonView)
    requires
        well_formed(j),
    ensures
        well_formed(prune(rule, ctx, j)),
    decreases j,
{
    match j {
        JsonView::Array(items) => {
            let r = prune(rule, ctx, j)->Array_0;
            assert forall|i: int| 0 <= i < r.len() implies well_formed(#[trigger] r[i]) by {
                lemma_prune_keeps_well_formed(rule, ctx, items[i]);
            }
        },
        JsonView::Object(es) => {
            lemma_kept_keys_sorted(rule, ctx, j, es);
            lemma_kept_entries_origin(rule, ctx, j, es);
            let r = prune_entries(rule, ctx, j, es);
            assert forall|k: int| 0 <= k < r.len() implies well_formed(#[trigger] r[k].1) by {
                let i = choose|i: int|
                    0 <= i < es.len() && !drops(rule, ctx, j, es[i].0, es[i].1) && #[trigger] r[k] == (
                        es[i].0,
                        prune(rule, child_context(rule, ctx, es[i].0), es[i].1),
                    );
                lemma_prune_keeps_well_formed(rule, child_context(rule, ctx, es[i].0), es[i].1);
            }
        },
        _ => {},
    }
}

/// A key that the pass never drops at `node` keeps its field, with the
/// value pruned in the key's context.
pub proof fn lemma_field_pruned(rule: PruneRule, ctx: bool, node: JsonView, es: Seq<EntryView>, k: Seq<char>)
    requires
        forall|v: JsonView| !#[trigger] drops(rule, ctx, node, k, v),
    ensures
        field(prune_entries(rule, ctx, node, es), k) == match field(es, k) {
            Some(v) => Some(prune(rule, child_context(rule, ctx, k), v)),
            None => None,
        },
    decreases es.len(),
{
    if es.len() > 0 {
        let d = es.drop_last();
        let e = es.last();
        lemma_field_pruned(rule, ctx, node, d, k);
        assert(es =~= d.push(e));
        lemma_field_push(d, e, k);
        if drops(rule, ctx, node, e.0, e.1) {
            assert(e.0 != k);
        } else {
            lemma_field_push(
                prune_entries(rule, ctx, node, d),
                (e.0, prune(rule, child_context(rule, ctx, e.0), e.1)),
                k,
            );
        }
    }
}

/// A key whose every entry the pass drops at `node` is gone from the
/// result.
pub proof fn lemma_field_dropped(rule: PruneRule, ctx: bool, node: JsonView, es: Seq<EntryView>, k: Seq<char>)
    requires
        forall|i: int| 0 <= i < es.len() && es[i].0 == k ==> drops(rule, ctx, node, k, #[trigger] es[i].1),
    ensures
        field(prune_entries(rule, ctx, node, es), k) is None,
{
    lemma_kept_entries_origin(rule, ctx, node, es);
    let r = prune_entries(rule, ctx, node, es);
    assert forall|m: int| 0 <= m < r.len() implies #[trigger] r[m].0 != k by {
        let i = choose|i: int|
            0 <= i < es.len() && !drops(rule, ctx, node, es[i].0, es[i].1) && #[trigger] r[m] == (
                es[i].0,
                prune(rule, child_context(rule, ctx, es[i].0), es[i].1),
            );
        if es[i].0 == k {
            assert(drops(rule, ctx, node, k, es[i].1));
        }
    }
    crate::json::lemma_field_absent(r, k);
}

/// A key whose every entry the pass keeps at `node` keeps its field, with
/// the value pruned in the key's context.
pub proof fn lemma_field_kept(rule: PruneRule, ctx: bool, node: JsonView, es: Seq<EntryView>, k: Seq<char>)
    requires
        forall|i: int| 0 <= i < es.len() && es[i].0 == k ==> !drops(rule, ctx, node, k, #[trigger] es[i].1),
    ensures
        field(prune_entries(rule, ctx, node, es), k) == match field(es, k) {
            Some(v) => Some(prune(rule, child_context(rule, ctx, k), v)),
            None => None,
        },
    decreases es.len(),
{
    if es.len() > 0 {
        let d = es.drop_last();
        let e = es.last();
        assert forall|i: int| 0 <= i < d.len() && d[i].0 == k implies !drops(rule, ctx, node, k, #[trigger] d[i].1) by {
            assert(d[i] == es[i]);
        }
        lemma_field_kept(rule, ctx, node, d, k);
        assert(es =~= d.push(e));
        lemma_field_push(d, e, k);
        if drops(rule, ctx, node, e.0, e.1) {
            assert(es[es.len() - 1] == e);
            assert(e.0 != k);
        } else {
            lemma_field_push(
                prune_entries(rule, ctx, node, d),
                (e.0, prune(rule, child_context(rule, ctx, e.0), e.1)),
                k,
            );
        }
    }
}

proof fn lemma_geometry_flag_keys()
    ensures
        !is_geometry_key("name"@),
        !is_geometry_key("symbolData"@),
        !is_geometry_key("symbolOverrides"@),
        !is_geometry_key("exportSettings"@),
        !is_geometry_key("imageType"@),
        "symbolData"@ != "derivedSymbolData"@,
        "symbolOverrides"@ != "derivedSymbolData"@,
        "exportSettings"@ != "derivedSymbolData"@,
        "imageType"@ != "derivedSymbolData"@,
        "name"@ != "derivedSymbolData"@,
{
    reveal_strlit("name");
    reveal_strlit("symbolData");
    reveal_strlit("symbolOverrides");
    reveal_strlit("exportSettings");
    reveal_strlit("imageType");
    reveal_strlit("derivedSymbolData");
    reveal_strlit("fillGeometry");
    reveal_strlit("strokeGeometry");
    reveal_strlit("windingRule");
    reveal_strlit("styleID");
    assert("exportSettings"@[0] != "strokeGeometry"@[0]);
    assert("symbolOverrides"@.len() != "fillGeometry"@.len());
    assert("symbolOverrides"@.len() != "strokeGeometry"@.len());
    assert("symbolOverrides"@.len() != "windingRule"@.len());
    assert("symbolOverrides"@.len() != "styleID"@.len());
    assert("symbolData"@.len() != "fillGeometry"@.len());
    assert("symbolData"@.len() != "strokeGeometry"@.len());
    assert("symbolData"@.len() != "windingRule"@.len());
    assert("symbolData"@.len() != "styleID"@.len());
    assert("name"@.len() != "fillGeometry"@.len());
    assert("name"@.len() != "strokeGeometry"@.len());
    assert("name"@.len() != "windingRule"@.len());
    assert("name"@.len() != "styleID"@.len());
    assert("imageType"@.len() != "fillGeometry"@.len());
    assert("imageType"@.len() != "strokeGeometry"@.len());
    assert("imageType"@.len() != "windingRule"@.len());
    assert("imageType"@.len() != "styleID"@.len());
    assert("exportSettings"@.len() != "fillGeometry"@.len());
    assert("exportSettings"@.len() != "windingRule"@.len());
    assert("exportSettings"@.len() != "styleID"@.len());
    assert("symbolData"@.len() != "derivedSymbolData"@.len());
    assert("symbolOverrides"@.len() != "derivedSymbolData"@.len());
    assert("exportSettings"@.len() != "derivedSymbolData"@.len());
    assert("imageType"@.len() != "derivedSymbolData"@.len());
    assert("name"@.len() != "derivedSymbolData"@.len());
}

/// The field `k` of `v` after the geometry pass, for a key the pass keeps.
proof fn lemma_geometry_field(v: JsonView, k: Seq<char>)
    requires
        !is_geometry_key(k),
        k != "derivedSymbolData"@,
    ensures
        get_field(prune(PruneRule::Geometry, false, v), k) == match get_field(v, k) {
            Some(x) => Some(prune(PruneRule::Geometry, false, x)),
            None => None,
        },
{
    if let JsonView::Object(es) = v {
        lemma_field_pruned(PruneRule::Geometry, false, v, es, k);
    }
}

proof fn lemma_exports_image_kept(ov: JsonView)
    ensures
        exports_image(prune(PruneRule::Geometry, false, ov)) == exports_image(ov),
{
    lemma_geometry_flag_keys();
    lemma_geometry_field(ov, "exportSettings"@);
    if let Some(JsonView::Array(settings)) = get_field(ov, "exportSettings"@) {
        let ps = prune(PruneRule::Geometry, false, JsonView::Array(settings))->Array_0;
        assert forall|j: int| 0 <= j < settings.len() implies (get_field(ps[j], "imageType"@) is Some)
            == (get_field(settings[j], "imageType"@) is Some) by {
            lemma_geometry_field(settings[j], "imageType"@);
        }
        if exports_image(ov) {
            let j = choose|j: int| 0 <= j < settings.len() && (#[trigger] get_field(settings[j], "imageType"@)) is Some;
            assert(get_field(ps[j], "imageType"@) is Some);
        }
        if exports_image(prune(PruneRule::Geometry, false, ov)) {
            let j = choose|j: int| 0 <= j < ps.len() && (#[trigger] get_field(ps[j], "imageType"@)) is Some;
            assert(get_field(settings[j], "imageType"@) is Some);
        }
    }
}

/// The geometry pass keeps what decides whether a node is an icon or an
/// image: its name and its image-exporting overrides.
pub proof fn lemma_geometry_keeps_flag(node: JsonView)
    ensures
        preserves_geometry(prune(PruneRule::Geometry, false, node)) == preserves_geometry(node),
{
    lemma_geometry_flag_keys();
    lemma_geometry_field(node, "name"@);
    lemma_geometry_field(node, "symbolData"@);
    if let Some(sd) = get_field(node, "symbolData"@) {
        lemma_geometry_field(sd, "symbolOverrides"@);
        if let Some(JsonView::Array(ovs)) = get_field(sd, "symbolOverrides"@) {
            let po = prune(PruneRule::Geometry, false, JsonView::Array(ovs))->Array_0;
            assert forall|i: int| 0 <= i < ovs.len() implies exports_image(#[trigger] po[i]) == exports_image(ovs[i]) by {
                lemma_exports_image_kept(ovs[i]);
            }
            if has_image_export(node) {
                let i = choose|i: int| 0 <= i < ovs.len() && #[trigger] exports_image(ovs[i]);
                assert(exports_image(po[i]));
            }
            if has_image_export(prune(PruneRule::Geometry, false, node)) {
                let i = choose|i: int| 0 <= i < po.len() && #[trigger] exports_image(po[i]);
                assert(exports_image(ovs[i]));
            }
        }
    }
}

/// The rules that decide from the key (and the context) alone.
pub open spec fn decides_by_key(rule: PruneRule) -> bool {
    match rule {
        PruneRule::FrameProperties | PruneRule::GuidPaths | PruneRule::Guids
        | PruneRule::TextMetadata | PruneRule::NodeType => true,
        _ => false,
    }
}

proof fn lemma_entries_fixed(rule: PruneRule, ctx: bool, node: JsonView, es: Seq<EntryView>)
    requires
        forall|k: int|
            0 <= k < es.len() ==> !drops(rule, ctx, node, #[trigger] es[k].0, es[k].1) && prune(
                rule,
                child_context(rule, ctx, es[k].0),
                es[k].1,
            ) == es[k].1,
    ensures
        prune_entries(rule, ctx, node, es) == es,
    decreases es.len(),
{
    if es.len() > 0 {
        let d = es.drop_last();
        assert forall|k: int| 0 <= k < d.len() implies !drops(rule, ctx, node, #[trigger] d[k].0, d[k].1)
            && prune(rule, child_context(rule, ctx, d[k].0), d[k].1) == d[k].1 by {
            assert(d[k] == es[k]);
        }
        lemma_entries_fixed(rule, ctx, node, d);
        let last = es.len() - 1;
        assert(!drops(rule, ctx, node, es[last].0, es[last].1));
        assert(d.push(es.last()) =~= es);
    }
}

/// A pass whose rule decides by key, and the geometry pass (which keeps
/// what makes a node an icon or an image), removes everything it removes at
/// once: running it again changes nothing.
pub proof fn lemma_prune_idempotent(rule: PruneRule, ctx: bool, j: JsonView)
    requires
        decides_by_key(rule) || rule is Geometry,
    ensures
        prune(rule, ctx, prune(rule, ctx, j)) == prune(rule, ctx, j),
    decreases j,
{
    if rule is Geometry && ctx {
        lemma_protected_subtree_unchanged(rule, j);
        lemma_protected_subtree_unchanged(rule, prune(rule, ctx, j));
    } else {
        if rule is Geometry {
            lemma_geometry_keeps_flag(j);
        }
        match j {
            JsonView::Array(items) => {
                let p = prune(rule, ctx, j)->Array_0;
                assert forall|i: int| 0 <= i < p.len() implies prune(rule, ctx, p[i]) == p[i] by {
                    lemma_prune_idempotent(rule, ctx, items[i]);
                }
                assert(prune(rule, ctx, prune(rule, ctx, j))->Array_0 =~= p);
            },
            JsonView::Object(es) => {
                let p = prune_entries(rule, ctx, j, es);
                lemma_kept_entries_origin(rule, ctx, j, es);
                assert forall|k: int| 0 <= k < p.len() implies !drops(
                    rule,
                    ctx,
                    JsonView::Object(p),
                    #[trigger] p[k].0,
                    p[k].1,
                ) && prune(rule, child_context(rule, ctx, p[k].0), p[k].1) == p[k].1 by {
                    let i = choose|i: int|
                        0 <= i < es.len() && !drops(rule, ctx, j, es[i].0, es[i].1) && #[trigger] p[k] == (
                            es[i].0,
                            prune(rule, child_context(rule, ctx, es[i].0), es[i].1),
                        );
                    lemma_prune_idempotent(rule, child_context(rule, ctx, es[i].0), es[i].1);
                }
                lemma_entries_fixed(rule, ctx, JsonView::Object(p), p);
            },
            _ => {},
        }
    }
}

} // verus!
