//! Rewriting shared-style references to the keys of the `styles` map.

use vstd::prelude::*;
use crate::error::FigError;
use crate::json::{
    Json, JsonView, JsonNumber, EntryView, get_field, json_as_u64, field, entries_view, key_position, lemma_key_position,
    lemma_field_first, lemma_field_absent, well_formed, key_before, find_field, lemma_object_entries_view,
    lemma_array_view, lemma_view_array_index,
};
use crate::text::{guid_text, format_guid_text};
use super::prune::key_is;

verus! {

/// `Value::as_u64` on an optional value.
pub open spec fn field_u64(v: Option<JsonView>) -> Option<u64> {
    match v {
        Some(x) => json_as_u64(x),
        None => None,
    }
}

/// The `"<sessionID>:<localID>"` key of a guid object, when both ids are
/// unsigned integers.
pub open spec fn guid_key_text(g: JsonView) -> Option<Seq<char>> {
    match g {
        JsonView::Object(o) => match (field_u64(field(o, "localID"@)), field_u64(field(o, "sessionID"@))) {
            (Some(l), Some(s)) => Some(guid_text(s, l)),
            _ => None,
        },
        _ => None,
    }
}

/// Formats a guid object as `"<sessionID>:<localID>"`.
pub fn guid_key_exec(g: &Json) -> (r: Option<String>)
    ensures
        match r {
            Some(t) => guid_key_text(g@) == Some(t@),
            None => guid_key_text(g@) is None,
        },
{
    match g {
        Json::Object(o) => {
            proof { lemma_object_entries_view(*o); }
            let local = match find_field(o, "localID") {
                Some(v) => v.as_u64(),
                None => None,
            };
            let session = match find_field(o, "sessionID") {
                Some(v) => v.as_u64(),
                None => None,
            };
            match (local, session) {
                (Some(l), Some(s)) => Some(format_guid_text(s, l)),
                _ => None,
            }
        },
        _ => None,
    }
}

/// The keys that hold shared-style references.
pub open spec fn is_style_ref_key(k: Seq<char>) -> bool {
    k == "styleIdForFill"@ || k == "styleIdForText"@ || k == "styleIdForStrokeFill"@
}

/// The compact key of a local style reference `{guid: {...}}`.
pub open spec fn style_ref_text(v: JsonView) -> Option<Seq<char>> {
    match v {
        JsonView::Object(es) => match field(es, "guid"@) {
            Some(g) => guid_key_text(g),
            None => None,
        },
        _ => None,
    }
}

/// The document after `remove_style_ids`.
pub open spec fn normalize_style_refs(j: JsonView) -> JsonView
    decreases j,
{
    match j {
        JsonView::Array(items) => JsonView::Array(
            Seq::new(
                items.len(),
                |i: int|
                    if 0 <= i < items.len() {
                        normalize_style_refs(items[i])
                    } else {
                        JsonView::Null
                    },
            ),
        ),
        JsonView::Object(es) => JsonView::Object(
            Seq::new(
                es.len(),
                |i: int|
                    if 0 <= i < es.len() {
                        (
                            es[i].0,
                            if is_style_ref_key(es[i].0) && style_ref_text(es[i].1) is Some {
                                JsonView::Str(style_ref_text(es[i].1)->0)
                            } else {
                                normalize_style_refs(es[i].1)
                            },
                        )
                    } else {
                        (Seq::empty(), JsonView::Null)
                    },
            ),
        ),
        _ => j,
    }
}

fn is_style_ref_key_exec(k: &String) -> (r: bool)
    ensures
        r == is_style_ref_key(k@),
{
    key_is(k, "styleIdForFill") || key_is(k, "styleIdForText") || key_is(k, "styleIdForStrokeFill")
}

fn style_ref_text_exec(v: &Json) -> (r: Option<String>)
    ensures
        match r {
            Some(t) => style_ref_text(v@) == Some(t@),
            None => style_ref_text(v@) is None,
        },
{
    match v {
        Json::Object(es) => {
            proof { lemma_object_entries_view(*es); }
            match find_field(es, "guid") {
                Some(g) => guid_key_exec(g),
                None => None,
            }
        },
        _ => None,
    }
}

#[verifier::loop_isolation(false)]
fn normalize_style_refs_json(v: &Json) -> (r: Json)
    ensures
        r@ == normalize_style_refs(v@),
    decreases v,
{
    broadcast use vstd::std_specs::vec::axiom_vec_index_decreases;

    match v {
        Json::Array(items) => {
            let ghost iv = Json::Array(*items)@->Array_0;
            let mut out: Vec<Json> = Vec::new();
            let mut i: usize = 0;
            while i < items.len()
                invariant
                    i <= items@.len(),
                    iv == Json::Array(*items)@->Array_0,
                    iv.len() == items@.len(),
                    out@.len() == i,
                    forall|k: int| 0 <= k < i ==> #[trigger] out@[k]@ == normalize_style_refs(iv[k]),
                decreases items@.len() - i,
            {
                proof { lemma_view_array_index(*items, i as int); }
                let c = normalize_style_refs_json(&items[i]);
                out.push(c);
                i += 1;
            }
            proof { lemma_array_view(out, normalize_style_refs(v@)->Array_0); }
            Json::Array(out)
        },
        Json::Object(entries) => {
            proof { lemma_object_entries_view(*entries); }
            let ghost ev = entries_view(entries@);
            let ghost target = normalize_style_refs(v@)->Object_0;
            let mut out: Vec<(String, Json)> = Vec::new();
            let mut i: usize = 0;
            while i < entries.len()
                invariant
                    i <= entries@.len(),
                    ev == entries_view(entries@),
                    target.len() == ev.len(),
                    out@.len() == i,
                    forall|k: int|
                        0 <= k < i ==> (#[trigger] out@[k]).0@ == target[k].0 && out@[k].1@
                            == target[k].1,
                decreases entries@.len() - i,
            {
                let key = &entries[i].0;
                let value = &entries[i].1;
                assert(ev[i as int] == (key@, value@));
                let rewritten = if is_style_ref_key_exec(key) {
                    style_ref_text_exec(value)
                } else {
                    None
                };
                let c = match rewritten {
                    Some(t) => Json::Str(t),
                    None => normalize_style_refs_json(value),
                };
                out.push((key.clone(), c));
                i += 1;
            }
            proof { crate::json::lemma_object_view(out, target); }
            Json::Object(out)
        },
        Json::Null => Json::Null,
        Json::Bool(b) => Json::Bool(*b),
        Json::Number(n) => Json::Number(*n),
        Json::Str(s) => Json::Str(s.clone()),
    }
}

/// Rewrites local shared-style references (`styleIdForFill`,
/// `styleIdForText`, `styleIdForStrokeFill` holding `{guid: {sessionID,
/// localID}}`) to the string `"<sessionID>:<localID>"`, the key of the style
/// in the `styles` map built by `extract_styles`. Cross-file references
/// (`{assetRef: ...}`) and everything else stay as they are.
pub fn remove_style_ids(tree: &mut Json) -> (r: Result<(), FigError>)
    ensures
        r is Ok,
        final(tree)@ == normalize_style_refs(old(tree)@),
{
    let normalized = normalize_style_refs_json(tree);
    *tree = normalized;
    Ok(())
}

/// A field that is not a style reference comes out of the pass normalized.
proof fn lemma_field_normalized(es: Seq<EntryView>, k: Seq<char>)
    requires
        !is_style_ref_key(k),
    ensures
        field(normalize_style_refs(JsonView::Object(es))->Object_0, k) == match field(es, k) {
            Some(v) => Some(normalize_style_refs(v)),
            None => None,
        },
{
    let n = normalize_style_refs(JsonView::Object(es))->Object_0;
    assert(n.len() == es.len());
    assert forall|m: int| 0 <= m < es.len() implies #[trigger] n[m].0 == es[m].0 by {}
    lemma_key_position(es, k);
    let p = key_position(es, k);
    if p >= 0 {
        assert forall|m: int| 0 <= m < p implies #[trigger] n[m].0 != k by {
            assert(n[m].0 == es[m].0);
        }
        assert(n[p].0 == k);
        lemma_field_first(n, k, p);
    } else {
        assert forall|m: int| 0 <= m < n.len() implies #[trigger] n[m].0 != k by {
            assert(n[m].0 == es[m].0);
        }
        lemma_field_absent(n, k);
    }
}

proof fn lemma_guid_keys_not_refs()
    ensures
        !is_style_ref_key("guid"@),
        !is_style_ref_key("localID"@),
        !is_style_ref_key("sessionID"@),
{
    reveal_strlit("guid");
    reveal_strlit("localID");
    reveal_strlit("sessionID");
    reveal_strlit("styleIdForFill");
    reveal_strlit("styleIdForText");
    reveal_strlit("styleIdForStrokeFill");
    assert("guid"@.len() != "styleIdForFill"@.len());
    assert("guid"@.len() != "styleIdForText"@.len());
    assert("guid"@.len() != "styleIdForStrokeFill"@.len());
    assert("localID"@.len() != "styleIdForFill"@.len());
    assert("localID"@.len() != "styleIdForText"@.len());
    assert("localID"@.len() != "styleIdForStrokeFill"@.len());
    assert("sessionID"@.len() != "styleIdForFill"@.len());
    assert("sessionID"@.len() != "styleIdForText"@.len());
    assert("sessionID"@.len() != "styleIdForStrokeFill"@.len());
}

/// Normalizing a value does not change the reference text it gives.
proof fn lemma_style_ref_text_normalized(v: JsonView)
    ensures
        style_ref_text(normalize_style_refs(v)) == style_ref_text(v),
{
    lemma_guid_keys_not_refs();
    if let JsonView::Object(es) = v {
        lemma_field_normalized(es, "guid"@);
        if let Some(g) = field(es, "guid"@) {
            if let JsonView::Object(go) = g {
                lemma_field_normalized(go, "localID"@);
                lemma_field_normalized(go, "sessionID"@);
            }
        }
    }
}

/// `remove_style_ids` is idempotent: once the references are rewritten,
/// a second pass changes nothing.
pub proof fn lemma_remove_style_ids_idempotent(j: JsonView)
    ensures
        normalize_style_refs(normalize_style_refs(j)) == normalize_style_refs(j),
    decreases j,
{
    match j {
        JsonView::Array(items) => {
            let n = normalize_style_refs(j)->Array_0;
            assert forall|i: int| 0 <= i < items.len() implies normalize_style_refs(#[trigger] n[i])
                == n[i] by {
                lemma_remove_style_ids_idempotent(items[i]);
            }
            assert(normalize_style_refs(normalize_style_refs(j))->Array_0 =~= n);
        },
        JsonView::Object(es) => {
            let n = normalize_style_refs(j)->Object_0;
            let nn = normalize_style_refs(JsonView::Object(n))->Object_0;
            assert(n.len() == es.len() && nn.len() == n.len());
            assert forall|i: int| 0 <= i < es.len() implies #[trigger] nn[i] == n[i] by {
                let (k, v) = es[i];
                assert(n[i].0 == k);
                if is_style_ref_key(k) && style_ref_text(v) is Some {
                    assert(n[i].1 == JsonView::Str(style_ref_text(v)->0));
                    assert(style_ref_text(n[i].1) is None);
                    assert(normalize_style_refs(n[i].1) == n[i].1);
                } else {
                    lemma_remove_style_ids_idempotent(v);
                    lemma_style_ref_text_normalized(v);
                    assert(n[i].1 == normalize_style_refs(v));
                }
            }
            assert(nn =~= n);
        },
        _ => {},
    }
}

/// `remove_style_ids` keeps a well-formed document well-formed.
pub proof fn lemma_remove_style_ids_keeps_well_formed(j: JsonView)
    requires
        well_formed(j),
    ensures
        well_formed(normalize_style_refs(j)),
    decreases j,
{
    match j {
        JsonView::Array(items) => {
            let n = normalize_style_refs(j)->Array_0;
            assert forall|i: int| 0 <= i < n.len() implies well_formed(#[trigger] n[i]) by {
                lemma_remove_style_ids_keeps_well_formed(items[i]);
            }
        },
        JsonView::Object(es) => {
            let n = normalize_style_refs(j)->Object_0;
            assert forall|i: int, k: int| 0 <= i < k < n.len() implies key_before(#[trigger] n[i].0, #[trigger] n[k].0) by {
                assert(n[i].0 == es[i].0 && n[k].0 == es[k].0);
            }
            assert forall|i: int| 0 <= i < n.len() implies well_formed(#[trigger] n[i].1) by {
                assert(well_formed(es[i].1));
                lemma_remove_style_ids_keeps_well_formed(es[i].1);
            }
        },
        _ => {},
    }
}

/// `v` is a local style reference: its `guid` holds unsigned `localID`
/// and `sessionID`.
pub open spec fn is_local_reference(v: JsonView) -> bool {
    get_field(v, "guid"@) matches Some(g) && (get_field(g, "localID"@) matches Some(l) && json_as_u64(l)
        is Some) && (get_field(g, "sessionID"@) matches Some(s) && json_as_u64(s) is Some)
}

/// No `styleIdForFill`, `styleIdForText` or `styleIdForStrokeFill` anywhere
/// in the document holds a local style reference.
pub open spec fn references_resolved(j: JsonView) -> bool
    decreases j,
{
    match j {
        JsonView::Array(items) => forall|i: int|
            0 <= i < items.len() ==> references_resolved(#[trigger] items[i]),
        JsonView::Object(es) => forall|i: int|
            0 <= i < es.len() ==> ((es[i].0 == "styleIdForFill"@ || es[i].0 == "styleIdForText"@
                || es[i].0 == "styleIdForStrokeFill"@) ==> !is_local_reference(#[trigger] es[i].1))
                && references_resolved(es[i].1),
        _ => true,
    }
}

proof fn lemma_local_reference_text(v: JsonView)
    ensures
        is_local_reference(v) <==> style_ref_text(v) is Some,
{
}

/// After `remove_style_ids` every local style reference, wherever it is,
/// has been rewritten.
pub proof fn lemma_local_references_rewritten(j: JsonView)
    ensures
        references_resolved(normalize_style_refs(j)),
    decreases j,
{
    match j {
        JsonView::Array(items) => {
            let n = normalize_style_refs(j)->Array_0;
            assert forall|i: int| 0 <= i < n.len() implies references_resolved(#[trigger] n[i]) by {
                lemma_local_references_rewritten(items[i]);
            }
        },
        JsonView::Object(es) => {
            let n = normalize_style_refs(j)->Object_0;
            assert forall|i: int| 0 <= i < n.len() implies ((n[i].0 == "styleIdForFill"@ || n[i].0
                == "styleIdForText"@ || n[i].0 == "styleIdForStrokeFill"@) ==> !is_local_reference(
                #[trigger] n[i].1,
            )) && references_resolved(n[i].1) by {
                let (k, v) = es[i];
                lemma_local_reference_text(n[i].1);
                if is_style_ref_key(k) && style_ref_text(v) is Some {
                    assert(n[i].1 == JsonView::Str(style_ref_text(v)->0));
                } else {
                    lemma_local_references_rewritten(v);
                    lemma_style_ref_text_normalized(v);
                    assert(n[i].1 == normalize_style_refs(v));
                }
            }
        },
        _ => {},
    }
}

/// A local reference under `styleIdForFill`, `styleIdForText` or
/// `styleIdForStrokeFill` becomes the string `"<sessionID>:<localID>"`.
pub proof fn lemma_local_reference_becomes_key(j: JsonView, k: Seq<char>, s: u64, l: u64)
    requires
        j is Object,
        k == "styleIdForFill"@ || k == "styleIdForText"@ || k == "styleIdForStrokeFill"@,
        get_field(j, k) matches Some(v) && (get_field(v, "guid"@) matches Some(g) && get_field(
            g,
            "localID"@,
        ) == Some(JsonView::Number(JsonNumber::PosInt(l))) && get_field(g, "sessionID"@) == Some(
            JsonView::Number(JsonNumber::PosInt(s)),
        )),
    ensures
        get_field(normalize_style_refs(j), k) == Some(JsonView::Str(guid_text(s, l))),
{
    let es = j->Object_0;
    let n = normalize_style_refs(j)->Object_0;
    lemma_key_position(es, k);
    let p = key_position(es, k);
    assert(n[p] == (k, JsonView::Str(guid_text(s, l))));
    assert forall|m: int| 0 <= m < p implies #[trigger] n[m].0 != k by {
        assert(n[m].0 == es[m].0);
    }
    lemma_field_first(n, k, p);
}

} // verus!
