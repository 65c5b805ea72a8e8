//! Collecting the published styles into a top-level `styles` map.

use vstd::prelude::*;
use crate::error::FigError;
use crate::json::{
    Json, JsonView, EntryView, field, has_key, set_field, entries_view, find_field, find_key,
    set_entry, lemma_object_entries_view, lemma_view_array_index,
};
use super::style_id_removal::{guid_key_text, guid_key_exec, field_u64, style_ref_text};
use crate::json::{
    get_field, key_position, lemma_key_position, well_formed, keys_sorted, key_before,
    lemma_key_before_transitive, lemma_set_field_sorted, lemma_set_field_entries,
};
use crate::text::lex_le;

verus! {

/// The entry `k: value` when the object has `k`, copied into a style.
pub open spec fn copied_field(es: Seq<EntryView>, k: Seq<char>) -> Seq<EntryView> {
    match field(es, k) {
        Some(v) => seq![(k, v)],
        None => Seq::empty(),
    }
}

/// The rendering-relevant fields of a style node (`name`, `styleType`, the
/// paint and effect lists, and the text style fields), in key order.
pub open spec fn style_entry(es: Seq<EntryView>) -> Seq<EntryView> {
    copied_field(es, "effects"@)
        + copied_field(es, "fillPaints"@)
        + copied_field(es, "fontName"@)
        + copied_field(es, "fontSize"@)
        + copied_field(es, "fontWeight"@)
        + copied_field(es, "leadingTrim"@)
        + copied_field(es, "letterSpacing"@)
        + copied_field(es, "lineHeight"@)
        + copied_field(es, "maxLines"@)
        + copied_field(es, "name"@)
        + copied_field(es, "paragraphIndent"@)
        + copied_field(es, "paragraphSpacing"@)
        + copied_field(es, "strokePaints"@)
        + copied_field(es, "styleType"@)
        + copied_field(es, "textAlignHorizontal"@)
        + copied_field(es, "textAlignVertical"@)
        + copied_field(es, "textAutoResize"@)
        + copied_field(es, "textCase"@)
        + copied_field(es, "textDecoration"@)
        + copied_field(es, "textTruncation"@)
}

/// The style that the node `j` defines, as `(key, style)`: a node with a
/// `styleType` and a readable `guid`.
pub open spec fn style_defined_by(j: JsonView) -> Seq<EntryView> {
    match j {
        JsonView::Object(es) => if has_key(es, "styleType"@) {
            match field(es, "guid"@) {
                Some(g) => match guid_key_text(g) {
                    Some(key) => seq![(key, JsonView::Object(style_entry(es)))],
                    None => Seq::empty(),
                },
                None => Seq::empty(),
            }
        } else {
            Seq::empty()
        },
        _ => Seq::empty(),
    }
}

/// Every style defined in the document, in document order: an object
/// before the values of its entries, entries and array elements in order
/// (for a well-formed document, an object's entries are in key order).
pub open spec fn styles_in(j: JsonView) -> Seq<EntryView>
    decreases j,
{
    match j {
        JsonView::Object(es) => style_defined_by(j) + styles_in_entries(es),
        JsonView::Array(items) => styles_in_items(items),
        _ => Seq::empty(),
    }
}

pub open spec fn styles_in_entries(es: Seq<EntryView>) -> Seq<EntryView>
    decreases es,
{
    if es.len() == 0 {
        Seq::empty()
    } else {
        styles_in_entries(es.drop_last()) + styles_in(es.last().1)
    }
}

pub open spec fn styles_in_items(items: Seq<JsonView>) -> Seq<EntryView>
    decreases items,
{
    if items.len() == 0 {
        Seq::empty()
    } else {
        styles_in_items(items.drop_last()) + styles_in(items.last())
    }
}

/// The map `m` after inserting each found style in turn; a later style
/// with the same key replaces an earlier one.
pub open spec fn insert_styles(m: Seq<EntryView>, found: Seq<EntryView>) -> Seq<EntryView>
    decreases found.len(),
{
    if found.len() == 0 {
        m
    } else {
        let before = insert_styles(m, found.drop_last());
        set_field(before, found.last().0, found.last().1)
    }
}

/// The document after `extract_styles`: an object gains a `styles` entry
/// holding every style defined in it.
pub open spec fn with_styles(j: JsonView) -> JsonView {
    match j {
        JsonView::Object(es) => JsonView::Object(
            set_field(es, "styles"@, JsonView::Object(insert_styles(Seq::empty(), styles_in(j)))),
        ),
        _ => j,
    }
}

pub proof fn lemma_insert_styles_append(m: Seq<EntryView>, a: Seq<EntryView>, b: Seq<EntryView>)
    ensures
        insert_styles(m, a + b) == insert_styles(insert_styles(m, a), b),
    decreases b.len(),
{
    if b.len() == 0 {
        assert(a + b =~= a);
    } else {
        lemma_insert_styles_append(m, a, b.drop_last());
        assert((a + b).drop_last() =~= a + b.drop_last());
        assert((a + b).last() == b.last());
    }
}

fn copy_field(es: &Vec<(String, Json)>, k: &str, entry: &mut Vec<(String, Json)>)
    ensures
        entries_view(final(entry)@) == entries_view(old(entry)@) + copied_field(entries_view(es@), k@),
{
    match find_field(es, k) {
        Some(v) => {
            let ghost before = entries_view(entry@);
            entry.push((k.to_owned(), v.deep_copy()));
            assert(entries_view(entry@) =~= before + seq![(k@, v@)]);
        },
        None => {
            assert(entries_view(entry@) =~= entries_view(entry@) + Seq::<EntryView>::empty());
        },
    }
}

fn style_entry_exec(es: &Vec<(String, Json)>) -> (r: Vec<(String, Json)>)
    ensures
        entries_view(r@) == style_entry(entries_view(es@)),
{
    let mut entry: Vec<(String, Json)> = Vec::new();
    assert(entries_view(entry@) =~= Seq::<EntryView>::empty());
    copy_field(es, "effects", &mut entry);
    copy_field(es, "fillPaints", &mut entry);
    copy_field(es, "fontName", &mut entry);
    copy_field(es, "fontSize", &mut entry);
    copy_field(es, "fontWeight", &mut entry);
    copy_field(es, "leadingTrim", &mut entry);
    copy_field(es, "letterSpacing", &mut entry);
    copy_field(es, "lineHeight", &mut entry);
    copy_field(es, "maxLines", &mut entry);
    copy_field(es, "name", &mut entry);
    copy_field(es, "paragraphIndent", &mut entry);
    copy_field(es, "paragraphSpacing", &mut entry);
    copy_field(es, "strokePaints", &mut entry);
    copy_field(es, "styleType", &mut entry);
    copy_field(es, "textAlignHorizontal", &mut entry);
    copy_field(es, "textAlignVertical", &mut entry);
    copy_field(es, "textAutoResize", &mut entry);
    copy_field(es, "textCase", &mut entry);
    copy_field(es, "textDecoration", &mut entry);
    copy_field(es, "textTruncation", &mut entry);
    assert(entries_view(entry@) =~= style_entry(entries_view(es@)));
    entry
}

/// Adds the styles defined in `v` to `out`.
#[verifier::loop_isolation(false)]
fn collect_styles(v: &Json, out: &mut Vec<(String, Json)>)
    ensures
        entries_view(final(out)@) == insert_styles(entries_view(old(out)@), styles_in(v@)),
    decreases v,
{
    broadcast use vstd::std_specs::vec::axiom_vec_index_decreases;

    let ghost start = entries_view(out@);
    match v {
        Json::Object(entries) => {
            proof { lemma_object_entries_view(*entries); }
            let ghost ev = entries_view(entries@);
            let is_style = find_key(entries, "styleType").is_some();
            proof { crate::json::lemma_key_position(ev, "styleType"@); }
            if is_style {
                let ghost p = crate::json::key_position(ev, "styleType"@);
                assert(ev[p].0 == "styleType"@);
                assert(has_key(ev, "styleType"@));
                match find_field(entries, "guid") {
                    Some(g) => match guid_key_exec(g) {
                        Some(key) => {
                            let entry = style_entry_exec(entries);
                            proof { lemma_object_entries_view(entry); }
                            set_entry(out, key, Json::Object(entry));
                            assert(style_defined_by(v@) == seq![(key@, JsonView::Object(style_entry(ev)))]);
                        },
                        None => {
                            assert(style_defined_by(v@) =~= Seq::<EntryView>::empty());
                        },
                    },
                    None => {
                        assert(style_defined_by(v@) =~= Seq::<EntryView>::empty());
                    },
                }
            } else {
                assert(!has_key(ev, "styleType"@));
            }
            let ghost own = style_defined_by(v@);
            assert(entries_view(out@) == insert_styles(start, own)) by {
                if own.len() == 1 {
                    assert(own.drop_last() =~= Seq::<EntryView>::empty());
                    assert(insert_styles(start, own.drop_last()) == start);
                } else {
                    assert(own.len() == 0);
                }
            }
            let mut i: usize = 0;
            assert(ev.take(0) =~= Seq::<EntryView>::empty());
            while i < entries.len()
                invariant
                    i <= entries@.len(),
                    ev == entries_view(entries@),
                    entries_view(out@) == insert_styles(start, own + styles_in_entries(ev.take(i as int))),
                decreases entries@.len() - i,
            {
                assert(ev.take(i + 1).drop_last() =~= ev.take(i as int));
                assert(ev.take(i + 1).last() == ev[i as int]);
                let ghost done = own + styles_in_entries(ev.take(i as int));
                collect_styles(&entries[i].1, out);
                proof {
                    lemma_insert_styles_append(start, done, styles_in(ev[i as int].1));
                    assert(done + styles_in(ev[i as int].1) =~= own + styles_in_entries(ev.take(i + 1)));
                }
                i += 1;
            }
            assert(ev.take(entries@.len() as int) =~= ev);
        },
        Json::Array(items) => {
            let ghost iv = Json::Array(*items)@->Array_0;
            let mut i: usize = 0;
            assert(iv.take(0) =~= Seq::<JsonView>::empty());
            assert(insert_styles(start, Seq::empty()) == start);
            while i < items.len()
                invariant
                    i <= items@.len(),
                    iv == Json::Array(*items)@->Array_0,
                    iv.len() == items@.len(),
                    entries_view(out@) == insert_styles(start, styles_in_items(iv.take(i as int))),
                decreases items@.len() - i,
            {
                proof { lemma_view_array_index(*items, i as int); }
                assert(iv.take(i + 1).drop_last() =~= iv.take(i as int));
                assert(iv.take(i + 1).last() == iv[i as int]);
                collect_styles(&items[i], out);
                proof {
                    lemma_insert_styles_append(start, styles_in_items(iv.take(i as int)), styles_in(iv[i as int]));
                }
                i += 1;
            }
            assert(iv.take(items@.len() as int) =~= iv);
        },
        _ => {},
    }
}

/// Collects the published styles into a top-level `styles` map keyed by
/// `"<sessionID>:<localID>"`.
///
/// A style is a node with a `styleType` and a guid; its entry copies the
/// rendering-relevant fields (`name`, `styleType`, `fillPaints`,
/// `strokePaints`, `effects` and the text style fields). Styles are
/// collected in document order, a later one replacing an earlier one with
/// the same key. Run on the `{components, document}` wrapper, before the
/// hidden canvas that holds the styles is removed.
pub fn extract_styles(tree: &mut Json) -> (r: Result<(), FigError>)
    ensures
        r is Ok,
        final(tree)@ == with_styles(old(tree)@),
{
    let mut styles: Vec<(String, Json)> = Vec::new();
    assert(entries_view(styles@) =~= Seq::<EntryView>::empty());
    collect_styles(tree, &mut styles);
    proof { lemma_object_entries_view(styles); }
    match tree {
        Json::Object(entries) => {
            proof { lemma_object_entries_view(*entries); }
            set_entry(entries, "styles".to_owned(), Json::Object(styles));
            proof { lemma_object_entries_view(*entries); }
        },
        _ => {},
    }
    Ok(())
}


/// The value of the last entry of `found` with key `k`.
pub open spec fn last_value(found: Seq<EntryView>, k: Seq<char>) -> Option<JsonView>
    decreases found.len(),
{
    if found.len() == 0 {
        None
    } else if found.last().0 == k {
        Some(found.last().1)
    } else {
        last_value(found.drop_last(), k)
    }
}

proof fn lemma_last_value(found: Seq<EntryView>, k: Seq<char>)
    ensures
        last_value(found, k) is Some <==> exists|i: int| 0 <= i < found.len() && #[trigger] found[i].0 == k,
    decreases found.len(),
{
    if found.len() > 0 {
        let t = found.drop_last();
        lemma_last_value(t, k);
        if last_value(t, k) is Some {
            let i = choose|i: int| 0 <= i < t.len() && #[trigger] t[i].0 == k;
            assert(found[i] == t[i]);
        }
        if found.last().0 != k {
            assert forall|i: int| 0 <= i < found.len() && #[trigger] found[i].0 == k implies last_value(t, k) is Some by {
                assert(i < t.len());
                assert(t[i] == found[i]);
            }
        } else {
            assert(found[found.len() - 1].0 == k);
        }
    }
}

proof fn lemma_insert_styles_field(m: Seq<EntryView>, found: Seq<EntryView>, k: Seq<char>)
    ensures
        field(insert_styles(m, found), k) == match last_value(found, k) {
            Some(v) => Some(v),
            None => field(m, k),
        },
    decreases found.len(),
{
    if found.len() > 0 {
        lemma_insert_styles_field(m, found.drop_last(), k);
        crate::json::lemma_field_set_field(
            insert_styles(m, found.drop_last()),
            found.last().0,
            found.last().1,
            k,
        );
    }
}

/// After `extract_styles`, every style found in the document can be looked
/// up in the `styles` map by its `"<sessionID>:<localID>"` key: a key is in
/// the map exactly when some style has it, and it holds the last such style
/// in document order.
pub proof fn lemma_styles_lookup(doc: JsonView, k: Seq<char>)
    requires
        doc is Object,
    ensures
        match get_field(with_styles(doc), "styles"@) {
            Some(JsonView::Object(m)) => {
                &&& field(m, k) == last_value(styles_in(doc), k)
                &&& (field(m, k) is Some <==> exists|i: int|
                    0 <= i < styles_in(doc).len() && #[trigger] styles_in(doc)[i].0 == k)
            },
            _ => false,
        },
{
    let found = styles_in(doc);
    let m = insert_styles(Seq::empty(), found);
    crate::json::lemma_field_set_field(doc->Object_0, "styles"@, JsonView::Object(m), "styles"@);
    lemma_insert_styles_field(Seq::empty(), found, k);
    lemma_last_value(found, k);
}

/// A style reference and a style node whose guids carry the same ids agree
/// on the key: the text that `remove_style_ids` writes in place of the
/// reference is the key under which `extract_styles` files the style.
pub proof fn lemma_reference_matches_style_key(reference: JsonView, node: JsonView, g1: JsonView, g2: JsonView)
    requires
        get_field(reference, "guid"@) == Some(g1),
        get_field(node, "guid"@) == Some(g2),
        node matches JsonView::Object(es) && has_key(es, "styleType"@),
        field_u64(get_field(g1, "localID"@)) is Some,
        field_u64(get_field(g1, "sessionID"@)) is Some,
        g1 is Object,
        g2 is Object,
        field_u64(get_field(g1, "localID"@)) == field_u64(get_field(g2, "localID"@)),
        field_u64(get_field(g1, "sessionID"@)) == field_u64(get_field(g2, "sessionID"@)),
    ensures
        style_ref_text(reference) is Some,
        style_defined_by(node) == seq![(style_ref_text(reference)->0, JsonView::Object(style_entry(node->Object_0)))],
{
}

proof fn lemma_style_keys_ordered()
    ensures
        key_before("effects"@, "fillPaints"@),
        key_before("fillPaints"@, "fontName"@),
        key_before("fontName"@, "fontSize"@),
        key_before("fontSize"@, "fontWeight"@),
        key_before("fontWeight"@, "leadingTrim"@),
        key_before("leadingTrim"@, "letterSpacing"@),
        key_before("letterSpacing"@, "lineHeight"@),
        key_before("lineHeight"@, "maxLines"@),
        key_before("maxLines"@, "name"@),
        key_before("name"@, "paragraphIndent"@),
        key_before("paragraphIndent"@, "paragraphSpacing"@),
        key_before("paragraphSpacing"@, "strokePaints"@),
        key_before("strokePaints"@, "styleType"@),
        key_before("styleType"@, "textAlignHorizontal"@),
        key_before("textAlignHorizontal"@, "textAlignVertical"@),
        key_before("textAlignVertical"@, "textAutoResize"@),
        key_before("textAutoResize"@, "textCase"@),
        key_before("textCase"@, "textDecoration"@),
        key_before("textDecoration"@, "textTruncation"@),
{
    reveal_strlit("effects");
    reveal_strlit("fillPaints");
    reveal_strlit("fontName");
    reveal_strlit("fontSize");
    reveal_strlit("fontWeight");
    reveal_strlit("leadingTrim");
    reveal_strlit("letterSpacing");
    reveal_strlit("lineHeight");
    reveal_strlit("maxLines");
    reveal_strlit("name");
    reveal_strlit("paragraphIndent");
    reveal_strlit("paragraphSpacing");
    reveal_strlit("strokePaints");
    reveal_strlit("styleType");
    reveal_strlit("textAlignHorizontal");
    reveal_strlit("textAlignVertical");
    reveal_strlit("textAutoResize");
    reveal_strlit("textCase");
    reveal_strlit("textDecoration");
    reveal_strlit("textTruncation");
    reveal_with_fuel(lex_le, 11);
}

/// The entry that `copied_field` copies is the object's field.
proof fn lemma_copied_field_entry(es: Seq<EntryView>, k: Seq<char>)
    ensures
        forall|i: int|
            0 <= i < copied_field(es, k).len() ==> (#[trigger] copied_field(es, k)[i]).0 == k
                && es.contains(copied_field(es, k)[i]),
{
    lemma_key_position(es, k);
    if field(es, k) is Some {
        let p = key_position(es, k);
        assert(copied_field(es, k)[0] == es[p]);
    }
}

proof fn lemma_copy_step(prefix: Seq<EntryView>, es: Seq<EntryView>, bound: Seq<char>, k: Seq<char>)
    requires
        keys_sorted(prefix),
        forall|i: int|
            0 <= i < prefix.len() ==> ((#[trigger] prefix[i]).0 == bound || key_before(prefix[i].0, bound))
                && es.contains(prefix[i]),
        key_before(bound, k),
    ensures
        keys_sorted(prefix + copied_field(es, k)),
        forall|i: int|
            0 <= i < (prefix + copied_field(es, k)).len() ==> ((#[trigger] (prefix + copied_field(es, k))[i]).0
                == k || key_before((prefix + copied_field(es, k))[i].0, k)) && es.contains(
                (prefix + copied_field(es, k))[i],
            ),
{
    let c = copied_field(es, k);
    let r = prefix + c;
    lemma_copied_field_entry(es, k);
    assert forall|i: int| 0 <= i < prefix.len() implies key_before(#[trigger] prefix[i].0, k) by {
        if prefix[i].0 != bound {
            lemma_key_before_transitive(prefix[i].0, bound, k);
        }
    }
    assert forall|i: int, m: int| 0 <= i < m < r.len() implies key_before(#[trigger] r[i].0, #[trigger] r[m].0) by {
        if m < prefix.len() {
            assert(r[i] == prefix[i] && r[m] == prefix[m]);
        } else {
            assert(r[m] == c[m - prefix.len()]);
            assert(i < prefix.len());
            assert(r[i] == prefix[i]);
        }
    }
    assert forall|i: int| 0 <= i < r.len() implies ((#[trigger] r[i]).0 == k || key_before(r[i].0, k)) && es.contains(r[i]) by {
        if i < prefix.len() {
            assert(r[i] == prefix[i]);
        } else {
            assert(r[i] == c[i - prefix.len()]);
        }
    }
}

/// A style copies fields of its node, under keys in sorted order.
proof fn lemma_style_entry_well_formed(es: Seq<EntryView>)
    requires
        forall|i: int| 0 <= i < es.len() ==> well_formed(#[trigger] es[i].1),
    ensures
        well_formed(JsonView::Object(style_entry(es))),
{
    lemma_style_keys_ordered();
    let p0 = copied_field(es, "effects"@);
    assert forall|i: int| 0 <= i < p0.len() implies (#[trigger] p0[i]).0 == "effects"@ && es.contains(p0[i]) by {
        lemma_copied_field_entry(es, "effects"@);
    }
    lemma_copy_step(p0, es, "effects"@, "fillPaints"@);
    let p1 = p0 + copied_field(es, "fillPaints"@);
    lemma_copy_step(p1, es, "fillPaints"@, "fontName"@);
    let p2 = p1 + copied_field(es, "fontName"@);
    lemma_copy_step(p2, es, "fontName"@, "fontSize"@);
    let p3 = p2 + copied_field(es, "fontSize"@);
    lemma_copy_step(p3, es, "fontSize"@, "fontWeight"@);
    let p4 = p3 + copied_field(es, "fontWeight"@);
    lemma_copy_step(p4, es, "fontWeight"@, "leadingTrim"@);
    let p5 = p4 + copied_field(es, "leadingTrim"@);
    lemma_copy_step(p5, es, "leadingTrim"@, "letterSpacing"@);
    let p6 = p5 + copied_field(es, "letterSpacing"@);
    lemma_copy_step(p6, es, "letterSpacing"@, "lineHeight"@);
    let p7 = p6 + copied_field(es, "lineHeight"@);
    lemma_copy_step(p7, es, "lineHeight"@, "maxLines"@);
    let p8 = p7 + copied_field(es, "maxLines"@);
    lemma_copy_step(p8, es, "maxLines"@, "name"@);
    let p9 = p8 + copied_field(es, "name"@);
    lemma_copy_step(p9, es, "name"@, "paragraphIndent"@);
    let p10 = p9 + copied_field(es, "paragraphIndent"@);
    lemma_copy_step(p10, es, "paragraphIndent"@, "paragraphSpacing"@);
    let p11 = p10 + copied_field(es, "paragraphSpacing"@);
    lemma_copy_step(p11, es, "paragraphSpacing"@, "strokePaints"@);
    let p12 = p11 + copied_field(es, "strokePaints"@);
    lemma_copy_step(p12, es, "strokePaints"@, "styleType"@);
    let p13 = p12 + copied_field(es, "styleType"@);
    lemma_copy_step(p13, es, "styleType"@, "textAlignHorizontal"@);
    let p14 = p13 + copied_field(es, "textAlignHorizontal"@);
    lemma_copy_step(p14, es, "textAlignHorizontal"@, "textAlignVertical"@);
    let p15 = p14 + copied_field(es, "textAlignVertical"@);
    lemma_copy_step(p15, es, "textAlignVertical"@, "textAutoResize"@);
    let p16 = p15 + copied_field(es, "textAutoResize"@);
    lemma_copy_step(p16, es, "textAutoResize"@, "textCase"@);
    let p17 = p16 + copied_field(es, "textCase"@);
    lemma_copy_step(p17, es, "textCase"@, "textDecoration"@);
    let p18 = p17 + copied_field(es, "textDecoration"@);
    lemma_copy_step(p18, es, "textDecoration"@, "textTruncation"@);
    let p19 = p18 + copied_field(es, "textTruncation"@);
    assert(style_entry(es) == p19);
    assert forall|i: int| 0 <= i < p19.len() implies well_formed(#[trigger] p19[i].1) by {
        let j = choose|j: int| 0 <= j < es.len() && es[j] == p19[i];
    }
}

proof fn lemma_concat_values_well_formed(a: Seq<EntryView>, b: Seq<EntryView>)
    requires
        forall|i: int| 0 <= i < a.len() ==> well_formed(#[trigger] a[i].1),
        forall|i: int| 0 <= i < b.len() ==> well_formed(#[trigger] b[i].1),
    ensures
        forall|i: int| 0 <= i < (a + b).len() ==> well_formed(#[trigger] (a + b)[i].1),
{
    assert forall|i: int| 0 <= i < (a + b).len() implies well_formed(#[trigger] (a + b)[i].1) by {
        if i < a.len() {
            assert((a + b)[i] == a[i]);
        } else {
            assert((a + b)[i] == b[i - a.len()]);
        }
    }
}

proof fn lemma_styles_in_well_formed(j: JsonView)
    requires
        well_formed(j),
    ensures
        forall|i: int| 0 <= i < styles_in(j).len() ==> well_formed(#[trigger] styles_in(j)[i].1),
    decreases j,
{
    match j {
        JsonView::Object(es) => {
            let own = style_defined_by(j);
            assert(forall|i: int| 0 <= i < es.len() ==> well_formed(#[trigger] es[i].1));
            if own.len() > 0 {
                lemma_style_entry_well_formed(es);
                assert(own[0].1 == JsonView::Object(style_entry(es)));
            }
            assert(forall|i: int| 0 <= i < own.len() ==> well_formed(#[trigger] own[i].1));
            lemma_styles_in_entries_well_formed(es);
            lemma_concat_values_well_formed(own, styles_in_entries(es));
            assert(styles_in(j) == own + styles_in_entries(es));
        },
        JsonView::Array(items) => {
            lemma_styles_in_items_well_formed(items);
            assert(styles_in(j) == styles_in_items(items));
        },
        _ => {},
    }
}

proof fn lemma_styles_in_entries_well_formed(es: Seq<EntryView>)
    requires
        forall|i: int| 0 <= i < es.len() ==> well_formed(#[trigger] es[i].1),
    ensures
        forall|i: int|
            0 <= i < styles_in_entries(es).len() ==> well_formed(#[trigger] styles_in_entries(es)[i].1),
    decreases es,
{
    if es.len() > 0 {
        let d = es.drop_last();
        assert forall|i: int| 0 <= i < d.len() implies well_formed(#[trigger] d[i].1) by {
            assert(d[i] == es[i]);
        }
        lemma_styles_in_entries_well_formed(d);
        assert(well_formed(es[es.len() - 1].1));
        lemma_styles_in_well_formed(es.last().1);
        lemma_concat_values_well_formed(styles_in_entries(d), styles_in(es.last().1));
    }
}

proof fn lemma_styles_in_items_well_formed(items: Seq<JsonView>)
    requires
        forall|i: int| 0 <= i < items.len() ==> well_formed(#[trigger] items[i]),
    ensures
        forall|i: int|
            0 <= i < styles_in_items(items).len() ==> well_formed(#[trigger] styles_in_items(items)[i].1),
    decreases items,
{
    if items.len() > 0 {
        let d = items.drop_last();
        assert forall|i: int| 0 <= i < d.len() implies well_formed(#[trigger] d[i]) by {
            assert(d[i] == items[i]);
        }
        lemma_styles_in_items_well_formed(d);
        assert(well_formed(items[items.len() - 1]));
        lemma_styles_in_well_formed(items.last());
        lemma_concat_values_well_formed(styles_in_items(d), styles_in(items.last()));
    }
}

proof fn lemma_insert_styles_well_formed(m: Seq<EntryView>, found: Seq<EntryView>)
    requires
        keys_sorted(m),
        forall|i: int| 0 <= i < m.len() ==> well_formed(#[trigger] m[i].1),
        forall|i: int| 0 <= i < found.len() ==> well_formed(#[trigger] found[i].1),
    ensures
        well_formed(JsonView::Object(insert_styles(m, found))),
    decreases found.len(),
{
    if found.len() > 0 {
        let d = found.drop_last();
        assert forall|i: int| 0 <= i < d.len() implies well_formed(#[trigger] d[i].1) by {
            assert(d[i] == found[i]);
        }
        lemma_insert_styles_well_formed(m, d);
        let before = insert_styles(m, d);
        let e = found.last();
        assert(well_formed(found[found.len() - 1].1));
        lemma_set_field_sorted(before, e.0, e.1);
        lemma_set_field_entries(before, e.0, e.1);
        let r = set_field(before, e.0, e.1);
        assert forall|i: int| 0 <= i < r.len() implies well_formed(#[trigger] r[i].1) by {
            if r[i] != (e.0, e.1) {
                let k = choose|k: int| 0 <= k < before.len() && before[k] == r[i];
                assert(well_formed(before[k].1));
            }
        }
    }
}

/// `extract_styles` keeps a well-formed document well-formed: the styles
/// map and each style hold their keys in sorted order.
pub proof fn lemma_extract_styles_keeps_well_formed(j: JsonView)
    requires
        well_formed(j),
    ensures
        well_formed(with_styles(j)),
{
    if let JsonView::Object(es) = j {
        lemma_styles_in_well_formed(j);
        lemma_insert_styles_well_formed(Seq::empty(), styles_in(j));
        let styles = JsonView::Object(insert_styles(Seq::empty(), styles_in(j)));
        lemma_set_field_sorted(es, "styles"@, styles);
        lemma_set_field_entries(es, "styles"@, styles);
        let r = set_field(es, "styles"@, styles);
        assert forall|i: int| 0 <= i < r.len() implies well_formed(#[trigger] r[i].1) by {
            if r[i] != ("styles"@, styles) {
                let k = choose|k: int| 0 <= k < es.len() && es[k] == r[i];
                assert(well_formed(es[k].1));
            }
        }
    }
}

proof fn lemma_fields_step(
    prefix: Seq<EntryView>,
    es: Seq<EntryView>,
    k2: Seq<char>,
    inc: spec_fn(Seq<char>) -> bool,
)
    requires
        forall|x: Seq<char>| #[trigger] field(prefix, x) == if inc(x) { field(es, x) } else { None },
    ensures
        forall|x: Seq<char>|
            #[trigger] field(prefix + copied_field(es, k2), x) == if inc(x) || x == k2 {
                field(es, x)
            } else {
                None
            },
{
    assert forall|x: Seq<char>|
        #[trigger] field(prefix + copied_field(es, k2), x) == if inc(x) || x == k2 {
            field(es, x)
        } else {
            None
        } by {
        crate::json::lemma_field_concat(prefix, copied_field(es, k2), x);
        let c = copied_field(es, k2);
        assert(field(prefix, x) == if inc(x) { field(es, x) } else { None });
        match field(es, k2) {
            Some(v) => {
                assert(c == seq![(k2, v)]);
                assert(c.drop_first() =~= Seq::<EntryView>::empty());
                assert(c[0].0 == k2 && c[0].1 == v);
                assert(field(c.drop_first(), x) is None);
                assert(field(c, x) == if x == k2 { Some(v) } else { None });
            },
            None => {
                assert(c == Seq::<EntryView>::empty());
                assert(field(c, x) is None);
            },
        }
    }
}

/// A style carries exactly the rendering fields of its node: for each of
/// `name`, `styleType`, `fillPaints`, `strokePaints`, `effects`,
/// `fontName`, `fontSize`, `fontWeight`, `letterSpacing`, `lineHeight`,
/// `paragraphIndent`, `paragraphSpacing`, `textAlignHorizontal`,
/// `textAlignVertical`, `textAutoResize`, `textCase`, `textDecoration`,
/// `textTruncation`, `leadingTrim` and `maxLines`, the style's field is the
/// node's own; it has no other field.
pub proof fn lemma_style_copies_listed_fields(node: JsonView, k: Seq<char>)
    requires
        style_defined_by(node).len() > 0,
    ensures
        style_defined_by(node)[0].1 is Object,
        field(style_defined_by(node)[0].1->Object_0, k) == if k == "name"@ || k == "styleType"@ || k == "fillPaints"@ || k == "strokePaints"@ || k == "effects"@ || k == "fontName"@ || k == "fontSize"@ || k == "fontWeight"@ || k == "letterSpacing"@ || k == "lineHeight"@ || k == "paragraphIndent"@ || k == "paragraphSpacing"@ || k == "textAlignHorizontal"@ || k == "textAlignVertical"@ || k == "textAutoResize"@ || k == "textCase"@ || k == "textDecoration"@ || k == "textTruncation"@ || k == "leadingTrim"@ || k == "maxLines"@ {
            get_field(node, k)
        } else {
            None
        },
{
    let es = node->Object_0;
    let p0 = Seq::<EntryView>::empty();
    let inc0 = |x: Seq<char>| false;
    lemma_fields_step(p0, es, "effects"@, inc0);
    let p1 = p0 + copied_field(es, "effects"@);
    let inc1 = |x: Seq<char>| inc0(x) || x == "effects"@;
    assert(p1 =~= copied_field(es, "effects"@));
    lemma_fields_step(p1, es, "fillPaints"@, inc1);
    let p2 = p1 + copied_field(es, "fillPaints"@);
    let inc2 = |x: Seq<char>| inc1(x) || x == "fillPaints"@;
    lemma_fields_step(p2, es, "fontName"@, inc2);
    let p3 = p2 + copied_field(es, "fontName"@);
    let inc3 = |x: Seq<char>| inc2(x) || x == "fontName"@;
    lemma_fields_step(p3, es, "fontSize"@, inc3);
    let p4 = p3 + copied_field(es, "fontSize"@);
    let inc4 = |x: Seq<char>| inc3(x) || x == "fontSize"@;
    lemma_fields_step(p4, es, "fontWeight"@, inc4);
    let p5 = p4 + copied_field(es, "fontWeight"@);
    let inc5 = |x: Seq<char>| inc4(x) || x == "fontWeight"@;
    lemma_fields_step(p5, es, "leadingTrim"@, inc5);
    let p6 = p5 + copied_field(es, "leadingTrim"@);
    let inc6 = |x: Seq<char>| inc5(x) || x == "leadingTrim"@;
    lemma_fields_step(p6, es, "letterSpacing"@, inc6);
    let p7 = p6 + copied_field(es, "letterSpacing"@);
    let inc7 = |x: Seq<char>| inc6(x) || x == "letterSpacing"@;
    lemma_fields_step(p7, es, "lineHeight"@, inc7);
    let p8 = p7 + copied_field(es, "lineHeight"@);
    let inc8 = |x: Seq<char>| inc7(x) || x == "lineHeight"@;
    lemma_fields_step(p8, es, "maxLines"@, inc8);
    let p9 = p8 + copied_field(es, "maxLines"@);
    let inc9 = |x: Seq<char>| inc8(x) || x == "maxLines"@;
    lemma_fields_step(p9, es, "name"@, inc9);
    let p10 = p9 + copied_field(es, "name"@);
    let inc10 = |x: Seq<char>| inc9(x) || x == "name"@;
    lemma_fields_step(p10, es, "paragraphIndent"@, inc10);
    let p11 = p10 + copied_field(es, "paragraphIndent"@);
    let inc11 = |x: Seq<char>| inc10(x) || x == "paragraphIndent"@;
    lemma_fields_step(p11, es, "paragraphSpacing"@, inc11);
    let p12 = p11 + copied_field(es, "paragraphSpacing"@);
    let inc12 = |x: Seq<char>| inc11(x) || x == "paragraphSpacing"@;
    lemma_fields_step(p12, es, "strokePaints"@, inc12);
    let p13 = p12 + copied_field(es, "strokePaints"@);
    let inc13 = |x: Seq<char>| inc12(x) || x == "strokePaints"@;
    lemma_fields_step(p13, es, "styleType"@, inc13);
    let p14 = p13 + copied_field(es, "styleType"@);
    let inc14 = |x: Seq<char>| inc13(x) || x == "styleType"@;
    lemma_fields_step(p14, es, "textAlignHorizontal"@, inc14);
    let p15 = p14 + copied_field(es, "textAlignHorizontal"@);
    let inc15 = |x: Seq<char>| inc14(x) || x == "textAlignHorizontal"@;
    lemma_fields_step(p15, es, "textAlignVertical"@, inc15);
    let p16 = p15 + copied_field(es, "textAlignVertical"@);
    let inc16 = |x: Seq<char>| inc15(x) || x == "textAlignVertical"@;
    lemma_fields_step(p16, es, "textAutoResize"@, inc16);
    let p17 = p16 + copied_field(es, "textAutoResize"@);
    let inc17 = |x: Seq<char>| inc16(x) || x == "textAutoResize"@;
    lemma_fields_step(p17, es, "textCase"@, inc17);
    let p18 = p17 + copied_field(es, "textCase"@);
    let inc18 = |x: Seq<char>| inc17(x) || x == "textCase"@;
    lemma_fields_step(p18, es, "textDecoration"@, inc18);
    let p19 = p18 + copied_field(es, "textDecoration"@);
    let inc19 = |x: Seq<char>| inc18(x) || x == "textDecoration"@;
    lemma_fields_step(p19, es, "textTruncation"@, inc19);
    let p20 = p19 + copied_field(es, "textTruncation"@);
    let inc20 = |x: Seq<char>| inc19(x) || x == "textTruncation"@;
    assert(style_entry(es) == p20);
    assert(style_defined_by(node)[0].1 == JsonView::Object(style_entry(es)));
}

/// `x` is `j` or a value somewhere inside it.
pub open spec fn occurs_in(x: JsonView, j: JsonView) -> bool
    decreases j,
{
    x == j || match j {
        JsonView::Array(items) => exists|i: int| 0 <= i < items.len() && occurs_in(x, #[trigger] items[i]),
        JsonView::Object(es) => exists|i: int| 0 <= i < es.len() && occurs_in(x, #[trigger] es[i].1),
        _ => false,
    }
}

proof fn lemma_entries_collect(es: Seq<EntryView>, i: int, e: EntryView)
    requires
        0 <= i < es.len(),
        styles_in(es[i].1).contains(e),
    ensures
        styles_in_entries(es).contains(e),
    decreases es.len(),
{
    let d = es.drop_last();
    if i < es.len() - 1 {
        assert(d[i] == es[i]);
        lemma_entries_collect(d, i, e);
        let a = styles_in_entries(d);
        let b = styles_in(es.last().1);
        let k = choose|k: int| 0 <= k < a.len() && a[k] == e;
        assert((a + b)[k] == e);
    } else {
        let a = styles_in_entries(d);
        let b = styles_in(es.last().1);
        assert(es.last() == es[i]);
        let k = choose|k: int| 0 <= k < b.len() && b[k] == e;
        assert((a + b)[a.len() + k] == e);
    }
}

proof fn lemma_items_collect(items: Seq<JsonView>, i: int, e: EntryView)
    requires
        0 <= i < items.len(),
        styles_in(items[i]).contains(e),
    ensures
        styles_in_items(items).contains(e),
    decreases items.len(),
{
    let d = items.drop_last();
    if i < items.len() - 1 {
        assert(d[i] == items[i]);
        lemma_items_collect(d, i, e);
        let a = styles_in_items(d);
        let b = styles_in(items.last());
        let k = choose|k: int| 0 <= k < a.len() && a[k] == e;
        assert((a + b)[k] == e);
    } else {
        let a = styles_in_items(d);
        let b = styles_in(items.last());
        assert(items.last() == items[i]);
        let k = choose|k: int| 0 <= k < b.len() && b[k] == e;
        assert((a + b)[a.len() + k] == e);
    }
}

proof fn lemma_style_found(x: JsonView, j: JsonView)
    requires
        occurs_in(x, j),
        style_defined_by(x).len() > 0,
    ensures
        styles_in(j).contains(style_defined_by(x)[0]),
    decreases j,
{
    let e = style_defined_by(x)[0];
    if x == j {
        let es = j->Object_0;
        assert((style_defined_by(j) + styles_in_entries(es))[0] == e);
    } else {
        match j {
            JsonView::Array(items) => {
                let i = choose|i: int| 0 <= i < items.len() && occurs_in(x, #[trigger] items[i]);
                lemma_style_found(x, items[i]);
                lemma_items_collect(items, i, e);
            },
            JsonView::Object(es) => {
                let i = choose|i: int| 0 <= i < es.len() && occurs_in(x, #[trigger] es[i].1);
                lemma_style_found(x, es[i].1);
                lemma_entries_collect(es, i, e);
                let a = style_defined_by(j);
                let b = styles_in_entries(es);
                let k = choose|k: int| 0 <= k < b.len() && b[k] == e;
                assert((a + b)[a.len() + k] == e);
            },
            _ => {},
        }
    }
}

/// Every style node anywhere in the document (an object with a
/// `styleType` and a guid of unsigned `sessionID` and `localID`) can be
/// looked up after `extract_styles` under `"<sessionID>:<localID>"`.
pub proof fn lemma_every_style_collected(doc: JsonView, node: JsonView, s: u64, l: u64)
    requires
        doc is Object,
        occurs_in(node, doc),
        node matches JsonView::Object(es) && has_key(es, "styleType"@),
        get_field(node, "guid"@) matches Some(g) && get_field(g, "localID"@) == Some(
            JsonView::Number(crate::json::JsonNumber::PosInt(l)),
        ) && get_field(g, "sessionID"@) == Some(JsonView::Number(crate::json::JsonNumber::PosInt(s))),
    ensures
        get_field(with_styles(doc), "styles"@) matches Some(JsonView::Object(m)) && field(
            m,
            crate::text::guid_text(s, l),
        ) is Some,
{
    assert(style_defined_by(node).len() == 1);
    assert(style_defined_by(node)[0].0 == crate::text::guid_text(s, l));
    lemma_style_found(node, doc);
    let found = styles_in(doc);
    let i = choose|i: int| 0 <= i < found.len() && found[i] == style_defined_by(node)[0];
    lemma_styles_lookup(doc, crate::text::guid_text(s, l));
    assert(found[i].0 == crate::text::guid_text(s, l));
}

} // verus!
