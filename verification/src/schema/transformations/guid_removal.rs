//! Removing `guid` fields, everywhere or outside the component masters.

use vstd::prelude::*;
use crate::error::FigError;
use crate::json::{
    Json, JsonView, EntryView, remove_key, entries_view, remove_entry, field, key_position,
    lemma_key_position, lemma_field_first, lemma_field_absent, lemma_field_remove_key,
    lemma_remove_key_sorted, lemma_remove_key_absent, well_formed, key_before,
};
use super::prune_laws::{
    lemma_protected_subtree_unchanged, lemma_prune_keeps_well_formed, lemma_prune_idempotent,
};
use super::prune::{PruneRule, prune, prune_json, key_is};

verus! {

/// The top-level entries of a `{components, document, ...}` wrapper, with
/// `guid` removed everywhere except below the `components` entry.
pub open spec fn outside_masters_entries(es: Seq<EntryView>) -> Seq<EntryView> {
    remove_key(
        Seq::new(es.len(), |i: int| (es[i].0, prune(PruneRule::Guids, es[i].0 == "components"@, es[i].1))),
        "guid"@,
    )
}

/// The document after `remove_guid_fields_outside_masters`.
pub open spec fn guids_outside_masters(j: JsonView) -> JsonView {
    match j {
        JsonView::Object(es) => JsonView::Object(outside_masters_entries(es)),
        _ => prune(PruneRule::Guids, false, j),
    }
}

/// Removes `guid` from every object of the document, except from the
/// component masters: everything under a top-level `components` entry (the
/// wrapper built by `build_tree_with_components`) keeps its guids, which
/// renderers follow through `guidPath`s. A document that is not an object
/// loses every guid.
pub fn remove_guid_fields(tree: &mut Json) -> (r: Result<(), FigError>)
    ensures
        r is Ok,
        final(tree)@ == guids_outside_masters(old(tree)@),
{
    remove_guid_fields_outside_masters(tree)
}

/// The same pass as [`remove_guid_fields`], named for the wrapper object
/// built by `build_tree_with_components` that it is meant for.
pub fn remove_guid_fields_outside_masters(tree: &mut Json) -> (r: Result<(), FigError>)
    ensures
        r is Ok,
        final(tree)@ == guids_outside_masters(old(tree)@),
{
    let pruned = match &*tree {
        Json::Object(entries) => {
            let ghost ev = entries_view(entries@);
            let mut out: Vec<(String, Json)> = Vec::new();
            let mut i: usize = 0;
            while i < entries.len()
                invariant
                    i <= entries@.len(),
                    ev == entries_view(entries@),
                    out@.len() == i,
                    forall|k: int|
                        0 <= k < i ==> (#[trigger] out@[k]).0@ == ev[k].0 && out@[k].1@ == prune(
                            PruneRule::Guids,
                            ev[k].0 == "components"@,
                            ev[k].1,
                        ),
                decreases entries@.len() - i,
            {
                let inside = key_is(&entries[i].0, "components");
                let c = prune_json(PruneRule::Guids, inside, &entries[i].1);
                out.push((entries[i].0.clone(), c));
                i += 1;
            }
            let ghost mapped = Seq::new(
                ev.len(),
                |i: int| (ev[i].0, prune(PruneRule::Guids, ev[i].0 == "components"@, ev[i].1)),
            );
            assert(entries_view(out@) =~= mapped);
            remove_entry(&mut out, "guid");
            proof {
                crate::json::lemma_object_entries_view(*entries);
                crate::json::lemma_object_entries_view(out);
            }
            Json::Object(out)
        },
        _ => prune_json(PruneRule::Guids, false, tree),
    };
    *tree = pruned;
    Ok(())
}

/// The component masters keep their guids: the `components` entry of the
/// wrapper comes out of `remove_guid_fields` unchanged.
pub proof fn lemma_masters_keep_guids(es: Seq<EntryView>)
    ensures
        field(outside_masters_entries(es), "components"@) == field(es, "components"@),
{
    let mapped = Seq::new(
        es.len(),
        |i: int| (es[i].0, prune(PruneRule::Guids, es[i].0 == "components"@, es[i].1)),
    );
    reveal_strlit("components");
    reveal_strlit("guid");
    assert("components"@.len() != "guid"@.len());
    lemma_field_remove_key(mapped, "guid"@, "components"@);
    lemma_key_position(es, "components"@);
    let p = key_position(es, "components"@);
    if p >= 0 {
        lemma_protected_subtree_unchanged(PruneRule::Guids, es[p].1);
        assert forall|m: int| 0 <= m < p implies #[trigger] mapped[m].0 != "components"@ by {
            assert(mapped[m].0 == es[m].0);
        }
        lemma_field_first(mapped, "components"@, p);
    } else {
        assert forall|m: int| 0 <= m < mapped.len() implies #[trigger] mapped[m].0 != "components"@ by {
            assert(mapped[m].0 == es[m].0);
        }
        lemma_field_absent(mapped, "components"@);
    }
}

/// `remove_guid_fields` keeps a well-formed document well-formed.
pub proof fn lemma_outside_masters_keeps_well_formed(j: JsonView)
    requires
        well_formed(j),
    ensures
        well_formed(guids_outside_masters(j)),
{
    match j {
        JsonView::Object(es) => {
            let mapped = Seq::new(
                es.len(),
                |i: int| (es[i].0, prune(PruneRule::Guids, es[i].0 == "components"@, es[i].1)),
            );
            assert forall|i: int, k: int| 0 <= i < k < mapped.len() implies key_before(#[trigger] mapped[i].0, #[trigger] mapped[k].0) by {
                assert(mapped[i].0 == es[i].0 && mapped[k].0 == es[k].0);
            }
            lemma_remove_key_sorted(mapped, "guid"@);
            let r = remove_key(mapped, "guid"@);
            assert forall|k: int| 0 <= k < r.len() implies well_formed(#[trigger] r[k].1) by {
                let i = choose|i: int| 0 <= i < mapped.len() && mapped[i] == r[k];
                assert(well_formed(es[i].1));
                lemma_prune_keeps_well_formed(PruneRule::Guids, es[i].0 == "components"@, es[i].1);
            }
        },
        _ => {
            lemma_prune_keeps_well_formed(PruneRule::Guids, false, j);
        },
    }
}

/// `remove_guid_fields` removes every guid it removes at once: a second
/// pass changes nothing.
pub proof fn lemma_remove_guid_fields_idempotent(j: JsonView)
    ensures
        guids_outside_masters(guids_outside_masters(j)) == guids_outside_masters(j),
{
    match j {
        JsonView::Object(es) => {
            let mapped = Seq::new(
                es.len(),
                |i: int| (es[i].0, prune(PruneRule::Guids, es[i].0 == "components"@, es[i].1)),
            );
            let r1 = remove_key(mapped, "guid"@);
            lemma_remove_key_sorted(mapped, "guid"@);
            crate::json::lemma_remove_key_gone(mapped, "guid"@);
            let m2 = Seq::new(
                r1.len(),
                |i: int| (r1[i].0, prune(PruneRule::Guids, r1[i].0 == "components"@, r1[i].1)),
            );
            assert forall|i: int| 0 <= i < r1.len() implies #[trigger] m2[i] == r1[i] by {
                let k = choose|k: int| 0 <= k < mapped.len() && mapped[k] == r1[i];
                lemma_prune_idempotent(PruneRule::Guids, es[k].0 == "components"@, es[k].1);
            }
            assert(m2 =~= r1);
            assert forall|i: int| 0 <= i < m2.len() implies #[trigger] m2[i].0 != "guid"@ by {
                assert(m2[i] == r1[i]);
            }
            lemma_remove_key_absent(m2, "guid"@);
        },
        _ => {
            lemma_prune_idempotent(PruneRule::Guids, false, j);
        },
    }
}

} // verus!
