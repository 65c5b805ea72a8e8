//! Laws of the tree builder: the depth bound costs nothing unless the
//! parent links loop, and well-formed nodes give a well-formed tree.

use vstd::prelude::*;
use crate::error::TreeError;
use crate::json::{
    JsonView, well_formed, key_before, remove_key, set_field, lemma_remove_key_sorted,
    lemma_set_field_sorted, lemma_set_field_entries, get_field, has_key,
};
use crate::text::lex_le;
use super::sibling_order::lemma_children_in_position_order;
use super::tree::{
    Guid, ChildRef, node_for, node_guid, children_of, tree_of, subtrees_of, built_tree, root_guid,
    index_error, first_guid_error, first_parent_error, lemma_node_for_member, built_with_components,
    forest_of, component_roots, raw_children, wrapper, is_component_root, is_last_with_guid,
    node_is_symbol, has_symbol_ancestor, lemma_node_for_some, lemma_guid_ok_at,
    lemma_document_is_built_tree,
};

verus! {

/// `c` is among the children of `g`.
pub open spec fn is_child(ns: Seq<JsonView>, g: Guid, c: Guid) -> bool {
    exists|i: int| 0 <= i < children_of(ns, g).len() && #[trigger] children_of(ns, g)[i].1 == c
}

/// `p` is a path down the hierarchy: each guid is a child of the one
/// before it.
pub open spec fn is_descent(ns: Seq<JsonView>, p: Seq<Guid>) -> bool {
    &&& p.len() >= 1
    &&& forall|i: int| 0 <= i < p.len() - 1 ==> is_child(ns, #[trigger] p[i], p[i + 1])
}

/// Some guid below `g` (or `g` itself) is its own descendant.
pub open spec fn has_cycle_below(ns: Seq<JsonView>, g: Guid) -> bool {
    exists|p: Seq<Guid>, i: int, j: int|
        is_descent(ns, p) && p[0] == g && 0 <= i < j < p.len() && #[trigger] p[i] == #[trigger] p[j]
}

proof fn lemma_subtrees_cyclic(ns: Seq<JsonView>, kids: Seq<ChildRef>, depth: nat)
    requires
        subtrees_of(ns, kids, depth) == Err::<Seq<JsonView>, TreeError>(TreeError::CyclicHierarchy),
    ensures
        exists|i: int|
            0 <= i < kids.len() && tree_of(ns, #[trigger] kids[i].1, depth) == Err::<JsonView, TreeError>(
                TreeError::CyclicHierarchy,
            ),
    decreases kids.len(),
{
    let d = kids.drop_last();
    if subtrees_of(ns, d, depth) is Err {
        lemma_subtrees_cyclic(ns, d, depth);
        let i = choose|i: int|
            0 <= i < d.len() && tree_of(ns, #[trigger] d[i].1, depth) == Err::<JsonView, TreeError>(
                TreeError::CyclicHierarchy,
            );
        assert(kids[i] == d[i]);
    } else {
        assert(kids[kids.len() - 1] == kids.last());
    }
}

/// Running out of depth at `g` means a descent of `depth + 1` guids from
/// `g`, each of which names a node.
proof fn lemma_cyclic_descent(ns: Seq<JsonView>, g: Guid, depth: nat) -> (p: Seq<Guid>)
    requires
        tree_of(ns, g, depth) == Err::<JsonView, TreeError>(TreeError::CyclicHierarchy),
    ensures
        p.len() == depth + 1,
        p[0] == g,
        is_descent(ns, p),
        forall|i: int| 0 <= i < p.len() ==> node_for(ns, #[trigger] p[i]) is Some,
    decreases depth,
{
    if depth == 0 {
        seq![g]
    } else {
        let kids = children_of(ns, g);
        lemma_subtrees_cyclic(ns, kids, (depth - 1) as nat);
        let i = choose|i: int|
            0 <= i < kids.len() && tree_of(ns, #[trigger] kids[i].1, (depth - 1) as nat)
                == Err::<JsonView, TreeError>(TreeError::CyclicHierarchy);
        let rest = lemma_cyclic_descent(ns, kids[i].1, (depth - 1) as nat);
        let p = seq![g] + rest;
        assert forall|m: int| 0 <= m < p.len() - 1 implies is_child(ns, #[trigger] p[m], p[m + 1]) by {
            if m == 0 {
                assert(p[1] == rest[0]);
                assert(children_of(ns, g)[i].1 == p[1]);
            } else {
                assert(p[m] == rest[m - 1] && p[m + 1] == rest[m]);
            }
        }
        assert forall|m: int| 0 <= m < p.len() implies node_for(ns, #[trigger] p[m]) is Some by {
            if m > 0 {
                assert(p[m] == rest[m - 1]);
            }
        }
        p
    }
}

/// The guid of each node of the list (a placeholder for an unreadable one).
spec fn node_guids(ns: Seq<JsonView>) -> Seq<Guid> {
    Seq::new(
        ns.len(),
        |j: int|
            match node_guid(ns[j]) {
                Ok(h) => h,
                Err(_) => (0, 0),
            },
    )
}

/// The depth bound of the tree builder (one level per node) is reached
/// only when the hierarchy below the starting guid loops: then some guid
/// is its own descendant.
pub proof fn lemma_depth_exhausted_only_on_cycle(ns: Seq<JsonView>, g: Guid)
    requires
        tree_of(ns, g, ns.len()) == Err::<JsonView, TreeError>(TreeError::CyclicHierarchy),
    ensures
        has_cycle_below(ns, g),
{
    let p = lemma_cyclic_descent(ns, g, ns.len());
    let ids = node_guids(ns);
    assert forall|x: Guid| p.to_set().contains(x) implies ids.to_set().contains(x) by {
        let m = choose|m: int| 0 <= m < p.len() && p[m] == x;
        assert(node_for(ns, p[m]) is Some);
        lemma_node_for_member(ns, x);
        let j = choose|j: int| 0 <= j < ns.len() && ns[j] == node_for(ns, x)->0 && node_guid(ns[j]) == Ok::<Guid, TreeError>(x);
        assert(ids[j] == x);
    }
    ids.lemma_cardinality_of_set();
    vstd::seq_lib::seq_to_set_is_finite(ids);
    vstd::set_lib::lemma_len_subset(p.to_set(), ids.to_set());
    if p.no_duplicates() {
        p.unique_seq_to_set();
        assert(false);
    }
    let (q, r) = choose|q: int, r: int| 0 <= q < p.len() && 0 <= r < p.len() && q != r && p[q] == p[r];
    if q < r {
        assert(is_descent(ns, p) && p[0] == g && 0 <= q < r < p.len() && p[q] == p[r]);
    } else {
        assert(is_descent(ns, p) && p[0] == g && 0 <= r < q < p.len() && p[r] == p[q]);
    }
}

proof fn lemma_tree_more_depth(ns: Seq<JsonView>, g: Guid, d: nat, d2: nat)
    requires
        d <= d2,
        tree_of(ns, g, d) != Err::<JsonView, TreeError>(TreeError::CyclicHierarchy),
    ensures
        tree_of(ns, g, d2) == tree_of(ns, g, d),
    decreases d, 0nat,
{
    if node_for(ns, g) is Some && d > 0 {
        if node_for(ns, g)->0 is Object {
            lemma_subtrees_more_depth(ns, children_of(ns, g), (d - 1) as nat, (d2 - 1) as nat);
        }
    }
}

proof fn lemma_subtrees_more_depth(ns: Seq<JsonView>, kids: Seq<ChildRef>, d: nat, d2: nat)
    requires
        d <= d2,
        subtrees_of(ns, kids, d) != Err::<Seq<JsonView>, TreeError>(TreeError::CyclicHierarchy),
    ensures
        subtrees_of(ns, kids, d2) == subtrees_of(ns, kids, d),
    decreases d, kids.len(),
{
    if kids.len() > 0 {
        lemma_subtrees_more_depth(ns, kids.drop_last(), d, d2);
        if subtrees_of(ns, kids.drop_last(), d) is Ok {
            lemma_tree_more_depth(ns, kids.last().1, d, d2);
        }
    }
}

/// When nothing below `g` loops, the depth bound of one level per node is
/// enough: any larger bound builds the same result, so the builder gives
/// what unbounded recursion would.
pub proof fn lemma_depth_bound_suffices(ns: Seq<JsonView>, g: Guid, d2: nat)
    requires
        d2 >= ns.len(),
        !has_cycle_below(ns, g),
    ensures
        tree_of(ns, g, d2) == tree_of(ns, g, ns.len()),
{
    if tree_of(ns, g, ns.len()) == Err::<JsonView, TreeError>(TreeError::CyclicHierarchy) {
        lemma_depth_exhausted_only_on_cycle(ns, g);
    }
    lemma_tree_more_depth(ns, g, ns.len(), d2);
}

proof fn lemma_guid_errors_not_cyclic(ns: Seq<JsonView>)
    ensures
        first_guid_error(ns) != Some(TreeError::CyclicHierarchy),
        first_parent_error(ns) != Some(TreeError::CyclicHierarchy),
    decreases ns.len(),
{
    if ns.len() > 0 {
        lemma_guid_errors_not_cyclic(ns.drop_first());
    }
}

/// `build_tree` reports a cyclic hierarchy only when some guid below the
/// root `0:0` is its own descendant.
pub proof fn lemma_cyclic_error_means_cycle(ns: Seq<JsonView>)
    requires
        built_tree(ns) == Err::<JsonView, TreeError>(TreeError::CyclicHierarchy),
    ensures
        has_cycle_below(ns, root_guid()),
{
    lemma_guid_errors_not_cyclic(ns);
    if index_error(ns) is None {
        lemma_depth_exhausted_only_on_cycle(ns, root_guid());
    }
}

proof fn lemma_tree_of_well_formed(ns: Seq<JsonView>, g: Guid, depth: nat)
    requires
        forall|i: int| 0 <= i < ns.len() ==> well_formed(#[trigger] ns[i]),
    ensures
        tree_of(ns, g, depth) is Ok ==> well_formed(tree_of(ns, g, depth)->Ok_0),
    decreases depth, 0nat,
{
    if node_for(ns, g) is Some && depth > 0 {
        lemma_node_for_member(ns, g);
        let n = node_for(ns, g)->0;
        let i = choose|i: int| 0 <= i < ns.len() && ns[i] == n && node_guid(ns[i]) == Ok::<Guid, TreeError>(g);
        assert(well_formed(ns[i]));
        if let JsonView::Object(es) = n {
            let kids = children_of(ns, g);
            lemma_subtrees_well_formed(ns, kids, (depth - 1) as nat);
            if let Ok(ts) = subtrees_of(ns, kids, (depth - 1) as nat) {
                lemma_remove_key_sorted(es, "parentIndex"@);
                let own = remove_key(es, "parentIndex"@);
                assert forall|k: int| 0 <= k < own.len() implies well_formed(#[trigger] own[k].1) by {
                    let m = choose|m: int| 0 <= m < es.len() && es[m] == own[k];
                    assert(well_formed(es[m].1));
                }
                if ts.len() > 0 {
                    let c = JsonView::Array(ts);
                    lemma_set_field_sorted(own, "children"@, c);
                    lemma_set_field_entries(own, "children"@, c);
                    let r = set_field(own, "children"@, c);
                    assert forall|k: int| 0 <= k < r.len() implies well_formed(#[trigger] r[k].1) by {
                        if r[k] != ("children"@, c) {
                            let m = choose|m: int| 0 <= m < own.len() && own[m] == r[k];
                            assert(well_formed(own[m].1));
                        }
                    }
                }
            }
        }
    }
}

proof fn lemma_subtrees_well_formed(ns: Seq<JsonView>, kids: Seq<ChildRef>, depth: nat)
    requires
        forall|i: int| 0 <= i < ns.len() ==> well_formed(#[trigger] ns[i]),
    ensures
        subtrees_of(ns, kids, depth) is Ok ==> forall|i: int|
            0 <= i < subtrees_of(ns, kids, depth)->Ok_0.len() ==> well_formed(
                #[trigger] subtrees_of(ns, kids, depth)->Ok_0[i],
            ),
    decreases depth, kids.len(),
{
    if kids.len() > 0 {
        lemma_subtrees_well_formed(ns, kids.drop_last(), depth);
        lemma_tree_of_well_formed(ns, kids.last().1, depth);
    }
}

proof fn lemma_forest_well_formed(ns: Seq<JsonView>, gs: Seq<Guid>, depth: nat)
    requires
        forall|i: int| 0 <= i < ns.len() ==> well_formed(#[trigger] ns[i]),
    ensures
        forest_of(ns, gs, depth) is Ok ==> forall|i: int|
            0 <= i < forest_of(ns, gs, depth)->Ok_0.len() ==> well_formed(
                #[trigger] forest_of(ns, gs, depth)->Ok_0[i],
            ),
    decreases gs.len(),
{
    if gs.len() > 0 {
        lemma_forest_well_formed(ns, gs.drop_last(), depth);
        lemma_tree_of_well_formed(ns, gs.last(), depth);
    }
}

/// From well-formed nodes, `build_tree` and `build_tree_with_components`
/// build well-formed documents: `parentIndex` leaves each node and
/// `children` takes its place in key order.
pub proof fn lemma_built_trees_well_formed(ns: Seq<JsonView>)
    requires
        forall|i: int| 0 <= i < ns.len() ==> well_formed(#[trigger] ns[i]),
    ensures
        built_tree(ns) is Ok ==> well_formed(built_tree(ns)->Ok_0),
        built_with_components(ns) is Ok ==> well_formed(built_with_components(ns)->Ok_0),
{
    lemma_tree_of_well_formed(ns, root_guid(), ns.len());
    lemma_forest_well_formed(ns, component_roots(ns, ns.len() as int), ns.len());
    reveal_strlit("components");
    reveal_strlit("document");
    reveal_with_fuel(lex_le, 2);
    assert(key_before("components"@, "document"@));
    if index_error(ns) is None {
        if let Ok(doc) = tree_of(ns, root_guid(), ns.len()) {
            if let Ok(cs) = forest_of(ns, component_roots(ns, ns.len() as int), ns.len()) {
                let w = super::tree::wrapper(doc, cs);
                let es = w->Object_0;
                assert(well_formed(JsonView::Array(cs)));
                assert forall|i: int| 0 <= i < es.len() implies well_formed(#[trigger] es[i].1) by {}
                assert forall|i: int, k: int| 0 <= i < k < es.len() implies key_before(#[trigger] es[i].0, #[trigger] es[k].0) by {}
                assert(well_formed(w));
            }
        }
    }
}

proof fn lemma_raw_children_found(ns: Seq<JsonView>, g: Guid)
    ensures
        forall|i: int|
            0 <= i < raw_children(ns, g).len() ==> node_for(ns, (#[trigger] raw_children(ns, g)[i]).1) is Some,
    decreases ns.len(),
{
    if ns.len() > 0 {
        let d = ns.drop_last();
        lemma_raw_children_found(d, g);
        let earlier = raw_children(d, g);
        let r = raw_children(ns, g);
        assert forall|i: int| 0 <= i < r.len() implies node_for(ns, (#[trigger] r[i]).1) is Some by {
            if i < earlier.len() {
                assert(r[i] == earlier[i]);
                assert(node_for(d, earlier[i].1) is Some);
            } else {
                assert(node_guid(ns.last()) == Ok::<Guid, TreeError>(r[i].1));
            }
        }
    }
}

/// Every child names a node of the list.
proof fn lemma_children_found(ns: Seq<JsonView>, g: Guid)
    ensures
        forall|i: int|
            0 <= i < children_of(ns, g).len() ==> node_for(ns, (#[trigger] children_of(ns, g)[i]).1) is Some,
{
    broadcast use vstd::seq_lib::group_to_multiset_ensures;

    lemma_raw_children_found(ns, g);
    lemma_children_in_position_order(ns, g);
    let c = children_of(ns, g);
    let r = raw_children(ns, g);
    assert forall|i: int| 0 <= i < c.len() implies node_for(ns, (#[trigger] c[i]).1) is Some by {
        assert(c.contains(c[i]));
        assert(c.to_multiset().count(c[i]) > 0);
        assert(r.contains(c[i]));
        let j = choose|j: int| 0 <= j < r.len() && r[j] == c[i];
        assert(node_for(ns, r[j].1) is Some);
    }
}

proof fn lemma_tree_only_cyclic(ns: Seq<JsonView>, g: Guid, depth: nat)
    requires
        node_for(ns, g) is Some,
    ensures
        tree_of(ns, g, depth) is Err ==> tree_of(ns, g, depth) == Err::<JsonView, TreeError>(
            TreeError::CyclicHierarchy,
        ),
    decreases depth, 0nat,
{
    if depth > 0 {
        lemma_children_found(ns, g);
        lemma_subtrees_only_cyclic(ns, children_of(ns, g), (depth - 1) as nat);
    }
}

proof fn lemma_subtrees_only_cyclic(ns: Seq<JsonView>, kids: Seq<ChildRef>, depth: nat)
    requires
        forall|i: int| 0 <= i < kids.len() ==> node_for(ns, (#[trigger] kids[i]).1) is Some,
    ensures
        subtrees_of(ns, kids, depth) is Err ==> subtrees_of(ns, kids, depth) == Err::<
            Seq<JsonView>,
            TreeError,
        >(TreeError::CyclicHierarchy),
    decreases depth, kids.len(),
{
    if kids.len() > 0 {
        let d = kids.drop_last();
        assert forall|i: int| 0 <= i < d.len() implies node_for(ns, (#[trigger] d[i]).1) is Some by {
            assert(d[i] == kids[i]);
        }
        lemma_subtrees_only_cyclic(ns, d, depth);
        assert(node_for(ns, kids[kids.len() - 1].1) is Some);
        lemma_tree_only_cyclic(ns, kids.last().1, depth);
    }
}

/// A node with no loop below it always has its subtree built.
proof fn lemma_tree_builds(ns: Seq<JsonView>, g: Guid)
    requires
        node_for(ns, g) is Some,
        !has_cycle_below(ns, g),
    ensures
        tree_of(ns, g, ns.len()) is Ok,
{
    lemma_tree_only_cyclic(ns, g, ns.len());
    if tree_of(ns, g, ns.len()) is Err {
        lemma_depth_exhausted_only_on_cycle(ns, g);
    }
}

proof fn lemma_forest_builds(ns: Seq<JsonView>, gs: Seq<Guid>)
    requires
        forall|i: int| 0 <= i < gs.len() ==> node_for(ns, #[trigger] gs[i]) is Some,
        forall|g: Guid| #![trigger has_cycle_below(ns, g)] !has_cycle_below(ns, g),
    ensures
        forest_of(ns, gs, ns.len()) is Ok,
        forest_of(ns, gs, ns.len())->Ok_0.len() == gs.len(),
    decreases gs.len(),
{
    if gs.len() > 0 {
        let d = gs.drop_last();
        assert forall|i: int| 0 <= i < d.len() implies node_for(ns, #[trigger] d[i]) is Some by {
            assert(d[i] == gs[i]);
        }
        lemma_forest_builds(ns, d);
        assert(node_for(ns, gs[gs.len() - 1]) is Some);
        assert(!has_cycle_below(ns, gs.last()));
        lemma_tree_builds(ns, gs.last());
    }
}

proof fn lemma_component_roots_found(ns: Seq<JsonView>, upto: int)
    requires
        upto <= ns.len(),
    ensures
        forall|k: int|
            0 <= k < component_roots(ns, upto).len() ==> node_for(ns, #[trigger] component_roots(ns, upto)[k])
                is Some,
        component_roots(ns, upto).len() > 0 <==> exists|i: int| 0 <= i < upto && #[trigger] is_component_root(ns, i),
    decreases upto,
{
    if upto > 0 {
        lemma_component_roots_found(ns, upto - 1);
        let earlier = component_roots(ns, upto - 1);
        let r = component_roots(ns, upto);
        if is_component_root(ns, upto - 1) {
            let g = node_guid(ns[upto - 1])->Ok_0;
            lemma_node_for_some(ns, upto - 1, g);
            assert forall|k: int| 0 <= k < r.len() implies node_for(ns, #[trigger] r[k]) is Some by {
                if k < earlier.len() {
                    assert(r[k] == earlier[k]);
                }
            }
        } else {
            if exists|i: int| 0 <= i < upto && #[trigger] is_component_root(ns, i) {
                let i = choose|i: int| 0 <= i < upto && #[trigger] is_component_root(ns, i);
                assert(i < upto - 1);
            }
        }
    }
}

/// For a node list whose guids are distinct and whose parent links do not
/// loop, `build_tree_with_components` succeeds exactly when `build_tree`
/// does. Its result then has only the keys `document` (the tree that
/// `build_tree` builds) and `components`, present exactly when some node
/// of type `SYMBOL` has no `SYMBOL` ancestor.
pub proof fn lemma_components_build_with_tree(ns: Seq<JsonView>)
    requires
        forall|i: int, j: int|
            0 <= i < j < ns.len() && node_guid(ns[i]) is Ok ==> node_guid(#[trigger] ns[i]) != node_guid(
                #[trigger] ns[j],
            ),
        forall|g: Guid| #![trigger has_cycle_below(ns, g)] !has_cycle_below(ns, g),
    ensures
        built_with_components(ns) is Ok <==> built_tree(ns) is Ok,
        built_with_components(ns) is Ok ==> {
            let es = built_with_components(ns)->Ok_0->Object_0;
            &&& built_with_components(ns)->Ok_0 is Object
            &&& get_field(built_with_components(ns)->Ok_0, "document"@) == Some(built_tree(ns)->Ok_0)
            &&& forall|k: int| 0 <= k < es.len() ==> (#[trigger] es[k]).0 == "document"@ || es[k].0 == "components"@
            &&& has_key(es, "components"@) <==> exists|i: int|
                0 <= i < ns.len() && node_is_symbol(#[trigger] ns[i]) && !has_symbol_ancestor(
                    ns,
                    node_guid(ns[i])->Ok_0,
                )
        },
{
    lemma_document_is_built_tree(ns);
    if built_tree(ns) is Ok {
        let n = ns.len();
        let roots = component_roots(ns, n as int);
        lemma_component_roots_found(ns, n as int);
        lemma_forest_builds(ns, roots);
        let doc = built_tree(ns)->Ok_0;
        let cs = forest_of(ns, roots, n)->Ok_0;
        assert(built_with_components(ns) == Ok::<JsonView, TreeError>(wrapper(doc, cs)));
        let es = wrapper(doc, cs)->Object_0;
        reveal_strlit("components");
        reveal_strlit("document");
        assert("components"@.len() != "document"@.len());
        assert(has_key(es, "components"@) <==> cs.len() > 0) by {
            if cs.len() > 0 {
                assert(es[0].0 == "components"@);
            } else {
                assert(es.len() == 1);
            }
        }
        assert(first_guid_error(ns) is None);
        assert forall|i: int| 0 <= i < n implies #[trigger] is_component_root(ns, i) == (node_is_symbol(ns[i])
            && !has_symbol_ancestor(ns, node_guid(ns[i])->Ok_0)) by {
            lemma_guid_ok_at(ns, i);
            let g = node_guid(ns[i])->Ok_0;
            assert forall|j: int| i < j < n implies node_guid(#[trigger] ns[j]) != Ok::<Guid, TreeError>(g) by {
                assert(node_guid(ns[i]) != node_guid(ns[j]));
            }
            assert(is_last_with_guid(ns, i, g));
        }
        if exists|i: int| 0 <= i < n && node_is_symbol(#[trigger] ns[i]) && !has_symbol_ancestor(ns, node_guid(ns[i])->Ok_0) {
            let i = choose|i: int| 0 <= i < n && node_is_symbol(#[trigger] ns[i]) && !has_symbol_ancestor(ns, node_guid(ns[i])->Ok_0);
            assert(is_component_root(ns, i));
        }
        if roots.len() > 0 {
            let i = choose|i: int| 0 <= i < n && #[trigger] is_component_root(ns, i);
            assert(node_is_symbol(ns[i]) && !has_symbol_ancestor(ns, node_guid(ns[i])->Ok_0));
        }
    }
}

proof fn lemma_node_for_last(ns: Seq<JsonView>, i: int, g: Guid)
    requires
        is_last_with_guid(ns, i, g),
    ensures
        node_for(ns, g) == Some(ns[i]),
    decreases ns.len(),
{
    if i < ns.len() - 1 {
        assert(node_guid(ns[ns.len() - 1]) != Ok::<Guid, TreeError>(g));
        let d = ns.drop_last();
        assert(d[i] == ns[i]);
        assert forall|j: int| i < j < d.len() implies node_guid(#[trigger] d[j]) != Ok::<Guid, TreeError>(g) by {
            assert(d[j] == ns[j]);
        }
        lemma_node_for_last(d, i, g);
    }
}

proof fn lemma_component_roots_symbols(ns: Seq<JsonView>, upto: int)
    requires
        upto <= ns.len(),
    ensures
        forall|k: int|
            0 <= k < component_roots(ns, upto).len() ==> (node_for(ns, #[trigger] component_roots(ns, upto)[k])
                matches Some(n) && node_is_symbol(n)),
    decreases upto,
{
    if upto > 0 {
        lemma_component_roots_symbols(ns, upto - 1);
        let earlier = component_roots(ns, upto - 1);
        let r = component_roots(ns, upto);
        if is_component_root(ns, upto - 1) {
            let g = node_guid(ns[upto - 1])->Ok_0;
            lemma_node_for_last(ns, upto - 1, g);
            assert forall|k: int| 0 <= k < r.len() implies (node_for(ns, #[trigger] r[k]) matches Some(n)
                && node_is_symbol(n)) by {
                if k < earlier.len() {
                    assert(r[k] == earlier[k]);
                }
            }
        }
    }
}

proof fn lemma_forest_trees(ns: Seq<JsonView>, gs: Seq<Guid>, depth: nat)
    ensures
        forest_of(ns, gs, depth) is Ok ==> {
            &&& forest_of(ns, gs, depth)->Ok_0.len() == gs.len()
            &&& forall|k: int|
                0 <= k < gs.len() ==> tree_of(ns, #[trigger] gs[k], depth) == Ok::<JsonView, TreeError>(
                    forest_of(ns, gs, depth)->Ok_0[k],
                )
        },
    decreases gs.len(),
{
    if gs.len() > 0 {
        lemma_forest_trees(ns, gs.drop_last(), depth);
        if forest_of(ns, gs, depth) is Ok {
            let d = gs.drop_last();
            assert forall|k: int| 0 <= k < gs.len() implies tree_of(ns, #[trigger] gs[k], depth)
                == Ok::<JsonView, TreeError>(forest_of(ns, gs, depth)->Ok_0[k]) by {
                if k < d.len() {
                    assert(gs[k] == d[k]);
                }
            }
        }
    }
}

/// A built subtree keeps its node's `type`.
proof fn lemma_tree_keeps_type(ns: Seq<JsonView>, g: Guid, depth: nat)
    requires
        tree_of(ns, g, depth) is Ok,
    ensures
        get_field(tree_of(ns, g, depth)->Ok_0, "type"@) == get_field(node_for(ns, g)->0, "type"@),
{
    let n = node_for(ns, g)->0;
    if let JsonView::Object(es) = n {
        let ts = subtrees_of(ns, children_of(ns, g), (depth - 1) as nat)->Ok_0;
        reveal_strlit("type");
        reveal_strlit("parentIndex");
        reveal_strlit("children");
        assert("type"@.len() != "parentIndex"@.len());
        assert("type"@.len() != "children"@.len());
        crate::json::lemma_field_remove_key(es, "parentIndex"@, "type"@);
        if ts.len() > 0 {
            crate::json::lemma_field_set_field(
                remove_key(es, "parentIndex"@),
                "children"@,
                JsonView::Array(ts),
                "type"@,
            );
        }
    }
}

/// Every entry of `components` is the subtree of a component master: its
/// `type` is the string `SYMBOL` or an enum object whose `value` is
/// `SYMBOL`. A node of any other type (an `INSTANCE`, say) is never
/// emitted as a component.
pub proof fn lemma_components_are_symbols(ns: Seq<JsonView>)
    ensures
        built_with_components(ns) is Ok ==> match get_field(built_with_components(ns)->Ok_0, "components"@) {
            Some(JsonView::Array(cs)) => forall|k: int|
                0 <= k < cs.len() ==> (get_field(#[trigger] cs[k], "type"@) == Some(JsonView::Str("SYMBOL"@))
                    || (get_field(cs[k], "type"@) matches Some(JsonView::Object(t)) && crate::json::field(
                    t,
                    "value"@,
                ) == Some(JsonView::Str("SYMBOL"@)))),
            _ => true,
        },
{
    if built_with_components(ns) is Ok {
        let n = ns.len();
        let roots = component_roots(ns, n as int);
        let doc = tree_of(ns, root_guid(), n)->Ok_0;
        let cs = forest_of(ns, roots, n)->Ok_0;
        lemma_forest_trees(ns, roots, n);
        lemma_component_roots_symbols(ns, n as int);
        reveal_strlit("components");
        reveal_strlit("document");
        assert("components"@.len() != "document"@.len());
        let w = wrapper(doc, cs);
        assert(built_with_components(ns) == Ok::<JsonView, TreeError>(w));
        if cs.len() > 0 {
            assert(get_field(w, "components"@) == Some(JsonView::Array(cs)));
            assert forall|k: int| 0 <= k < cs.len() implies (get_field(#[trigger] cs[k], "type"@) == Some(
                JsonView::Str("SYMBOL"@),
            ) || (get_field(cs[k], "type"@) matches Some(JsonView::Object(t)) && crate::json::field(
                t,
                "value"@,
            ) == Some(JsonView::Str("SYMBOL"@)))) by {
                assert(tree_of(ns, roots[k], n) == Ok::<JsonView, TreeError>(cs[k]));
                lemma_tree_keeps_type(ns, roots[k], n);
                assert(node_is_symbol(node_for(ns, roots[k])->0));
            }
        } else {
            let es = w->Object_0;
            assert(es.drop_first() =~= Seq::<crate::json::EntryView>::empty());
            assert(crate::json::field(es.drop_first(), "components"@) is None);
            assert(get_field(w, "components"@) is None);
        }
    }
}

/// A node placed in the tree keeps all its own fields but `parentIndex`,
/// which it loses; `children` is the only field it may gain.
pub proof fn lemma_built_node_fields(ns: Seq<JsonView>, g: Guid, depth: nat, k: Seq<char>)
    requires
        tree_of(ns, g, depth) is Ok,
        node_for(ns, g)->0 is Object,
        k != "children"@,
    ensures
        get_field(tree_of(ns, g, depth)->Ok_0, k) == if k == "parentIndex"@ {
            None
        } else {
            get_field(node_for(ns, g)->0, k)
        },
{
    let es = node_for(ns, g)->0->Object_0;
    let ts = subtrees_of(ns, children_of(ns, g), (depth - 1) as nat)->Ok_0;
    let own = remove_key(es, "parentIndex"@);
    if k == "parentIndex"@ {
        crate::json::lemma_remove_key_gone(es, k);
        crate::json::lemma_field_absent(own, k);
    } else {
        crate::json::lemma_field_remove_key(es, "parentIndex"@, k);
    }
    if ts.len() > 0 {
        crate::json::lemma_field_set_field(own, "children"@, JsonView::Array(ts), k);
    }
}

} // verus!
