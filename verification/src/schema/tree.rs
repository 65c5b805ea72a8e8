//! Building the document tree from the flat `nodeChanges` list.
//!
//! Every node carries its own `guid` (`{sessionID, localID}`) and, except
//! for roots, a `parentIndex` holding its parent's guid and a `position`
//! string that orders siblings. The tree is rebuilt by attaching to each
//! node, under `children`, the nodes whose parent it is, sorted by
//! position.

use vstd::prelude::*;
use crate::error::{TreeError, FigError, fig_error_text, error_text};
use crate::json::{
    Json, JsonView, json_as_u64, EntryView, field, get_field, remove_key, set_field, entries_view,
    find_field, lemma_object_entries_view, copy_entries, remove_entry, set_entry, lemma_array_view,
};
use crate::text::{lex_le, str_le, guid_text, format_guid_text};
use std::collections::HashMap;

verus! {

/// A Figma guid: `(sessionID, localID)`.
pub type Guid = (u64, u64);

/// A child reference: the child's `position` and its guid.
pub type ChildRef = (Seq<char>, Guid);

/// `Value::as_u64` on an optional value.
pub open spec fn opt_u64(v: Option<JsonView>) -> Option<u64> {
    match v {
        Some(x) => json_as_u64(x),
        None => None,
    }
}

/// Reads `holder.guid` as a [`Guid`], failing with `missing` when there is
/// no `guid` object and with `bad_session`/`bad_local` when a field is not
/// an unsigned integer.
pub open spec fn read_guid(
    holder: JsonView,
    missing: TreeError,
    bad_session: TreeError,
    bad_local: TreeError,
) -> Result<Guid, TreeError> {
    match get_field(holder, "guid"@) {
        Some(JsonView::Object(g)) => match opt_u64(field(g, "sessionID"@)) {
            None => Err(bad_session),
            Some(s) => match opt_u64(field(g, "localID"@)) {
                None => Err(bad_local),
                Some(l) => Ok((s, l)),
            },
        },
        _ => Err(missing),
    }
}

/// The guid of a node.
pub open spec fn node_guid(n: JsonView) -> Result<Guid, TreeError> {
    read_guid(n, TreeError::NodeMissingGuid, TreeError::InvalidSessionId, TreeError::InvalidLocalId)
}

/// The guid held by a `parentIndex`.
pub open spec fn parent_guid(p: JsonView) -> Result<Guid, TreeError> {
    read_guid(
        p,
        TreeError::ParentMissingGuid,
        TreeError::ParentInvalidSessionId,
        TreeError::ParentInvalidLocalId,
    )
}

/// The `position` of a `parentIndex`, empty when it is missing or not a
/// string.
pub open spec fn position_of(p: JsonView) -> Seq<char> {
    match get_field(p, "position"@) {
        Some(JsonView::Str(s)) => s,
        _ => Seq::empty(),
    }
}

/// The first node, in list order, whose guid cannot be read.
pub open spec fn first_guid_error(ns: Seq<JsonView>) -> Option<TreeError>
    decreases ns.len(),
{
    if ns.len() == 0 {
        None
    } else {
        match node_guid(ns[0]) {
            Err(e) => Some(e),
            Ok(_) => first_guid_error(ns.drop_first()),
        }
    }
}

/// The first node, in list order, whose `parentIndex` guid cannot be read.
pub open spec fn first_parent_error(ns: Seq<JsonView>) -> Option<TreeError>
    decreases ns.len(),
{
    if ns.len() == 0 {
        None
    } else {
        match get_field(ns[0], "parentIndex"@) {
            Some(p) => match parent_guid(p) {
                Err(e) => Some(e),
                Ok(_) => first_parent_error(ns.drop_first()),
            },
            None => first_parent_error(ns.drop_first()),
        }
    }
}

/// Why the node list cannot be indexed: first a node guid, then a parent
/// guid, that cannot be read.
pub open spec fn index_error(ns: Seq<JsonView>) -> Option<TreeError> {
    match first_guid_error(ns) {
        Some(e) => Some(e),
        None => first_parent_error(ns),
    }
}

/// The node with guid `g`; the last one when several share it.
pub open spec fn node_for(ns: Seq<JsonView>, g: Guid) -> Option<JsonView>
    decreases ns.len(),
{
    if ns.len() == 0 {
        None
    } else if node_guid(ns.last()) == Ok::<Guid, TreeError>(g) {
        Some(ns.last())
    } else {
        node_for(ns.drop_last(), g)
    }
}

/// Node `i` is the last one of the list with guid `g`.
pub open spec fn is_last_with_guid(ns: Seq<JsonView>, i: int, g: Guid) -> bool {
    &&& 0 <= i < ns.len()
    &&& node_guid(ns[i]) == Ok::<Guid, TreeError>(g)
    &&& forall|j: int| i < j < ns.len() ==> node_guid(#[trigger] ns[j]) != Ok::<Guid, TreeError>(g)
}

/// The nodes whose `parentIndex` names `g`, in list order.
pub open spec fn raw_children(ns: Seq<JsonView>, g: Guid) -> Seq<ChildRef>
    decreases ns.len(),
{
    if ns.len() == 0 {
        Seq::empty()
    } else {
        let earlier = raw_children(ns.drop_last(), g);
        let n = ns.last();
        match get_field(n, "parentIndex"@) {
            Some(p) => match (parent_guid(p), node_guid(n)) {
                (Ok(pg), Ok(cg)) => if pg == g {
                    earlier.push((position_of(p), cg))
                } else {
                    earlier
                },
                _ => earlier,
            },
            None => earlier,
        }
    }
}

/// Inserts `c` into the position-sorted `s`, after every entry whose
/// position is not greater.
pub open spec fn insert_by_position(s: Seq<ChildRef>, c: ChildRef) -> Seq<ChildRef>
    decreases s.len(),
{
    if s.len() == 0 {
        seq![c]
    } else if lex_le(s.last().0, c.0) {
        s.push(c)
    } else {
        insert_by_position(s.drop_last(), c).push(s.last())
    }
}

/// `s` stably sorted by position.
pub open spec fn sort_by_position(s: Seq<ChildRef>) -> Seq<ChildRef>
    decreases s.len(),
{
    if s.len() == 0 {
        s
    } else {
        insert_by_position(sort_by_position(s.drop_last()), s.last())
    }
}

/// The children of `g`, in sibling order.
pub open spec fn children_of(ns: Seq<JsonView>, g: Guid) -> Seq<ChildRef> {
    sort_by_position(raw_children(ns, g))
}

/// A node's entries once it is placed in the tree: without
/// `parentIndex`, and with its subtrees under `children` when it has any.
pub open spec fn attach_children(es: Seq<EntryView>, subtrees: Seq<JsonView>) -> Seq<EntryView> {
    let own = remove_key(es, "parentIndex"@);
    if subtrees.len() == 0 {
        own
    } else {
        set_field(own, "children"@, JsonView::Array(subtrees))
    }
}

/// The subtree rooted at `g`, descending at most `depth` levels: deeper
/// hierarchies are reported as cyclic.
pub open spec fn tree_of(ns: Seq<JsonView>, g: Guid, depth: nat) -> Result<JsonView, TreeError>
    decreases depth, 0nat,
{
    match node_for(ns, g) {
        None => Err(TreeError::NodeNotFound { session: g.0, local: g.1 }),
        Some(n) => if depth == 0 {
            Err(TreeError::CyclicHierarchy)
        } else {
            match n {
                JsonView::Object(es) => match subtrees_of(ns, children_of(ns, g), (depth - 1) as nat) {
                    Err(e) => Err(e),
                    Ok(ts) => Ok(JsonView::Object(attach_children(es, ts))),
                },
                _ => Ok(n),
            }
        },
    }
}

/// The subtrees of the children `kids`, or the first error among them.
pub open spec fn subtrees_of(ns: Seq<JsonView>, kids: Seq<ChildRef>, depth: nat) -> Result<
    Seq<JsonView>,
    TreeError,
>
    decreases depth, kids.len(),
{
    if kids.len() == 0 {
        Ok(Seq::empty())
    } else {
        match subtrees_of(ns, kids.drop_last(), depth) {
            Err(e) => Err(e),
            Ok(ts) => match tree_of(ns, kids.last().1, depth) {
                Err(e) => Err(e),
                Ok(t) => Ok(ts.push(t)),
            },
        }
    }
}

/// The guid of the document root.
pub open spec fn root_guid() -> Guid {
    (0, 0)
}

/// What `build_tree` returns for the node list `ns`.
pub open spec fn built_tree(ns: Seq<JsonView>) -> Result<JsonView, TreeError> {
    match index_error(ns) {
        Some(e) => Err(e),
        None => tree_of(ns, root_guid(), ns.len()),
    }
}

/// The key under which a guid is indexed.
pub open spec fn guid_key(g: Guid) -> u128 {
    ((g.0 as u128) << 64u128) | (g.1 as u128)
}

pub proof fn lemma_guid_key_injective(a: Guid, b: Guid)
    requires
        guid_key(a) == guid_key(b),
    ensures
        a == b,
{
    let (a0, a1) = a;
    let (b0, b1) = b;
    assert(a0 == b0 && a1 == b1) by (bit_vector)
        requires
            ((a0 as u128) << 64u128) | (a1 as u128) == ((b0 as u128) << 64u128) | (b1 as u128),
    ;
}

fn guid_key_exec(g: (u64, u64)) -> (r: u128)
    ensures
        r == guid_key(g),
{
    ((g.0 as u128) << 64u128) | (g.1 as u128)
}

/// Reads `holder.guid`, as [`read_guid`] states.
fn read_guid_exec(holder: &Json, missing: TreeError, bad_session: TreeError, bad_local: TreeError) -> (r:
    Result<(u64, u64), TreeError>)
    ensures
        r == read_guid(holder@, missing, bad_session, bad_local),
{
    match holder.get("guid") {
        Some(Json::Object(g)) => {
            proof { lemma_object_entries_view(*g); }
            let session = match find_field(g, "sessionID") {
                Some(v) => v.as_u64(),
                None => None,
            };
            match session {
                None => Err(bad_session),
                Some(s) => {
                    let local = match find_field(g, "localID") {
                        Some(v) => v.as_u64(),
                        None => None,
                    };
                    match local {
                        None => Err(bad_local),
                        Some(l) => Ok((s, l)),
                    }
                },
            }
        },
        _ => Err(missing),
    }
}

fn node_guid_exec(n: &Json) -> (r: Result<(u64, u64), TreeError>)
    ensures
        r == node_guid(n@),
{
    read_guid_exec(n, TreeError::NodeMissingGuid, TreeError::InvalidSessionId, TreeError::InvalidLocalId)
}

fn parent_guid_exec(p: &Json) -> (r: Result<(u64, u64), TreeError>)
    ensures
        r == parent_guid(p@),
{
    read_guid_exec(
        p,
        TreeError::ParentMissingGuid,
        TreeError::ParentInvalidSessionId,
        TreeError::ParentInvalidLocalId,
    )
}

/// A node's guid as `"<sessionID>:<localID>"`.
pub fn format_guid(node: &Json) -> (r: Result<String, FigError>)
    ensures
        match r {
            Ok(t) => node_guid(node@) is Ok && t@ == guid_text(node_guid(node@)->Ok_0.0, node_guid(node@)->Ok_0.1),
            Err(e) => node_guid(node@) is Err && fig_error_text(e) == error_text(node_guid(node@)->Err_0),
        },
{
    match node_guid_exec(node) {
        Ok(g) => Ok(format_guid_text(g.0, g.1)),
        Err(e) => Err(FigError::from_tree_error(e)),
    }
}

/// The guid held by a `parentIndex`, as `"<sessionID>:<localID>"`.
pub fn format_parent_guid(parent_index: &Json) -> (r: Result<String, FigError>)
    ensures
        match r {
            Ok(t) => parent_guid(parent_index@) is Ok && t@ == guid_text(
                parent_guid(parent_index@)->Ok_0.0,
                parent_guid(parent_index@)->Ok_0.1,
            ),
            Err(e) => parent_guid(parent_index@) is Err && fig_error_text(e) == error_text(
                parent_guid(parent_index@)->Err_0,
            ),
        },
{
    match parent_guid_exec(parent_index) {
        Ok(g) => Ok(format_guid_text(g.0, g.1)),
        Err(e) => Err(FigError::from_tree_error(e)),
    }
}

fn position_exec(p: &Json) -> (r: String)
    ensures
        r@ == position_of(p@),
{
    match p.get("position") {
        Some(Json::Str(s)) => s.clone(),
        _ => String::new(),
    }
}

/// The view of a child list held as `(position, sessionID, localID)`.
pub open spec fn child_refs_view(v: Seq<(String, u64, u64)>) -> Seq<ChildRef> {
    Seq::new(v.len(), |i: int| (v[i].0@, (v[i].1, v[i].2)))
}

/// The node list indexed by guid, with every parent's children sorted by
/// position.
pub struct NodeIndex {
    nodes: Vec<Json>,
    by_guid: HashMap<u128, usize>,
    child_slot: HashMap<u128, usize>,
    children: Vec<Vec<(String, u64, u64)>>,
}

impl NodeIndex {
    /// The index describes the node list `ns`, which has no unreadable
    /// guid.
    pub closed spec fn indexes(&self, ns: Seq<JsonView>) -> bool {
        &&& index_error(ns) is None
        &&& self.nodes@.len() == ns.len()
        &&& forall|i: int| 0 <= i < ns.len() ==> #[trigger] self.nodes@[i]@ == ns[i]
        &&& forall|g: Guid|
            #[trigger] self.by_guid@.contains_key(guid_key(g)) <==> node_for(ns, g) is Some
        &&& forall|g: Guid|
            #[trigger] self.by_guid@.contains_key(guid_key(g)) ==> {
                &&& self.by_guid@[guid_key(g)] < ns.len()
                &&& Some(ns[self.by_guid@[guid_key(g)] as int]) == node_for(ns, g)
                &&& is_last_with_guid(ns, self.by_guid@[guid_key(g)] as int, g)
            }
        &&& forall|g: Guid|
            #[trigger] self.child_slot@.contains_key(guid_key(g)) ==> {
                &&& self.child_slot@[guid_key(g)] < self.children@.len()
                &&& child_refs_view(self.children@[self.child_slot@[guid_key(g)] as int]@)
                    == children_of(ns, g)
            }
        &&& forall|g: Guid|
            !#[trigger] self.child_slot@.contains_key(guid_key(g)) ==> children_of(ns, g).len() == 0
    }
}

/// The views of a list of nodes.
pub open spec fn nodes_view(v: Seq<Json>) -> Seq<JsonView> {
    Seq::new(v.len(), |i: int| v[i]@)
}

proof fn lemma_first_guid_error_skip(ns: Seq<JsonView>, i: int)
    requires
        0 <= i < ns.len(),
    ensures
        first_guid_error(ns.skip(i)) == match node_guid(ns[i]) {
            Err(e) => Some(e),
            Ok(_) => first_guid_error(ns.skip(i + 1)),
        },
{
    assert(ns.skip(i)[0] == ns[i]);
    assert(ns.skip(i).drop_first() =~= ns.skip(i + 1));
}

proof fn lemma_first_parent_error_skip(ns: Seq<JsonView>, i: int)
    requires
        0 <= i < ns.len(),
    ensures
        first_parent_error(ns.skip(i)) == match get_field(ns[i], "parentIndex"@) {
            Some(p) => match parent_guid(p) {
                Err(e) => Some(e),
                Ok(_) => first_parent_error(ns.skip(i + 1)),
            },
            None => first_parent_error(ns.skip(i + 1)),
        },
{
    assert(ns.skip(i)[0] == ns[i]);
    assert(ns.skip(i).drop_first() =~= ns.skip(i + 1));
}

proof fn lemma_take_step(ns: Seq<JsonView>, i: int)
    requires
        0 <= i < ns.len(),
    ensures
        ns.take(i + 1).last() == ns[i],
        ns.take(i + 1).drop_last() == ns.take(i),
        ns.take(i + 1).len() > 0,
{
    assert(ns.take(i + 1).drop_last() =~= ns.take(i));
}

pub proof fn lemma_insert_at(s: Seq<ChildRef>, c: ChildRef, j: int)
    requires
        0 <= j <= s.len(),
        forall|m: int| j <= m < s.len() ==> !lex_le(#[trigger] s[m].0, c.0),
        j == 0 || lex_le(s[j - 1].0, c.0),
    ensures
        insert_by_position(s, c) == s.take(j).push(c) + s.skip(j),
    decreases s.len(),
{
    if s.len() == 0 {
        assert(s.take(j).push(c) + s.skip(j) =~= seq![c]);
    } else if j == s.len() {
        assert(s.take(j) =~= s);
        assert(s.take(j).push(c) + s.skip(j) =~= s.push(c));
    } else {
        let d = s.drop_last();
        assert(!lex_le(s[s.len() - 1].0, c.0));
        assert forall|m: int| j <= m < d.len() implies !lex_le(#[trigger] d[m].0, c.0) by {
            assert(d[m] == s[m]);
        }
        lemma_insert_at(d, c, j);
        assert((d.take(j).push(c) + d.skip(j)).push(s.last()) =~= s.take(j).push(c) + s.skip(j));
    }
}

/// Inserts `c` into the position-sorted `list`, after every entry whose
/// position is not greater.
fn insert_child(list: &mut Vec<(String, u64, u64)>, c: (String, u64, u64))
    ensures
        child_refs_view(final(list)@) == insert_by_position(
            child_refs_view(old(list)@),
            (c.0@, (c.1, c.2)),
        ),
{
    let ghost s = child_refs_view(list@);
    let ghost cv = (c.0@, (c.1, c.2));
    let mut j: usize = list.len();
    loop
        invariant
            j <= list@.len(),
            s == child_refs_view(list@),
            cv == (c.0@, (c.1, c.2)),
            forall|m: int| j <= m < s.len() ==> !lex_le(#[trigger] s[m].0, cv.0),
        ensures
            j <= list@.len(),
            forall|m: int| j <= m < s.len() ==> !lex_le(#[trigger] s[m].0, cv.0),
            j == 0 || lex_le(s[j - 1].0, cv.0),
        decreases j,
    {
        if j == 0 {
            break;
        }
        if str_le(list[j - 1].0.as_str(), c.0.as_str()) {
            break;
        }
        j -= 1;
    }
    proof { lemma_insert_at(s, cv, j as int); }
    list.insert(j, c);
    assert(child_refs_view(list@) =~= s.take(j as int).push(cv) + s.skip(j as int));
}

proof fn lemma_node_for_step(ns: Seq<JsonView>, i: int, g: Guid)
    requires
        0 <= i < ns.len(),
    ensures
        node_for(ns.take(i + 1), g) == if node_guid(ns[i]) == Ok::<Guid, TreeError>(g) {
            Some(ns[i])
        } else {
            node_for(ns.take(i), g)
        },
{
    lemma_take_step(ns, i);
}

proof fn lemma_raw_children_step(ns: Seq<JsonView>, i: int, g: Guid)
    requires
        0 <= i < ns.len(),
    ensures
        raw_children(ns.take(i + 1), g) == match get_field(ns[i], "parentIndex"@) {
            Some(p) => match (parent_guid(p), node_guid(ns[i])) {
                (Ok(pg), Ok(cg)) => if pg == g {
                    raw_children(ns.take(i), g).push((position_of(p), cg))
                } else {
                    raw_children(ns.take(i), g)
                },
                _ => raw_children(ns.take(i), g),
            },
            None => raw_children(ns.take(i), g),
        },
{
    lemma_take_step(ns, i);
}

proof fn lemma_sort_push(s: Seq<ChildRef>, c: ChildRef)
    ensures
        sort_by_position(s.push(c)) == insert_by_position(sort_by_position(s), c),
{
    assert(s.push(c).drop_last() =~= s);
}

/// Slot `t` of `lists` holds the sorted children, within `ns`, of the guid
/// `owners[t]`, and `slots` maps that guid to `t`.
pub open spec fn slot_describes(
    slots: Map<u128, usize>,
    lists: Seq<Vec<(String, u64, u64)>>,
    owners: Seq<Guid>,
    ns: Seq<JsonView>,
    t: int,
) -> bool {
    &&& slots.contains_key(guid_key(owners[t]))
    &&& slots[guid_key(owners[t])] == t
    &&& child_refs_view(lists[t]@) == sort_by_position(raw_children(ns, owners[t]))
}

/// Indexes the node list by guid and collects every parent's children,
/// sorted by position.
#[verifier::loop_isolation(false)]
pub(crate) fn index_node_changes(nodes: Vec<Json>) -> (r: Result<NodeIndex, TreeError>)
    ensures
        match r {
            Ok(ix) => ix.indexes(nodes_view(nodes@)),
            Err(e) => index_error(nodes_view(nodes@)) == Some(e),
        },
{
    broadcast use vstd::std_specs::hash::group_hash_axioms;

    let ghost ns = nodes_view(nodes@);
    let n = nodes.len();
    let mut by_guid: HashMap<u128, usize> = HashMap::new();
    let mut i: usize = 0;
    assert(ns.skip(0) =~= ns);
    while i < n
        invariant
            n == ns.len(),
            i <= n,
            first_guid_error(ns) == first_guid_error(ns.skip(i as int)),
            forall|m: int| 0 <= m < i ==> #[trigger] node_guid(ns[m]) is Ok,
            forall|g: Guid|
                #[trigger] by_guid@.contains_key(guid_key(g)) <==> node_for(ns.take(i as int), g) is Some,
            forall|g: Guid|
                #[trigger] by_guid@.contains_key(guid_key(g)) ==> {
                    &&& by_guid@[guid_key(g)] < i
                    &&& Some(ns[by_guid@[guid_key(g)] as int]) == node_for(ns.take(i as int), g)
                    &&& node_guid(ns[by_guid@[guid_key(g)] as int]) == Ok::<Guid, TreeError>(g)
                    &&& forall|j: int|
                        by_guid@[guid_key(g)] < j < i ==> node_guid(#[trigger] ns[j]) != Ok::<
                            Guid,
                            TreeError,
                        >(g)
                },
        decreases n - i,
    {
        proof { lemma_first_guid_error_skip(ns, i as int); }
        let g = match node_guid_exec(&nodes[i]) {
            Ok(g) => g,
            Err(e) => {
                return Err(e);
            },
        };
        let ghost old_map = by_guid@;
        by_guid.insert(guid_key_exec(g), i);
        proof {
            assert forall|g2: Guid|
                #[trigger] by_guid@.contains_key(guid_key(g2)) <==> node_for(ns.take(i + 1), g2) is Some by {
                lemma_node_for_step(ns, i as int, g2);
                if guid_key(g2) == guid_key(g) {
                    lemma_guid_key_injective(g2, g);
                }
            }
            assert forall|g2: Guid| #[trigger] by_guid@.contains_key(guid_key(g2)) implies {
                &&& by_guid@[guid_key(g2)] < i + 1
                &&& Some(ns[by_guid@[guid_key(g2)] as int]) == node_for(ns.take(i + 1), g2)
                &&& node_guid(ns[by_guid@[guid_key(g2)] as int]) == Ok::<Guid, TreeError>(g2)
                &&& forall|j: int|
                    by_guid@[guid_key(g2)] < j < i + 1 ==> node_guid(#[trigger] ns[j]) != Ok::<
                        Guid,
                        TreeError,
                    >(g2)
            } by {
                lemma_node_for_step(ns, i as int, g2);
                if guid_key(g2) == guid_key(g) {
                    lemma_guid_key_injective(g2, g);
                }
            }
        }
        i += 1;
    }
    assert(ns.take(n as int) =~= ns);
    assert(first_guid_error(ns) is None);

    let mut child_slot: HashMap<u128, usize> = HashMap::new();
    let mut children: Vec<Vec<(String, u64, u64)>> = Vec::new();
    let ghost mut owners: Seq<Guid> = Seq::empty();
    let mut i: usize = 0;
    assert(ns.skip(0) =~= ns);
    while i < n
        invariant
            n == ns.len(),
            i <= n,
            first_parent_error(ns) == first_parent_error(ns.skip(i as int)),
            owners.len() == children@.len(),
            forall|t: int|
                0 <= t < children@.len() ==> #[trigger] slot_describes(
                    child_slot@,
                    children@,
                    owners,
                    ns.take(i as int),
                    t,
                ),
            forall|g: Guid|
                #[trigger] child_slot@.contains_key(guid_key(g)) ==> {
                    &&& child_slot@[guid_key(g)] < children@.len()
                    &&& owners[child_slot@[guid_key(g)] as int] == g
                },
            forall|g: Guid|
                !#[trigger] child_slot@.contains_key(guid_key(g)) ==> raw_children(
                    ns.take(i as int),
                    g,
                ).len() == 0,
        decreases n - i,
    {
        proof { lemma_first_parent_error_skip(ns, i as int); }
        let ghost prefix = ns.take(i as int);
        let ghost next = ns.take(i + 1);
        let node = &nodes[i];
        match node.get("parentIndex") {
            None => {
                proof {
                    assert forall|g: Guid| #[trigger] raw_children(next, g) == raw_children(
                        prefix,
                        g,
                    ) by {
                        lemma_raw_children_step(ns, i as int, g);
                    }
                    assert forall|t: int| 0 <= t < children@.len() implies #[trigger] slot_describes(
                        child_slot@,
                        children@,
                        owners,
                        next,
                        t,
                    ) by {
                        assert(slot_describes(child_slot@, children@, owners, prefix, t));
                        assert(raw_children(next, owners[t]) == raw_children(prefix, owners[t]));
                    }
                }
            },
            Some(p) => {
                let pg = match parent_guid_exec(p) {
                    Ok(pg) => pg,
                    Err(e) => {
                        return Err(e);
                    },
                };
                let cg = match node_guid_exec(node) {
                    Ok(cg) => cg,
                    Err(e) => {
                        assert(node_guid(ns[i as int]) is Ok);
                        return Err(e);
                    },
                };
                let pos = position_exec(p);
                let ghost c = (pos@, cg);
                proof {
                    assert forall|g: Guid| #[trigger] raw_children(next, g) == if g == pg {
                        raw_children(prefix, g).push(c)
                    } else {
                        raw_children(prefix, g)
                    } by {
                        lemma_raw_children_step(ns, i as int, g);
                    }
                    lemma_sort_push(raw_children(prefix, pg), c);
                }
                let key = guid_key_exec(pg);
                let ghost old_children = children@;
                let ghost old_slots = child_slot@;
                match child_slot.get(&key) {
                    Some(slot) => {
                        let s = *slot;
                        insert_child(&mut children[s], (pos, cg.0, cg.1));
                        proof {
                            assert(owners[s as int] == pg);
                            assert forall|t: int| 0 <= t < children@.len() implies #[trigger] slot_describes(
                                child_slot@,
                                children@,
                                owners,
                                next,
                                t,
                            ) by {
                                assert(slot_describes(old_slots, old_children, owners, prefix, t));
                                if t != s {
                                    assert(children@[t] == old_children[t]);
                                    if owners[t] == pg {
                                        assert(child_slot@[guid_key(owners[t])] == t);
                                    }
                                }
                            }
                        }
                    },
                    None => {
                        let mut list: Vec<(String, u64, u64)> = Vec::new();
                        list.push((pos, cg.0, cg.1));
                        children.push(list);
                        child_slot.insert(key, children.len() - 1);
                        let ghost old_owners = owners;
                        proof {
                            owners = owners.push(pg);
                            assert(raw_children(prefix, pg) =~= Seq::<ChildRef>::empty());
                            assert(child_refs_view(children@[children@.len() - 1]@) =~= seq![c]);
                            assert(insert_by_position(Seq::<ChildRef>::empty(), c) =~= seq![c]);
                            assert forall|t: int| 0 <= t < children@.len() implies #[trigger] slot_describes(
                                child_slot@,
                                children@,
                                owners,
                                next,
                                t,
                            ) by {
                                if t < children@.len() - 1 {
                                    assert(slot_describes(old_slots, old_children, old_owners, prefix, t));
                                    assert(old_owners[t] == owners[t]);
                                    assert(children@[t] == old_children[t]);
                                    if guid_key(owners[t]) == key {
                                        assert(false);
                                    }
                                    if owners[t] == pg {
                                        assert(old_slots.contains_key(guid_key(pg)));
                                    }
                                }
                            }
                            assert forall|g: Guid| #[trigger] child_slot@.contains_key(guid_key(g)) implies {
                                &&& child_slot@[guid_key(g)] < children@.len()
                                &&& owners[child_slot@[guid_key(g)] as int] == g
                            } by {
                                if guid_key(g) == key {
                                    lemma_guid_key_injective(g, pg);
                                }
                            }
                        }
                    },
                }
            },
        }
        i += 1;
    }
    assert(ns.take(n as int) =~= ns);
    let ix = NodeIndex { nodes, by_guid, child_slot, children };
    proof {
        assert forall|g: Guid| #[trigger] ix.child_slot@.contains_key(guid_key(g)) implies {
            &&& ix.child_slot@[guid_key(g)] < ix.children@.len()
            &&& child_refs_view(ix.children@[ix.child_slot@[guid_key(g)] as int]@) == children_of(ns, g)
        } by {
            let t = ix.child_slot@[guid_key(g)] as int;
            assert(owners[t] == g);
            assert(slot_describes(ix.child_slot@, ix.children@, owners, ns.take(n as int), t));
        }
        assert forall|g: Guid| !#[trigger] ix.child_slot@.contains_key(guid_key(g)) implies children_of(
            ns,
            g,
        ).len() == 0 by {
            assert(raw_children(ns, g) =~= Seq::<ChildRef>::empty());
        }
    }
    Ok(ix)
}

/// The value of a build result.
pub open spec fn result_view(r: Result<Json, TreeError>) -> Result<JsonView, TreeError> {
    match r {
        Ok(j) => Ok(j@),
        Err(e) => Err(e),
    }
}

/// `r` is the outcome `s`: the same document, or an error with the text of
/// the same failure.
pub open spec fn reports(r: Result<Json, FigError>, s: Result<JsonView, TreeError>) -> bool {
    match r {
        Ok(t) => s == Ok::<JsonView, TreeError>(t@),
        Err(e) => s is Err && fig_error_text(e) == error_text(s->Err_0),
    }
}

/// Reports a failure of the tree builder as a [`FigError`].
fn report(built: Result<Json, TreeError>) -> (r: Result<Json, FigError>)
    ensures
        reports(r, result_view(built)),
{
    match built {
        Ok(t) => Ok(t),
        Err(e) => Err(FigError::from_tree_error(e)),
    }
}

proof fn lemma_subtrees_step(ns: Seq<JsonView>, kids: Seq<ChildRef>, depth: nat, j: int)
    requires
        0 <= j < kids.len(),
    ensures
        subtrees_of(ns, kids.take(j + 1), depth) == match subtrees_of(ns, kids.take(j), depth) {
            Err(e) => Err(e),
            Ok(ts) => match tree_of(ns, kids[j].1, depth) {
                Err(e) => Err(e),
                Ok(t) => Ok(ts.push(t)),
            },
        },
{
    assert(kids.take(j + 1).drop_last() =~= kids.take(j));
    assert(kids.take(j + 1).last() == kids[j]);
}

proof fn lemma_subtrees_error_persists(ns: Seq<JsonView>, kids: Seq<ChildRef>, depth: nat, j: int)
    requires
        0 <= j <= kids.len(),
        subtrees_of(ns, kids.take(j), depth) is Err,
    ensures
        subtrees_of(ns, kids, depth) == subtrees_of(ns, kids.take(j), depth),
    decreases kids.len(),
{
    if j == kids.len() {
        assert(kids.take(j) =~= kids);
    } else {
        let d = kids.drop_last();
        assert(d.take(j) =~= kids.take(j));
        lemma_subtrees_error_persists(ns, d, depth, j);
    }
}

impl NodeIndex {
    /// The node with guid `g`.
    fn lookup(&self, Ghost(ns): Ghost<Seq<JsonView>>, g: (u64, u64)) -> (r: Option<&Json>)
        requires
            self.indexes(ns),
        ensures
            match r {
                Some(x) => node_for(ns, g) == Some(x@),
                None => node_for(ns, g) is None,
            },
    {
        broadcast use vstd::std_specs::hash::group_hash_axioms;

        match self.by_guid.get(&guid_key_exec(g)) {
            Some(i) => Some(&self.nodes[*i]),
            None => None,
        }
    }

    /// The sorted children of `g`, `None` when it has none.
    fn children_for(&self, Ghost(ns): Ghost<Seq<JsonView>>, g: (u64, u64)) -> (r: Option<
        &Vec<(String, u64, u64)>,
    >)
        requires
            self.indexes(ns),
        ensures
            match r {
                Some(v) => child_refs_view(v@) == children_of(ns, g),
                None => children_of(ns, g).len() == 0,
            },
    {
        broadcast use vstd::std_specs::hash::group_hash_axioms;

        match self.child_slot.get(&guid_key_exec(g)) {
            Some(s) => Some(&self.children[*s]),
            None => None,
        }
    }
}

/// Builds the subtree rooted at `g`, descending at most `depth` levels.
#[verifier::loop_isolation(false)]
pub(crate) fn build_node(ix: &NodeIndex, Ghost(ns): Ghost<Seq<JsonView>>, g: (u64, u64), depth: usize) -> (r:
    Result<Json, TreeError>)
    requires
        ix.indexes(ns),
    ensures
        result_view(r) == tree_of(ns, g, depth as nat),
    decreases depth,
{
    let node = match ix.lookup(Ghost(ns), g) {
        Some(n) => n,
        None => {
            return Err(TreeError::NodeNotFound { session: g.0, local: g.1 });
        },
    };
    if depth == 0 {
        return Err(TreeError::CyclicHierarchy);
    }
    match node {
        Json::Object(es) => {
            proof { lemma_object_entries_view(*es); }
            let mut own = copy_entries(es);
            remove_entry(&mut own, "parentIndex");
            let ghost kv = children_of(ns, g);
            let mut subtrees: Vec<Json> = Vec::new();
            let ghost mut ts: Seq<JsonView> = Seq::empty();
            match ix.children_for(Ghost(ns), g) {
                None => {
                    assert(kv =~= Seq::<ChildRef>::empty());
                },
                Some(kids) => {
                    let mut j: usize = 0;
                    assert(kv.take(0) =~= Seq::<ChildRef>::empty());
                    while j < kids.len()
                        invariant
                            ix.indexes(ns),
                            1 <= depth,
                            kv == children_of(ns, g),
                            child_refs_view(kids@) == kv,
                            j <= kids@.len(),
                            subtrees_of(ns, kv.take(j as int), (depth - 1) as nat) == Ok::<
                                Seq<JsonView>,
                                TreeError,
                            >(ts),
                            subtrees@.len() == ts.len(),
                            forall|m: int| 0 <= m < ts.len() ==> #[trigger] subtrees@[m]@ == ts[m],
                        decreases kids@.len() - j,
                    {
                        proof { lemma_subtrees_step(ns, kv, (depth - 1) as nat, j as int); }
                        let kid = (kids[j].1, kids[j].2);
                        match build_node(ix, Ghost(ns), kid, depth - 1) {
                            Err(e) => {
                                proof {
                                    assert(kv[j as int].1 == kid);
                                    assert(subtrees_of(ns, kv.take(j + 1), (depth - 1) as nat) == Err::<Seq<JsonView>, TreeError>(e));
                                    lemma_subtrees_error_persists(ns, kv, (depth - 1) as nat, j + 1);
                                }
                                return Err(e);
                            },
                            Ok(t) => {
                                proof { ts = ts.push(t@); }
                                subtrees.push(t);
                            },
                        }
                        j += 1;
                    }
                    assert(kv.take(j as int) =~= kv);
                },
            }
            if subtrees.len() > 0 {
                proof { lemma_array_view(subtrees, ts); }
                set_entry(&mut own, "children".to_owned(), Json::Array(subtrees));
            }
            proof { lemma_object_entries_view(own); }
            Ok(Json::Object(own))
        },
        _ => Ok(node.deep_copy()),
    }
}

/// `build_tree`: the document tree rooted at guid `0:0`.
///
/// Fails when a node guid or a `parentIndex` guid cannot be read, when no
/// node has guid `0:0`, or when the parent links below the root go deeper
/// than the list is long (which takes a cycle).
pub fn build_tree(node_changes: Vec<Json>) -> (r: Result<Json, FigError>)
    ensures
        reports(r, built_tree(nodes_view(node_changes@))),
{
    let ghost ns = nodes_view(node_changes@);
    let n = node_changes.len();
    let built = match index_node_changes(node_changes) {
        Err(e) => Err(e),
        Ok(ix) => build_node(&ix, Ghost(ns), (0, 0), n),
    };
    report(built)
}

/// The node is a component master: its `type` is `SYMBOL`, either as a
/// plain string or as an `{__enum__, value}` object.
pub open spec fn node_is_symbol(n: JsonView) -> bool {
    match get_field(n, "type"@) {
        Some(JsonView::Str(t)) => t == "SYMBOL"@,
        Some(JsonView::Object(m)) => match field(m, "value"@) {
            Some(JsonView::Str(v)) => v == "SYMBOL"@,
            _ => false,
        },
        _ => false,
    }
}

/// The guid of the parent of the node with guid `g`, when there is such a
/// node and its `parentIndex` can be read.
pub open spec fn parent_of(ns: Seq<JsonView>, g: Guid) -> Option<Guid> {
    match node_for(ns, g) {
        Some(n) => match get_field(n, "parentIndex"@) {
            Some(p) => match parent_guid(p) {
                Ok(pg) => Some(pg),
                Err(_) => None,
            },
            None => None,
        },
        None => None,
    }
}

/// The guid `g` is that of a component master.
pub open spec fn is_master(ns: Seq<JsonView>, g: Option<Guid>) -> bool {
    match g {
        Some(a) => match node_for(ns, a) {
            Some(n) => node_is_symbol(n),
            None => false,
        },
        None => false,
    }
}

/// Climbs `k` parent links from `start`.
pub open spec fn climb(ns: Seq<JsonView>, start: Option<Guid>, k: nat) -> Option<Guid>
    decreases k,
{
    if k == 0 {
        start
    } else {
        match start {
            Some(g) => climb(ns, parent_of(ns, g), (k - 1) as nat),
            None => None,
        }
    }
}

/// The `k`-th ancestor of `g`.
pub open spec fn ancestor(ns: Seq<JsonView>, g: Guid, k: nat) -> Option<Guid> {
    climb(ns, Some(g), k)
}

/// Some strict ancestor of `g` is a component master.
pub open spec fn has_symbol_ancestor(ns: Seq<JsonView>, g: Guid) -> bool {
    exists|k: nat| k >= 1 && is_master(ns, #[trigger] ancestor(ns, g, k))
}

/// Some ancestor of `g` at most `bound` links up is a component master.
pub open spec fn has_symbol_ancestor_within(ns: Seq<JsonView>, g: Guid, bound: nat) -> bool {
    exists|k: nat| 1 <= k <= bound && is_master(ns, #[trigger] ancestor(ns, g, k))
}

proof fn lemma_climb_add(ns: Seq<JsonView>, start: Option<Guid>, a: nat, b: nat)
    ensures
        climb(ns, start, a + b) == climb(ns, climb(ns, start, a), b),
    decreases a,
{
    if a > 0 {
        match start {
            Some(g) => lemma_climb_add(ns, parent_of(ns, g), (a - 1) as nat, b),
            None => {
                lemma_climb_none(ns, b);
                lemma_climb_none(ns, a + b);
            },
        }
    }
}

proof fn lemma_climb_none(ns: Seq<JsonView>, k: nat)
    ensures
        climb(ns, None, k) is None,
    decreases k,
{
}

pub(crate) proof fn lemma_node_for_member(ns: Seq<JsonView>, g: Guid)
    requires
        node_for(ns, g) is Some,
    ensures
        exists|i: int| 0 <= i < ns.len() && ns[i] == node_for(ns, g)->0 && node_guid(ns[i]) == Ok::<Guid, TreeError>(g),
    decreases ns.len(),
{
    if node_guid(ns.last()) != Ok::<Guid, TreeError>(g) {
        lemma_node_for_member(ns.drop_last(), g);
        let i = choose|i: int| 0 <= i < ns.drop_last().len() && ns.drop_last()[i] == node_for(ns.drop_last(), g)->0 && node_guid(ns.drop_last()[i]) == Ok::<Guid, TreeError>(g);
        assert(ns[i] == ns.drop_last()[i]);
    } else {
        assert(ns[ns.len() - 1] == ns.last());
    }
}

/// The parent guid named by node `n`, or `(0, 0)`.
pub open spec fn named_parent(n: JsonView) -> Guid {
    match get_field(n, "parentIndex"@) {
        Some(p) => match parent_guid(p) {
            Ok(pg) => pg,
            Err(_) => (0, 0),
        },
        None => (0, 0),
    }
}

/// Every guid that some node names as its parent.
pub open spec fn named_parents(ns: Seq<JsonView>) -> Seq<Guid> {
    Seq::new(ns.len(), |i: int| named_parent(ns[i]))
}

proof fn lemma_ancestor_is_named_parent(ns: Seq<JsonView>, g: Guid, k: nat)
    requires
        k >= 1,
        ancestor(ns, g, k) is Some,
    ensures
        named_parents(ns).contains(ancestor(ns, g, k)->0),
{
    lemma_climb_add(ns, Some(g), (k - 1) as nat, 1);
    let prev = ancestor(ns, g, (k - 1) as nat);
    if prev is None {
        lemma_climb_none(ns, 1);
    }
    let b = prev->0;
    assert(climb(ns, Some(b), 1) == climb(ns, parent_of(ns, b), 0));
    assert(parent_of(ns, b) is Some);
    lemma_node_for_member(ns, b);
    let i = choose|i: int| 0 <= i < ns.len() && ns[i] == node_for(ns, b)->0 && node_guid(ns[i]) == Ok::<Guid, TreeError>(b);
    assert(named_parents(ns)[i] == ancestor(ns, g, k)->0);
}

proof fn lemma_climb_some_prefix(ns: Seq<JsonView>, start: Option<Guid>, j: nat, k: nat)
    requires
        j <= k,
        climb(ns, start, k) is Some,
    ensures
        climb(ns, start, j) is Some,
{
    lemma_climb_add(ns, start, j, (k - j) as nat);
    if climb(ns, start, j) is None {
        lemma_climb_none(ns, (k - j) as nat);
    }
}

/// Among the first `ns.len() + 1` ancestors two coincide, so the chain of
/// ancestors repeats, and any ancestor further up is one of those.
proof fn lemma_far_ancestor_repeats(ns: Seq<JsonView>, g: Guid, k: nat)
    requires
        k > ns.len() + 1,
        ancestor(ns, g, k) is Some,
    ensures
        exists|m: nat| 1 <= m <= ns.len() + 1 && #[trigger] ancestor(ns, g, m) == ancestor(ns, g, k),
    decreases k,
{
    let bound = (ns.len() + 1) as nat;
    let chain = Seq::new(bound, |m: int| ancestor(ns, g, (m + 1) as nat)->0);
    let parents = named_parents(ns);
    assert forall|x: Guid| chain.to_set().contains(x) implies parents.to_set().contains(x) by {
        let m = choose|m: int| 0 <= m < chain.len() && chain[m] == x;
        lemma_climb_some_prefix(ns, Some(g), (m + 1) as nat, k);
        lemma_ancestor_is_named_parent(ns, g, (m + 1) as nat);
    }
    parents.lemma_cardinality_of_set();
    vstd::seq_lib::seq_to_set_is_finite(parents);
    vstd::set_lib::lemma_len_subset(chain.to_set(), parents.to_set());
    if chain.no_duplicates() {
        chain.unique_seq_to_set();
        assert(false);
    }
    let (q, r) = choose|q: int, r: int| 0 <= q < chain.len() && 0 <= r < chain.len() && q != r && chain[q] == chain[r];
    let (lo, hi) = if q < r { (q, r) } else { (r, q) };
    lemma_climb_some_prefix(ns, Some(g), (lo + 1) as nat, k);
    lemma_climb_some_prefix(ns, Some(g), (hi + 1) as nat, k);
    let a_lo = ancestor(ns, g, (lo + 1) as nat);
    let a_hi = ancestor(ns, g, (hi + 1) as nat);
    assert(a_lo == a_hi);
    let rest = (k - (hi + 1)) as nat;
    lemma_climb_add(ns, Some(g), (hi + 1) as nat, rest);
    lemma_climb_add(ns, Some(g), (lo + 1) as nat, rest);
    let k2 = (lo + 1 + rest) as nat;
    assert(ancestor(ns, g, k2) == ancestor(ns, g, k));
    if k2 > bound {
        lemma_far_ancestor_repeats(ns, g, k2);
    }
}

/// Looking `ns.len() + 1` links up suffices to find a master ancestor.
pub proof fn lemma_symbol_ancestor_bound(ns: Seq<JsonView>, g: Guid)
    ensures
        has_symbol_ancestor(ns, g) == has_symbol_ancestor_within(ns, g, (ns.len() + 1) as nat),
{
    if has_symbol_ancestor(ns, g) {
        let k = choose|k: nat| k >= 1 && is_master(ns, #[trigger] ancestor(ns, g, k));
        if k > ns.len() + 1 {
            lemma_far_ancestor_repeats(ns, g, k);
            let m = choose|m: nat| 1 <= m <= ns.len() + 1 && #[trigger] ancestor(ns, g, m) == ancestor(ns, g, k);
            assert(is_master(ns, ancestor(ns, g, m)));
        }
    }
}

fn node_is_symbol_exec(n: &Json) -> (r: bool)
    ensures
        r == node_is_symbol(n@),
{
    match n.get("type") {
        Some(Json::Str(t)) => crate::text::str_eq(t.as_str(), "SYMBOL"),
        Some(Json::Object(m)) => {
            proof { lemma_object_entries_view(*m); }
            match find_field(m, "value") {
                Some(Json::Str(v)) => crate::text::str_eq(v.as_str(), "SYMBOL"),
                _ => false,
            }
        },
        _ => false,
    }
}

impl NodeIndex {
    fn parent_of_exec(&self, Ghost(ns): Ghost<Seq<JsonView>>, g: (u64, u64)) -> (r: Option<(u64, u64)>)
        requires
            self.indexes(ns),
        ensures
            r == parent_of(ns, g),
    {
        match self.lookup(Ghost(ns), g) {
            Some(n) => match n.get("parentIndex") {
                Some(p) => match parent_guid_exec(p) {
                    Ok(pg) => Some(pg),
                    Err(_) => None,
                },
                None => None,
            },
            None => None,
        }
    }

    fn is_master_exec(&self, Ghost(ns): Ghost<Seq<JsonView>>, g: (u64, u64)) -> (r: bool)
        requires
            self.indexes(ns),
        ensures
            r == is_master(ns, Some(g)),
    {
        match self.lookup(Ghost(ns), g) {
            Some(n) => node_is_symbol_exec(n),
            None => false,
        }
    }

    /// Whether some strict ancestor of `g` is a component master. Walks up
    /// at most one link more than there are nodes, which
    /// [`lemma_symbol_ancestor_bound`] shows is enough.
    #[verifier::loop_isolation(false)]
    fn has_symbol_ancestor_exec(&self, Ghost(ns): Ghost<Seq<JsonView>>, g: (u64, u64)) -> (r: bool)
        requires
            self.indexes(ns),
        ensures
            r == has_symbol_ancestor(ns, g),
    {
        proof { lemma_symbol_ancestor_bound(ns, g); }
        let bound: u128 = self.nodes.len() as u128 + 1;
        let mut cur = match self.parent_of_exec(Ghost(ns), g) {
            Some(p) => p,
            None => {
                proof {
                    assert(ancestor(ns, g, 1) == climb(ns, parent_of(ns, g), 0));
                    assert forall|k: nat| 1 <= k <= bound implies !is_master(
                        ns,
                        #[trigger] ancestor(ns, g, k),
                    ) by {
                        lemma_climb_add(ns, Some(g), 1, (k - 1) as nat);
                        lemma_climb_none(ns, (k - 1) as nat);
                    }
                    assert(!has_symbol_ancestor_within(ns, g, (ns.len() + 1) as nat));
                }
                return false;
            },
        };
        let mut k: u128 = 1;
        assert(ancestor(ns, g, 1) == climb(ns, parent_of(ns, g), 0));
        loop
            invariant
                self.indexes(ns),
                bound == ns.len() + 1,
                1 <= k <= bound,
                ancestor(ns, g, k as nat) == Some(cur),
                forall|m: nat| 1 <= m < k ==> !is_master(ns, #[trigger] ancestor(ns, g, m)),
            decreases bound - k,
        {
            if self.is_master_exec(Ghost(ns), cur) {
                return true;
            }
            if k == bound {
                assert(!has_symbol_ancestor_within(ns, g, (ns.len() + 1) as nat));
                return false;
            }
            proof {
                lemma_climb_add(ns, Some(g), k as nat, 1);
                assert(climb(ns, Some(cur), 1) == climb(ns, parent_of(ns, cur), 0));
            }
            match self.parent_of_exec(Ghost(ns), cur) {
                Some(p) => {
                    cur = p;
                },
                None => {
                    proof {
                        assert forall|m: nat| 1 <= m <= bound implies !is_master(
                            ns,
                            #[trigger] ancestor(ns, g, m),
                        ) by {
                            if m > k {
                                lemma_climb_add(ns, Some(g), (k + 1) as nat, (m - k - 1) as nat);
                                lemma_climb_none(ns, (m - k - 1) as nat);
                            }
                        }
                        assert(!has_symbol_ancestor_within(ns, g, (ns.len() + 1) as nat));
                    }
                    return false;
                },
            }
            k = k + 1;
        }
    }
}

/// Node `i` is the last node of its guid, a component master, and not
/// inside another master: its subtree is emitted as a component.
pub open spec fn is_component_root(ns: Seq<JsonView>, i: int) -> bool {
    match node_guid(ns[i]) {
        Ok(g) => is_last_with_guid(ns, i, g) && node_is_symbol(ns[i]) && !has_symbol_ancestor(ns, g),
        Err(_) => false,
    }
}

/// The guids of the component roots among the first `upto` nodes, in list
/// order.
pub open spec fn component_roots(ns: Seq<JsonView>, upto: int) -> Seq<Guid>
    decreases upto,
{
    if upto <= 0 {
        Seq::empty()
    } else {
        let earlier = component_roots(ns, upto - 1);
        if is_component_root(ns, upto - 1) {
            earlier.push(node_guid(ns[upto - 1])->Ok_0)
        } else {
            earlier
        }
    }
}

/// The trees rooted at `gs`, or the first error among them.
pub open spec fn forest_of(ns: Seq<JsonView>, gs: Seq<Guid>, depth: nat) -> Result<Seq<JsonView>, TreeError>
    decreases gs.len(),
{
    if gs.len() == 0 {
        Ok(Seq::empty())
    } else {
        match forest_of(ns, gs.drop_last(), depth) {
            Err(e) => Err(e),
            Ok(ts) => match tree_of(ns, gs.last(), depth) {
                Err(e) => Err(e),
                Ok(t) => Ok(ts.push(t)),
            },
        }
    }
}

/// The `{components, document}` wrapper, keys in sorted order:
/// `components` is present when there is at least one component.
pub open spec fn wrapper(doc: JsonView, components: Seq<JsonView>) -> JsonView {
    JsonView::Object(
        if components.len() == 0 {
            seq![("document"@, doc)]
        } else {
            seq![("components"@, JsonView::Array(components)), ("document"@, doc)]
        },
    )
}

/// What `build_tree_with_components` returns for the node list `ns`.
pub open spec fn built_with_components(ns: Seq<JsonView>) -> Result<JsonView, TreeError> {
    match index_error(ns) {
        Some(e) => Err(e),
        None => match tree_of(ns, root_guid(), ns.len()) {
            Err(e) => Err(e),
            Ok(doc) => match forest_of(ns, component_roots(ns, ns.len() as int), ns.len()) {
                Err(e) => Err(e),
                Ok(cs) => Ok(wrapper(doc, cs)),
            },
        },
    }
}

/// `build_tree_with_components` fails exactly when `build_tree` fails or
/// a component cannot be built; its `document` is the tree that
/// `build_tree` builds.
pub proof fn lemma_document_is_built_tree(ns: Seq<JsonView>)
    ensures
        built_tree(ns) is Err ==> built_with_components(ns) == built_tree(ns),
        built_with_components(ns) is Ok ==> built_tree(ns) is Ok && get_field(
            built_with_components(ns)->Ok_0,
            "document"@,
        ) == Some(built_tree(ns)->Ok_0),
{
    reveal_strlit("components");
    reveal_strlit("document");
    assert("components"@.len() != "document"@.len());
    if index_error(ns) is None {
        if let Ok(doc) = tree_of(ns, root_guid(), ns.len()) {
            if let Ok(cs) = forest_of(ns, component_roots(ns, ns.len() as int), ns.len()) {
                let es = wrapper(doc, cs)->Object_0;
                if cs.len() > 0 {
                    assert(es[0].0 != "document"@);
                    assert(es.drop_first() =~= seq![("document"@, doc)]);
                    assert(field(es.drop_first(), "document"@) == Some(doc));
                }
            }
        }
    }
}

proof fn lemma_forest_error_persists(ns: Seq<JsonView>, gs: Seq<Guid>, extra: Seq<Guid>, depth: nat)
    requires
        forest_of(ns, gs, depth) is Err,
    ensures
        forest_of(ns, gs + extra, depth) == forest_of(ns, gs, depth),
    decreases extra.len(),
{
    if extra.len() == 0 {
        assert(gs + extra =~= gs);
    } else {
        lemma_forest_error_persists(ns, gs, extra.drop_last(), depth);
        assert((gs + extra).drop_last() =~= gs + extra.drop_last());
    }
}

proof fn lemma_roots_extend(ns: Seq<JsonView>, i: int, n: int) -> (extra: Seq<Guid>)
    requires
        0 <= i <= n,
    ensures
        component_roots(ns, n) == component_roots(ns, i) + extra,
    decreases n - i,
{
    if i == n {
        assert(component_roots(ns, n) =~= component_roots(ns, i) + Seq::<Guid>::empty());
        Seq::empty()
    } else {
        let extra = lemma_roots_extend(ns, i, n - 1);
        if is_component_root(ns, n - 1) {
            let g = node_guid(ns[n - 1])->Ok_0;
            assert(component_roots(ns, n) =~= component_roots(ns, i) + extra.push(g));
            extra.push(g)
        } else {
            extra
        }
    }
}

/// `build_tree_with_components`: the document tree plus the subtrees of
/// the component masters, as `{components, document}`.
///
/// The masters are the nodes of type `SYMBOL` that have no master among
/// their ancestors, taken in the order of the node list; `components` is
/// left out when there is none.
pub fn build_tree_with_components(node_changes: Vec<Json>) -> (r: Result<Json, FigError>)
    ensures
        reports(r, built_with_components(nodes_view(node_changes@))),
{
    report(build_with_components(node_changes))
}

#[verifier::loop_isolation(false)]
fn build_with_components(node_changes: Vec<Json>) -> (r: Result<Json, TreeError>)
    ensures
        result_view(r) == built_with_components(nodes_view(node_changes@)),
{
    broadcast use vstd::std_specs::hash::group_hash_axioms;

    let ghost ns = nodes_view(node_changes@);
    let n = node_changes.len();
    let ix = match index_node_changes(node_changes) {
        Err(e) => {
            return Err(e);
        },
        Ok(ix) => ix,
    };
    let document = match build_node(&ix, Ghost(ns), (0, 0), n) {
        Err(e) => {
            return Err(e);
        },
        Ok(d) => d,
    };
    let mut components: Vec<Json> = Vec::new();
    let ghost mut cs: Seq<JsonView> = Seq::empty();
    let mut i: usize = 0;
    while i < n
        invariant
            ix.indexes(ns),
            n == ns.len(),
            i <= n,
            forest_of(ns, component_roots(ns, i as int), n as nat) == Ok::<Seq<JsonView>, TreeError>(cs),
            components@.len() == cs.len(),
            forall|m: int| 0 <= m < cs.len() ==> #[trigger] components@[m]@ == cs[m],
        decreases n - i,
    {
        let node = &ix.nodes[i];
        assert(node@ == ns[i as int]);
        let g = match node_guid_exec(node) {
            Ok(g) => g,
            Err(_) => {
                assert(first_guid_error(ns) is None);
                proof { lemma_guid_ok_at(ns, i as int); }
                assert(false);
                (0, 0)
            },
        };
        proof { lemma_node_for_some(ns, i as int, g); }
        let last = match ix.by_guid.get(&guid_key_exec(g)) {
            Some(j) => *j == i,
            None => false,
        };
        if last && node_is_symbol_exec(node) && !ix.has_symbol_ancestor_exec(Ghost(ns), g) {
            assert(is_component_root(ns, i as int));
            assert(component_roots(ns, i + 1) == component_roots(ns, i as int).push(g));
            let ghost gs = component_roots(ns, i as int);
            assert(gs.push(g).drop_last() =~= gs);
            match build_node(&ix, Ghost(ns), g, n) {
                Err(e) => {
                    proof {
                        let extra = lemma_roots_extend(ns, i + 1, n as int);
                        lemma_forest_error_persists(ns, component_roots(ns, i + 1), extra, n as nat);
                    }
                    return Err(e);
                },
                Ok(t) => {
                    proof { cs = cs.push(t@); }
                    components.push(t);
                },
            }
        } else {
            proof {
                if is_component_root(ns, i as int) {
                    let j = ix.by_guid@[guid_key(g)] as int;
                    assert(is_last_with_guid(ns, j, g));
                    if j < i {
                        assert(node_guid(ns[i as int]) == Ok::<Guid, TreeError>(g));
                    } else if i < j {
                        assert(node_guid(ns[j]) == Ok::<Guid, TreeError>(g));
                    }
                }
            }
        }
        i += 1;
    }
    let mut out: Vec<(String, Json)> = Vec::new();
    if components.len() > 0 {
        proof { lemma_array_view(components, cs); }
        out.push(("components".to_owned(), Json::Array(components)));
    }
    out.push(("document".to_owned(), document));
    proof { lemma_object_entries_view(out); }
    assert(entries_view(out@) =~= wrapper(document@, cs)->Object_0);
    Ok(Json::Object(out))
}

pub(crate) proof fn lemma_node_for_some(ns: Seq<JsonView>, i: int, g: Guid)
    requires
        0 <= i < ns.len(),
        node_guid(ns[i]) == Ok::<Guid, TreeError>(g),
    ensures
        node_for(ns, g) is Some,
    decreases ns.len(),
{
    if i < ns.len() - 1 && node_guid(ns.last()) != Ok::<Guid, TreeError>(g) {
        assert(ns.drop_last()[i] == ns[i]);
        lemma_node_for_some(ns.drop_last(), i, g);
    }
}

pub(crate) proof fn lemma_guid_ok_at(ns: Seq<JsonView>, i: int)
    requires
        0 <= i < ns.len(),
        first_guid_error(ns) is None,
    ensures
        node_guid(ns[i]) is Ok,
    decreases i,
{
    if i > 0 {
        assert(ns.drop_first()[i - 1] == ns[i]);
        lemma_guid_ok_at(ns.drop_first(), i - 1);
    }
}

} // verus!
