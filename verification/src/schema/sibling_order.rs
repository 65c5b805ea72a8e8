//! The order of siblings in the built tree.

use vstd::prelude::*;
use crate::json::JsonView;
use crate::text::{lex_le, lemma_lex_le_total, lemma_lex_le_transitive};
use super::tree::{ChildRef, Guid, insert_by_position, sort_by_position, children_of, raw_children};

verus! {

/// The entries of `s` are in non-decreasing order of position.
pub open spec fn in_position_order(s: Seq<ChildRef>) -> bool {
    forall|i: int, j: int| 0 <= i < j < s.len() ==> lex_le(#[trigger] s[i].0, #[trigger] s[j].0)
}

proof fn lemma_insert_by_position(s: Seq<ChildRef>, c: ChildRef)
    requires
        in_position_order(s),
    ensures
        in_position_order(insert_by_position(s, c)),
        insert_by_position(s, c).to_multiset() =~= s.to_multiset().insert(c),
        forall|i: int|
            0 <= i < insert_by_position(s, c).len() ==> #[trigger] insert_by_position(s, c)[i] == c
                || s.contains(insert_by_position(s, c)[i]),
    decreases s.len(),
{
    broadcast use vstd::seq_lib::group_to_multiset_ensures;

    let r = insert_by_position(s, c);
    if s.len() == 0 {
        assert(r =~= seq![c]);
        assert(s.to_multiset() =~= vstd::multiset::Multiset::empty());
        assert(seq![c] =~= Seq::<ChildRef>::empty().push(c));
    } else if lex_le(s.last().0, c.0) {
        assert forall|i: int, j: int| 0 <= i < j < r.len() implies lex_le(#[trigger] r[i].0, #[trigger] r[j].0) by {
            if j == s.len() as int {
                if i < s.len() - 1 {
                    lemma_lex_le_transitive(s[i].0, s.last().0, c.0);
                }
            }
        }
        assert forall|i: int| 0 <= i < r.len() implies #[trigger] r[i] == c || s.contains(r[i]) by {
            if i < s.len() {
                assert(r[i] == s[i]);
            }
        }
    } else {
        let t = s.drop_last();
        let last = s.last();
        assert(in_position_order(t)) by {
            assert forall|i: int, j: int| 0 <= i < j < t.len() implies lex_le(#[trigger] t[i].0, #[trigger] t[j].0) by {
                assert(t[i] == s[i] && t[j] == s[j]);
            }
        }
        lemma_insert_by_position(t, c);
        let u = insert_by_position(t, c);
        assert(r == u.push(last));
        lemma_lex_le_total(last.0, c.0);
        assert forall|i: int| 0 <= i < u.len() implies lex_le(#[trigger] u[i].0, last.0) by {
            if u[i] != c {
                assert(t.contains(u[i]));
                let k = choose|k: int| 0 <= k < t.len() && t[k] == u[i];
                assert(s[k] == t[k]);
                assert(s[s.len() - 1] == last);
            }
        }
        assert forall|i: int, j: int| 0 <= i < j < r.len() implies lex_le(#[trigger] r[i].0, #[trigger] r[j].0) by {
            if j == u.len() as int {
                assert(r[i] == u[i]);
                assert(lex_le(u[i].0, last.0));
            } else {
                assert(r[i] == u[i] && r[j] == u[j]);
            }
        }
        assert(s =~= t.push(last));
        assert forall|i: int| 0 <= i < r.len() implies #[trigger] r[i] == c || s.contains(r[i]) by {
            if i < u.len() {
                assert(r[i] == u[i]);
                if u[i] != c {
                    let k = choose|k: int| 0 <= k < t.len() && t[k] == u[i];
                    assert(s[k] == t[k]);
                }
            } else {
                assert(s[s.len() - 1] == last);
            }
        }
    }
}

/// Sorting by position gives the same entries, in position order.
pub proof fn lemma_sort_by_position(s: Seq<ChildRef>)
    ensures
        in_position_order(sort_by_position(s)),
        sort_by_position(s).to_multiset() =~= s.to_multiset(),
    decreases s.len(),
{
    broadcast use vstd::seq_lib::group_to_multiset_ensures;

    if s.len() > 0 {
        lemma_sort_by_position(s.drop_last());
        lemma_insert_by_position(sort_by_position(s.drop_last()), s.last());
        assert(s =~= s.drop_last().push(s.last()));
    }
}

/// Siblings come in order of their `position` strings, and they are
/// exactly the nodes that name the parent in their `parentIndex`.
pub proof fn lemma_children_in_position_order(ns: Seq<JsonView>, g: Guid)
    ensures
        in_position_order(children_of(ns, g)),
        children_of(ns, g).to_multiset() =~= raw_children(ns, g).to_multiset(),
{
    lemma_sort_by_position(raw_children(ns, g));
}

/// Whether a child sits at position `p`.
pub open spec fn at_position(p: Seq<char>) -> spec_fn(ChildRef) -> bool {
    |c: ChildRef| c.0 == p
}

proof fn lemma_insert_keeps_ties(s: Seq<ChildRef>, c: ChildRef, p: Seq<char>)
    ensures
        insert_by_position(s, c).filter(at_position(p)) == if c.0 == p {
            s.filter(at_position(p)).push(c)
        } else {
            s.filter(at_position(p))
        },
    decreases s.len(),
{
    reveal(Seq::filter);
    let f = at_position(p);
    assert(f(c) == (c.0 == p));
    if s.len() == 0 {
        let one = seq![c];
        assert(one.drop_last() =~= s);
        assert(one.last() == c);
        assert(s.filter(f) == s);
        assert(one.filter(f) == if f(c) { s.filter(f).push(c) } else { s.filter(f) });
    } else if lex_le(s.last().0, c.0) {
        assert(s.push(c).drop_last() =~= s);
        assert(s.push(c).last() == c);
    } else {
        let t = s.drop_last();
        let last = s.last();
        lemma_insert_keeps_ties(t, c, p);
        let u = insert_by_position(t, c);
        assert(u.push(last).drop_last() =~= u);
        assert(u.push(last).last() == last);
        crate::text::lemma_lex_le_reflexive(c.0);
        assert(last.0 != c.0);
        assert(f(last) == (last.0 == p));
        assert(s.filter(f) == if f(last) { t.filter(f).push(last) } else { t.filter(f) });
    }
}

/// Sorting is stable: the children at one position keep the order of the
/// node list.
pub proof fn lemma_sort_keeps_ties(s: Seq<ChildRef>, p: Seq<char>)
    ensures
        sort_by_position(s).filter(at_position(p)) == s.filter(at_position(p)),
    decreases s.len(),
{
    reveal(Seq::filter);
    if s.len() > 0 {
        lemma_sort_keeps_ties(s.drop_last(), p);
        lemma_insert_keeps_ties(sort_by_position(s.drop_last()), s.last(), p);
    }
}

/// Siblings that share a `position` string come in the order of the node
/// list.
pub proof fn lemma_equal_positions_keep_list_order(ns: Seq<JsonView>, g: Guid, p: Seq<char>)
    ensures
        children_of(ns, g).filter(at_position(p)) == raw_children(ns, g).filter(at_position(p)),
{
    lemma_sort_keeps_ties(raw_children(ns, g), p);
}

} // verus!
