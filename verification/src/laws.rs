//! Laws the model obeys, stated over its sequence view and proved once.

use vstd::prelude::*;

use crate::model::Node;
use crate::model::Placement;
use crate::model::bump_node;
use crate::model::count_ok;
use crate::model::deeper_between;
use crate::model::insert_at;
use crate::model::insert_depth;
use crate::model::insert_target;
use crate::model::is_ancestor_of_slot;
use crate::model::remove_subtree_spec;
use crate::model::set_collapsed_spec;
use crate::model::subtree_end;
use crate::model::visible_from;
use crate::model::well_formed;
use crate::proofs::lemma_insert_at_pointwise;
use crate::proofs::lemma_insert_slot_ok;
use crate::proofs::lemma_insert_wf;
use crate::proofs::lemma_remove_pointwise;
use crate::proofs::lemma_visible_all;
use crate::proofs::lemma_visible_le;
use crate::proofs::lemma_visible_strict;

verus! {

/// First index at or after `j` whose entry is no deeper than the entry at
/// `i`; the storage length when there is none.
pub open spec fn next_at_or_shallower<T>(s: Seq<Node<T>>, i: int, j: int) -> int
    decreases s.len() - j when 0 <= j <= s.len()
{
    if j >= s.len() {
        s.len() as int
    } else if s[j].depth <= s[i].depth {
        j
    } else {
        next_at_or_shallower(s, i, j + 1)
    }
}

proof fn lemma_next_scan<T>(s: Seq<Node<T>>, i: int, j: int)
    requires
        well_formed(s),
        0 <= i < s.len(),
        i < j <= subtree_end(s, i),
    ensures
        next_at_or_shallower(s, i, j) == subtree_end(s, i),
    decreases subtree_end(s, i) - j,
{
    assert(count_ok(s, i));
    if j < subtree_end(s, i) {
        assert(s[j].depth > s[i].depth);
        lemma_next_scan(s, i, j + 1);
    }
}

/// LAW: in a well-formed model every node's descendant count equals the
/// number of entries between it and the next entry at its own depth or
/// shallower — pre-order contiguity, as a counting statement.
pub proof fn law_descendant_count_spans<T>(s: Seq<Node<T>>, i: int)
    requires
        well_formed(s),
        0 <= i < s.len(),
    ensures
        s[i].descendant_count == next_at_or_shallower(s, i, i + 1) - i - 1,
{
    lemma_next_scan(s, i, i + 1);
}

/// LAW: the visible height never exceeds the storage length.
pub proof fn law_visible_height_bound<T>(s: Seq<Node<T>>)
    requires
        well_formed(s),
    ensures
        visible_from(s, 0) <= s.len(),
{
    lemma_visible_le(s, 0);
}

/// LAW: when every collapsed node actually has descendants to hide, the
/// visible height equals the storage length exactly when nothing is
/// collapsed.  (A collapsed node without descendants hides nothing, so such
/// models are left out.)
pub proof fn law_visible_height_equality<T>(s: Seq<Node<T>>)
    requires
        well_formed(s),
        forall|i: int|
            0 <= i < s.len() && (#[trigger] s[i]).collapsed ==> s[i].descendant_count > 0,
    ensures
        (visible_from(s, 0) == s.len()) <==> (forall|i: int|
            0 <= i < s.len() ==> !(#[trigger] s[i]).collapsed),
{
    lemma_visible_le(s, 0);
    if forall|i: int| 0 <= i < s.len() ==> !(#[trigger] s[i]).collapsed {
        lemma_visible_all(s, 0);
    } else {
        let k = choose|k: int| 0 <= k < s.len() && (#[trigger] s[k]).collapsed;
        lemma_visible_strict(s, 0, k);
    }
}

/// LAW: inserting a value anywhere and then removing it (with its — empty —
/// subtree) at the index the insertion reports restores the model exactly:
/// same storage, same counts, and so the same visible projection.
pub proof fn law_insert_remove_round_trip<T>(s: Seq<Node<T>>, p: Placement, r: int, value: T)
    requires
        well_formed(s),
        0 <= r < s.len(),
        s.len() <= usize::MAX,
    ensures
        remove_subtree_spec(
            insert_at(s, insert_target(s, p, r), insert_depth(s, p, r), value),
            insert_target(s, p, r),
        ) == s,
{
    let t = insert_target(s, p, r);
    let d = insert_depth(s, p, r);
    lemma_insert_slot_ok(s, p, r);
    lemma_insert_wf(s, t, d, value);
    lemma_insert_at_pointwise(s, t, d, value);
    let s2 = insert_at(s, t, d, value);
    assert(s2[t].descendant_count == 0);
    assert(s2[t].depth == d);
    lemma_remove_pointwise(s2, t, d, 1);
    let s3 = remove_subtree_spec(s2, t);
    assert forall|j: int| 0 <= j < t implies (#[trigger] s2[j]).depth == s[j].depth by {}
    assert forall|j: int|
        0 <= j < t implies (is_ancestor_of_slot(s2, j, t, d) <==> is_ancestor_of_slot(
        s,
        j,
        t,
        d,
    )) by {
        if deeper_between(s2, j, t) {
            assert forall|k: int| j < k < t implies (#[trigger] s[k].depth) > s[j].depth by {
                assert(s2[k].depth > s2[j].depth);
            }
        }
        if deeper_between(s, j, t) {
            assert forall|k: int| j < k < t implies (#[trigger] s2[k].depth) > s2[j].depth by {
                assert(s[k].depth > s[j].depth);
            }
        }
    }
    assert forall|j: int| 0 <= j < s.len() implies #[trigger] s3[j] == s[j] by {
        if j < t {
            if is_ancestor_of_slot(s, j, t, d) {
                assert(count_ok(s, j));
                assert(s3[j] == bump_node(s2[j], -1));
                assert(s2[j] == bump_node(s[j], 1));
            } else {
                assert(s3[j] == s2[j]);
                assert(s2[j] == s[j]);
            }
        } else {
            assert(s3[j] == s2[j + 1]);
            assert(s2[j + 1] == s[j]);
        }
    }
    assert(s3 =~= s);
}

/// LAW: setting the same collapse flag twice leaves exactly what setting it
/// once leaves — same storage, and so the same visible projection.
pub proof fn law_set_collapsed_idempotent<T>(s: Seq<Node<T>>, t: int, c: bool)
    requires
        0 <= t < s.len(),
    ensures
        set_collapsed_spec(set_collapsed_spec(s, t, c), t, c) == set_collapsed_spec(s, t, c),
{
    assert(set_collapsed_spec(set_collapsed_spec(s, t, c), t, c) =~= set_collapsed_spec(s, t, c));
}

} // verus!
