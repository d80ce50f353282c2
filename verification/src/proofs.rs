//! Internal lemmas about the flattened-forest invariant.

use vstd::prelude::*;

use crate::model::Node;
use crate::model::Placement;
use crate::model::adjusted_entry;
use crate::model::count_ok;
use crate::model::deeper_between;
use crate::model::depths_ok;
use crate::model::extract_spec;
use crate::model::insert_at;
use crate::model::promote_node;
use crate::model::insert_depth;
use crate::model::insert_target;
use crate::model::is_ancestor_of_slot;
use crate::model::remove_subtree_spec;
use crate::model::row_storage;
use crate::model::set_collapsed_spec;
use crate::model::slot_ok;
use crate::model::subtree_end;
use crate::model::vis_step;
use crate::model::visible_from;
use crate::model::well_formed;

verus! {

/// Minimum of `d` and the depths of the entries in `[i, t)`: the shallowest
/// level the backward ancestor walk has seen so far.
pub open spec fn min_level<T>(s: Seq<Node<T>>, i: int, t: int, d: int) -> int
    decreases t - i when i <= t
{
    if i >= t {
        d
    } else {
        let m = min_level(s, i + 1, t, d);
        if s[i].depth < m {
            s[i].depth as int
        } else {
            m
        }
    }
}

/// `min_level` is a lower bound on `d` and on every depth in the range, and
/// is attained by one of them.
pub proof fn lemma_min_level_bounds<T>(s: Seq<Node<T>>, i: int, t: int, d: int)
    requires
        i <= t,
    ensures
        min_level(s, i, t, d) <= d,
        forall|k: int| i <= k < t ==> min_level(s, i, t, d) <= (#[trigger] s[k].depth),
        min_level(s, i, t, d) == d || exists|k: int|
            i <= k < t && (#[trigger] s[k].depth) == min_level(s, i, t, d),
    decreases t - i,
{
    if i < t {
        lemma_min_level_bounds(s, i + 1, t, d);
    }
}

/// Widening the range can only lower the minimum.
pub proof fn lemma_min_level_mono<T>(s: Seq<Node<T>>, a: int, b: int, t: int, d: int)
    requires
        a <= b <= t,
    ensures
        min_level(s, a, t, d) <= min_level(s, b, t, d),
    decreases b - a,
{
    if a < b {
        lemma_min_level_mono(s, a + 1, b, t, d);
    }
}

/// A node is an ancestor of the slot `(t, d)` exactly when it is shallower
/// than everything the walk saw between it and the slot.
pub proof fn lemma_ancestor_via_min_level<T>(s: Seq<Node<T>>, i: int, t: int, d: int)
    requires
        0 <= i < t,
    ensures
        is_ancestor_of_slot(s, i, t, d) <==> s[i].depth < min_level(s, i + 1, t, d),
{
    lemma_min_level_bounds(s, i + 1, t, d);
    if s[i].depth < min_level(s, i + 1, t, d) {
        assert forall|k: int| i < k < t implies (#[trigger] s[k].depth) > s[i].depth by {
            assert(min_level(s, i + 1, t, d) <= s[k].depth);
        }
    }
}

/// In a well-formed sequence a node's depth never exceeds its index.
pub proof fn lemma_depth_le_index<T>(s: Seq<Node<T>>, i: int)
    requires
        depths_ok(s),
        0 <= i < s.len(),
    ensures
        s[i].depth <= i,
    decreases i,
{
    if i > 0 {
        lemma_depth_le_index(s, i - 1);
    }
}

/// Subtree spans nest: a node inside another's span ends its own span no
/// later.
pub proof fn lemma_subtree_nesting<T>(s: Seq<Node<T>>, i: int, j: int)
    requires
        well_formed(s),
        0 <= i < s.len(),
        i < j < subtree_end(s, i),
    ensures
        subtree_end(s, j) <= subtree_end(s, i),
{
    assert(count_ok(s, i));
    assert(count_ok(s, j));
    if subtree_end(s, j) > subtree_end(s, i) {
        assert(s[subtree_end(s, i)].depth > s[j].depth);
        assert(s[j].depth > s[i].depth);
        assert(s[subtree_end(s, i)].depth <= s[i].depth);
        assert(false);
    }
}

/// "Everything strictly between `i` and `t` is deeper than `i`" says exactly
/// that `t` does not pass the end of `i`'s span.
pub proof fn lemma_span_via_depths<T>(s: Seq<Node<T>>, i: int, t: int)
    requires
        well_formed(s),
        0 <= i < t <= s.len(),
    ensures
        deeper_between(s, i, t) <==> t <= subtree_end(s, i),
{
    assert(count_ok(s, i));
    if deeper_between(s, i, t) {
        if t > subtree_end(s, i) {
            assert(s[subtree_end(s, i)].depth > s[i].depth);
            assert(s[subtree_end(s, i)].depth <= s[i].depth);
        }
    }
}

/// All three placements relative to an existing node produce a slot that a
/// new node can occupy without breaking pre-order contiguity.
pub proof fn lemma_insert_slot_ok<T>(s: Seq<Node<T>>, p: Placement, r: int)
    requires
        well_formed(s),
        0 <= r < s.len(),
        s.len() <= usize::MAX,
    ensures
        slot_ok(s, insert_target(s, p, r), insert_depth(s, p, r)),
{
    let t = insert_target(s, p, r);
    let d = insert_depth(s, p, r);
    assert(count_ok(s, r));
    lemma_depth_le_index(s, r);
    match p {
        Placement::Child => {
            if t < s.len() {
                if s[r].descendant_count > 0 {
                    lemma_first_child_depth(s, r);
                } else {
                    assert(subtree_end(s, r) == r + 1);
                    assert(s[r + 1].depth <= s[r].depth);
                }
            }
            assert forall|i: int|
                0 <= i < t && s[i].depth >= d && #[trigger] deeper_between(s, i, t) implies t
                == subtree_end(s, i) by {
                if i < r {
                    assert(s[r].depth > s[i].depth);
                    assert(false);
                } else {
                    assert(false);
                }
            }
        },
        Placement::SiblingBefore => {
            assert forall|i: int|
                0 <= i < t && s[i].depth >= d && #[trigger] deeper_between(s, i, t) implies t
                == subtree_end(s, i) by {
                lemma_span_via_depths(s, i, r);
                assert(count_ok(s, i));
                if r < subtree_end(s, i) {
                    assert(s[r].depth > s[i].depth);
                    assert(false);
                }
            }
        },
        Placement::SiblingAfter => {
            if t - 1 > r {
                assert(s[t - 1].depth > s[r].depth);
            }
            assert forall|i: int|
                0 <= i < t && s[i].depth >= d && #[trigger] deeper_between(s, i, t) implies t
                == subtree_end(s, i) by {
                if i < r {
                    assert(s[r].depth > s[i].depth);
                    assert(false);
                } else if i > r {
                    assert(s[i].depth > s[r].depth);
                    lemma_span_via_depths(s, i, t);
                    lemma_subtree_nesting(s, r, i);
                }
            }
        },
    }
}

/// The entry-by-entry shape of `insert_at`: adjusted entries before the
/// slot, the fresh node at it, the old entries shifted after it.
pub proof fn lemma_insert_at_pointwise<T>(s: Seq<Node<T>>, t: int, d: int, value: T)
    requires
        0 <= t <= s.len(),
        0 <= d <= usize::MAX,
    ensures
        insert_at(s, t, d, value).len() == s.len() + 1,
        forall|j: int|
            0 <= j < t ==> #[trigger] insert_at(s, t, d, value)[j] == adjusted_entry(
                s,
                j,
                t,
                d,
                1,
            ),
        insert_at(s, t, d, value)[t] == (Node::<T> {
            value,
            depth: d as usize,
            descendant_count: 0,
            collapsed: false,
        }),
        forall|j: int| t < j <= s.len() ==> #[trigger] insert_at(s, t, d, value)[j] == s[j - 1],
{
    let s2 = insert_at(s, t, d, value);
    assert(s2.len() == s.len() + 1);
    assert forall|j: int| 0 <= j < t implies #[trigger] s2[j] == adjusted_entry(s, j, t, d, 1) by {}
    assert forall|j: int| t < j <= s.len() implies #[trigger] s2[j] == s[j - 1] by {
        assert(!is_ancestor_of_slot(s, j - 1, t, d));
        assert(s2[j] == adjusted_entry(s, j - 1, t, d, 1));
    }
}

/// With the insertion written out entry by entry, the depths still describe
/// a forest.
proof fn lemma_insert_depths<T>(s: Seq<Node<T>>, s2: Seq<Node<T>>, t: int, d: int)
    requires
        well_formed(s),
        slot_ok(s, t, d),
        s.len() <= usize::MAX,
        s2.len() == s.len() + 1,
        forall|j: int| 0 <= j < t ==> #[trigger] s2[j] == adjusted_entry(s, j, t, d, 1),
        s2[t].depth == d,
        forall|j: int| t < j <= s.len() ==> #[trigger] s2[j] == s[j - 1],
    ensures
        depths_ok(s2),
{
    assert forall|j: int| 0 <= j < t implies (#[trigger] s2[j]).depth == s[j].depth by {}
    if t == 0 {
        assert(s2[0].depth == 0);
    } else {
        assert(s2[0].depth == s[0].depth);
    }
    assert forall|j: int| 0 < j < s2.len() implies (#[trigger] s2[j]).depth <= s2[j - 1].depth
        + 1 by {
        if j < t {
            assert(s[j].depth <= s[j - 1].depth + 1);
        } else if j == t {
            assert(s2[j].depth == d);
        } else if j == t + 1 {
            assert(s2[j].depth == s[t].depth);
            assert(s[t].depth <= d);
        } else {
            assert(s2[j].depth == s[j - 1].depth);
            assert(s2[j - 1].depth == s[j - 2].depth);
            assert(s[j - 1].depth <= s[j - 2].depth + 1);
        }
    }
}

/// With the insertion written out entry by entry, every count still matches
/// its span.
#[verifier::rlimit(100)]
proof fn lemma_insert_counts<T>(s: Seq<Node<T>>, s2: Seq<Node<T>>, t: int, d: int)
    requires
        well_formed(s),
        slot_ok(s, t, d),
        s.len() <= usize::MAX,
        s2.len() == s.len() + 1,
        forall|j: int| 0 <= j < t ==> #[trigger] s2[j] == adjusted_entry(s, j, t, d, 1),
        s2[t].depth == d,
        s2[t].descendant_count == 0,
        forall|j: int| t < j <= s.len() ==> #[trigger] s2[j] == s[j - 1],
    ensures
        forall|i: int| 0 <= i < s2.len() ==> #[trigger] count_ok(s2, i),
{
    assert forall|j: int| 0 <= j < t implies (#[trigger] s2[j]).depth == s[j].depth by {}
    assert forall|i: int| 0 <= i < s2.len() implies #[trigger] count_ok(s2, i) by {
        if i == t {
            assert(subtree_end(s2, t) == t + 1);
            if t + 1 < s2.len() {
                assert(s2[t + 1].depth == s[t].depth);
                assert(s[t].depth <= d);
            }
        } else if i < t {
            assert(count_ok(s, i));
            let e = subtree_end(s, i);
            if is_ancestor_of_slot(s, i, t, d) {
                lemma_span_via_depths(s, i, t);
                assert(t <= e);
                assert(s2[i].descendant_count == s[i].descendant_count + 1);
                assert(subtree_end(s2, i) == e + 1);
                assert forall|j: int| i < j < e + 1 implies (#[trigger] s2[j]).depth
                    > s2[i].depth by {
                    if j < t {
                        assert(s[j].depth > s[i].depth);
                    } else if j == t {
                        assert(s2[j].depth == d);
                    } else {
                        assert(s2[j] == s[j - 1]);
                        assert(s[j - 1].depth > s[i].depth);
                    }
                }
                if e + 1 < s2.len() {
                    assert(s2[e + 1] == s[e]);
                    assert(s[e].depth <= s[i].depth);
                }
            } else {
                assert(s2[i] == s[i]);
                assert(subtree_end(s2, i) == e);
                if deeper_between(s, i, t) {
                    assert(s[i].depth >= d);
                    assert(t == subtree_end(s, i));
                    assert forall|j: int| i < j < e implies (#[trigger] s2[j]).depth
                        > s2[i].depth by {
                        assert(s[j].depth > s[i].depth);
                    }
                    assert(s2[e].depth == d);
                    assert(s2[e].depth <= s2[i].depth);
                } else {
                    let k = choose|k: int| i < k < t && !((#[trigger] s[k].depth) > s[i].depth);
                    assert(e <= k) by {
                        if e > k {
                            assert(s[k].depth > s[i].depth);
                        }
                    }
                    assert forall|j: int| i < j < e implies (#[trigger] s2[j]).depth
                        > s2[i].depth by {
                        assert(s2[j].depth == s[j].depth);
                        assert(s[j].depth > s[i].depth);
                    }
                    if e < s2.len() {
                        assert(s2[e].depth == s[e].depth);
                        assert(s[e].depth <= s[i].depth);
                    }
                }
            }
        } else {
            assert(s2[i] == s[i - 1]);
            assert(count_ok(s, i - 1));
            let e = subtree_end(s, i - 1);
            assert(subtree_end(s2, i) == e + 1);
            assert forall|j: int| i < j < e + 1 implies (#[trigger] s2[j]).depth > s2[i].depth by {
                assert(s2[j] == s[j - 1]);
                assert(s[j - 1].depth > s[i - 1].depth);
            }
            if e + 1 < s2.len() {
                assert(s2[e + 1] == s[e]);
                assert(s[e].depth <= s[i - 1].depth);
            }
        }
    }
}

/// Inserting a fresh node into a fitting slot, with every ancestor's count
/// raised by one, keeps the sequence well formed.
pub proof fn lemma_insert_wf<T>(s: Seq<Node<T>>, t: int, d: int, value: T)
    requires
        well_formed(s),
        slot_ok(s, t, d),
        s.len() <= usize::MAX,
    ensures
        well_formed(insert_at(s, t, d, value)),
        insert_at(s, t, d, value).len() == s.len() + 1,
{
    let s2 = insert_at(s, t, d, value);
    lemma_insert_at_pointwise(s, t, d, value);
    lemma_insert_depths(s, s2, t, d);
    lemma_insert_counts(s, s2, t, d);
}

/// An ancestor of the node at `t` contains that node's whole span strictly
/// inside its own.
pub proof fn lemma_ancestor_span<T>(s: Seq<Node<T>>, i: int, t: int)
    requires
        well_formed(s),
        0 <= t < s.len(),
        is_ancestor_of_slot(s, i, t, s[t].depth as int),
    ensures
        i < t,
        t < subtree_end(s, i),
        subtree_end(s, t) <= subtree_end(s, i) <= s.len(),
{
    lemma_span_via_depths(s, i, t);
    assert(count_ok(s, i));
    assert(count_ok(s, t));
    if t == subtree_end(s, i) {
        assert(s[t].depth <= s[i].depth);
        assert(false);
    }
    lemma_subtree_nesting(s, i, t);
}

/// The entry-by-entry shape of removing a whole subtree: adjusted entries
/// before the span, the trailing entries shifted left over it.
pub proof fn lemma_remove_pointwise<T>(s: Seq<Node<T>>, t: int, d: int, n: int)
    requires
        well_formed(s),
        0 <= t < s.len(),
        d == s[t].depth,
        n == 1 + s[t].descendant_count,
    ensures
        t + n <= s.len(),
        remove_subtree_spec(s, t).len() == s.len() - n,
        forall|j: int|
            0 <= j < t ==> #[trigger] remove_subtree_spec(s, t)[j] == adjusted_entry(
                s,
                j,
                t,
                d,
                -n,
            ),
        forall|j: int| t <= j < s.len() - n ==> #[trigger] remove_subtree_spec(s, t)[j] == s[j + n],
{
    assert(count_ok(s, t));
    let s2 = remove_subtree_spec(s, t);
    assert(s2.len() == s.len() - n);
    assert forall|j: int| 0 <= j < t implies #[trigger] s2[j] == adjusted_entry(s, j, t, d, -n) by {}
    assert forall|j: int| t <= j < s.len() - n implies #[trigger] s2[j] == s[j + n] by {
        assert(!is_ancestor_of_slot(s, j + n, t, d));
        assert(s2[j] == adjusted_entry(s, j + n, t, d, -n));
    }
}

/// With the removal written out entry by entry, the depths still describe a
/// forest.
proof fn lemma_remove_depths<T>(s: Seq<Node<T>>, s2: Seq<Node<T>>, t: int, d: int, n: int)
    requires
        well_formed(s),
        0 <= t < s.len(),
        d == s[t].depth,
        n == 1 + s[t].descendant_count,
        s2.len() == s.len() - n,
        forall|j: int| 0 <= j < t ==> #[trigger] s2[j] == adjusted_entry(s, j, t, d, -n),
        forall|j: int| t <= j < s.len() - n ==> #[trigger] s2[j] == s[j + n],
    ensures
        depths_ok(s2),
{
    assert(count_ok(s, t));
    assert forall|j: int| 0 <= j < t implies (#[trigger] s2[j]).depth == s[j].depth by {}
    if s2.len() > 0 {
        if t == 0 {
            assert(s2[0] == s[n]);
            assert(s[n].depth <= s[0].depth);
        } else {
            assert(s2[0].depth == s[0].depth);
        }
    }
    assert forall|j: int| 0 < j < s2.len() implies (#[trigger] s2[j]).depth <= s2[j - 1].depth
        + 1 by {
        if j < t {
            assert(s[j].depth <= s[j - 1].depth + 1);
        } else if j == t {
            assert(s2[j] == s[t + n]);
            assert(s[t + n].depth <= s[t].depth);
            assert(s[t].depth <= s[t - 1].depth + 1);
        } else {
            assert(s2[j] == s[j + n]);
            assert(s2[j - 1] == s[j - 1 + n]);
            assert(s[j + n].depth <= s[j + n - 1].depth + 1);
        }
    }
}

/// With the removal written out entry by entry, every count still matches
/// its span.
#[verifier::rlimit(100)]
proof fn lemma_remove_counts<T>(s: Seq<Node<T>>, s2: Seq<Node<T>>, t: int, d: int, n: int)
    requires
        well_formed(s),
        0 <= t < s.len(),
        d == s[t].depth,
        n == 1 + s[t].descendant_count,
        s2.len() == s.len() - n,
        forall|j: int| 0 <= j < t ==> #[trigger] s2[j] == adjusted_entry(s, j, t, d, -n),
        forall|j: int| t <= j < s.len() - n ==> #[trigger] s2[j] == s[j + n],
    ensures
        forall|i: int| 0 <= i < s2.len() ==> #[trigger] count_ok(s2, i),
{
    assert(count_ok(s, t));
    assert forall|j: int| 0 <= j < t implies (#[trigger] s2[j]).depth == s[j].depth by {}
    assert forall|i: int| 0 <= i < s2.len() implies #[trigger] count_ok(s2, i) by {
        if i < t {
            assert(count_ok(s, i));
            let e = subtree_end(s, i);
            if is_ancestor_of_slot(s, i, t, d) {
                lemma_ancestor_span(s, i, t);
                assert(t + n <= e);
                assert(s2[i].descendant_count == s[i].descendant_count - n);
                assert(subtree_end(s2, i) == e - n);
                assert forall|j: int| i < j < e - n implies (#[trigger] s2[j]).depth
                    > s2[i].depth by {
                    if j < t {
                        assert(s[j].depth > s[i].depth);
                    } else {
                        assert(s2[j] == s[j + n]);
                        assert(s[j + n].depth > s[i].depth);
                    }
                }
                if e - n < s2.len() {
                    assert(s2[e - n] == s[e]);
                    assert(s[e].depth <= s[i].depth);
                }
            } else {
                assert(s2[i] == s[i]);
                assert(subtree_end(s2, i) == e);
                if deeper_between(s, i, t) {
                    lemma_span_via_depths(s, i, t);
                    assert(s[i].depth >= d);
                    if t < e {
                        assert(s[t].depth > s[i].depth);
                        assert(false);
                    }
                    assert forall|j: int| i < j < e implies (#[trigger] s2[j]).depth
                        > s2[i].depth by {
                        assert(s2[j].depth == s[j].depth);
                        assert(s[j].depth > s[i].depth);
                    }
                    if e < s2.len() {
                        assert(s2[e] == s[e + n]);
                        assert(s[t + n].depth <= s[t].depth);
                        assert(s2[e].depth <= s2[i].depth);
                    }
                } else {
                    let k = choose|k: int| i < k < t && !((#[trigger] s[k].depth) > s[i].depth);
                    assert(e <= k) by {
                        if e > k {
                            assert(s[k].depth > s[i].depth);
                        }
                    }
                    assert forall|j: int| i < j < e implies (#[trigger] s2[j]).depth
                        > s2[i].depth by {
                        assert(s2[j].depth == s[j].depth);
                        assert(s[j].depth > s[i].depth);
                    }
                    if e < s2.len() {
                        assert(s2[e].depth == s[e].depth);
                        assert(s[e].depth <= s[i].depth);
                    }
                }
            }
        } else {
            assert(s2[i] == s[i + n]);
            assert(count_ok(s, i + n));
            let e = subtree_end(s, i + n);
            assert(subtree_end(s2, i) == e - n);
            assert forall|j: int| i < j < e - n implies (#[trigger] s2[j]).depth > s2[i].depth by {
                assert(s2[j] == s[j + n]);
                assert(s[j + n].depth > s[i + n].depth);
            }
            if e - n < s2.len() {
                assert(s2[e - n] == s[e]);
                assert(s[e].depth <= s[i + n].depth);
            }
        }
    }
}

/// Removing a node together with its whole span, with every ancestor's
/// count lowered by the span's size, keeps the sequence well formed.
pub proof fn lemma_remove_wf<T>(s: Seq<Node<T>>, t: int)
    requires
        well_formed(s),
        0 <= t < s.len(),
    ensures
        well_formed(remove_subtree_spec(s, t)),
        remove_subtree_spec(s, t).len() == s.len() - 1 - s[t].descendant_count,
{
    let d = s[t].depth as int;
    let n = 1 + s[t].descendant_count;
    let s2 = remove_subtree_spec(s, t);
    lemma_remove_pointwise(s, t, d, n);
    lemma_remove_depths(s, s2, t, d, n);
    lemma_remove_counts(s, s2, t, d, n);
}

/// The entry-by-entry shape of extracting one node: adjusted entries before
/// it, its demoted descendants next, the rest shifted left by one.
pub proof fn lemma_extract_pointwise<T>(s: Seq<Node<T>>, t: int, d: int, e: int)
    requires
        well_formed(s),
        0 <= t < s.len(),
        d == s[t].depth,
        e == subtree_end(s, t),
    ensures
        extract_spec(s, t).len() == s.len() - 1,
        forall|j: int|
            0 <= j < t ==> #[trigger] extract_spec(s, t)[j] == adjusted_entry(s, j, t, d, -1),
        forall|j: int| t <= j < e - 1 ==> #[trigger] extract_spec(s, t)[j] == promote_node(s[j + 1]),
        forall|j: int| e - 1 <= j < s.len() - 1 ==> #[trigger] extract_spec(s, t)[j] == s[j + 1],
{
    assert(count_ok(s, t));
    let s2 = extract_spec(s, t);
    assert(s2.len() == s.len() - 1);
    assert forall|j: int| 0 <= j < t implies #[trigger] s2[j] == adjusted_entry(s, j, t, d, -1) by {}
    assert forall|j: int| t <= j < e - 1 implies #[trigger] s2[j] == promote_node(s[j + 1]) by {
        assert(!is_ancestor_of_slot(s, j + 1, t, d));
    }
    assert forall|j: int| e - 1 <= j < s.len() - 1 implies #[trigger] s2[j] == s[j + 1] by {
        assert(!is_ancestor_of_slot(s, j + 1, t, d));
    }
}

/// With the extraction written out entry by entry, the depths still
/// describe a forest.
proof fn lemma_extract_depths<T>(s: Seq<Node<T>>, s2: Seq<Node<T>>, t: int, d: int, e: int)
    requires
        well_formed(s),
        0 <= t < s.len(),
        d == s[t].depth,
        e == subtree_end(s, t),
        s2.len() == s.len() - 1,
        forall|j: int| 0 <= j < t ==> #[trigger] s2[j] == adjusted_entry(s, j, t, d, -1),
        forall|j: int| t <= j < e - 1 ==> #[trigger] s2[j] == promote_node(s[j + 1]),
        forall|j: int| e - 1 <= j < s.len() - 1 ==> #[trigger] s2[j] == s[j + 1],
    ensures
        depths_ok(s2),
{
    assert(count_ok(s, t));
    assert forall|j: int| 0 <= j < t implies (#[trigger] s2[j]).depth == s[j].depth by {}
    if s2.len() > 0 {
        if t == 0 {
            if e > 1 {
                lemma_first_child_depth(s, 0);
                assert(s2[0] == promote_node(s[1]));
            } else {
                assert(s2[0] == s[1]);
                assert(s[1].depth <= s[0].depth);
            }
        } else {
            assert(s2[0].depth == s[0].depth);
        }
    }
    assert forall|j: int| 0 < j < s2.len() implies (#[trigger] s2[j]).depth <= s2[j - 1].depth
        + 1 by {
        if j < t {
            assert(s[j].depth <= s[j - 1].depth + 1);
        } else if j == t {
            if t < e - 1 {
                lemma_first_child_depth(s, t);
                assert(s2[j] == promote_node(s[t + 1]));
            } else {
                assert(s2[j] == s[t + 1]);
                assert(s[t + 1].depth <= s[t].depth);
            }
        } else if j < e - 1 {
            assert(s2[j] == promote_node(s[j + 1]));
            assert(s2[j - 1] == promote_node(s[j]));
            assert(s[j].depth > s[t].depth);
            assert(s[j + 1].depth <= s[j].depth + 1);
        } else if j == e - 1 {
            assert(s2[j] == s[e]);
            assert(s[e].depth <= s[t].depth);
            assert(s2[j - 1].depth + 1 > s[t].depth);
        } else {
            assert(s2[j] == s[j + 1]);
            assert(s2[j - 1] == s[j]);
            assert(s[j + 1].depth <= s[j].depth + 1);
        }
    }
}

/// With the extraction written out entry by entry, every count still
/// matches its span.
#[verifier::rlimit(100)]
proof fn lemma_extract_counts<T>(s: Seq<Node<T>>, s2: Seq<Node<T>>, t: int, d: int, e: int)
    requires
        well_formed(s),
        0 <= t < s.len(),
        d == s[t].depth,
        e == subtree_end(s, t),
        s2.len() == s.len() - 1,
        forall|j: int| 0 <= j < t ==> #[trigger] s2[j] == adjusted_entry(s, j, t, d, -1),
        forall|j: int| t <= j < e - 1 ==> #[trigger] s2[j] == promote_node(s[j + 1]),
        forall|j: int| e - 1 <= j < s.len() - 1 ==> #[trigger] s2[j] == s[j + 1],
    ensures
        forall|i: int| 0 <= i < s2.len() ==> #[trigger] count_ok(s2, i),
{
    assert(count_ok(s, t));
    assert forall|j: int| 0 <= j < t implies (#[trigger] s2[j]).depth == s[j].depth by {}
    assert forall|i: int| 0 <= i < s2.len() implies #[trigger] count_ok(s2, i) by {
        if i < t {
            assert(count_ok(s, i));
            let big = subtree_end(s, i);
            if is_ancestor_of_slot(s, i, t, d) {
                lemma_ancestor_span(s, i, t);
                assert(e <= big);
                assert(s2[i].descendant_count == s[i].descendant_count - 1);
                assert(subtree_end(s2, i) == big - 1);
                assert forall|j: int| i < j < big - 1 implies (#[trigger] s2[j]).depth
                    > s2[i].depth by {
                    if j < t {
                        assert(s[j].depth > s[i].depth);
                    } else if j < e - 1 {
                        assert(s2[j] == promote_node(s[j + 1]));
                        assert(s[j + 1].depth > s[t].depth);
                        assert(s[t].depth > s[i].depth);
                    } else {
                        assert(s2[j] == s[j + 1]);
                        assert(s[j + 1].depth > s[i].depth);
                    }
                }
                if big - 1 < s2.len() {
                    assert(s2[big - 1] == s[big]);
                    assert(s[big].depth <= s[i].depth);
                }
            } else {
                assert(s2[i] == s[i]);
                assert(subtree_end(s2, i) == big);
                if deeper_between(s, i, t) {
                    lemma_span_via_depths(s, i, t);
                    assert(s[i].depth >= d);
                    if t < big {
                        assert(s[t].depth > s[i].depth);
                        assert(false);
                    }
                    assert forall|j: int| i < j < big implies (#[trigger] s2[j]).depth
                        > s2[i].depth by {
                        assert(s2[j].depth == s[j].depth);
                        assert(s[j].depth > s[i].depth);
                    }
                    if big < s2.len() {
                        if t < e - 1 {
                            lemma_first_child_depth(s, t);
                            assert(s2[t] == promote_node(s[t + 1]));
                            assert(s2[t].depth == d);
                        } else {
                            assert(s2[t] == s[t + 1]);
                            assert(s[t + 1].depth <= d);
                        }
                        assert(s2[big].depth <= s2[i].depth);
                    }
                } else {
                    let k = choose|k: int| i < k < t && !((#[trigger] s[k].depth) > s[i].depth);
                    assert(big <= k) by {
                        if big > k {
                            assert(s[k].depth > s[i].depth);
                        }
                    }
                    assert forall|j: int| i < j < big implies (#[trigger] s2[j]).depth
                        > s2[i].depth by {
                        assert(s2[j].depth == s[j].depth);
                        assert(s[j].depth > s[i].depth);
                    }
                    if big < s2.len() {
                        assert(s2[big].depth == s[big].depth);
                        assert(s[big].depth <= s[i].depth);
                    }
                }
            }
        } else if i < e - 1 {
            assert(s2[i] == promote_node(s[i + 1]));
            assert(count_ok(s, i + 1));
            assert(s[i + 1].depth > d);
            lemma_subtree_nesting(s, t, i + 1);
            let sub = subtree_end(s, i + 1);
            assert(sub <= e);
            assert(subtree_end(s2, i) == sub - 1);
            assert forall|j: int| i < j < sub - 1 implies (#[trigger] s2[j]).depth
                > s2[i].depth by {
                assert(s2[j] == promote_node(s[j + 1]));
                assert(s[j + 1].depth > s[i + 1].depth);
            }
            if sub - 1 < s2.len() {
                if sub - 1 < e - 1 {
                    assert(s2[sub - 1] == promote_node(s[sub]));
                    assert(s[sub].depth <= s[i + 1].depth);
                    assert(s[sub].depth > d);
                } else {
                    assert(sub == e);
                    assert(s2[sub - 1] == s[e]);
                    assert(s[e].depth <= d);
                    assert(s[i + 1].depth >= d + 1);
                }
                assert(s2[sub - 1].depth <= s2[i].depth);
            }
        } else {
            assert(s2[i] == s[i + 1]);
            assert(count_ok(s, i + 1));
            let sub = subtree_end(s, i + 1);
            assert(subtree_end(s2, i) == sub - 1);
            assert forall|j: int| i < j < sub - 1 implies (#[trigger] s2[j]).depth
                > s2[i].depth by {
                assert(s2[j] == s[j + 1]);
                assert(s[j + 1].depth > s[i + 1].depth);
            }
            if sub - 1 < s2.len() {
                assert(s2[sub - 1] == s[sub]);
                assert(s[sub].depth <= s[i + 1].depth);
            }
        }
    }
}

/// Extracting a single node, demoting its descendants one level and
/// lowering every ancestor's count by one, keeps the sequence well formed.
pub proof fn lemma_extract_wf<T>(s: Seq<Node<T>>, t: int)
    requires
        well_formed(s),
        0 <= t < s.len(),
    ensures
        well_formed(extract_spec(s, t)),
        extract_spec(s, t).len() == s.len() - 1,
{
    let d = s[t].depth as int;
    let e = subtree_end(s, t);
    let s2 = extract_spec(s, t);
    lemma_extract_pointwise(s, t, d, e);
    lemma_extract_depths(s, s2, t, d, e);
    lemma_extract_counts(s, s2, t, d, e);
}

/// A node with descendants is directly followed by a child: one level
/// deeper, exactly.
pub proof fn lemma_first_child_depth<T>(s: Seq<Node<T>>, i: int)
    requires
        well_formed(s),
        0 <= i < s.len(),
        s[i].descendant_count > 0,
    ensures
        i + 1 < s.len(),
        s[i + 1].depth == s[i].depth + 1,
{
    assert(count_ok(s, i));
    assert(s[i + 1].depth > s[i].depth);
    assert(s[i + 1].depth <= s[i].depth + 1);
}

/// Replacing one node by another of the same depth and descendant count
/// keeps the sequence well formed: the invariant never looks at values or
/// collapse flags.
pub proof fn lemma_update_same_shape_wf<T>(s: Seq<Node<T>>, t: int, node: Node<T>)
    requires
        well_formed(s),
        0 <= t < s.len(),
        node.depth == s[t].depth,
        node.descendant_count == s[t].descendant_count,
    ensures
        well_formed(s.update(t, node)),
{
    let s2 = s.update(t, node);
    assert(s2.len() == s.len());
    assert(forall|j: int| 0 <= j < s.len() ==> (#[trigger] s2[j]).depth == s[j].depth);
    assert(forall|j: int|
        0 <= j < s.len() ==> (#[trigger] s2[j]).descendant_count == s[j].descendant_count);
    assert forall|i: int| 0 <= i < s2.len() implies #[trigger] count_ok(s2, i) by {
        assert(count_ok(s, i));
        assert(subtree_end(s2, i) == subtree_end(s, i));
        assert forall|j: int| i < j < subtree_end(s2, i) implies (#[trigger] s2[j].depth)
            > s2[i].depth by {
            assert(s[j].depth > s[i].depth);
        }
    }
}

/// Toggling a collapse flag moves no entry and changes no depth or count,
/// so it keeps the sequence well formed.
pub proof fn lemma_set_collapsed_wf<T>(s: Seq<Node<T>>, t: int, c: bool)
    requires
        well_formed(s),
        0 <= t < s.len(),
    ensures
        well_formed(set_collapsed_spec(s, t, c)),
{
    lemma_update_same_shape_wf(
        s,
        t,
        Node {
            value: s[t].value,
            depth: s[t].depth,
            descendant_count: s[t].descendant_count,
            collapsed: c,
        },
    );
}

/// Storage index of the `row`-th visible entry: it never passes the end of
/// storage, and it lands strictly inside exactly when the row exists.
pub proof fn lemma_row_storage_in_range<T>(s: Seq<Node<T>>, i: int, row: int)
    requires
        well_formed(s),
        0 <= i <= s.len(),
        0 <= row,
    ensures
        i <= row_storage(s, i, row) <= s.len(),
        (row < visible_from(s, i)) <==> (row_storage(s, i, row) < s.len()),
    decreases s.len() - i,
{
    if i < s.len() {
        assert(count_ok(s, i));
        if row > 0 {
            lemma_row_storage_in_range(s, vis_step(s, i), row - 1);
        }
    }
}

/// Toggling the collapse flag of the entry a row resolves to does not move
/// that row: the walk to it only reads entries strictly before it.
pub proof fn lemma_row_walk_stable<T>(s: Seq<Node<T>>, t: int, c: bool, i: int, row: int)
    requires
        well_formed(s),
        0 <= i <= s.len(),
        0 <= row,
        row_storage(s, i, row) == t,
        0 <= t < s.len(),
    ensures
        row_storage(set_collapsed_spec(s, t, c), i, row) == t,
    decreases s.len() - i,
{
    let s2 = set_collapsed_spec(s, t, c);
    lemma_set_collapsed_wf(s, t, c);
    if i >= s.len() {
        assert(false);
    } else if row == 0 {
        assert(row_storage(s2, i, row) == i);
    } else {
        assert(count_ok(s, i));
        assert(count_ok(s2, i));
        lemma_row_storage_in_range(s, vis_step(s, i), row - 1);
        assert(t >= vis_step(s, i));
        assert(s2[i] == s[i]);
        assert(vis_step(s2, i) == vis_step(s, i));
        lemma_row_walk_stable(s, t, c, vis_step(s, i), row - 1);
    }
}

/// No more entries are visible than exist.
pub proof fn lemma_visible_le<T>(s: Seq<Node<T>>, i: int)
    requires
        well_formed(s),
        0 <= i <= s.len(),
    ensures
        visible_from(s, i) <= s.len() - i,
    decreases s.len() - i,
{
    if i < s.len() {
        assert(count_ok(s, i));
        lemma_visible_le(s, vis_step(s, i));
    }
}

/// With nothing collapsed from `i` on, every entry from `i` on is visible.
pub proof fn lemma_visible_all<T>(s: Seq<Node<T>>, i: int)
    requires
        well_formed(s),
        0 <= i <= s.len(),
        forall|k: int| i <= k < s.len() ==> !(#[trigger] s[k]).collapsed,
    ensures
        visible_from(s, i) == s.len() - i,
    decreases s.len() - i,
{
    if i < s.len() {
        assert(count_ok(s, i));
        assert(!s[i].collapsed);
        lemma_visible_all(s, i + 1);
    }
}

/// A collapsed entry with descendants hides at least one entry.
pub proof fn lemma_visible_strict<T>(s: Seq<Node<T>>, i: int, k: int)
    requires
        well_formed(s),
        0 <= i <= k < s.len(),
        s[k].collapsed,
        s[k].descendant_count > 0,
    ensures
        visible_from(s, i) < s.len() - i,
    decreases s.len() - i,
{
    assert(count_ok(s, i));
    if s[i].collapsed && s[i].descendant_count > 0 {
        lemma_visible_le(s, vis_step(s, i));
    } else {
        lemma_visible_strict(s, i + 1, k);
    }
}

} // verus!
