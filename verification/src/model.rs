//! The flattened tree model: a forest stored as one pre-order sequence.

use vstd::prelude::*;

use crate::proofs::lemma_ancestor_via_min_level;
use crate::proofs::lemma_min_level_bounds;
use crate::proofs::lemma_min_level_mono;
use crate::proofs::min_level;

verus! {

/// Where a newly inserted node attaches relative to a reference entry.
#[derive(Clone, Copy, PartialEq, Eq, Structural, Debug)]
pub enum Placement {
    /// The new node becomes the first child of the reference node and is
    /// stored immediately after it.
    Child,
    /// The new node becomes a sibling of the reference node, stored
    /// immediately before the reference node's subtree span.
    SiblingBefore,
    /// The new node becomes a sibling of the reference node, stored
    /// immediately after the reference node's subtree span.
    SiblingAfter,
}

/// One entry of the flattened pre-order forest.
pub struct Node<T> {
    /// The payload carried by this entry.
    pub value: T,
    /// Nesting level; `0` for a root, parent depth plus one otherwise.
    pub depth: usize,
    /// Number of nodes in this node's subtree, excluding the node itself.
    pub descendant_count: usize,
    /// When set, every descendant is hidden from the visible projection.
    pub collapsed: bool,
}

/// A forest of rooted trees, flattened to one pre-order sequence.
pub struct TreeModel<T> {
    storage: Vec<Node<T>>,
}

/// Exclusive end of the subtree span of the node at index `i`:
/// the node itself plus its `descendant_count` descendants.
pub open spec fn subtree_end<T>(s: Seq<Node<T>>, i: int) -> int {
    i + 1 + s[i].descendant_count
}

/// The descendant count at `i` is consistent with the depths around it:
/// everything inside the span is strictly deeper, and the first entry after
/// the span (if any) is not.
pub open spec fn count_ok<T>(s: Seq<Node<T>>, i: int) -> bool {
    &&& subtree_end(s, i) <= s.len()
    &&& forall|j: int| i < j < subtree_end(s, i) ==> (#[trigger] s[j].depth) > s[i].depth
    &&& subtree_end(s, i) < s.len() ==> s[subtree_end(s, i)].depth <= s[i].depth
}

/// The depth sequence describes a forest: the first entry is a root and a
/// depth never grows by more than one from an entry to the next.
pub open spec fn depths_ok<T>(s: Seq<Node<T>>) -> bool {
    &&& s.len() > 0 ==> s[0].depth == 0
    &&& forall|i: int| 0 < i < s.len() ==> (#[trigger] s[i].depth) <= s[i - 1].depth + 1
}

/// Pre-order contiguity: the central invariant of the model.
pub open spec fn well_formed<T>(s: Seq<Node<T>>) -> bool {
    &&& depths_ok(s)
    &&& forall|i: int| 0 <= i < s.len() ==> #[trigger] count_ok(s, i)
}

/// Index of the entry that follows `i` in the visible walk: the next entry,
/// or the first entry past `i`'s subtree when `i` is collapsed.
pub open spec fn vis_step<T>(s: Seq<Node<T>>, i: int) -> int {
    if s[i].collapsed {
        i + 1 + s[i].descendant_count
    } else {
        i + 1
    }
}

/// Number of visible entries at or after index `i`: the skip-on-collapsed
/// walk that both rendering and row translation share.
pub open spec fn visible_from<T>(s: Seq<Node<T>>, i: int) -> nat
    decreases s.len() - i when 0 <= i <= s.len()
{
    if i >= s.len() {
        0
    } else if !(i < vis_step(s, i) && vis_step(s, i) <= s.len()) {
        1
    } else {
        1 + visible_from(s, vis_step(s, i))
    }
}

/// Storage index of the `row`-th visible entry at or after index `i`, or
/// the length of the sequence when there are not that many visible entries.
pub open spec fn row_storage<T>(s: Seq<Node<T>>, i: int, row: int) -> int
    decreases s.len() - i when 0 <= i <= s.len()
{
    if i >= s.len() {
        s.len() as int
    } else if row <= 0 {
        i
    } else if !(i < vis_step(s, i) && vis_step(s, i) <= s.len()) {
        i
    } else {
        row_storage(s, vis_step(s, i), row - 1)
    }
}

/// The node at `j`, with its descendant count adjusted by `delta` when `j`
/// is an ancestor of the slot at index `t`, depth `d`.
pub open spec fn adjusted_entry<T>(s: Seq<Node<T>>, j: int, t: int, d: int, delta: int) -> Node<T> {
    if is_ancestor_of_slot(s, j, t, d) {
        bump_node(s[j], delta)
    } else {
        s[j]
    }
}

/// Every entry strictly between `i` and `t` is deeper than the entry at `i`.
pub open spec fn deeper_between<T>(s: Seq<Node<T>>, i: int, t: int) -> bool {
    forall|k: int| i < k < t ==> (#[trigger] s[k].depth) > s[i].depth
}

/// Node `i` would be an ancestor of a node placed at index `t` with depth
/// `d`: it stands before the slot, is shallower than the slot, and nothing
/// between leaves its subtree.
pub open spec fn is_ancestor_of_slot<T>(s: Seq<Node<T>>, i: int, t: int, d: int) -> bool {
    &&& 0 <= i < t
    &&& s[i].depth < d
    &&& deeper_between(s, i, t)
}

/// Index at which a new node lands for a given placement relative to the
/// node at `r`.
pub open spec fn insert_target<T>(s: Seq<Node<T>>, p: Placement, r: int) -> int {
    match p {
        Placement::Child => r + 1,
        Placement::SiblingBefore => r,
        Placement::SiblingAfter => subtree_end(s, r),
    }
}

/// Depth a new node gets for a given placement relative to the node at `r`.
pub open spec fn insert_depth<T>(s: Seq<Node<T>>, p: Placement, r: int) -> int {
    match p {
        Placement::Child => s[r].depth + 1,
        Placement::SiblingBefore => s[r].depth as int,
        Placement::SiblingAfter => s[r].depth as int,
    }
}

/// The slot `(t, d)` can take a new node without breaking pre-order
/// contiguity: its depth fits between its neighbours, and no shallower
/// entry's span would be cut in two.
pub open spec fn slot_ok<T>(s: Seq<Node<T>>, t: int, d: int) -> bool {
    &&& 0 <= t <= s.len()
    &&& 0 <= d <= usize::MAX
    &&& (t == 0 ==> d == 0)
    &&& (t > 0 ==> d <= s[t - 1].depth + 1)
    &&& (t < s.len() ==> s[t].depth <= d)
    &&& forall|i: int|
        0 <= i < t && s[i].depth >= d && #[trigger] deeper_between(s, i, t) ==> t == subtree_end(
            s,
            i,
        )
}

/// `n` with its descendant count changed by `delta`.
pub open spec fn bump_node<T>(n: Node<T>, delta: int) -> Node<T> {
    Node {
        value: n.value,
        depth: n.depth,
        descendant_count: (n.descendant_count + delta) as usize,
        collapsed: n.collapsed,
    }
}

/// `s` with the descendant count of every ancestor of the slot `(t, d)`
/// adjusted by `delta`.
pub open spec fn with_adjusted<T>(s: Seq<Node<T>>, t: int, d: int, delta: int) -> Seq<Node<T>> {
    Seq::new(s.len(), |j: int| adjusted_entry(s, j, t, d, delta))
}

/// The sequence after inserting a fresh node with depth `d` at index `t`:
/// every ancestor of the slot gains one descendant, and the entries from
/// `t` on shift right by one.
pub open spec fn insert_at<T>(s: Seq<Node<T>>, t: int, d: int, value: T) -> Seq<Node<T>> {
    with_adjusted(s, t, d, 1).insert(
        t,
        Node { value, depth: d as usize, descendant_count: 0, collapsed: false },
    )
}

/// `s` with the range `[t, t + n)` removed.
pub open spec fn remove_range<T>(s: Seq<Node<T>>, t: int, n: int) -> Seq<Node<T>> {
    s.subrange(0, t) + s.subrange(t + n, s.len() as int)
}

/// The sequence after removing the node at `t` together with its whole
/// subtree: every ancestor loses the span's size, and the span disappears.
pub open spec fn remove_subtree_spec<T>(s: Seq<Node<T>>, t: int) -> Seq<Node<T>> {
    let n = 1 + s[t].descendant_count;
    remove_range(with_adjusted(s, t, s[t].depth as int, -n), t, n)
}

/// `n` moved up one level.
pub open spec fn promote_node<T>(n: Node<T>) -> Node<T> {
    Node {
        value: n.value,
        depth: (n.depth - 1) as usize,
        descendant_count: n.descendant_count,
        collapsed: n.collapsed,
    }
}

/// `s` with every entry in `[a, b)` moved up one level.
pub open spec fn demoted_range<T>(s: Seq<Node<T>>, a: int, b: int) -> Seq<Node<T>> {
    Seq::new(s.len(), |j: int| if a <= j < b { promote_node(s[j]) } else { s[j] })
}

/// The sequence after extracting the single node at `t`: its descendants
/// move up one level in place, every ancestor loses one descendant, and the
/// node itself disappears.
pub open spec fn extract_spec<T>(s: Seq<Node<T>>, t: int) -> Seq<Node<T>> {
    let e = subtree_end(s, t);
    demoted_range(with_adjusted(s, t, s[t].depth as int, -1), t + 1, e).remove(t)
}

/// `s` with the collapse flag of the node at `t` set to `c`.
pub open spec fn set_collapsed_spec<T>(s: Seq<Node<T>>, t: int, c: bool) -> Seq<Node<T>> {
    s.update(
        t,
        Node {
            value: s[t].value,
            depth: s[t].depth,
            descendant_count: s[t].descendant_count,
            collapsed: c,
        },
    )
}

impl<T> View for TreeModel<T> {
    type V = Seq<Node<T>>;

    closed spec fn view(&self) -> Seq<Node<T>> {
        self.storage@
    }
}

impl<T> TreeModel<T> {
    /// The model's invariant: its sequence is a pre-order forest flattening.
    pub open spec fn wf(&self) -> bool {
        well_formed(self@)
    }

    /// Creates an empty model.
    pub fn new() -> (r: Self)
        ensures
            r@ == Seq::<Node<T>>::empty(),
            r.wf(),
    {
        TreeModel { storage: Vec::new() }
    }

    /// Number of entries in storage, hidden ones included.
    pub fn len(&self) -> (r: usize)
        ensures
            r == self@.len(),
    {
        self.storage.len()
    }

    /// True when the model holds no entry at all.
    pub fn is_empty(&self) -> (r: bool)
        ensures
            r == (self@.len() == 0),
    {
        self.storage.len() == 0
    }

    /// The node at a storage index, or `None` when the index is out of
    /// bounds.
    pub fn node_at(&self, index: usize) -> (r: Option<&Node<T>>)
        ensures
            index < self@.len() ==> (r matches Some(n) && *n == self@[index as int]),
            index >= self@.len() ==> r is None,
    {
        if index < self.storage.len() {
            Some(&self.storage[index])
        } else {
            None
        }
    }

    /// The value at a storage index, or `None` when the index is out of
    /// bounds.
    pub fn get(&self, index: usize) -> (r: Option<&T>)
        ensures
            index < self@.len() ==> (r matches Some(v) && *v == self@[index as int].value),
            index >= self@.len() ==> r is None,
    {
        if index < self.storage.len() {
            Some(&self.storage[index].value)
        } else {
            None
        }
    }

    /// The collapse flag of the node at a storage index.
    pub fn get_collapsed(&self, index: usize) -> (r: bool)
        requires
            index < self@.len(),
        ensures
            r == self@[index as int].collapsed,
    {
        self.storage[index].collapsed
    }

    /// The descendant count of the node at a storage index.
    pub fn get_children(&self, index: usize) -> (r: usize)
        requires
            index < self@.len(),
        ensures
            r == self@[index as int].descendant_count,
    {
        self.storage[index].descendant_count
    }

    /// Number of rows visible to the user: entries not hidden inside some
    /// collapsed subtree.  Walks the storage once, skipping whole collapsed
    /// spans.
    pub fn visible_height(&self) -> (r: usize)
        requires
            self.wf(),
        ensures
            r == visible_from(self@, 0),
    {
        let ghost s = self@;
        let mut i: usize = 0;
        let mut count: usize = 0;
        while i < self.storage.len()
            invariant
                self.wf(),
                s == self@,
                i <= s.len(),
                count <= i,
                count + visible_from(s, i as int) == visible_from(s, 0),
            decreases s.len() - i,
        {
            assert(count_ok(s, i as int));
            let node = &self.storage[i];
            let step: usize = if node.collapsed {
                1 + node.descendant_count
            } else {
                1
            };
            assert(vis_step(s, i as int) == i + step);
            assert(visible_from(s, i as int) == 1 + visible_from(s, i + step));
            count = count + 1;
            i = i + step;
        }
        count
    }

    /// Storage index of the `row`-th visible entry, walking the same
    /// skip-on-collapsed path as `visible_height`.  Returns the storage
    /// length when fewer than `row + 1` entries are visible.
    pub fn visible_index_to_storage(&self, row: usize) -> (r: usize)
        requires
            self.wf(),
        ensures
            r == row_storage(self@, 0, row as int),
            r <= self@.len(),
    {
        let ghost s = self@;
        let mut i: usize = 0;
        let mut left: usize = row;
        while i < self.storage.len() && left > 0
            invariant
                self.wf(),
                s == self@,
                i <= s.len(),
                row_storage(s, i as int, left as int) == row_storage(s, 0, row as int),
            decreases left,
        {
            assert(count_ok(s, i as int));
            let node = &self.storage[i];
            let step: usize = if node.collapsed {
                1 + node.descendant_count
            } else {
                1
            };
            assert(vis_step(s, i as int) == i + step);
            assert(row_storage(s, i as int, left as int) == row_storage(
                s,
                i + step,
                left as int - 1,
            ));
            i = i + step;
            left = left - 1;
        }
        i
    }

    /// Sets the collapse flag of the node at a storage index; an index out
    /// of bounds leaves the model unchanged.  No entry moves: only the
    /// visible projection changes.
    pub fn set_collapsed(&mut self, index: usize, collapsed: bool)
        requires
            old(self).wf(),
        ensures
            final(self).wf(),
            index < old(self)@.len() ==> final(self)@ == set_collapsed_spec(
                old(self)@,
                index as int,
                collapsed,
            ),
            index >= old(self)@.len() ==> final(self)@ == old(self)@,
    {
        if index < self.storage.len() {
            self.storage[index].collapsed = collapsed;
            proof {
                assert(self@ =~= set_collapsed_spec(old(self)@, index as int, collapsed));
                crate::proofs::lemma_set_collapsed_wf(old(self)@, index as int, collapsed);
            }
        }
    }

    /// Inserts `value` at the slot the placement picks relative to the node
    /// at storage index `index`, updating every ancestor's descendant count,
    /// and returns the storage index the new node occupies.  On an empty
    /// model the placement is ignored and the value becomes the sole root.
    pub fn insert(&mut self, placement: Placement, index: usize, value: T) -> (r: usize)
        requires
            old(self).wf(),
            index < old(self)@.len() || old(self)@.len() == 0,
        ensures
            final(self).wf(),
            final(self)@.len() == old(self)@.len() + 1,
            r <= old(self)@.len(),
            old(self)@.len() == 0 ==> r == 0 && final(self)@ == insert_at(old(self)@, 0, 0, value),
            old(self)@.len() > 0 ==> r == insert_target(old(self)@, placement, index as int)
                && final(self)@ == insert_at(
                old(self)@,
                insert_target(old(self)@, placement, index as int),
                insert_depth(old(self)@, placement, index as int),
                value,
            ),
    {
        let ghost s0 = old(self)@;
        let n = self.storage.len();
        if n == 0 {
            self.storage.push(Node { value, depth: 0, descendant_count: 0, collapsed: false });
            proof {
                assert(self@ =~= insert_at(s0, 0, 0, value));
                assert(count_ok(self@, 0));
                assert(well_formed(self@));
            }
            0
        } else {
            proof {
                crate::proofs::lemma_depth_le_index(s0, index as int);
                assert(count_ok(s0, index as int));
            }
            let (target, depth): (usize, usize) = match placement {
                Placement::Child => (index + 1, self.storage[index].depth + 1),
                Placement::SiblingBefore => (index, self.storage[index].depth),
                Placement::SiblingAfter => (
                    index + 1 + self.storage[index].descendant_count,
                    self.storage[index].depth,
                ),
            };
            proof {
                crate::proofs::lemma_insert_slot_ok(s0, placement, index as int);
                assert(target == insert_target(s0, placement, index as int));
                assert(depth == insert_depth(s0, placement, index as int));
                assert forall|i: int|
                    is_ancestor_of_slot(s0, i, target as int, depth as int) implies s0[i].descendant_count
                    + 1 <= usize::MAX by {
                    assert(count_ok(s0, i));
                }
            }
            self.adjust_ancestors(target, depth, 1, true);
            self.storage.insert(
                target,
                Node { value, depth, descendant_count: 0, collapsed: false },
            );
            proof {
                crate::proofs::lemma_insert_wf(s0, target as int, depth as int, value);
                assert(self@ == insert_at(s0, target as int, depth as int, value));
            }
            target
        }
    }

    /// Removes the node at a storage index together with its whole subtree,
    /// returning the removed values in storage (pre-order) order, or `None`
    /// when the index is out of bounds.
    pub fn remove_with_subtree(&mut self, index: usize) -> (r: Option<Vec<T>>)
        requires
            old(self).wf(),
        ensures
            final(self).wf(),
            index >= old(self)@.len() ==> r is None && final(self)@ == old(self)@,
            index < old(self)@.len() ==> (r matches Some(vals) && vals@ == old(self)@.subrange(
                index as int,
                subtree_end(old(self)@, index as int),
            ).map_values(|nd: Node<T>| nd.value) && final(self)@ == remove_subtree_spec(
                old(self)@,
                index as int,
            ) && final(self)@.len() == old(self)@.len() - 1 - old(
                self,
            )@[index as int].descendant_count),
    {
        let ghost s0 = old(self)@;
        if index >= self.storage.len() {
            return None;
        }
        proof {
            assert(count_ok(s0, index as int));
        }
        let d = self.storage[index].depth;
        let count = self.storage[index].descendant_count;
        let span: usize = count + 1;
        proof {
            assert forall|i: int|
                is_ancestor_of_slot(s0, i, index as int, d as int) implies span
                <= s0[i].descendant_count by {
                crate::proofs::lemma_ancestor_span(s0, i, index as int);
            }
        }
        self.adjust_ancestors(index, d, span, false);
        let ghost base = with_adjusted(s0, index as int, d as int, -(span as int));
        proof {
            assert forall|k: int| index <= k < s0.len() implies #[trigger] base[k] == s0[k] by {
                assert(!is_ancestor_of_slot(s0, k, index as int, d as int));
            }
        }
        let mut out: Vec<T> = Vec::new();
        let mut j: usize = 0;
        while j < span
            invariant
                j <= span,
                index + span <= s0.len(),
                base.len() == s0.len(),
                forall|k: int| index <= k < s0.len() ==> #[trigger] base[k] == s0[k],
                self@ == base.subrange(0, index as int) + base.subrange(
                    index + j,
                    base.len() as int,
                ),
                out@ == s0.subrange(index as int, index + j).map_values(|nd: Node<T>| nd.value),
            decreases span - j,
        {
            let ghost prev = self@;
            let ghost prev_out = out@;
            let node = self.storage.remove(index);
            out.push(node.value);
            j = j + 1;
            proof {
                assert(node == s0[index + j - 1]);
                assert(self@ =~= base.subrange(0, index as int) + base.subrange(
                    index + j,
                    base.len() as int,
                ));
                assert(out@ =~= s0.subrange(index as int, index + j).map_values(
                    |nd: Node<T>| nd.value,
                ));
            }
        }
        proof {
            assert(self@ == remove_subtree_spec(s0, index as int));
            crate::proofs::lemma_remove_wf(s0, index as int);
        }
        Some(out)
    }

    /// Removes the single node at a storage index, promoting each of its
    /// descendants one level up in place, or returns `None` when the index
    /// is out of bounds.
    pub fn extract(&mut self, index: usize) -> (r: Option<T>)
        requires
            old(self).wf(),
        ensures
            final(self).wf(),
            index >= old(self)@.len() ==> r is None && final(self)@ == old(self)@,
            index < old(self)@.len() ==> (r matches Some(v) && v == old(
                self,
            )@[index as int].value && final(self)@ == extract_spec(old(self)@, index as int)
                && final(self)@.len() == old(self)@.len() - 1),
    {
        let ghost s0 = old(self)@;
        if index >= self.storage.len() {
            return None;
        }
        proof {
            assert(count_ok(s0, index as int));
        }
        let d = self.storage[index].depth;
        let count = self.storage[index].descendant_count;
        let end: usize = index + 1 + count;
        proof {
            assert forall|i: int|
                is_ancestor_of_slot(s0, i, index as int, d as int) implies 1
                <= s0[i].descendant_count by {
                crate::proofs::lemma_ancestor_span(s0, i, index as int);
            }
        }
        self.adjust_ancestors(index, d, 1, false);
        let ghost base = with_adjusted(s0, index as int, d as int, -1);
        proof {
            assert forall|k: int| index <= k < s0.len() implies #[trigger] base[k] == s0[k] by {
                assert(!is_ancestor_of_slot(s0, k, index as int, d as int));
            }
            assert(self@ =~= demoted_range(base, index as int + 1, index as int + 1));
        }
        let mut j: usize = index + 1;
        while j < end
            invariant
                well_formed(s0),
                index < s0.len(),
                d == s0[index as int].depth,
                end == subtree_end(s0, index as int),
                index + 1 <= j <= end <= s0.len(),
                base.len() == s0.len(),
                forall|k: int| index <= k < s0.len() ==> #[trigger] base[k] == s0[k],
                self@ == demoted_range(base, index as int + 1, j as int),
            decreases end - j,
        {
            proof {
                assert(count_ok(s0, index as int));
                assert(s0[j as int].depth > d);
            }
            let dep = self.storage[j].depth;
            self.storage[j].depth = dep - 1;
            j = j + 1;
            proof {
                assert(self@ =~= demoted_range(base, index as int + 1, j as int));
            }
        }
        let node = self.storage.remove(index);
        proof {
            assert(self@ == extract_spec(s0, index as int));
            crate::proofs::lemma_extract_wf(s0, index as int);
        }
        Some(node.value)
    }

    /// Removes every entry.
    pub fn clear(&mut self)
        ensures
            final(self)@ == Seq::<Node<T>>::empty(),
            final(self).wf(),
    {
        self.storage.clear();
    }

    /// Removes every entry, returning the values in storage order.
    pub fn take_items(&mut self) -> (r: Vec<T>)
        ensures
            final(self)@ == Seq::<Node<T>>::empty(),
            final(self).wf(),
            r@ == old(self)@.map_values(|nd: Node<T>| nd.value),
    {
        let ghost s0 = old(self)@;
        let mut out: Vec<T> = Vec::new();
        while self.storage.len() > 0
            invariant
                out@.len() <= s0.len(),
                self@ == s0.subrange(out@.len() as int, s0.len() as int),
                out@ == s0.subrange(0, out@.len() as int).map_values(|nd: Node<T>| nd.value),
            decreases self@.len(),
        {
            let node = self.storage.remove(0);
            out.push(node.value);
            proof {
                assert(self@ =~= s0.subrange(out@.len() as int, s0.len() as int));
                assert(out@ =~= s0.subrange(0, out@.len() as int).map_values(
                    |nd: Node<T>| nd.value,
                ));
            }
        }
        proof {
            assert(self@ =~= Seq::<Node<T>>::empty());
            assert(out@ =~= s0.map_values(|nd: Node<T>| nd.value));
        }
        out
    }

    /// Replaces the value of the node at a storage index, returning the old
    /// value, or returns the new value unused when the index is out of
    /// bounds.  Depths, counts and collapse flags are untouched.
    pub fn set_value(&mut self, index: usize, value: T) -> (r: Option<T>)
        requires
            old(self).wf(),
        ensures
            final(self).wf(),
            index >= old(self)@.len() ==> r is None && final(self)@ == old(self)@,
            index < old(self)@.len() ==> (r matches Some(prev) && prev == old(
                self,
            )@[index as int].value && final(self)@ == old(self)@.update(
                index as int,
                Node {
                    value,
                    depth: old(self)@[index as int].depth,
                    descendant_count: old(self)@[index as int].descendant_count,
                    collapsed: old(self)@[index as int].collapsed,
                },
            )),
    {
        if index >= self.storage.len() {
            return None;
        }
        let node = self.storage.remove(index);
        let Node { value: prev, depth, descendant_count, collapsed } = node;
        self.storage.insert(index, Node { value, depth, descendant_count, collapsed });
        proof {
            let nd = Node {
                value,
                depth: old(self)@[index as int].depth,
                descendant_count: old(self)@[index as int].descendant_count,
                collapsed: old(self)@[index as int].collapsed,
            };
            assert(self@ =~= old(self)@.update(index as int, nd));
            crate::proofs::lemma_update_same_shape_wf(old(self)@, index as int, nd);
        }
        Some(prev)
    }

    /// Walks backwards from the slot at index `t`, depth `d`, and adjusts
    /// the descendant count of every ancestor of that slot by `amount`,
    /// adding when `add` is set and subtracting otherwise.
    fn adjust_ancestors(&mut self, t: usize, d: usize, amount: usize, add: bool)
        requires
            t <= old(self)@.len(),
            forall|i: int|
                is_ancestor_of_slot(old(self)@, i, t as int, d as int) ==> (if add {
                    old(self)@[i].descendant_count + amount <= usize::MAX
                } else {
                    amount <= old(self)@[i].descendant_count
                }),
        ensures
            final(self)@ == with_adjusted(
                old(self)@,
                t as int,
                d as int,
                if add {
                    amount as int
                } else {
                    -(amount as int)
                },
            ),
    {
        let ghost s0 = old(self)@;
        let ghost delta: int = if add {
            amount as int
        } else {
            -(amount as int)
        };
        let mut i: usize = t;
        let mut level: usize = d;
        while i > 0 && level > 0
            invariant
                i <= t <= self@.len(),
                self@.len() == s0.len(),
                delta == (if add {
                    amount as int
                } else {
                    -(amount as int)
                }),
                level == min_level(s0, i as int, t as int, d as int),
                forall|j: int| 0 <= j < i ==> self@[j] == s0[j],
                forall|j: int| t <= j < s0.len() ==> self@[j] == s0[j],
                forall|j: int|
                    i <= j < t ==> (#[trigger] self@[j]) == adjusted_entry(
                        s0,
                        j,
                        t as int,
                        d as int,
                        delta,
                    ),
                forall|j: int|
                    #[trigger] is_ancestor_of_slot(s0, j, t as int, d as int) ==> (if add {
                        s0[j].descendant_count + amount <= usize::MAX
                    } else {
                        amount <= s0[j].descendant_count
                    }),
            decreases i,
        {
            i = i - 1;
            proof {
                lemma_ancestor_via_min_level(s0, i as int, t as int, d as int);
                lemma_min_level_bounds(s0, i as int + 1, t as int, d as int);
            }
            let dep = self.storage[i].depth;
            assert(dep == s0[i as int].depth);
            if dep < level {
                assert(is_ancestor_of_slot(s0, i as int, t as int, d as int));
                proof {
                    if add {
                        assert(s0[i as int].descendant_count + amount <= usize::MAX);
                    } else {
                        assert(amount <= s0[i as int].descendant_count);
                    }
                }
                let c = self.storage[i].descendant_count;
                assert(c == s0[i as int].descendant_count);
                if add {
                    self.storage[i].descendant_count = c + amount;
                } else {
                    self.storage[i].descendant_count = c - amount;
                }
                level = dep;
                assert(self@[i as int] == adjusted_entry(s0, i as int, t as int, d as int, delta));
            } else {
                assert(!is_ancestor_of_slot(s0, i as int, t as int, d as int));
            }
            assert(level == min_level(s0, i as int, t as int, d as int));
        }
        proof {
            if i > 0 {
                assert forall|j: int| 0 <= j < i implies !is_ancestor_of_slot(
                    s0,
                    j,
                    t as int,
                    d as int,
                ) by {
                    lemma_min_level_mono(s0, j + 1, i as int, t as int, d as int);
                    lemma_ancestor_via_min_level(s0, j, t as int, d as int);
                }
            }
            assert(self@ =~= with_adjusted(s0, t as int, d as int, delta));
        }
    }
}

} // verus!

