//! Selection and key handling around the tree model.

use vstd::prelude::*;

use crate::model::Node;
use crate::model::Placement;
use crate::model::TreeModel;
use crate::model::insert_at;
use crate::model::insert_depth;
use crate::model::insert_target;
use crate::model::remove_subtree_spec;
use crate::model::extract_spec;
use crate::model::row_storage;
use crate::model::set_collapsed_spec;
use crate::model::subtree_end;
use crate::model::visible_from;
use crate::model::well_formed;
use crate::proofs::lemma_row_storage_in_range;

verus! {

/// A navigation or activation key, as the enclosing widget reports it.
#[derive(Clone, Copy, PartialEq, Eq, Structural, Debug)]
pub enum KeyEvent {
    /// Move the selection one row up.
    Up,
    /// Move the selection one row down.
    Down,
    /// Move the selection ten rows up.
    PageUp,
    /// Move the selection ten rows down.
    PageDown,
    /// Jump to the first row.
    Home,
    /// Jump to the last row.
    End,
    /// Activate the selected row.
    Enter,
}

/// What the host should do after a key was handled: which registered
/// callback to invoke, and with what.
#[derive(Clone, Copy, PartialEq, Eq, Structural, Debug)]
pub enum TreeAction {
    /// A leaf row was activated.
    Submit {
        /// The activated row.
        row: usize,
    },
    /// The selection moved to a new row.
    Select {
        /// The newly selected row.
        row: usize,
    },
    /// A row with children was folded or unfolded.
    Collapse {
        /// The toggled row.
        row: usize,
        /// The new collapse state of that row.
        collapsed: bool,
    },
}

/// The smaller of two integers.
pub open spec fn min_int(a: int, b: int) -> int {
    if a < b {
        a
    } else {
        b
    }
}

/// The focused row clamped to a visible height: unchanged while it fits,
/// pulled up to the last row otherwise, and zero on an empty projection.
pub open spec fn clamp_focus(f: int, h: int) -> int {
    if h == 0 {
        0
    } else if f < h {
        f
    } else {
        h - 1
    }
}

/// Where a navigation key moves the focused row, given the visible height.
/// Keys that would leave the valid range leave the focus where it is.
pub open spec fn nav_focus(ev: KeyEvent, f: int, h: int) -> int {
    match ev {
        KeyEvent::Up => if f > 0 {
            f - 1
        } else {
            f
        },
        KeyEvent::Down => if f + 1 < h {
            f + 1
        } else {
            f
        },
        KeyEvent::PageUp => if f >= 10 {
            f - 10
        } else {
            0
        },
        KeyEvent::PageDown => if h > 0 {
            min_int(f + 10, h - 1)
        } else {
            f
        },
        KeyEvent::Home => 0,
        KeyEvent::End => if h > 0 {
            h - 1
        } else {
            f
        },
        KeyEvent::Enter => f,
    }
}

/// LAW: collapsing the same row twice shows what collapsing it once shows:
/// the first write leaves the row resolving to the same storage entry, so
/// the second write repeats the first and changes nothing.
pub proof fn law_collapse_row_idempotent<T>(s: Seq<Node<T>>, row: int, c: bool)
    requires
        well_formed(s),
        0 <= row < visible_from(s, 0),
    ensures
        ({
            let t = row_storage(s, 0, row);
            let s1 = set_collapsed_spec(s, t, c);
            &&& row_storage(s1, 0, row) == t
            &&& set_collapsed_spec(s1, row_storage(s1, 0, row), c) == s1
        }),
{
    let t = row_storage(s, 0, row);
    let s1 = set_collapsed_spec(s, t, c);
    lemma_row_storage_in_range(s, 0, row);
    crate::proofs::lemma_row_walk_stable(s, t, c, 0, row);
    crate::laws::law_set_collapsed_idempotent(s, t, c);
}

/// A tree model together with the selection state of a widget showing it.
pub struct TreeView<T> {
    enabled: bool,
    focus: usize,
    list: TreeModel<T>,
}

impl<T> TreeView<T> {
    /// The flattened node sequence of the underlying model.
    pub closed spec fn items(&self) -> Seq<Node<T>> {
        self.list@
    }

    /// The focused row.
    pub closed spec fn focus_spec(&self) -> usize {
        self.focus
    }

    /// Whether the view reacts to keys.
    pub closed spec fn enabled_spec(&self) -> bool {
        self.enabled
    }

    /// The view's invariant: the model is a pre-order forest flattening.
    pub open spec fn wf(&self) -> bool {
        well_formed(self.items())
    }

    /// Creates a new, empty view: enabled, focused on row zero.
    pub fn new() -> (r: Self)
        ensures
            r.wf(),
            r.items() == Seq::<Node<T>>::empty(),
            r.focus_spec() == 0,
            r.enabled_spec(),
    {
        TreeView { enabled: true, focus: 0, list: TreeModel::new() }
    }

    /// Disables this view.  A disabled view ignores every key.
    pub fn disable(&mut self)
        ensures
            !final(self).enabled_spec(),
            final(self).items() == old(self).items(),
            final(self).focus_spec() == old(self).focus_spec(),
    {
        self.enabled = false;
    }

    /// Re-enables this view.
    pub fn enable(&mut self)
        ensures
            final(self).enabled_spec(),
            final(self).items() == old(self).items(),
            final(self).focus_spec() == old(self).focus_spec(),
    {
        self.enabled = true;
    }

    /// Enables or disables this view.
    pub fn set_enabled(&mut self, enabled: bool)
        ensures
            final(self).enabled_spec() == enabled,
            final(self).items() == old(self).items(),
            final(self).focus_spec() == old(self).focus_spec(),
    {
        self.enabled = enabled;
    }

    /// Returns `true` if this view is enabled.
    pub fn is_enabled(&self) -> (r: bool)
        ensures
            r == self.enabled_spec(),
    {
        self.enabled
    }

    /// Read access to the underlying model, for rendering.
    pub fn model(&self) -> (r: &TreeModel<T>)
        ensures
            r@ == self.items(),
    {
        &self.list
    }

    /// Removes all items and resets the focus.
    pub fn clear(&mut self)
        ensures
            final(self).wf(),
            final(self).items() == Seq::<Node<T>>::empty(),
            final(self).focus_spec() == 0,
            final(self).enabled_spec() == old(self).enabled_spec(),
    {
        self.list.clear();
        self.focus = 0;
    }

    /// Removes all items, returning their values in storage order, and
    /// resets the focus.
    pub fn take_items(&mut self) -> (r: Vec<T>)
        ensures
            final(self).wf(),
            final(self).items() == Seq::<Node<T>>::empty(),
            final(self).focus_spec() == 0,
            final(self).enabled_spec() == old(self).enabled_spec(),
            r@ == old(self).items().map_values(|nd: Node<T>| nd.value),
    {
        let items = self.list.take_items();
        self.focus = 0;
        items
    }

    /// Number of items in this view, hidden ones included.
    pub fn len(&self) -> (r: usize)
        ensures
            r == self.items().len(),
    {
        self.list.len()
    }

    /// Returns `true` if this view holds no item.
    pub fn is_empty(&self) -> (r: bool)
        ensures
            r == (self.items().len() == 0),
    {
        self.list.is_empty()
    }

    /// The focused row, or `None` while the view is empty.
    pub fn row(&self) -> (r: Option<usize>)
        ensures
            self.items().len() == 0 ==> r is None,
            self.items().len() > 0 ==> r == Some(self.focus_spec()),
    {
        if self.list.is_empty() {
            None
        } else {
            Some(self.focus)
        }
    }

    /// Selects the row at the given index.  The presentation layer clamps
    /// the index to the visible height before calling.
    pub fn set_selected_row(&mut self, row_index: usize)
        ensures
            final(self).focus_spec() == row_index,
            final(self).items() == old(self).items(),
            final(self).enabled_spec() == old(self).enabled_spec(),
    {
        self.focus = row_index;
    }

    /// Selects the row at the given index.  Chainable variant.
    pub fn selected_row(self, row_index: usize) -> (r: Self)
        ensures
            r.focus_spec() == row_index,
            r.items() == self.items(),
            r.enabled_spec() == self.enabled_spec(),
    {
        let mut this = self;
        this.set_selected_row(row_index);
        this
    }

    /// A reference to the value at the given row, or `None` when no such
    /// row is visible.
    pub fn borrow_item(&self, row: usize) -> (r: Option<&T>)
        requires
            self.wf(),
        ensures
            row < visible_from(self.items(), 0) ==> (r matches Some(v) && *v == self.items()[
                row_storage(self.items(), 0, row as int)].value),
            row >= visible_from(self.items(), 0) ==> r is None,
    {
        let index = self.list.visible_index_to_storage(row);
        proof {
            lemma_row_storage_in_range(self.list@, 0, row as int);
        }
        self.list.get(index)
    }

    /// Replaces the value at the given row, returning the old value, or
    /// returns `None` (and changes nothing) when no such row is visible.
    pub fn replace_item(&mut self, row: usize, value: T) -> (r: Option<T>)
        requires
            old(self).wf(),
        ensures
            final(self).wf(),
            final(self).focus_spec() == old(self).focus_spec(),
            final(self).enabled_spec() == old(self).enabled_spec(),
            row >= visible_from(old(self).items(), 0) ==> r is None && final(self).items() == old(
                self,
            ).items(),
            row < visible_from(old(self).items(), 0) ==> ({
                let t = row_storage(old(self).items(), 0, row as int);
                r matches Some(prev) && prev == old(self).items()[t].value && final(self).items()
                    == old(self).items().update(
                    t,
                    Node {
                        value,
                        depth: old(self).items()[t].depth,
                        descendant_count: old(self).items()[t].descendant_count,
                        collapsed: old(self).items()[t].collapsed,
                    },
                )
            }),
    {
        let index = self.list.visible_index_to_storage(row);
        proof {
            lemma_row_storage_in_range(self.list@, 0, row as int);
        }
        self.list.set_value(index, value)
    }

    /// Inserts a new item at the given row with the given placement,
    /// returning the storage index it occupies.  The row must be visible
    /// unless the view is empty, in which case the item becomes the sole
    /// root and the placement is ignored.
    pub fn insert_item(&mut self, item: T, placement: Placement, row: usize) -> (r: usize)
        requires
            old(self).wf(),
            old(self).items().len() == 0 || row < visible_from(old(self).items(), 0),
        ensures
            final(self).wf(),
            final(self).items().len() == old(self).items().len() + 1,
            final(self).focus_spec() == old(self).focus_spec(),
            final(self).enabled_spec() == old(self).enabled_spec(),
            old(self).items().len() == 0 ==> r == 0 && final(self).items() == insert_at(
                old(self).items(),
                0,
                0,
                item,
            ),
            old(self).items().len() > 0 ==> ({
                let t0 = row_storage(old(self).items(), 0, row as int);
                r == insert_target(old(self).items(), placement, t0) && final(self).items()
                    == insert_at(
                    old(self).items(),
                    insert_target(old(self).items(), placement, t0),
                    insert_depth(old(self).items(), placement, t0),
                    item,
                )
            }),
    {
        let index = self.list.visible_index_to_storage(row);
        proof {
            lemma_row_storage_in_range(self.list@, 0, row as int);
        }
        self.list.insert(placement, index, item)
    }

    /// Removes the item at the given row along with its whole subtree.  The
    /// returned vector holds the removed values in top-to-bottom order;
    /// `None` when no such row is visible.  The focus is clamped to the new
    /// visible height.
    pub fn remove_item(&mut self, row: usize) -> (r: Option<Vec<T>>)
        requires
            old(self).wf(),
        ensures
            final(self).wf(),
            final(self).enabled_spec() == old(self).enabled_spec(),
            row >= visible_from(old(self).items(), 0) ==> r is None && final(self).items() == old(
                self,
            ).items(),
            row < visible_from(old(self).items(), 0) ==> ({
                let t = row_storage(old(self).items(), 0, row as int);
                r matches Some(vals) && vals@ == old(self).items().subrange(
                    t,
                    subtree_end(old(self).items(), t),
                ).map_values(|nd: Node<T>| nd.value) && final(self).items() == remove_subtree_spec(
                    old(self).items(),
                    t,
                )
            }),
            final(self).focus_spec() == clamp_focus(
                old(self).focus_spec() as int,
                visible_from(final(self).items(), 0) as int,
            ),
    {
        let index = self.list.visible_index_to_storage(row);
        proof {
            lemma_row_storage_in_range(self.list@, 0, row as int);
        }
        let removed = self.list.remove_with_subtree(index);
        let h = self.list.visible_height();
        if h == 0 {
            self.focus = 0;
        } else if self.focus >= h {
            self.focus = h - 1;
        }
        removed
    }

    /// Extracts the single item at the given row, moving its children one
    /// level up, or returns `None` when no such row is visible.  The focus
    /// is clamped to the new visible height.
    pub fn extract_item(&mut self, row: usize) -> (r: Option<T>)
        requires
            old(self).wf(),
        ensures
            final(self).wf(),
            final(self).enabled_spec() == old(self).enabled_spec(),
            row >= visible_from(old(self).items(), 0) ==> r is None && final(self).items() == old(
                self,
            ).items(),
            row < visible_from(old(self).items(), 0) ==> ({
                let t = row_storage(old(self).items(), 0, row as int);
                r matches Some(v) && v == old(self).items()[t].value && final(self).items()
                    == extract_spec(old(self).items(), t)
            }),
            final(self).focus_spec() == clamp_focus(
                old(self).focus_spec() as int,
                visible_from(final(self).items(), 0) as int,
            ),
    {
        let index = self.list.visible_index_to_storage(row);
        proof {
            lemma_row_storage_in_range(self.list@, 0, row as int);
        }
        let removed = self.list.extract(index);
        let h = self.list.visible_height();
        if h == 0 {
            self.focus = 0;
        } else if self.focus >= h {
            self.focus = h - 1;
        }
        removed
    }

    /// Collapses or expands the children of the given row; a row that is
    /// not visible leaves the view unchanged.
    pub fn set_collapsed(&mut self, row: usize, collapsed: bool)
        requires
            old(self).wf(),
        ensures
            final(self).wf(),
            final(self).focus_spec() == old(self).focus_spec(),
            final(self).enabled_spec() == old(self).enabled_spec(),
            row < visible_from(old(self).items(), 0) ==> final(self).items() == set_collapsed_spec(
                old(self).items(),
                row_storage(old(self).items(), 0, row as int),
                collapsed,
            ),
            row >= visible_from(old(self).items(), 0) ==> final(self).items() == old(self).items(),
    {
        let index = self.list.visible_index_to_storage(row);
        proof {
            lemma_row_storage_in_range(self.list@, 0, row as int);
        }
        self.list.set_collapsed(index, collapsed);
    }

    /// Collapses the children of the given row.
    pub fn collapse_item(&mut self, row: usize)
        requires
            old(self).wf(),
        ensures
            final(self).wf(),
            final(self).focus_spec() == old(self).focus_spec(),
            final(self).enabled_spec() == old(self).enabled_spec(),
            row < visible_from(old(self).items(), 0) ==> final(self).items() == set_collapsed_spec(
                old(self).items(),
                row_storage(old(self).items(), 0, row as int),
                true,
            ),
            row >= visible_from(old(self).items(), 0) ==> final(self).items() == old(self).items(),
    {
        self.set_collapsed(row, true);
    }

    /// Expands the children of the given row.
    pub fn expand_item(&mut self, row: usize)
        requires
            old(self).wf(),
        ensures
            final(self).wf(),
            final(self).focus_spec() == old(self).focus_spec(),
            final(self).enabled_spec() == old(self).enabled_spec(),
            row < visible_from(old(self).items(), 0) ==> final(self).items() == set_collapsed_spec(
                old(self).items(),
                row_storage(old(self).items(), 0, row as int),
                false,
            ),
            row >= visible_from(old(self).items(), 0) ==> final(self).items() == old(self).items(),
    {
        self.set_collapsed(row, false);
    }

    /// Collapses or expands the children of the given row.  Chainable
    /// variant.
    pub fn collapsed(self, row: usize, collapsed: bool) -> (r: Self)
        requires
            self.wf(),
        ensures
            r.wf(),
            r.focus_spec() == self.focus_spec(),
            r.enabled_spec() == self.enabled_spec(),
            row < visible_from(self.items(), 0) ==> r.items() == set_collapsed_spec(
                self.items(),
                row_storage(self.items(), 0, row as int),
                collapsed,
            ),
            row >= visible_from(self.items(), 0) ==> r.items() == self.items(),
    {
        let mut this = self;
        this.set_collapsed(row, collapsed);
        this
    }

    /// Moves the focus up by at most `n` rows.
    fn focus_up(&mut self, n: usize)
        ensures
            final(self).items() == old(self).items(),
            final(self).enabled_spec() == old(self).enabled_spec(),
            final(self).focus_spec() == (if old(self).focus_spec() >= n {
                old(self).focus_spec() - n
            } else {
                0
            }),
    {
        self.focus = if self.focus >= n {
            self.focus - n
        } else {
            0
        };
    }

    /// Moves the focus down by `n` rows, clamped to the last visible row;
    /// does nothing while no row is visible.
    fn focus_down(&mut self, n: usize)
        requires
            old(self).wf(),
        ensures
            final(self).items() == old(self).items(),
            final(self).enabled_spec() == old(self).enabled_spec(),
            final(self).focus_spec() == (if visible_from(old(self).items(), 0) == 0 {
                old(self).focus_spec() as int
            } else {
                min_int(
                    old(self).focus_spec() + n,
                    visible_from(old(self).items(), 0) - 1,
                )
            }),
    {
        let h = self.list.visible_height();
        if h > 0 {
            let last = h - 1;
            if self.focus < last {
                let room = last - self.focus;
                self.focus = self.focus + (if n < room {
                    n
                } else {
                    room
                });
            } else {
                self.focus = last;
            }
        }
    }

    /// Handles one key: moves the focus, folds or activates the focused
    /// row, and reports which registered callback the host should invoke.
    /// A disabled or empty view ignores every key; a focus beyond the
    /// visible height cannot be activated.
    pub fn on_event(&mut self, event: KeyEvent) -> (r: Option<TreeAction>)
        requires
            old(self).wf(),
        ensures
            final(self).wf(),
            final(self).enabled_spec() == old(self).enabled_spec(),
            !old(self).enabled_spec() ==> final(self).items() == old(self).items() && final(self).focus_spec() == old(self).focus_spec() && r is None,
            old(self).enabled_spec() && event != KeyEvent::Enter ==> final(self).items() == old(
                self,
            ).items() && final(self).focus_spec() == nav_focus(
                event,
                old(self).focus_spec() as int,
                visible_from(old(self).items(), 0) as int,
            ) && r == (if old(self).items().len() > 0 && final(self).focus_spec() != old(
                self,
            ).focus_spec() {
                Some(TreeAction::Select { row: final(self).focus_spec() })
            } else {
                None::<TreeAction>
            }),
            old(self).enabled_spec() && event == KeyEvent::Enter && (visible_from(
                old(self).items(),
                0,
            ) == 0 || old(self).focus_spec() >= visible_from(old(self).items(), 0)) ==> final(self).items() == old(self).items() && final(self).focus_spec() == old(self).focus_spec()
                && r is None,
            old(self).enabled_spec() && event == KeyEvent::Enter && old(self).focus_spec()
                < visible_from(old(self).items(), 0) ==> ({
                let t = row_storage(old(self).items(), 0, old(self).focus_spec() as int);
                &&& final(self).focus_spec() == old(self).focus_spec()
                &&& (old(self).items()[t].descendant_count > 0 ==> final(self).items()
                    == set_collapsed_spec(old(self).items(), t, !old(self).items()[t].collapsed)
                    && r == Some(
                    TreeAction::Collapse {
                        row: old(self).focus_spec(),
                        collapsed: !old(self).items()[t].collapsed,
                    },
                ))
                &&& (old(self).items()[t].descendant_count == 0 ==> final(self).items() == old(
                    self,
                ).items() && r == Some(TreeAction::Submit { row: old(self).focus_spec() }))
            }),
    {
        if !self.enabled {
            return None;
        }
        let ghost s = self.list@;
        let last_focus = self.focus;
        match event {
            KeyEvent::Up => {
                if self.focus > 0 {
                    self.focus_up(1);
                }
            },
            KeyEvent::Down => {
                let h = self.list.visible_height();
                if h > 0 && self.focus < h - 1 {
                    self.focus_down(1);
                }
            },
            KeyEvent::PageUp => {
                self.focus_up(10);
            },
            KeyEvent::PageDown => {
                self.focus_down(10);
            },
            KeyEvent::Home => {
                self.focus = 0;
            },
            KeyEvent::End => {
                let h = self.list.visible_height();
                if h > 0 {
                    self.focus = h - 1;
                }
            },
            KeyEvent::Enter => {
                let h = self.list.visible_height();
                if self.focus < h {
                    let row = self.focus;
                    let index = self.list.visible_index_to_storage(row);
                    proof {
                        lemma_row_storage_in_range(s, 0, row as int);
                    }
                    let was_collapsed = self.list.get_collapsed(index);
                    let children = self.list.get_children(index);
                    if children > 0 {
                        self.list.set_collapsed(index, !was_collapsed);
                        return Some(TreeAction::Collapse { row, collapsed: !was_collapsed });
                    } else {
                        return Some(TreeAction::Submit { row });
                    }
                }
                return None;
            },
        }
        if !self.list.is_empty() && self.focus != last_focus {
            Some(TreeAction::Select { row: self.focus })
        } else {
            None
        }
    }
}

} // verus!
