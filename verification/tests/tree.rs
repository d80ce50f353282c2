use cursive_tree_view::{KeyEvent, Placement, TreeAction, TreeModel, TreeView};

fn depths(tree: &TreeView<String>) -> Vec<usize> {
    let model = tree.model();
    let mut out = Vec::new();
    let mut i = 0;
    while let Some(node) = model.node_at(i) {
        out.push(node.depth);
        i += 1;
    }
    out
}

fn values(tree: &TreeView<String>) -> Vec<String> {
    let model = tree.model();
    let mut out = Vec::new();
    let mut i = 0;
    while let Some(node) = model.node_at(i) {
        out.push(node.value.clone());
        i += 1;
    }
    out
}

fn scenario_a() -> TreeView<String> {
    let mut tree = TreeView::new();
    let first = tree.insert_item("root".to_string(), Placement::Child, 0);
    assert_eq!(first, 0);
    assert_eq!(tree.model().visible_height(), 1);
    tree.insert_item("1".to_string(), Placement::Child, 0);
    tree.insert_item("2".to_string(), Placement::Child, 0);
    tree.insert_item("3".to_string(), Placement::Child, 0);
    tree
}

#[test]
fn empty_model_reports_nothing() {
    let tree: TreeView<String> = TreeView::new();
    assert_eq!(tree.len(), 0);
    assert!(tree.is_empty());
    assert_eq!(tree.row(), None);
    assert_eq!(tree.borrow_item(0), None);
    assert_eq!(tree.model().visible_height(), 0);
}

#[test]
fn root_insert_into_empty_model() {
    let mut tree: TreeView<String> = TreeView::new();
    let index = tree.insert_item("root".to_string(), Placement::Child, 0);
    assert_eq!(index, 0);
    assert_eq!(tree.len(), 1);
    assert_eq!(tree.model().visible_height(), 1);
    assert_eq!(tree.borrow_item(0), Some(&"root".to_string()));
    let node = tree.model().node_at(0).unwrap();
    assert_eq!(node.depth, 0);
    assert_eq!(node.descendant_count, 0);
    assert!(!node.collapsed);
}

#[test]
fn three_children_under_one_root() {
    // Each insertion makes the new node the *first* child of the root, so
    // storage holds the later insertions first.
    let tree = scenario_a();
    assert_eq!(tree.model().visible_height(), 4);
    assert_eq!(depths(&tree), vec![0, 1, 1, 1]);
    assert_eq!(tree.model().node_at(0).unwrap().descendant_count, 3);
    assert_eq!(values(&tree), vec!["root", "3", "2", "1"]);
}

#[test]
fn sibling_placements() {
    let mut tree: TreeView<String> = TreeView::new();
    tree.insert_item("b".to_string(), Placement::Child, 0);
    let after = tree.insert_item("c".to_string(), Placement::SiblingAfter, 0);
    assert_eq!(after, 1);
    let before = tree.insert_item("a".to_string(), Placement::SiblingBefore, 0);
    assert_eq!(before, 0);
    assert_eq!(values(&tree), vec!["a", "b", "c"]);
    assert_eq!(depths(&tree), vec![0, 0, 0]);
}

#[test]
fn sibling_after_skips_the_whole_subtree() {
    let mut tree: TreeView<String> = TreeView::new();
    tree.insert_item("root".to_string(), Placement::Child, 0);
    tree.insert_item("kid".to_string(), Placement::Child, 0);
    // Sibling of "kid" (row 1, depth 1): lands after its span, index 2.
    let index = tree.insert_item("kid2".to_string(), Placement::SiblingAfter, 1);
    assert_eq!(index, 2);
    assert_eq!(values(&tree), vec!["root", "kid", "kid2"]);
    assert_eq!(depths(&tree), vec![0, 1, 1]);
    assert_eq!(tree.model().node_at(0).unwrap().descendant_count, 2);
}

#[test]
fn collapse_hides_descendants_only() {
    let mut tree = scenario_a();
    tree.collapse_item(0);
    assert_eq!(tree.model().visible_height(), 1);
    // The collapsed root itself stays visible and addressable.
    assert_eq!(tree.model().visible_index_to_storage(0), 0);
    assert_eq!(tree.borrow_item(0), Some(&"root".to_string()));
    // Storage is untouched: everything is still there.
    assert_eq!(tree.len(), 4);
    tree.expand_item(0);
    assert_eq!(tree.model().visible_height(), 4);
    assert_eq!(values(&tree), vec!["root", "3", "2", "1"]);
}

#[test]
fn set_collapsed_twice_equals_once() {
    let mut once = scenario_a();
    let mut twice = scenario_a();
    once.set_collapsed(0, true);
    twice.set_collapsed(0, true);
    twice.set_collapsed(0, true);
    assert_eq!(once.model().visible_height(), twice.model().visible_height());
    assert_eq!(values(&once), values(&twice));
    assert_eq!(
        once.model().get_collapsed(0),
        twice.model().get_collapsed(0)
    );
}

#[test]
fn collapse_inside_collapsed_ancestor_takes_effect_on_expand() {
    let mut model: TreeModel<String> = TreeModel::new();
    model.insert(Placement::Child, 0, "root".to_string());
    model.insert(Placement::Child, 0, "mid".to_string());
    model.insert(Placement::Child, 1, "leaf".to_string());
    assert_eq!(model.visible_height(), 3);
    model.set_collapsed(0, true);
    assert_eq!(model.visible_height(), 1);
    // "mid" sits inside the hidden span; collapsing it by storage index is
    // legal and takes effect as soon as the root expands again.
    model.set_collapsed(1, true);
    assert_eq!(model.visible_height(), 1);
    model.set_collapsed(0, false);
    assert_eq!(model.visible_height(), 2);
    // An out-of-bounds index changes nothing.
    model.set_collapsed(99, true);
    assert_eq!(model.visible_height(), 2);
    assert_eq!(model.len(), 3);
}

#[test]
fn remove_item_returns_subtree_in_storage_order() {
    let mut tree = scenario_a();
    let removed = tree.remove_item(0).unwrap();
    assert_eq!(removed, vec!["root", "3", "2", "1"]);
    assert!(tree.is_empty());
    assert_eq!(tree.model().visible_height(), 0);
    assert_eq!(tree.row(), None);
}

#[test]
fn remove_item_of_nested_child_updates_ancestors() {
    let mut tree: TreeView<String> = TreeView::new();
    tree.insert_item("root".to_string(), Placement::Child, 0);
    tree.insert_item("mid".to_string(), Placement::Child, 0);
    tree.insert_item("leaf".to_string(), Placement::Child, 1);
    let removed = tree.remove_item(1).unwrap();
    assert_eq!(removed, vec!["mid", "leaf"]);
    assert_eq!(values(&tree), vec!["root"]);
    assert_eq!(tree.model().node_at(0).unwrap().descendant_count, 0);
}

#[test]
fn remove_item_on_missing_row_is_none() {
    let mut tree = scenario_a();
    assert_eq!(tree.remove_item(4), None);
    assert_eq!(tree.len(), 4);
    let mut empty: TreeView<String> = TreeView::new();
    assert_eq!(empty.remove_item(0), None);
}

#[test]
fn extract_item_promotes_children() {
    let mut tree = scenario_a();
    let removed = tree.extract_item(0);
    assert_eq!(removed, Some("root".to_string()));
    assert_eq!(tree.model().visible_height(), 3);
    assert_eq!(depths(&tree), vec![0, 0, 0]);
    assert_eq!(values(&tree), vec!["3", "2", "1"]);
}

#[test]
fn extract_middle_node_reparents_to_grandparent() {
    let mut tree: TreeView<String> = TreeView::new();
    tree.insert_item("root".to_string(), Placement::Child, 0);
    tree.insert_item("mid".to_string(), Placement::Child, 0);
    tree.insert_item("x".to_string(), Placement::Child, 1);
    tree.insert_item("y".to_string(), Placement::Child, 1);
    assert_eq!(values(&tree), vec!["root", "mid", "y", "x"]);
    assert_eq!(depths(&tree), vec![0, 1, 2, 2]);
    let removed = tree.extract_item(1);
    assert_eq!(removed, Some("mid".to_string()));
    assert_eq!(values(&tree), vec!["root", "y", "x"]);
    assert_eq!(depths(&tree), vec![0, 1, 1]);
    assert_eq!(tree.model().node_at(0).unwrap().descendant_count, 2);
    assert_eq!(tree.model().visible_height(), 3);
}

#[test]
fn removing_a_collapsed_row_takes_its_hidden_subtree_too() {
    let mut tree = scenario_a();
    tree.collapse_item(0);
    assert_eq!(tree.model().visible_height(), 1);
    let removed = tree.remove_item(0).unwrap();
    assert_eq!(removed, vec!["root", "3", "2", "1"]);
    assert!(tree.is_empty());
}

#[test]
fn extract_item_on_missing_row_is_none() {
    let mut tree: TreeView<String> = TreeView::new();
    assert_eq!(tree.extract_item(0), None);
    tree.insert_item("root".to_string(), Placement::Child, 0);
    assert_eq!(tree.extract_item(7), None);
    assert_eq!(tree.len(), 1);
}

#[test]
fn insert_then_remove_restores_the_model() {
    let mut tree: TreeView<String> = TreeView::new();
    tree.insert_item("root".to_string(), Placement::Child, 0);
    tree.insert_item("kid".to_string(), Placement::Child, 0);
    tree.insert_item("kid2".to_string(), Placement::SiblingAfter, 1);
    let before_values = values(&tree);
    let before_depths = depths(&tree);
    let before_height = tree.model().visible_height();
    // Nothing is collapsed, so the reported storage index is also the row.
    let row = tree.insert_item("extra".to_string(), Placement::Child, 1);
    let removed = tree.remove_item(row).unwrap();
    assert_eq!(removed, vec!["extra"]);
    assert_eq!(values(&tree), before_values);
    assert_eq!(depths(&tree), before_depths);
    assert_eq!(tree.model().visible_height(), before_height);
    assert_eq!(tree.model().node_at(1).unwrap().descendant_count, 0);
}

#[test]
fn take_items_returns_storage_order_and_clears() {
    let mut tree = scenario_a();
    let items = tree.take_items();
    assert_eq!(items, vec!["root", "3", "2", "1"]);
    assert!(tree.is_empty());
    assert_eq!(tree.row(), None);
}

#[test]
fn clear_empties_and_resets_focus() {
    let mut tree = scenario_a();
    tree.set_selected_row(2);
    tree.clear();
    assert!(tree.is_empty());
    assert_eq!(tree.row(), None);
    tree.insert_item("x".to_string(), Placement::Child, 0);
    assert_eq!(tree.row(), Some(0));
}

#[test]
fn replace_item_swaps_only_the_value() {
    let mut tree = scenario_a();
    let old = tree.replace_item(1, "three".to_string());
    assert_eq!(old, Some("3".to_string()));
    assert_eq!(values(&tree), vec!["root", "three", "2", "1"]);
    assert_eq!(depths(&tree), vec![0, 1, 1, 1]);
    assert_eq!(tree.replace_item(9, "nope".to_string()), None);
}

#[test]
fn row_translation_skips_collapsed_spans() {
    let mut tree: TreeView<String> = TreeView::new();
    tree.insert_item("a".to_string(), Placement::Child, 0);
    tree.insert_item("a1".to_string(), Placement::Child, 0);
    tree.insert_item("b".to_string(), Placement::SiblingAfter, 0);
    assert_eq!(values(&tree), vec!["a", "a1", "b"]);
    tree.collapse_item(0);
    assert_eq!(tree.model().visible_height(), 2);
    assert_eq!(tree.model().visible_index_to_storage(0), 0);
    assert_eq!(tree.model().visible_index_to_storage(1), 2);
    assert_eq!(tree.borrow_item(1), Some(&"b".to_string()));
}

#[test]
fn navigation_moves_and_clamps_focus() {
    let mut tree = scenario_a();
    assert_eq!(tree.row(), Some(0));
    assert_eq!(
        tree.on_event(KeyEvent::Down),
        Some(TreeAction::Select { row: 1 })
    );
    assert_eq!(tree.on_event(KeyEvent::Up), Some(TreeAction::Select { row: 0 }));
    // Up at the top edge is ignored.
    assert_eq!(tree.on_event(KeyEvent::Up), None);
    assert_eq!(
        tree.on_event(KeyEvent::PageDown),
        Some(TreeAction::Select { row: 3 })
    );
    assert_eq!(tree.on_event(KeyEvent::PageDown), None);
    assert_eq!(
        tree.on_event(KeyEvent::PageUp),
        Some(TreeAction::Select { row: 0 })
    );
    assert_eq!(tree.on_event(KeyEvent::End), Some(TreeAction::Select { row: 3 }));
    assert_eq!(tree.on_event(KeyEvent::Home), Some(TreeAction::Select { row: 0 }));
}

#[test]
fn navigation_on_empty_model_is_ignored() {
    let mut tree: TreeView<String> = TreeView::new();
    assert_eq!(tree.on_event(KeyEvent::Down), None);
    assert_eq!(tree.on_event(KeyEvent::PageDown), None);
    assert_eq!(tree.on_event(KeyEvent::End), None);
    assert_eq!(tree.on_event(KeyEvent::Enter), None);
    assert_eq!(tree.row(), None);
}

#[test]
fn enter_toggles_fold_on_a_parent_and_submits_on_a_leaf() {
    let mut tree = scenario_a();
    assert_eq!(
        tree.on_event(KeyEvent::Enter),
        Some(TreeAction::Collapse { row: 0, collapsed: true })
    );
    assert_eq!(tree.model().visible_height(), 1);
    assert_eq!(
        tree.on_event(KeyEvent::Enter),
        Some(TreeAction::Collapse { row: 0, collapsed: false })
    );
    assert_eq!(tree.model().visible_height(), 4);
    tree.set_selected_row(1);
    assert_eq!(tree.on_event(KeyEvent::Enter), Some(TreeAction::Submit { row: 1 }));
    assert_eq!(tree.model().visible_height(), 4);
}

#[test]
fn disabled_view_ignores_every_key() {
    let mut tree = scenario_a();
    assert!(tree.is_enabled());
    tree.disable();
    assert!(!tree.is_enabled());
    assert_eq!(tree.on_event(KeyEvent::Down), None);
    assert_eq!(tree.on_event(KeyEvent::Enter), None);
    assert_eq!(tree.row(), Some(0));
    tree.enable();
    assert_eq!(tree.on_event(KeyEvent::Down), Some(TreeAction::Select { row: 1 }));
    tree.set_enabled(false);
    assert_eq!(tree.on_event(KeyEvent::Down), None);
}

#[test]
fn removal_clamps_the_selected_row() {
    let mut tree = scenario_a();
    tree.set_selected_row(3);
    tree.remove_item(1);
    assert_eq!(tree.row(), Some(2));
    let mut solo: TreeView<String> = TreeView::new();
    solo.insert_item("only".to_string(), Placement::Child, 0);
    solo.set_selected_row(0);
    solo.remove_item(0);
    assert_eq!(solo.row(), None);
}

#[test]
fn chainable_variants_behave_like_their_setters() {
    let tree = scenario_a().selected_row(2).collapsed(0, true);
    assert_eq!(tree.row(), Some(2));
    assert_eq!(tree.model().visible_height(), 1);
}

#[test]
fn visible_height_tracks_storage_length_without_folds() {
    let mut tree = scenario_a();
    assert_eq!(tree.model().visible_height(), tree.len());
    tree.collapse_item(0);
    assert!(tree.model().visible_height() < tree.len());
    tree.expand_item(0);
    assert_eq!(tree.model().visible_height(), tree.len());
}

#[test]
fn descendant_counts_match_the_depth_runs() {
    // For every node, the count must equal the distance to the next entry
    // at its depth or shallower.
    let mut tree = scenario_a();
    tree.insert_item("deep".to_string(), Placement::Child, 1);
    tree.extract_item(2);
    let d = depths(&tree);
    let model = tree.model();
    for i in 0..tree.len() {
        let mut j = i + 1;
        while j < tree.len() && d[j] > d[i] {
            j += 1;
        }
        assert_eq!(model.node_at(i).unwrap().descendant_count, j - i - 1);
    }
}
