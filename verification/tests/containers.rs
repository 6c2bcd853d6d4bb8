use glaze_layout::geometry::LengthValue;
use glaze_layout::window_size::{tiling_size_for_length, ResizeFrame};
use glaze_layout::attach::TreeError;
use glaze_layout::directions::{set_tiling_direction, toggle_tiling_direction, wrap_tab_in_split};
use glaze_layout::mocks::{SplitContainer, TabbedContainer, TilingWindow, Workspace};
use glaze_layout::sync::PendingSync;
use glaze_layout::tab_commands::{focus_tab, toggle_tabbed};
use glaze_layout::tree::{ContainerKind, ContainerTree, Direction, TilingDirection, SIZE_ONE};

fn window(tree: &mut ContainerTree) -> usize {
    TilingWindow::mock(tree, SIZE_ONE)
}

fn workspace(tree: &mut ContainerTree, children: Vec<usize>) -> usize {
    Workspace::mock(tree, "1".to_string(), TilingDirection::Horizontal, &children)
}

fn children(tree: &ContainerTree, c: usize) -> Vec<usize> {
    tree.nodes[c].children.clone()
}

fn focus_order(tree: &ContainerTree, c: usize) -> Vec<usize> {
    tree.nodes[c].focus_order.clone()
}

fn new_tabbed(tree: &mut ContainerTree) -> usize {
    tree.add_node(ContainerKind::Tabbed, TilingDirection::Horizontal)
}

#[test]
fn removing_empty_split_returns_its_size_to_outer_siblings() {
    let mut tree = ContainerTree::new();
    let nested = window(&mut tree);
    let split = SplitContainer::mock(&mut tree, TilingDirection::Horizontal, &vec![nested]);
    let sibling = window(&mut tree);
    let ws = workspace(&mut tree, vec![split, sibling]);
    tree.set_tiling_size(split, SIZE_ONE / 4);
    tree.set_tiling_size(sibling, SIZE_ONE / 4 * 3);

    tree.detach_container(nested).unwrap();

    assert!(tree.is_detached(split));
    assert_eq!(tree.child_count(ws), 1);
    assert_eq!(children(&tree, ws)[0], sibling);
    assert_eq!(tree.tiling_size(sibling), SIZE_ONE);
}

#[test]
fn preserves_tabbed_container_with_one_remaining_child() {
    let mut tree = ContainerTree::new();
    let first = window(&mut tree);
    let second = window(&mut tree);
    let ws = workspace(&mut tree, vec![first, second]);
    let tabbed = new_tabbed(&mut tree);

    tree.wrap_in_tabbed_container(tabbed, ws, &vec![first, second]).unwrap();
    assert_eq!(tree.child_count(ws), 1);

    tree.detach_container(first).unwrap();

    assert!(!tree.is_detached(tabbed));
    assert!(tree.is_detached(first));
    assert_eq!(tree.child_count(ws), 1);
    assert_eq!(children(&tree, ws)[0], tabbed);
    assert_eq!(children(&tree, tabbed)[0], second);
    assert_eq!(tree.tiling_size(second), SIZE_ONE);
}

#[test]
fn keeps_tabbed_container_with_multiple_remaining_children() {
    let mut tree = ContainerTree::new();
    let first = window(&mut tree);
    let second = window(&mut tree);
    let third = window(&mut tree);
    let ws = workspace(&mut tree, vec![first, second, third]);
    let tabbed = new_tabbed(&mut tree);

    tree.wrap_in_tabbed_container(tabbed, ws, &vec![first, second, third]).unwrap();
    tree.detach_container(first).unwrap();

    assert!(!tree.is_detached(tabbed));
    assert_eq!(children(&tree, ws)[0], tabbed);
    assert_eq!(children(&tree, tabbed), vec![second, third]);
}

#[test]
fn restores_children_to_parent() {
    let mut tree = ContainerTree::new();
    let first = window(&mut tree);
    let second = window(&mut tree);
    let ws = workspace(&mut tree, vec![first, second]);
    let tabbed = new_tabbed(&mut tree);

    tree.wrap_in_tabbed_container(tabbed, ws, &vec![first, second]).unwrap();
    tree.flatten_tabbed_container(tabbed).unwrap();

    assert!(tree.is_detached(tabbed));
    assert_eq!(tree.tiling_children(ws), vec![first, second]);
    assert_eq!(tree.tiling_size(first), SIZE_ONE / 2);
    assert_eq!(tree.tiling_size(second), SIZE_ONE / 2);
}

#[test]
fn restores_unequal_child_sizes() {
    let mut tree = ContainerTree::new();
    let first = window(&mut tree);
    let second = window(&mut tree);
    let ws = workspace(&mut tree, vec![first, second]);
    tree.set_tiling_size(first, SIZE_ONE / 4);
    tree.set_tiling_size(second, SIZE_ONE / 4 * 3);
    let tabbed = new_tabbed(&mut tree);

    tree.wrap_in_tabbed_container(tabbed, ws, &vec![first, second]).unwrap();
    tree.flatten_tabbed_container(tabbed).unwrap();

    assert_eq!(tree.tiling_size(first), SIZE_ONE / 4);
    assert_eq!(tree.tiling_size(second), SIZE_ONE / 4 * 3);
}

#[test]
fn empty_tabbed_container_is_removed() {
    let mut tree = ContainerTree::new();
    let first = window(&mut tree);
    let second = window(&mut tree);
    let ws = workspace(&mut tree, vec![first, second]);
    let first_size = tree.tiling_size(first);
    let second_size = tree.tiling_size(second);
    let tabbed = new_tabbed(&mut tree);

    tree.wrap_in_tabbed_container(tabbed, ws, &vec![first]).unwrap();
    assert_eq!(tree.tiling_size(tabbed), first_size);

    tree.flatten_empty_tabbed_container(tabbed).unwrap();
    assert!(!tree.is_detached(tabbed));

    tree.detach_container(first).unwrap();

    assert!(tree.is_detached(tabbed));
    assert!(tree.is_detached(first));
    assert_eq!(children(&tree, ws)[0], second);
    assert_eq!(tree.tiling_size(second), first_size + second_size);
}

#[test]
fn preserves_child_and_focus_order() {
    let mut tree = ContainerTree::new();
    let first = window(&mut tree);
    let second = window(&mut tree);
    let ws = workspace(&mut tree, vec![first, second]);
    tree.nodes[ws].focus_order.swap(0, 1);
    let tabbed = new_tabbed(&mut tree);

    tree.wrap_in_tabbed_container(tabbed, ws, &vec![first, second]).unwrap();

    assert_eq!(tree.child_count(ws), 1);
    assert_eq!(children(&tree, ws)[0], tabbed);
    assert_eq!(children(&tree, tabbed), vec![first, second]);
    assert_eq!(focus_order(&tree, tabbed), vec![second, first]);
    assert_eq!(tree.tiling_size(first), SIZE_ONE / 2);
    assert_eq!(tree.tiling_size(second), SIZE_ONE / 2);
}

#[test]
fn rejects_children_from_different_parents() {
    let mut tree = ContainerTree::new();
    let first = window(&mut tree);
    let last = window(&mut tree);
    let first_ws = workspace(&mut tree, vec![first]);
    let second_ws = workspace(&mut tree, vec![last]);
    let tabbed = new_tabbed(&mut tree);

    let result = tree.wrap_in_tabbed_container(tabbed, first_ws, &vec![first, last]);

    assert_eq!(result, Err(TreeError::InvalidTabChildren));
    assert_eq!(tree.child_count(second_ws), 1);
}

#[test]
fn adding_a_tab_keeps_normalized_layout_weights() {
    let mut tree = ContainerTree::new();
    let first = window(&mut tree);
    let second = window(&mut tree);
    let third = window(&mut tree);
    let ws = workspace(&mut tree, vec![first, second]);
    let tabbed = new_tabbed(&mut tree);

    tree.wrap_in_tabbed_container(tabbed, ws, &vec![first, second]).unwrap();
    tree.attach_container(third, tabbed, None).unwrap();

    for child in [first, second, third] {
        assert_eq!(tree.tiling_size(child), SIZE_ONE / 3);
    }
}

#[test]
fn toggles_siblings_into_and_out_of_tabbed_layout() {
    let mut tree = ContainerTree::new();
    let first = TilingWindow::mock(&mut tree, SIZE_ONE / 4);
    let second = TilingWindow::mock(&mut tree, SIZE_ONE / 4 * 3);
    let ws = workspace(&mut tree, vec![first, second]);
    tree.set_tiling_size(first, SIZE_ONE / 4);
    tree.set_tiling_size(second, SIZE_ONE / 4 * 3);
    let mut sync = PendingSync::new();

    toggle_tabbed(&mut tree, first, &mut sync).unwrap();

    let tabbed = children(&tree, ws)[0];
    assert!(tree.tabbed(tabbed));
    assert_eq!(tree.child_count(ws), 1);
    assert_eq!(children(&tree, tabbed), vec![first, second]);
    assert_eq!(focus_order(&tree, tabbed)[0], first);
    assert!(sync.needs_focus_update());

    sync.clear();
    toggle_tabbed(&mut tree, first, &mut sync).unwrap();

    assert!(tree.is_detached(tabbed));
    assert_eq!(tree.tiling_children(ws), vec![first, second]);
    assert_eq!(tree.tiling_size(first), SIZE_ONE / 4);
    assert_eq!(tree.tiling_size(second), SIZE_ONE / 4 * 3);
    assert!(sync.needs_focus_update());
}

#[test]
fn explicit_tab_focus_wraps_in_both_directions() {
    let mut tree = ContainerTree::new();
    let first = window(&mut tree);
    let second = window(&mut tree);
    let third = window(&mut tree);
    let tabbed = TabbedContainer::mock(&mut tree, &vec![first, second, third]);
    let mut sync = PendingSync::new();

    focus_tab(&mut tree, first, false, &mut sync).unwrap();
    assert_eq!(focus_order(&tree, tabbed)[0], third);

    focus_tab(&mut tree, third, true, &mut sync).unwrap();
    assert_eq!(focus_order(&tree, tabbed)[0], first);
    assert!(sync.needs_focus_update());
}

#[test]
fn toggling_from_nested_tab_content_flattens_nearest_tabbed_layout() {
    let mut tree = ContainerTree::new();
    let first = window(&mut tree);
    let split = SplitContainer::mock(&mut tree, TilingDirection::Horizontal, &vec![first]);
    let second = window(&mut tree);
    let tabbed = TabbedContainer::mock(&mut tree, &vec![split, second]);
    let ws = workspace(&mut tree, vec![tabbed]);
    let mut sync = PendingSync::new();

    toggle_tabbed(&mut tree, first, &mut sync).unwrap();

    assert!(tree.is_detached(tabbed));
    assert_eq!(tree.tiling_children(ws), vec![split, second]);
}

#[test]
fn toggling_direction_wraps_only_the_active_tab() {
    let mut tree = ContainerTree::new();
    let first = window(&mut tree);
    let second = window(&mut tree);
    let tabbed = TabbedContainer::mock(&mut tree, &vec![first, second]);
    let _ws = workspace(&mut tree, vec![tabbed]);

    let dc = wrap_tab_in_split(&mut tree, first, TilingDirection::Vertical).unwrap();

    assert_eq!(tree.nodes[dc].tiling_direction, TilingDirection::Vertical);
    assert_eq!(tree.child_count(tabbed), 2);
    assert_eq!(children(&tree, tabbed)[0], dc);
    assert_eq!(children(&tree, tabbed)[1], second);
    assert_eq!(children(&tree, dc)[0], first);
}

#[test]
fn focuses_adjacent_tabs_horizontally() {
    let mut tree = ContainerTree::new();
    let first = window(&mut tree);
    let second = window(&mut tree);
    let _tabbed = TabbedContainer::mock(&mut tree, &vec![first, second]);

    assert_eq!(tree.tabbed_focus_target(first, Direction::Right), Some(second));
    assert_eq!(tree.tabbed_focus_target(second, Direction::Left), Some(first));
    assert!(tree.tabbed_focus_target(first, Direction::Down).is_none());
}

#[test]
fn searches_outer_tabbed_container_at_inner_edge() {
    let mut tree = ContainerTree::new();
    let inner_window = window(&mut tree);
    let inner = TabbedContainer::mock(&mut tree, &vec![inner_window]);
    let outer_window = window(&mut tree);
    let _outer = TabbedContainer::mock(&mut tree, &vec![inner, outer_window]);

    assert_eq!(tree.tiling_focus_target(inner_window, Direction::Right).unwrap(), Some(outer_window));
}

#[test]
fn prefers_split_sibling_inside_active_tab() {
    let mut tree = ContainerTree::new();
    let first = window(&mut tree);
    let second = window(&mut tree);
    let split = SplitContainer::mock(&mut tree, TilingDirection::Horizontal, &vec![first, second]);
    let other_tab = window(&mut tree);
    let _tabbed = TabbedContainer::mock(&mut tree, &vec![split, other_tab]);

    assert_eq!(tree.tiling_focus_target(first, Direction::Right).unwrap(), Some(second));
}

#[test]
fn wraps_innermost_tabbed_container() {
    let mut tree = ContainerTree::new();
    let first = window(&mut tree);
    let second = window(&mut tree);
    let _tabbed = TabbedContainer::mock(&mut tree, &vec![first, second]);

    assert_eq!(tree.tabbed_wrap_target(first, Direction::Left), Some(second));
    assert_eq!(tree.tabbed_wrap_target(second, Direction::Right), Some(first));
}

#[test]
fn toggling_a_workspace_inverts_its_direction() {
    let mut tree = ContainerTree::new();
    let ws = workspace(&mut tree, vec![]);

    assert_eq!(toggle_tiling_direction(&mut tree, ws), Ok(Some(ws)));
    assert_eq!(tree.nodes[ws].tiling_direction, TilingDirection::Vertical);
}

#[test]
fn toggling_a_window_with_siblings_wraps_it_in_a_split() {
    let mut tree = ContainerTree::new();
    let first = window(&mut tree);
    let second = window(&mut tree);
    let ws = workspace(&mut tree, vec![first, second]);

    let split = toggle_tiling_direction(&mut tree, first).unwrap().unwrap();

    assert!(tree.split(split));
    assert_eq!(tree.nodes[split].tiling_direction, TilingDirection::Vertical);
    assert_eq!(children(&tree, ws), vec![split, second]);
    assert_eq!(children(&tree, split), vec![first]);
}

#[test]
fn setting_the_current_direction_changes_nothing() {
    let mut tree = ContainerTree::new();
    let first = window(&mut tree);
    let ws = workspace(&mut tree, vec![first]);

    assert_eq!(set_tiling_direction(&mut tree, first, TilingDirection::Horizontal), Ok(None));
    assert_eq!(tree.nodes[ws].tiling_direction, TilingDirection::Horizontal);
    assert_eq!(set_tiling_direction(&mut tree, first, TilingDirection::Vertical), Ok(Some(ws)));
    assert_eq!(tree.nodes[ws].tiling_direction, TilingDirection::Vertical);
}

#[test]
fn a_detached_tabbed_container_cannot_be_flattened() {
    let mut tree = ContainerTree::new();
    let first = window(&mut tree);
    let tabbed = TabbedContainer::mock(&mut tree, &vec![first]);

    assert_eq!(tree.flatten_tabbed_container(tabbed), Err(TreeError::NoParent));
}

#[test]
fn wrapping_nothing_is_refused() {
    let mut tree = ContainerTree::new();
    let ws = workspace(&mut tree, vec![]);
    let tabbed = new_tabbed(&mut tree);

    assert_eq!(tree.wrap_in_tabbed_container(tabbed, ws, &vec![]), Err(TreeError::EmptyTabs));
}

#[test]
fn wrapping_into_an_attached_tabbed_container_is_refused() {
    let mut tree = ContainerTree::new();
    let first = window(&mut tree);
    let second = window(&mut tree);
    let tabbed = TabbedContainer::mock(&mut tree, &vec![first]);
    let ws = workspace(&mut tree, vec![tabbed, second]);

    assert_eq!(tree.wrap_in_tabbed_container(tabbed, ws, &vec![second]), Err(TreeError::TabbedNotEmpty));
}

#[test]
fn attaching_twice_is_refused() {
    let mut tree = ContainerTree::new();
    let first = window(&mut tree);
    let ws = workspace(&mut tree, vec![first]);

    assert_eq!(tree.attach_container(first, ws, None), Err(TreeError::AlreadyAttached));
}

#[test]
fn a_window_without_a_tabbed_parent_is_not_wrapped_as_a_tab() {
    let mut tree = ContainerTree::new();
    let first = window(&mut tree);
    let _ws = workspace(&mut tree, vec![first]);

    assert_eq!(wrap_tab_in_split(&mut tree, first, TilingDirection::Vertical), Err(TreeError::NoTabbedParent));
}

#[test]
fn flattening_after_wrapping_restores_the_parent_lists() {
    let mut tree = ContainerTree::new();
    let a = window(&mut tree);
    let b = window(&mut tree);
    let c = window(&mut tree);
    let d = window(&mut tree);
    let ws = workspace(&mut tree, vec![a, b, c, d]);
    let before_children = children(&tree, ws);
    let before_focus = focus_order(&tree, ws);
    let tabbed = new_tabbed(&mut tree);

    tree.wrap_in_tabbed_container(tabbed, ws, &vec![b, c]).unwrap();
    assert_eq!(children(&tree, ws), vec![a, tabbed, d]);
    tree.flatten_tabbed_container(tabbed).unwrap();

    assert_eq!(children(&tree, ws), before_children);
    assert_eq!(focus_order(&tree, ws), before_focus);
}

#[test]
fn only_active_tab_is_visible() {
    let mut tree = ContainerTree::new();
    let first = window(&mut tree);
    let second = window(&mut tree);
    let tabbed = TabbedContainer::mock(&mut tree, &vec![first, second]);

    assert!(tree.is_active_tab_descendant(first));
    assert!(!tree.is_active_tab_descendant(second));

    tree.set_focused_descendant(second, Some(second));
    assert_eq!(tree.active_child(tabbed), Some(second));

    assert!(!tree.is_active_tab_descendant(first));
    assert!(tree.is_active_tab_descendant(second));
}

#[test]
fn nested_tabs_require_every_ancestor_active() {
    let mut tree = ContainerTree::new();
    let a = window(&mut tree);
    let b = window(&mut tree);
    let inner = TabbedContainer::mock(&mut tree, &vec![a, b]);
    let c = window(&mut tree);
    let outer = TabbedContainer::mock(&mut tree, &vec![inner, c]);
    let ws = workspace(&mut tree, vec![outer]);
    let _monitor = glaze_layout::mocks::Monitor::mock(&mut tree, String::new(), glaze_layout::mocks::MOCK_SCALE_FACTOR, &vec![ws]);

    assert!(tree.is_active_tab_descendant(a));
    assert!(!tree.is_active_tab_descendant(b));
    assert!(!tree.is_active_tab_descendant(c));

    tree.set_focused_descendant(c, Some(c));
    assert!(!tree.is_active_tab_descendant(a));
    assert!(!tree.is_active_tab_descendant(b));
    assert!(tree.is_active_tab_descendant(c));
}

#[test]
fn detaching_returns_the_size_up_to_rounding() {
    let mut tree = ContainerTree::new();
    let a = TilingWindow::mock(&mut tree, SIZE_ONE);
    let b = TilingWindow::mock(&mut tree, SIZE_ONE);
    let c = TilingWindow::mock(&mut tree, SIZE_ONE);
    let _ws = workspace(&mut tree, vec![a, b, c]);
    tree.set_tiling_size(a, 333_333_333);
    tree.set_tiling_size(b, 333_333_333);
    tree.set_tiling_size(c, 333_333_334);
    tree.detach_container(a).unwrap();
    let total = tree.tiling_size(b) + tree.tiling_size(c);
    assert!(total <= SIZE_ONE && total > SIZE_ONE - 2);
}

#[test]
fn a_requested_length_becomes_a_share_of_the_room_left() {
    assert_eq!(tiling_size_for_length(&LengthValue::from_px(495), 1000, 10, 1, 0), Some(SIZE_ONE / 2));
    assert_eq!(tiling_size_for_length(&LengthValue::from_percent_hundredths(5000), 1000, 10, 1, 0), Some(SIZE_ONE / 2));
    assert_eq!(tiling_size_for_length(&LengthValue::from_px(485), 1000, 10, 1, 10), Some(SIZE_ONE / 2));
    assert_eq!(tiling_size_for_length(&LengthValue::from_px(100), 10, 10, 1, 0), None);
}

#[test]
fn setting_a_tiling_length_resizes_the_container() {
    let mut tree = ContainerTree::new();
    let a = window(&mut tree);
    let b = window(&mut tree);
    let ws = workspace(&mut tree, vec![a, b]);
    let mut sync = PendingSync::new();
    tree.set_tiling_length(ws, a, &LengthValue::from_px(250), 1010, 10, 0, &mut sync);
    assert_eq!(tree.tiling_size(a), SIZE_ONE / 4);
    assert_eq!(tree.tiling_size(b), SIZE_ONE / 4 * 3);
    assert_eq!(sync.containers_to_redraw, vec![a, b]);
}

fn wrap_then_flatten(sizes: &[u64]) -> (ContainerTree, usize, Vec<usize>) {
    let mut tree = ContainerTree::new();
    let children: Vec<usize> = sizes.iter().map(|_| window(&mut tree)).collect();
    let ws = workspace(&mut tree, children.clone());
    for (c, s) in children.iter().zip(sizes) {
        tree.set_tiling_size(*c, *s);
    }
    let tabbed = new_tabbed(&mut tree);
    tree.wrap_in_tabbed_container(tabbed, ws, &children).unwrap();
    tree.flatten_tabbed_container(tabbed).unwrap();
    assert!(tree.is_detached(tabbed));
    (tree, ws, children)
}

#[test]
fn flattening_a_wrap_restores_sizes_up_to_rounding() {
    let (tree, ws, children) = wrap_then_flatten(&[SIZE_ONE / 5, SIZE_ONE / 10 * 3, SIZE_ONE / 10 * 4]);
    assert_eq!(tree.nodes[ws].children, children);
    let got: Vec<u64> = children.iter().map(|c| tree.tiling_size(*c)).collect();
    assert_eq!(got, vec![SIZE_ONE / 5, SIZE_ONE / 10 * 3, SIZE_ONE / 10 * 4]);

    let sizes = [1u64, 2, 4];
    let total: u64 = sizes.iter().sum();
    let (tree, ws, children) = wrap_then_flatten(&sizes);
    assert_eq!(tree.nodes[ws].children, children);
    let got: Vec<u64> = children.iter().map(|c| tree.tiling_size(*c)).collect();
    assert_eq!(got, vec![0, 1, 4]);
    for (r, s) in got.iter().zip(sizes.iter()) {
        let (r, s, n) = (*r as u128, *s as u128, children.len() as u128);
        let one = SIZE_ONE as u128;
        assert!(r * one + one + total as u128 > s * one);
        assert!(r * (one - n) <= s * one);
    }
}

#[test]
fn setting_a_tiling_window_width_resizes_its_frame() {
    let mut tree = ContainerTree::new();
    let a = window(&mut tree);
    let b = window(&mut tree);
    let ws = workspace(&mut tree, vec![a, b]);
    let mut sync = PendingSync::new();
    let frame = ResizeFrame { parent: ws, container: a, parent_length: 1010, gap: 10 };
    tree.set_window_size(a, Some(LengthValue::from_px(250)), None, Some(frame), None, &mut sync).unwrap();
    assert_eq!(tree.tiling_size(a), SIZE_ONE / 4);
    assert_eq!(tree.tiling_size(b), SIZE_ONE / 4 * 3);
    assert_eq!(sync.containers_to_redraw, vec![a, b]);

    // A height frame whose container does not hold the window is refused,
    // after the width was set.
    let frame_b = ResizeFrame { parent: ws, container: b, parent_length: 1010, gap: 10 };
    let r = tree.set_window_size(a, Some(LengthValue::from_px(500)), Some(LengthValue::from_px(300)), Some(frame), Some(frame_b), &mut sync);
    assert!(r.is_err());
    assert_eq!(tree.tiling_size(a), SIZE_ONE / 2);
}
