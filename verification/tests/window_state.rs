use glaze_layout::attach::TreeError;
use glaze_layout::config::{FloatingStateConfig, FullscreenStateConfig};
use glaze_layout::mocks::{Monitor, NonTilingWindow, SplitContainer, TabbedContainer, TilingWindow, Workspace, MOCK_SCALE_FACTOR};
use glaze_layout::sync::PendingSync;
use glaze_layout::tree::{ContainerKind, ContainerTree, TilingDirection, WindowState, SIZE_ONE};
use glaze_layout::window_state::StateUpdate;

fn window(tree: &mut ContainerTree) -> usize {
    TilingWindow::mock(tree, SIZE_ONE)
}

fn shown_workspace(tree: &mut ContainerTree, tiling: Vec<usize>) -> usize {
    let ws = Workspace::mock(tree, "1".to_string(), TilingDirection::Horizontal, &tiling);
    let _monitor = Monitor::mock(tree, String::new(), MOCK_SCALE_FACTOR, &vec![ws]);
    ws
}

fn floating() -> WindowState {
    WindowState::Floating(FloatingStateConfig::default())
}

fn state_of(tree: &ContainerTree, w: usize) -> WindowState {
    match &tree.nodes[w].kind {
        ContainerKind::NonTilingWindow(info) => info.state,
        ContainerKind::TilingWindow(info) => info.state,
        _ => panic!("not a window"),
    }
}

fn prev_state_of(tree: &ContainerTree, w: usize) -> Option<WindowState> {
    match &tree.nodes[w].kind {
        ContainerKind::NonTilingWindow(info) => info.prev_state,
        ContainerKind::TilingWindow(info) => info.prev_state,
        _ => panic!("not a window"),
    }
}

#[test]
fn returning_to_tiling_restores_tab_and_logical_size() {
    let mut tree = ContainerTree::new();
    let first = window(&mut tree);
    let second = window(&mut tree);
    let ws = Workspace::mock(&mut tree, "1".to_string(), TilingDirection::Horizontal, &vec![first, second]);
    let tabbed = tree.add_node(ContainerKind::Tabbed, TilingDirection::Horizontal);
    tree.wrap_in_tabbed_container(tabbed, ws, &vec![first, second]).unwrap();
    tree.set_tiling_size(first, SIZE_ONE / 4);
    tree.set_tiling_size(second, SIZE_ONE / 4 * 3);
    let _monitor = Monitor::mock(&mut tree, String::new(), MOCK_SCALE_FACTOR, &vec![ws]);
    let mut sync = PendingSync::new();

    let r = tree.update_window_state(first, floating(), &mut sync).unwrap();
    assert_eq!(r, StateUpdate::Updated);
    assert_eq!(tree.child_count(tabbed), 1);
    assert_eq!(tree.nodes[tabbed].children[0], second);

    let r = tree.update_window_state(first, WindowState::Tiling, &mut sync).unwrap();
    assert_eq!(r, StateUpdate::Updated);

    assert_eq!(tree.nodes[tabbed].children, vec![first, second]);
    assert!(tree.tiling(first));
    assert_eq!(tree.tiling_size(first), SIZE_ONE / 4);
    assert_eq!(tree.tiling_size(second), SIZE_ONE / 4 * 3);
}

#[test]
fn new_tiling_tab_is_inserted_after_focused_tab() {
    let mut tree = ContainerTree::new();
    let first = window(&mut tree);
    let second = window(&mut tree);
    let tabbed = TabbedContainer::mock(&mut tree, &vec![first, second]);
    let float = NonTilingWindow::mock(&mut tree);
    let ws = Workspace::mock(&mut tree, "1".to_string(), TilingDirection::Horizontal, &vec![tabbed, float]);
    let _monitor = Monitor::mock(&mut tree, String::new(), MOCK_SCALE_FACTOR, &vec![ws]);
    let mut sync = PendingSync::new();

    tree.update_window_state(float, WindowState::Tiling, &mut sync).unwrap();

    assert_eq!(tree.nodes[tabbed].children, vec![first, float, second]);
}

#[test]
fn floating_a_window_from_nested_layouts_removes_emptied_ones() {
    let mut tree = ContainerTree::new();
    let w = window(&mut tree);
    let tabbed = TabbedContainer::mock(&mut tree, &vec![w]);
    let split = SplitContainer::mock(&mut tree, TilingDirection::Vertical, &vec![tabbed]);
    let sibling = window(&mut tree);
    let ws = shown_workspace(&mut tree, vec![split, sibling]);
    tree.set_tiling_size(split, SIZE_ONE / 4);
    tree.set_tiling_size(sibling, SIZE_ONE / 4 * 3);
    let mut sync = PendingSync::new();

    tree.update_window_state(w, floating(), &mut sync).unwrap();

    assert!(tree.is_detached(tabbed));
    assert!(tree.is_detached(split));
    assert_eq!(tree.tiling_size(sibling), SIZE_ONE);
    assert_eq!(tree.parent(w), Some(ws));
    assert_eq!(tree.nodes[ws].children, vec![sibling, w]);
    assert_eq!(prev_state_of(&tree, w), Some(WindowState::Tiling));
    assert_eq!(sync.workspaces_to_reorder, vec![ws]);
    assert_eq!(sync.containers_to_redraw, vec![w, sibling]);
}

#[test]
fn returning_to_tiling_rebuilds_emptied_layouts() {
    let mut tree = ContainerTree::new();
    let w = window(&mut tree);
    let tabbed = TabbedContainer::mock(&mut tree, &vec![w]);
    let split = SplitContainer::mock(&mut tree, TilingDirection::Vertical, &vec![tabbed]);
    let sibling = window(&mut tree);
    let ws = shown_workspace(&mut tree, vec![split, sibling]);
    tree.set_tiling_size(split, SIZE_ONE / 4);
    tree.set_tiling_size(sibling, SIZE_ONE / 4 * 3);
    let mut sync = PendingSync::new();

    tree.update_window_state(w, floating(), &mut sync).unwrap();
    tree.update_window_state(w, WindowState::Tiling, &mut sync).unwrap();

    assert_eq!(tree.nodes[tabbed].children, vec![w]);
    assert_eq!(tree.workspace(w), Some(ws));
    assert_eq!(tree.tiling_size(sibling), SIZE_ONE / 4 * 3);
    assert_eq!(tree.tiling_size(w), SIZE_ONE);
}

#[test]
fn minimizing_a_window_not_minimized_natively_leaves_it() {
    let mut tree = ContainerTree::new();
    let w = window(&mut tree);
    let _ws = shown_workspace(&mut tree, vec![w]);
    let mut sync = PendingSync::new();

    let r = tree.update_window_state(w, WindowState::Minimized, &mut sync).unwrap();

    assert_eq!(r, StateUpdate::MinimizeNatively);
    assert!(tree.tiling(w));
    assert!(sync.containers_to_redraw.is_empty());
}

#[test]
fn same_state_is_left_unchanged() {
    let mut tree = ContainerTree::new();
    let w = window(&mut tree);
    let _ws = shown_workspace(&mut tree, vec![w]);
    let mut sync = PendingSync::new();

    let r = tree.update_window_state(w, WindowState::Tiling, &mut sync).unwrap();

    assert_eq!(r, StateUpdate::Unchanged);
    assert!(sync.containers_to_redraw.is_empty());
}

#[test]
fn floating_window_becomes_fullscreen_remembering_floating() {
    let mut tree = ContainerTree::new();
    let float = NonTilingWindow::mock(&mut tree);
    let ws = shown_workspace(&mut tree, vec![float]);
    let mut sync = PendingSync::new();
    let full = WindowState::Fullscreen(FullscreenStateConfig { maximized: true, shown_on_top: false });

    tree.update_window_state(float, full, &mut sync).unwrap();

    assert_eq!(state_of(&tree, float), full);
    assert_eq!(prev_state_of(&tree, float), Some(floating()));
    assert_eq!(sync.workspaces_to_reorder, vec![ws]);
    assert_eq!(sync.containers_to_redraw, vec![float]);
}

#[test]
fn tiling_a_window_without_workspace_fails() {
    let mut tree = ContainerTree::new();
    let float = NonTilingWindow::mock(&mut tree);
    let mut sync = PendingSync::new();

    let r = tree.update_window_state(float, WindowState::Tiling, &mut sync);

    assert_eq!(r, Err(TreeError::NoWorkspace));
}

#[test]
fn new_tiling_window_without_tiling_windows_goes_to_the_end() {
    let mut tree = ContainerTree::new();
    let float = NonTilingWindow::mock(&mut tree);
    let other = NonTilingWindow::mock(&mut tree);
    let ws = shown_workspace(&mut tree, vec![float, other]);
    let mut sync = PendingSync::new();

    tree.update_window_state(float, WindowState::Tiling, &mut sync).unwrap();

    assert_eq!(tree.nodes[ws].children, vec![other, float]);
    assert_eq!(tree.tiling_size(float), SIZE_ONE);
    assert_eq!(prev_state_of(&tree, float), Some(floating()));
}

#[test]
fn returning_to_tiling_keeps_window_in_side_area() {
    let mut tree = ContainerTree::new();
    let root = tree.add_node(ContainerKind::Root, TilingDirection::Horizontal);
    let w = window(&mut tree);
    let regular = Workspace::mock(&mut tree, "1".to_string(), TilingDirection::Horizontal, &vec![w]);
    let area = Workspace::mock_side_area(
        &mut tree,
        glaze_layout::config::SideArea::Left,
        glaze_layout::geometry::LengthValue::from_px(300),
        true,
        glaze_layout::config::GapsConfig::default(),
        &vec![],
    );
    let monitor = Monitor::mock(&mut tree, String::new(), MOCK_SCALE_FACTOR, &vec![regular, area]);
    tree.attach_container(monitor, root, None).unwrap();
    let mut sync = PendingSync::new();

    tree.update_window_state(w, floating(), &mut sync).unwrap();
    glaze_layout::moves::move_window_to_side_area(
        &mut tree,
        w,
        glaze_layout::config::SideArea::Left,
        &glaze_layout::config::SideAreasConfig::default(),
        &mut sync,
    )
    .unwrap();
    tree.update_window_state(w, WindowState::Tiling, &mut sync).unwrap();

    assert_eq!(tree.workspace(w), Some(area));
}

#[test]
fn returning_to_tiling_rebuilds_tab_through_empty_layout_ancestors() {
    let mut tree = ContainerTree::new();
    let w = window(&mut tree);
    let tabbed = TabbedContainer::mock(&mut tree, &vec![w]);
    let split = SplitContainer::mock(&mut tree, TilingDirection::Vertical, &vec![tabbed]);
    let sibling = window(&mut tree);
    let ws = Workspace::mock(&mut tree, "1".to_string(), TilingDirection::Horizontal, &vec![split, sibling]);
    tree.set_tiling_size(split, SIZE_ONE / 4);
    tree.set_tiling_size(sibling, SIZE_ONE / 4 * 3);
    let _monitor = Monitor::mock(&mut tree, String::new(), MOCK_SCALE_FACTOR, &vec![ws]);
    let mut sync = PendingSync::new();

    tree.update_window_state(w, floating(), &mut sync).unwrap();
    assert!(tree.is_detached(tabbed));
    assert!(tree.is_detached(split));
    assert_eq!(tree.tiling_size(sibling), SIZE_ONE);

    tree.update_window_state(w, WindowState::Tiling, &mut sync).unwrap();

    assert!(tree.is_detached(split));
    assert_eq!(tree.tiling_children(ws), vec![tabbed, sibling]);
    assert_eq!(tree.tiling_children(tabbed)[0], w);
    assert!(tree.tiling_size(tabbed).abs_diff(SIZE_ONE / 4) < SIZE_ONE / 100_000);
    assert!(tree.tiling_size(sibling).abs_diff(SIZE_ONE / 4 * 3) < SIZE_ONE / 100_000);
}
