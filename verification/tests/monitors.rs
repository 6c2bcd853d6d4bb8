use glaze_layout::attach::TreeError;
use glaze_layout::config::{GapsConfig, SideArea, SideAreasConfig, WorkspaceConfig};
use glaze_layout::matching::{MatchType, MonitorMatchConfig};
use glaze_layout::geometry::{LengthValue, Rect};
use glaze_layout::mocks::{
    assert_tree_links_and_focus_order, mock_bounds, mock_working_area, Monitor, SplitContainer, TilingWindow, Workspace,
    MOCK_DPI, MOCK_SCALE_FACTOR,
};
use glaze_layout::monitor_ops::{add_monitor, has_dpi_difference, move_workspace_to_monitor, remove_monitor, update_monitor};
use glaze_layout::sync::PendingSync;
use glaze_layout::tree::{ContainerKind, ContainerTree, MonitorInfo, TilingDirection, SIZE_ONE};

fn window(tree: &mut ContainerTree) -> usize {
    TilingWindow::mock(tree, SIZE_ONE)
}

fn side_area(tree: &mut ContainerTree, side: SideArea, children: &Vec<usize>) -> usize {
    Workspace::mock_side_area(tree, side, LengthValue::from_px(300), true, GapsConfig::default(), children)
}

fn placement(tree: &ContainerTree, w: usize) -> Rect {
    match &tree.nodes[w].kind {
        ContainerKind::TilingWindow(info) => info.floating_placement,
        ContainerKind::NonTilingWindow(info) => info.floating_placement,
        _ => panic!("not a window"),
    }
}

fn pending_dpi(tree: &ContainerTree, w: usize) -> bool {
    match &tree.nodes[w].kind {
        ContainerKind::TilingWindow(info) => info.has_pending_dpi_adjustment,
        ContainerKind::NonTilingWindow(info) => info.has_pending_dpi_adjustment,
        _ => panic!("not a window"),
    }
}

/// A side area holding a leaf window and a nested split, in either order,
/// with focus orders that differ from the layout orders.
fn mixed_side_area(tree: &mut ContainerTree, side: SideArea, split_first: bool) -> (usize, usize, Vec<usize>) {
    let leaf = window(tree);
    let nested_first = window(tree);
    let nested_second = window(tree);
    let split = SplitContainer::mock(tree, TilingDirection::Horizontal, &vec![nested_first, nested_second]);
    tree.set_focused_descendant(nested_second, Some(nested_second));
    let children = if split_first { vec![split, leaf] } else { vec![leaf, split] };
    let area = side_area(tree, side, &children);
    tree.set_focused_descendant(children[1], Some(children[1]));
    (area, split, vec![leaf, nested_first, nested_second])
}

#[test]
fn removal_evacuates_mixed_side_area_children_in_both_orders() {
    for split_first in [false, true] {
        let mut tree = ContainerTree::new();
        let root = tree.add_node(ContainerKind::Root, TilingDirection::Horizontal);
        let (source_area, split, windows) = mixed_side_area(&mut tree, SideArea::Left, split_first);
        let source_workspace = Workspace::mock(&mut tree, "1".to_string(), TilingDirection::Horizontal, &vec![]);
        let source_monitor =
            Monitor::mock(&mut tree, "SOURCE".to_string(), MOCK_SCALE_FACTOR, &vec![source_area, source_workspace]);
        let target_workspace = Workspace::mock(&mut tree, "2".to_string(), TilingDirection::Horizontal, &vec![]);
        let target_area = if !split_first { Some(side_area(&mut tree, SideArea::Left, &vec![])) } else { None };
        let mut target_workspaces = vec![target_workspace];
        if let Some(area) = target_area {
            target_workspaces.insert(0, area);
        }
        let target_monitor =
            Monitor::mock(&mut tree, "TARGET".to_string(), MOCK_SCALE_FACTOR * 3 / 2, &target_workspaces);
        tree.attach_container(source_monitor, root, None).unwrap();
        tree.attach_container(target_monitor, root, None).unwrap();
        let expected_workspace = target_area.unwrap_or(target_workspace);
        let target_rect = tree.workspace_rect(expected_workspace).unwrap();
        let expected_placements: Vec<Rect> =
            windows.iter().map(|&w| placement(&tree, w).translate_to_center(&target_rect)).collect();

        remove_monitor(&mut tree, source_monitor, &vec![]).unwrap();

        assert!(tree.is_detached(source_monitor));
        assert!(tree.nodes[root].children.iter().all(|&m| m != source_monitor));
        let remaining = tree.self_and_descendants(root);
        assert!(remaining.iter().all(|&c| c != source_area && c != source_monitor));
        assert!(tree.is_detached(source_area));
        assert!(tree.nodes[source_area].children.is_empty());
        assert!(tree.nodes[source_area].focus_order.is_empty());
        if tree.is_detached(split) {
            assert!(tree.nodes[split].children.is_empty());
        } else {
            assert_eq!(tree.workspace(split), Some(expected_workspace));
        }
        for (w, expected) in windows.iter().zip(expected_placements) {
            assert_eq!(tree.workspace(*w), Some(expected_workspace));
            assert!(pending_dpi(&tree, *w));
            assert_eq!(placement(&tree, *w), expected);
        }
        assert!(assert_tree_links_and_focus_order(&tree, root));
        assert!(assert_tree_links_and_focus_order(&tree, source_monitor));
    }
}

#[test]
fn removing_the_only_monitor_fails() {
    let mut tree = ContainerTree::new();
    let root = tree.add_node(ContainerKind::Root, TilingDirection::Horizontal);
    let ws = Workspace::mock(&mut tree, "1".to_string(), TilingDirection::Horizontal, &vec![]);
    let monitor = Monitor::mock(&mut tree, "ONLY".to_string(), MOCK_SCALE_FACTOR, &vec![ws]);
    tree.attach_container(monitor, root, None).unwrap();

    assert_eq!(remove_monitor(&mut tree, monitor, &vec![]), Err(TreeError::NoTargetMonitor));
    assert!(!tree.is_detached(monitor));
}

#[test]
fn removal_moves_workspaces_with_windows_and_sorts_them() {
    let mut tree = ContainerTree::new();
    let root = tree.add_node(ContainerKind::Root, TilingDirection::Horizontal);
    let w = window(&mut tree);
    let busy = Workspace::mock(&mut tree, "1".to_string(), TilingDirection::Horizontal, &vec![w]);
    let empty = Workspace::mock(&mut tree, "3".to_string(), TilingDirection::Horizontal, &vec![]);
    let source = Monitor::mock(&mut tree, "SOURCE".to_string(), MOCK_SCALE_FACTOR, &vec![busy, empty]);
    let other = Workspace::mock(&mut tree, "2".to_string(), TilingDirection::Horizontal, &vec![]);
    let target = Monitor::mock(&mut tree, "TARGET".to_string(), MOCK_SCALE_FACTOR, &vec![other]);
    tree.attach_container(source, root, None).unwrap();
    tree.attach_container(target, root, None).unwrap();
    let cfg: Vec<WorkspaceConfig> = ["1", "2", "3"]
        .iter()
        .map(|n| WorkspaceConfig { name: n.to_string(), display_name: None, bind_to_monitor: None, keep_alive: false })
        .collect();

    remove_monitor(&mut tree, source, &cfg).unwrap();

    assert_eq!(tree.nodes[target].children, vec![busy, other]);
    assert_eq!(tree.parent(empty), Some(source));
}

#[test]
fn dpi_difference_compares_the_other_containers_monitor() {
    let mut tree = ContainerTree::new();
    let root = tree.add_node(ContainerKind::Root, TilingDirection::Horizontal);
    let w = window(&mut tree);
    let ws = Workspace::mock(&mut tree, "1".to_string(), TilingDirection::Horizontal, &vec![w]);
    let a = Monitor::mock(&mut tree, "A".to_string(), MOCK_SCALE_FACTOR, &vec![ws]);
    let b = Monitor::mock(&mut tree, "B".to_string(), MOCK_SCALE_FACTOR, &vec![]);
    tree.attach_container(a, root, None).unwrap();
    tree.attach_container(b, root, None).unwrap();
    let loose = window(&mut tree);

    assert_eq!(has_dpi_difference(&tree, b, w), Ok(false));
    assert_eq!(has_dpi_difference(&tree, b, loose), Err(TreeError::NoMonitor));
}

fn workspace_configs(names: &[&str]) -> Vec<WorkspaceConfig> {
    names
        .iter()
        .map(|n| WorkspaceConfig { name: n.to_string(), display_name: None, bind_to_monitor: None, keep_alive: false })
        .collect()
}

fn monitor_info(name: &str) -> MonitorInfo {
    MonitorInfo {
        device_name: name.to_string(),
        hardware_id: None,
        bounds: mock_bounds(),
        working_area: mock_working_area(),
        dpi: MOCK_DPI,
        scale_factor: MOCK_SCALE_FACTOR,
    }
}

#[test]
fn added_monitor_gets_the_configured_side_areas() {
    let mut tree = ContainerTree::new();
    let root = tree.add_node(ContainerKind::Root, TilingDirection::Horizontal);
    let config = SideAreasConfig { left: LengthValue::from_px(240), ..SideAreasConfig::default() };

    let m = add_monitor(&mut tree, root, monitor_info("NEW"), &config, GapsConfig::default()).unwrap();

    assert_eq!(tree.parent(m), Some(root));
    let left = tree.side_area(m, SideArea::Left).unwrap();
    assert_eq!(tree.nodes[m].children, vec![left]);
    assert_eq!(tree.side_area(m, SideArea::Right), None);

    update_monitor(&mut tree, m, monitor_info("RENAMED"), &SideAreasConfig::default(), GapsConfig::default()).unwrap();
    assert_eq!(tree.side_area(m, SideArea::Left), None);
    assert!(tree.nodes[m].children.is_empty());
}

#[test]
fn moving_a_workspace_sorts_the_target_and_reports_an_empty_origin() {
    let mut tree = ContainerTree::new();
    let root = tree.add_node(ContainerKind::Root, TilingDirection::Horizontal);
    let w = window(&mut tree);
    let moving = Workspace::mock(&mut tree, "1".to_string(), TilingDirection::Horizontal, &vec![w]);
    let origin = Monitor::mock(&mut tree, "A".to_string(), MOCK_SCALE_FACTOR, &vec![moving]);
    let staying = Workspace::mock(&mut tree, "2".to_string(), TilingDirection::Horizontal, &vec![]);
    let target = Monitor::mock(&mut tree, "B".to_string(), MOCK_SCALE_FACTOR, &vec![staying]);
    tree.attach_container(origin, root, None).unwrap();
    tree.attach_container(target, root, None).unwrap();
    let mut sync = PendingSync::new();
    let before = placement(&tree, w);

    let r = move_workspace_to_monitor(&mut tree, moving, target, &workspace_configs(&["1", "2"]), &mut sync).unwrap();

    assert_eq!(r, Some(origin));
    assert_eq!(tree.nodes[target].children, vec![moving, staying]);
    assert_eq!(sync.containers_to_redraw, vec![moving, staying]);
    assert!(pending_dpi(&tree, w));
    assert_eq!(placement(&tree, w), before.translate_to_center(&tree.workspace_rect(moving).unwrap()));
}

#[test]
fn sorting_puts_workspaces_in_config_order_after_the_left_area() {
    let mut tree = ContainerTree::new();
    let c = Workspace::mock(&mut tree, "c".to_string(), TilingDirection::Horizontal, &vec![]);
    let a = Workspace::mock(&mut tree, "a".to_string(), TilingDirection::Horizontal, &vec![]);
    let left = side_area(&mut tree, SideArea::Left, &vec![]);
    let b = Workspace::mock(&mut tree, "b".to_string(), TilingDirection::Horizontal, &vec![]);
    let m = Monitor::mock(&mut tree, "M".to_string(), MOCK_SCALE_FACTOR, &vec![left, c, a, b]);

    tree.sort_workspaces(m, &workspace_configs(&["a", "b", "c"]));

    assert_eq!(tree.nodes[m].children, vec![left, a, b, c]);
}

fn monitor_with(device: &str, hardware: Option<&str>) -> MonitorInfo {
    MonitorInfo { hardware_id: hardware.map(|h| h.to_string()), ..monitor_info(device) }
}

fn focused_container(tree: &ContainerTree, root: usize) -> usize {
    let mut c = root;
    while let Some(&next) = tree.nodes[c].focus_order.first() {
        c = next;
    }
    c
}

#[test]
fn device_name_change_reconciles_side_areas() {
    let mut tree = ContainerTree::new();
    let root = tree.add_node(ContainerKind::Root, TilingDirection::Horizontal);
    let ws = Workspace::mock(&mut tree, "1".to_string(), TilingDirection::Horizontal, &vec![]);
    let monitor = Monitor::mock(&mut tree, "DISPLAY2".to_string(), MOCK_SCALE_FACTOR, &vec![ws]);
    tree.attach_container(monitor, root, None).unwrap();
    let config = SideAreasConfig {
        left: LengthValue::from_px(300),
        match_monitor: Some(vec![MonitorMatchConfig {
            device_name: Some(MatchType::Equals { equals: "DISPLAY1".to_string() }),
            hardware_id: None,
        }]),
        ..SideAreasConfig::default()
    };

    update_monitor(&mut tree, monitor, monitor_with("DISPLAY1", None), &config, GapsConfig::default()).unwrap();
    assert!(tree.side_area(monitor, SideArea::Left).is_some());

    update_monitor(&mut tree, monitor, monitor_with("DISPLAY2", None), &config, GapsConfig::default()).unwrap();
    assert!(tree.side_area(monitor, SideArea::Left).is_none());
}

#[test]
fn hardware_id_selection_survives_device_name_changes_and_reconciles() {
    let mut tree = ContainerTree::new();
    let root = tree.add_node(ContainerKind::Root, TilingDirection::Horizontal);
    let left_window = window(&mut tree);
    let right_window = window(&mut tree);
    let left_area = side_area(&mut tree, SideArea::Left, &vec![left_window]);
    let right_area = side_area(&mut tree, SideArea::Right, &vec![right_window]);
    let selected_workspace = Workspace::mock(&mut tree, "1".to_string(), TilingDirection::Horizontal, &vec![]);
    let selected_monitor = Monitor::mock(
        &mut tree,
        r"\\.\DISPLAY1".to_string(),
        MOCK_SCALE_FACTOR,
        &vec![left_area, selected_workspace, right_area],
    );
    tree.set_kind(selected_monitor, ContainerKind::Monitor(monitor_with(r"\\.\DISPLAY1", Some("DEL439E"))));
    let other_workspace = Workspace::mock(&mut tree, "2".to_string(), TilingDirection::Horizontal, &vec![]);
    let other_monitor = Monitor::mock(&mut tree, r"\\.\DISPLAY2".to_string(), MOCK_SCALE_FACTOR, &vec![other_workspace]);
    tree.attach_container(selected_monitor, root, None).unwrap();
    tree.attach_container(other_monitor, root, None).unwrap();
    tree.set_focused_descendant(left_window, None);
    let initial_area_ids = [left_area, right_area];
    let config = SideAreasConfig {
        left: LengthValue::from_px(300),
        right: LengthValue::from_px(300),
        match_monitor: Some(vec![MonitorMatchConfig {
            device_name: None,
            hardware_id: Some(MatchType::Equals { equals: "DEL439E".to_string() }),
        }]),
        ..SideAreasConfig::default()
    };
    let update = |tree: &mut ContainerTree, m: usize, device: &str, hardware: &str| {
        update_monitor(tree, m, monitor_with(device, Some(hardware)), &config, GapsConfig::default()).unwrap();
    };

    update(&mut tree, selected_monitor, r"\\.\DISPLAY2", "DEL439E");
    update(&mut tree, other_monitor, r"\\.\DISPLAY1", "ACR1234");

    assert_eq!(tree.side_area(selected_monitor, SideArea::Left), Some(initial_area_ids[0]));
    assert_eq!(tree.side_area(selected_monitor, SideArea::Right), Some(initial_area_ids[1]));
    assert!(!tree.has_side_areas(other_monitor));

    update(&mut tree, selected_monitor, r"\\.\DISPLAY2", "SAM0001");

    assert!(!tree.has_side_areas(selected_monitor));
    let reachable = tree.self_and_descendants(root);
    assert!(initial_area_ids.iter().all(|id| !reachable.contains(id)));
    for w in [left_window, right_window] {
        assert_eq!(tree.workspace(w), Some(selected_workspace));
    }
    assert_eq!(focused_container(&tree, root), left_window);
    assert!(assert_tree_links_and_focus_order(&tree, root));

    update(&mut tree, selected_monitor, r"\\.\DISPLAY2", "DEL439E");

    assert!(tree.side_area(selected_monitor, SideArea::Left).is_some());
    assert!(tree.side_area(selected_monitor, SideArea::Right).is_some());
    let reachable = tree.self_and_descendants(root);
    assert!(initial_area_ids.iter().all(|id| !reachable.contains(id)));
    assert!(assert_tree_links_and_focus_order(&tree, root));
}
