use glaze_layout::areas::{content_rect, TAB_BAR_HEIGHT};
use glaze_layout::attach::TreeError;
use glaze_layout::config::{GapsConfig, SideArea, SideAreasConfig};
use glaze_layout::geometry::{LengthValue, Rect, RectDelta};
use glaze_layout::mocks::{
    mock_working_area, Monitor, NonTilingWindow, TabbedContainer, TilingWindow, Workspace, MOCK_MONITOR_WIDTH,
    MOCK_SCALE_FACTOR,
};
use glaze_layout::moves::{move_window_to_side_area, side_area_missing_message};
use glaze_layout::side_areas::ensure_side_areas;
use glaze_layout::sync::PendingSync;
use glaze_layout::tree::{ContainerTree, TilingDirection, SIZE_ONE};

fn side_area(tree: &mut ContainerTree, side: SideArea, px: i32) -> usize {
    Workspace::mock_side_area(tree, side, LengthValue::from_px(px), true, GapsConfig::default(), &vec![])
}

fn monitor_with_regions(tree: &mut ContainerTree, left: i32, right: i32) -> (usize, usize) {
    let left_area = side_area(tree, SideArea::Left, left);
    let ws = Workspace::mock(tree, "1".to_string(), TilingDirection::Horizontal, &vec![]);
    let right_area = side_area(tree, SideArea::Right, right);
    let monitor = Monitor::mock(tree, String::new(), MOCK_SCALE_FACTOR, &vec![left_area, ws, right_area]);
    (monitor, ws)
}

fn px_gap(left: i32, top: i32, right: i32, bottom: i32) -> RectDelta {
    RectDelta::new(
        LengthValue::from_px(left),
        LengthValue::from_px(top),
        LengthValue::from_px(right),
        LengthValue::from_px(bottom),
    )
}

#[test]
fn persistent_regions_reduce_regular_workspace_bounds() {
    let mut tree = ContainerTree::new();
    let (_monitor, ws) = monitor_with_regions(&mut tree, 240, 360);
    let rect = tree.workspace_rect(ws).unwrap();
    let working_area = mock_working_area();

    assert_eq!(rect.left, working_area.left + 240);
    assert_eq!(rect.right, working_area.right - 360);
}

#[test]
fn outer_gaps_are_measured_from_the_side_area_edges() {
    let mut tree = ContainerTree::new();
    let left_area = side_area(&mut tree, SideArea::Left, 240);
    let gaps = GapsConfig { outer_gap: px_gap(10, 0, 20, 0), ..GapsConfig::default() };
    let ws = Workspace::mock(&mut tree, "1".to_string(), TilingDirection::Horizontal, &vec![]);
    let right_area = side_area(&mut tree, SideArea::Right, 360);
    let _monitor = Monitor::mock(&mut tree, String::new(), MOCK_SCALE_FACTOR, &vec![left_area, ws, right_area]);
    let rect = tree.workspace_rect_with_gap_config(ws, &gaps.outer_gap).unwrap();
    let working_area = mock_working_area();

    assert_eq!(rect.left, working_area.left + 240 + 10);
    assert_eq!(rect.right, working_area.right - 360 - 20);
}

#[test]
fn side_areas_respect_outer_gaps() {
    let mut tree = ContainerTree::new();
    let gaps = GapsConfig { outer_gap: px_gap(10, 60, 20, 30), ..GapsConfig::default() };
    let left_area = Workspace::mock_side_area(&mut tree, SideArea::Left, LengthValue::from_px(240), true, gaps, &vec![]);
    let _monitor = Monitor::mock(&mut tree, String::new(), MOCK_SCALE_FACTOR, &vec![left_area]);

    let rect = tree.workspace_rect(left_area).unwrap();
    let working_area = mock_working_area();

    assert_eq!(rect.left, working_area.left + 10);
    assert_eq!(rect.top, working_area.top + 60);
    assert_eq!(rect.width(), 240);
    assert_eq!(rect.bottom, working_area.bottom - 30);
}

#[test]
fn oversized_regions_are_clamped_without_overlap() {
    let mut tree = ContainerTree::new();
    let (monitor, ws) = monitor_with_regions(&mut tree, MOCK_MONITOR_WIDTH, MOCK_MONITOR_WIDTH);
    let left = tree.side_area(monitor, SideArea::Left).unwrap();
    let right = tree.side_area(monitor, SideArea::Right).unwrap();

    assert_eq!(
        tree.workspace_rect(left).unwrap().width() + tree.workspace_rect(right).unwrap().width(),
        mock_working_area().width()
    );
    assert_eq!(tree.workspace_rect(ws).unwrap().width(), 0);
}

#[test]
fn pixel_width_can_scale_with_monitor_dpi() {
    let mut tree = ContainerTree::new();
    let left_area = side_area(&mut tree, SideArea::Left, 100);
    let _monitor = Monitor::mock(&mut tree, String::new(), MOCK_SCALE_FACTOR * 2, &vec![left_area]);

    assert_eq!(tree.workspace_rect(left_area).unwrap().width(), 200);
}

#[test]
fn side_area_stays_displayed_across_regular_workspace_switches() {
    let mut tree = ContainerTree::new();
    let area = side_area(&mut tree, SideArea::Left, 300);
    let first = Workspace::mock(&mut tree, "1".to_string(), TilingDirection::Horizontal, &vec![]);
    let second = Workspace::mock(&mut tree, "2".to_string(), TilingDirection::Horizontal, &vec![]);
    let monitor = Monitor::mock(&mut tree, String::new(), MOCK_SCALE_FACTOR, &vec![area, first, second]);

    tree.set_focused_descendant(first, None);
    assert_eq!(tree.displayed_workspace(monitor), Some(first));

    tree.set_focused_descendant(area, None);
    assert!(tree.is_displayed(area));
    assert_eq!(tree.displayed_workspace(monitor), Some(first));

    tree.set_focused_descendant(second, None);
    assert!(tree.is_displayed(area));
    assert_eq!(tree.displayed_workspace(monitor), Some(second));
}

#[test]
fn detached_side_area_is_not_displayed() {
    let mut tree = ContainerTree::new();
    let area = side_area(&mut tree, SideArea::Left, 300);
    assert!(!tree.is_displayed(area));

    let monitor = Monitor::mock(&mut tree, String::new(), MOCK_SCALE_FACTOR, &vec![]);
    tree.attach_container(area, monitor, None).unwrap();
    assert!(tree.is_displayed(area));

    tree.detach_container(area).unwrap();
    assert!(!tree.is_displayed(area));
}

#[test]
fn moves_window_without_switching_the_regular_workspace() {
    let mut tree = ContainerTree::new();
    let window = TilingWindow::mock(&mut tree, SIZE_ONE);
    let regular = Workspace::mock(&mut tree, "1".to_string(), TilingDirection::Horizontal, &vec![window]);
    let area = side_area(&mut tree, SideArea::Left, 300);
    let monitor = Monitor::mock(&mut tree, String::new(), MOCK_SCALE_FACTOR, &vec![regular, area]);
    tree.set_focused_descendant(window, None);
    let mut sync = PendingSync::new();

    move_window_to_side_area(&mut tree, window, SideArea::Left, &SideAreasConfig::default(), &mut sync).unwrap();

    assert_eq!(tree.workspace(window), Some(area));
    assert_eq!(tree.displayed_workspace(monitor), Some(regular));
    assert!(tree.has_focus(window));
    assert_eq!(tree.workspace_rect(area).unwrap().width(), 300);
}

#[test]
fn missing_side_area_error_explains_selector_or_width() {
    let mut tree = ContainerTree::new();
    let window = TilingWindow::mock(&mut tree, SIZE_ONE);
    let ws = Workspace::mock(&mut tree, "1".to_string(), TilingDirection::Horizontal, &vec![window]);
    let _monitor = Monitor::mock(&mut tree, "DISPLAY2".to_string(), MOCK_SCALE_FACTOR, &vec![ws]);
    let mut sync = PendingSync::new();

    let mut config = SideAreasConfig::default();
    config.match_monitor = Some(vec![glaze_layout::matching::MonitorMatchConfig::from_conditions(
        Some(glaze_layout::matching::MatchType::Equals { equals: "DISPLAY1".to_string() }),
        None,
    )
    .unwrap()]);
    let error = move_window_to_side_area(&mut tree, window, SideArea::Left, &config, &mut sync).unwrap_err();
    assert_eq!(error, TreeError::SideAreaNotMatched);
    let message = side_area_missing_message(&config, "DISPLAY2", None, SideArea::Left);
    assert!(message.contains("DISPLAY2"), "{message}");
    assert!(message.contains("side_areas.match"), "{message}");

    config.match_monitor = None;
    let error = move_window_to_side_area(&mut tree, window, SideArea::Left, &config, &mut sync).unwrap_err();
    assert_eq!(error, TreeError::SideAreaDisabled);
    let message = side_area_missing_message(&config, "DISPLAY2", None, SideArea::Left);
    assert!(message.contains("positive width"), "{message}");
    assert!(!message.contains("does not match"), "{message}");

    config.left = LengthValue::from_px(300);
    let error = move_window_to_side_area(&mut tree, window, SideArea::Left, &config, &mut sync).unwrap_err();
    assert_eq!(error, TreeError::SideAreaUnavailable);
}

#[test]
fn moving_a_floating_window_centres_it_in_the_side_area() {
    let mut tree = ContainerTree::new();
    let window = NonTilingWindow::mock(&mut tree);
    let regular = Workspace::mock(&mut tree, "1".to_string(), TilingDirection::Horizontal, &vec![window]);
    let area = side_area(&mut tree, SideArea::Left, 200);
    let _monitor = Monitor::mock(&mut tree, String::new(), MOCK_SCALE_FACTOR, &vec![regular, area]);
    let mut sync = PendingSync::new();

    move_window_to_side_area(&mut tree, window, SideArea::Left, &SideAreasConfig::default(), &mut sync).unwrap();

    let placement = match &tree.nodes[window].kind {
        glaze_layout::tree::ContainerKind::NonTilingWindow(info) => info.floating_placement,
        _ => panic!("not a non-tiling window"),
    };
    assert_eq!(placement, Rect { left: 0, top: 400, right: 200, bottom: 600 });
    assert_eq!(sync.containers_to_redraw, vec![window, regular]);
    assert_eq!(sync.workspaces_to_reorder, vec![area]);
}

#[test]
fn disabling_side_area_moves_contents_back_and_flattens_layout() {
    let mut tree = ContainerTree::new();
    let first = TilingWindow::mock(&mut tree, SIZE_ONE);
    let second = TilingWindow::mock(&mut tree, SIZE_ONE);
    let split = glaze_layout::mocks::SplitContainer::mock(&mut tree, TilingDirection::Horizontal, &vec![first, second]);
    let area = Workspace::mock_side_area(&mut tree, SideArea::Left, LengthValue::from_px(300), true, GapsConfig::default(), &vec![split]);
    let regular = Workspace::mock(&mut tree, "1".to_string(), TilingDirection::Horizontal, &vec![]);
    let monitor = Monitor::mock(&mut tree, String::new(), MOCK_SCALE_FACTOR, &vec![area, regular]);
    let mut config = SideAreasConfig::default();
    config.left = LengthValue::from_px(0);

    ensure_side_areas(&mut tree, monitor, &config, GapsConfig::default()).unwrap();

    assert!(tree.side_area(monitor, SideArea::Left).is_none());
    assert_eq!(tree.tiling_children(regular), vec![first, second]);
}

#[test]
fn disabling_side_area_preserves_non_tiling_windows() {
    let mut tree = ContainerTree::new();
    let window = NonTilingWindow::mock(&mut tree);
    let area = Workspace::mock_side_area(&mut tree, SideArea::Right, LengthValue::from_px(300), true, GapsConfig::default(), &vec![window]);
    let regular = Workspace::mock(&mut tree, "1".to_string(), TilingDirection::Horizontal, &vec![]);
    let monitor = Monitor::mock(&mut tree, String::new(), MOCK_SCALE_FACTOR, &vec![regular, area]);
    let mut config = SideAreasConfig::default();
    config.right = LengthValue::from_px(0);

    ensure_side_areas(&mut tree, monitor, &config, GapsConfig::default()).unwrap();

    assert_eq!(tree.workspace(window), Some(regular));
}

#[test]
fn enabling_side_areas_creates_them_at_the_monitor_edges() {
    let mut tree = ContainerTree::new();
    let ws = Workspace::mock(&mut tree, "1".to_string(), TilingDirection::Horizontal, &vec![]);
    let monitor = Monitor::mock(&mut tree, String::new(), MOCK_SCALE_FACTOR, &vec![ws]);
    let config = SideAreasConfig { left: LengthValue::from_px(240), right: LengthValue::from_px(360), ..SideAreasConfig::default() };

    ensure_side_areas(&mut tree, monitor, &config, GapsConfig::default()).unwrap();

    let left = tree.side_area(monitor, SideArea::Left).unwrap();
    let right = tree.side_area(monitor, SideArea::Right).unwrap();
    assert_eq!(tree.nodes[monitor].children, vec![left, ws, right]);
    assert_eq!(tree.workspace_rect(ws).unwrap().width(), 1680 - 600);
}

#[test]
fn side_area_widths_fit_the_available_width() {
    let mut tree = ContainerTree::new();
    let (monitor, _ws) = monitor_with_regions(&mut tree, 1000, 1000);
    let left = tree.resolved_side_area_width(monitor, SideArea::Left).unwrap();
    let right = tree.resolved_side_area_width(monitor, SideArea::Right).unwrap();
    assert_eq!(left, 840);
    assert_eq!(right, 840);
}

#[test]
fn tab_bar_scales_with_the_monitor() {
    let mut tree = ContainerTree::new();
    let w = TilingWindow::mock(&mut tree, SIZE_ONE);
    let tabbed = TabbedContainer::mock(&mut tree, &vec![w]);
    assert_eq!(tree.tab_bar_height(tabbed), TAB_BAR_HEIGHT);
    let ws = Workspace::mock(&mut tree, "1".to_string(), TilingDirection::Horizontal, &vec![tabbed]);
    let _monitor = Monitor::mock(&mut tree, String::new(), 150, &vec![ws]);
    assert_eq!(tree.tab_bar_height(tabbed), 36);
}

#[test]
fn children_share_content_rect() {
    let rect = Rect::from_xy(10, 20, 300, 200);
    assert_eq!(content_rect(&rect, 24), Rect::from_xy(10, 44, 300, 176));
    assert_eq!(content_rect(&rect, 500), Rect::from_xy(10, 220, 300, 0));
}
