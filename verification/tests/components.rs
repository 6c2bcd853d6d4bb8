use glaze_layout::config::{WindowRuleConfig, WindowRuleEvent};
use glaze_layout::matching::{MatchType, WindowMatchConfig};
use glaze_layout::rules::pending_window_rules;
use glaze_layout::config::SideArea;
use glaze_layout::tab_bar::{tab_bar_mouse, tab_bar_transparent, TabBarMouse};
use glaze_layout::preflight::DeferReason;
use glaze_layout::rules::{RuleRun, RuleStart};
use glaze_layout::events::handle_window_title_changed;
use glaze_layout::geometry::{LengthValue, Rect};
use glaze_layout::mocks::{Monitor, NonTilingWindow, TabbedContainer, TilingWindow, Workspace, MOCK_SCALE_FACTOR};
use glaze_layout::sync::PendingSync;
use glaze_layout::tab_bar::{tab_index_at_point, tab_item_layout};
use glaze_layout::tree::{ContainerKind, ContainerTree, InsertionLevel, TilingDirection, SIZE_ONE};

fn window(tree: &mut ContainerTree) -> usize {
    TilingWindow::mock(tree, SIZE_ONE)
}

fn title_of(tree: &ContainerTree, w: usize) -> String {
    match &tree.nodes[w].kind {
        ContainerKind::TilingWindow(info) => info.title.clone(),
        ContainerKind::NonTilingWindow(info) => info.title.clone(),
        _ => panic!("not a window"),
    }
}

#[test]
fn tab_under_a_point_divides_the_bar_evenly() {
    assert_eq!(tab_index_at_point(150, 300, 3), Some(1));
    assert_eq!(tab_index_at_point(99, 300, 3), Some(0));
    assert_eq!(tab_index_at_point(299, 300, 3), Some(2));
    assert_eq!(tab_index_at_point(-5, 300, 3), Some(0));
    assert_eq!(tab_index_at_point(1000, 300, 3), Some(2));
    assert_eq!(tab_index_at_point(10, 300, 0), None);
}

#[test]
fn tab_layout_places_separator_icon_and_title() {
    let client = Rect::from_ltrb(0, 0, 300, 24);
    let middle = tab_item_layout(client, 3, 1, true);
    assert_eq!(middle.item, Rect::from_ltrb(100, 0, 200, 24));
    assert_eq!(middle.separator, Some(Rect::from_ltrb(199, 4, 200, 20)));
    assert_eq!(middle.content, Rect::from_ltrb(108, 0, 192, 24));
    assert_eq!(middle.icon, Some(Rect::from_ltrb(108, 4, 124, 20)));
    assert_eq!(middle.title, Rect::from_ltrb(128, 0, 192, 24));

    let last = tab_item_layout(client, 3, 2, false);
    assert_eq!(last.separator, None);
    assert_eq!(last.icon, None);
    assert_eq!(last.title, last.content);
}

#[test]
fn resizing_a_container_gives_the_change_to_its_sibling() {
    let mut tree = ContainerTree::new();
    let a = window(&mut tree);
    let b = window(&mut tree);
    let ws = Workspace::mock(&mut tree, "1".to_string(), TilingDirection::Horizontal, &vec![a, b]);
    assert_eq!(tree.tiling_size(a), SIZE_ONE / 2);

    tree.resize_tiling_container(ws, a, SIZE_ONE / 4);

    assert_eq!(tree.tiling_size(a), SIZE_ONE / 4);
    assert_eq!(tree.tiling_size(b), SIZE_ONE / 4 * 3);
}

#[test]
fn capture_records_the_place_in_the_parent() {
    let mut tree = ContainerTree::new();
    let a = window(&mut tree);
    let b = window(&mut tree);
    let tabbed = TabbedContainer::mock(&mut tree, &vec![a, b]);
    let _ws = Workspace::mock(&mut tree, "1".to_string(), TilingDirection::Horizontal, &vec![tabbed]);
    tree.set_tiling_size(b, SIZE_ONE / 4);

    let target = tree.capture_insertion_target(b).unwrap();

    assert_eq!(
        target.levels,
        vec![InsertionLevel { target_parent: tabbed, target_index: 1, prev_tiling_size: SIZE_ONE / 4, prev_sibling_count: 1 }]
    );
}

#[test]
fn title_change_inside_tabs_asks_for_tab_bar_update() {
    let mut tree = ContainerTree::new();
    let a = window(&mut tree);
    let b = window(&mut tree);
    let tabbed = TabbedContainer::mock(&mut tree, &vec![a, b]);
    let _ws = Workspace::mock(&mut tree, "1".to_string(), TilingDirection::Horizontal, &vec![tabbed]);
    let mut sync = PendingSync::new();

    let r = handle_window_title_changed(&mut tree, Some(b), "editor".to_string(), &mut sync);

    assert_eq!(r, Some(b));
    assert_eq!(title_of(&tree, b), "editor");
    assert!(sync.tab_bar_update);
}

#[test]
fn title_change_of_unknown_window_changes_nothing() {
    let mut tree = ContainerTree::new();
    let mut sync = PendingSync::new();

    let r = handle_window_title_changed(&mut tree, None, "x".to_string(), &mut sync);

    assert_eq!(r, None);
    assert!(!sync.tab_bar_update);
}

#[test]
fn height_resize_includes_nested_tab_bars() {
    let mut tree = ContainerTree::new();
    let w = window(&mut tree);
    let inner = TabbedContainer::mock(&mut tree, &vec![w]);
    let outer = TabbedContainer::mock(&mut tree, &vec![inner]);

    assert_eq!(
        glaze_layout::window_size::tab_bar_inset_between(&tree, w, outer).unwrap(),
        tree.tab_bar_height(outer) * 2
    );
}

#[test]
fn tab_bar_inset_needs_an_ancestor() {
    let mut tree = ContainerTree::new();
    let w = window(&mut tree);
    let other = window(&mut tree);
    assert_eq!(
        glaze_layout::window_size::tab_bar_inset_between(&tree, w, other),
        Err(glaze_layout::attach::TreeError::NoParent)
    );
}

#[test]
fn floating_resize_keeps_minimums_when_shrinking() {
    let mut tree = ContainerTree::new();
    let float = NonTilingWindow::mock(&mut tree);
    let ws = Workspace::mock(&mut tree, "1".to_string(), TilingDirection::Horizontal, &vec![float]);
    let _m = Monitor::mock(&mut tree, String::new(), MOCK_SCALE_FACTOR, &vec![ws]);
    let mut sync = PendingSync::new();

    tree.set_floating_window_size(float, Some(LengthValue::from_px(100)), Some(LengthValue::from_px(400)), &mut sync)
        .unwrap();

    let placement = match &tree.nodes[float].kind {
        ContainerKind::NonTilingWindow(info) => info.floating_placement,
        _ => panic!("not a floating window"),
    };
    assert_eq!(placement, Rect::from_xy(0, 0, 250, 400));
    assert_eq!(sync.containers_to_redraw, vec![float]);
}

#[test]
fn active_tab_is_painted_apart_from_the_others() {
    let active = glaze_layout::tab_bar::tab_colors(true);
    let inactive = glaze_layout::tab_bar::tab_colors(false);
    assert_eq!(active.fill, 0x0050_78A0);
    assert_eq!(active.text, 0x00FF_FFFF);
    assert_eq!(inactive.fill, 0x0030_3030);
    assert_eq!(inactive.text, 0x00C8_C8C8);
}

#[test]
fn a_click_is_a_press_and_release_over_the_same_tab() {
    let (pressed, clicked) = tab_bar_mouse(None, TabBarMouse::LeftDown(Some(2)));
    assert_eq!((pressed, clicked), (Some(2), None));
    assert_eq!(tab_bar_mouse(pressed, TabBarMouse::LeftUp(Some(2))), (None, Some(2)));
    assert_eq!(tab_bar_mouse(pressed, TabBarMouse::LeftUp(Some(1))), (None, None));
    assert_eq!(tab_bar_mouse(None, TabBarMouse::LeftUp(None)), (None, None));
    assert!(tab_bar_transparent(0));
    assert!(!tab_bar_transparent(3));
}

#[test]
fn window_rules_defer_replace_the_subject_and_record_run_once_rules() {
    let mut run = RuleRun::new(7, vec![]);
    assert_eq!(run.start_rule(&Some(DeferReason::SideAreaUnavailable(SideArea::Left, 0))), RuleStart::Deferred);
    assert_eq!(run.start_rule(&None), RuleStart::RunCommands);
    assert!(run.after_command(false, None));
    assert_eq!(run.subject, 7);
    assert!(run.after_command(true, Some(9)));
    assert_eq!(run.subject, 9);
    run.finish_rule(3, true);
    run.finish_rule(4, false);
    assert_eq!(run.done, vec![3]);
    assert!(!run.after_command(true, None));
}

#[test]
fn pending_rules_apply_to_the_window_and_were_not_run() {
    let mut cond = WindowMatchConfig::empty();
    cond.window_process = Some(MatchType::Equals { equals: "left-widget".to_string() });
    let rule = WindowRuleConfig { commands: vec![], match_window: vec![cond], on: vec![WindowRuleEvent::Manage], run_once: true };
    let other = WindowRuleConfig {
        commands: vec![],
        match_window: vec![WindowMatchConfig::empty()],
        on: vec![WindowRuleEvent::Focus],
        run_once: false,
    };
    let rules = vec![rule, other];
    assert_eq!(pending_window_rules(&rules, WindowRuleEvent::Manage, "left-widget", "", "", &vec![]), vec![0]);
    assert_eq!(pending_window_rules(&rules, WindowRuleEvent::Manage, "left-widget", "", "", &vec![0]), Vec::<usize>::new());
    assert_eq!(pending_window_rules(&rules, WindowRuleEvent::Manage, "right-widget", "", "", &vec![]), Vec::<usize>::new());
    assert_eq!(pending_window_rules(&rules, WindowRuleEvent::Focus, "x", "", "", &vec![]), vec![1]);
}
