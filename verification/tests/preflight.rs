use glaze_layout::config::{GapsConfig, SideArea, WorkspaceConfig};
use glaze_layout::geometry::LengthValue;
use glaze_layout::mocks::{Monitor, TilingWindow, Workspace, MOCK_SCALE_FACTOR};
use glaze_layout::preflight::{
    side_area_rule_defer_reason, DeferReason, PredictedWorkspaceState, RuleCommand, RuleContext, Unpredictable,
    WorkspaceTarget,
};
use glaze_layout::tree::{ContainerKind, ContainerTree, Direction, TilingDirection, SIZE_ONE};

struct Setup {
    tree: ContainerTree,
    monitors: Vec<usize>,
    window: usize,
    cfg: Vec<WorkspaceConfig>,
}

fn config(name: &str, bind: Option<u32>, keep_alive: bool) -> WorkspaceConfig {
    WorkspaceConfig { name: name.to_string(), display_name: None, bind_to_monitor: bind, keep_alive }
}

/// Monitor one shows workspace "1" with the window and has a left side
/// area; monitor two shows workspace "3" and has no side area.
fn setup() -> Setup {
    let mut tree = ContainerTree::new();
    let root = tree.add_node(ContainerKind::Root, TilingDirection::Horizontal);
    let window = TilingWindow::mock(&mut tree, SIZE_ONE);
    let area = Workspace::mock_side_area(&mut tree, SideArea::Left, LengthValue::from_px(300), true, GapsConfig::default(), &vec![]);
    let one = Workspace::mock(&mut tree, "1".to_string(), TilingDirection::Horizontal, &vec![window]);
    let m1 = Monitor::mock(&mut tree, "DISPLAY1".to_string(), MOCK_SCALE_FACTOR, &vec![one, area]);
    let three = Workspace::mock(&mut tree, "3".to_string(), TilingDirection::Horizontal, &vec![]);
    let m2 = Monitor::mock(&mut tree, "DISPLAY2".to_string(), MOCK_SCALE_FACTOR, &vec![three]);
    tree.attach_container(m1, root, None).unwrap();
    tree.attach_container(m2, root, None).unwrap();
    let cfg = vec![config("1", None, false), config("2", Some(1), false), config("3", None, false)];
    Setup { tree, monitors: vec![m1, m2], window, cfg }
}

fn run(s: &Setup, cmds: Vec<RuleCommand>) -> Option<DeferReason> {
    let ctx = RuleContext { tree: &s.tree, workspaces: &s.cfg, toggle_on_refocus: true, monitors: &s.monitors };
    side_area_rule_defer_reason(&ctx, s.window, Some(s.window), None, &cmds)
}

fn side_move(side: SideArea) -> RuleCommand {
    RuleCommand::Move { direction: None, workspace: None, side_area: Some(side) }
}

#[test]
fn side_area_move_on_a_monitor_with_the_area_runs() {
    let s = setup();
    assert_eq!(run(&s, vec![side_move(SideArea::Left)]), None);
}

#[test]
fn side_area_missing_on_the_predicted_monitor_defers() {
    let s = setup();
    let cmds = vec![
        RuleCommand::Move { direction: None, workspace: Some(WorkspaceTarget::Name("2".to_string())), side_area: None },
        side_move(SideArea::Left),
    ];
    assert_eq!(run(&s, cmds), Some(DeferReason::SideAreaUnavailable(SideArea::Left, s.monitors[1])));
}

#[test]
fn directional_move_before_side_area_move_defers() {
    let s = setup();
    let cmds = vec![
        RuleCommand::Move { direction: Some(Direction::Left), workspace: None, side_area: None },
        side_move(SideArea::Right),
    ];
    assert_eq!(
        run(&s, cmds),
        Some(DeferReason::SideAreaMonitorUnknown(SideArea::Right, Unpredictable::DirectionalMoveLocation))
    );
}

#[test]
fn rule_without_side_area_move_never_defers() {
    let s = setup();
    let cmds = vec![RuleCommand::ReloadConfig, RuleCommand::Focus { workspace: None, monitor: None }];
    assert_eq!(run(&s, cmds), None);
}

#[test]
fn config_update_of_an_inactive_workspace_defers() {
    let s = setup();
    let cmds = vec![
        RuleCommand::UpdateWorkspaceConfig { workspace: Some("9".to_string()), name: None, keep_alive: Some(true) },
        side_move(SideArea::Left),
    ];
    assert_eq!(
        run(&s, cmds),
        Some(DeferReason::ConfigUpdateUnknown(Unpredictable::ActiveWorkspaceNotFound("9".to_string())))
    );
}

#[test]
fn ignore_stops_the_preflight() {
    let s = setup();
    let cmds = vec![
        RuleCommand::Ignore,
        RuleCommand::Move { direction: None, workspace: Some(WorkspaceTarget::Name("2".to_string())), side_area: None },
        side_move(SideArea::Left),
    ];
    assert_eq!(run(&s, cmds), None);
}

#[test]
fn focusing_an_inactive_bound_workspace_activates_it_on_its_monitor() {
    let s = setup();
    let ctx = RuleContext { tree: &s.tree, workspaces: &s.cfg, toggle_on_refocus: true, monitors: &s.monitors };
    let mut state = PredictedWorkspaceState::new(&s.tree, &s.monitors, Some(s.window), None);
    assert_eq!(state.focused_workspace, Some("1".to_string()));

    state.follow_focus(&ctx, WorkspaceTarget::Name("2".to_string())).unwrap();

    assert_eq!(state.focused_workspace, Some("2".to_string()));
    assert_eq!(state.recent_workspace, Some("1".to_string()));
    assert_eq!(state.displayed_workspace_name(s.monitors[1]), Ok("2".to_string()));
    let names = state.sorted_workspace_names(&s.cfg, Some(s.monitors[1]));
    assert_eq!(names, vec!["2".to_string()]);
}

#[test]
fn next_active_workspace_wraps_around() {
    let s = setup();
    let state = PredictedWorkspaceState::new(&s.tree, &s.monitors, Some(s.window), None);
    let origin = "3".to_string();
    assert_eq!(state.adjacent_active_workspace(&s.cfg, &origin, None, true), Ok(Some("1".to_string())));
    assert_eq!(state.adjacent_active_workspace(&s.cfg, &origin, None, false), Ok(Some("1".to_string())));
}

#[test]
fn a_rule_runs_its_layout_commands_and_hands_over_the_rest() {
    let mut s = setup();
    let mut sync = glaze_layout::sync::PendingSync::new();
    let config = glaze_layout::config::SideAreasConfig::default();
    let area = s.tree.side_area(s.monitors[0], SideArea::Left);
    let mut run = glaze_layout::rules::RuleRun::new(s.window, vec![]);

    // A command that the layout does not run comes back to the caller,
    // and nothing has changed.
    let cmds = vec![RuleCommand::CycleFocus, side_move(SideArea::Left)];
    let end = run.run_rule(&mut s.tree, 0, true, &cmds, &None, &config, &mut sync).unwrap();
    assert_eq!(end, glaze_layout::rules::RuleEnd::HandedOver(0));
    assert_ne!(s.tree.workspace(s.window), area);
    assert!(run.done.is_empty());

    // The rest of the rule runs: the window moves into the area and the
    // rule is recorded as done.
    let rest = vec![side_move(SideArea::Left)];
    let end = run.run_rule(&mut s.tree, 0, true, &rest, &None, &config, &mut sync).unwrap();
    assert_eq!(end, glaze_layout::rules::RuleEnd::Finished);
    assert_eq!(s.tree.workspace(s.window), area);
    assert_eq!(run.done, vec![0]);

    // A deferred rule runs none of its commands.
    let defer = Some(DeferReason::SideAreaUnavailable(SideArea::Right, s.monitors[0]));
    let end = run.run_rule(&mut s.tree, 1, true, &vec![side_move(SideArea::Right)], &defer, &config, &mut sync).unwrap();
    assert_eq!(end, glaze_layout::rules::RuleEnd::Deferred);
    assert_eq!(run.done, vec![0]);

    // A move into an area the monitor lacks fails with the move's error.
    let r = run.run_rule(&mut s.tree, 1, true, &vec![side_move(SideArea::Right)], &None, &config, &mut sync);
    assert!(r.is_err());
    assert_eq!(run.done, vec![0]);
}
