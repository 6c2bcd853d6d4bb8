use glaze_layout::config::{
    BorderEffectConfig, CornerEffectConfig, CornerStyle, FloatingStateConfig, FullscreenStateConfig, GapsConfig,
    GeneralConfig, HideMethod, HideTitleBarEffectConfig, InitialWindowState, OpacityValue, ParsedConfig,
    SideAreasConfig, TransparencyEffectConfig, WindowBehaviorConfig, WindowEffectConfig, WindowEffectsConfig,
    WindowStateDefaultsConfig,
};
use glaze_layout::config::{InvokeCommand, SideArea, WindowRuleConfig, WindowRuleEvent, WorkspaceConfig};
use glaze_layout::geometry::LengthValue;
use glaze_layout::matching::{MatchType, MonitorMatchConfig, WindowMatchConfig};
use glaze_layout::preflight::RuleCommand;
use glaze_layout::rules::{rules_to_rerun, run_window_rules, RuleRun, RulesEnd};
use glaze_layout::mocks::{Monitor, TilingWindow, Workspace, MOCK_SCALE_FACTOR};
use glaze_layout::reload::{reload_config, reload_effects};
use glaze_layout::sync::PendingSync;
use glaze_layout::tree::{ContainerKind, ContainerTree, TilingDirection, SIZE_ONE};

fn effect(border: bool) -> WindowEffectConfig {
    WindowEffectConfig {
        border: BorderEffectConfig { enabled: border, ..BorderEffectConfig::default() },
        hide_title_bar: HideTitleBarEffectConfig { enabled: false },
        corner_style: CornerEffectConfig { enabled: false, style: CornerStyle::Default },
        transparency: TransparencyEffectConfig { enabled: false, opacity: OpacityValue { amount: 100 } },
    }
}

fn config(border: bool, hide_method: HideMethod, taskbar: bool) -> ParsedConfig {
    ParsedConfig {
        binding_modes: vec![],
        gaps: GapsConfig::default(),
        general: GeneralConfig { hide_method, show_all_in_taskbar: taskbar, ..GeneralConfig::default() },
        keybindings: vec![],
        side_areas: SideAreasConfig::default(),
        window_behavior: WindowBehaviorConfig {
            initial_state: InitialWindowState::Tiling,
            state_defaults: WindowStateDefaultsConfig {
                floating: FloatingStateConfig::default(),
                fullscreen: FullscreenStateConfig::default(),
            },
        },
        window_effects: WindowEffectsConfig { focused_window: effect(border), other_windows: effect(border) },
        window_rules: vec![],
        workspaces: vec![],
    }
}

#[test]
fn turning_borders_off_resets_them() {
    let old = config(true, HideMethod::Cloak, false);
    let new = config(false, HideMethod::Cloak, false);
    let r = reload_effects(&old, &new);
    assert!(r.reset_focused_border);
    assert!(r.reset_other_borders);
    assert!(!r.show_all_windows);
    assert!(!r.show_all_in_taskbar);
    assert!(r.rerun_window_rules && r.clear_binding_modes && r.announce_config && r.run_reload_commands);
}

#[test]
fn switching_to_cloaking_shows_windows() {
    let old = config(false, HideMethod::Hide, false);
    let new = config(false, HideMethod::Cloak, true);
    let r = reload_effects(&old, &new);
    assert!(!r.reset_focused_border);
    assert!(r.show_all_windows);
    assert!(r.show_all_in_taskbar);
}

#[test]
fn reload_gives_workspaces_the_new_gaps_and_redraws_the_root() {
    let mut tree = ContainerTree::new();
    let root = tree.add_node(ContainerKind::Root, TilingDirection::Horizontal);
    let w = TilingWindow::mock(&mut tree, SIZE_ONE);
    let ws = Workspace::mock(&mut tree, "1".to_string(), TilingDirection::Horizontal, &vec![w]);
    let m = Monitor::mock(&mut tree, "DISPLAY1".to_string(), MOCK_SCALE_FACTOR, &vec![ws]);
    tree.attach_container(m, root, None).unwrap();
    let mut cfg = config(false, HideMethod::Cloak, false);
    cfg.gaps.inner_gap = LengthValue::from_px(7);
    let mut sync = PendingSync::new();

    reload_config(&mut tree, &vec![m], root, &cfg, &cfg, &mut sync).unwrap();

    match &tree.nodes[ws].kind {
        ContainerKind::Workspace(info) => assert_eq!(info.gaps.inner_gap, LengthValue::from_px(7)),
        _ => panic!("not a workspace"),
    }
    assert_eq!(sync.containers_to_redraw, vec![root]);
}

#[test]
fn reload_removes_side_areas_from_nonmatching_monitor() {
    let mut tree = ContainerTree::new();
    let root = tree.add_node(ContainerKind::Root, TilingDirection::Horizontal);
    let area = Workspace::mock_side_area(&mut tree, SideArea::Left, LengthValue::from_px(300), true, GapsConfig::default(), &vec![]);
    let ws = Workspace::mock(&mut tree, "1".to_string(), TilingDirection::Horizontal, &vec![]);
    let m = Monitor::mock(&mut tree, "DISPLAY2".to_string(), MOCK_SCALE_FACTOR, &vec![area, ws]);
    tree.attach_container(m, root, None).unwrap();
    tree.set_focused_descendant(ws, None);
    let mut cfg = config(false, HideMethod::Cloak, false);
    cfg.side_areas = SideAreasConfig {
        left: LengthValue::from_px(300),
        match_monitor: Some(vec![MonitorMatchConfig {
            device_name: Some(MatchType::Equals { equals: "DISPLAY1".to_string() }),
            hardware_id: None,
        }]),
        ..SideAreasConfig::default()
    };
    let mut sync = PendingSync::new();

    reload_config(&mut tree, &vec![m], root, &cfg, &cfg, &mut sync).unwrap();

    assert!(tree.side_area(m, SideArea::Left).is_none());
    assert_eq!(tree.workspace_rect(ws).unwrap().width(), 1680);
}

fn widget_rule(process: &str, side: &str) -> WindowRuleConfig {
    WindowRuleConfig {
        commands: vec![InvokeCommand { text: format!("move --side-area {}", side) }],
        match_window: vec![WindowMatchConfig {
            window_process: Some(MatchType::Equals { equals: process.to_string() }),
            window_class: None,
            window_title: None,
        }],
        on: vec![WindowRuleEvent::Manage],
        run_once: true,
    }
}

fn widget(tree: &mut ContainerTree, process: &str) -> usize {
    let w = TilingWindow::mock(tree, SIZE_ONE / 2);
    if let ContainerKind::TilingWindow(info) = &mut tree.nodes[w].kind {
        info.process_name = process.to_string();
    }
    w
}

struct WidgetMonitor {
    monitor: usize,
    workspace: usize,
    left: usize,
    right: usize,
}

/// Reloads with side areas on the monitor named `selected` and runs the
/// window rules again, as the window manager does after a reload; gives
/// the rules recorded as done for each window.
fn reload_and_rerun(
    tree: &mut ContainerTree,
    monitors: &Vec<usize>,
    root: usize,
    selected: &str,
    display_name: &str,
    outer_gap: i32,
) -> Vec<(usize, Vec<usize>)> {
    let mut cfg = config(true, HideMethod::Cloak, false);
    cfg.side_areas = SideAreasConfig {
        left: LengthValue::from_px(240),
        right: LengthValue::from_px(260),
        match_monitor: Some(vec![MonitorMatchConfig {
            device_name: Some(MatchType::Equals { equals: selected.to_string() }),
            hardware_id: None,
        }]),
        ..SideAreasConfig::default()
    };
    cfg.gaps.outer_gap.top = LengthValue::from_px(outer_gap);
    cfg.gaps.outer_gap.right = LengthValue::from_px(outer_gap);
    cfg.window_rules = vec![widget_rule("left-widget", "left"), widget_rule("right-widget", "right")];
    cfg.workspaces = vec![WorkspaceConfig {
        name: "1".to_string(),
        display_name: Some(display_name.to_string()),
        bind_to_monitor: None,
        keep_alive: false,
    }];
    let parsed = vec![
        vec![RuleCommand::Move { direction: None, workspace: None, side_area: Some(SideArea::Left) }],
        vec![RuleCommand::Move { direction: None, workspace: None, side_area: Some(SideArea::Right) }],
    ];
    let mut sync = PendingSync::new();
    let effects = reload_config(tree, monitors, root, &cfg, &cfg, &mut sync).unwrap();
    assert!(effects.rerun_window_rules);

    let mut done = vec![];
    for (w, pending) in rules_to_rerun(tree, root, &cfg.window_rules) {
        let mut run = RuleRun::new(w, vec![]);
        let end = run_window_rules(
            tree,
            &mut run,
            &cfg.workspaces,
            true,
            monitors,
            Some(w),
            &cfg.window_rules,
            &parsed,
            &pending,
            &cfg.side_areas,
            &mut sync,
        )
        .unwrap();
        assert_eq!(end, RulesEnd::Finished);
        done.push((w, run.done));
    }
    done
}

fn done_count(done: &Vec<(usize, Vec<usize>)>, w: usize) -> usize {
    done.iter().find(|(x, _)| *x == w).map(|(_, d)| d.len()).unwrap()
}

fn assert_selected(
    tree: &ContainerTree,
    fixtures: &Vec<WidgetMonitor>,
    done: &Vec<(usize, Vec<usize>)>,
    selected: usize,
    display_name: &str,
    outer_gap: i32,
) {
    for (k, f) in fixtures.iter().enumerate() {
        let left_area = tree.side_area(f.monitor, SideArea::Left);
        let right_area = tree.side_area(f.monitor, SideArea::Right);
        if k == selected {
            assert!(left_area.is_some() && right_area.is_some());
            assert_eq!(tree.workspace(f.left), left_area);
            assert_eq!(tree.workspace(f.right), right_area);
            assert_eq!(done_count(done, f.left), 1);
            assert_eq!(done_count(done, f.right), 1);
        } else {
            assert!(left_area.is_none() && right_area.is_none());
            assert_eq!(tree.workspace(f.left), Some(f.workspace));
            assert_eq!(tree.workspace(f.right), Some(f.workspace));
            assert_eq!(done_count(done, f.left), 0);
            assert_eq!(done_count(done, f.right), 0);
        }
        match &tree.nodes[f.workspace].kind {
            ContainerKind::Workspace(info) => {
                assert_eq!(info.config.display_name.as_deref(), Some(display_name));
                assert_eq!(info.gaps.outer_gap.top, LengthValue::from_px(outer_gap));
                assert_eq!(info.gaps.outer_gap.right, LengthValue::from_px(outer_gap));
            },
            _ => panic!("not a workspace"),
        }
    }
}

#[test]
fn reload_moves_side_area_rules_between_selected_monitors_consistently() {
    let mut tree = ContainerTree::new();
    let root = tree.add_node(ContainerKind::Root, TilingDirection::Horizontal);
    let mut fixtures = vec![];
    for name in ["DISPLAY1", "DISPLAY2"] {
        let left = widget(&mut tree, "left-widget");
        let right = widget(&mut tree, "right-widget");
        let workspace = Workspace::mock(&mut tree, "1".to_string(), TilingDirection::Horizontal, &vec![left, right]);
        let monitor = Monitor::mock(&mut tree, name.to_string(), MOCK_SCALE_FACTOR, &vec![workspace]);
        tree.attach_container(monitor, root, None).unwrap();
        fixtures.push(WidgetMonitor { monitor, workspace, left, right });
    }
    tree.set_focused_descendant(fixtures[0].left, None);
    let monitors = vec![fixtures[0].monitor, fixtures[1].monitor];

    let done = reload_and_rerun(&mut tree, &monitors, root, "DISPLAY1", "first", 11);
    assert_selected(&tree, &fixtures, &done, 0, "first", 11);

    let done = reload_and_rerun(&mut tree, &monitors, root, "DISPLAY2", "second", 17);
    assert_selected(&tree, &fixtures, &done, 1, "second", 17);
    let areas = (tree.side_area(fixtures[1].monitor, SideArea::Left), tree.side_area(fixtures[1].monitor, SideArea::Right));

    let done = reload_and_rerun(&mut tree, &monitors, root, "DISPLAY2", "second", 17);
    assert_selected(&tree, &fixtures, &done, 1, "second", 17);
    assert_eq!((tree.side_area(fixtures[1].monitor, SideArea::Left), tree.side_area(fixtures[1].monitor, SideArea::Right)), areas);

    let done = reload_and_rerun(&mut tree, &monitors, root, "DISPLAY1", "third", 23);
    assert_selected(&tree, &fixtures, &done, 0, "third", 23);
}

#[test]
fn workspace_configs_follow_their_names_and_resort() {
    let mut tree = ContainerTree::new();
    let two = Workspace::mock(&mut tree, "2".to_string(), TilingDirection::Horizontal, &vec![]);
    let nine = Workspace::mock(&mut tree, "9".to_string(), TilingDirection::Horizontal, &vec![]);
    let one = Workspace::mock(&mut tree, "1".to_string(), TilingDirection::Horizontal, &vec![]);
    let m = Monitor::mock(&mut tree, "DISPLAY1".to_string(), MOCK_SCALE_FACTOR, &vec![two, nine, one]);
    let cfg = vec![
        WorkspaceConfig { name: "1".to_string(), display_name: Some("one".to_string()), bind_to_monitor: None, keep_alive: true },
        WorkspaceConfig { name: "2".to_string(), display_name: None, bind_to_monitor: None, keep_alive: false },
    ];

    glaze_layout::reload::update_workspace_configs(&mut tree, &vec![m], &cfg);

    let config_of = |tree: &ContainerTree, w: usize| match &tree.nodes[w].kind {
        ContainerKind::Workspace(info) => info.config.clone(),
        _ => panic!("not a workspace"),
    };
    assert_eq!(config_of(&tree, one).display_name.as_deref(), Some("one"));
    assert!(config_of(&tree, one).keep_alive);
    assert_eq!(config_of(&tree, two).display_name, None);
    assert_eq!(config_of(&tree, nine).name, "9");
    assert_eq!(tree.nodes[m].children, vec![one, two, nine]);
}
