//! Applying a reloaded configuration: side areas, gaps, and what the
//! platform is asked to reset.
use vstd::prelude::*;

use crate::attach::TreeError;
use crate::config::{GapsConfig, HideMethod, ParsedConfig, SideAreasConfig, WorkspaceConfig};
use crate::monitor_ops::workspaces_sorted;
use crate::monitors::regular_workspaces;
use crate::moves::kind_set;
use crate::preflight::{config_index, config_rank, lemma_regular_in_tree};
use crate::text::str_equals;
use crate::side_areas::{ensure_side_areas, same_links, side_areas_set};
use crate::sync::PendingSync;
use crate::tree::{ContainerKind, ContainerTree, WorkspaceInfo};

verus! {

/// A container kind with the gaps of a workspace replaced.
pub open spec fn with_gaps(k: ContainerKind, gaps: GapsConfig) -> ContainerKind {
    match k {
        ContainerKind::Workspace(info) => ContainerKind::Workspace(WorkspaceInfo { gaps, ..info }),
        other => other,
    }
}

impl ContainerTree {
    /// Gives every workspace and side area the gaps `gaps`.
    pub fn update_container_gaps(&mut self, gaps: GapsConfig)
        requires
            old(self).wf(),
        ensures
            final(self).wf(),
            same_links(final(self), old(self)),
            forall|y: int|
                0 <= y < final(self).len() ==> (#[trigger] final(self).nodes@[y]).kind == with_gaps(old(self).nodes@[y].kind, gaps)
                    && final(self).nodes@[y].tiling_size == old(self).nodes@[y].tiling_size
                    && final(self).nodes@[y].tiling_direction == old(self).nodes@[y].tiling_direction,
    {
        let ghost t0 = *self;
        let mut y: usize = 0;
        while y < self.nodes.len()
            invariant
                self.wf(),
                y <= self.len(),
                same_links(self, &t0),
                forall|z: int|
                    0 <= z < self.len() ==> (#[trigger] self.nodes@[z]).kind == if z < y {
                        with_gaps(t0.nodes@[z].kind, gaps)
                    } else {
                        t0.nodes@[z].kind
                    } && self.nodes@[z].tiling_size == t0.nodes@[z].tiling_size
                        && self.nodes@[z].tiling_direction == t0.nodes@[z].tiling_direction,
            decreases self.len() - y,
        {
            let ghost before = *self;
            let mut node = self.take_node(y);
            match node.kind {
                ContainerKind::Workspace(info) => {
                    node.kind = ContainerKind::Workspace(WorkspaceInfo { gaps, ..info });
                },
                other => {
                    node.kind = other;
                },
            }
            self.put_back(y, node, Ghost(before));
            proof {
                assert forall|z: int| 0 <= z < self.len() implies (#[trigger] self.nodes@[z]).kind == if z < y + 1 {
                    with_gaps(t0.nodes@[z].kind, gaps)
                } else {
                    t0.nodes@[z].kind
                } && self.nodes@[z].tiling_size == t0.nodes@[z].tiling_size
                    && self.nodes@[z].tiling_direction == t0.nodes@[z].tiling_direction by {
                    assert(before.nodes@[z].kind == if z < y {
                        with_gaps(t0.nodes@[z].kind, gaps)
                    } else {
                        t0.nodes@[z].kind
                    });
                }
            }
            y = y + 1;
        }
    }
}

/// What a reload asks of the platform.
#[derive(Clone, Copy, Debug, PartialEq, Eq, Structural)]
pub struct ReloadEffects {
    /// The focused window's border goes back to the system's.
    pub reset_focused_border: bool,
    /// The other windows' borders go back to the system's.
    pub reset_other_borders: bool,
    /// Every window is shown, since hiding is by cloaking now.
    pub show_all_windows: bool,
    /// Every window is shown in the taskbar.
    pub show_all_in_taskbar: bool,
    /// The effects of all windows are applied again.
    pub update_all_effects: bool,
    /// The window rules of every window are cleared and run again.
    pub rerun_window_rules: bool,
    /// The active binding modes are cleared.
    pub clear_binding_modes: bool,
    /// The changed configuration is announced to subscribers.
    pub announce_config: bool,
    /// The configured reload commands are run on the focused container.
    pub run_reload_commands: bool,
}

/// What reloading from config `old` to config `new` asks of the platform
/// and of the window manager's state: borders whose effect was turned off
/// go back to the system's, windows are shown where hiding changed to
/// cloaking, and shown in the taskbar where that was turned on; on every
/// reload the effects are applied again, the done rules of each window are
/// cleared and its pending rules (`pending_window_rules` on `Manage`) run
/// again, binding modes are cleared, the new configuration is announced
/// and the reload commands run.
pub open spec fn spec_reload_effects(old: &ParsedConfig, new: &ParsedConfig) -> ReloadEffects {
    ReloadEffects {
        reset_focused_border: !new.window_effects.focused_window.border.enabled
            && old.window_effects.focused_window.border.enabled,
        reset_other_borders: !new.window_effects.other_windows.border.enabled
            && old.window_effects.other_windows.border.enabled,
        show_all_windows: old.general.hide_method != new.general.hide_method && new.general.hide_method
            == HideMethod::Cloak,
        show_all_in_taskbar: old.general.show_all_in_taskbar != new.general.show_all_in_taskbar
            && new.general.show_all_in_taskbar,
        update_all_effects: true,
        rerun_window_rules: true,
        clear_binding_modes: true,
        announce_config: true,
        run_reload_commands: true,
    }
}

/// What reloading from config `old` to config `new` asks (see
/// `spec_reload_effects`).
pub fn reload_effects(old: &ParsedConfig, new: &ParsedConfig) -> (r: ReloadEffects)
    ensures
        r == spec_reload_effects(old, new),
{
    ReloadEffects {
        reset_focused_border: !new.window_effects.focused_window.border.enabled
            && old.window_effects.focused_window.border.enabled,
        reset_other_borders: !new.window_effects.other_windows.border.enabled
            && old.window_effects.other_windows.border.enabled,
        show_all_windows: old.general.hide_method != new.general.hide_method && new.general.hide_method
            == HideMethod::Cloak,
        show_all_in_taskbar: old.general.show_all_in_taskbar != new.general.show_all_in_taskbar
            && new.general.show_all_in_taskbar,
        update_all_effects: true,
        rerun_window_rules: true,
        clear_binding_modes: true,
        announce_config: true,
        run_reload_commands: true,
    }
}

/// One step of a reload: where `m` is a monitor of `old`, its side areas
/// made to match `config` (`side_areas_set`) with outcome `r`; where it is
/// not, nothing changes and the step succeeds.
pub open spec fn reload_step(
    old: ContainerTree,
    new: ContainerTree,
    m: usize,
    config: SideAreasConfig,
    gaps: GapsConfig,
    r: Result<(), TreeError>,
) -> bool {
    if (m as int) < old.len() && old.is_monitor(m as int) {
        side_areas_set(&old, &new, m as int, config, gaps, r)
    } else {
        new.nodes@ == old.nodes@ && r is Ok
    }
}

/// `trees` are the layouts met while going through `ms` in order: each
/// one comes from the one before it by a successful step for the next
/// entry of `ms`.
pub open spec fn reload_steps(trees: Seq<ContainerTree>, ms: Seq<usize>, config: SideAreasConfig, gaps: GapsConfig) -> bool {
    &&& 1 <= trees.len() <= ms.len() + 1
    &&& forall|k: int|
        0 <= k < trees.len() - 1 ==> #[trigger] reload_step(trees[k], trees[k + 1], ms[k], config, gaps, Ok(()))
}

/// `new` is `old` with every workspace given the gaps `gaps` and nothing
/// else changed.
pub open spec fn gaps_updated(old: &ContainerTree, new: &ContainerTree, gaps: GapsConfig) -> bool {
    &&& same_links(new, old)
    &&& forall|y: int|
        0 <= y < new.len() ==> (#[trigger] new.nodes@[y]).kind == with_gaps(old.nodes@[y].kind, gaps)
            && new.nodes@[y].tiling_size == old.nodes@[y].tiling_size
            && new.nodes@[y].tiling_direction == old.nodes@[y].tiling_direction
}

/// Applies a reloaded `config` to the layout: each monitor among
/// `monitors` gets the configured side areas, in order (`reload_steps`); where
/// that succeeds, the regular workspaces of those monitors take the
/// configured entries of their names (`workspace_configs_updated`), every
/// workspace gets the configured gaps and the whole tree below `root` is
/// queued for redraw, and what the reload from
/// `old_config` asks of the platform and the window manager's state is
/// given back (`spec_reload_effects`): among it, running the window rules
/// again, clearing binding modes and announcing the new configuration.
pub fn reload_config(
    tree: &mut ContainerTree,
    monitors: &Vec<usize>,
    root: usize,
    old_config: &ParsedConfig,
    config: &ParsedConfig,
    sync: &mut PendingSync,
) -> (r: Result<ReloadEffects, TreeError>)
    requires
        old(tree).wf(),
        forall|k: int| 0 <= k < monitors@.len() ==> (#[trigger] monitors@[k] as int) < old(tree).len(),
    ensures
        final(tree).wf(),
        exists|trees: Seq<ContainerTree>| {
            &&& #[trigger] reload_steps(trees, monitors@, config.side_areas, config.gaps)
            &&& trees[0] == *old(tree)
            &&& r is Ok ==> trees.len() == monitors@.len() + 1 && exists|t: ContainerTree|
                workspace_configs_updated(&trees.last(), &t, monitors@, config.workspaces@) && gaps_updated(&t, final(tree), config.gaps)
            &&& r matches Err(e) ==> trees.len() <= monitors@.len() && reload_step(
                trees.last(),
                *final(tree),
                monitors@[trees.len() - 1],
                config.side_areas,
                config.gaps,
                Err(e),
            )
        },
        r is Ok ==> forall|y: int|
            0 <= y < final(tree).len() && final(tree).is_workspace(y) ==> (#[trigger] final(tree).workspace_info(y)).gaps
                == config.gaps,
        r is Ok ==> final(sync).containers_to_redraw@ == old(sync).containers_to_redraw@.push(root),
        r is Err ==> final(sync).containers_to_redraw@ == old(sync).containers_to_redraw@,
        r matches Ok(e) ==> e == spec_reload_effects(old_config, config),
{
    let ghost t0 = *tree;
    let ghost mut trees: Seq<ContainerTree> = seq![t0];
    let mut i: usize = 0;
    while i < monitors.len()
        invariant
            tree.wf(),
            t0 == *old(tree),
            i <= monitors@.len(),
            tree.len() >= old(tree).len(),
            forall|k: int| 0 <= k < monitors@.len() ==> (#[trigger] monitors@[k] as int) < old(tree).len(),
            reload_steps(trees, monitors@, config.side_areas, config.gaps),
            trees.len() == i + 1,
            trees[0] == t0,
            trees.last() == *tree,
            *sync == *old(sync),
        decreases monitors@.len() - i,
    {
        let ghost before = *tree;
        if tree.monitor_node(monitors[i]) {
            let r = ensure_side_areas(tree, monitors[i], &config.side_areas, config.gaps);
            if let Err(e) = r {
                proof {
                    assert(reload_step(trees.last(), *tree, monitors@[trees.len() - 1], config.side_areas, config.gaps, r));
                    assert(reload_steps(trees, monitors@, config.side_areas, config.gaps));
                }
                return Err(e);
            }
            proof {
                assert(reload_step(before, *tree, monitors@[i as int], config.side_areas, config.gaps, r));
                assert(r is Ok);
                assert(r == Ok::<(), TreeError>(r->Ok_0));
            }
        }
        proof {
            let ghost next = trees.push(*tree);
            assert(reload_step(before, *tree, monitors@[i as int], config.side_areas, config.gaps, Ok(())));
            assert forall|k: int| 0 <= k < next.len() - 1 implies #[trigger] reload_step(
                next[k],
                next[k + 1],
                monitors@[k],
                config.side_areas,
                config.gaps,
                Ok(()),
            ) by {
                if k < i {
                    assert(next[k] == trees[k] && next[k + 1] == trees[k + 1]);
                }
            }
            trees = next;
        }
        i = i + 1;
    }
    let ghost t_sides = *tree;
    update_workspace_configs(tree, monitors, &config.workspaces);
    let ghost t1 = *tree;
    tree.update_container_gaps(config.gaps);
    proof {
        assert(workspace_configs_updated(&t_sides, &t1, monitors@, config.workspaces@));
        assert forall|y: int| 0 <= y < tree.len() && tree.is_workspace(y) implies (#[trigger] tree.workspace_info(y)).gaps
            == config.gaps by {
            assert(tree.nodes@[y].kind == with_gaps(t1.nodes@[y].kind, config.gaps));
        }
        assert(gaps_updated(&t1, tree, config.gaps));
        assert(reload_steps(trees, monitors@, config.side_areas, config.gaps));
    }
    sync.queue_container_to_redraw(root);
    Ok(reload_effects(old_config, config))
}


/// Whether two workspace configs hold the same values.
pub open spec fn same_workspace_config(a: WorkspaceConfig, b: WorkspaceConfig) -> bool {
    &&& a.name@ == b.name@
    &&& a.display_name.is_some() == b.display_name.is_some()
    &&& (a.display_name matches Some(x) ==> b.display_name.unwrap()@ == x@)
    &&& a.bind_to_monitor == b.bind_to_monitor
    &&& a.keep_alive == b.keep_alive
}

/// The configured entry with the name of workspace config `c`, where the
/// configuration has one (the first such).
pub open spec fn configured_entry(cfg: Seq<WorkspaceConfig>, c: WorkspaceConfig) -> Option<WorkspaceConfig> {
    let k = config_rank(cfg, c.name@);
    if k < cfg.len() {
        Some(cfg[k])
    } else {
        None
    }
}

/// What refreshing the config of workspace `w` on monitor `m` comes to,
/// `r` telling whether it changed: where the configuration has an entry
/// with its name and that entry differs from its config, the workspace
/// takes the entry as its config, nothing else about it changing, and the
/// workspaces of `m` are sorted again (`workspaces_sorted`); otherwise
/// nothing changes.
pub open spec fn config_refreshed(
    old: &ContainerTree,
    new: &ContainerTree,
    w: int,
    m: int,
    cfg: Seq<WorkspaceConfig>,
    r: bool,
) -> bool {
    let info = old.workspace_info(w);
    match configured_entry(cfg, info.config) {
        Some(e) => if same_workspace_config(e, info.config) {
            !r && new.nodes@ == old.nodes@
        } else {
            r && exists|mid: ContainerTree|
                {
                    &&& kind_set(old, &mid, w, mid.kind(w))
                    &&& mid.kind(w) is Workspace
                    &&& same_workspace_config(mid.workspace_info(w).config, e)
                    &&& mid.workspace_info(w).gaps == info.gaps
                    &&& mid.workspace_info(w).side_area == info.side_area
                    &&& mid.workspace_info(w).side_area_width == info.side_area_width
                    &&& mid.workspace_info(w).side_area_scale_with_dpi == info.side_area_scale_with_dpi
                    &&& workspaces_sorted(&mid, new, m, cfg)
                }
        },
        None => !r && new.nodes@ == old.nodes@,
    }
}

/// `new` comes from `old` by refreshing the config of workspace `w` of
/// monitor `m`, whether or not it changed.
pub open spec fn config_step(old: &ContainerTree, new: &ContainerTree, w: int, m: int, cfg: Seq<WorkspaceConfig>) -> bool {
    config_refreshed(old, new, w, m, cfg, true) || config_refreshed(old, new, w, m, cfg, false)
}

/// `trees` are the layouts met while refreshing the configs of workspaces
/// `ws` of monitor `m` in order, one step for each.
pub open spec fn configs_refreshed(trees: Seq<ContainerTree>, ws: Seq<usize>, m: int, cfg: Seq<WorkspaceConfig>) -> bool {
    &&& trees.len() == ws.len() + 1
    &&& forall|k: int|
        0 <= k < ws.len() ==> #[trigger] config_step(&trees[k], &trees[k + 1], ws[k] as int, m, cfg)
}

/// What refreshing the workspace configs of monitor `m` comes to: its
/// regular workspaces, in order, each refreshed (`config_refreshed`).
pub open spec fn monitor_configs_refreshed(old: &ContainerTree, new: &ContainerTree, m: int, cfg: Seq<WorkspaceConfig>) -> bool {
    exists|trees: Seq<ContainerTree>|
        {
            &&& configs_refreshed(trees, regular_workspaces(old, old.ch(m)), m, cfg)
            &&& trees[0] == *old
            &&& trees.last() == *new
        }
}

/// What refreshing the workspace configs of monitors `ms` in order comes
/// to: one `monitor_configs_refreshed` step for each.
pub open spec fn workspace_configs_updated(
    old: &ContainerTree,
    new: &ContainerTree,
    ms: Seq<usize>,
    cfg: Seq<WorkspaceConfig>,
) -> bool {
    exists|trees: Seq<ContainerTree>|
        {
            &&& trees.len() == ms.len() + 1
            &&& trees[0] == *old
            &&& trees.last() == *new
            &&& forall|k: int| 0 <= k < ms.len() ==> #[trigger] monitor_configs_refreshed(&trees[k], &trees[k + 1], ms[k] as int, cfg)
        }
}

/// A copy of workspace config `c`.
fn copy_workspace_config(c: &WorkspaceConfig) -> (r: WorkspaceConfig)
    ensures
        same_workspace_config(r, *c),
{
    WorkspaceConfig {
        name: c.name.clone(),
        display_name: match &c.display_name {
            Some(x) => Some(x.clone()),
            None => None,
        },
        bind_to_monitor: c.bind_to_monitor,
        keep_alive: c.keep_alive,
    }
}

/// Whether two workspace configs hold the same values.
fn workspace_configs_equal(a: &WorkspaceConfig, b: &WorkspaceConfig) -> (r: bool)
    ensures
        r == same_workspace_config(*a, *b),
{
    if !str_equals(a.name.as_str(), b.name.as_str()) {
        return false;
    }
    let same_display = match (&a.display_name, &b.display_name) {
        (Some(x), Some(y)) => str_equals(x.as_str(), y.as_str()),
        (None, None) => true,
        _ => false,
    };
    same_display && a.bind_to_monitor == b.bind_to_monitor && a.keep_alive == b.keep_alive
}

impl ContainerTree {
    /// Gives regular workspace `w` of monitor `m` the configured entry of
    /// its name where that entry differs from its config, and then sorts
    /// the workspaces of `m` again (`config_refreshed`). Gives whether the
    /// config changed.
    pub fn refresh_workspace_config(&mut self, w: usize, m: usize, cfg: &Vec<WorkspaceConfig>) -> (r: bool)
        requires
            old(self).wf(),
            (w as int) < old(self).len(),
            (m as int) < old(self).len(),
            old(self).is_workspace(w as int),
        ensures
            final(self).wf(),
            config_refreshed(old(self), final(self), w as int, m as int, cfg@, r),
    {
        let ghost t0 = *self;
        let info = match &self.nodes[w].kind {
            ContainerKind::Workspace(info) => info,
            _ => {
                return false;
            },
        };
        let k = config_index(cfg, info.config.name.as_str());
        if k >= cfg.len() {
            return false;
        }
        if workspace_configs_equal(&cfg[k], &info.config) {
            return false;
        }
        let new_info = WorkspaceInfo {
            config: copy_workspace_config(&cfg[k]),
            gaps: info.gaps,
            side_area: info.side_area,
            side_area_width: info.side_area_width,
            side_area_scale_with_dpi: info.side_area_scale_with_dpi,
        };
        self.set_kind(w, ContainerKind::Workspace(new_info));
        let ghost mid = *self;
        self.sort_workspaces(m, cfg);
        proof {
            assert(kind_set(&t0, &mid, w as int, mid.kind(w as int)));
        }
        true
    }
}

/// Refreshes the config of each regular workspace of the monitors among
/// `monitors`, monitor by monitor (`monitor_configs_refreshed`): a
/// workspace whose name the configuration lists takes that entry, and the
/// workspaces of its monitor are sorted again. A workspace whose name the
/// configuration does not list keeps its config.
pub fn update_workspace_configs(tree: &mut ContainerTree, monitors: &Vec<usize>, cfg: &Vec<WorkspaceConfig>)
    requires
        old(tree).wf(),
        forall|k: int| 0 <= k < monitors@.len() ==> (#[trigger] monitors@[k] as int) < old(tree).len(),
    ensures
        final(tree).wf(),
        workspace_configs_updated(old(tree), final(tree), monitors@, cfg@),
{
    let ghost mut trees: Seq<ContainerTree> = seq![*tree];
    let mut i: usize = 0;
    while i < monitors.len()
        invariant
            i <= monitors@.len(),
            tree.wf(),
            tree.len() == old(tree).len(),
            forall|k: int| 0 <= k < monitors@.len() ==> (#[trigger] monitors@[k] as int) < old(tree).len(),
            trees.len() == i + 1,
            trees[0] == *old(tree),
            trees.last() == *tree,
            forall|k: int|
                0 <= k < i ==> #[trigger] monitor_configs_refreshed(&trees[k], &trees[k + 1], monitors@[k] as int, cfg@),
        decreases monitors@.len() - i,
    {
        let m = monitors[i];
        let ghost start = *tree;
        let ws = tree.workspaces(m);
        let ghost mut steps: Seq<ContainerTree> = seq![*tree];
        let mut j: usize = 0;
        proof {
            assert(start.node_wf(m as int));
            assert forall|q: int| 0 <= q < start.ch(m as int).len() implies (#[trigger] start.ch(m as int)[q] as int) < start.len() by {
                assert(start.valid(start.ch(m as int)[q] as int));
            }
        }
        while j < ws.len()
            invariant
                j <= ws@.len(),
                ws@ == regular_workspaces(&start, start.ch(m as int)),
                forall|q: int| 0 <= q < start.ch(m as int).len() ==> (#[trigger] start.ch(m as int)[q] as int) < start.len(),
                (m as int) < tree.len(),
                tree.wf(),
                tree.len() == start.len(),
                start.wf(),
                forall|y: int| 0 <= y < tree.len() ==> (#[trigger] tree.is_workspace(y)) == start.is_workspace(y),
                steps.len() == j + 1,
                steps[0] == start,
                steps.last() == *tree,
                forall|k: int|
                    0 <= k < j ==> #[trigger] config_step(&steps[k], &steps[k + 1], ws@[k] as int, m as int, cfg@),
            decreases ws@.len() - j,
        {
            let w = ws[j];
            proof {
                lemma_regular_in_tree(&start, start.ch(m as int), j as int);
            }
            let ghost before = *tree;
            let r = tree.refresh_workspace_config(w, m, cfg);
            proof {
                assert(config_refreshed(&before, tree, w as int, m as int, cfg@, r));
                assert forall|y: int| 0 <= y < tree.len() implies (#[trigger] tree.is_workspace(y)) == start.is_workspace(y) by {
                    assert(before.is_workspace(y) == start.is_workspace(y));
                    let info = before.workspace_info(w as int);
                    match configured_entry(cfg@, info.config) {
                        Some(e) => if !same_workspace_config(e, info.config) {
                            let mid = choose|mid: ContainerTree|
                                {
                                    &&& kind_set(&before, &mid, w as int, mid.kind(w as int))
                                    &&& mid.kind(w as int) is Workspace
                                    &&& same_workspace_config(mid.workspace_info(w as int).config, e)
                                    &&& mid.workspace_info(w as int).gaps == info.gaps
                                    &&& mid.workspace_info(w as int).side_area == info.side_area
                                    &&& mid.workspace_info(w as int).side_area_width == info.side_area_width
                                    &&& mid.workspace_info(w as int).side_area_scale_with_dpi == info.side_area_scale_with_dpi
                                    &&& workspaces_sorted(&mid, tree, m as int, cfg@)
                                };
                            assert(tree.nodes@[y].kind == mid.nodes@[y].kind);
                            if y != w {
                                assert(mid.nodes@[y].kind == before.nodes@[y].kind);
                            }
                        },
                        None => {},
                    }
                }
                steps = steps.push(*tree);
                assert forall|k: int|
                    0 <= k < j + 1 implies #[trigger] config_step(&steps[k], &steps[k + 1], ws@[k] as int, m as int, cfg@) by {
                    if k == j {
                        assert(steps[k] == before);
                        assert(steps[k + 1] == *tree);
                    } else {
                        assert(steps[k] == steps.drop_last()[k]);
                        assert(steps[k + 1] == steps.drop_last()[k + 1]);
                    }
                }
            }
            j = j + 1;
        }
        proof {
            assert(configs_refreshed(steps, regular_workspaces(&start, start.ch(m as int)), m as int, cfg@));
            assert(monitor_configs_refreshed(&start, tree, m as int, cfg@));
            trees = trees.push(*tree);
            assert forall|k: int| 0 <= k < i + 1 implies #[trigger] monitor_configs_refreshed(&trees[k], &trees[k + 1], monitors@[k] as int, cfg@) by {
                if k < i {
                    assert(trees[k] == trees.drop_last()[k]);
                    assert(trees[k + 1] == trees.drop_last()[k + 1]);
                }
            }
        }
        i = i + 1;
    }
}


/// A reload resets the borders that it turns off: the focused window's
/// border goes back to the system's exactly where the reload turns the
/// focused window's border off, and the other windows' exactly where it
/// turns theirs off, each whatever the other setting is. Windows are all
/// shown where the reload switches hiding to cloaking, and all shown in
/// the taskbar where it turns showing them all there on. Reloading the
/// same configuration resets no border and shows nothing more; every
/// reload runs the rules again, clears the binding modes and announces
/// the configuration.
pub proof fn law_border_resets(old: &ParsedConfig, new: &ParsedConfig)
    ensures
        spec_reload_effects(old, new).show_all_windows == (old.general.hide_method != HideMethod::Cloak
            && new.general.hide_method == HideMethod::Cloak),
        spec_reload_effects(old, new).show_all_in_taskbar == (!old.general.show_all_in_taskbar
            && new.general.show_all_in_taskbar),
        !spec_reload_effects(old, old).show_all_windows,
        !spec_reload_effects(old, old).show_all_in_taskbar,
        spec_reload_effects(old, new).rerun_window_rules,
        spec_reload_effects(old, new).clear_binding_modes,
        spec_reload_effects(old, new).announce_config,
        spec_reload_effects(old, new).run_reload_commands,
        spec_reload_effects(old, new).update_all_effects,
        spec_reload_effects(old, new).reset_focused_border == (old.window_effects.focused_window.border.enabled
            && !new.window_effects.focused_window.border.enabled),
        spec_reload_effects(old, new).reset_other_borders == (old.window_effects.other_windows.border.enabled
            && !new.window_effects.other_windows.border.enabled),
        !spec_reload_effects(old, old).reset_focused_border,
        !spec_reload_effects(old, old).reset_other_borders,
{
}

} // verus!
