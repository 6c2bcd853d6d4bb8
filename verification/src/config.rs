//! The user configuration of the window manager.
use vstd::prelude::*;

use crate::geometry::{LengthValue, RectDelta};
use crate::matching::{
    any_monitor_match, opt_view, spec_match_list_selects, MonitorMatchConfig, WindowMatchConfig,
};

verus! {

/// Identifies one of the persistent side areas on a monitor.
#[derive(Clone, Copy, Debug, PartialEq, Eq, Structural)]
pub enum SideArea {
    Left,
    Right,
}

/// Describes the role of a workspace-like region in the container tree.
#[derive(Clone, Copy, Debug, PartialEq, Eq, Structural)]
pub enum WorkspaceKind {
    /// A regular switchable workspace.
    Workspace,
    /// A persistent monitor-local side area.
    SideArea { side: SideArea },
}

impl WorkspaceKind {
    /// The kind of a regular workspace.
    pub fn default_kind() -> (r: WorkspaceKind)
        ensures
            r == WorkspaceKind::Workspace,
    {
        WorkspaceKind::Workspace
    }
}

/// A key combination, as the names of its keys in order.
#[derive(Clone, Debug)]
pub struct Keybinding {
    pub keys: Vec<String>,
}

/// A command that the window manager can run.
#[derive(Clone, Debug)]
pub struct InvokeCommand {
    /// The command as written in the configuration.
    pub text: String,
}

/// An RGBA color.
#[derive(Clone, Copy, Debug, PartialEq, Eq, Structural)]
pub struct Color {
    pub r: u8,
    pub g: u8,
    pub b: u8,
    pub a: u8,
}

/// Style of window corners.
#[derive(Clone, Copy, Debug, PartialEq, Eq, Structural)]
pub enum CornerStyle {
    Default,
    Square,
    Rounded,
    SmallRounded,
}

/// An opacity in hundredths of a percent (`10000` is fully opaque).
#[derive(Clone, Copy, Debug, PartialEq, Eq, Structural)]
pub struct OpacityValue {
    pub amount: i32,
}

#[derive(Clone, Copy, Debug, PartialEq, Eq, Structural)]
pub struct GapsConfig {
    /// Whether to scale the gaps with the DPI of the monitor.
    pub scale_with_dpi: bool,
    /// Gap between adjacent windows.
    pub inner_gap: LengthValue,
    /// Gap between windows and the screen edge.
    pub outer_gap: RectDelta,
    /// Gap between window and the screen edge if there is only one window
    /// in the workspace.
    pub single_window_outer_gap: Option<RectDelta>,
}

/// The pixel length of zero.
pub open spec fn zero_px() -> LengthValue {
    LengthValue { amount: 0, unit: crate::geometry::LengthUnit::Pixel }
}

/// A delta of zero pixels on every edge.
pub open spec fn zero_delta() -> RectDelta {
    RectDelta { left: zero_px(), top: zero_px(), right: zero_px(), bottom: zero_px() }
}

impl Default for GapsConfig {
    fn default() -> (r: GapsConfig)
        ensures
            r.scale_with_dpi,
            r.inner_gap == zero_px(),
            r.outer_gap == zero_delta(),
            r.single_window_outer_gap is None,
    {
        GapsConfig {
            scale_with_dpi: true,
            inner_gap: LengthValue::from_px(0),
            outer_gap: RectDelta::zero(),
            single_window_outer_gap: None,
        }
    }
}

/// Configures monitor-local areas that stay visible across workspace
/// switches.
#[derive(Clone, Debug)]
pub struct SideAreasConfig {
    /// Whether pixel widths should scale with the monitor DPI.
    pub scale_with_dpi: bool,
    /// Width reserved at the left edge of every monitor.
    pub left: LengthValue,
    /// Width reserved at the right edge of every monitor.
    pub right: LengthValue,
    /// Optional match conditions for monitors where side areas are enabled.
    pub match_monitor: Option<Vec<MonitorMatchConfig>>,
}

/// The view of an optional list of monitor conditions.
pub open spec fn match_list_view(list: Option<Vec<MonitorMatchConfig>>) -> Option<
    Seq<MonitorMatchConfig>,
> {
    match list {
        None => None,
        Some(v) => Some(v@),
    }
}

impl Default for SideAreasConfig {
    fn default() -> (r: SideAreasConfig)
        ensures
            r.scale_with_dpi,
            r.left == zero_px(),
            r.right == zero_px(),
            r.match_monitor is None,
    {
        SideAreasConfig {
            scale_with_dpi: true,
            left: LengthValue::from_px(0),
            right: LengthValue::from_px(0),
            match_monitor: None,
        }
    }
}

impl SideAreasConfig {
    pub open spec fn spec_matches_monitor(
        &self,
        device_name: Seq<char>,
        hardware_id: Option<Seq<char>>,
    ) -> bool {
        spec_match_list_selects(match_list_view(self.match_monitor), device_name, hardware_id)
    }

    /// Whether side areas are enabled for the given monitor properties:
    /// without a condition list on every monitor, otherwise on a monitor
    /// that some entry of the list matches.
    pub fn matches_monitor(&self, device_name: &str, hardware_id: Option<&str>) -> (r: bool)
        ensures
            r == self.spec_matches_monitor(device_name@, opt_view(hardware_id)),
    {
        match &self.match_monitor {
            None => true,
            Some(entries) => any_monitor_match(entries, device_name, hardware_id),
        }
    }

    /// The configured width of one side.
    pub fn width_of(&self, side: SideArea) -> (r: LengthValue)
        ensures
            r == (match side {
                SideArea::Left => self.left,
                SideArea::Right => self.right,
            }),
    {
        match side {
            SideArea::Left => self.left,
            SideArea::Right => self.right,
        }
    }
}

#[derive(Clone, Debug)]
pub struct BindingModeConfig {
    /// Name of the binding mode.
    pub name: String,
    /// Display name of the binding mode.
    pub display_name: Option<String>,
    /// Keybindings that will be active when the binding mode is active.
    pub keybindings: Vec<KeybindingConfig>,
}

#[derive(Clone, Copy, Debug, PartialEq, Eq, Structural)]
pub enum CursorJumpTrigger {
    MonitorFocus,
    WindowFocus,
}

#[derive(Clone, Copy, Debug, PartialEq, Eq, Structural)]
pub struct CursorJumpConfig {
    /// Whether to automatically move the cursor on the specified trigger.
    pub enabled: bool,
    /// Trigger for cursor jump.
    pub trigger: CursorJumpTrigger,
}

impl Default for CursorJumpConfig {
    fn default() -> (r: CursorJumpConfig)
        ensures
            !r.enabled,
            r.trigger == CursorJumpTrigger::MonitorFocus,
    {
        CursorJumpConfig { enabled: false, trigger: CursorJumpTrigger::MonitorFocus }
    }
}

#[derive(Clone, Copy, Debug, PartialEq, Eq, Structural)]
pub enum HideMethod {
    Hide,
    Cloak,
    PlaceInCorner,
}

#[derive(Clone, Debug)]
pub struct GeneralConfig {
    /// Config for automatically moving the cursor.
    pub cursor_jump: CursorJumpConfig,
    /// Whether to automatically focus windows underneath the cursor.
    pub focus_follows_cursor: bool,
    /// Whether to switch back and forth between the previously focused
    /// workspace when focusing the current workspace.
    pub toggle_workspace_on_refocus: bool,
    /// Commands to run when the WM has started.
    pub startup_commands: Vec<InvokeCommand>,
    /// Commands to run just before the WM is shutdown.
    pub shutdown_commands: Vec<InvokeCommand>,
    /// Commands to run after the WM config has reloaded.
    pub config_reload_commands: Vec<InvokeCommand>,
    /// How windows should be hidden when switching workspaces.
    pub hide_method: HideMethod,
    /// Affects which windows get shown in the native taskbar.
    pub show_all_in_taskbar: bool,
}

impl Default for GeneralConfig {
    fn default() -> (r: GeneralConfig)
        ensures
            !r.cursor_jump.enabled,
            r.cursor_jump.trigger == CursorJumpTrigger::MonitorFocus,
            !r.focus_follows_cursor,
            r.toggle_workspace_on_refocus,
            r.startup_commands@.len() == 0,
            r.shutdown_commands@.len() == 0,
            r.config_reload_commands@.len() == 0,
            r.hide_method == HideMethod::Cloak,
            !r.show_all_in_taskbar,
    {
        GeneralConfig {
            cursor_jump: CursorJumpConfig::default(),
            focus_follows_cursor: false,
            toggle_workspace_on_refocus: true,
            startup_commands: Vec::new(),
            shutdown_commands: Vec::new(),
            config_reload_commands: Vec::new(),
            hide_method: HideMethod::Cloak,
            show_all_in_taskbar: false,
        }
    }
}

#[derive(Clone, Debug)]
pub struct KeybindingConfig {
    /// Keyboard shortcuts that trigger the keybinding.
    pub bindings: Vec<Keybinding>,
    /// WM commands to run when the keybinding is triggered.
    pub commands: Vec<InvokeCommand>,
}

#[derive(Clone, Copy, Debug, PartialEq, Eq, Structural)]
pub enum InitialWindowState {
    Tiling,
    Floating,
}

#[derive(Clone, Copy, Debug, PartialEq, Eq, Structural)]
pub struct FloatingStateConfig {
    /// Whether to center new floating windows.
    pub centered: bool,
    /// Whether to show floating windows as always on top.
    pub shown_on_top: bool,
}

impl Default for FloatingStateConfig {
    fn default() -> (r: FloatingStateConfig)
        ensures
            r.centered,
            !r.shown_on_top,
    {
        FloatingStateConfig { centered: true, shown_on_top: false }
    }
}

#[derive(Clone, Copy, Debug, PartialEq, Eq, Structural)]
pub struct FullscreenStateConfig {
    /// Whether to prefer fullscreen windows to be maximized.
    pub maximized: bool,
    /// Whether to show fullscreen windows as always on top.
    pub shown_on_top: bool,
}

impl Default for FullscreenStateConfig {
    fn default() -> (r: FullscreenStateConfig)
        ensures
            r.maximized,
            !r.shown_on_top,
    {
        FullscreenStateConfig { maximized: true, shown_on_top: false }
    }
}

#[derive(Clone, Copy, Debug, PartialEq, Eq, Structural)]
pub struct WindowStateDefaultsConfig {
    pub floating: FloatingStateConfig,
    pub fullscreen: FullscreenStateConfig,
}

#[derive(Clone, Copy, Debug, PartialEq, Eq, Structural)]
pub struct WindowBehaviorConfig {
    /// New windows are created in this state whenever possible.
    pub initial_state: InitialWindowState,
    /// Default options for state changes.
    pub state_defaults: WindowStateDefaultsConfig,
}

#[derive(Clone, Copy, Debug, PartialEq, Eq, Structural)]
pub struct BorderEffectConfig {
    /// Whether to enable the effect.
    pub enabled: bool,
    /// Color of the window border.
    pub color: Color,
}

impl Default for BorderEffectConfig {
    fn default() -> (r: BorderEffectConfig)
        ensures
            !r.enabled,
            r.color == (Color { r: 140, g: 190, b: 255, a: 255 }),
    {
        BorderEffectConfig { enabled: false, color: Color { r: 140, g: 190, b: 255, a: 255 } }
    }
}

#[derive(Clone, Copy, Debug, PartialEq, Eq, Structural)]
pub struct HideTitleBarEffectConfig {
    /// Whether to enable the effect.
    pub enabled: bool,
}

#[derive(Clone, Copy, Debug, PartialEq, Eq, Structural)]
pub struct CornerEffectConfig {
    /// Whether to enable the effect.
    pub enabled: bool,
    /// Style of the window corners.
    pub style: CornerStyle,
}

#[derive(Clone, Copy, Debug, PartialEq, Eq, Structural)]
pub struct TransparencyEffectConfig {
    /// Whether to enable the effect.
    pub enabled: bool,
    /// The opacity to apply.
    pub opacity: OpacityValue,
}

#[derive(Clone, Copy, Debug, PartialEq, Eq, Structural)]
pub struct WindowEffectConfig {
    pub border: BorderEffectConfig,
    pub hide_title_bar: HideTitleBarEffectConfig,
    pub corner_style: CornerEffectConfig,
    pub transparency: TransparencyEffectConfig,
}

#[derive(Clone, Copy, Debug, PartialEq, Eq, Structural)]
pub struct WindowEffectsConfig {
    /// Visual effects to apply to the focused window.
    pub focused_window: WindowEffectConfig,
    /// Visual effects to apply to non-focused windows.
    pub other_windows: WindowEffectConfig,
}

#[derive(Clone, Copy, Debug, PartialEq, Eq, Structural)]
pub enum WindowRuleEvent {
    /// When a window receives native focus.
    Focus,
    /// When a window is initially managed.
    Manage,
    /// When the title of a window changes.
    TitleChange,
}

#[derive(Clone, Debug)]
pub struct WindowRuleConfig {
    pub commands: Vec<InvokeCommand>,
    pub match_window: Vec<WindowMatchConfig>,
    pub on: Vec<WindowRuleEvent>,
    pub run_once: bool,
}

#[derive(Clone, Debug)]
pub struct WorkspaceConfig {
    pub name: String,
    pub display_name: Option<String>,
    pub bind_to_monitor: Option<u32>,
    pub keep_alive: bool,
}

#[derive(Clone, Debug)]
pub struct ParsedConfig {
    pub binding_modes: Vec<BindingModeConfig>,
    pub gaps: GapsConfig,
    pub general: GeneralConfig,
    pub keybindings: Vec<KeybindingConfig>,
    pub side_areas: SideAreasConfig,
    pub window_behavior: WindowBehaviorConfig,
    pub window_effects: WindowEffectsConfig,
    pub window_rules: Vec<WindowRuleConfig>,
    pub workspaces: Vec<WorkspaceConfig>,
}

/// The value of a boolean field that is left out of the config.
pub fn default_bool<const V: bool>() -> (r: bool)
    ensures
        r == V,
{
    V
}

/// The events a window rule runs on when none are given.
pub fn default_window_rule_on() -> (r: Vec<WindowRuleEvent>)
    ensures
        r@ == seq![WindowRuleEvent::Manage, WindowRuleEvent::TitleChange],
{
    let mut v: Vec<WindowRuleEvent> = Vec::new();
    v.push(WindowRuleEvent::Manage);
    v.push(WindowRuleEvent::TitleChange);
    v
}

} // verus!
