//! The rectangles of workspaces and side areas on their monitors, and the
//! tab bar of tabbed containers.
use vstd::prelude::*;

use crate::attach::TreeError;
use crate::config::{zero_delta, GapsConfig, SideArea};
use crate::focus::push_reversed;
use crate::geometry::{clamp_i32, sat_add, sat_sub, LengthValue, Rect, RectDelta, UNIT_SCALE};
use crate::focus_direction::lemma_first_such_member;
use crate::monitors::{monitor_of, spec_side_area};
use crate::tree::{ContainerKind, ContainerTree, MonitorInfo, WorkspaceInfo};

verus! {

/// Height reserved above tabbed content for the tab bar, unscaled.
pub const TAB_BAR_HEIGHT: i32 = 24;

/// The largest scale factor, as an integer percentage, that a monitor
/// reports.
pub const MAX_SCALE_FACTOR: u32 = 100_000;

impl ContainerTree {
    /// The properties of a monitor.
    pub open spec fn monitor_info(&self, m: int) -> MonitorInfo {
        match self.kind(m) {
            ContainerKind::Monitor(info) => info,
            _ => arbitrary(),
        }
    }

    /// The properties of a workspace or side area.
    pub open spec fn workspace_info(&self, w: int) -> WorkspaceInfo {
        match self.kind(w) {
            ContainerKind::Workspace(info) => info,
            _ => arbitrary(),
        }
    }

    fn monitor_props(&self, m: usize) -> (r: &MonitorInfo)
        requires
            (m as int) < self.len(),
            self.is_monitor(m as int),
        ensures
            *r == self.monitor_info(m as int),
    {
        match &self.nodes[m].kind {
            ContainerKind::Monitor(info) => info,
            _ => vstd::pervasive::unreached(),
        }
    }

    fn workspace_props(&self, w: usize) -> (r: &WorkspaceInfo)
        requires
            (w as int) < self.len(),
            self.is_workspace(w as int),
        ensures
            *r == self.workspace_info(w as int),
    {
        match &self.nodes[w].kind {
            ContainerKind::Workspace(info) => info,
            _ => vstd::pervasive::unreached(),
        }
    }
}

/// The rectangle of workspace `w` on monitor `m`: for a side area, its
/// strip of the shared side area bounds at its resolved width; for a
/// regular workspace, the monitor's bounds with the workspace's outer
/// gaps, less the widths of the side areas.
pub open spec fn spec_workspace_rect(t: &ContainerTree, w: int, m: int) -> Rect {
    match t.side_of(w) {
        None => inset_sides(
            monitor_rect_with_gaps(t.monitor_info(m), t.workspace_info(w).gaps.scale_with_dpi, spec_outer_gaps(t, w)),
            resolved_width(t, m, SideArea::Left),
            resolved_width(t, m, SideArea::Right),
        ),
        Some(side) => side_area_rect(
            side_area_bounds_of(t.monitor_info(m), t.workspace_info(w).gaps),
            side,
            resolved_width(t, m, side) as i32,
        ),
    }
}

/// The bounds of monitor `m` less the outer gaps `outer` (scaled by the
/// monitor's scale factor where `scale_gaps`), then less what the
/// monitor's working area leaves out of its bounds.
pub open spec fn monitor_rect_with_gaps(info: MonitorInfo, scale_gaps: bool, outer: RectDelta) -> Rect {
    let scale = if scale_gaps { info.scale_factor } else { UNIT_SCALE };
    info.bounds.spec_apply_delta(&outer.spec_inverse(), Some(scale)).spec_apply_delta(
        &info.working_area.spec_delta(&info.bounds),
        None,
    )
}

/// The padded monitor bounds that both side areas share, for a side area
/// with gaps `gaps` on a monitor with properties `info`.
pub open spec fn side_area_bounds_of(info: MonitorInfo, gaps: GapsConfig) -> Rect {
    monitor_rect_with_gaps(info, gaps.scale_with_dpi, gaps.outer_gap)
}

/// A side area's configured width resolved against the width it may use:
/// its length in pixels, kept between zero and that width.
pub open spec fn configured_width(info: MonitorInfo, ws: WorkspaceInfo) -> i32 {
    let avail = side_area_bounds_of(info, ws.gaps).spec_width();
    let avail0: i32 = if avail < 0 { 0 } else { avail };
    let px = ws.side_area_width.spec_to_px(
        avail0,
        if ws.side_area_scale_with_dpi { Some(info.scale_factor) } else { None },
    );
    let px0: i32 = if px < 0 { 0 } else { px };
    if px0 > avail0 { avail0 } else { px0 }
}

/// The widths of the two side areas, `left` and `right` as configured,
/// fitted into `avail`: unchanged when they fit (or are both zero), else
/// shared out in proportion, the right one taking what the left leaves.
pub open spec fn fitted_widths(left: int, right: int, avail: int) -> (int, int) {
    let total = left + right;
    if total <= avail || total == 0 {
        (left, right)
    } else {
        let scaled_left = left * avail / total;
        (scaled_left, avail - scaled_left)
    }
}

/// The width available to the side areas of monitor `m`: that of the
/// bounds of its left side area, else of its right one, else of its
/// working area.
pub open spec fn side_areas_avail(t: &ContainerTree, m: int) -> int {
    let a = match spec_side_area(t, m, SideArea::Left) {
        Some(l) => Some(l),
        None => spec_side_area(t, m, SideArea::Right),
    };
    let w = match a {
        None => t.monitor_info(m).working_area.spec_width(),
        Some(x) => side_area_bounds_of(t.monitor_info(m), t.workspace_info(x as int).gaps).spec_width(),
    };
    if w < 0 { 0 } else { w as int }
}

/// The configured width of the side area of monitor `m` on `side`, or
/// zero where it has none.
pub open spec fn side_configured(t: &ContainerTree, m: int, side: SideArea) -> int {
    match spec_side_area(t, m, side) {
        None => 0,
        Some(x) => configured_width(t.monitor_info(m), t.workspace_info(x as int)) as int,
    }
}

/// The width that the side area of monitor `m` on `side` takes.
pub open spec fn resolved_width(t: &ContainerTree, m: int, side: SideArea) -> int {
    let w = fitted_widths(side_configured(t, m, SideArea::Left), side_configured(t, m, SideArea::Right), side_areas_avail(t, m));
    match side {
        SideArea::Left => w.0,
        SideArea::Right => w.1,
    }
}

/// The side areas never overlap: the widths that `fitted_widths` gives to
/// two nonnegative configured widths are nonnegative and together fit
/// into the available width, and widths that already fit are kept.
pub proof fn law_side_areas_fit(left: int, right: int, avail: int)
    requires
        0 <= left,
        0 <= right,
        0 <= avail,
    ensures
        fitted_widths(left, right, avail).0 >= 0,
        fitted_widths(left, right, avail).1 >= 0,
        fitted_widths(left, right, avail).0 + fitted_widths(left, right, avail).1 <= avail,
        left + right <= avail ==> fitted_widths(left, right, avail) == (left, right),
{
    let total = left + right;
    if !(total <= avail || total == 0) {
        assert(left * avail / total <= avail) by (nonlinear_arith)
            requires
                0 <= left <= total,
                total > 0,
                avail >= 0,
        {
            assert(left * avail <= total * avail);
        }
        assert(left * avail / total >= 0) by (nonlinear_arith)
            requires
                0 <= left,
                total > 0,
                avail >= 0,
        ;
    }
}

impl ContainerTree {
    /// The bounds of the monitor of workspace `w` less outer gaps `outer`
    /// and the space outside the monitor's working area.
    pub fn monitor_rect_with_gap_config(&self, w: usize, outer: &RectDelta) -> (r: Result<Rect, TreeError>)
        requires
            self.wf(),
            (w as int) < self.len(),
            self.is_workspace(w as int),
        ensures
            match monitor_of(self, w as int, self.len()) {
                None => r == Err::<Rect, TreeError>(TreeError::NoMonitor),
                Some(m) => r == Ok::<Rect, TreeError>(
                    monitor_rect_with_gaps(self.monitor_info(m as int), self.workspace_info(w as int).gaps.scale_with_dpi, *outer),
                ),
            },
    {
        let m = match self.monitor(w) {
            None => {
                return Err(TreeError::NoMonitor);
            },
            Some(m) => m,
        };
        let info = self.monitor_props(m);
        let ws = self.workspace_props(w);
        let scale = if ws.gaps.scale_with_dpi {
            info.scale_factor
        } else {
            UNIT_SCALE
        };
        let wad = info.working_area.delta(&info.bounds);
        let inv = outer.inverse();
        Ok(info.bounds.apply_delta(&inv, Some(scale)).apply_delta(&wad, None))
    }

    /// The padded monitor bounds shared by both side areas.
    pub fn side_area_bounds(&self, w: usize) -> (r: Result<Rect, TreeError>)
        requires
            self.wf(),
            (w as int) < self.len(),
            self.is_workspace(w as int),
        ensures
            match monitor_of(self, w as int, self.len()) {
                None => r == Err::<Rect, TreeError>(TreeError::NoMonitor),
                Some(m) => r == Ok::<Rect, TreeError>(
                    side_area_bounds_of(self.monitor_info(m as int), self.workspace_info(w as int).gaps),
                ),
            },
    {
        let ws = self.workspace_props(w);
        let outer = ws.gaps.outer_gap;
        self.monitor_rect_with_gap_config(w, &outer)
    }

    /// The configured width of side area `w` resolved for its monitor.
    pub fn configured_side_area_width(&self, w: usize) -> (r: Result<i32, TreeError>)
        requires
            self.wf(),
            (w as int) < self.len(),
            self.is_workspace(w as int),
        ensures
            match monitor_of(self, w as int, self.len()) {
                None => r == Err::<i32, TreeError>(TreeError::NoMonitor),
                Some(m) => r == Ok::<i32, TreeError>(configured_width(self.monitor_info(m as int), self.workspace_info(w as int))),
            },
    {
        let m = match self.monitor(w) {
            None => {
                return Err(TreeError::NoMonitor);
            },
            Some(m) => m,
        };
        let info = self.monitor_props(m);
        let ws = self.workspace_props(w);
        let scale = if ws.side_area_scale_with_dpi {
            Some(info.scale_factor)
        } else {
            None
        };
        let bounds = match self.side_area_bounds(w) {
            Ok(b) => b,
            Err(e) => {
                return Err(e);
            },
        };
        let avail = bounds.width();
        let avail0: i32 = if avail < 0 {
            0
        } else {
            avail
        };
        let px = ws.side_area_width.to_px(avail0, scale);
        let px0: i32 = if px < 0 {
            0
        } else {
            px
        };
        Ok(if px0 > avail0 {
            avail0
        } else {
            px0
        })
    }

    /// The width that the side area of monitor `m` on `side` takes, its
    /// configured width fitted so that the two side areas never overlap.
    pub fn resolved_side_area_width(&self, m: usize, side: SideArea) -> (r: Result<i32, TreeError>)
        requires
            self.wf(),
            (m as int) < self.len(),
            self.is_monitor(m as int),
        ensures
            r matches Ok(v) && v as int == resolved_width(self, m as int, side),
    {
        let left_area = self.side_area(m, SideArea::Left);
        let right_area = self.side_area(m, SideArea::Right);
        let info = self.monitor_props(m);
        proof {
            let fl = |x: usize| self.is_workspace(x as int) && self.side_of(x as int) == Some(SideArea::Left);
            let fr = |x: usize| self.is_workspace(x as int) && self.side_of(x as int) == Some(SideArea::Right);
            lemma_first_such_member(self.ch(m as int), fl);
            lemma_first_such_member(self.ch(m as int), fr);
            if let Some(x) = left_area {
                self.lemma_child_monitor(m, x);
            }
            if let Some(x) = right_area {
                self.lemma_child_monitor(m, x);
            }
        }
        let first = match left_area {
            Some(l) => Some(l),
            None => right_area,
        };
        let w = match first {
            None => info.working_area.width(),
            Some(x) => match self.side_area_bounds(x) {
                Ok(b) => b.width(),
                Err(_) => 0,
            },
        };
        let avail: i32 = if w < 0 {
            0
        } else {
            w
        };
        let left: i32 = match left_area {
            None => 0,
            Some(x) => match self.configured_side_area_width(x) {
                Ok(v) => v,
                Err(_) => 0,
            },
        };
        let right: i32 = match right_area {
            None => 0,
            Some(x) => match self.configured_side_area_width(x) {
                Ok(v) => v,
                Err(_) => 0,
            },
        };
        proof {
            assert(0 <= left && 0 <= right);
        }
        let total: i64 = left as i64 + right as i64;
        if total <= avail as i64 || total == 0 {
            return Ok(match side {
                SideArea::Left => left,
                SideArea::Right => right,
            });
        }
        proof {
            assert((left as int) * (avail as int) <= (total as int) * (avail as int)) by (nonlinear_arith)
                requires
                    0 <= left <= total,
                    avail >= 0,
            ;
            assert((left as int) * (avail as int) / (total as int) <= avail as int) by (nonlinear_arith)
                requires
                    0 <= left <= total,
                    total > 0,
                    avail >= 0,
            ;
            assert((left as int) * (avail as int) / (total as int) >= 0) by (nonlinear_arith)
                requires
                    0 <= left,
                    total > 0,
                    avail >= 0,
            ;
            assert((left as int) * (avail as int) <= 0x7fff_ffff * 0x7fff_ffff) by (nonlinear_arith)
                requires
                    0 <= left <= 0x7fff_ffff,
                    0 <= avail <= 0x7fff_ffff,
            ;
        }
        let scaled_left: i64 = (left as i64 * avail as i64) / total;
        let scaled_left: i32 = scaled_left as i32;
        Ok(match side {
            SideArea::Left => scaled_left,
            SideArea::Right => avail - scaled_left,
        })
    }
}

impl ContainerTree {
    /// A child of a monitor has that monitor as its nearest monitor.
    pub(crate) proof fn lemma_child_monitor(&self, m: usize, x: usize)
        requires
            self.wf(),
            (m as int) < self.len(),
            self.is_monitor(m as int),
            self.ch(m as int).contains(x),
            !self.is_monitor(x as int),
        ensures
            monitor_of(self, x as int, self.len()) == Some(m),
    {
        assert(self.node_wf(m as int));
        let k = choose|k: int| 0 <= k < self.ch(m as int).len() && self.ch(m as int)[k] == x;
        assert(self.parent_of(self.ch(m as int)[k] as int) == Some(m));
        assert(self.len() > 0);
        assert(monitor_of(self, m as int, (self.len() - 1) as nat) == Some(m));
    }
}

/// The number of tiling windows met in a walk over `stack` (top last) and
/// the descendants of what it holds, visiting at most `fuel` containers.
pub open spec fn tiling_window_count(t: &ContainerTree, stack: Seq<usize>, fuel: nat) -> nat
    decreases fuel,
{
    if fuel == 0 || stack.len() == 0 {
        0
    } else {
        let x = stack.last();
        (if t.is_tiling_window(x as int) { 1nat } else { 0nat }) + tiling_window_count(
            t,
            push_reversed(stack.drop_last(), t.ch(x as int)),
            (fuel - 1) as nat,
        )
    }
}

/// The outer gaps of workspace `w`: none for a side area; for a workspace
/// with at most one tiling window its single-window gaps where set; else
/// its outer gaps.
pub open spec fn spec_outer_gaps(t: &ContainerTree, w: int) -> RectDelta {
    let g = t.workspace_info(w).gaps;
    if t.is_side_area(w) {
        zero_delta()
    } else if tiling_window_count(t, push_reversed(Seq::empty(), t.ch(w)), t.len()) < 2 {
        match g.single_window_outer_gap {
            Some(s) => s,
            None => g.outer_gap,
        }
    } else {
        g.outer_gap
    }
}

/// `r` with its left edge moved right by `left` and its right edge moved
/// left by `right`, the right edge kept no further left than the left one.
pub open spec fn inset_sides(r: Rect, left: int, right: int) -> Rect {
    let l = clamp_i32(r.left + left);
    let rr = clamp_i32(r.right - right);
    Rect { left: l, top: r.top, right: if rr < l { l } else { rr }, bottom: r.bottom }
}

/// The rectangle of side area `w` on side `side` within the shared side
/// area bounds `b`, `width` wide.
pub open spec fn side_area_rect(b: Rect, side: SideArea, width: i32) -> Rect {
    match side {
        SideArea::Left => Rect::spec_from_xy(b.left, b.top, width, b.spec_height()),
        SideArea::Right => Rect::spec_from_xy(clamp_i32(b.right - width), b.top, width, b.spec_height()),
    }
}

/// The height of the tab bar at scale factor `scale` (an integer
/// percentage), rounded to the nearest pixel.
pub open spec fn tab_bar_height_at(scale: u32) -> i32 {
    ((TAB_BAR_HEIGHT * scale + 50) / 100) as i32
}

/// The part of a tabbed container's rectangle `r` below its tab bar of
/// height `h`, the bar taking no more than the rectangle's height.
pub open spec fn spec_content_rect(r: Rect, h: i32) -> Rect {
    let height = r.spec_height();
    let h0: i32 = if height < 0 { 0 } else { height };
    let bar: i32 = if h < h0 { h } else { h0 };
    Rect::spec_from_xy(r.left, clamp_i32(r.top + bar), r.spec_width(), clamp_i32(height - bar))
}

impl ContainerTree {
    /// The number of tiling windows among the descendants of `w`, counted
    /// up to two.
    fn count_tiling_windows(&self, w: usize) -> (r: usize)
        requires
            self.wf(),
            (w as int) < self.len(),
        ensures
            (r < 2) == (tiling_window_count(self, push_reversed(Seq::empty(), self.ch(w as int)), self.len()) < 2),
    {
        let mut stack: Vec<usize> = Vec::new();
        self.push_children_reversed(&mut stack, w);
        proof {
            assert(stack@ =~= push_reversed(Seq::empty(), self.ch(w as int)));
        }
        let n = self.nodes.len();
        let mut fuel = n;
        let mut count: usize = 0;
        while fuel > 0 && stack.len() > 0 && count < 2
            invariant
                self.wf(),
                fuel <= n,
                n == self.len(),
                count <= 2,
                forall|j: int| 0 <= j < stack@.len() ==> (#[trigger] stack@[j] as int) < self.len(),
                count + tiling_window_count(self, stack@, fuel as nat) == tiling_window_count(
                    self,
                    push_reversed(Seq::empty(), self.ch(w as int)),
                    n as nat,
                ),
            decreases fuel,
        {
            let ghost before = stack@;
            let x = stack.pop().unwrap();
            proof {
                assert(x == before.last());
                assert(stack@ =~= before.drop_last());
            }
            if self.tiling_window(x) {
                count = count + 1;
            }
            self.push_children_reversed(&mut stack, x);
            fuel = fuel - 1;
        }
        count
    }

    /// Pushes the children of `x` onto `stack`, last to first.
    fn push_children_reversed(&self, stack: &mut Vec<usize>, x: usize)
        requires
            self.wf(),
            (x as int) < self.len(),
            forall|j: int| 0 <= j < old(stack)@.len() ==> (#[trigger] old(stack)@[j] as int) < self.len(),
        ensures
            final(stack)@ == push_reversed(old(stack)@, self.ch(x as int)),
            forall|j: int| 0 <= j < final(stack)@.len() ==> (#[trigger] final(stack)@[j] as int) < self.len(),
    {
        let ghost s = self.ch(x as int);
        let ghost base = old(stack)@;
        proof {
            assert(self.node_wf(x as int));
        }
        let len = self.nodes[x].children.len();
        let mut j: usize = 0;
        while j < len
            invariant
                self.wf(),
                (x as int) < self.len(),
                s == self.ch(x as int),
                len == s.len(),
                j <= len,
                stack@ == base + Seq::new(j as nat, |q: int| s[s.len() - 1 - q]),
                forall|q: int| 0 <= q < base.len() ==> (#[trigger] base[q] as int) < self.len(),
            decreases len - j,
        {
            let y = self.nodes[x].children[len - 1 - j];
            stack.push(y);
            j = j + 1;
            proof {
                assert(stack@ =~= base + Seq::new(j as nat, |q: int| s[s.len() - 1 - q]));
            }
        }
        proof {
            assert(Seq::new(len as nat, |q: int| s[s.len() - 1 - q]) =~= Seq::new(s.len(), |q: int| s[s.len() - 1 - q]));
            assert forall|q: int| 0 <= q < stack@.len() implies (#[trigger] stack@[q] as int) < self.len() by {
                if q >= base.len() {
                    let r = s.len() - 1 - (q - base.len());
                    assert(self.node_wf(x as int));
                    assert(self.valid(s[r] as int));
                }
            }
        }
    }

    /// The effective outer gaps of workspace `w`.
    pub fn outer_gaps(&self, w: usize) -> (r: RectDelta)
        requires
            self.wf(),
            (w as int) < self.len(),
            self.is_workspace(w as int),
        ensures
            r == spec_outer_gaps(self, w as int),
    {
        let ws = self.workspace_props(w);
        if ws.side_area.is_some() {
            return RectDelta::zero();
        }
        if self.count_tiling_windows(w) < 2 {
            match ws.gaps.single_window_outer_gap {
                Some(s) => s,
                None => ws.gaps.outer_gap,
            }
        } else {
            ws.gaps.outer_gap
        }
    }

    /// The bounds of regular workspace `w` with outer gaps `outer`, less
    /// the widths that its monitor's side areas take.
    pub fn workspace_rect_with_gap_config(&self, w: usize, outer: &RectDelta) -> (r: Result<Rect, TreeError>)
        requires
            self.wf(),
            (w as int) < self.len(),
            self.is_workspace(w as int),
        ensures
            match monitor_of(self, w as int, self.len()) {
                None => r == Err::<Rect, TreeError>(TreeError::NoMonitor),
                Some(m) => r == Ok::<Rect, TreeError>(inset_sides(
                    monitor_rect_with_gaps(self.monitor_info(m as int), self.workspace_info(w as int).gaps.scale_with_dpi, *outer),
                    resolved_width(self, m as int, SideArea::Left),
                    resolved_width(self, m as int, SideArea::Right),
                )),
            },
    {
        let m = match self.monitor(w) {
            None => {
                return Err(TreeError::NoMonitor);
            },
            Some(m) => m,
        };
        let rect = match self.monitor_rect_with_gap_config(w, outer) {
            Ok(r) => r,
            Err(e) => {
                return Err(e);
            },
        };
        let left = match self.resolved_side_area_width(m, SideArea::Left) {
            Ok(v) => v,
            Err(e) => {
                return Err(e);
            },
        };
        let right = match self.resolved_side_area_width(m, SideArea::Right) {
            Ok(v) => v,
            Err(e) => {
                return Err(e);
            },
        };
        let l = sat_add(rect.left, left);
        let rr = sat_sub(rect.right, right);
        Ok(Rect { left: l, top: rect.top, right: if rr < l {
            l
        } else {
            rr
        }, bottom: rect.bottom })
    }

    /// The rectangle of workspace `w`: for a side area, its strip of the
    /// shared side area bounds at its resolved width; for a regular
    /// workspace, its bounds with its effective outer gaps.
    pub fn workspace_rect(&self, w: usize) -> (r: Result<Rect, TreeError>)
        requires
            self.wf(),
            (w as int) < self.len(),
            self.is_workspace(w as int),
        ensures
            match monitor_of(self, w as int, self.len()) {
                None => r == Err::<Rect, TreeError>(TreeError::NoMonitor),
                Some(m) => r == Ok::<Rect, TreeError>(spec_workspace_rect(self, w as int, m as int)),
            },
    {
        let side = match self.side(w) {
            None => {
                let g = self.outer_gaps(w);
                return self.workspace_rect_with_gap_config(w, &g);
            },
            Some(side) => side,
        };
        let m = match self.monitor(w) {
            None => {
                return Err(TreeError::NoMonitor);
            },
            Some(m) => m,
        };
        let b = match self.side_area_bounds(w) {
            Ok(b) => b,
            Err(e) => {
                return Err(e);
            },
        };
        let width = match self.resolved_side_area_width(m, side) {
            Ok(v) => v,
            Err(e) => {
                return Err(e);
            },
        };
        let h = b.height();
        Ok(match side {
            SideArea::Left => Rect::from_xy(b.left, b.top, width, h),
            SideArea::Right => Rect::from_xy(sat_sub(b.right, width), b.top, width, h),
        })
    }

    /// The largest rectangle regular workspace `w` can take, under either
    /// its outer gaps or its single-window outer gaps; a side area's own
    /// rectangle.
    pub fn max_workspace_rect(&self, w: usize) -> (r: Result<Rect, TreeError>)
        requires
            self.wf(),
            (w as int) < self.len(),
            self.is_workspace(w as int),
        ensures
            self.is_side_area(w as int) ==> (monitor_of(self, w as int, self.len()) is None <==> r is Err),
            !self.is_side_area(w as int) ==> match monitor_of(self, w as int, self.len()) {
                None => r == Err::<Rect, TreeError>(TreeError::NoMonitor),
                Some(m) => {
                    let g = self.workspace_info(w as int).gaps;
                    let multi = inset_sides(
                        monitor_rect_with_gaps(self.monitor_info(m as int), g.scale_with_dpi, g.outer_gap),
                        resolved_width(self, m as int, SideArea::Left),
                        resolved_width(self, m as int, SideArea::Right),
                    );
                    r == Ok::<Rect, TreeError>(match g.single_window_outer_gap {
                        None => multi,
                        Some(s) => multi.spec_union(&inset_sides(
                            monitor_rect_with_gaps(self.monitor_info(m as int), g.scale_with_dpi, s),
                            resolved_width(self, m as int, SideArea::Left),
                            resolved_width(self, m as int, SideArea::Right),
                        )),
                    })
                },
            },
    {
        if self.side(w).is_some() {
            return self.workspace_rect(w);
        }
        let ws = self.workspace_props(w);
        let outer = ws.gaps.outer_gap;
        let multi = match self.workspace_rect_with_gap_config(w, &outer) {
            Ok(r) => r,
            Err(e) => {
                return Err(e);
            },
        };
        match ws.gaps.single_window_outer_gap {
            None => Ok(multi),
            Some(s) => match self.workspace_rect_with_gap_config(w, &s) {
                Ok(single) => Ok(multi.union(&single)),
                Err(e) => Err(e),
            },
        }
    }

    /// The height of the tab bar of tabbed container `tb`, scaled by the
    /// scale factor of its monitor (unscaled without one).
    pub fn tab_bar_height(&self, tb: usize) -> (r: i32)
        requires
            self.wf(),
            (tb as int) < self.len(),
        ensures
            r == tab_bar_height_at(match monitor_of(self, tb as int, self.len()) {
                Some(m) => if self.monitor_info(m as int).scale_factor <= MAX_SCALE_FACTOR {
                    self.monitor_info(m as int).scale_factor
                } else {
                    MAX_SCALE_FACTOR
                },
                None => UNIT_SCALE,
            }),
    {
        let scale: u32 = match self.monitor(tb) {
            Some(m) => {
                let s = self.monitor_props(m).scale_factor;
                if s <= MAX_SCALE_FACTOR {
                    s
                } else {
                    MAX_SCALE_FACTOR
                }
            },
            None => UNIT_SCALE,
        };
        let base: u32 = 24;
        proof {
            assert(base == TAB_BAR_HEIGHT);
        }
        ((base * scale + 50) / 100) as i32
    }
}

/// The part of a tabbed container's rectangle `r` below its tab bar of
/// height `tab_bar_height`.
pub fn content_rect(r: &Rect, tab_bar_height: i32) -> (c: Rect)
    ensures
        c == spec_content_rect(*r, tab_bar_height),
{
    let height = r.height();
    let h0: i32 = if height < 0 {
        0
    } else {
        height
    };
    let bar: i32 = if tab_bar_height < h0 {
        tab_bar_height
    } else {
        h0
    };
    Rect::from_xy(r.left, sat_add(r.top, bar), r.width(), sat_sub(height, bar))
}


/// Fitting the two side areas into the width they share: where their
/// configured widths fit (or are both zero) they are kept; otherwise the
/// two widths fill the room exactly, each side keeping its share of it in
/// proportion to its configured width, the left one rounded down.
pub proof fn law_side_area_widths_fit(left: int, right: int, avail: int)
    requires
        left >= 0,
        right >= 0,
        avail >= 0,
    ensures
        left + right <= avail || left + right == 0 ==> fitted_widths(left, right, avail) == (left, right),
        left + right > avail && left + right > 0 ==> {
            let (l, r) = fitted_widths(left, right, avail);
            &&& l + r == avail
            &&& 0 <= l <= left
            &&& 0 <= r
            &&& l * (left + right) <= left * avail
            &&& left * avail < (l + 1) * (left + right)
        },
{
    if left + right > avail && left + right > 0 {
        let total = left + right;
        let l = left * avail / total;
        assert(l * total <= left * avail && left * avail < (l + 1) * total) by (nonlinear_arith)
            requires
                l == left * avail / total,
                total > 0,
                left >= 0,
                avail >= 0,
        ;
        assert(0 <= l <= left && l <= avail) by (nonlinear_arith)
            requires
                l == left * avail / total,
                total > 0,
                0 <= left <= total,
                0 <= avail < total,
        ;
    }
}

} // verus!
