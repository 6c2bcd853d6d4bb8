//! Moving containers within the tree, and moving windows into the side
//! areas of their monitor.
use vstd::prelude::*;
use vstd::string::*;

use crate::areas::spec_outer_gaps;
use crate::attach::{attach_outcome, detach_outcome, TreeError};
use crate::config::{SideArea, SideAreasConfig};
use crate::focus::{focus_orders, refocus, same_but_focus};
use crate::links::{lemma_insert_no_dup, lemma_remove_no_dup};
use crate::matching::opt_view;
use crate::monitors::{monitor_of, spec_displayed_workspace, spec_side_area, workspace_of};
use crate::sync::PendingSync;
use crate::tab_commands::tiling_of;
use crate::tabs::copy_ids;
use crate::tree::{ContainerKind, ContainerTree, WindowInfo, WindowState};

verus! {

/// Whether `c` is the focused container of each of its ancestors, looking
/// at most `fuel` parents up.
pub open spec fn focused_chain(t: &ContainerTree, c: int, fuel: nat) -> bool
    decreases fuel,
{
    if fuel == 0 {
        true
    } else {
        match t.parent_of(c) {
            None => true,
            Some(p) => t.fo(p as int).len() > 0 && t.fo(p as int)[0] == c as usize && focused_chain(
                t,
                p as int,
                (fuel - 1) as nat,
            ),
        }
    }
}

/// `new` is `old` with only the kind of `c` replaced by `kind`.
pub open spec fn kind_set(old: &ContainerTree, new: &ContainerTree, c: int, kind: ContainerKind) -> bool {
    &&& new.len() == old.len()
    &&& new.kind(c) == kind
    &&& forall|y: int|
        0 <= y < new.len() ==> {
            &&& y != c ==> (#[trigger] new.nodes@[y]).kind == old.nodes@[y].kind
            &&& new.nodes@[y].parent == old.nodes@[y].parent
            &&& new.nodes@[y].children@ == old.nodes@[y].children@
            &&& new.nodes@[y].focus_order@ == old.nodes@[y].focus_order@
            &&& new.nodes@[y].tiling_size == old.nodes@[y].tiling_size
            &&& new.nodes@[y].tiling_direction == old.nodes@[y].tiling_direction
        }
}

/// The position that a child moved within its own parent from position
/// `i` to before position `index` ends at, once it is out of the list.
pub open spec fn reinsert_index(i: int, index: int, len: int) -> int {
    let j = if index > i { index - 1 } else { index };
    if j > len - 1 { len - 1 } else { j }
}

/// `index`, or `len` where it is further.
pub open spec fn clamp_index(index: usize, len: nat) -> usize {
    if (index as int) <= len {
        index
    } else {
        len as usize
    }
}

/// `mid` is `old` after `c` was detached, where it had a parent.
pub open spec fn placed_then(old: &ContainerTree, mid: &ContainerTree, c: int, r0: Result<(), TreeError>) -> bool {
    &&& old.parent_of(c) is Some ==> detach_outcome(old, mid, c, r0)
    &&& old.parent_of(c) is None ==> *mid == *old
}

/// What moving `c` to position `index` of `p` leaves: within its own
/// parent a reordering; elsewhere a detachment then an attachment at
/// `index`, or at the end where the detachment shortened `p`'s children.
pub open spec fn moved_within_tree(old: &ContainerTree, new: &ContainerTree, c: int, p: int, index: usize, r: Result<(), TreeError>) -> bool {
    if old.parent_of(c) == Some(p as usize) {
        let i = old.ch(p).index_of(c as usize);
        &&& r is Ok
        &&& new.len() == old.len()
        &&& new.ch(p) == old.ch(p).remove(i).insert(reinsert_index(i, index as int, old.ch(p).len() as int), c as usize)
        &&& forall|y: int|
            0 <= y < new.len() ==> {
                &&& (#[trigger] new.nodes@[y]).kind == old.nodes@[y].kind
                &&& new.nodes@[y].parent == old.nodes@[y].parent
                &&& y != p ==> new.nodes@[y].children@ == old.nodes@[y].children@
                &&& new.nodes@[y].focus_order@ == old.nodes@[y].focus_order@
                &&& new.nodes@[y].tiling_size == old.nodes@[y].tiling_size
                &&& new.nodes@[y].tiling_direction == old.nodes@[y].tiling_direction
            }
    } else {
        exists|mid: ContainerTree, r0: Result<(), TreeError>| {
            &&& #[trigger] placed_then(old, &mid, c, r0)
            &&& attach_outcome(&mid, new, c, p, Some(clamp_index(index, mid.ch(p).len())), r)
        }
    }
}

impl ContainerTree {
    /// Replaces the kind of container `c`.
    pub fn set_kind(&mut self, c: usize, kind: ContainerKind)
        requires
            old(self).wf(),
            (c as int) < old(self).len(),
        ensures
            final(self).wf(),
            kind_set(old(self), final(self), c as int, kind),
    {
        let ghost old_t = *old(self);
        self.nodes[c].kind = kind;
        proof {
            let t = *self;
            assert forall|y: int| 0 <= y < t.len() implies #[trigger] t.node_wf(y) by {
                assert(old_t.node_wf(y));
                assert(t.ch(y) == old_t.ch(y));
                assert forall|q: int| 0 <= q < t.ch(y).len() implies t.valid(#[trigger] t.ch(y)[q] as int)
                    && t.parent_of(t.ch(y)[q] as int) == Some(y as usize) by {
                    assert(old_t.valid(t.ch(y)[q] as int));
                }
                match t.parent_of(y) {
                    Some(pp) => {
                        assert(t.ch(pp as int) == old_t.ch(pp as int));
                    },
                    None => {},
                }
            }
        }
    }

    /// Whether `c` is the focused container of each of its ancestors.
    pub fn has_focus(&self, c: usize) -> (r: bool)
        requires
            self.wf(),
            (c as int) < self.len(),
        ensures
            r == focused_chain(self, c as int, self.len()),
    {
        let n = self.nodes.len();
        let mut cur = c;
        let mut fuel = n;
        while fuel > 0
            invariant
                self.wf(),
                (cur as int) < self.len(),
                fuel <= n,
                n == self.len(),
                focused_chain(self, cur as int, fuel as nat) == focused_chain(self, c as int, n as nat),
            decreases fuel,
        {
            match self.nodes[cur].parent {
                None => {
                    return true;
                },
                Some(p) => {
                    proof {
                        assert(self.node_wf(cur as int));
                    }
                    if self.nodes[p].focus_order.len() == 0 || self.nodes[p].focus_order[0] != cur {
                        return false;
                    }
                    cur = p;
                    fuel = fuel - 1;
                },
            }
        }
        true
    }

    /// Moves child `c` of `p` to before position `index` of `p`'s
    /// children, leaving everything else alone.
    pub(crate) fn reorder_child(&mut self, p: usize, c: usize, index: usize)
        requires
            old(self).wf(),
            (p as int) < old(self).len(),
            old(self).parent_of(c as int) == Some(p),
            (c as int) < old(self).len(),
        ensures
            final(self).wf(),
            moved_within_tree(old(self), final(self), c as int, p as int, index, Ok(())),
    {
        let ghost old_t = *old(self);
        proof {
            assert(old_t.node_wf(c as int));
            assert(old_t.node_wf(p as int));
        }
        let i = self.index_in(p, c);
        let ghost s = old_t.ch(p as int);
        proof {
            assert(s.index_of(c) == i as int) by {
                let j = s.index_of(c);
                assert(s.contains(c));
                assert(0 <= j < s.len() && s[j] == c);
            }
        }
        let mut ch = copy_ids(&self.nodes[p].children);
        let x = ch.remove(i);
        let len = ch.len();
        let j0 = if index > i {
            index - 1
        } else {
            index
        };
        let j = if j0 > len {
            len
        } else {
            j0
        };
        ch.insert(j, x);
        self.nodes[p].children = ch;
        proof {
            assert(j as int == reinsert_index(i as int, index as int, s.len() as int));
            assert(self.ch(p as int) =~= s.remove(i as int).insert(j as int, c));
            lemma_remove_no_dup(s, i as int);
            lemma_insert_no_dup(s.remove(i as int), j as int, c);
            let t = *self;
            assert forall|y: int| 0 <= y < t.len() implies #[trigger] t.node_wf(y) by {
                assert(old_t.node_wf(y));
                assert(t.nodes@[y].parent == old_t.nodes@[y].parent);
                if y == p {
                    assert forall|q: int| 0 <= q < t.ch(y).len() implies t.valid(#[trigger] t.ch(y)[q] as int)
                        && t.parent_of(t.ch(y)[q] as int) == Some(y as usize) by {
                        let e = t.ch(y)[q];
                        assert(t.ch(y).contains(e));
                        if e != c {
                            assert(s.remove(i as int).contains(e));
                            assert(s.contains(e));
                            let m = choose|m: int| 0 <= m < s.len() && s[m] == e;
                            assert(old_t.valid(s[m] as int));
                        }
                    }
                    assert forall|q: int| 0 <= q < t.fo(y).len() implies t.ch(y).contains(#[trigger] t.fo(y)[q]) by {
                        let e = t.fo(y)[q];
                        assert(s.contains(e));
                        if e != c {
                            assert(s.remove(i as int).contains(e));
                        }
                    }
                    assert(t.ch(y).len() == s.len());
                } else {
                    assert(t.ch(y) == old_t.ch(y));
                    assert forall|q: int| 0 <= q < t.ch(y).len() implies t.valid(#[trigger] t.ch(y)[q] as int)
                        && t.parent_of(t.ch(y)[q] as int) == Some(y as usize) by {
                        assert(old_t.valid(t.ch(y)[q] as int));
                    }
                }
                match t.parent_of(y) {
                    Some(pp) => {
                        if pp == p {
                            assert(s.contains(y as usize));
                            if y != c as int {
                                assert(s.remove(i as int).contains(y as usize));
                            }
                        } else {
                            assert(t.ch(pp as int) == old_t.ch(pp as int));
                        }
                    },
                    None => {},
                }
            }
        }
    }

    /// Moves `c` to position `index` of `p` (see `moved_within_tree`).
    pub fn move_container_within_tree(&mut self, c: usize, p: usize, index: usize) -> (r: Result<(), TreeError>)
        requires
            old(self).wf(),
            (c as int) < old(self).len(),
            (p as int) < old(self).len(),
        ensures
            final(self).wf(),
            final(self).len() == old(self).len(),
            moved_within_tree(old(self), final(self), c as int, p as int, index, r),
    {
        let ghost old_t = *old(self);
        if self.nodes[c].parent == Some(p) {
            self.reorder_child(p, c, index);
            return Ok(());
        }
        let mut r0: Result<(), TreeError> = Ok(());
        if self.nodes[c].parent.is_some() {
            r0 = self.detach_container(c);
        }
        let ghost mid = *self;
        let len = self.nodes[p].children.len();
        let at = if index <= len {
            index
        } else {
            len
        };
        let r = self.attach_container(c, p, Some(at));
        proof {
            assert(placed_then(&old_t, &mid, c as int, r0));
            assert(attach_outcome(&mid, self, c as int, p as int, Some(clamp_index(index, mid.ch(p as int).len())), r));
        }
        r
    }
}

/// The refusal for a move into a side area that monitor `m` lacks: side
/// areas do not apply to the monitor; or the side's configured width is
/// not positive; or the side area is configured but not there yet.
pub open spec fn spec_side_area_missing(config: SideAreasConfig, device_name: Seq<char>, hardware_id: Option<Seq<char>>, side: SideArea) -> TreeError {
    if config.spec_matches_monitor(device_name, hardware_id) {
        if (match side {
            SideArea::Left => config.left,
            SideArea::Right => config.right,
        }).amount <= 0 {
            TreeError::SideAreaDisabled
        } else {
            TreeError::SideAreaUnavailable
        }
    } else {
        TreeError::SideAreaNotMatched
    }
}

/// The name of a side as messages print it.
pub open spec fn side_name(side: SideArea) -> Seq<char> {
    match side {
        SideArea::Left => "Left"@,
        SideArea::Right => "Right"@,
    }
}

/// The text explaining `spec_side_area_missing` for monitor
/// `device_name`: which side, which monitor, and the setting to change.
pub open spec fn spec_side_area_missing_message(
    config: SideAreasConfig,
    device_name: Seq<char>,
    hardware_id: Option<Seq<char>>,
    side: SideArea,
) -> Seq<char> {
    let head = "The "@ + side_name(side);
    let name = crate::text::debug_str(device_name);
    match spec_side_area_missing(config, device_name, hardware_id, side) {
        TreeError::SideAreaDisabled => head + " side area is disabled on monitor "@ + name
            + ". Configure a positive width first."@,
        TreeError::SideAreaUnavailable => head + " side area is configured but unavailable on monitor "@ + name
            + ". Reload the config and try again."@,
        _ => head + " side area is unavailable on monitor "@ + name + " because it does not match side_areas.match."@,
    }
}

/// The message for a move into a side area that monitor
/// `(device_name, hardware_id)` lacks (see `spec_side_area_missing_message`).
pub fn side_area_missing_message(config: &SideAreasConfig, device_name: &str, hardware_id: Option<&str>, side: SideArea) -> (r: String)
    ensures
        r@ == spec_side_area_missing_message(*config, device_name@, opt_view(hardware_id), side),
{
    let why = side_area_missing(config, device_name, hardware_id, side);
    let mut text = String::from_str("The ");
    match side {
        SideArea::Left => text.append("Left"),
        SideArea::Right => text.append("Right"),
    }
    let name = crate::text::debug_quoted(device_name);
    match why {
        TreeError::SideAreaDisabled => {
            text.append(" side area is disabled on monitor ");
            text.append(name.as_str());
            text.append(". Configure a positive width first.");
        },
        TreeError::SideAreaUnavailable => {
            text.append(" side area is configured but unavailable on monitor ");
            text.append(name.as_str());
            text.append(". Reload the config and try again.");
        },
        _ => {
            text.append(" side area is unavailable on monitor ");
            text.append(name.as_str());
            text.append(" because it does not match side_areas.match.");
        },
    }
    proof {
        reveal_strlit("The ");
        reveal_strlit("Left");
        reveal_strlit("Right");
        reveal_strlit(" side area is disabled on monitor ");
        reveal_strlit(". Configure a positive width first.");
        reveal_strlit(" side area is configured but unavailable on monitor ");
        reveal_strlit(". Reload the config and try again.");
        reveal_strlit(" side area is unavailable on monitor ");
        reveal_strlit(" because it does not match side_areas.match.");
    }
    text
}

/// Why monitor `(device_name, hardware_id)` has no side area on `side`.
pub fn side_area_missing(config: &SideAreasConfig, device_name: &str, hardware_id: Option<&str>, side: SideArea) -> (r: TreeError)
    ensures
        r == spec_side_area_missing(*config, device_name@, opt_view(hardware_id), side),
{
    if config.matches_monitor(device_name, hardware_id) {
        if config.width_of(side).amount <= 0 {
            TreeError::SideAreaDisabled
        } else {
            TreeError::SideAreaUnavailable
        }
    } else {
        TreeError::SideAreaNotMatched
    }
}

impl ContainerTree {
    /// The properties of a window.
    pub open spec fn window_info(&self, w: int) -> WindowInfo {
        match self.kind(w) {
            ContainerKind::TilingWindow(info) => info,
            ContainerKind::NonTilingWindow(info) => info,
            _ => arbitrary(),
        }
    }

    /// The state of a window: tiling for a tiling window.
    pub open spec fn window_state(&self, w: int) -> WindowState {
        match self.kind(w) {
            ContainerKind::NonTilingWindow(info) => info.state,
            _ => WindowState::Tiling,
        }
    }

    pub open spec fn is_window(&self, w: int) -> bool {
        crate::tree::kind_is_window(self.kind(w))
    }

    /// The hardware id of a monitor as a string slice.
    pub(crate) fn monitor_names(&self, m: usize) -> (r: (&str, Option<&str>))
        requires
            (m as int) < self.len(),
            self.is_monitor(m as int),
        ensures
            r.0@ == self.monitor_info(m as int).device_name@,
            opt_view(r.1) == match self.monitor_info(m as int).hardware_id {
                Some(h) => Some(h@),
                None => None,
            },
    {
        match &self.nodes[m].kind {
            ContainerKind::Monitor(info) => {
                let hw = match &info.hardware_id {
                    Some(h) => Some(h.as_str()),
                    None => None,
                };
                (info.device_name.as_str(), hw)
            },
            _ => vstd::pervasive::unreached(),
        }
    }

    /// Whether the state of window `w` is tiling.
    pub fn state_is_tiling(&self, w: usize) -> (r: bool)
        requires
            (w as int) < self.len(),
        ensures
            r == (self.window_state(w as int) is Tiling),
    {
        match &self.nodes[w].kind {
            ContainerKind::NonTilingWindow(info) => match info.state {
                WindowState::Tiling => true,
                _ => false,
            },
            _ => true,
        }
    }
}

impl ContainerTree {
    /// Takes node `c` out of the arena; `put_back` returns it.
    pub(crate) fn take_node(&mut self, c: usize) -> (node: crate::tree::Node)
        requires
            (c as int) < old(self).len(),
        ensures
            node == old(self).nodes@[c as int],
            final(self).nodes@ == old(self).nodes@.remove(c as int),
    {
        self.nodes.remove(c)
    }

    /// Puts node `c` back after `take_node`, with only its kind changed.
    pub(crate) fn put_back(&mut self, c: usize, node: crate::tree::Node, Ghost(before): Ghost<ContainerTree>)
        requires
            before.wf(),
            (c as int) < before.len(),
            old(self).nodes@ == before.nodes@.remove(c as int),
            node.parent == before.nodes@[c as int].parent,
            node.children@ == before.nodes@[c as int].children@,
            node.focus_order@ == before.nodes@[c as int].focus_order@,
            node.tiling_size == before.nodes@[c as int].tiling_size,
            node.tiling_direction == before.nodes@[c as int].tiling_direction,
        ensures
            final(self).wf(),
            kind_set(&before, final(self), c as int, node.kind),
    {
        let ghost k = node.kind;
        self.nodes.insert(c, node);
        proof {
            let t = *self;
            assert(t.nodes@ =~= before.nodes@.update(c as int, t.nodes@[c as int]));
            assert forall|y: int| 0 <= y < t.len() implies #[trigger] t.node_wf(y) by {
                assert(before.node_wf(y));
                assert(t.ch(y) == before.ch(y));
                assert(t.fo(y) == before.fo(y));
                assert forall|q: int| 0 <= q < t.ch(y).len() implies t.valid(#[trigger] t.ch(y)[q] as int)
                    && t.parent_of(t.ch(y)[q] as int) == Some(y as usize) by {
                    assert(before.valid(t.ch(y)[q] as int));
                }
                match t.parent_of(y) {
                    Some(pp) => {
                        assert(t.ch(pp as int) == before.ch(pp as int));
                    },
                    None => {},
                }
            }
        }
    }

    /// Places non-tiling window `w` in an area with rectangle `rect`: its
    /// floating placement is cut to the area's size and centred in it, and
    /// it forgets its place in the tiling layout.
    pub fn place_in_area(&mut self, w: usize, rect: &crate::geometry::Rect)
        requires
            old(self).wf(),
            (w as int) < old(self).len(),
            old(self).kind(w as int) is NonTilingWindow,
        ensures
            final(self).wf(),
            kind_set(old(self), final(self), w as int, ContainerKind::NonTilingWindow(placed_in_area(old(self).window_info(w as int), *rect))),
    {
        let ghost before = *self;
        let mut node = self.take_node(w);
        match node.kind {
            ContainerKind::NonTilingWindow(mut info) => {
                info.floating_placement = info.floating_placement.clamp_size(rect.width(), rect.height()).translate_to_center(rect);
                info.insertion_target = None;
                node.kind = ContainerKind::NonTilingWindow(info);
            },
            other => {
                node.kind = other;
            },
        }
        self.put_back(w, node, Ghost(before));
    }

    /// Turns the maximized flag of fullscreen window `w` off.
    pub fn unmaximize(&mut self, w: usize)
        requires
            old(self).wf(),
            (w as int) < old(self).len(),
            old(self).is_window(w as int),
        ensures
            final(self).wf(),
            unmaximized_in(old(self), final(self), w as int),
    {
        let ghost before = *self;
        let full = match &self.nodes[w].kind {
            ContainerKind::NonTilingWindow(info) => match info.state {
                WindowState::Fullscreen(_) => true,
                _ => false,
            },
            _ => false,
        };
        if !full {
            return;
        }
        let mut node = self.take_node(w);
        match node.kind {
            ContainerKind::NonTilingWindow(mut info) => {
                match info.state {
                    WindowState::Fullscreen(f) => {
                        info.state = WindowState::Fullscreen(crate::config::FullscreenStateConfig { maximized: false, ..f });
                    },
                    _ => {},
                }
                node.kind = ContainerKind::NonTilingWindow(info);
            },
            other => {
                node.kind = other;
            },
        }
        self.put_back(w, node, Ghost(before));
    }
}

/// A window's properties after it is placed in an area with rectangle
/// `area`: its floating placement cut to the area's size and centred in
/// it, and its return place in the tiling layout forgotten.
pub open spec fn placed_in_area(info: WindowInfo, area: crate::geometry::Rect) -> WindowInfo {
    WindowInfo {
        floating_placement: info.floating_placement.spec_clamp_size(area.spec_width(), area.spec_height()).spec_translate_to_center(&area),
        insertion_target: None,
        ..info
    }
}

/// A window's properties with a fullscreen state no longer maximized.
pub open spec fn unmaximized(info: WindowInfo) -> WindowInfo {
    match info.state {
        WindowState::Fullscreen(f) => WindowInfo {
            state: WindowState::Fullscreen(crate::config::FullscreenStateConfig { maximized: false, ..f }),
            ..info
        },
        _ => info,
    }
}

/// Where a window placed in container `a` goes: after the tiling window
/// that `a` focused last, in that window's parent, or else at the end of
/// `a`.
pub open spec fn insertion_slot(t: &ContainerTree, a: int) -> (usize, usize) {
    match t.spec_focused_tiling_window(a) {
        Some(s) => match t.parent_of(s as int) {
            Some(sp) => (sp, (t.ch(sp as int).index_of(s) + 1) as usize),
            None => (a as usize, t.ch(a).len() as usize),
        },
        None => (a as usize, t.ch(a).len() as usize),
    }
}

impl ContainerTree {
    /// Where a window placed in container `a` goes (see `insertion_slot`).
    pub fn slot_after_focused(&self, a: usize) -> (r: (usize, usize))
        requires
            self.wf(),
            (a as int) < self.len(),
        ensures
            r == insertion_slot(self, a as int),
            (r.0 as int) < self.len(),
    {
        match self.focused_tiling_window(a) {
            Some(sb) => match self.nodes[sb].parent {
                Some(sp) => {
                    proof {
                        assert(self.node_wf(sb as int));
                        assert(self.node_wf(sp as int));
                        assert(self.ch(sp as int).contains(sb));
                    }
                    let i = self.index_in(sp, sb);
                    let n_sp = self.nodes[sp].children.len();
                    proof {
                        assert(i < n_sp);
                        let s = self.ch(sp as int);
                        let j = s.index_of(sb);
                        assert(0 <= j < s.len() && s[j] == sb);
                        assert(s.no_duplicates());
                    }
                    (sp, i + 1)
                },
                None => (a, self.nodes[a].children.len()),
            },
            None => (a, self.nodes[a].children.len()),
        }
    }
}

/// The rectangle of side area `a` on `side` of monitor `m`.
pub open spec fn area_rect(t: &ContainerTree, m: int, a: int, side: SideArea) -> crate::geometry::Rect {
    crate::areas::side_area_rect(
        crate::areas::side_area_bounds_of(t.monitor_info(m), t.workspace_info(a).gaps),
        side,
        crate::areas::resolved_width(t, m, side) as i32,
    )
}

/// The containers queued for redraw after window `w` moved from workspace
/// `ws` to side area `a` of monitor `m`, in tree `t` after the move.
pub open spec fn side_move_redraws(t: &ContainerTree, w: int, ws: int, a: int, m: int) -> Seq<usize> {
    (if t.window_state(w) is Tiling {
        tiling_of(t, t.ch(ws)) + tiling_of(t, t.ch(a))
    } else {
        seq![w as usize]
    }) + match spec_displayed_workspace(t, m) {
        Some(d) => seq![d],
        None => Seq::empty(),
    }
}

/// The steps of moving window `w` from workspace `ws` into side area `a`
/// of monitor `m`, from `old` to `new`, with result `r`.
pub open spec fn side_area_moved(
    old: &ContainerTree,
    new: &ContainerTree,
    w: int,
    ws: int,
    a: int,
    m: int,
    side: SideArea,
    s0: PendingSync,
    s1: PendingSync,
    r: Result<(), TreeError>,
) -> bool {
    exists|t1: ContainerTree, t2: ContainerTree, t3: ContainerTree, r0: Result<(), TreeError>| {
        &&& #[trigger] placed_for_area(old, &t1, w, area_rect(old, m, a, side))
        &&& #[trigger] moved_within_tree(&t1, &t2, w, insertion_slot(old, a).0 as int, insertion_slot(old, a).1, r0)
        &&& r0 is Err ==> r == r0 && new.nodes@ == t2.nodes@ && crate::tab_commands::sync_unchanged(s0, s1)
        &&& r0 is Ok ==> {
            &&& r is Ok
            &&& #[trigger] unmaximized_in(&t2, &t3, w)
            &&& focused_chain(old, w, old.len()) ==> same_but_focus(new, &t3) && focus_orders(new) == refocus(
                &t3,
                focus_orders(&t3),
                w,
                None,
                t3.len(),
            )
            &&& !focused_chain(old, w, old.len()) ==> new.nodes@ == t3.nodes@
            &&& s1.containers_to_redraw@ == s0.containers_to_redraw@ + side_move_redraws(new, w, ws, a, m)
            &&& s1.workspaces_to_reorder@ == s0.workspaces_to_reorder@.push(a as usize)
            &&& s1.focus_change == (s0.focus_change || focused_chain(old, w, old.len()))
            &&& s1.cursor_jump == s0.cursor_jump
        }
    }
}

/// `new` is `old` with window `w`, unless it tiles, given its placement in
/// an area with rectangle `rect`.
pub open spec fn placed_for_area(old: &ContainerTree, new: &ContainerTree, w: int, rect: crate::geometry::Rect) -> bool {
    &&& old.is_tiling_window(w) ==> new.nodes@ == old.nodes@
    &&& !old.is_tiling_window(w) ==> kind_set(old, new, w, ContainerKind::NonTilingWindow(placed_in_area(old.window_info(w), rect)))
}

/// `new` is `old` with fullscreen window `w` no longer maximized.
pub open spec fn unmaximized_in(old: &ContainerTree, new: &ContainerTree, w: int) -> bool {
    &&& old.window_state(w) is Fullscreen ==> kind_set(old, new, w, ContainerKind::NonTilingWindow(unmaximized(old.window_info(w))))
    &&& !(old.window_state(w) is Fullscreen) ==> new.nodes@ == old.nodes@
}



/// The end of a move into side area `a`: a fullscreen window stops being
/// maximized, a window that had focus gets it back, and the redraws are
/// queued. Gives the tree as it was before the focus moved.
fn finish_area_move(
    tree: &mut ContainerTree,
    w: usize,
    ws: usize,
    a: usize,
    m: usize,
    was_focused: bool,
    sync: &mut PendingSync,
) -> (t3: Ghost<ContainerTree>)
    requires
        old(tree).wf(),
        (w as int) < old(tree).len(),
        (ws as int) < old(tree).len(),
        (a as int) < old(tree).len(),
        (m as int) < old(tree).len(),
        old(tree).is_window(w as int),
    ensures
        final(tree).wf(),
        unmaximized_in(old(tree), &t3@, w as int),
        was_focused ==> same_but_focus(final(tree), &t3@) && focus_orders(final(tree)) == refocus(
            &t3@,
            focus_orders(&t3@),
            w as int,
            None,
            t3@.len(),
        ),
        !was_focused ==> final(tree).nodes@ == t3@.nodes@,
        final(sync).containers_to_redraw@ == old(sync).containers_to_redraw@ + side_move_redraws(final(tree), w as int, ws as int, a as int, m as int),
        final(sync).workspaces_to_reorder@ == old(sync).workspaces_to_reorder@.push(a),
        final(sync).focus_change == (old(sync).focus_change || was_focused),
        final(sync).cursor_jump == old(sync).cursor_jump,
{
    tree.unmaximize(w);
    let ghost t3 = *tree;
    if was_focused {
        tree.set_focused_descendant(w, None);
        sync.queue_focus_change();
    }
    proof {
        assert(tree.kind(w as int) == t3.kind(w as int));
    }
    let tiles = tree.state_is_tiling(w);
    let ghost s_mid = sync.containers_to_redraw@;
    if tiles {
        let a1 = tree.tiling_children(ws);
        let a2 = tree.tiling_children(a);
        sync.queue_containers_to_redraw(&a1);
        sync.queue_containers_to_redraw(&a2);
        proof {
            assert(sync.containers_to_redraw@ =~= s_mid + (a1@ + a2@));
        }
    } else {
        sync.queue_container_to_redraw(w);
        proof {
            assert(sync.containers_to_redraw@ =~= s_mid + seq![w]);
        }
    }
    let ghost s_mid2 = sync.containers_to_redraw@;
    match tree.displayed_workspace(m) {
        Some(d) => {
            sync.queue_container_to_redraw(d);
            proof {
                assert(sync.containers_to_redraw@ =~= s_mid2 + seq![d]);
            }
        },
        None => {
            proof {
                assert(sync.containers_to_redraw@ =~= s_mid2 + Seq::<usize>::empty());
            }
        },
    }
    sync.queue_workspace_to_reorder(a);
    proof {
        assert(sync.containers_to_redraw@ =~= old(sync).containers_to_redraw@ + side_move_redraws(tree, w as int, ws as int, a as int, m as int));
    }
    Ghost(t3)
}

/// The move of window `w` from workspace `ws` into side area `a` of its
/// monitor `m`.
fn move_into_area(
    tree: &mut ContainerTree,
    w: usize,
    ws: usize,
    a: usize,
    m: usize,
    side: SideArea,
    sync: &mut PendingSync,
) -> (r: Result<(), TreeError>)
    requires
        old(tree).wf(),
        (w as int) < old(tree).len(),
        (ws as int) < old(tree).len(),
        (a as int) < old(tree).len(),
        (m as int) < old(tree).len(),
        old(tree).is_window(w as int),
        old(tree).is_monitor(m as int),
        old(tree).is_workspace(a as int),
        old(tree).is_workspace(ws as int),
        old(tree).side_of(a as int) == Some(side),
        monitor_of(old(tree), a as int, old(tree).len()) == Some(m),
        spec_side_area(old(tree), m as int, side) == Some(a),
    ensures
        final(tree).wf(),
        side_area_moved(old(tree), final(tree), w as int, ws as int, a as int, m as int, side, *old(sync), *final(sync), r),
        r is Ok ==> final(tree).is_window(w as int),
{
    let ghost t0 = *old(tree);
    let ghost s0 = *old(sync);
    let was_focused = tree.has_focus(w);
    let (tp, ti) = tree.slot_after_focused(a);
    if !tree.tiling_window(w) {
        let rect = match tree.workspace_rect(a) {
            Ok(r) => r,
            Err(e) => {
                return Err(e);
            },
        };
        tree.place_in_area(w, &rect);
    }
    let ghost t1 = *tree;
    let r0 = tree.move_container_within_tree(w, tp, ti);
    let ghost t2 = *tree;
    if r0.is_err() {
        proof {
            assert(placed_for_area(&t0, &t1, w as int, area_rect(&t0, m as int, a as int, side)));
            assert(moved_within_tree(&t1, &t2, w as int, insertion_slot(&t0, a as int).0 as int, insertion_slot(&t0, a as int).1, r0));
        }
        return r0;
    }
    proof {
        assert(t2.is_window(w as int)) by {
            assert(t2.kind(w as int) == t1.kind(w as int));
        }
    }
    let Ghost(t3) = finish_area_move(tree, w, ws, a, m, was_focused, sync);
    proof {
        assert(unmaximized_in(&t2, &t3, w as int));
        assert(placed_for_area(&t0, &t1, w as int, area_rect(&t0, m as int, a as int, side)));
        assert(moved_within_tree(&t1, &t2, w as int, insertion_slot(&t0, a as int).0 as int, insertion_slot(&t0, a as int).1, r0));
        assert(t3.is_window(w as int));
        assert(tree.nodes@[w as int].kind == t3.nodes@[w as int].kind);
    }
    Ok(())
}

/// What moving window `w` of `t0` into the side area on `side` of its
/// monitor (`move_window_to_side_area`) comes to: the tree `t1`, the
/// pending sync `s1` from `s0`, and the result `r`.
#[verifier::opaque]
pub open spec fn side_area_move_outcome(
    t0: &ContainerTree,
    t1: &ContainerTree,
    w: usize,
    side: SideArea,
    config: SideAreasConfig,
    s0: PendingSync,
    s1: PendingSync,
    r: Result<(), TreeError>,
) -> bool {
    match workspace_of(t0, w as int, t0.len()) {
        None => r == Err::<(), TreeError>(TreeError::NoWorkspace) && t1.nodes@ == t0.nodes@
            && crate::tab_commands::sync_unchanged(s0, s1),
        Some(ws) => match monitor_of(t0, w as int, t0.len()) {
            None => r == Err::<(), TreeError>(TreeError::NoMonitor) && t1.nodes@ == t0.nodes@
                && crate::tab_commands::sync_unchanged(s0, s1),
            Some(m) => match spec_side_area(t0, m as int, side) {
                None => r == Err::<(), TreeError>(spec_side_area_missing(
                    config,
                    t0.monitor_info(m as int).device_name@,
                    match t0.monitor_info(m as int).hardware_id {
                        Some(h) => Some(h@),
                        None => None,
                    },
                    side,
                )) && t1.nodes@ == t0.nodes@ && crate::tab_commands::sync_unchanged(s0, s1),
                Some(a) => if a == ws {
                    r is Ok && t1.nodes@ == t0.nodes@ && crate::tab_commands::sync_unchanged(s0, s1)
                } else {
                    side_area_moved(t0, t1, w as int, ws as int, a as int, m as int, side, s0, s1, r)
                },
            },
        },
    }
}

/// Moves window `w` into the side area on `side` of its monitor, after the
/// tiling window that the side area focused last (or at its end). A
/// window that does not tile is placed in the middle of the area and
/// forgets its place in the tiling layout; a fullscreen window stops being
/// maximized; a focused window stays focused. The regular workspace that
/// the monitor displays does not change.
pub fn move_window_to_side_area(
    tree: &mut ContainerTree,
    w: usize,
    side: SideArea,
    config: &SideAreasConfig,
    sync: &mut PendingSync,
) -> (r: Result<(), TreeError>)
    requires
        old(tree).wf(),
        (w as int) < old(tree).len(),
        old(tree).is_window(w as int),
    ensures
        final(tree).wf(),
        side_area_move_outcome(old(tree), final(tree), w, side, *config, *old(sync), *final(sync), r),
        final(tree).len() == old(tree).len(),
        r is Ok ==> final(tree).is_window(w as int),
{
    proof {
        reveal(side_area_move_outcome);
    }
    let ghost t0 = *old(tree);
    let ghost s0 = *old(sync);
    let ws = match tree.workspace(w) {
        None => {
            return Err(TreeError::NoWorkspace);
        },
        Some(ws) => ws,
    };
    let m = match tree.monitor(w) {
        None => {
            return Err(TreeError::NoMonitor);
        },
        Some(m) => m,
    };
    let a = match tree.side_area(m, side) {
        Some(a) => a,
        None => {
            let (dev, hw) = tree.monitor_names(m);
            return Err(side_area_missing(config, dev, hw, side));
        },
    };
    if ws == a {
        return Ok(());
    }
    proof {
        let fl = |x: usize| t0.is_workspace(x as int) && t0.side_of(x as int) == Some(side);
        crate::focus_direction::lemma_first_such_member(t0.ch(m as int), fl);
        t0.lemma_child_monitor(m, a);
    }
    move_into_area(tree, w, ws, a, m, side, sync)
}

} // verus!
