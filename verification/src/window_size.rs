//! Sizing windows: floating windows against their monitor, and the tab
//! bars between a tiling window and the container resized for it.
use vstd::prelude::*;

use crate::areas::{tab_bar_height_at, MAX_SCALE_FACTOR};
use crate::attach::TreeError;
use crate::geometry::{clamp_i32, LengthValue, Rect, UNIT_SCALE};
use crate::tree::SIZE_ONE;
use crate::monitors::monitor_of;
use crate::moves::kind_set;
use crate::sync::PendingSync;
use crate::tree::{ContainerKind, ContainerTree, WindowInfo, WindowState};

verus! {

/// The least width a resize leaves a floating window.
pub const MIN_FLOATING_WIDTH: i32 = 250;

/// The least height a resize leaves a floating window.
pub const MIN_FLOATING_HEIGHT: i32 = 140;

/// The length a floating window takes for a requested `target` length:
/// its `current` length without a request; a request to grow it as is;
/// a request to shrink it no lower than `min`.
pub open spec fn length_with_clamp(target: Option<i32>, current: i32, min: i32) -> i32 {
    match target {
        None => current,
        Some(t) => if t >= current {
            t
        } else if t >= min {
            t
        } else {
            min
        },
    }
}

/// The requested length in pixels, a percentage taken of `total`.
pub open spec fn requested_px(target: Option<LengthValue>, total: i32) -> Option<i32> {
    match target {
        Some(l) => Some(l.spec_to_px(total, None)),
        None => None,
    }
}

/// The floating placement of a window after a resize request against a
/// monitor with rectangle `monitor`.
pub open spec fn resized_placement(p: Rect, monitor: Rect, width: Option<LengthValue>, height: Option<LengthValue>) -> Rect {
    Rect::spec_from_xy(
        p.left,
        p.top,
        length_with_clamp(requested_px(width, monitor.spec_width()), p.spec_width(), MIN_FLOATING_WIDTH),
        length_with_clamp(requested_px(height, monitor.spec_height()), p.spec_height(), MIN_FLOATING_HEIGHT),
    )
}

/// The length a floating window takes (see `length_with_clamp`).
fn clamped_length(target: Option<i32>, current: i32, min: i32) -> (r: i32)
    ensures
        r == length_with_clamp(target, current, min),
{
    match target {
        None => current,
        Some(t) => if t >= current {
            t
        } else if t >= min {
            t
        } else {
            min
        },
    }
}

/// What resizing floating window `w` of `old` to `width` and `height`
/// (`set_floating_window_size`) comes to: the tree `new`, the pending sync
/// `s1` from `s0`, and the result `r`.
pub open spec fn floating_resized(
    old: &ContainerTree,
    new: &ContainerTree,
    w: usize,
    width: Option<LengthValue>,
    height: Option<LengthValue>,
    s0: PendingSync,
    s1: PendingSync,
    r: Result<(), TreeError>,
) -> bool {
    match monitor_of(old, w as int, old.len()) {
        None => r == Err::<(), TreeError>(TreeError::NoMonitor) && new.nodes@ == old.nodes@
            && s1.containers_to_redraw@ == s0.containers_to_redraw@,
        Some(m) => {
            let info = old.window_info(w as int);
            &&& r is Ok
            &&& kind_set(
                old,
                new,
                w as int,
                ContainerKind::NonTilingWindow(
                    WindowInfo {
                        floating_placement: resized_placement(
                            info.floating_placement,
                            old.bounds_of(m as int),
                            width,
                            height,
                        ),
                        ..info
                    },
                ),
            )
            &&& s1.containers_to_redraw@ == s0.containers_to_redraw@.push(w)
        },
    }
}

impl ContainerTree {
    /// Resizes floating window `w` to the requested width and height,
    /// percentages taken of its monitor's bounds, keeping its position
    /// (see `resized_placement`), and queues it for redraw.
    pub fn set_floating_window_size(
        &mut self,
        w: usize,
        width: Option<LengthValue>,
        height: Option<LengthValue>,
        sync: &mut PendingSync,
    ) -> (r: Result<(), TreeError>)
        requires
            old(self).wf(),
            (w as int) < old(self).len(),
            old(self).kind(w as int) is NonTilingWindow,
        ensures
            final(self).wf(),
            floating_resized(old(self), final(self), w, width, height, *old(sync), *final(sync), r),
    {
        let m = match self.monitor(w) {
            Some(m) => m,
            None => {
                return Err(TreeError::NoMonitor);
            },
        };
        let monitor_rect = self.bounds(m);
        let ghost before = *self;
        let mut node = self.take_node(w);
        match node.kind {
            ContainerKind::NonTilingWindow(info) => {
                let p = info.floating_placement;
                let tw = match width {
                    Some(l) => Some(l.to_px(monitor_rect.width(), None)),
                    None => None,
                };
                let th = match height {
                    Some(l) => Some(l.to_px(monitor_rect.height(), None)),
                    None => None,
                };
                let new_w = clamped_length(tw, p.width(), MIN_FLOATING_WIDTH);
                let new_h = clamped_length(th, p.height(), MIN_FLOATING_HEIGHT);
                let placement = Rect::from_xy(p.x(), p.y(), new_w, new_h);
                node.kind = ContainerKind::NonTilingWindow(WindowInfo { floating_placement: placement, ..info });
            },
            other => {
                node.kind = other;
            },
        }
        self.put_back(w, node, Ghost(before));
        sync.queue_container_to_redraw(w);
        Ok(())
    }
}

/// The height of the tab bar of tabbed container `tb` (see
/// `ContainerTree::tab_bar_height`).
pub open spec fn bar_height(t: &ContainerTree, tb: int) -> i32 {
    tab_bar_height_at(match monitor_of(t, tb, t.len()) {
        Some(m) => if t.monitor_info(m as int).scale_factor <= MAX_SCALE_FACTOR {
            t.monitor_info(m as int).scale_factor
        } else {
            MAX_SCALE_FACTOR
        },
        None => UNIT_SCALE,
    })
}

/// The total height of the tab bars of the tabbed containers among the
/// ancestors of `c` up to and including `target`, looking at most `fuel`
/// parents up.
pub open spec fn tab_insets(t: &ContainerTree, c: int, target: int, fuel: nat) -> Result<int, TreeError>
    decreases fuel,
{
    if c == target {
        Ok(0)
    } else if fuel == 0 {
        Err(TreeError::Cycle)
    } else {
        match t.parent_of(c) {
            None => Err(TreeError::NoParent),
            Some(p) => match tab_insets(t, p as int, target, (fuel - 1) as nat) {
                Ok(s) => Ok(s + if t.is_tabbed(p as int) {
                    bar_height(t, p as int) as int
                } else {
                    0int
                }),
                Err(e) => Err(e),
            },
        }
    }
}

/// The room the tab bars between window `w` and its ancestor `target`
/// take: the heights of the tab bars of the tabbed containers among the
/// ancestors of `w` up to `target`, summed and capped at the largest
/// `i32`. Refused where `target` is not an ancestor of `w`.
pub fn tab_bar_inset_between(t: &ContainerTree, w: usize, target: usize) -> (r: Result<i32, TreeError>)
    requires
        t.wf(),
        (w as int) < t.len(),
    ensures
        match tab_insets(t, w as int, target as int, t.len()) {
            Ok(s) => r == Ok::<i32, TreeError>(if s <= i32::MAX { s as i32 } else { i32::MAX }),
            Err(e) => r == Err::<i32, TreeError>(e),
        },
{
    let n = t.nodes.len();
    let mut cur = w;
    let mut fuel = n;
    let mut inset: i32 = 0;
    let ghost mut acc: int = 0;
    while cur != target
        invariant
            t.wf(),
            (cur as int) < t.len(),
            fuel <= n,
            n == t.len(),
            acc >= 0,
            inset == if acc <= i32::MAX { acc as i32 } else { i32::MAX },
            tab_insets(t, w as int, target as int, n as nat) == match tab_insets(t, cur as int, target as int, fuel as nat) {
                Ok(s) => Ok::<int, TreeError>(acc + s),
                Err(e) => Err::<int, TreeError>(e),
            },
        decreases fuel,
    {
        if fuel == 0 {
            return Err(TreeError::Cycle);
        }
        let p = match t.nodes[cur].parent {
            Some(p) => p,
            None => {
                return Err(TreeError::NoParent);
            },
        };
        proof {
            assert(t.node_wf(cur as int));
        }
        if t.tabbed(p) {
            let h = t.tab_bar_height(p);
            proof {
                assert(h >= 0);
                acc = acc + h;
            }
            inset = if inset <= i32::MAX - h {
                inset + h
            } else {
                i32::MAX
            };
        }
        cur = p;
        fuel = fuel - 1;
    }
    Ok(inset)
}


/// The length of the parent of a container resized for a window, less
/// the inner gaps between the container and its `siblings` tiling
/// siblings, where that leaves any length.
pub open spec fn spec_resize_room(parent_length: i32, gap: i32, siblings: nat) -> Option<int> {
    let room = parent_length - gap * siblings;
    if 0 < room <= i32::MAX {
        Some(room)
    } else {
        None
    }
}

/// The tiling size of a container resized so that a window in it takes
/// the requested `target` length: the target in pixels (a percentage
/// taken of the room left by `spec_resize_room`), plus the tab bars
/// `inset` between the window and the container (saturating), as a share
/// of that room, rounded down. `None` where the parent leaves no room.
pub open spec fn spec_tiling_size_for_length(target: LengthValue, parent_length: i32, gap: i32, siblings: nat, inset: i32) -> Option<u64> {
    match spec_resize_room(parent_length, gap, siblings) {
        None => None,
        Some(room) => {
            let px = clamp_i32(target.spec_to_px(room as i32, None) + inset);
            Some(crate::sizes::clamp_size(if px < 0 {
                0
            } else {
                px * SIZE_ONE / room
            }))
        },
    }
}

/// The tiling size for a requested length (see `spec_tiling_size_for_length`).
pub fn tiling_size_for_length(target: &LengthValue, parent_length: i32, gap: i32, siblings: usize, inset: i32) -> (r: Option<u64>)
    ensures
        r == spec_tiling_size_for_length(*target, parent_length, gap, siblings as nat, inset),
{
    proof {
        assert(-0x8000_0000 * 0x1_0000_0000_0000_0000 <= (gap as int) * (siblings as int) <= 0x8000_0000 * 0x1_0000_0000_0000_0000)
            by (nonlinear_arith)
            requires
                -0x8000_0000 <= gap <= 0x7fff_ffff,
                0 <= siblings <= 0xffff_ffff_ffff_ffff,
        ;
    }
    let gaps: i128 = gap as i128 * siblings as i128;
    let room: i128 = parent_length as i128 - gaps;
    if !(0 < room && room <= i32::MAX as i128) {
        return None;
    }
    let room32: i32 = room as i32;
    let px0 = target.to_px(room32, None);
    let px: i32 = if (px0 as i64) + (inset as i64) > i32::MAX as i64 {
        i32::MAX
    } else if (px0 as i64) + (inset as i64) < i32::MIN as i64 {
        i32::MIN
    } else {
        px0 + inset
    };
    if px < 0 {
        return Some(0);
    }
    let v: u128 = (px as u128) * (SIZE_ONE as u128) / (room as u128);
    proof {
        assert((px as int) * (SIZE_ONE as int) / (room as int) <= (px as int) * (SIZE_ONE as int)) by (nonlinear_arith)
            requires
                px >= 0,
                room >= 1,
        ;
        assert((px as int) * (SIZE_ONE as int) <= 0x8000_0000 * 1_000_000_000) by (nonlinear_arith)
            requires
                0 <= px <= 0x7fff_ffff,
        ;
    }
    Some(v as u64)
}

/// The tiling containers among `s` are as many as `tiling_count` counts.
proof fn lemma_tiling_of_len(t: &ContainerTree, s: Seq<usize>)
    ensures
        crate::tab_commands::tiling_of(t, s).len() == crate::sizes::tiling_count(t.nodes@, s),
    decreases s.len(),
{
    if s.len() > 0 {
        lemma_tiling_of_len(t, s.drop_last());
    }
}

/// What resizing tiling container `c`, a child of `p`, for the requested
/// `target` length (`set_tiling_length`) comes to: the tree `new` and the
/// pending sync `s1` from `s0`.
pub open spec fn tiling_length_set(
    old: &ContainerTree,
    new: &ContainerTree,
    p: int,
    c: int,
    target: LengthValue,
    parent_length: i32,
    gap: i32,
    inset: i32,
    s0: PendingSync,
    s1: PendingSync,
) -> bool {
    match spec_tiling_size_for_length(
        target,
        parent_length,
        gap,
        (crate::sizes::tiling_count(old.nodes@, old.ch(p as int)) - 1) as nat,
        inset,
    ) {
        Some(size) => if size != old.size(c as int) {
            &&& crate::sizes::same_but_sizes(new, old)
            &&& crate::sizes::tiling_count(old.nodes@, old.ch(p as int)) > 1 ==> new.size(c as int)
                == crate::resizing::resize_target(
                size as int,
                crate::sizes::tiling_count(old.nodes@, old.ch(p as int)) - 1,
            )
            &&& s1.containers_to_redraw@ == s0.containers_to_redraw@ + crate::tab_commands::tiling_of(
                new,
                new.ch(p as int),
            )
        } else {
            new.nodes@ == old.nodes@ && s1 == s0
        },
        None => new.nodes@ == old.nodes@ && s1 == s0,
    }
}

impl ContainerTree {
    /// Resizes tiling container `c`, a child of `p`, to the tiling size
    /// that gives a window in it the requested `target` length (see
    /// `spec_tiling_size_for_length`), where that differs from its size,
    /// and queues `p`'s tiling children for redraw. Nothing changes where
    /// the parent leaves no room or the size is already that.
    pub fn set_tiling_length(
        &mut self,
        p: usize,
        c: usize,
        target: &LengthValue,
        parent_length: i32,
        gap: i32,
        inset: i32,
        sync: &mut PendingSync,
    )
        requires
            old(self).wf(),
            (p as int) < old(self).len(),
            old(self).ch(p as int).contains(c),
            old(self).is_tiling(c as int),
        ensures
            final(self).wf(),
            tiling_length_set(old(self), final(self), p as int, c as int, *target, parent_length, gap, inset, *old(sync), *final(sync)),
    {
        proof {
            assert(self.node_wf(p as int));
            let k = choose|k: int| 0 <= k < self.ch(p as int).len() && self.ch(p as int)[k] == c;
            crate::sizes::lemma_count_positive(self.nodes@, self.ch(p as int), k);
        }
        let tc0 = self.tiling_children(p);
        proof {
            lemma_tiling_of_len(self, self.ch(p as int));
        }
        let siblings = tc0.len() - 1;
        let size = match tiling_size_for_length(target, parent_length, gap, siblings, inset) {
            Some(s) => s,
            None => {
                return;
            },
        };
        if size == self.nodes[c].tiling_size {
            return;
        }
        self.resize_tiling_container(p, c, size);
        let tc = self.tiling_children(p);
        sync.queue_containers_to_redraw(&tc);
    }
}


/// Where resizing a tiling window along one axis acts: `container`, the
/// window itself or the ancestor that the resize is for, a tiling child of
/// `parent`, whose length along that axis is `parent_length`, with inner
/// gap `gap` between its tiling children.
#[derive(Clone, Copy, Debug)]
pub struct ResizeFrame {
    pub parent: usize,
    pub container: usize,
    pub parent_length: i32,
    pub gap: i32,
}

/// Whether frame `f` names a tiling child of a container of `t`.
pub open spec fn frame_in(t: &ContainerTree, f: ResizeFrame) -> bool {
    &&& (f.parent as int) < t.len()
    &&& t.ch(f.parent as int).contains(f.container)
    &&& t.is_tiling(f.container as int)
}

/// An inset, held to what an `i32` can hold.
pub open spec fn inset_within(s: int) -> i32 {
    if s <= i32::MAX {
        s as i32
    } else {
        i32::MAX
    }
}

/// The two steps of resizing tiling window `w`: `old` to `mid` for the
/// width, then `mid` to `new` for the height (see `window_resized`).
pub open spec fn tiling_resize_steps(
    old: &ContainerTree,
    mid: &ContainerTree,
    new: &ContainerTree,
    w: usize,
    width: Option<LengthValue>,
    height: Option<LengthValue>,
    width_frame: Option<ResizeFrame>,
    height_frame: Option<ResizeFrame>,
    s0: PendingSync,
    smid: PendingSync,
    s1: PendingSync,
    r: Result<(), TreeError>,
) -> bool {
    &&& match (width, width_frame) {
        (Some(tw), Some(f)) => tiling_length_set(
            old,
            mid,
            f.parent as int,
            f.container as int,
            tw,
            f.parent_length,
            f.gap,
            0,
            s0,
            smid,
        ),
        _ => mid.nodes@ == old.nodes@ && smid == s0,
    }
    &&& match (height, height_frame) {
        (Some(th), Some(f)) => match tab_insets(mid, w as int, f.container as int, mid.len()) {
            Ok(s) => r is Ok && tiling_length_set(
                mid,
                new,
                f.parent as int,
                f.container as int,
                th,
                f.parent_length,
                f.gap,
                inset_within(s),
                smid,
                s1,
            ),
            Err(e) => r == Err::<(), TreeError>(e) && new.nodes@ == mid.nodes@ && s1 == smid,
        },
        _ => r is Ok && new.nodes@ == mid.nodes@ && s1 == smid,
    }
}

/// What resizing window `w` of `old` to `width` and `height` comes to
/// (`set_window_size`): a tiling window has its frame for each requested
/// length resized, width first (`tiling_length_set`), the height counting
/// the tab bars between the window and the container resized; a floating
/// window is resized against its monitor (`floating_resized`); any other
/// window stays as it is.
pub open spec fn window_resized(
    old: &ContainerTree,
    new: &ContainerTree,
    w: usize,
    width: Option<LengthValue>,
    height: Option<LengthValue>,
    width_frame: Option<ResizeFrame>,
    height_frame: Option<ResizeFrame>,
    s0: PendingSync,
    s1: PendingSync,
    r: Result<(), TreeError>,
) -> bool {
    match old.kind(w as int) {
        ContainerKind::TilingWindow(_) => exists|mid: ContainerTree, smid: PendingSync|
            #[trigger] tiling_resize_steps(old, &mid, new, w, width, height, width_frame, height_frame, s0, smid, s1, r),
        ContainerKind::NonTilingWindow(info) => if info.state is Floating {
            floating_resized(old, new, w, width, height, s0, s1, r)
        } else {
            r is Ok && new.nodes@ == old.nodes@ && s1 == s0
        },
        _ => r is Ok && new.nodes@ == old.nodes@ && s1 == s0,
    }
}

impl ContainerTree {
    /// Resizes window `w` to the requested `width` and `height`
    /// (`window_resized`). For a tiling window, `width_frame` and
    /// `height_frame` say where a resize along each axis acts; an axis
    /// without a length or a frame is left as it is.
    pub fn set_window_size(
        &mut self,
        w: usize,
        width: Option<LengthValue>,
        height: Option<LengthValue>,
        width_frame: Option<ResizeFrame>,
        height_frame: Option<ResizeFrame>,
        sync: &mut PendingSync,
    ) -> (r: Result<(), TreeError>)
        requires
            old(self).wf(),
            (w as int) < old(self).len(),
            width_frame matches Some(f) ==> frame_in(old(self), f),
            height_frame matches Some(f) ==> frame_in(old(self), f),
        ensures
            final(self).wf(),
            window_resized(old(self), final(self), w, width, height, width_frame, height_frame, *old(sync), *final(sync), r),
    {
        let floating = match &self.nodes[w].kind {
            ContainerKind::TilingWindow(_) => None,
            ContainerKind::NonTilingWindow(info) => Some(
                match info.state {
                    WindowState::Floating(_) => true,
                    _ => false,
                },
            ),
            _ => {
                return Ok(());
            },
        };
        match floating {
            Some(true) => self.set_floating_window_size(w, width, height, sync),
            Some(false) => Ok(()),
            None => {
                let ghost t0 = *self;
                let ghost s0 = *sync;
                match (width, width_frame) {
                    (Some(tw), Some(f)) => {
                        self.set_tiling_length(f.parent, f.container, &tw, f.parent_length, f.gap, 0, sync);
                    },
                    _ => {},
                }
                let ghost mid = *self;
                let ghost smid = *sync;
                match (height, height_frame) {
                    (Some(th), Some(f)) => {
                        proof {
                            assert(t0.node_wf(f.parent as int));
                            let k = choose|k: int|
                                0 <= k < t0.ch(f.parent as int).len() && t0.ch(f.parent as int)[k] == f.container;
                            assert(t0.valid(t0.ch(f.parent as int)[k] as int));
                            if mid.nodes@ != t0.nodes@ {
                                assert(crate::sizes::same_but_sizes(&mid, &t0));
                                assert(mid.nodes@[f.parent as int].children@ == t0.nodes@[f.parent as int].children@);
                                assert(mid.nodes@[f.container as int].kind == t0.nodes@[f.container as int].kind);
                            }
                            assert(frame_in(&mid, f));
                        }
                        let inset = match tab_bar_inset_between(self, w, f.container) {
                            Ok(x) => x,
                            Err(e) => {
                                proof {
                                    assert(tiling_resize_steps(&t0, &mid, self, w, width, height, width_frame, height_frame, s0, smid, *sync, Err(e)));
                                }
                                return Err(e);
                            },
                        };
                        self.set_tiling_length(f.parent, f.container, &th, f.parent_length, f.gap, inset, sync);
                    },
                    _ => {},
                }
                proof {
                    assert(tiling_resize_steps(&t0, &mid, self, w, width, height, width_frame, height_frame, s0, smid, *sync, Ok(())));
                }
                Ok(())
            },
        }
    }
}


/// Resizing a floating window along one side: with no request the length
/// stays; a request that grows the window is taken as it is; a request
/// that shrinks it is taken down to the minimum length and no further, so
/// the new length is the larger of the request and the minimum.
pub proof fn law_floating_resize_length(target: Option<i32>, current: i32, min: i32)
    ensures
        target is None ==> length_with_clamp(target, current, min) == current,
        forall|t: i32|
            target == Some(t) ==> {
                &&& length_with_clamp(target, current, min) == if t >= current {
                    t as int
                } else {
                    vstd::math::max(t as int, min as int)
                }
                &&& length_with_clamp(target, current, min) >= t
                &&& min <= t ==> length_with_clamp(target, current, min) == t
            },
{
}

} // verus!
