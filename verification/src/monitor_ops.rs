//! Monitors coming, changing and going: their side areas, the order of
//! their workspaces, and where the workspaces and windows of a removed
//! monitor go.
use vstd::prelude::*;

use crate::attach::{attach_outcome, detach_outcome, TreeError};
use crate::config::{GapsConfig, SideArea, SideAreasConfig, WorkspaceConfig};
use crate::geometry::Rect;
use crate::monitors::{monitor_of, regular_workspaces, spec_displayed_workspace, spec_side_area};
use crate::moves::{kind_set, moved_within_tree, placed_then, reinsert_index};
use crate::preflight::{config_index, config_rank, ws_name};
use crate::side_areas::{ensure_side_areas, side_areas_set, walk};
use crate::splits::children_flattened;
use crate::focus::push_reversed;
use crate::sync::PendingSync;
use crate::tree::{ContainerKind, ContainerTree, MonitorInfo, TilingDirection, WindowInfo};

verus! {

/// The config rank of workspace `w`'s name.
pub open spec fn ws_rank(t: &ContainerTree, cfg: Seq<WorkspaceConfig>, w: usize) -> int {
    config_rank(cfg, ws_name(t, w as int)@)
}

/// The first position of `s` whose workspace comes later in the config
/// than rank `k`, or the length.
pub open spec fn upper_position(t: &ContainerTree, cfg: Seq<WorkspaceConfig>, s: Seq<usize>, k: int) -> int
    decreases s.len(),
{
    if s.len() == 0 {
        0
    } else if ws_rank(t, cfg, s[0]) > k {
        0
    } else {
        1 + upper_position(t, cfg, s.skip(1), k)
    }
}

/// Workspaces `s` sorted by config rank, keeping the order of workspaces
/// of equal rank.
pub open spec fn sort_ids(t: &ContainerTree, cfg: Seq<WorkspaceConfig>, s: Seq<usize>) -> Seq<usize>
    decreases s.len(),
{
    if s.len() == 0 {
        s
    } else {
        let r = sort_ids(t, cfg, s.drop_last());
        r.insert(upper_position(t, cfg, r, ws_rank(t, cfg, s.last())), s.last())
    }
}

/// `s` with `x` taken out and put at position `target` (at the end where
/// that is further).
pub open spec fn shift_to(s: Seq<usize>, x: usize, target: int) -> Seq<usize> {
    let s2 = s.remove(s.index_of(x));
    s2.insert(if target <= s2.len() { target } else { s2.len() as int }, x)
}

/// `s` with each element of `order` shifted in turn to `offset` plus its
/// position in `order`.
pub open spec fn shift_all(s: Seq<usize>, order: Seq<usize>, offset: int) -> Seq<usize>
    decreases order.len(),
{
    if order.len() == 0 {
        s
    } else {
        shift_to(shift_all(s, order.drop_last(), offset), order.last(), offset + order.len() - 1)
    }
}

/// `upper_position` counted from position `j` on.
proof fn lemma_upper_step(t: &ContainerTree, cfg: Seq<WorkspaceConfig>, s: Seq<usize>, k: int, j: int)
    requires
        0 <= j < s.len(),
        ws_rank(t, cfg, s[j]) <= k,
    ensures
        upper_position(t, cfg, s.skip(j), k) == 1 + upper_position(t, cfg, s.skip(j + 1), k),
{
    assert(s.skip(j)[0] == s[j]);
    assert(s.skip(j).skip(1) =~= s.skip(j + 1));
}

/// Inserts workspace `x` into `sorted`, which is ordered by config rank,
/// after every workspace that does not come later in the config.
fn insert_id_ranked(t: &ContainerTree, cfg: &Vec<WorkspaceConfig>, sorted: &mut Vec<usize>, x: usize)
    requires
        (x as int) < t.len(),
        t.is_workspace(x as int),
        forall|q: int| 0 <= q < old(sorted)@.len() ==> (#[trigger] old(sorted)@[q] as int) < t.len() && t.is_workspace(
            old(sorted)@[q] as int,
        ),
    ensures
        final(sorted)@ == old(sorted)@.insert(upper_position(t, cfg@, old(sorted)@, ws_rank(t, cfg@, x)), x),
        forall|q: int| 0 <= q < final(sorted)@.len() ==> (#[trigger] final(sorted)@[q] as int) < t.len()
            && t.is_workspace(final(sorted)@[q] as int),
        forall|q: int| 0 <= q < final(sorted)@.len() ==> (#[trigger] final(sorted)@[q]) == x || old(sorted)@.contains(
            final(sorted)@[q],
        ),
{
    let name = t.workspace_name(x);
    let k = config_index(cfg, name.as_str());
    proof {
        assert(sorted@.skip(0) =~= sorted@);
    }
    let mut j: usize = 0;
    while j < sorted.len()
        invariant
            j <= sorted@.len(),
            sorted@ == old(sorted)@,
            (x as int) < t.len(),
            t.is_workspace(x as int),
            k as int == ws_rank(t, cfg@, x),
            forall|q: int| 0 <= q < sorted@.len() ==> (#[trigger] sorted@[q] as int) < t.len() && t.is_workspace(
                sorted@[q] as int,
            ),
            upper_position(t, cfg@, sorted@, k as int) == j + upper_position(t, cfg@, sorted@.skip(j as int), k as int),
        decreases sorted@.len() - j,
    {
        let other = t.workspace_name(sorted[j]);
        let rank = config_index(cfg, other.as_str());
        if rank > k {
            proof {
                assert(sorted@.skip(j as int)[0] == sorted@[j as int]);
            }
            let ghost before = sorted@;
            sorted.insert(j, x);
            proof {
                assert forall|q: int| 0 <= q < sorted@.len() implies (#[trigger] sorted@[q] as int) < t.len()
                    && t.is_workspace(sorted@[q] as int) by {
                    if q < j {
                        assert(sorted@[q] == before[q]);
                    } else if q > j {
                        assert(sorted@[q] == before[q - 1]);
                    }
                }
                assert forall|q: int| 0 <= q < sorted@.len() implies (#[trigger] sorted@[q]) == x || before.contains(
                    sorted@[q],
                ) by {
                    if q < j {
                        assert(sorted@[q] == before[q]);
                    } else if q > j {
                        assert(sorted@[q] == before[q - 1]);
                    }
                }
            }
            return;
        }
        proof {
            lemma_upper_step(t, cfg@, sorted@, k as int, j as int);
        }
        j = j + 1;
    }
    proof {
        assert(sorted@.skip(j as int).len() == 0);
    }
    let ghost before = sorted@;
    sorted.push(x);
    proof {
        assert(old(sorted)@.insert(old(sorted)@.len() as int, x) =~= old(sorted)@.push(x));
        assert forall|q: int| 0 <= q < sorted@.len() implies (#[trigger] sorted@[q]) == x || before.contains(sorted@[q]) by {
            if q < before.len() {
                assert(sorted@[q] == before[q]);
            }
        }
    }
}

/// Workspaces `s` sorted by config rank (see `sort_ids`).
fn sorted_ids(t: &ContainerTree, cfg: &Vec<WorkspaceConfig>, s: &Vec<usize>) -> (r: Vec<usize>)
    requires
        forall|q: int| 0 <= q < s@.len() ==> (#[trigger] s@[q] as int) < t.len() && t.is_workspace(s@[q] as int),
    ensures
        r@ == sort_ids(t, cfg@, s@),
        forall|q: int| 0 <= q < r@.len() ==> (#[trigger] r@[q] as int) < t.len() && t.is_workspace(r@[q] as int),
        forall|q: int| 0 <= q < r@.len() ==> s@.contains(#[trigger] r@[q]),
{
    let mut r: Vec<usize> = Vec::new();
    let mut i: usize = 0;
    while i < s.len()
        invariant
            i <= s@.len(),
            forall|q: int| 0 <= q < s@.len() ==> (#[trigger] s@[q] as int) < t.len() && t.is_workspace(s@[q] as int),
            r@ == sort_ids(t, cfg@, s@.take(i as int)),
            forall|q: int| 0 <= q < r@.len() ==> (#[trigger] r@[q] as int) < t.len() && t.is_workspace(r@[q] as int),
            forall|q: int| 0 <= q < r@.len() ==> s@.contains(#[trigger] r@[q]),
        decreases s@.len() - i,
    {
        let ghost before = r@;
        proof {
            assert(s@.take(i + 1).drop_last() =~= s@.take(i as int));
            assert(s@.take(i + 1).last() == s@[i as int]);
        }
        insert_id_ranked(t, cfg, &mut r, s[i]);
        proof {
            assert forall|q: int| 0 <= q < r@.len() implies s@.contains(#[trigger] r@[q]) by {
                if r@[q] == s@[i as int] {
                } else {
                    let k = choose|k: int| 0 <= k < before.len() && before[k] == r@[q];
                    assert(s@.contains(before[k]));
                }
            }
        }
        i = i + 1;
    }
    proof {
        assert(s@.take(s@.len() as int) =~= s@);
    }
    r
}

/// The regular workspaces among `s` are elements of `s`.
proof fn lemma_regular_member(t: &ContainerTree, s: Seq<usize>, j: int)
    requires
        0 <= j < regular_workspaces(t, s).len(),
    ensures
        s.contains(regular_workspaces(t, s)[j]),
    decreases s.len(),
{
    let r = regular_workspaces(t, s.drop_last());
    if j < r.len() {
        lemma_regular_member(t, s.drop_last(), j);
        let k = choose|k: int| 0 <= k < s.drop_last().len() && s.drop_last()[k] == r[j];
        assert(s[k] == r[j]);
    } else {
        assert(s[s.len() - 1] == s.last());
    }
}

/// Taking an element out and putting it back elsewhere keeps every
/// element.
proof fn lemma_shift_keeps(s: Seq<usize>, i: int, j: int, y: usize)
    requires
        0 <= i < s.len(),
        0 <= j <= s.len() - 1,
        s.contains(y),
    ensures
        s.remove(i).insert(j, s[i]).contains(y),
{
    let r = s.remove(i).insert(j, s[i]);
    if y == s[i] {
        assert(r[j] == y);
    } else {
        let k = choose|k: int| 0 <= k < s.len() && s[k] == y;
        let k2 = if k < i { k } else { k - 1 };
        assert(s.remove(i)[k2] == y);
        if k2 < j {
            assert(r[k2] == y);
        } else {
            assert(r[k2 + 1] == y);
        }
    }
}

/// `new` is `old` with the regular workspaces of monitor `m` ordered by
/// config rank after its left side area, where it has one (see
/// `shift_all`), and nothing else changed.
pub open spec fn workspaces_sorted(old: &ContainerTree, new: &ContainerTree, m: int, cfg: Seq<WorkspaceConfig>) -> bool {
    &&& new.len() == old.len()
    &&& new.ch(m) == shift_all(
        old.ch(m),
        sort_ids(old, cfg, regular_workspaces(old, old.ch(m))),
        if spec_side_area(old, m, SideArea::Left) is Some {
            1int
        } else {
            0int
        },
    )
    &&& forall|y: int|
        0 <= y < new.len() ==> {
            &&& (#[trigger] new.nodes@[y]).kind == old.nodes@[y].kind
            &&& new.nodes@[y].parent == old.nodes@[y].parent
            &&& y != m ==> new.nodes@[y].children@ == old.nodes@[y].children@
            &&& new.nodes@[y].focus_order@ == old.nodes@[y].focus_order@
            &&& new.nodes@[y].tiling_size == old.nodes@[y].tiling_size
            &&& new.nodes@[y].tiling_direction == old.nodes@[y].tiling_direction
        }
}

impl ContainerTree {
    /// Orders the regular workspaces of monitor `m` by config rank after
    /// its left side area, where it has one: each, in that order, is
    /// shifted to its place (see `shift_all`). Nothing else changes.
    pub fn sort_workspaces(&mut self, m: usize, cfg: &Vec<WorkspaceConfig>)
        requires
            old(self).wf(),
            (m as int) < old(self).len(),
        ensures
            final(self).wf(),
            workspaces_sorted(old(self), final(self), m as int, cfg@),
    {
        let ghost t0 = *self;
        let ws = self.workspaces(m);
        proof {
            assert(t0.node_wf(m as int));
            assert forall|k: int| 0 <= k < t0.ch(m as int).len() implies (#[trigger] t0.ch(m as int)[k] as int) < t0.len() by {
                assert(t0.valid(t0.ch(m as int)[k] as int));
            }
            assert forall|q: int| 0 <= q < ws@.len() implies (#[trigger] ws@[q] as int) < self.len() && self.is_workspace(
                ws@[q] as int,
            ) && t0.ch(m as int).contains(ws@[q]) by {
                crate::preflight::lemma_regular_in_tree(self, t0.ch(m as int), q);
                lemma_regular_member(self, t0.ch(m as int), q);
            }
        }
        let sorted = sorted_ids(self, cfg, &ws);
        let offset: usize = if self.side_area(m, SideArea::Left).is_some() {
            1
        } else {
            0
        };
        proof {
            assert(sorted@.take(0) =~= Seq::<usize>::empty());
            assert forall|q: int| 0 <= q < sorted@.len() implies t0.ch(m as int).contains(#[trigger] sorted@[q]) by {
                assert(ws@.contains(sorted@[q]));
                let k = choose|k: int| 0 <= k < ws@.len() && ws@[k] == sorted@[q];
                assert(t0.ch(m as int).contains(ws@[k]));
            }
        }
        let mut k: usize = 0;
        while k < sorted.len()
            invariant
                self.wf(),
                self.len() == t0.len(),
                (m as int) < self.len(),
                k <= sorted@.len(),
                offset <= 1,
                self.ch(m as int) == shift_all(t0.ch(m as int), sorted@.take(k as int), offset as int),
                forall|q: int| 0 <= q < sorted@.len() ==> self.ch(m as int).contains(#[trigger] sorted@[q]),
                forall|y: int|
                    0 <= y < self.len() ==> {
                        &&& (#[trigger] self.nodes@[y]).kind == t0.nodes@[y].kind
                        &&& self.nodes@[y].parent == t0.nodes@[y].parent
                        &&& y != m ==> self.nodes@[y].children@ == t0.nodes@[y].children@
                        &&& self.nodes@[y].focus_order@ == t0.nodes@[y].focus_order@
                        &&& self.nodes@[y].tiling_size == t0.nodes@[y].tiling_size
                        &&& self.nodes@[y].tiling_direction == t0.nodes@[y].tiling_direction
                    },
            decreases sorted@.len() - k,
        {
            let w = sorted[k];
            let ghost before = *self;
            let ghost s = self.ch(m as int);
            proof {
                assert(s.contains(w));
                assert(self.node_wf(m as int));
                let j = choose|j: int| 0 <= j < s.len() && s[j] == w;
                assert(self.parent_of(s[j] as int) == Some(m));
                assert(self.valid(s[j] as int));
            }
            let i = self.index_in(m, w);
            proof {
                assert(s.no_duplicates());
                assert(s.index_of(w) == i as int) by {
                    let j = s.index_of(w);
                    assert(0 <= j < s.len() && s[j] == w);
                }
            }
            let target = offset + k;
            let n = self.nodes[m].children.len();
            let index = if target >= i {
                if target < n {
                    target + 1
                } else {
                    n
                }
            } else {
                target
            };
            self.reorder_child(m, w, index);
            proof {
                assert(sorted@.take(k + 1).drop_last() =~= sorted@.take(k as int));
                assert(sorted@.take(k + 1).last() == w);
                assert(self.ch(m as int) == shift_to(s, w, target as int));
                assert forall|q: int| 0 <= q < sorted@.len() implies self.ch(m as int).contains(#[trigger] sorted@[q]) by {
                    assert(s.contains(sorted@[q]));
                    lemma_shift_keeps(s, i as int, reinsert_index(i as int, index as int, s.len() as int), sorted@[q]);
                }
            }
            k = k + 1;
        }
        proof {
            assert(sorted@.take(sorted@.len() as int) =~= sorted@);
        }
    }
}

/// The windows among `s`, in order.
pub open spec fn windows_in(t: &ContainerTree, s: Seq<usize>) -> Seq<usize>
    decreases s.len(),
{
    if s.len() == 0 {
        s
    } else {
        let r = windows_in(t, s.drop_last());
        if t.is_window(s.last() as int) {
            r.push(s.last())
        } else {
            r
        }
    }
}

/// A window's properties once it moved to an area with rectangle `rect`:
/// its floating placement centred there, its DPI to be adjusted.
pub open spec fn moved_info(info: WindowInfo, rect: Rect) -> WindowInfo {
    WindowInfo {
        has_pending_dpi_adjustment: true,
        floating_placement: info.floating_placement.spec_translate_to_center(&rect),
        ..info
    }
}

/// The kind of a window with properties `info`, tiling or not as `k`.
pub open spec fn with_info(k: ContainerKind, info: WindowInfo) -> ContainerKind {
    match k {
        ContainerKind::TilingWindow(_) => ContainerKind::TilingWindow(info),
        ContainerKind::NonTilingWindow(_) => ContainerKind::NonTilingWindow(info),
        other => other,
    }
}

impl ContainerTree {
    /// `c` and its descendants, depth first (see `walk`).
    pub fn self_and_descendants(&self, c: usize) -> (r: Vec<usize>)
        requires
            self.wf(),
            (c as int) < self.len(),
        ensures
            r@ == walk(self, seq![c], self.len()),
            forall|q: int| 0 <= q < r@.len() ==> (#[trigger] r@[q] as int) < self.len(),
    {
        let ghost t0 = *self;
        let n = self.nodes.len();
        let mut stack: Vec<usize> = Vec::new();
        stack.push(c);
        let mut out: Vec<usize> = Vec::new();
        let mut fuel = n;
        proof {
            assert(stack@ =~= seq![c]);
            assert(out@ + walk(self, stack@, fuel as nat) =~= walk(self, seq![c], n as nat));
        }
        while fuel > 0 && stack.len() > 0
            invariant
                self.wf(),
                *self == t0,
                n == self.len(),
                fuel <= n,
                forall|q: int| 0 <= q < stack@.len() ==> (#[trigger] stack@[q] as int) < self.len(),
                forall|q: int| 0 <= q < out@.len() ==> (#[trigger] out@[q] as int) < self.len(),
                out@ + walk(self, stack@, fuel as nat) == walk(self, seq![c], n as nat),
            decreases fuel,
        {
            let ghost before_stack = stack@;
            let ghost before_out = out@;
            let x = stack.pop().unwrap();
            proof {
                assert(x == before_stack.last());
                assert(stack@ =~= before_stack.drop_last());
            }
            out.push(x);
            self.push_kids(&mut stack, x, Ghost(t0));
            fuel = fuel - 1;
            proof {
                assert(walk(self, before_stack, (fuel + 1) as nat) == seq![x] + walk(self, stack@, fuel as nat));
                assert(out@ + walk(self, stack@, fuel as nat) =~= before_out + walk(self, before_stack, (fuel + 1) as nat));
            }
        }
        proof {
            assert(walk(self, stack@, fuel as nat) =~= Seq::<usize>::empty());
            assert(out@ + Seq::<usize>::empty() =~= out@);
        }
        out
    }

    /// Whether `x` is a window.
    fn window_node(&self, x: usize) -> (r: bool)
        requires
            (x as int) < self.len(),
        ensures
            r == self.is_window(x as int),
    {
        match &self.nodes[x].kind {
            ContainerKind::TilingWindow(_) => true,
            ContainerKind::NonTilingWindow(_) => true,
            _ => false,
        }
    }

    /// The windows among `c` and its descendants, depth first.
    pub fn windows_within(&self, c: usize) -> (r: Vec<usize>)
        requires
            self.wf(),
            (c as int) < self.len(),
        ensures
            r@ == windows_in(self, walk(self, seq![c], self.len())),
            forall|q: int| 0 <= q < r@.len() ==> (#[trigger] r@[q] as int) < self.len() && self.is_window(r@[q] as int),
    {
        let all = self.self_and_descendants(c);
        let mut r: Vec<usize> = Vec::new();
        let mut i: usize = 0;
        while i < all.len()
            invariant
                i <= all@.len(),
                forall|q: int| 0 <= q < all@.len() ==> (#[trigger] all@[q] as int) < self.len(),
                r@ == windows_in(self, all@.take(i as int)),
                forall|q: int| 0 <= q < r@.len() ==> (#[trigger] r@[q] as int) < self.len() && self.is_window(r@[q] as int),
            decreases all@.len() - i,
        {
            proof {
                assert(all@.take(i + 1).drop_last() =~= all@.take(i as int));
                assert(all@.take(i + 1).last() == all@[i as int]);
            }
            if self.window_node(all[i]) {
                r.push(all[i]);
            }
            i = i + 1;
        }
        proof {
            assert(all@.take(all@.len() as int) =~= all@);
        }
        r
    }

    /// Marks window `w` as moved to an area with rectangle `rect` (see
    /// `moved_info`).
    pub fn set_window_moved(&mut self, w: usize, rect: &Rect)
        requires
            old(self).wf(),
            (w as int) < old(self).len(),
            old(self).is_window(w as int),
        ensures
            final(self).wf(),
            kind_set(old(self), final(self), w as int, with_info(old(self).kind(w as int), moved_info(old(self).window_info(w as int), *rect))),
    {
        let ghost before = *self;
        let mut node = self.take_node(w);
        match node.kind {
            ContainerKind::TilingWindow(info) => {
                let placement = info.floating_placement.translate_to_center(rect);
                node.kind = ContainerKind::TilingWindow(
                    WindowInfo { has_pending_dpi_adjustment: true, floating_placement: placement, ..info },
                );
            },
            ContainerKind::NonTilingWindow(info) => {
                let placement = info.floating_placement.translate_to_center(rect);
                node.kind = ContainerKind::NonTilingWindow(
                    WindowInfo { has_pending_dpi_adjustment: true, floating_placement: placement, ..info },
                );
            },
            other => {
                node.kind = other;
            },
        }
        self.put_back(w, node, Ghost(before));
    }
}

/// The kinds of the containers of `t`, by id.
pub open spec fn kinds_of(t: &ContainerTree) -> Seq<ContainerKind> {
    t.nodes@.map_values(|n: crate::tree::Node| n.kind)
}

/// The properties of a window of kind `k`.
pub open spec fn kind_window_info(k: ContainerKind) -> WindowInfo {
    match k {
        ContainerKind::TilingWindow(info) => info,
        ContainerKind::NonTilingWindow(info) => info,
        _ => arbitrary(),
    }
}

/// The kinds `ks` after each of `ws` that is a window, in order, was
/// marked as moved to an area with rectangle `rect` (`moved_info`).
pub open spec fn kinds_after_moves(ks: Seq<ContainerKind>, ws: Seq<usize>, rect: Rect) -> Seq<ContainerKind>
    decreases ws.len(),
{
    if ws.len() == 0 {
        ks
    } else {
        let k = kinds_after_moves(ks, ws.drop_last(), rect);
        let y = ws.last() as int;
        if y < k.len() && crate::tree::kind_is_window(k[y]) {
            k.update(y, with_info(k[y], moved_info(kind_window_info(k[y]), rect)))
        } else {
            k
        }
    }
}

/// `new` has the links, sizes and directions of `old`.
pub open spec fn same_but_kinds(old: &ContainerTree, new: &ContainerTree) -> bool {
    &&& new.len() == old.len()
    &&& forall|y: int|
        0 <= y < new.len() ==> {
            &&& (#[trigger] new.nodes@[y]).parent == old.nodes@[y].parent
            &&& new.nodes@[y].children@ == old.nodes@[y].children@
            &&& new.nodes@[y].focus_order@ == old.nodes@[y].focus_order@
            &&& new.nodes@[y].tiling_size == old.nodes@[y].tiling_size
            &&& new.nodes@[y].tiling_direction == old.nodes@[y].tiling_direction
        }
}

/// Where workspace `w` goes among the children of monitor `target`: before
/// its right side area, where it has one, else last.
pub open spec fn move_index(t: &ContainerTree, target: int) -> usize {
    if spec_side_area(t, target, SideArea::Right) is Some && t.ch(target).len() > 0 {
        (t.ch(target).len() - 1) as usize
    } else {
        t.ch(target).len() as usize
    }
}

/// What moving workspace `w` from monitor `origin` to monitor `target`
/// leaves, with `q0` and `q` the containers queued for redraw before and
/// after: `w` moved to `move_index` of `target` (`moved_within_tree`);
/// its windows centred in its new rectangle and marked for DPI adjustment
/// (`kinds_after_moves`); `w` and the workspace `target` displays queued;
/// then, where `origin` has no regular workspace left, `Ok(Some(origin))`,
/// else the workspace `origin` displays queued and `Ok(None)`; in both,
/// `target`'s workspaces sorted (`workspaces_sorted`). A monitor without a
/// displayed workspace gives `NoWorkspace`.
pub open spec fn workspace_move_done(
    old: &ContainerTree,
    new: &ContainerTree,
    w: int,
    target: int,
    origin: int,
    cfg: Seq<WorkspaceConfig>,
    q0: Seq<usize>,
    q: Seq<usize>,
    r: Result<Option<usize>, TreeError>,
) -> bool {
    exists|t1: ContainerTree, t2: ContainerTree| {
        &&& #[trigger] moved_within_tree(old, &t1, w, target, move_index(old, target), Ok(()))
        &&& same_but_kinds(&t1, &t2)
        &&& #[trigger] kinds_of(&t2) == kinds_after_moves(
            kinds_of(&t1),
            windows_in(&t1, walk(&t1, seq![w as usize], t1.len())),
            crate::areas::spec_workspace_rect(&t1, w, target),
        )
        &&& match spec_displayed_workspace(&t2, target) {
            None => r == Err::<Option<usize>, TreeError>(TreeError::NoWorkspace) && new.nodes@ == t2.nodes@ && q == q0,
            Some(d) => if regular_workspaces(&t2, t2.ch(origin)).len() == 0 {
                r == Ok::<Option<usize>, TreeError>(Some(origin as usize)) && q == q0.push(w as usize).push(d)
                    && workspaces_sorted(&t2, new, target, cfg)
            } else {
                match spec_displayed_workspace(&t2, origin) {
                    None => r == Err::<Option<usize>, TreeError>(TreeError::NoWorkspace) && new.nodes@ == t2.nodes@
                        && q == q0.push(w as usize).push(d),
                    Some(d2) => r == Ok::<Option<usize>, TreeError>(None) && q == q0.push(w as usize).push(d).push(d2)
                        && workspaces_sorted(&t2, new, target, cfg),
                }
            },
        }
    }
}

/// The windows among each of `cs` and its descendants, child by child.
pub open spec fn windows_under(t: &ContainerTree, cs: Seq<usize>) -> Seq<usize>
    decreases cs.len(),
{
    if cs.len() == 0 {
        Seq::empty()
    } else {
        windows_under(t, cs.drop_last()) + windows_in(t, walk(t, seq![cs.last()], t.len()))
    }
}

/// `new` is `old` with the children of `area` moved, first to last, to
/// the end of `target`'s children and focus order, and nothing else
/// linked otherwise.
pub open spec fn contents_moved(old: &ContainerTree, new: &ContainerTree, area: int, target: int) -> bool {
    &&& new.wf()
    &&& new.len() == old.len()
    &&& new.ch(area).len() == 0
    &&& new.fo(area).len() == 0
    &&& new.ch(target) == old.ch(target) + old.ch(area)
    &&& new.fo(target) == old.fo(target) + old.ch(area)
    &&& forall|k: int| 0 <= k < old.ch(area).len() ==> new.parent_of(#[trigger] old.ch(area)[k] as int) == Some(target as usize)
    &&& forall|i: int| 0 <= i < new.len() && i != area && i != target ==> #[trigger] new.ch(i) == old.ch(i) && new.fo(i) == old.fo(i)
    &&& forall|i: int| 0 <= i < new.len() && !old.ch(area).contains(i as usize) ==> #[trigger] new.parent_of(i) == old.parent_of(i)
    &&& forall|i: int| 0 <= i < new.len() ==> (#[trigger] new.nodes@[i]).kind == old.nodes@[i].kind
}

/// Moves the children of side area `area`, first to last, to the end of
/// workspace `target` (`contents_moved`), then flattens the split children
/// of `target` (`children_flattened`). Gives the windows among the moved
/// containers and their descendants, or the error of the flattening.
#[verifier::spinoff_prover]
#[verifier::rlimit(40)]
pub fn move_side_area_contents(tree: &mut ContainerTree, area: usize, target: usize) -> (r: Result<Vec<usize>, TreeError>)
    requires
        old(tree).wf(),
        (area as int) < old(tree).len(),
        (target as int) < old(tree).len(),
        area != target,
        old(tree).is_workspace(area as int),
        old(tree).is_workspace(target as int),
    ensures
        final(tree).wf(),
        final(tree).len() == old(tree).len(),
        r matches Ok(ws) ==> forall|q: int| 0 <= q < ws@.len() ==> (#[trigger] ws@[q] as int) < final(tree).len(),
        exists|mid: ContainerTree, r0: Result<(), TreeError>| {
            &&& contents_moved(old(tree), &mid, area as int, target as int)
            &&& #[trigger] children_flattened(&mid, final(tree), target, r0)
            &&& r0 is Ok ==> (r matches Ok(ws) && ws@ == windows_under(old(tree), old(tree).ch(area as int)))
            &&& (r0 matches Err(e) ==> r == Err::<Vec<usize>, TreeError>(e))
        },
{
    let children = crate::tabs::copy_ids(&tree.nodes[area].children);
    let ghost t0 = *tree;
    let ghost s = t0.ch(area as int);
    proof {
        assert(t0.node_wf(area as int));
        assert forall|j: int| 0 <= j < children@.len() implies (#[trigger] children@[j] as int) < t0.len() by {
            assert(t0.valid(children@[j] as int));
        }
    }
    let mut moved: Vec<usize> = Vec::new();
    let mut k: usize = 0;
    while k < children.len()
        invariant
            tree.wf(),
            *tree == t0,
            children@ == s,
            s == t0.ch(area as int),
            k <= s.len(),
            forall|j: int| 0 <= j < s.len() ==> (#[trigger] s[j] as int) < t0.len(),
            moved@ == windows_under(&t0, s.take(k as int)),
            forall|q: int| 0 <= q < moved@.len() ==> (#[trigger] moved@[q] as int) < t0.len(),
        decreases s.len() - k,
    {
        let ws = tree.windows_within(children[k]);
        let mut q: usize = 0;
        let ghost base = moved@;
        while q < ws.len()
            invariant
                q <= ws@.len(),
                forall|j: int| 0 <= j < ws@.len() ==> (#[trigger] ws@[j] as int) < t0.len(),
                forall|j: int| 0 <= j < moved@.len() ==> (#[trigger] moved@[j] as int) < t0.len(),
                moved@ == base + ws@.take(q as int),
            decreases ws@.len() - q,
        {
            moved.push(ws[q]);
            q = q + 1;
            proof {
                assert(moved@ =~= base + ws@.take(q as int));
            }
        }
        proof {
            assert(ws@.take(ws@.len() as int) =~= ws@);
            assert(s.take(k + 1).drop_last() =~= s.take(k as int));
            assert(s.take(k + 1).last() == s[k as int]);
        }
        k = k + 1;
    }
    proof {
        assert(s.take(s.len() as int) =~= s);
    }
    proof {
        assert(s.skip(0) =~= s);
        assert(t0.ch(target as int) + s.take(0) =~= t0.ch(target as int));
        assert(t0.fo(target as int) + s.take(0) =~= t0.fo(target as int));
    }
    let mut k: usize = 0;
    while k < children.len()
        invariant
            tree.wf(),
            tree.len() == t0.len(),
            t0.wf(),
            children@ == s,
            s == t0.ch(area as int),
            t0.node_wf(area as int),
            k <= s.len(),
            area != target,
            (area as int) < t0.len(),
            (target as int) < t0.len(),
            t0.is_workspace(area as int),
            forall|j: int| 0 <= j < s.len() ==> (#[trigger] s[j] as int) < t0.len(),
            tree.ch(area as int) == s.skip(k as int),
            tree.ch(target as int) == t0.ch(target as int) + s.take(k as int),
            tree.fo(target as int) == t0.fo(target as int) + s.take(k as int),
            forall|j: int| 0 <= j < k ==> tree.parent_of(#[trigger] s[j] as int) == Some(target),
            forall|i: int| 0 <= i < tree.len() && i != area && i != target ==> #[trigger] tree.ch(i) == t0.ch(i) && tree.fo(i) == t0.fo(i),
            forall|i: int| 0 <= i < tree.len() && !s.take(k as int).contains(i as usize) ==> #[trigger] tree.parent_of(i) == t0.parent_of(i),
            forall|i: int| 0 <= i < tree.len() ==> (#[trigger] tree.nodes@[i]).kind == t0.nodes@[i].kind,
        decreases s.len() - k,
    {
        let c = children[k];
        let ghost before = *tree;
        proof {
            assert(before.ch(area as int)[0] == c);
            assert(before.node_wf(area as int));
            assert(before.parent_of(c as int) == Some(area));
            assert(before.nodes@[area as int].kind == t0.nodes@[area as int].kind);
            assert(!(before.is_split(area as int) || before.is_tabbed(area as int)));
            assert(!s.take(k as int).contains(c)) by {
                if s.take(k as int).contains(c) {
                    let q = choose|q: int| 0 <= q < k && s.take(k as int)[q] == c;
                    assert(t0.focus_wf(area as int));
                    assert(s[q] == s[k as int]);
                }
            }
        }
        let _ = tree.detach_container(c);
        let ghost mid = *tree;
        proof {
            let kk = choose|kk: int| 0 <= kk < before.ch(area as int).len() && before.ch(area as int)[kk] == c
                && mid.ch(area as int) == before.ch(area as int).remove(kk);
            assert(before.ch(area as int).no_duplicates());
            assert(kk == 0);
            assert(mid.ch(area as int) =~= s.skip(k + 1));
            assert forall|i: int| 0 <= i < mid.len() && i != area && i != target implies #[trigger] mid.ch(i) == t0.ch(i)
                && mid.fo(i) == t0.fo(i) by {
                assert(mid.ch(i) == before.ch(i) && mid.fo(i) == before.fo(i));
            }
        }
        let _ = tree.attach_container(c, target, None);
        proof {
            let t = *tree;
            assert forall|i: int| 0 <= i < t.len() && i != area && i != target implies #[trigger] t.ch(i) == t0.ch(i)
                && t.fo(i) == t0.fo(i) by {
                assert(t.ch(i) == mid.ch(i) && t.fo(i) == mid.fo(i));
                assert(mid.ch(i) == t0.ch(i));
            }
            assert(s.take(k + 1) =~= s.take(k as int).push(c));
            assert(t.ch(target as int) =~= t0.ch(target as int) + s.take(k + 1));
            assert(t.fo(target as int) =~= t0.fo(target as int) + s.take(k + 1));
            assert forall|j: int| 0 <= j < k + 1 implies t.parent_of(#[trigger] s[j] as int) == Some(target) by {
                if j < k {
                    assert(s[j] != c) by {
                        assert(t0.focus_wf(area as int));
                    }
                }
            }
            assert forall|i: int| 0 <= i < t.len() && !s.take(k + 1).contains(i as usize) implies #[trigger] t.parent_of(i)
                == t0.parent_of(i) by {
                assert(i != c as int) by {
                    assert(s.take(k + 1)[k as int] == c);
                }
                if s.take(k as int).contains(i as usize) {
                    let q = choose|q: int| 0 <= q < k && s.take(k as int)[q] == i as usize;
                    assert(s.take(k + 1)[q] == i as usize);
                }
            }
        }
        k = k + 1;
    }
    let ghost mid = *tree;
    proof {
        assert(s.skip(s.len() as int).len() == 0);
        assert(s.take(s.len() as int) =~= s);
        assert(mid.node_wf(area as int));
        assert forall|i: int| 0 <= i < mid.len() && !s.contains(i as usize) implies #[trigger] mid.parent_of(i)
            == t0.parent_of(i) by {
            assert(!s.take(s.len() as int).contains(i as usize));
        }
        assert forall|kk: int| 0 <= kk < t0.ch(area as int).len() implies mid.parent_of(#[trigger] t0.ch(area as int)[kk] as int)
            == Some(target) by {
            assert(s[kk] == t0.ch(area as int)[kk]);
        }
        assert forall|i: int| 0 <= i < mid.len() && i != area && i != target implies #[trigger] mid.ch(i) == t0.ch(i)
            && mid.fo(i) == t0.fo(i) by {}
        assert forall|i: int| 0 <= i < mid.len() implies (#[trigger] mid.nodes@[i]).kind == t0.nodes@[i].kind by {}
        assert(mid.ch(area as int).len() == 0);
        assert(mid.fo(area as int).len() == 0);
        assert(mid.ch(target as int) == t0.ch(target as int) + t0.ch(area as int));
        assert(mid.fo(target as int) == t0.fo(target as int) + t0.ch(area as int));
        assert(contents_moved(&t0, &mid, area as int, target as int));
    }
    let r = crate::splits::flatten_child_split_containers(tree, target);
    match r {
        Err(e) => Err(e),
        Ok(()) => Ok(moved),
    }
}

/// Whether a workspace moves to the other monitor when its own is
/// removed: it has children or is kept alive.
pub open spec fn kept_on_removal(t: &ContainerTree, w: int) -> bool {
    t.ch(w).len() > 0 || t.workspace_info(w).config.keep_alive
}

/// Moving `w`, whose parent is not a layout container, to `p` changes no
/// other container's parent, and the children of none but `p` and `w`'s
/// former parent.
proof fn lemma_move_frame(old: &ContainerTree, new: &ContainerTree, w: int, p: int, index: usize, r: Result<(), TreeError>)
    requires
        old.wf(),
        0 <= w < old.len(),
        0 <= p < old.len(),
        old.parent_of(w) matches Some(q) && !(old.is_split(q as int) || old.is_tabbed(q as int)),
        moved_within_tree(old, new, w, p, index, r),
    ensures
        forall|y: int| 0 <= y < new.len() && y != w ==> #[trigger] new.parent_of(y) == old.parent_of(y),
        forall|y: int|
            0 <= y < new.len() && y != p && Some(y as usize) != old.parent_of(w) ==> #[trigger] new.ch(y) == old.ch(y),
{
    if old.parent_of(w) != Some(p as usize) {
        let (mid, r0) = choose|mid: ContainerTree, r0: Result<(), TreeError>| {
            &&& #[trigger] placed_then(old, &mid, w, r0)
            &&& attach_outcome(&mid, new, w, p, Some(crate::moves::clamp_index(index, mid.ch(p).len())), r)
        };
        assert forall|y: int| 0 <= y < new.len() && y != w implies #[trigger] new.parent_of(y) == old.parent_of(y) by {
            assert(mid.parent_of(y) == old.parent_of(y));
        }
        assert forall|y: int| 0 <= y < new.len() && y != p && Some(y as usize) != old.parent_of(w) implies #[trigger] new.ch(y)
            == old.ch(y) by {
            assert(mid.ch(y) == old.ch(y));
        }
    } else {
        assert forall|y: int| 0 <= y < new.len() && y != w implies #[trigger] new.parent_of(y) == old.parent_of(y) by {
            assert(new.nodes@[y].parent == old.nodes@[y].parent);
        }
        assert forall|y: int| 0 <= y < new.len() && y != p && Some(y as usize) != old.parent_of(w) implies #[trigger] new.ch(y)
            == old.ch(y) by {
            assert(new.nodes@[y].children@ == old.nodes@[y].children@);
        }
    }
}

/// The monitors among `s` other than `m`: the first one.
pub open spec fn other_monitor(t: &ContainerTree, s: Seq<usize>, m: usize) -> Option<usize> {
    crate::focus_direction::first_such(s, |x: usize| x != m && t.is_monitor(x as int))
}

/// `new` is `old` with each window among `ws`, in order, marked as moved
/// to an area with rectangle `rect` (`kinds_after_moves`), and nothing
/// else changed.
pub open spec fn windows_marked(old: &ContainerTree, new: &ContainerTree, ws: Seq<usize>, rect: Rect) -> bool {
    &&& same_but_kinds(old, new)
    &&& kinds_of(new) == kinds_after_moves(kinds_of(old), ws, rect)
}

/// Marking windows as moved keeps the number and the other kinds.
proof fn lemma_kinds_after_moves(ks: Seq<ContainerKind>, ws: Seq<usize>, rect: Rect)
    ensures
        kinds_after_moves(ks, ws, rect).len() == ks.len(),
        forall|i: int| 0 <= i < ks.len() && !crate::tree::kind_is_window(ks[i]) ==> #[trigger] kinds_after_moves(ks, ws, rect)[i] == ks[i],
        forall|i: int| 0 <= i < ks.len() && crate::tree::kind_is_window(ks[i]) ==> crate::tree::kind_is_window(#[trigger] kinds_after_moves(ks, ws, rect)[i]),
    decreases ws.len(),
{
    if ws.len() > 0 {
        lemma_kinds_after_moves(ks, ws.drop_last(), rect);
    }
}

impl ContainerTree {
    /// Marks each window among `ws` as moved to an area with rectangle
    /// `rect` (see `set_window_moved`).
    pub fn mark_windows_moved(&mut self, ws: &Vec<usize>, rect: &Rect)
        requires
            old(self).wf(),
            forall|j: int| 0 <= j < ws@.len() ==> (#[trigger] ws@[j] as int) < old(self).len(),
        ensures
            final(self).wf(),
            windows_marked(old(self), final(self), ws@, *rect),
    {
        let ghost t1 = *self;
        proof {
            assert(ws@.take(0) =~= Seq::<usize>::empty());
            assert(kinds_of(self) =~= kinds_after_moves(kinds_of(&t1), ws@.take(0), *rect));
            assert forall|j: int| 0 <= j < self.len() implies {
                &&& (#[trigger] self.nodes@[j]).parent == t1.nodes@[j].parent
                &&& self.nodes@[j].children@ == t1.nodes@[j].children@
                &&& self.nodes@[j].focus_order@ == t1.nodes@[j].focus_order@
                &&& self.nodes@[j].tiling_size == t1.nodes@[j].tiling_size
                &&& self.nodes@[j].tiling_direction == t1.nodes@[j].tiling_direction
            } by {}
        }
        let mut q: usize = 0;
        while q < ws.len()
            invariant
                self.wf(),
                self.len() == t1.len(),
                q <= ws@.len(),
                forall|j: int| 0 <= j < ws@.len() ==> (#[trigger] ws@[j] as int) < self.len(),
                same_but_kinds(&t1, self),
                kinds_of(self) == kinds_after_moves(kinds_of(&t1), ws@.take(q as int), *rect),
            decreases ws@.len() - q,
        {
            let ghost before = *self;
            let y = ws[q];
            proof {
                assert(ws@.take(q + 1).drop_last() =~= ws@.take(q as int));
                assert(ws@.take(q + 1).last() == y);
                assert(kinds_of(&before)[y as int] == before.nodes@[y as int].kind);
            }
            if self.window_node(y) {
                self.set_window_moved(y, rect);
                proof {
                    assert(kinds_of(self) =~= kinds_of(&before).update(
                        y as int,
                        with_info(kinds_of(&before)[y as int], moved_info(kind_window_info(kinds_of(&before)[y as int]), *rect)),
                    )) by {
                        assert forall|j: int| 0 <= j < self.len() implies kinds_of(self)[j] == kinds_of(&before).update(
                            y as int,
                            with_info(kinds_of(&before)[y as int], moved_info(kind_window_info(kinds_of(&before)[y as int]), *rect)),
                        )[j] by {
                            assert(self.nodes@[j].kind == kinds_of(self)[j]);
                        }
                    }
                    assert forall|j: int| 0 <= j < self.len() implies {
                        &&& (#[trigger] self.nodes@[j]).parent == t1.nodes@[j].parent
                        &&& self.nodes@[j].children@ == t1.nodes@[j].children@
                        &&& self.nodes@[j].focus_order@ == t1.nodes@[j].focus_order@
                        &&& self.nodes@[j].tiling_size == t1.nodes@[j].tiling_size
                        &&& self.nodes@[j].tiling_direction == t1.nodes@[j].tiling_direction
                    } by {
                        assert(before.nodes@[j].parent == t1.nodes@[j].parent);
                    }
                }
            }
            q = q + 1;
        }
        proof {
            assert(ws@.take(ws@.len() as int) =~= ws@);
        }
    }
}

/// Where the contents of `m`'s side area on `side` go when `m` is removed:
/// the other monitor `target`'s side area on that side, or else the
/// workspace it displays.
pub open spec fn evacuation_target(t: &ContainerTree, target: int, side: SideArea) -> Option<usize> {
    match spec_side_area(t, target, side) {
        Some(x) => Some(x),
        None => spec_displayed_workspace(t, target),
    }
}

/// What evacuating the side area on `side` of monitor `m` to monitor
/// `target` leaves, for each result `r`: without such an area nothing
/// changes; otherwise its contents move to the evacuation target
/// (`contents_moved`), whose split children are flattened
/// (`children_flattened`), the windows that were under the area are
/// centred in the target's rectangle and marked for DPI adjustment
/// (`windows_marked`), and the area is detached.
pub open spec fn side_area_evacuated(
    old: &ContainerTree,
    new: &ContainerTree,
    m: int,
    target: int,
    side: SideArea,
    r: Result<(), TreeError>,
) -> bool {
    match spec_side_area(old, m, side) {
        None => r is Ok && new.nodes@ == old.nodes@,
        Some(a) => match evacuation_target(old, target, side) {
            None => r == Err::<(), TreeError>(TreeError::NoWorkspace) && new.nodes@ == old.nodes@,
            Some(tp) => if tp == a {
                r == Err::<(), TreeError>(TreeError::Cycle) && new.nodes@ == old.nodes@
            } else {
                exists|mid: ContainerTree, flat: ContainerTree, r0: Result<(), TreeError>|
                    #![trigger contents_moved(old, &mid, a as int, tp as int), children_flattened(&mid, &flat, tp, r0)]
                    {
                        &&& contents_moved(old, &mid, a as int, tp as int)
                        &&& children_flattened(&mid, &flat, tp, r0)
                        &&& r0 is Err ==> r == r0 && new.nodes@ == flat.nodes@
                        &&& r0 is Ok ==> match monitor_of(&flat, tp as int, flat.len()) {
                            None => r == Err::<(), TreeError>(TreeError::NoMonitor) && new.nodes@ == flat.nodes@,
                            Some(mm) => exists|t2: ContainerTree| {
                                &&& #[trigger] windows_marked(
                                    &flat,
                                    &t2,
                                    windows_under(old, old.ch(a as int)),
                                    crate::areas::spec_workspace_rect(&flat, tp as int, mm as int),
                                )
                                &&& detach_outcome(&t2, new, a as int, r)
                            },
                        }
                    }
            },
        },
    }
}

/// Moves the contents of monitor `m`'s side area on `side` to monitor
/// `target` (see `side_area_evacuated`).
fn evacuate_side_area(tree: &mut ContainerTree, m: usize, target: usize, side: SideArea) -> (r: Result<(), TreeError>)
    requires
        old(tree).wf(),
        (m as int) < old(tree).len(),
        (target as int) < old(tree).len(),
    ensures
        final(tree).wf(),
        final(tree).len() == old(tree).len(),
        side_area_evacuated(old(tree), final(tree), m as int, target as int, side, r),
        forall|i: int|
            0 <= i < old(tree).len() && !crate::tree::kind_is_window(old(tree).nodes@[i].kind) ==> (#[trigger] final(tree).nodes@[i]).kind
                == old(tree).nodes@[i].kind,
{
    let ghost t0 = *tree;
    let source = match tree.side_area(m, side) {
        Some(a) => a,
        None => {
            return Ok(());
        },
    };
    let tp = match tree.side_area(target, side) {
        Some(a) => a,
        None => match tree.displayed_workspace(target) {
            Some(d) => d,
            None => {
                return Err(TreeError::NoWorkspace);
            },
        },
    };
    if source == tp {
        return Err(TreeError::Cycle);
    }
    let mres = move_side_area_contents(tree, source, tp);
    let moved = match mres {
        Ok(ws) => ws,
        Err(e) => {
            return Err(e);
        },
    };
    let ghost flat = *tree;
    if !tree.workspace_node(tp) {
        return Err(TreeError::NoWorkspace);
    }
    let rect = match tree.workspace_rect(tp) {
        Ok(r) => r,
        Err(e) => {
            return Err(e);
        },
    };
    tree.mark_windows_moved(&moved, &rect);
    let ghost t2 = *tree;
    let r = tree.detach_container(source);
    proof {
        let (mid, r0) = choose|mid: ContainerTree, r0: Result<(), TreeError>| {
            &&& contents_moved(&t0, &mid, source as int, tp as int)
            &&& #[trigger] children_flattened(&mid, &flat, tp, r0)
            &&& r0 is Ok ==> (mres matches Ok(ws) && ws@ == windows_under(&t0, t0.ch(source as int)))
            &&& (r0 matches Err(e) ==> mres == Err::<Vec<usize>, TreeError>(e))
        };
        assert(windows_marked(&flat, &t2, moved@, rect));
        lemma_kinds_after_moves(kinds_of(&flat), moved@, rect);
        assert forall|i: int|
            0 <= i < t0.len() && !crate::tree::kind_is_window(t0.nodes@[i].kind) implies #[trigger] tree.nodes@[i].kind
            == t0.nodes@[i].kind by {
            assert(mid.nodes@[i].kind == t0.nodes@[i].kind);
            assert(flat.nodes@[i].kind == mid.nodes@[i].kind);
            assert(kinds_of(&flat)[i] == flat.nodes@[i].kind);
            assert(kinds_of(&t2)[i] == t2.nodes@[i].kind);
        }
    }
    r
}

/// The other monitor found among `s` is one of `s`, a monitor, and not `m`.
proof fn lemma_other_monitor(t: &ContainerTree, s: Seq<usize>, m: usize)
    ensures
        other_monitor(t, s, m) matches Some(x) ==> s.contains(x) && x != m && t.is_monitor(x as int),
    decreases s.len(),
{
    if s.len() > 0 {
        lemma_other_monitor(t, s.skip(1), m);
        if let Some(x) = other_monitor(t, s.skip(1), m) {
            let k = choose|k: int| 0 <= k < s.skip(1).len() && s.skip(1)[k] == x;
            assert(s[k + 1] == x);
        }
        assert(s[0] == s[0]);
    }
}

/// What moving the workspaces of monitor `m` to monitor `target` and
/// detaching `m` leaves, for each result `r`: where `m` has a parent, the
/// removal succeeds, `m` is detached, and each of its regular workspaces
/// that has children or is kept alive is a child of `target`.
pub open spec fn workspaces_moved_off(t: &ContainerTree, new: &ContainerTree, m: int, target: int, r: Result<(), TreeError>) -> bool {
    &&& t.parent_of(m) is None ==> r == Err::<(), TreeError>(TreeError::NoParent)
    &&& t.parent_of(m) is Some ==> {
        &&& r is Ok
        &&& new.parent_of(m) is None
        &&& forall|k: int|
            0 <= k < regular_workspaces(t, t.ch(m)).len() && kept_on_removal(t, #[trigger] regular_workspaces(t, t.ch(m))[k] as int)
                ==> new.parent_of(regular_workspaces(t, t.ch(m))[k] as int) == Some(target as usize)
    }
}

/// Removes monitor `m`: the contents of its side areas move into the
/// matching side areas of the first other monitor (or the workspace it
/// displays), their windows centred there and marked for DPI adjustment,
/// and the side areas go; its workspaces that have children or are kept
/// alive move to the other monitor (before its right side area), whose
/// workspaces are then sorted; and `m` is detached (`side_area_evacuated`
/// for each side, then `workspaces_moved_off`).
#[verifier::spinoff_prover]
#[verifier::rlimit(60)]
pub fn remove_monitor(tree: &mut ContainerTree, m: usize, cfg: &Vec<WorkspaceConfig>) -> (r: Result<(), TreeError>)
    requires
        old(tree).wf(),
        (m as int) < old(tree).len(),
        old(tree).is_monitor(m as int),
    ensures
        final(tree).wf(),
        match old(tree).parent_of(m as int) {
            None => r == Err::<(), TreeError>(TreeError::NoTargetMonitor) && final(tree).nodes@ == old(tree).nodes@,
            Some(root) => other_monitor(old(tree), old(tree).ch(root as int), m) is None ==> r == Err::<(), TreeError>(
                TreeError::NoTargetMonitor,
            ) && final(tree).nodes@ == old(tree).nodes@,
        },
        r is Ok ==> final(tree).parent_of(m as int) is None,
        old(tree).parent_of(m as int) matches Some(root) ==> (other_monitor(old(tree), old(tree).ch(root as int), m) matches Some(
            target,
        ) ==> exists|tl: ContainerTree, rl: Result<(), TreeError>| {
            &&& #[trigger] side_area_evacuated(old(tree), &tl, m as int, target as int, SideArea::Left, rl)
            &&& rl is Err ==> r == rl && final(tree).nodes@ == tl.nodes@
            &&& rl is Ok ==> exists|tr: ContainerTree, rr: Result<(), TreeError>| {
                &&& #[trigger] side_area_evacuated(&tl, &tr, m as int, target as int, SideArea::Right, rr)
                &&& rr is Err ==> r == rr && final(tree).nodes@ == tr.nodes@
                &&& rr is Ok ==> workspaces_moved_off(&tr, final(tree), m as int, target as int, r)
            }
        }),
{
    let ghost t0 = *tree;
    let root = match tree.nodes[m].parent {
        Some(root) => root,
        None => {
            return Err(TreeError::NoTargetMonitor);
        },
    };
    proof {
        assert(t0.node_wf(m as int));
        assert(t0.node_wf(root as int));
    }
    let siblings = crate::tabs::copy_ids(&tree.nodes[root].children);
    let mut j: usize = 0;
    let mut found: Option<usize> = None;
    proof {
        assert(siblings@.skip(0) =~= siblings@);
    }
    while j < siblings.len() && found.is_none()
        invariant
            tree.wf(),
            *tree == t0,
            siblings@ == t0.ch(root as int),
            (root as int) < t0.len(),
            t0.node_wf(root as int),
            j <= siblings@.len(),
            match found {
                Some(x) => other_monitor(&t0, siblings@, m) == Some(x) && (x as int) < t0.len(),
                None => other_monitor(&t0, siblings@, m) == other_monitor(&t0, siblings@.skip(j as int), m),
            },
        decreases siblings@.len() - j + if found is None { 1int } else { 0int },
    {
        let x = siblings[j];
        proof {
            assert(t0.valid(siblings@[j as int] as int));
            assert(siblings@.skip(j as int)[0] == x);
            assert(siblings@.skip(j as int).skip(1) =~= siblings@.skip(j + 1));
        }
        if x != m && tree.monitor_node(x) {
            found = Some(x);
        } else {
            j = j + 1;
        }
    }
    let target = match found {
        Some(x) => x,
        None => {
            proof {
                assert(siblings@.skip(j as int).len() == 0);
            }
            return Err(TreeError::NoTargetMonitor);
        },
    };
    proof {
        lemma_other_monitor(&t0, t0.ch(root as int), m);
    }
    let rl = evacuate_side_area(tree, m, target, SideArea::Left);
    let ghost tl = *tree;
    if rl.is_err() {
        return rl;
    }
    let rr = evacuate_side_area(tree, m, target, SideArea::Right);
    let ghost tr = *tree;
    if rr.is_err() {
        proof {
            assert(side_area_evacuated(&t0, &tl, m as int, target as int, SideArea::Left, rl));
            assert(side_area_evacuated(&tl, &tr, m as int, target as int, SideArea::Right, rr));
        }
        return rr;
    }
    proof {
        assert(tr.nodes@[m as int].kind == tl.nodes@[m as int].kind);
        assert(tl.nodes@[m as int].kind == t0.nodes@[m as int].kind);
        assert(tr.nodes@[target as int].kind == tl.nodes@[target as int].kind);
        assert(tl.nodes@[target as int].kind == t0.nodes@[target as int].kind);
    }
    let ws = tree.workspaces(m);
    let ghost t1 = *tree;
    proof {
        assert(t1.node_wf(m as int));
        assert forall|k: int| 0 <= k < t1.ch(m as int).len() implies (#[trigger] t1.ch(m as int)[k] as int) < t1.len() by {
            assert(t1.valid(t1.ch(m as int)[k] as int));
        }
        assert forall|q: int| 0 <= q < ws@.len() implies (#[trigger] ws@[q] as int) < tree.len() && t1.is_workspace(ws@[q] as int)
            && t1.parent_of(ws@[q] as int) == Some(m) by {
            crate::preflight::lemma_regular_in_tree(tree, t1.ch(m as int), q);
            lemma_regular_member(&t1, t1.ch(m as int), q);
            let k = choose|k: int| 0 <= k < t1.ch(m as int).len() && t1.ch(m as int)[k] == ws@[q];
            assert(t1.parent_of(t1.ch(m as int)[k] as int) == Some(m));
        }
        assert(ws@.take(0) =~= Seq::<usize>::empty());
    }
    let mut i: usize = 0;
    while i < ws.len()
        invariant
            tree.wf(),
            tree.len() == t0.len(),
            t1.len() == t0.len(),
            (m as int) < tree.len(),
            (target as int) < tree.len(),
            t0.parent_of(m as int) == Some(root),
            *old(tree) == t0,
            other_monitor(&t0, t0.ch(root as int), m) is Some,
            i <= ws@.len(),
            forall|q: int| 0 <= q < ws@.len() ==> (#[trigger] ws@[q] as int) < tree.len() && t1.is_workspace(ws@[q] as int)
                && t1.parent_of(ws@[q] as int) == Some(m),
            t1 == tr,
            t1.is_monitor(target as int),
            t1.is_monitor(m as int),
            forall|y: int| 0 <= y < tree.len() ==> (#[trigger] tree.nodes@[y]).kind == t1.nodes@[y].kind,
            forall|y: int| 0 <= y < tree.len() && t1.is_workspace(y) ==> #[trigger] tree.ch(y) == t1.ch(y),
            forall|y: int|
                0 <= y < tree.len() ==> #[trigger] tree.parent_of(y) == t1.parent_of(y) || (ws@.take(i as int).contains(y as usize)
                    && tree.parent_of(y) == Some(target)),
            forall|j: int|
                0 <= j < i && kept_on_removal(&t1, #[trigger] ws@[j] as int) ==> tree.parent_of(ws@[j] as int) == Some(target),
        decreases ws@.len() - i,
    {
        let w = ws[i];
        let ghost before = *tree;
        let ghost i0 = i as int;
        proof {
            assert(ws@.take(i0 + 1) =~= ws@.take(i0).push(w));
        }
        i = i + 1;
        let keep = match &tree.nodes[w].kind {
            ContainerKind::Workspace(info) => info.config.keep_alive,
            _ => false,
        };
        if tree.nodes[w].children.len() == 0 && !keep {
            proof {
                {
                    assert(tree.nodes@[w as int].kind == t1.nodes@[w as int].kind);
                    assert(tree.ch(w as int) == t1.ch(w as int));
                    assert(!kept_on_removal(&t1, w as int));
                    assert forall|y: int| 0 <= y < tree.len() implies #[trigger] tree.parent_of(y) == t1.parent_of(y) || (ws@.take(
                        i as int,
                    ).contains(y as usize) && tree.parent_of(y) == Some(target)) by {
                        if ws@.take(i0).contains(y as usize) {
                            let k = choose|k: int| 0 <= k < i0 && ws@.take(i0)[k] == y as usize;
                            assert(ws@.take(i as int)[k] == y as usize);
                        }
                    }
                }
            }
            continue;
        }
        let count = tree.nodes[target].children.len();
        let index = if tree.side_area(target, SideArea::Right).is_some() && count > 0 {
            count - 1
        } else {
            count
        };
        let r0 = tree.move_container_within_tree(w, target, index);
        let ghost mid = *tree;
        proof {
            {
                assert(before.nodes@[w as int].kind == t1.nodes@[w as int].kind);
                assert(before.nodes@[target as int].kind == t1.nodes@[target as int].kind);
                assert(before.parent_of(w as int) == Some(m) || before.parent_of(w as int) == Some(target));
                assert(before.nodes@[m as int].kind == t1.nodes@[m as int].kind);
                lemma_moved_to_parent(&before, &mid, w as int, target as int, index, r0);
                lemma_move_frame(&before, &mid, w as int, target as int, index, r0);
            }
        }
        if let Err(e) = r0 {
            return Err(e);
        }
        tree.sort_workspaces(target, cfg);
        proof {
            {
                assert forall|y: int| 0 <= y < tree.len() implies (#[trigger] tree.nodes@[y]).kind == t1.nodes@[y].kind by {
                    assert(mid.nodes@[y].kind == before.nodes@[y].kind);
                }
                assert forall|y: int| 0 <= y < tree.len() && t1.is_workspace(y) implies #[trigger] tree.ch(y) == t1.ch(y) by {
                    assert(before.nodes@[y].kind == t1.nodes@[y].kind);
                    assert(y != target as int);
                    assert(y != m as int);
                    assert(Some(y as usize) != before.parent_of(w as int));
                    assert(mid.ch(y) == before.ch(y));
                    assert(tree.nodes@[y].children@ == mid.nodes@[y].children@);
                }
                assert forall|y: int| 0 <= y < tree.len() implies #[trigger] tree.parent_of(y) == t1.parent_of(y) || (ws@.take(
                    i as int,
                ).contains(y as usize) && tree.parent_of(y) == Some(target)) by {
                    assert(tree.nodes@[y].parent == mid.nodes@[y].parent);
                    assert(before.parent_of(y) == t1.parent_of(y) || (ws@.take(i0).contains(y as usize) && before.parent_of(y)
                        == Some(target)));
                    if y != w as int {
                        assert(mid.parent_of(y) == before.parent_of(y));
                    }
                    if ws@.take(i0).contains(y as usize) {
                        let k = choose|k: int| 0 <= k < i0 && ws@.take(i0)[k] == y as usize;
                        assert(ws@.take(i as int)[k] == y as usize);
                    }
                    if y == w as int {
                        assert(ws@.take(i as int)[i0] == w);
                    }
                }
                assert forall|j: int| 0 <= j < i && kept_on_removal(&t1, #[trigger] ws@[j] as int) implies tree.parent_of(
                    ws@[j] as int,
                ) == Some(target) by {
                    let y = ws@[j] as int;
                    assert(tree.nodes@[y].parent == mid.nodes@[y].parent);
                    if y != w as int {
                        assert(mid.parent_of(y) == before.parent_of(y));
                        assert(j < i0);
                    }
                }
            }
        }
    }
    let ghost t2 = *tree;
    let r = tree.detach_container(m);
    proof {
        assert(ws@.take(ws@.len() as int) =~= ws@);
        assert(!ws@.contains(m)) by {
            if ws@.contains(m) {
                let k = choose|k: int| 0 <= k < ws@.len() && ws@[k] == m;
                assert(t1.is_workspace(ws@[k] as int));
            }
        }
        assert(t2.parent_of(m as int) == tr.parent_of(m as int));
        if tr.parent_of(m as int) is Some {
            assert forall|k: int|
                0 <= k < regular_workspaces(&tr, tr.ch(m as int)).len() && kept_on_removal(
                    &tr,
                    #[trigger] regular_workspaces(&tr, tr.ch(m as int))[k] as int,
                ) implies tree.parent_of(regular_workspaces(&tr, tr.ch(m as int))[k] as int) == Some(target) by {
                let y = ws@[k] as int;
                assert(t2.parent_of(y) == Some(target));
                assert(tree.nodes@[y].kind == t2.nodes@[y].kind);
                assert(y != m as int);
            }
        }
        assert(workspaces_moved_off(&tr, tree, m as int, target as int, r));
        assert(side_area_evacuated(&t0, &tl, m as int, target as int, SideArea::Left, rl));
        assert(side_area_evacuated(&tl, &tr, m as int, target as int, SideArea::Right, rr));
    }
    r
}

/// Whether monitor `m` and the monitor of `other` differ in DPI.
pub fn has_dpi_difference(tree: &ContainerTree, m: usize, other: usize) -> (r: Result<bool, TreeError>)
    requires
        tree.wf(),
        (m as int) < tree.len(),
        (other as int) < tree.len(),
        tree.is_monitor(m as int),
    ensures
        match monitor_of(tree, other as int, tree.len()) {
            Some(om) => r == Ok::<bool, TreeError>(tree.monitor_info(m as int).dpi != tree.monitor_info(om as int).dpi),
            None => r == Err::<bool, TreeError>(TreeError::NoMonitor),
        },
{
    match tree.monitor(other) {
        None => Err(TreeError::NoMonitor),
        Some(om) => {
            let a = match &tree.nodes[m].kind {
                ContainerKind::Monitor(info) => info.dpi,
                _ => vstd::pervasive::unreached(),
            };
            let b = match &tree.nodes[om].kind {
                ContainerKind::Monitor(info) => info.dpi,
                _ => vstd::pervasive::unreached(),
            };
            Ok(a != b)
        },
    }
}

/// `new` is `old` with one more container at the end: a detached monitor
/// with properties `info`, no children, the full tiling size and a
/// horizontal tiling direction.
pub open spec fn monitor_appended(old: &ContainerTree, new: &ContainerTree, info: MonitorInfo) -> bool {
    let id = old.len() as int;
    &&& new.len() == old.len() + 1
    &&& new.nodes@.drop_last() == old.nodes@
    &&& new.kind(id) == ContainerKind::Monitor(info)
    &&& new.parent_of(id) is None
    &&& new.ch(id).len() == 0
    &&& new.fo(id).len() == 0
    &&& new.size(id) == crate::tree::SIZE_ONE
    &&& new.nodes@[id].tiling_direction == TilingDirection::Horizontal
}

/// Adds a monitor with properties `info` at the end of `root`'s children
/// and gives it the configured side areas (`ensure_side_areas`).
pub fn add_monitor(
    tree: &mut ContainerTree,
    root: usize,
    info: MonitorInfo,
    config: &SideAreasConfig,
    gaps: GapsConfig,
) -> (r: Result<usize, TreeError>)
    requires
        old(tree).wf(),
        (root as int) < old(tree).len(),
    ensures
        final(tree).wf(),
        exists|t1: ContainerTree, t2: ContainerTree, rs: Result<(), TreeError>|
            #![trigger attach_outcome(&t1, &t2, old(tree).len() as int, root as int, None, Ok(())), side_areas_set(&t2, final(tree), old(tree).len() as int, *config, gaps, rs)]
            {
                &&& monitor_appended(old(tree), &t1, info)
                &&& attach_outcome(&t1, &t2, old(tree).len() as int, root as int, None, Ok(()))
                &&& side_areas_set(&t2, final(tree), old(tree).len() as int, *config, gaps, rs)
                &&& r == match rs {
                    Ok(_) => Ok::<usize, TreeError>(old(tree).len() as usize),
                    Err(e) => Err(e),
                }
            },
{
    let m = tree.add_node(ContainerKind::Monitor(info), TilingDirection::Horizontal);
    let ghost t1 = *tree;
    proof {
        assert(t1.nodes@.drop_last() =~= old(tree).nodes@);
        assert(monitor_appended(old(tree), &t1, info));
    }
    let r0 = tree.attach_container(m, root, None);
    if let Err(e) = r0 {
        return Err(e);
    }
    let ghost t2 = *tree;
    proof {
        assert(attach_outcome(&t1, &t2, m as int, root as int, None, Ok(())));
        assert(t2.kind(m as int) == ContainerKind::Monitor(info));
    }
    let rs = ensure_side_areas(tree, m, config, gaps);
    proof {
        assert(side_areas_set(&t2, &*tree, m as int, *config, gaps, rs));
    }
    match rs {
        Ok(()) => Ok(m),
        Err(e) => Err(e),
    }
}

/// Gives monitor `m` the properties `info`, then the configured side
/// areas (`ensure_side_areas`).
pub fn update_monitor(
    tree: &mut ContainerTree,
    m: usize,
    info: MonitorInfo,
    config: &SideAreasConfig,
    gaps: GapsConfig,
) -> (r: Result<(), TreeError>)
    requires
        old(tree).wf(),
        (m as int) < old(tree).len(),
        old(tree).is_monitor(m as int),
    ensures
        final(tree).wf(),
        exists|t1: ContainerTree| {
            &&& kind_set(old(tree), &t1, m as int, ContainerKind::Monitor(info))
            &&& #[trigger] side_areas_set(&t1, final(tree), m as int, *config, gaps, r)
        },
{
    tree.set_kind(m, ContainerKind::Monitor(info));
    let ghost t1 = *tree;
    let r = ensure_side_areas(tree, m, config, gaps);
    proof {
        assert(side_areas_set(&t1, &*tree, m as int, *config, gaps, r));
    }
    r
}

/// Moves workspace `w` to monitor `target`, before its right side area:
/// the workspace's windows are centred in its new rectangle and marked
/// for DPI adjustment, the workspace and the one `target` displays are
/// queued for redraw, as is the one the origin monitor displays where it
/// has workspaces left, and `target`'s workspaces are sorted. Gives the
/// origin monitor where it has no workspace left, for one to be
/// activated on it (`workspace_move_done`).
#[verifier::spinoff_prover]
#[verifier::rlimit(40)]
pub fn move_workspace_to_monitor(
    tree: &mut ContainerTree,
    w: usize,
    target: usize,
    cfg: &Vec<WorkspaceConfig>,
    sync: &mut PendingSync,
) -> (r: Result<Option<usize>, TreeError>)
    requires
        old(tree).wf(),
        (w as int) < old(tree).len(),
        (target as int) < old(tree).len(),
        old(tree).is_workspace(w as int),
        old(tree).is_monitor(target as int),
    ensures
        final(tree).wf(),
        monitor_of(old(tree), w as int, old(tree).len()) is None ==> r == Err::<Option<usize>, TreeError>(
            TreeError::NoMonitor,
        ) && final(tree).nodes@ == old(tree).nodes@ && final(sync).containers_to_redraw@ == old(sync).containers_to_redraw@,
        monitor_of(old(tree), w as int, old(tree).len()) matches Some(origin) ==> workspace_move_done(
            old(tree),
            final(tree),
            w as int,
            target as int,
            origin as int,
            cfg@,
            old(sync).containers_to_redraw@,
            final(sync).containers_to_redraw@,
            r,
        ),
        r matches Ok(Some(o)) ==> monitor_of(old(tree), w as int, old(tree).len()) == Some(o),
{
    let ghost t0 = *tree;
    let ghost q0 = sync.containers_to_redraw@;
    let origin = match tree.monitor(w) {
        Some(o) => o,
        None => {
            return Err(TreeError::NoMonitor);
        },
    };
    let count = tree.nodes[target].children.len();
    let index = if tree.side_area(target, SideArea::Right).is_some() && count > 0 {
        count - 1
    } else {
        count
    };
    let r0 = tree.move_container_within_tree(w, target, index);
    let ghost t1 = *tree;
    proof {
        assert(index == move_index(&t0, target as int));
        lemma_moved_to_parent(&t0, &t1, w as int, target as int, index, r0);
    }
    if let Err(e) = r0 {
        return Err(e);
    }
    proof {
        assert(r0 == Ok::<(), TreeError>(r0->Ok_0));
        assert(moved_within_tree(&t0, &t1, w as int, target as int, move_index(&t0, target as int), Ok(())));
    }
    let windows = tree.windows_within(w);
    if !tree.workspace_node(w) {
        return Err(TreeError::NoWorkspace);
    }
    proof {
        reveal_with_fuel(monitor_of, 3);
        assert(t1.valid(w as int));
        assert(monitor_of(&t1, target as int, (t1.len() - 1) as nat) == Some(target));
        assert(monitor_of(&t1, w as int, t1.len()) == Some(target));
    }
    let rect = match tree.workspace_rect(w) {
        Ok(r) => r,
        Err(e) => {
            return Err(e);
        },
    };
    proof {
        assert(windows@.take(0) =~= Seq::<usize>::empty());
        assert(kinds_of(tree) =~= kinds_after_moves(kinds_of(&t1), windows@.take(0), rect));
    }
    let mut q: usize = 0;
    while q < windows.len()
        invariant
            tree.wf(),
            tree.len() == t0.len(),
            t1.len() == t0.len(),
            (w as int) < tree.len(),
            (target as int) < tree.len(),
            (origin as int) < tree.len(),
            q <= windows@.len(),
            forall|j: int| 0 <= j < windows@.len() ==> (#[trigger] windows@[j] as int) < tree.len(),
            same_but_kinds(&t1, tree),
            kinds_of(tree) == kinds_after_moves(kinds_of(&t1), windows@.take(q as int), rect),
            *sync == *old(sync),
        decreases windows@.len() - q,
    {
        let ghost before = *tree;
        let y = windows[q];
        proof {
            assert(windows@.take(q + 1).drop_last() =~= windows@.take(q as int));
            assert(windows@.take(q + 1).last() == y);
            assert(kinds_of(&before)[y as int] == before.nodes@[y as int].kind);
        }
        if tree.window_node(y) {
            tree.set_window_moved(y, &rect);
            proof {
                assert(kinds_of(tree) =~= kinds_of(&before).update(
                    y as int,
                    with_info(kinds_of(&before)[y as int], moved_info(kind_window_info(kinds_of(&before)[y as int]), rect)),
                )) by {
                    assert forall|j: int| 0 <= j < tree.len() implies kinds_of(tree)[j] == kinds_of(&before).update(
                        y as int,
                        with_info(kinds_of(&before)[y as int], moved_info(kind_window_info(kinds_of(&before)[y as int]), rect)),
                    )[j] by {
                        assert(tree.nodes@[j].kind == kinds_of(tree)[j]);
                    }
                }
                assert forall|j: int| 0 <= j < tree.len() implies {
                    &&& (#[trigger] tree.nodes@[j]).parent == t1.nodes@[j].parent
                    &&& tree.nodes@[j].children@ == t1.nodes@[j].children@
                    &&& tree.nodes@[j].focus_order@ == t1.nodes@[j].focus_order@
                    &&& tree.nodes@[j].tiling_size == t1.nodes@[j].tiling_size
                    &&& tree.nodes@[j].tiling_direction == t1.nodes@[j].tiling_direction
                } by {
                    assert(before.nodes@[j].parent == t1.nodes@[j].parent);
                }
            }
        }
        q = q + 1;
    }
    let ghost t2 = *tree;
    proof {
        assert(windows@.take(windows@.len() as int) =~= windows@);
        assert(kinds_of(&t2) == kinds_after_moves(
            kinds_of(&t1),
            windows_in(&t1, walk(&t1, seq![w], t1.len())),
            crate::areas::spec_workspace_rect(&t1, w as int, target as int),
        ));
        assert(same_but_kinds(&t1, &t2));
    }
    let displayed = match tree.displayed_workspace(target) {
        Some(d) => d,
        None => {
            proof {
                assert(workspace_move_done(&t0, tree, w as int, target as int, origin as int, cfg@, q0, sync.containers_to_redraw@, Err(TreeError::NoWorkspace)));
            }
            return Err(TreeError::NoWorkspace);
        },
    };
    sync.queue_container_to_redraw(w);
    sync.queue_container_to_redraw(displayed);
    let left = tree.workspaces(origin);
    let needs_workspace = if left.len() == 0 {
        Some(origin)
    } else {
        match tree.displayed_workspace(origin) {
            Some(d) => {
                sync.queue_container_to_redraw(d);
                None
            },
            None => {
                proof {
                    assert(workspace_move_done(&t0, tree, w as int, target as int, origin as int, cfg@, q0, sync.containers_to_redraw@, Err(TreeError::NoWorkspace)));
                }
                return Err(TreeError::NoWorkspace);
            },
        }
    };
    tree.sort_workspaces(target, cfg);
    proof {
        assert(workspace_move_done(&t0, tree, w as int, target as int, origin as int, cfg@, q0, sync.containers_to_redraw@, Ok(needs_workspace)));
    }
    Ok(needs_workspace)
}

/// Moving a workspace `w` to a monitor `p` other than the one holding it
/// succeeds and leaves `w` a child of `p`; where `p` already holds it, it
/// stays there.
proof fn lemma_moved_to_parent(old: &ContainerTree, new: &ContainerTree, w: int, p: int, index: usize, r: Result<(), TreeError>)
    requires
        old.wf(),
        0 <= w < old.len(),
        0 <= p < old.len(),
        old.is_workspace(w),
        old.is_monitor(p),
        moved_within_tree(old, new, w, p, index, r),
    ensures
        r is Ok,
        new.parent_of(w) == Some(p as usize),
        forall|y: int| 0 <= y < new.len() ==> (#[trigger] new.nodes@[y]).kind == old.nodes@[y].kind,
{
    if old.parent_of(w) != Some(p as usize) {
        let (mid, r0) = choose|mid: ContainerTree, r0: Result<(), TreeError>| {
            &&& #[trigger] placed_then(old, &mid, w, r0)
            &&& attach_outcome(&mid, new, w, p, Some(crate::moves::clamp_index(index, mid.ch(p).len())), r)
        };
        assert(mid.parent_of(w) is None);
        assert forall|y: int| 0 <= y < new.len() implies (#[trigger] new.nodes@[y]).kind == old.nodes@[y].kind by {
            assert(new.nodes@[y].kind == mid.nodes@[y].kind);
            assert(mid.nodes@[y].kind == old.nodes@[y].kind);
        }
    }
}

} // verus!
