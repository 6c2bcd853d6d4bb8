//! Changing the state of a window between tiling, floating, fullscreen
//! and minimized, and remembering where a window left the tiling layout.
use vstd::prelude::*;

use crate::attach::TreeError;
use crate::resizing::{clamp_int, Rescale};
use crate::sizes::{same_but_sizes, tiling_count, tiling_sum};
use crate::monitors::{monitor_of, spec_displayed_workspace, workspace_of};
use crate::sync::PendingSync;
use crate::tab_commands::sync_unchanged;
use crate::moves::{insertion_slot, kind_set};
use crate::tab_commands::tiling_of;
use crate::tree::{
    ContainerKind, ContainerTree, InsertionLevel, InsertionTarget, WindowInfo, WindowState, MAX_TILING_SIZE,
    SIZE_ONE,
};

verus! {

/// The place of tiling container `c` in its parent.
pub open spec fn level_of(t: &ContainerTree, c: int, p: int) -> InsertionLevel {
    InsertionLevel {
        target_parent: p as usize,
        target_index: t.ch(p).index_of(c as usize) as usize,
        prev_tiling_size: t.size(c),
        prev_sibling_count: (tiling_count(t.nodes@, t.ch(p)) - 1) as usize,
    }
}

/// The places recorded for tiling container `c`: its own, then, where its
/// parent is a tiling container with no other child, the parent's, and
/// so on, looking at most `fuel` parents up.
pub open spec fn captured_levels(t: &ContainerTree, c: int, fuel: nat) -> Result<Seq<InsertionLevel>, TreeError>
    decreases fuel,
{
    match t.parent_of(c) {
        None => Err(TreeError::NoParent),
        Some(p) => if t.ch(p as int).len() == 1 && t.is_tiling(p as int) && fuel > 0 {
            match captured_levels(t, p as int, (fuel - 1) as nat) {
                Err(e) => Err(e),
                Ok(rest) => Ok(seq![level_of(t, c, p as int)] + rest),
            }
        } else {
            Ok(seq![level_of(t, c, p as int)])
        },
    }
}

impl ContainerTree {
    /// The tiling siblings of `c` in `p`.
    pub open spec fn tiling_sibling_count(&self, p: int) -> int {
        tiling_count(self.nodes@, self.ch(p)) - 1
    }

    /// Records where tiling container `c` stands (see `captured_levels`).
    pub fn capture_insertion_target(&self, c: usize) -> (r: Result<InsertionTarget, TreeError>)
        requires
            self.wf(),
            (c as int) < self.len(),
            self.is_tiling(c as int),
        ensures
            match captured_levels(self, c as int, self.len()) {
                Ok(levels) => r matches Ok(it) && it.levels@ == levels,
                Err(e) => r == Err::<InsertionTarget, TreeError>(e),
            },
    {
        let n = self.nodes.len();
        let mut levels: Vec<InsertionLevel> = Vec::new();
        let mut cur = c;
        let mut fuel = n;
        loop
            invariant
                self.wf(),
                (cur as int) < self.len(),
                fuel <= n,
                n == self.len(),
                self.is_tiling(cur as int),
                match captured_levels(self, cur as int, fuel as nat) {
                    Ok(rest) => captured_levels(self, c as int, n as nat) == Ok::<Seq<InsertionLevel>, TreeError>(levels@ + rest),
                    Err(e) => captured_levels(self, c as int, n as nat) == Err::<Seq<InsertionLevel>, TreeError>(e),
                },
            decreases fuel,
        {
            let p = match self.nodes[cur].parent {
                None => {
                    return Err(TreeError::NoParent);
                },
                Some(p) => p,
            };
            proof {
                assert(self.node_wf(cur as int));
                assert(self.node_wf(p as int));
            }
            let level = self.level(cur, p);
            let ghost before = levels@;
            levels.push(level);
            if self.nodes[p].children.len() == 1 && self.tiling(p) && fuel > 0 {
                proof {
                    match captured_levels(self, p as int, (fuel - 1) as nat) {
                        Ok(rest) => {
                            assert(before + (seq![level] + rest) =~= levels@ + rest);
                        },
                        Err(e) => {},
                    }
                }
                cur = p;
                fuel = fuel - 1;
            } else {
                proof {
                    assert(before + seq![level] =~= levels@);
                    assert(levels@ + Seq::<InsertionLevel>::empty() =~= levels@);
                }
                return Ok(InsertionTarget { levels });
            }
        }
    }

    /// The place of child `c` in `p`.
    fn level(&self, c: usize, p: usize) -> (r: InsertionLevel)
        requires
            self.wf(),
            (p as int) < self.len(),
            self.parent_of(c as int) == Some(p),
            (c as int) < self.len(),
            self.is_tiling(c as int),
        ensures
            r == level_of(self, c as int, p as int),
    {
        proof {
            assert(self.node_wf(c as int));
            assert(self.node_wf(p as int));
        }
        let i = self.index_in(p, c);
        proof {
            let s = self.ch(p as int);
            let j = s.index_of(c);
            assert(s.contains(c));
            assert(0 <= j < s.len() && s[j] == c);
        }
        let (_sum, _avail, total) = self.tiling_totals(p);
        proof {
            let k = choose|k: int| 0 <= k < self.ch(p as int).len() && self.ch(p as int)[k] == c;
            crate::sizes::lemma_count_positive(self.nodes@, self.ch(p as int), k);
        }
        let count = total - 1;
        InsertionLevel { target_parent: p, target_index: i, prev_tiling_size: self.nodes[c].tiling_size, prev_sibling_count: count }
    }
}

/// The size tiling container `c` returns to in its parent `p`: the size
/// it had, scaled by how the number of its tiling siblings changed.
pub open spec fn restored_target(t: &ContainerTree, c: int, p: int, level: InsertionLevel) -> int {
    level.prev_tiling_size * (level.prev_sibling_count + 1) / (t.tiling_sibling_count(p) + 1)
}

/// Where the siblings of `c` in tabbed container `p` go when `c` takes
/// the size `target`: they share the rest in proportion to their sizes.
pub open spec fn tab_share(t: &ContainerTree, c: int, p: int, target: int) -> Rescale {
    Rescale::Share {
        rest: (SIZE_ONE - target) as u64,
        sum: (tiling_sum(t.nodes@, t.ch(p)) - t.size(c)) as u128,
        count: t.tiling_sibling_count(p) as u64,
    }
}

/// `new` is `old` with tiling container `c` given back the size recorded
/// in `level` (see `restore_tiling_size`).
pub open spec fn tiling_size_restored(old: &ContainerTree, new: &ContainerTree, c: int, level: InsertionLevel) -> bool {
    &&& same_but_sizes(new, old)
    &&& match old.parent_of(c) {
        None => new.size(c) == SIZE_ONE,
        Some(p) => if old.tiling_sibling_count(p as int) == 0 {
            new.size(c) == SIZE_ONE
        } else if old.is_tabbed(p as int) {
            let target = clamp_int(restored_target(old, c, p as int, level), 1, SIZE_ONE - 1);
            &&& new.size(c) == target
            &&& forall|k: int|
                0 <= k < old.ch(p as int).len() && old.is_tiling(old.ch(p as int)[k] as int) && old.ch(p as int)[k] != c
                    ==> #[trigger] new.size(old.ch(p as int)[k] as int) == crate::resizing::rescaled(
                    tab_share(old, c, p as int, target),
                    old.size(old.ch(p as int)[k] as int) as int,
                )
        } else {
            new.size(c) == crate::resizing::resize_target(
                crate::sizes::clamp_size(restored_target(old, c, p as int, level)) as int,
                old.tiling_sibling_count(p as int),
            )
        },
    }
}

impl ContainerTree {
    /// Gives tiling container `c` back the size recorded in `level`,
    /// scaled by `(siblings then + 1) / (siblings now + 1)`. Alone it takes
    /// the whole size. In a tabbed container the size is kept strictly
    /// between nothing and the whole, and the other tabs share the rest in
    /// proportion to their sizes; elsewhere the container is resized
    /// against its siblings (`resize_tiling_container`).
    pub fn restore_tiling_size(&mut self, c: usize, level: InsertionLevel)
        requires
            old(self).wf(),
            (c as int) < old(self).len(),
            old(self).is_tiling(c as int),
        ensures
            final(self).wf(),
            tiling_size_restored(old(self), final(self), c as int, level),
    {
        let ghost t0 = *self;
        let p = match self.nodes[c].parent {
            None => {
                self.set_tiling_size(c, SIZE_ONE);
                return;
            },
            Some(p) => p,
        };
        proof {
            assert(t0.node_wf(c as int));
            assert(t0.node_wf(p as int));
            let k = choose|k: int| 0 <= k < t0.ch(p as int).len() && t0.ch(p as int)[k] == c;
            crate::sizes::lemma_count_positive(t0.nodes@, t0.ch(p as int), k);
        }
        let (sum, _avail, total) = self.tiling_totals(p);
        let n: usize = total - 1;
        if n == 0 {
            self.set_tiling_size(c, SIZE_ONE);
            return;
        }
        let a: u128 = level.prev_tiling_size as u128;
        let b: u128 = level.prev_sibling_count as u128 + 1;
        proof {
            assert(a * b <= 0xffff_ffff_ffff_ffffu128 * 0x1_0000_0000_0000_0000u128) by (nonlinear_arith)
                requires
                    a <= 0xffff_ffff_ffff_ffffu128,
                    b <= 0x1_0000_0000_0000_0000u128,
            ;
        }
        let scaled: u128 = a * b / (n as u128 + 1);
        if self.tabbed(p) {
            let target: u64 = if scaled < 1 {
                1
            } else if scaled > (SIZE_ONE - 1) as u128 {
                SIZE_ONE - 1
            } else {
                scaled as u64
            };
            let cs = self.nodes[c].tiling_size;
            proof {
                crate::sizes::lemma_sum_step_contains(t0.nodes@, t0.ch(p as int), c);
            }
            let mode = Rescale::Share { rest: SIZE_ONE - target, sum: sum - cs as u128, count: n as u64 };
            self.rescale_siblings(p, c, mode);
            let ghost mid = *self;
            self.set_tiling_size(c, target);
            proof {
                crate::sizes::lemma_same_but_sizes_trans(self, &mid, &t0);
            }
        } else {
            let target: u64 = if scaled > MAX_TILING_SIZE as u128 {
                MAX_TILING_SIZE
            } else {
                scaled as u64
            };
            self.resize_tiling_container(p, c, target);
        }
    }
}

/// Whether container `c` lies in a workspace that is shown: a regular
/// workspace that its monitor displays, or a side area on a monitor.
pub open spec fn shown_in_workspace(t: &ContainerTree, c: int) -> bool {
    match workspace_of(t, c, t.len()) {
        Some(w) => if t.is_side_area(w as int) {
            monitor_of(t, w as int, t.len()) is Some
        } else {
            monitor_of(t, w as int, t.len()) matches Some(m) && spec_displayed_workspace(t, m as int) == Some(w)
        },
        None => false,
    }
}

/// Whether level `k` of `levels` names a layout container that can be put
/// back: there is a level above it, and its container is detached and
/// empty.
pub open spec fn level_restorable(t: &ContainerTree, levels: Seq<InsertionLevel>, k: int) -> bool {
    &&& k + 1 < levels.len()
    &&& t.parent_of(levels[k].target_parent as int) is None
    &&& t.ch(levels[k].target_parent as int).len() == 0
}

/// Whether the recorded parents from level `k` up can take a window back:
/// the parent at level `k` is shown, or it is a detached, empty layout
/// container named at no level above it, and the levels above can.
pub open spec fn restorable_chain(t: &ContainerTree, levels: Seq<InsertionLevel>, k: int) -> bool
    decreases levels.len() - k,
{
    if k < 0 || k >= levels.len() {
        false
    } else if shown_in_workspace(t, levels[k].target_parent as int) {
        true
    } else {
        &&& level_restorable(t, levels, k)
        &&& forall|j: int| k < j < levels.len() ==> #[trigger] levels[j].target_parent != levels[k].target_parent
        &&& restorable_chain(t, levels, k + 1)
    }
}

/// In `new`, each recorded parent from level `k` up that was not shown in
/// `old`, up to the first that was, is a child of the parent recorded at
/// the level above it.
pub open spec fn chain_attached(old: &ContainerTree, new: &ContainerTree, levels: Seq<InsertionLevel>, k: int) -> bool
    decreases levels.len() - k,
{
    if k < 0 || k >= levels.len() {
        true
    } else if shown_in_workspace(old, levels[k].target_parent as int) {
        true
    } else {
        &&& k + 1 < levels.len()
        &&& new.parent_of(levels[k].target_parent as int) == Some(levels[k + 1].target_parent)
        &&& chain_attached(old, new, levels, k + 1)
    }
}

/// A chain of parents stays attached while parents that are set stay.
proof fn lemma_chain_attached_kept(old: &ContainerTree, a: &ContainerTree, b: &ContainerTree, levels: Seq<InsertionLevel>, k: int)
    requires
        chain_attached(old, a, levels, k),
        forall|i: int| 0 <= i < a.len() && a.parent_of(i) is Some ==> #[trigger] b.parent_of(i) == a.parent_of(i),
        forall|j: int| 0 <= j < levels.len() ==> (#[trigger] levels[j].target_parent as int) < a.len(),
    ensures
        chain_attached(old, b, levels, k),
    decreases levels.len() - k,
{
    if 0 <= k < levels.len() && !shown_in_workspace(old, levels[k].target_parent as int) {
        assert(b.parent_of(levels[k].target_parent as int) == a.parent_of(levels[k].target_parent as int));
        lemma_chain_attached_kept(old, a, b, levels, k + 1);
    }
}

impl ContainerTree {
    /// Whether container `c` lies in a shown workspace.
    pub fn shown(&self, c: usize) -> (r: bool)
        requires
            self.wf(),
            (c as int) < self.len(),
        ensures
            r == shown_in_workspace(self, c as int),
    {
        match self.workspace(c) {
            Some(w) => self.is_displayed(w),
            None => false,
        }
    }

    /// Makes sure the parent recorded at level `k` of an insertion target
    /// lies in a shown workspace. Where it does not, and it is a detached,
    /// empty layout container with a level above it, the levels above are
    /// restored first and it is attached again at its recorded place
    /// (clamped to its parent's children), takes back its size, and its
    /// parent is queued for redraw. Answers whether the parent can take
    /// the window back.
    pub fn restore_insertion_target_parent(
        &mut self,
        levels: &Vec<InsertionLevel>,
        k: usize,
        sync: &mut PendingSync,
    ) -> (r: Result<bool, TreeError>)
        requires
            old(self).wf(),
            (k as int) < levels.len(),
            forall|j: int| 0 <= j < levels.len() ==> (#[trigger] levels@[j].target_parent as int) < old(self).len(),
        ensures
            final(self).wf(),
            final(self).len() == old(self).len(),
            shown_in_workspace(old(self), levels@[k as int].target_parent as int) ==> r == Ok::<bool, TreeError>(true)
                && final(self).nodes@ == old(self).nodes@ && sync_unchanged(*old(sync), *final(sync)),
            !shown_in_workspace(old(self), levels@[k as int].target_parent as int) && !level_restorable(old(self), levels@, k as int)
                ==> r == Ok::<bool, TreeError>(false) && final(self).nodes@ == old(self).nodes@ && sync_unchanged(*old(sync), *final(sync)),
            !shown_in_workspace(old(self), levels@[k as int].target_parent as int) && r == Ok::<bool, TreeError>(true)
                ==> final(self).parent_of(levels@[k as int].target_parent as int) == Some(levels@[k as int + 1].target_parent),
            r == Ok::<bool, TreeError>(false) ==> final(self).nodes@ == old(self).nodes@ && sync_unchanged(*old(sync), *final(sync)),
            forall|i: int| 0 <= i < old(self).len() && old(self).parent_of(i) is Some
                ==> #[trigger] final(self).parent_of(i) == old(self).parent_of(i),
            forall|i: int| 0 <= i < old(self).len() ==> #[trigger] final(self).kind(i) == old(self).kind(i),
            final(sync).workspaces_to_reorder@ == old(sync).workspaces_to_reorder@,
            restorable_chain(old(self), levels@, k as int) ==> r == Ok::<bool, TreeError>(true),
            r == Ok::<bool, TreeError>(true) ==> chain_attached(old(self), final(self), levels@, k as int),
            forall|i: int|
                0 <= i < old(self).len() && old(self).parent_of(i) is None && final(self).parent_of(i) is Some ==> exists|j: int|
                    k <= j < levels.len() && (#[trigger] levels@[j].target_parent) == i as usize,
        decreases levels.len() - k,
    {
        let tp = levels[k].target_parent;
        if self.shown(tp) {
            return Ok(true);
        }
        if k + 1 >= levels.len() || self.nodes[tp].parent.is_some() || self.nodes[tp].children.len() > 0 {
            return Ok(false);
        }
        let ghost t0 = *old(self);
        let above = self.restore_insertion_target_parent(levels, k + 1, sync);
        match above {
            Err(e) => {
                return Err(e);
            },
            Ok(false) => {
                return Ok(false);
            },
            Ok(true) => {},
        }
        let ghost ta = *self;
        let up = levels[k + 1].target_parent;
        let count = self.nodes[up].children.len();
        let wanted = levels[k + 1].target_index;
        let index = if wanted < count {
            wanted
        } else {
            count
        };
        let attached = self.attach_container(tp, up, Some(index));
        let ghost tb = *self;
        proof {
            assert forall|i: int| 0 <= i < t0.len() implies #[trigger] tb.kind(i) == t0.kind(i) by {
                assert(tb.nodes@[i].kind == ta.nodes@[i].kind);
                assert(ta.kind(i) == t0.kind(i));
            }
            assert forall|i: int| 0 <= i < t0.len() && t0.parent_of(i) is Some
                implies #[trigger] tb.parent_of(i) == t0.parent_of(i) by {
                assert(ta.parent_of(i) == t0.parent_of(i));
                assert(i != tp);
            }
        }
        if let Err(e) = attached {
            return Err(e);
        }
        if self.tiling(tp) {
            self.restore_tiling_size(tp, levels[k + 1]);
            proof {
                let tc = *self;
                assert forall|i: int| 0 <= i < t0.len() implies #[trigger] tc.kind(i) == t0.kind(i) by {
                    assert(tc.nodes@[i].kind == tb.nodes@[i].kind);
                    assert(tb.kind(i) == t0.kind(i));
                }
                assert forall|i: int| 0 <= i < t0.len() && t0.parent_of(i) is Some
                    implies #[trigger] tc.parent_of(i) == t0.parent_of(i) by {
                    assert(tc.nodes@[i].parent == tb.nodes@[i].parent);
                    assert(tb.parent_of(i) == t0.parent_of(i));
                }
                assert(tc.nodes@[tp as int].parent == tb.nodes@[tp as int].parent);
            }
        }
        proof {
            let tf = *self;
            assert forall|i: int| 0 <= i < tf.len() implies #[trigger] tf.parent_of(i) == tb.parent_of(i) by {
                assert(tf.nodes@[i].parent == tb.nodes@[i].parent);
            }
            assert(ta.parent_of(tp as int) is None) by {
                if ta.parent_of(tp as int) is Some {
                    let j = choose|j: int| k + 1 <= j < levels.len() && (#[trigger] levels@[j].target_parent) == tp;
                }
            }
            assert forall|i: int| 0 <= i < ta.len() && ta.parent_of(i) is Some implies #[trigger] tf.parent_of(i)
                == ta.parent_of(i) by {
                assert(i != tp as int);
            }
            lemma_chain_attached_kept(&t0, &ta, &tf, levels@, k + 1);
            assert(tf.parent_of(tp as int) == Some(up));
            assert forall|i: int|
                0 <= i < t0.len() && t0.parent_of(i) is None && tf.parent_of(i) is Some implies exists|j: int|
                    k <= j < levels.len() && (#[trigger] levels@[j].target_parent) == i as usize by {
                if i == tp as int {
                    assert(levels@[k as int].target_parent == i as usize);
                } else {
                    assert(ta.parent_of(i) is Some);
                    let j = choose|j: int| k + 1 <= j < levels.len() && (#[trigger] levels@[j].target_parent) == i as usize;
                    assert(k <= j);
                }
            }
        }
        sync.queue_container_to_redraw(up);
        Ok(true)
    }
}

/// What a change of window state did.
#[derive(Clone, Copy, Debug, PartialEq, Eq, Structural)]
pub enum StateUpdate {
    /// The window already had the state.
    Unchanged,
    /// The window took the state.
    Updated,
    /// A window that is not minimized on the platform stays as it is; the
    /// platform is to minimize it, and the state follows from that.
    MinimizeNatively,
}

/// Whether two window states are of the same kind, whatever their
/// settings.
pub open spec fn same_state_kind(a: WindowState, b: WindowState) -> bool {
    match (a, b) {
        (WindowState::Tiling, WindowState::Tiling) => true,
        (WindowState::Floating(_), WindowState::Floating(_)) => true,
        (WindowState::Fullscreen(_), WindowState::Fullscreen(_)) => true,
        (WindowState::Minimized, WindowState::Minimized) => true,
        _ => false,
    }
}

/// Whether two window states are of the same kind.
pub fn is_same_state(a: &WindowState, b: &WindowState) -> (r: bool)
    ensures
        r == same_state_kind(*a, *b),
{
    match (a, b) {
        (WindowState::Tiling, WindowState::Tiling) => true,
        (WindowState::Floating(_), WindowState::Floating(_)) => true,
        (WindowState::Fullscreen(_), WindowState::Fullscreen(_)) => true,
        (WindowState::Minimized, WindowState::Minimized) => true,
        _ => false,
    }
}

/// A non-tiling window's properties in `state`; where the kind of state
/// changes, the state it leaves becomes its previous state.
pub open spec fn restated(info: WindowInfo, state: WindowState) -> WindowInfo {
    if same_state_kind(info.state, state) {
        WindowInfo { state, ..info }
    } else {
        WindowInfo { state, prev_state: Some(info.state), ..info }
    }
}

/// A window's properties once it tiles again: the state it leaves becomes
/// its previous state, and it no longer holds a place to return to.
pub open spec fn tiling_info(info: WindowInfo) -> WindowInfo {
    WindowInfo { state: WindowState::Tiling, prev_state: Some(info.state), insertion_target: None, ..info }
}

/// Whether `after` is `before` taken out of the tiling layout into
/// `state`, remembering the places in `levels`.
pub open spec fn left_tiling(before: WindowInfo, after: WindowInfo, state: WindowState, levels: Seq<InsertionLevel>) -> bool {
    &&& after.insertion_target matches Some(it) && it.levels@ == levels
    &&& after == WindowInfo {
        state,
        prev_state: Some(WindowState::Tiling),
        insertion_target: after.insertion_target,
        ..before
    }
}

/// A copy of a list of levels.
fn copy_levels(levels: &Vec<InsertionLevel>) -> (r: Vec<InsertionLevel>)
    ensures
        r@ == levels@,
{
    let mut r: Vec<InsertionLevel> = Vec::new();
    let mut i: usize = 0;
    while i < levels.len()
        invariant
            i <= levels.len(),
            r@ == levels@.take(i as int),
        decreases levels.len() - i,
    {
        r.push(levels[i]);
        i = i + 1;
        proof {
            assert(r@ =~= levels@.take(i as int));
        }
    }
    proof {
        assert(levels@.take(levels.len() as int) =~= levels@);
    }
    r
}

impl ContainerTree {
    /// Whether every level names a container of the tree.
    fn levels_in_tree(&self, levels: &Vec<InsertionLevel>) -> (r: bool)
        ensures
            r == forall|j: int| 0 <= j < levels.len() ==> (#[trigger] levels@[j].target_parent as int) < self.len(),
    {
        let mut i: usize = 0;
        while i < levels.len()
            invariant
                i <= levels.len(),
                forall|j: int| 0 <= j < i ==> (#[trigger] levels@[j].target_parent as int) < self.len(),
            decreases levels.len() - i,
        {
            if levels[i].target_parent >= self.nodes.len() {
                return false;
            }
            i = i + 1;
        }
        true
    }

    /// Takes tiling window `w`, with parent `p`, out of the tiling layout
    /// into `state`, remembering `levels`: it is detached (its tiling
    /// siblings share its size and emptied layout containers go) and comes
    /// back as a non-tiling window of workspace `ws`, in its old place
    /// where `ws` was its parent, else at the end.
    fn untile(&mut self, w: usize, p: usize, ws: usize, state: WindowState, levels: Vec<InsertionLevel>)
        requires
            old(self).wf(),
            (w as int) < old(self).len(),
            (ws as int) < old(self).len(),
            old(self).kind(w as int) is TilingWindow,
            old(self).parent_of(w as int) == Some(p),
        ensures
            final(self).wf(),
            final(self).len() == old(self).len(),
            final(self).parent_of(w as int) == Some(ws),
            final(self).kind(w as int) is NonTilingWindow,
            left_tiling(old(self).window_info(w as int), final(self).window_info(w as int), state, levels@),
            forall|y: int| 0 <= y < old(self).len() && y != w ==> #[trigger] final(self).kind(y) == old(self).kind(y),
    {
        proof {
            assert(old(self).node_wf(w as int));
            assert(old(self).ch(p as int).contains(w));
        }
        let i = if p == ws {
            self.index_in(ws, w)
        } else {
            self.nodes[ws].children.len()
        };
        let ghost ghost_levels = levels@;
        let _ = self.detach_container(w);
        let ghost before = *self;
        let mut node = self.take_node(w);
        match node.kind {
            ContainerKind::TilingWindow(info) => {
                let target = InsertionTarget { levels };
                node.kind = ContainerKind::NonTilingWindow(
                    WindowInfo { state, prev_state: Some(WindowState::Tiling), insertion_target: Some(target), ..info },
                );
            },
            other => {
                node.kind = other;
            },
        }
        self.put_back(w, node, Ghost(before));
        let count = self.nodes[ws].children.len();
        let at = if i < count {
            i
        } else {
            count
        };
        let ghost mid = *self;
        let _ = self.attach_container(w, ws, Some(at));
        proof {
            assert forall|y: int| 0 <= y < old(self).len() && y != w implies #[trigger] self.kind(y) == old(self).kind(y) by {
                assert(self.nodes@[y].kind == mid.nodes@[y].kind);
                assert(mid.nodes@[y].kind == before.nodes@[y].kind);
            }
        }
    }

    /// Places non-tiling window `w`, now detached, as a tiling window at
    /// position `index` of `p` (clamped to its children). Where `p` was
    /// its parent, at `old_index`, the position is counted as if it still
    /// stood there.
    fn retile(&mut self, w: usize, p: usize, index: usize, same_parent: bool, old_index: usize)
        requires
            old(self).wf(),
            (w as int) < old(self).len(),
            (p as int) < old(self).len(),
            old(self).kind(w as int) is NonTilingWindow,
            old(self).parent_of(w as int) is None,
        ensures
            final(self).wf(),
            final(self).len() == old(self).len(),
            final(self).parent_of(w as int) == Some(p),
            final(self).ch(p as int) == old(self).ch(p as int).insert(
                retile_at(index, same_parent, old_index, old(self).ch(p as int).len()) as int,
                w,
            ),
            final(self).kind(w as int) == ContainerKind::TilingWindow(tiling_info(old(self).window_info(w as int))),
    {
        let ghost before = *self;
        let mut node = self.take_node(w);
        match node.kind {
            ContainerKind::NonTilingWindow(info) => {
                let prev = info.state;
                node.kind = ContainerKind::TilingWindow(
                    WindowInfo { state: WindowState::Tiling, prev_state: Some(prev), insertion_target: None, ..info },
                );
            },
            other => {
                node.kind = other;
            },
        }
        self.put_back(w, node, Ghost(before));
        let count = self.nodes[p].children.len();
        let wanted = if same_parent && index > old_index {
            index - 1
        } else {
            index
        };
        let at = if wanted < count {
            wanted
        } else {
            count
        };
        let ghost before_attach = *self;
        let _ = self.attach_container(w, p, Some(at));
        proof {
            assert(before_attach.ch(p as int) == before.ch(p as int)) by {
                assert(before_attach.nodes@[p as int].children@ == before.nodes@[p as int].children@);
            }
            assert(crate::attach::attach_outcome(&before_attach, self, w as int, p as int, Some(at), Ok(())));
        }
    }
}

/// Where a window goes back among `count` children of its new parent for
/// the wanted `index`: one less where it left the same parent from before
/// that index (`old_index`), and at most at the end.
pub open spec fn retile_at(index: usize, same_parent: bool, old_index: usize, count: nat) -> usize {
    let wanted = if same_parent && index > old_index {
        (index - 1) as usize
    } else {
        index
    };
    if (wanted as int) < count {
        wanted
    } else {
        count as usize
    }
}

/// `new` is `t1` with window `w` put back into the parent recorded at
/// `level`: detached from where it was, inserted at its recorded place
/// (`retile_at`), given back its recorded size (`tiling_size_restored`),
/// and a split left holding only that parent flattened away
/// (`singleton_split_flattened`).
pub open spec fn placed_back(t1: &ContainerTree, new: &ContainerTree, w: int, level: InsertionLevel) -> bool {
    let tp = level.target_parent as int;
    exists|mid: ContainerTree, t2: ContainerTree, t3: ContainerTree|
        #![trigger crate::attach::detach_outcome(t1, &mid, w, Ok(())), tiling_size_restored(&t2, &t3, w, level), singleton_split_flattened(&t3, new, w, tp)]
        {
            &&& crate::attach::detach_outcome(t1, &mid, w, Ok(()))
            &&& t2.wf()
            &&& t2.parent_of(w) == Some(tp as usize)
            &&& t2.ch(tp) == mid.ch(tp).insert(
                retile_at(
                    level.target_index,
                    t1.parent_of(w) == Some(tp as usize),
                    t1.ch(t1.parent_of(w).unwrap() as int).index_of(w as usize) as usize,
                    mid.ch(tp).len(),
                ) as int,
                w as usize,
            )
            &&& tiling_size_restored(&t2, &t3, w, level)
            &&& singleton_split_flattened(&t3, new, w, tp)
        }
}

/// What taking window `w` back into the tiling layout leaves, for each
/// result `r`. With a recorded place whose parent is shown, the window
/// goes back to that parent; without one, next to the tiling window that
/// its workspace `ws` focused last (see `insertion_slot`).
pub open spec fn tiled_outcome(
    old: &ContainerTree,
    new: &ContainerTree,
    w: int,
    s0: PendingSync,
    s1: PendingSync,
    r: Result<StateUpdate, TreeError>,
) -> bool {
    let info = old.window_info(w);
    &&& new.wf()
    &&& new.len() == old.len()
    &&& !(old.kind(w) is NonTilingWindow) ==> r == Err::<StateUpdate, TreeError>(TreeError::InvalidWindowState)
        && new.nodes@ == old.nodes@ && sync_unchanged(s0, s1)
    &&& old.kind(w) is NonTilingWindow && workspace_of(old, w, old.len()) is None ==> r == Err::<StateUpdate, TreeError>(
        TreeError::NoWorkspace,
    ) && new.nodes@ == old.nodes@ && sync_unchanged(s0, s1)
    &&& r is Ok ==> r == Ok::<StateUpdate, TreeError>(StateUpdate::Updated) && new.kind(w)
        == ContainerKind::TilingWindow(tiling_info(info))
    &&& old.kind(w) is NonTilingWindow ==> match workspace_of(old, w, old.len()) {
        Some(ws) => {
            &&& info.insertion_target is None ==> r is Ok && new.parent_of(w) == Some(insertion_slot(old, ws as int).0)
            &&& info.insertion_target is None ==> exists|mid: ContainerTree| {
                &&& #[trigger] crate::attach::detach_outcome(old, &mid, w, Ok(()))
                &&& new.ch(insertion_slot(old, ws as int).0 as int) == mid.ch(insertion_slot(old, ws as int).0 as int).insert(
                    retile_at(
                        insertion_slot(old, ws as int).1,
                        old.parent_of(w) == Some(insertion_slot(old, ws as int).0),
                        old.ch(old.parent_of(w).unwrap() as int).index_of(w as usize) as usize,
                        mid.ch(insertion_slot(old, ws as int).0 as int).len(),
                    ) as int,
                    w as usize,
                )
            }
            &&& (info.insertion_target matches Some(it) && it.levels@.len() > 0
                && (forall|j: int| 0 <= j < it.levels@.len() ==> (#[trigger] it.levels@[j].target_parent as int) < old.len())
                && shown_in_workspace(old, it.levels@[0].target_parent as int)) ==> r is Ok && new.parent_of(w)
                == Some(info.insertion_target.unwrap().levels@[0].target_parent)
            &&& (info.insertion_target matches Some(it) && it.levels@.len() > 0
                && (forall|j: int| 0 <= j < it.levels@.len() ==> (#[trigger] it.levels@[j].target_parent as int) < old.len())
                && restorable_chain(old, it.levels@, 0)) ==> {
                let level = info.insertion_target.unwrap().levels@[0];
                &&& r is Ok
                &&& new.parent_of(w) == Some(level.target_parent)
                &&& exists|t1: ContainerTree| {
                    &&& #[trigger] placed_back(&t1, new, w, level)
                    &&& chain_attached(old, &t1, info.insertion_target.unwrap().levels@, 0)
                    &&& shown_in_workspace(old, level.target_parent as int) ==> t1.nodes@ == old.nodes@
                    &&& forall|i: int| 0 <= i < old.len() && old.parent_of(i) is Some ==> #[trigger] t1.parent_of(i) == old.parent_of(i)
                }
            }
            &&& r is Ok ==> s1.workspaces_to_reorder@ == s0.workspaces_to_reorder@.push(ws)
        },
        None => true,
    }
}

/// What taking window `w` into non-tiling `state` leaves, for each
/// result `r`. A window that is to be minimized but is not minimized on
/// the platform stays as it is. A non-tiling window takes the state; a
/// tiling window leaves the layout, remembering its place
/// (`captured_levels`), and becomes a non-tiling window of its workspace.
pub open spec fn untiled_outcome(
    old: &ContainerTree,
    new: &ContainerTree,
    w: int,
    state: WindowState,
    s0: PendingSync,
    s1: PendingSync,
    r: Result<StateUpdate, TreeError>,
) -> bool {
    let info = old.window_info(w);
    &&& new.wf()
    &&& new.len() == old.len()
    &&& if state is Minimized && !info.is_minimized {
        r == Ok::<StateUpdate, TreeError>(StateUpdate::MinimizeNatively) && new.nodes@ == old.nodes@ && sync_unchanged(
            s0,
            s1,
        )
    } else {
        match workspace_of(old, w, old.len()) {
            None => r == Err::<StateUpdate, TreeError>(TreeError::NoWorkspace) && new.nodes@ == old.nodes@
                && sync_unchanged(s0, s1),
            Some(ws) => if old.kind(w) is NonTilingWindow {
                &&& r == Ok::<StateUpdate, TreeError>(StateUpdate::Updated)
                &&& kind_set(old, new, w, ContainerKind::NonTilingWindow(restated(info, state)))
                &&& s1.containers_to_redraw@ == s0.containers_to_redraw@.push(w as usize)
                &&& s1.workspaces_to_reorder@ == if same_state_kind(info.state, state) {
                    s0.workspaces_to_reorder@
                } else {
                    s0.workspaces_to_reorder@.push(ws)
                }
            } else {
                match captured_levels(old, w, old.len()) {
                    Err(e) => r == Err::<StateUpdate, TreeError>(e) && new.nodes@ == old.nodes@ && sync_unchanged(s0, s1),
                    Ok(levels) => {
                        &&& r == Ok::<StateUpdate, TreeError>(StateUpdate::Updated)
                        &&& new.parent_of(w) == Some(ws)
                        &&& new.kind(w) is NonTilingWindow
                        &&& forall|y: int| 0 <= y < old.len() && y != w ==> #[trigger] new.kind(y) == old.kind(y)
                        &&& left_tiling(info, new.window_info(w), state, levels)
                        &&& s1.containers_to_redraw@ == s0.containers_to_redraw@.push(w as usize) + tiling_of(
                            new,
                            new.ch(ws as int),
                        )
                        &&& s1.workspaces_to_reorder@ == s0.workspaces_to_reorder@.push(ws)
                    },
                }
            },
        }
    }
}

impl ContainerTree {
    /// Takes non-tiling window `w` back into the tiling layout (see
    /// `tiled_outcome`). A recorded place whose parent is no longer shown
    /// is restored first where it can be (`restore_insertion_target_parent`),
    /// and the window then takes back its recorded size
    /// (`restore_tiling_size`). The tiling children of the new parent are
    /// queued for redraw and the workspace for reordering.
    fn set_tiling(&mut self, w: usize, sync: &mut PendingSync) -> (r: Result<StateUpdate, TreeError>)
        requires
            old(self).wf(),
            (w as int) < old(self).len(),
        ensures
            tiled_outcome(old(self), final(self), w as int, *old(sync), *final(sync), r),
    {
        let ghost t0 = *self;
        let levels_opt: Option<Vec<InsertionLevel>> = match &self.nodes[w].kind {
            ContainerKind::NonTilingWindow(info) => match &info.insertion_target {
                Some(it) => Some(copy_levels(&it.levels)),
                None => None,
            },
            _ => {
                return Err(TreeError::InvalidWindowState);
            },
        };
        let ws = match self.workspace(w) {
            Some(ws) => ws,
            None => {
                return Err(TreeError::NoWorkspace);
            },
        };
        let fallback = self.slot_after_focused(ws);
        let mut restored: Option<InsertionLevel> = None;
        match levels_opt {
            Some(levels) => {
                if levels.len() > 0 && self.levels_in_tree(&levels) {
                    match self.restore_insertion_target_parent(&levels, 0, sync) {
                        Err(e) => {
                            return Err(e);
                        },
                        Ok(true) => {
                            restored = Some(levels[0]);
                        },
                        Ok(false) => {},
                    }
                }
            },
            None => {},
        }
        let ghost t1 = *self;
        proof {
            assert(t0.parent_of(w as int) is Some);
            assert(t1.parent_of(w as int) == t0.parent_of(w as int));
            assert(t1.kind(w as int) == t0.kind(w as int));
        }
        let (tp, ti) = match restored {
            Some(l) => (l.target_parent, l.target_index),
            None => fallback,
        };
        let p = match self.nodes[w].parent {
            Some(p) => p,
            None => {
                return Err(TreeError::NoParent);
            },
        };
        proof {
            assert(t1.node_wf(w as int));
            assert(t1.ch(p as int).contains(w));
        }
        let old_index = self.index_in(p, w);
        proof {
            assert(t1.node_wf(p as int));
            assert(t1.ch(p as int).no_duplicates());
            assert(t1.ch(p as int).index_of(w) == old_index as int) by {
                let j = t1.ch(p as int).index_of(w);
                assert(t1.ch(p as int)[j] == w);
            }
        }
        let rd = self.detach_container(w);
        let ghost mid = *self;
        proof {
            assert(rd is Ok);
            assert(rd == Ok::<(), TreeError>(rd->Ok_0));
        }
        self.retile(w, tp, ti, p == tp, old_index);
        proof {
            assert(crate::attach::detach_outcome(&t1, &mid, w as int, Ok(())));
        }
        match restored {
            Some(l) => {
                let ghost t2 = *self;
                self.restore_tiling_size(w, l);
                let ghost t3 = *self;
                proof {
                    assert(self.nodes@[w as int].kind == t2.nodes@[w as int].kind);
                    assert(self.nodes@[w as int].parent == t2.nodes@[w as int].parent);
                }
                self.flatten_singleton_split_above(w, tp);
                proof {
                    assert(tiling_size_restored(&t2, &t3, w as int, l));
                    assert(singleton_split_flattened(&t3, self, w as int, tp as int));
                    assert(crate::attach::detach_outcome(&t1, &mid, w as int, Ok(())));
                    assert(placed_back(&t1, self, w as int, l));
                }
            },
            None => {},
        }
        let tc = self.tiling_children(tp);
        sync.queue_containers_to_redraw(&tc);
        sync.queue_workspace_to_reorder(ws);
        Ok(StateUpdate::Updated)
    }
}

/// `new` is `old` with the split above `tp` flattened where it holds
/// only `tp` (see `flatten_singleton_split_above`); window `w`, a child of
/// `tp`, keeps its parent and kind.
pub open spec fn singleton_split_flattened(old: &ContainerTree, new: &ContainerTree, w: int, tp: int) -> bool {
    &&& new.wf()
    &&& new.len() == old.len()
    &&& new.parent_of(w) == Some(tp as usize)
    &&& new.nodes@[w].kind == old.nodes@[w].kind
    &&& match old.parent_of(tp) {
        Some(g) => if old.is_split(g as int) && old.ch(g as int).len() == 1 {
            exists|r0: Result<(), TreeError>| #[trigger] crate::splits::flatten_split_outcome(old, new, g as int, r0)
        } else {
            new.nodes@ == old.nodes@
        },
        None => new.nodes@ == old.nodes@,
    }
}

impl ContainerTree {
    /// Where the parent of `tp` is a split whose only child is `tp`, that
    /// split is flattened into its own parent (`tp` takes its share); a
    /// restored layout does not keep such a redundant split above it.
    /// Window `w`, a child of `tp`, keeps its parent and kind.
    fn flatten_singleton_split_above(&mut self, w: usize, tp: usize)
        requires
            old(self).wf(),
            (w as int) < old(self).len(),
            (tp as int) < old(self).len(),
            old(self).parent_of(w as int) == Some(tp),
            old(self).is_window(w as int),
        ensures
            singleton_split_flattened(old(self), final(self), w as int, tp as int),
    {
        let g = match self.nodes[tp].parent {
            Some(g) => g,
            None => {
                return;
            },
        };
        proof {
            assert(self.node_wf(tp as int));
        }
        if !(self.split(g) && self.nodes[g].children.len() == 1) {
            return;
        }
        let ghost before = *self;
        let r = self.flatten_split_container(g);
        proof {
            assert(before.node_wf(g as int));
            assert(before.ch(g as int)[0] == tp) by {
                assert(before.ch(g as int).contains(tp));
            }
            assert(w as int != g as int);
            assert(!before.ch(g as int).contains(w)) by {
                if before.ch(g as int).contains(w) {
                    assert(before.ch(g as int)[0] == w);
                }
            }
            if before.dissolvable(g as int) {
                let (i, f) = choose|i: int, f: int|
                    crate::tabs::dissolved_links(&before, self, g as int, before.parent_of(g as int).unwrap() as int, i, f);
                assert(self.parent_of(w as int) == before.parent_of(w as int));
            }
            assert(crate::splits::flatten_split_outcome(&before, self, g as int, r));
        }
    }
}

impl ContainerTree {
    /// Takes window `w` into non-tiling `state` (see `untiled_outcome`).
    /// The window is queued for redraw, with the tiling children of its
    /// workspace where it left the layout, and the workspace for
    /// reordering where the kind of state changed.
    fn set_non_tiling(&mut self, w: usize, state: WindowState, sync: &mut PendingSync) -> (r: Result<
        StateUpdate,
        TreeError,
    >)
        requires
            old(self).wf(),
            (w as int) < old(self).len(),
            old(self).is_window(w as int),
        ensures
            untiled_outcome(old(self), final(self), w as int, state, *old(sync), *final(sync), r),
    {
        let ghost t0 = *self;
        let minimized = match &self.nodes[w].kind {
            ContainerKind::TilingWindow(info) => info.is_minimized,
            ContainerKind::NonTilingWindow(info) => info.is_minimized,
            _ => vstd::pervasive::unreached(),
        };
        if state == WindowState::Minimized && !minimized {
            return Ok(StateUpdate::MinimizeNatively);
        }
        let ws = match self.workspace(w) {
            Some(ws) => ws,
            None => {
                return Err(TreeError::NoWorkspace);
            },
        };
        if self.tiling_window(w) {
            let p = match self.nodes[w].parent {
                Some(p) => p,
                None => {
                    return Err(TreeError::NoParent);
                },
            };
            let target = match self.capture_insertion_target(w) {
                Ok(it) => it,
                Err(e) => {
                    return Err(e);
                },
            };
            self.untile(w, p, ws, state, target.levels);
            sync.queue_container_to_redraw(w);
            let tc = self.tiling_children(ws);
            sync.queue_containers_to_redraw(&tc);
            sync.queue_workspace_to_reorder(ws);
            return Ok(StateUpdate::Updated);
        }
        let ghost before = *self;
        let mut node = self.take_node(w);
        let mut changed = false;
        match node.kind {
            ContainerKind::NonTilingWindow(info) => {
                let current = info.state;
                if is_same_state(&current, &state) {
                    node.kind = ContainerKind::NonTilingWindow(WindowInfo { state, ..info });
                } else {
                    changed = true;
                    node.kind = ContainerKind::NonTilingWindow(WindowInfo { state, prev_state: Some(current), ..info });
                }
            },
            other => {
                node.kind = other;
            },
        }
        self.put_back(w, node, Ghost(before));
        if changed {
            sync.queue_workspace_to_reorder(ws);
        }
        sync.queue_container_to_redraw(w);
        Ok(StateUpdate::Updated)
    }

    /// Changes the state of window `w` to `state`: nothing where it has
    /// the state already, else into the tiling layout (`tiled_outcome`) or
    /// out of it (`untiled_outcome`).
    pub fn update_window_state(&mut self, w: usize, state: WindowState, sync: &mut PendingSync) -> (r: Result<
        StateUpdate,
        TreeError,
    >)
        requires
            old(self).wf(),
            (w as int) < old(self).len(),
            old(self).is_window(w as int),
        ensures
            old(self).window_state(w as int) == state ==> r == Ok::<StateUpdate, TreeError>(StateUpdate::Unchanged)
                && final(self).nodes@ == old(self).nodes@ && sync_unchanged(*old(sync), *final(sync)),
            old(self).window_state(w as int) != state && state is Tiling ==> tiled_outcome(
                old(self),
                final(self),
                w as int,
                *old(sync),
                *final(sync),
                r,
            ),
            old(self).window_state(w as int) != state && !(state is Tiling) ==> untiled_outcome(
                old(self),
                final(self),
                w as int,
                state,
                *old(sync),
                *final(sync),
                r,
            ),
    {
        let current = match &self.nodes[w].kind {
            ContainerKind::NonTilingWindow(info) => info.state,
            _ => WindowState::Tiling,
        };
        if current == state {
            return Ok(StateUpdate::Unchanged);
        }
        match state {
            WindowState::Tiling => self.set_tiling(w, sync),
            _ => self.set_non_tiling(w, state, sync),
        }
    }
}

/// The places that `captured_levels` records are containers of the tree,
/// the first one the parent of `c`.
pub proof fn lemma_captured_in_tree(t: &ContainerTree, c: int, fuel: nat)
    requires
        t.wf(),
        0 <= c < t.len(),
    ensures
        captured_levels(t, c, fuel) matches Ok(levels) ==> {
            &&& levels.len() > 0
            &&& Some(levels[0].target_parent) == t.parent_of(c)
            &&& forall|j: int| 0 <= j < levels.len() ==> (#[trigger] levels[j].target_parent as int) < t.len()
        },
    decreases fuel,
{
    match t.parent_of(c) {
        None => {},
        Some(p) => {
            assert(t.node_wf(c));
            if t.ch(p as int).len() == 1 && t.is_tiling(p as int) && fuel > 0 {
                lemma_captured_in_tree(t, p as int, (fuel - 1) as nat);
                match captured_levels(t, p as int, (fuel - 1) as nat) {
                    Ok(rest) => {
                        let levels = seq![level_of(t, c, p as int)] + rest;
                        assert forall|j: int| 0 <= j < levels.len() implies (#[trigger] levels[j].target_parent as int)
                            < t.len() by {
                            if j > 0 {
                                assert(levels[j] == rest[j - 1]);
                            }
                        }
                    },
                    Err(_) => {},
                }
            }
        },
    }
}

/// A tiling window taken out of the tiling layout and then back goes back
/// to the parent it left, where that parent is still shown when it
/// returns.
pub proof fn law_retiling_returns_to_parent(
    t0: &ContainerTree,
    t1: &ContainerTree,
    t2: &ContainerTree,
    w: int,
    state: WindowState,
    s0: PendingSync,
    s1: PendingSync,
    s2: PendingSync,
    r1: Result<StateUpdate, TreeError>,
    r2: Result<StateUpdate, TreeError>,
)
    requires
        t0.wf(),
        0 <= w < t0.len(),
        t0.kind(w) is TilingWindow,
        !(state is Minimized),
        untiled_outcome(t0, t1, w, state, s0, s1, r1),
        r1 is Ok,
        tiled_outcome(t1, t2, w, s1, s2, r2),
        t0.parent_of(w) matches Some(p) && shown_in_workspace(t1, p as int),
    ensures
        r2 is Ok,
        t2.parent_of(w) == t0.parent_of(w),
{
    assert(workspace_of(t0, w, t0.len()) is Some);
    let ws = workspace_of(t0, w, t0.len()).unwrap();
    assert(captured_levels(t0, w, t0.len()) is Ok);
    let levels = captured_levels(t0, w, t0.len()).unwrap();
    lemma_captured_in_tree(t0, w, t0.len());
    lemma_workspace_of_is_workspace(t0, w, t0.len());
    assert(ws as int != w);
    assert(!(t0.kind(w) is NonTilingWindow));
    assert(forall|y: int| 0 <= y < t0.len() && y != w ==> #[trigger] t1.kind(y) == t0.kind(y));
    assert(t1.kind(ws as int) == t0.kind(ws as int));
    assert(workspace_of(t1, ws as int, (t1.len() - 1) as nat) == Some(ws));
    assert(workspace_of(t1, w, t1.len()) == Some(ws));
    let it = t1.window_info(w).insertion_target.unwrap();
    assert(it.levels@ == levels);
}

/// What `workspace_of` finds is a workspace of the tree.
pub proof fn lemma_workspace_of_is_workspace(t: &ContainerTree, c: int, fuel: nat)
    requires
        t.wf(),
        0 <= c < t.len(),
    ensures
        workspace_of(t, c, fuel) matches Some(x) ==> (x as int) < t.len() && t.is_workspace(x as int),
    decreases fuel,
{
    if !t.is_workspace(c) && fuel > 0 {
        match t.parent_of(c) {
            Some(p) => {
                assert(t.node_wf(c));
                lemma_workspace_of_is_workspace(t, p as int, (fuel - 1) as nat);
            },
            None => {},
        }
    }
}


/// A container going back to tiling takes the size it had scaled by how
/// its number of tiling siblings changed: the size it aims at, `x`, is
/// its recorded size times `(siblings then + 1) / (siblings now + 1)`,
/// rounded down, the siblings counted in the parent as it is now. In a
/// tabbed parent it takes `x` kept strictly between nothing and the
/// whole; elsewhere it is resized to `x` against its siblings. Without
/// tiling siblings it takes the whole size.
pub proof fn law_restored_size_scales_with_siblings(
    old: &ContainerTree,
    new: &ContainerTree,
    c: int,
    level: InsertionLevel,
) -> (x: int)
    requires
        tiling_size_restored(old, new, c, level),
    ensures
        old.parent_of(c) is None ==> new.size(c) == SIZE_ONE,
        match old.parent_of(c) {
            Some(p) => old.tiling_sibling_count(p as int) == 0 ==> new.size(c) == SIZE_ONE,
            None => true,
        },
        match old.parent_of(c) {
            Some(p) => old.tiling_sibling_count(p as int) > 0 ==> {
                let n = old.tiling_sibling_count(p as int);
                let before = level.prev_tiling_size * (level.prev_sibling_count + 1);
                &&& x * (n + 1) <= before < (x + 1) * (n + 1)
                &&& old.is_tabbed(p as int) ==> new.size(c) == clamp_int(x, 1, SIZE_ONE - 1)
                &&& !old.is_tabbed(p as int) ==> new.size(c) == crate::resizing::resize_target(
                    crate::sizes::clamp_size(x) as int,
                    n,
                )
            },
            None => true,
        },
{
    match old.parent_of(c) {
        Some(p) => {
            let n = old.tiling_sibling_count(p as int);
            let before = level.prev_tiling_size * (level.prev_sibling_count + 1);
            let x = restored_target(old, c, p as int, level);
            if n > 0 {
                assert(x == before / (n + 1));
                assert(x * (n + 1) <= before < (x + 1) * (n + 1)) by (nonlinear_arith)
                    requires
                        x == before / (n + 1),
                        n + 1 > 0,
                        before >= 0,
                ;
            }
            x
        },
        None => 0,
    }
}

} // verus!
