//! Creating, updating and removing the persistent side areas of a monitor
//! to match the configuration.
use vstd::prelude::*;
use vstd::string::*;

use crate::attach::{attach_outcome, detach_outcome, TreeError};
use crate::config::{zero_px, GapsConfig, SideArea, SideAreasConfig, WorkspaceConfig};
use crate::focus::push_reversed;
use crate::geometry::LengthValue;
use crate::monitors::{spec_displayed_workspace, spec_side_area};
use crate::focus_direction::lemma_first_such_member;
use crate::monitor_ops::contents_moved;
use crate::splits::children_flattened;
use crate::moves::{kind_set, unmaximized_in};
use crate::tree::{ContainerKind, ContainerTree, TilingDirection, WorkspaceInfo};

verus! {

/// The properties of a new side area on `side`.
pub open spec fn new_side_area_info(info: WorkspaceInfo, side: SideArea, width: LengthValue, scale_with_dpi: bool, gaps: GapsConfig) -> bool {
    &&& info.config.name@ == (match side {
        SideArea::Left => "__glazewm_side_area_left"@,
        SideArea::Right => "__glazewm_side_area_right"@,
    })
    &&& info.config.display_name is None
    &&& info.config.bind_to_monitor is None
    &&& info.config.keep_alive
    &&& info.gaps == gaps
    &&& info.side_area == Some(side)
    &&& info.side_area_width == width
    &&& info.side_area_scale_with_dpi == scale_with_dpi
}

/// A new side area on `side`.
pub fn new_side_area(side: SideArea, width: LengthValue, scale_with_dpi: bool, gaps: GapsConfig) -> (r: WorkspaceInfo)
    ensures
        new_side_area_info(r, side, width, scale_with_dpi, gaps),
{
    let name = match side {
        SideArea::Left => String::from_str("__glazewm_side_area_left"),
        SideArea::Right => String::from_str("__glazewm_side_area_right"),
    };
    proof {
        reveal_strlit("__glazewm_side_area_left");
        reveal_strlit("__glazewm_side_area_right");
    }
    WorkspaceInfo {
        config: WorkspaceConfig { name, display_name: None, bind_to_monitor: None, keep_alive: true },
        gaps,
        side_area: Some(side),
        side_area_width: width,
        side_area_scale_with_dpi: scale_with_dpi,
    }
}

/// The containers met in a walk over `stack` (top last) and the
/// descendants of what it holds, visiting at most `fuel` containers.
pub open spec fn walk(t: &ContainerTree, stack: Seq<usize>, fuel: nat) -> Seq<usize>
    decreases fuel,
{
    if fuel == 0 || stack.len() == 0 {
        Seq::empty()
    } else {
        let x = stack.last();
        seq![x] + walk(t, push_reversed(stack.drop_last(), t.ch(x as int)), (fuel - 1) as nat)
    }
}

/// `a` and `b` have the same links.
pub open spec fn same_links(a: &ContainerTree, b: &ContainerTree) -> bool {
    &&& a.len() == b.len()
    &&& forall|y: int|
        0 <= y < a.len() ==> (#[trigger] a.nodes@[y]).parent == b.nodes@[y].parent && a.nodes@[y].children@
            == b.nodes@[y].children@ && a.nodes@[y].focus_order@ == b.nodes@[y].focus_order@
}

/// `new` is `old` with a new, detached side area on `side` appended.
pub open spec fn area_appended(old: &ContainerTree, new: &ContainerTree, side: SideArea, width: LengthValue, scale_with_dpi: bool, gaps: GapsConfig) -> bool {
    &&& new.nodes@.drop_last() == old.nodes@
    &&& new.len() == old.len() + 1
    &&& new.kind(old.len() as int) matches ContainerKind::Workspace(info) && new_side_area_info(info, side, width, scale_with_dpi, gaps)
    &&& new.parent_of(old.len() as int) is None
    &&& new.ch(old.len() as int).len() == 0
    &&& new.fo(old.len() as int).len() == 0
}

/// The kind of container `y` of `t` once maximizing is off: a fullscreen
/// window's with `maximized` cleared, any other's unchanged.
pub open spec fn unmaximized_kind(t: &ContainerTree, y: int) -> ContainerKind {
    if t.kind(y) is NonTilingWindow && t.window_state(y) is Fullscreen {
        ContainerKind::NonTilingWindow(crate::moves::unmaximized(t.window_info(y)))
    } else {
        t.kind(y)
    }
}

/// What `ensure_side_area` does on one side of monitor `m`, for the
/// configured `width`.
pub open spec fn side_area_ensured(
    old: &ContainerTree,
    new: &ContainerTree,
    m: int,
    side: SideArea,
    width: LengthValue,
    scale_with_dpi: bool,
    gaps: GapsConfig,
    r: Result<(), TreeError>,
) -> bool {
    match spec_side_area(old, m, side) {
        None => if width.amount <= 0 {
            r is Ok && new.nodes@ == old.nodes@
        } else {
            exists|added: ContainerTree| {
                &&& #[trigger] area_appended(old, &added, side, width, scale_with_dpi, gaps)
                &&& attach_outcome(
                    &added,
                    new,
                    old.len() as int,
                    m,
                    Some(match side {
                        SideArea::Left => 0usize,
                        SideArea::Right => old.ch(m).len() as usize,
                    }),
                    r,
                )
            }
        },
        Some(a) => if width.amount <= 0 {
            match spec_displayed_workspace(old, m) {
                Some(tw) => exists|mid: ContainerTree, flat: ContainerTree, r0: Result<(), TreeError>| {
                    &&& contents_moved(old, &mid, a as int, tw as int)
                    &&& #[trigger] children_flattened(&mid, &flat, tw, r0)
                    &&& r0 is Err ==> r == r0 && new.nodes@ == flat.nodes@
                    &&& r0 is Ok ==> r is Ok && detach_outcome(&flat, new, a as int, r)
                },
                None => r is Ok && detach_outcome(old, new, a as int, r),
            }
        } else {
            &&& r is Ok
            &&& new.kind(a as int) matches ContainerKind::Workspace(info)
            &&& new.workspace_info(a as int).side_area_width == width
            &&& new.workspace_info(a as int).side_area_scale_with_dpi == scale_with_dpi
            &&& new.workspace_info(a as int).gaps == gaps
            &&& new.workspace_info(a as int).side_area == old.workspace_info(a as int).side_area
            &&& new.workspace_info(a as int).config == old.workspace_info(a as int).config
            &&& kind_set(old, new, a as int, new.kind(a as int))
        },
    }
}

impl ContainerTree {
    /// Sets the width, scaling and gaps of side area `a`.
    pub fn set_side_area_config(&mut self, a: usize, width: LengthValue, scale_with_dpi: bool, gaps: GapsConfig)
        requires
            old(self).wf(),
            (a as int) < old(self).len(),
            old(self).is_workspace(a as int),
        ensures
            final(self).wf(),
            final(self).kind(a as int) matches ContainerKind::Workspace(info),
            final(self).workspace_info(a as int) == (WorkspaceInfo {
                side_area_width: width,
                side_area_scale_with_dpi: scale_with_dpi,
                gaps,
                ..old(self).workspace_info(a as int)
            }),
            kind_set(old(self), final(self), a as int, final(self).kind(a as int)),
    {
        let ghost before = *self;
        let mut node = self.take_node(a);
        match node.kind {
            ContainerKind::Workspace(mut info) => {
                info.side_area_width = width;
                info.side_area_scale_with_dpi = scale_with_dpi;
                info.gaps = gaps;
                node.kind = ContainerKind::Workspace(info);
            },
            other => {
                node.kind = other;
            },
        }
        self.put_back(a, node, Ghost(before));
    }

    /// Turns maximizing off for every fullscreen window among the
    /// descendants of `m`.
    pub fn unmaximize_descendants(&mut self, m: usize)
        requires
            old(self).wf(),
            (m as int) < old(self).len(),
        ensures
            final(self).wf(),
            same_links(final(self), old(self)),
            forall|y: int|
                0 <= y < final(self).len() ==> #[trigger] final(self).nodes@[y].kind == if walk(
                    old(self),
                    push_reversed(Seq::empty(), old(self).ch(m as int)),
                    old(self).len(),
                ).contains(y as usize) {
                    unmaximized_kind(old(self), y)
                } else {
                    old(self).nodes@[y].kind
                },
    {
        let ghost t0 = *self;
        let mut stack: Vec<usize> = Vec::new();
        let cs = crate::tabs::copy_ids(&self.nodes[m].children);
        proof {
            assert(self.node_wf(m as int));
        }
        let mut j: usize = cs.len();
        while j > 0
            invariant
                self.wf(),
                *self == t0,
                cs@ == t0.ch(m as int),
                (m as int) < t0.len(),
                t0.node_wf(m as int),
                j <= cs@.len(),
                stack@ == Seq::new((cs@.len() - j) as nat, |q: int| cs@[cs@.len() - 1 - q]),
                forall|q: int| 0 <= q < stack@.len() ==> (#[trigger] stack@[q] as int) < t0.len(),
            decreases j,
        {
            j = j - 1;
            stack.push(cs[j]);
            proof {
                assert(t0.valid(cs@[j as int] as int));
                assert(stack@ =~= Seq::new((cs@.len() - j) as nat, |q: int| cs@[cs@.len() - 1 - q]));
            }
        }
        proof {
            assert(stack@ =~= push_reversed(Seq::empty(), t0.ch(m as int)));
        }
        let n = self.nodes.len();
        let mut fuel = n;
        proof {
            assert(Seq::<usize>::empty() + walk(&t0, stack@, n as nat) =~= walk(&t0, stack@, n as nat));
            assert forall|y: int| 0 <= y < self.len() implies #[trigger] self.nodes@[y].kind == if Seq::<usize>::empty().contains(y as usize) {
                unmaximized_kind(&t0, y)
            } else {
                t0.nodes@[y].kind
            } by {}
        }
        while fuel > 0 && stack.len() > 0
            invariant
                self.wf(),
                t0.wf(),
                same_links(self, &t0),
                fuel <= n,
                n == t0.len(),
                forall|q: int| 0 <= q < stack@.len() ==> (#[trigger] stack@[q] as int) < t0.len(),
                exists|seen: Seq<usize>| {
                    &&& #[trigger] (seen + walk(&t0, stack@, fuel as nat)) == walk(&t0, push_reversed(Seq::empty(), t0.ch(m as int)), n as nat)
                    &&& forall|y: int| 0 <= y < self.len() ==> #[trigger] self.nodes@[y].kind == if seen.contains(y as usize) {
                        unmaximized_kind(&t0, y)
                    } else {
                        t0.nodes@[y].kind
                    }
                },
            decreases fuel,
        {
            let ghost before_stack = stack@;
            let ghost before = *self;
            let x = stack.pop().unwrap();
            proof {
                assert(x == before_stack.last());
                assert(stack@ =~= before_stack.drop_last());
            }
            if self.floating_or_full(x) {
                self.unmaximize(x);
            }
            proof {
                assert(self.ch(x as int) == t0.ch(x as int)) by {
                    assert(self.nodes@[x as int].children@ == t0.nodes@[x as int].children@);
                }
            }
            self.push_kids(&mut stack, x, Ghost(t0));
            fuel = fuel - 1;
            proof {
                let seen = choose|seen: Seq<usize>| {
                    &&& #[trigger] (seen + walk(&t0, before_stack, (fuel + 1) as nat)) == walk(&t0, push_reversed(Seq::empty(), t0.ch(m as int)), n as nat)
                    &&& forall|y: int| 0 <= y < before.len() ==> #[trigger] before.nodes@[y].kind == if seen.contains(y as usize) {
                        unmaximized_kind(&t0, y)
                    } else {
                        t0.nodes@[y].kind
                    }
                };
                let seen2 = seen.push(x);
                assert(walk(&t0, before_stack, (fuel + 1) as nat) == seq![x] + walk(&t0, stack@, fuel as nat));
                assert(seen2 + walk(&t0, stack@, fuel as nat) =~= seen + walk(&t0, before_stack, (fuel + 1) as nat));
                assert forall|y: int| 0 <= y < self.len() implies #[trigger] self.nodes@[y].kind == if seen2.contains(y as usize) {
                    unmaximized_kind(&t0, y)
                } else {
                    t0.nodes@[y].kind
                } by {
                    assert(seen2.contains(y as usize) <==> (seen.contains(y as usize) || y == x as int)) by {
                        if seen.contains(y as usize) {
                            let k = choose|k: int| 0 <= k < seen.len() && seen[k] == y as usize;
                            assert(seen2[k] == y as usize);
                        }
                        if seen2.contains(y as usize) && y != x as int {
                            let k = choose|k: int| 0 <= k < seen2.len() && seen2[k] == y as usize;
                            assert(seen[k] == y as usize);
                        }
                        assert(seen2[seen.len() as int] == x);
                    }
                    if y != x as int {
                        assert(self.nodes@[y].kind == before.nodes@[y].kind);
                    }
                }
            }
        }
        proof {
            let seen = choose|seen: Seq<usize>| {
                &&& #[trigger] (seen + walk(&t0, stack@, fuel as nat)) == walk(&t0, push_reversed(Seq::empty(), t0.ch(m as int)), n as nat)
                &&& forall|y: int| 0 <= y < self.len() ==> #[trigger] self.nodes@[y].kind == if seen.contains(y as usize) {
                    unmaximized_kind(&t0, y)
                } else {
                    t0.nodes@[y].kind
                }
            };
            assert(walk(&t0, stack@, fuel as nat) =~= Seq::<usize>::empty());
            assert(seen + Seq::<usize>::empty() =~= seen);
        }
    }

    /// Whether `x` is a non-tiling window.
    fn floating_or_full(&self, x: usize) -> (r: bool)
        requires
            (x as int) < self.len(),
        ensures
            r == (self.kind(x as int) is NonTilingWindow),
    {
        match &self.nodes[x].kind {
            ContainerKind::NonTilingWindow(_) => true,
            _ => false,
        }
    }

    /// Pushes the children of `x` (as `t0` has them) onto `stack`, last
    /// to first.
    pub(crate) fn push_kids(&self, stack: &mut Vec<usize>, x: usize, Ghost(t0): Ghost<ContainerTree>)
        requires
            self.wf(),
            (x as int) < self.len(),
            self.ch(x as int) == t0.ch(x as int),
            self.len() == t0.len(),
            forall|j: int| 0 <= j < old(stack)@.len() ==> (#[trigger] old(stack)@[j] as int) < self.len(),
        ensures
            final(stack)@ == push_reversed(old(stack)@, t0.ch(x as int)),
            forall|j: int| 0 <= j < final(stack)@.len() ==> (#[trigger] final(stack)@[j] as int) < self.len(),
    {
        let ghost s = self.ch(x as int);
        let ghost base = old(stack)@;
        proof {
            assert(self.node_wf(x as int));
        }
        let len = self.nodes[x].children.len();
        let mut j: usize = 0;
        while j < len
            invariant
                self.wf(),
                (x as int) < self.len(),
                s == self.ch(x as int),
                len == s.len(),
                j <= len,
                stack@ == base + Seq::new(j as nat, |q: int| s[s.len() - 1 - q]),
                forall|q: int| 0 <= q < base.len() ==> (#[trigger] base[q] as int) < self.len(),
            decreases len - j,
        {
            let y = self.nodes[x].children[len - 1 - j];
            stack.push(y);
            j = j + 1;
            proof {
                assert(stack@ =~= base + Seq::new(j as nat, |q: int| s[s.len() - 1 - q]));
            }
        }
        proof {
            assert(Seq::new(len as nat, |q: int| s[s.len() - 1 - q]) =~= Seq::new(s.len(), |q: int| s[s.len() - 1 - q]));
            assert forall|q: int| 0 <= q < stack@.len() implies (#[trigger] stack@[q] as int) < self.len() by {
                if q >= base.len() {
                    let r = s.len() - 1 - (q - base.len());
                    assert(self.node_wf(x as int));
                    assert(self.valid(s[r] as int));
                }
            }
        }
    }
}

/// Makes the side area on `side` of monitor `m` match the configured
/// `width`: a side area with a width that is not positive is removed, its
/// contents moved to the end of the workspace the monitor displays (whose
/// split children are then flattened); an existing side area takes the
/// width, scaling and gaps; a missing one is created, first among the
/// monitor's children on the left, last on the right.
pub fn ensure_side_area(
    tree: &mut ContainerTree,
    m: usize,
    side: SideArea,
    width: LengthValue,
    scale_with_dpi: bool,
    gaps: GapsConfig,
) -> (r: Result<(), TreeError>)
    requires
        old(tree).wf(),
        (m as int) < old(tree).len(),
        old(tree).is_monitor(m as int),
    ensures
        final(tree).wf(),
        final(tree).len() >= old(tree).len(),
        final(tree).kind(m as int) == old(tree).kind(m as int),
        side_area_ensured(old(tree), final(tree), m as int, side, width, scale_with_dpi, gaps, r),
{
    let ghost t0 = *tree;
    let existing = tree.side_area(m, side);
    if width.amount <= 0 {
        let area = match existing {
            None => {
                return Ok(());
            },
            Some(area) => area,
        };
        match tree.displayed_workspace(m) {
            Some(tw) => {
                proof {
                    lemma_first_such_member(t0.ch(m as int), |x: usize| t0.is_workspace(x as int) && t0.side_of(x as int) == Some(side));
                }
                let moved = crate::monitor_ops::move_side_area_contents(tree, area, tw);
                if let Err(e) = moved {
                    return Err(e);
                }
                proof {
                    let flat = *tree;
                    let (mid, r0) = choose|mid: ContainerTree, r0: Result<(), TreeError>| {
                        &&& contents_moved(&t0, &mid, area as int, tw as int)
                        &&& #[trigger] children_flattened(&mid, &flat, tw, r0)
                        &&& r0 is Ok ==> (moved matches Ok(ws) && ws@ == crate::monitor_ops::windows_under(&t0, t0.ch(area as int)))
                        &&& (r0 matches Err(e) ==> moved == Err::<Vec<usize>, TreeError>(e))
                    };
                    assert(t0.node_wf(m as int));
                    let k = choose|k: int| 0 <= k < t0.ch(m as int).len() && t0.ch(m as int)[k] == area;
                    assert(t0.parent_of(t0.ch(m as int)[k] as int) == Some(m));
                    if t0.ch(area as int).contains(area) {
                        let q = choose|q: int| 0 <= q < t0.ch(area as int).len() && t0.ch(area as int)[q] == area;
                        assert(mid.parent_of(t0.ch(area as int)[q] as int) == Some(tw));
                    }
                    assert(mid.parent_of(area as int) is Some);
                    assert(mid.nodes@[area as int].kind == t0.nodes@[area as int].kind);
                    let mp = mid.parent_of(area as int).unwrap() as int;
                    assert(mid.nodes@[mp].kind == t0.nodes@[mp].kind) by {
                        assert(mid.node_wf(area as int));
                    }
                    assert(flat.parent_of(area as int) == mid.parent_of(area as int));
                }
            },
            None => {
                proof {
                    lemma_first_such_member(t0.ch(m as int), |x: usize| t0.is_workspace(x as int) && t0.side_of(x as int) == Some(side));
                    assert(t0.node_wf(m as int));
                    let k = choose|k: int| 0 <= k < t0.ch(m as int).len() && t0.ch(m as int)[k] == area;
                    assert(t0.parent_of(t0.ch(m as int)[k] as int) == Some(m));
                }
            },
        }
        let ghost before = *tree;
        let r = tree.detach_container(area);
        proof {
            assert(detach_outcome(&before, tree, area as int, r));
        }
        return r;
    }
    match existing {
        Some(area) => {
            tree.set_side_area_config(area, width, scale_with_dpi, gaps);
            Ok(())
        },
        None => {
            let info = new_side_area(side, width, scale_with_dpi, gaps);
            let a = tree.add_node(ContainerKind::Workspace(info), TilingDirection::Vertical);
            let ghost added = *tree;
            let index = match side {
                SideArea::Left => 0,
                SideArea::Right => tree.nodes[m].children.len(),
            };
            let r = tree.attach_container(a, m, Some(index));
            proof {
                assert(added.nodes@.drop_last() =~= t0.nodes@);
                assert(added.ch(m as int) == t0.ch(m as int));
                assert(area_appended(&t0, &added, side, width, scale_with_dpi, gaps));
            }
            r
        },
    }
}

/// The width the side area on `side` of monitor `m` takes: the
/// configured one where the side areas' monitor conditions select the
/// monitor, none otherwise.
pub open spec fn applied_width(t: &ContainerTree, m: int, config: &SideAreasConfig, side: SideArea) -> LengthValue {
    let info = t.monitor_info(m);
    if config.spec_matches_monitor(
        info.device_name@,
        match info.hardware_id {
            Some(h) => Some(h@),
            None => None,
        },
    ) {
        match side {
            SideArea::Left => config.left,
            SideArea::Right => config.right,
        }
    } else {
        zero_px()
    }
}

/// The widths of the left and right side areas of monitor `m` (see
/// `applied_width`).
fn applied_widths(tree: &ContainerTree, m: usize, config: &SideAreasConfig) -> (r: (LengthValue, LengthValue))
    requires
        (m as int) < tree.len(),
        tree.is_monitor(m as int),
    ensures
        r.0 == applied_width(tree, m as int, config, SideArea::Left),
        r.1 == applied_width(tree, m as int, config, SideArea::Right),
{
    let (device_name, hardware_id) = tree.monitor_names(m);
    if config.matches_monitor(device_name, hardware_id) {
        (config.left, config.right)
    } else {
        (LengthValue::from_px(0), LengthValue::from_px(0))
    }
}

/// What `ensure_side_areas` leaves of monitor `m`: the left side area
/// made to match its configured width (`side_area_ensured`), then, where
/// that succeeded, the right one, then maximizing turned off where the
/// monitor has a side area.
pub open spec fn side_areas_set(
    old: &ContainerTree,
    new: &ContainerTree,
    m: int,
    config: SideAreasConfig,
    gaps: GapsConfig,
    r: Result<(), TreeError>,
) -> bool {
    &&& new.wf()
    &&& new.len() >= old.len()
    &&& exists|t1: ContainerTree, r1: Result<(), TreeError>| {
        &&& #[trigger] side_area_ensured(old, &t1, m, SideArea::Left, applied_width(old, m, &config, SideArea::Left), config.scale_with_dpi, gaps, r1)
        &&& r1 is Err ==> r == r1 && new.nodes@ == t1.nodes@
        &&& r1 is Ok ==> exists|t2: ContainerTree| {
            &&& #[trigger] side_area_ensured(&t1, &t2, m, SideArea::Right, applied_width(old, m, &config, SideArea::Right), config.scale_with_dpi, gaps, r)
            &&& r is Err ==> new.nodes@ == t2.nodes@
            &&& r is Ok && !(spec_side_area(&t2, m, SideArea::Left) is Some || spec_side_area(&t2, m, SideArea::Right) is Some)
                ==> new.nodes@ == t2.nodes@
            &&& r is Ok && (spec_side_area(&t2, m, SideArea::Left) is Some || spec_side_area(&t2, m, SideArea::Right) is Some)
                ==> same_links(new, &t2)
        }
    }
}

/// Makes the side areas of monitor `m` match the configuration (see
/// `ensure_side_area`), then, where the monitor has a side area, turns
/// maximizing off for its fullscreen windows.
pub fn ensure_side_areas(tree: &mut ContainerTree, m: usize, config: &SideAreasConfig, gaps: GapsConfig) -> (r: Result<(), TreeError>)
    requires
        old(tree).wf(),
        (m as int) < old(tree).len(),
        old(tree).is_monitor(m as int),
    ensures
        side_areas_set(old(tree), final(tree), m as int, *config, gaps, r),
{
    let (left, right) = applied_widths(tree, m, config);
    let r1 = ensure_side_area(tree, m, SideArea::Left, left, config.scale_with_dpi, gaps);
    let ghost t1 = *tree;
    if r1.is_err() {
        proof {
            assert(side_area_ensured(&*old(tree), &t1, m as int, SideArea::Left, left, config.scale_with_dpi, gaps, r1));
        }
        return r1;
    }
    let r = ensure_side_area(tree, m, SideArea::Right, right, config.scale_with_dpi, gaps);
    let ghost t2 = *tree;
    if r.is_err() {
        proof {
            assert(side_area_ensured(&*old(tree), &t1, m as int, SideArea::Left, left, config.scale_with_dpi, gaps, r1));
            assert(side_area_ensured(&t1, &t2, m as int, SideArea::Right, right, config.scale_with_dpi, gaps, r));
        }
        return r;
    }
    let any_area = tree.has_side_areas(m);
    if any_area {
        tree.unmaximize_descendants(m);
    }
    proof {
        assert(side_area_ensured(&*old(tree), &t1, m as int, SideArea::Left, left, config.scale_with_dpi, gaps, r1));
        assert(side_area_ensured(&t1, &t2, m as int, SideArea::Right, right, config.scale_with_dpi, gaps, Ok(())));
        if !any_area {
            assert(tree.nodes@ == t2.nodes@);
        } else {
            assert(same_links(tree, &t2));
        }
    }
    Ok(())
}

} // verus!
