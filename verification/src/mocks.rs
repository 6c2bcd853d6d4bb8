//! Stand-in monitors, workspaces and windows with fixed properties, for
//! building trees in tests, and a check of a tree's links.
use vstd::prelude::*;
use vstd::string::*;

use crate::attach::{attach_outcome, TreeError};
use crate::config::{FloatingStateConfig, GapsConfig, SideArea, WorkspaceConfig};
use crate::geometry::{LengthValue, Rect, RectDelta};
use crate::tree::{
    ContainerKind, ContainerTree, MonitorInfo, TilingDirection, WindowInfo, WindowState, WorkspaceInfo,
    SIZE_ONE,
};

verus! {

pub const MOCK_MONITOR_WIDTH: i32 = 1680;
pub const MOCK_MONITOR_HEIGHT: i32 = 1050;
pub const MOCK_TASKBAR_HEIGHT: i32 = 50;
pub const MOCK_DPI: u32 = 96;
/// The scale factor of a stand-in monitor, as an integer percentage.
pub const MOCK_SCALE_FACTOR: u32 = 100;
pub const MOCK_WINDOW_WIDTH: i32 = 300;
pub const MOCK_WINDOW_HEIGHT: i32 = 200;

/// The bounds of a stand-in monitor.
pub fn mock_bounds() -> (r: Rect)
    ensures
        r == (Rect { left: 0, top: 0, right: 1680, bottom: 1050 }),
{
    Rect::from_xy(0, 0, MOCK_MONITOR_WIDTH, MOCK_MONITOR_HEIGHT)
}

/// The working area of a stand-in monitor: its bounds less the taskbar.
pub fn mock_working_area() -> (r: Rect)
    ensures
        r == (Rect { left: 0, top: 0, right: 1680, bottom: 1000 }),
{
    Rect::from_xy(0, 0, MOCK_MONITOR_WIDTH, MOCK_MONITOR_HEIGHT - MOCK_TASKBAR_HEIGHT)
}

/// The frame of a stand-in window.
pub fn mock_window_rect() -> (r: Rect)
    ensures
        r == (Rect { left: 0, top: 0, right: 300, bottom: 200 }),
{
    Rect::from_xy(0, 0, MOCK_WINDOW_WIDTH, MOCK_WINDOW_HEIGHT)
}

/// The border delta of a stand-in window: none.
pub fn mock_border_delta() -> (r: RectDelta)
    ensures
        r == crate::config::zero_delta(),
{
    RectDelta::zero()
}

/// Native properties of a window as the platform reports them.
#[derive(Clone, Debug)]
pub struct NativeWindowProperties {
    pub title: String,
    pub process_name: String,
    pub class_name: String,
    pub frame: Rect,
    pub is_minimized: bool,
    pub is_maximized: bool,
    pub is_resizable: bool,
}

impl NativeWindowProperties {
    /// The properties of a stand-in window: no title, process or class,
    /// the stand-in frame, resizable, neither minimized nor maximized.
    pub fn mock() -> (r: NativeWindowProperties)
        ensures
            r.title@.len() == 0,
            r.process_name@.len() == 0,
            r.class_name@.len() == 0,
            r.frame == (Rect { left: 0, top: 0, right: 300, bottom: 200 }),
            !r.is_minimized,
            !r.is_maximized,
            r.is_resizable,
    {
        let r = NativeWindowProperties {
            title: String::from_str(""),
            process_name: String::from_str(""),
            class_name: String::from_str(""),
            frame: mock_window_rect(),
            is_minimized: false,
            is_maximized: false,
            is_resizable: true,
        };
        proof {
            reveal_strlit("");
        }
        r
    }
}

/// The properties of a stand-in window in state `state`.
pub open spec fn mock_window_info(info: WindowInfo, state: WindowState) -> bool {
    &&& info.title@.len() == 0
    &&& info.process_name@.len() == 0
    &&& info.class_name@.len() == 0
    &&& info.state == state
    &&& info.prev_state is None
    &&& info.floating_placement == (Rect { left: 0, top: 0, right: 300, bottom: 200 })
    &&& !info.has_pending_dpi_adjustment
    &&& !info.is_minimized
    &&& info.insertion_target is None
}

fn mock_info(state: WindowState) -> (r: WindowInfo)
    ensures
        mock_window_info(r, state),
{
    let p = NativeWindowProperties::mock();
    WindowInfo {
        title: p.title,
        process_name: p.process_name,
        class_name: p.class_name,
        state,
        prev_state: None,
        floating_placement: p.frame,
        has_pending_dpi_adjustment: false,
        is_minimized: p.is_minimized,
        insertion_target: None,
    }
}

/// `new` is `old` with a detached container of kind `kind`, with no
/// children, appended.
pub open spec fn appended(old: &ContainerTree, new: &ContainerTree, kind: ContainerKind) -> bool {
    &&& new.nodes@.drop_last() == old.nodes@
    &&& new.len() == old.len() + 1
    &&& new.kind(old.len() as int) == kind
    &&& new.parent_of(old.len() as int) is None
    &&& new.ch(old.len() as int).len() == 0
    &&& new.fo(old.len() as int).len() == 0
}

/// Marker for non-tiling windows.
pub struct NonTilingWindow;

impl NonTilingWindow {
    /// Adds a detached stand-in floating window.
    pub fn mock(tree: &mut ContainerTree) -> (id: usize)
        requires
            old(tree).wf(),
        ensures
            final(tree).wf(),
            id == old(tree).len(),
            final(tree).kind(id as int) matches ContainerKind::NonTilingWindow(info) && mock_window_info(
                info,
                WindowState::Floating(FloatingStateConfig { centered: true, shown_on_top: false }),
            ),
            final(tree).nodes@.drop_last() == old(tree).nodes@,
            final(tree).parent_of(id as int) is None,
            final(tree).ch(id as int).len() == 0,
    {
        let info = mock_info(WindowState::Floating(FloatingStateConfig::default()));
        let id = tree.add_node(ContainerKind::NonTilingWindow(info), TilingDirection::Horizontal);
        proof {
            assert(tree.nodes@.drop_last() =~= old(tree).nodes@);
        }
        id
    }
}

/// Marker for tiling windows.
pub struct TilingWindow;

impl TilingWindow {
    /// Adds a detached stand-in tiling window of tiling size `tiling_size`.
    pub fn mock(tree: &mut ContainerTree, tiling_size: u64) -> (id: usize)
        requires
            old(tree).wf(),
            tiling_size <= crate::tree::MAX_TILING_SIZE,
        ensures
            final(tree).wf(),
            id == old(tree).len(),
            final(tree).kind(id as int) matches ContainerKind::TilingWindow(info) && mock_window_info(info, WindowState::Tiling),
            forall|i: int| 0 <= i < old(tree).len() ==> (#[trigger] final(tree).nodes@[i]).kind == old(tree).nodes@[i].kind
                && final(tree).parent_of(i) == old(tree).parent_of(i),
            final(tree).parent_of(id as int) is None,
            final(tree).ch(id as int).len() == 0,
            final(tree).size(id as int) == tiling_size,
    {
        let info = mock_info(WindowState::Tiling);
        let id = tree.add_node(ContainerKind::TilingWindow(info), TilingDirection::Horizontal);
        let ghost added = *tree;
        tree.set_tiling_size(id, tiling_size);
        proof {
            assert forall|i: int| 0 <= i < old(tree).len() implies (#[trigger] tree.nodes@[i]).kind == old(tree).nodes@[i].kind
                && tree.parent_of(i) == old(tree).parent_of(i) by {
                assert(added.nodes@[i] == old(tree).nodes@[i]);
            }
        }
        id
    }
}

/// `new` is `old` with container `id` added and `children` attached to
/// it, in order: every container of `old` keeps its kind and direction,
/// and the others keep their parent, children, focus order and size.
pub open spec fn mock_attached(old: &ContainerTree, new: &ContainerTree, id: int, children: Seq<usize>) -> bool {
    &&& new.len() == old.len() + 1
    &&& new.ch(id) == children
    &&& forall|i: int|
        0 <= i < old.len() ==> (#[trigger] new.nodes@[i]).kind == old.nodes@[i].kind && new.nodes@[i].tiling_direction
            == old.nodes@[i].tiling_direction
    &&& forall|k: int| 0 <= k < children.len() ==> new.parent_of(#[trigger] children[k] as int) == Some(id as usize)
    &&& forall|i: int|
        0 <= i < old.len() && !children.contains(i as usize) ==> {
            &&& #[trigger] new.parent_of(i) == old.parent_of(i)
            &&& new.ch(i) == old.ch(i)
            &&& new.fo(i) == old.fo(i)
            &&& new.size(i) == old.size(i)
        }
}

/// Adding container `id` to `old` (giving `t1`) and attaching `children`
/// to it (giving `new`) is `mock_attached`.
proof fn lemma_mock_attached(old: &ContainerTree, t1: &ContainerTree, new: &ContainerTree, id: int, children: Seq<usize>)
    requires
        id == old.len(),
        t1.nodes@ == old.nodes@.push(t1.nodes@[id]),
        t1.ch(id).len() == 0,
        new.len() == t1.len(),
        new.ch(id) == t1.ch(id) + children,
        forall|k: int| 0 <= k < children.len() ==> new.parent_of(#[trigger] children[k] as int) == Some(id as usize),
        forall|i: int| 0 <= i < new.len() ==> (#[trigger] new.nodes@[i]).kind == t1.nodes@[i].kind
            && new.nodes@[i].tiling_direction == t1.nodes@[i].tiling_direction,
        forall|i: int| 0 <= i < new.len() && !children.contains(i as usize) ==> #[trigger] new.parent_of(i) == t1.parent_of(i),
        forall|i: int| 0 <= i < new.len() && i != id ==> #[trigger] new.ch(i) == t1.ch(i) && new.fo(i) == t1.fo(i),
        forall|i: int|
            0 <= i < new.len() && !children.contains(i as usize) && !t1.ch(id).contains(i as usize) ==> #[trigger] new.size(i)
                == t1.size(i),
    ensures
        mock_attached(old, new, id, children),
{
    assert(t1.ch(id) + children =~= children);
    assert forall|i: int| 0 <= i < old.len() implies (#[trigger] new.nodes@[i]).kind == old.nodes@[i].kind
        && new.nodes@[i].tiling_direction == old.nodes@[i].tiling_direction by {
        assert(t1.nodes@[i] == old.nodes@[i]);
    }
    assert forall|i: int| 0 <= i < old.len() && !children.contains(i as usize) implies {
        &&& #[trigger] new.parent_of(i) == old.parent_of(i)
        &&& new.ch(i) == old.ch(i)
        &&& new.fo(i) == old.fo(i)
        &&& new.size(i) == old.size(i)
    } by {
        assert(t1.nodes@[i] == old.nodes@[i]);
        assert(!t1.ch(id).contains(i as usize));
        assert(new.size(i) == t1.size(i));
        assert(new.ch(i) == t1.ch(i));
    }
}

/// Attaches each of `children`, in order, at the end of `p`.
fn attach_all(tree: &mut ContainerTree, p: usize, children: &Vec<usize>)
    requires
        old(tree).wf(),
        (p as int) < old(tree).len(),
        forall|k: int| 0 <= k < children@.len() ==> (#[trigger] children@[k] as int) < old(tree).len()
            && old(tree).parent_of(children@[k] as int) is None && children@[k] != p,
        children@.no_duplicates(),
    ensures
        final(tree).wf(),
        final(tree).len() == old(tree).len(),
        final(tree).ch(p as int) == old(tree).ch(p as int) + children@,
        forall|k: int| 0 <= k < children@.len() ==> final(tree).parent_of(#[trigger] children@[k] as int) == Some(p),
        forall|i: int| 0 <= i < final(tree).len() ==> (#[trigger] final(tree).nodes@[i]).kind == old(tree).nodes@[i].kind
            && final(tree).nodes@[i].tiling_direction == old(tree).nodes@[i].tiling_direction,
        final(tree).parent_of(p as int) == old(tree).parent_of(p as int),
        forall|i: int|
            0 <= i < final(tree).len() && !children@.contains(i as usize) ==> #[trigger] final(tree).parent_of(i)
                == old(tree).parent_of(i),
        forall|i: int| 0 <= i < final(tree).len() && i != p ==> #[trigger] final(tree).ch(i) == old(tree).ch(i) && final(tree).fo(i) == old(tree).fo(i),
        forall|i: int|
            0 <= i < final(tree).len() && !children@.contains(i as usize) && !old(tree).ch(p as int).contains(i as usize)
                ==> #[trigger] final(tree).size(i) == old(tree).size(i),
{
    let ghost t0 = *tree;
    let mut k: usize = 0;
    while k < children.len()
        invariant
            tree.wf(),
            tree.len() == t0.len(),
            (p as int) < t0.len(),
            k <= children@.len(),
            children@.no_duplicates(),
            forall|j: int| 0 <= j < children@.len() ==> (#[trigger] children@[j] as int) < t0.len()
                && t0.parent_of(children@[j] as int) is None && children@[j] != p,
            tree.ch(p as int) == t0.ch(p as int) + children@.take(k as int),
            forall|j: int| 0 <= j < k ==> tree.parent_of(#[trigger] children@[j] as int) == Some(p),
            forall|j: int| k <= j < children@.len() ==> tree.parent_of(#[trigger] children@[j] as int) is None,
            forall|i: int| 0 <= i < tree.len() ==> (#[trigger] tree.nodes@[i]).kind == t0.nodes@[i].kind
                && tree.nodes@[i].tiling_direction == t0.nodes@[i].tiling_direction,
            tree.parent_of(p as int) == t0.parent_of(p as int),
            forall|i: int|
                0 <= i < tree.len() && !children@.contains(i as usize) ==> #[trigger] tree.parent_of(i) == t0.parent_of(i),
            forall|i: int| 0 <= i < tree.len() && i != p ==> #[trigger] tree.ch(i) == t0.ch(i) && tree.fo(i) == t0.fo(i),
            forall|i: int|
                0 <= i < tree.len() && !children@.contains(i as usize) && !t0.ch(p as int).contains(i as usize)
                    ==> #[trigger] tree.size(i) == t0.size(i),
        decreases children@.len() - k,
    {
        let c = children[k];
        let ghost before = *tree;
        let _ = tree.attach_container(c, p, None);
        proof {
            assert(tree.ch(p as int) =~= t0.ch(p as int) + children@.take(k + 1));
            assert forall|j: int| k + 1 <= j < children@.len() implies tree.parent_of(#[trigger] children@[j] as int) is None by {
                assert(children@[j] != c);
            }
            assert forall|j: int| 0 <= j < k + 1 implies tree.parent_of(#[trigger] children@[j] as int) == Some(p) by {
                if j < k {
                    assert(children@[j] != c);
                }
            }
            assert(children@[k as int] == c);
            assert forall|i: int| 0 <= i < tree.len() && i != p implies #[trigger] tree.ch(i) == t0.ch(i) && tree.fo(i) == t0.fo(i) by {
                assert(before.ch(i) == t0.ch(i));
            }
            assert forall|i: int|
                0 <= i < tree.len() && !children@.contains(i as usize) implies #[trigger] tree.parent_of(i) == t0.parent_of(i) by {
                assert(i != c as int);
                assert(before.parent_of(i) == t0.parent_of(i));
            }
            assert forall|i: int|
                0 <= i < tree.len() && !children@.contains(i as usize) && !t0.ch(p as int).contains(i as usize)
                    implies #[trigger] tree.size(i) == t0.size(i) by {
                assert(i != c as int);
                if before.ch(p as int).contains(i as usize) {
                    let q = choose|q: int| 0 <= q < before.ch(p as int).len() && before.ch(p as int)[q] == i as usize;
                    if q >= t0.ch(p as int).len() {
                        assert(children@.take(k as int)[q - t0.ch(p as int).len()] == i as usize);
                    } else {
                        assert(t0.ch(p as int)[q] == i as usize);
                    }
                }
                assert(tree.size(i) == before.size(i));
            }
        }
        k = k + 1;
    }
    proof {
        assert(children@.take(children@.len() as int) =~= children@);
    }
}

/// Marker for split containers.
pub struct SplitContainer;

impl SplitContainer {
    /// Adds a split container of direction `tiling_direction` holding the
    /// detached `tiling_containers`, in order.
    pub fn mock(tree: &mut ContainerTree, tiling_direction: TilingDirection, tiling_containers: &Vec<usize>) -> (id: usize)
        requires
            old(tree).wf(),
            forall|k: int| 0 <= k < tiling_containers@.len() ==> (#[trigger] tiling_containers@[k] as int) < old(tree).len()
                && old(tree).parent_of(tiling_containers@[k] as int) is None,
            tiling_containers@.no_duplicates(),
        ensures
            final(tree).wf(),
            id == old(tree).len(),
            final(tree).is_split(id as int),
            final(tree).direction(id as int) == tiling_direction,
            final(tree).parent_of(id as int) is None,
            final(tree).ch(id as int) == tiling_containers@,
            mock_attached(old(tree), final(tree), id as int, tiling_containers@),
    {
        let id = tree.add_node(ContainerKind::Split, tiling_direction);
        let ghost t1 = *tree;
        attach_all(tree, id, tiling_containers);
        proof {
            lemma_mock_attached(&*old(tree), &t1, tree, id as int, tiling_containers@);
        }
        id
    }
}

/// Marker for tabbed containers.
pub struct TabbedContainer;

impl TabbedContainer {
    /// Adds a tabbed container holding the detached `tiling_containers`.
    pub fn mock(tree: &mut ContainerTree, tiling_containers: &Vec<usize>) -> (id: usize)
        requires
            old(tree).wf(),
            forall|k: int| 0 <= k < tiling_containers@.len() ==> (#[trigger] tiling_containers@[k] as int) < old(tree).len()
                && old(tree).parent_of(tiling_containers@[k] as int) is None,
            tiling_containers@.no_duplicates(),
        ensures
            final(tree).wf(),
            id == old(tree).len(),
            final(tree).is_tabbed(id as int),
            final(tree).parent_of(id as int) is None,
            final(tree).ch(id as int) == tiling_containers@,
            mock_attached(old(tree), final(tree), id as int, tiling_containers@),
    {
        let id = tree.add_node(ContainerKind::Tabbed, TilingDirection::Horizontal);
        let ghost t1 = *tree;
        attach_all(tree, id, tiling_containers);
        proof {
            lemma_mock_attached(&*old(tree), &t1, tree, id as int, tiling_containers@);
        }
        id
    }
}

/// Marker for workspaces.
pub struct Workspace;

impl Workspace {
    /// Adds a workspace named `name` of direction `tiling_direction`, with
    /// default gaps, holding the detached `children`.
    pub fn mock(tree: &mut ContainerTree, name: String, tiling_direction: TilingDirection, children: &Vec<usize>) -> (id: usize)
        requires
            old(tree).wf(),
            forall|k: int| 0 <= k < children@.len() ==> (#[trigger] children@[k] as int) < old(tree).len()
                && old(tree).parent_of(children@[k] as int) is None,
            children@.no_duplicates(),
        ensures
            final(tree).wf(),
            id == old(tree).len(),
            final(tree).is_workspace(id as int),
            final(tree).workspace_info(id as int).config.name@ == name@,
            final(tree).workspace_info(id as int).side_area is None,
            final(tree).direction(id as int) == tiling_direction,
            final(tree).parent_of(id as int) is None,
            final(tree).ch(id as int) == children@,
            mock_attached(old(tree), final(tree), id as int, children@),
    {
        let info = WorkspaceInfo {
            config: WorkspaceConfig { name, display_name: None, bind_to_monitor: None, keep_alive: false },
            gaps: GapsConfig::default(),
            side_area: None,
            side_area_width: LengthValue::from_px(0),
            side_area_scale_with_dpi: true,
        };
        let id = tree.add_node(ContainerKind::Workspace(info), tiling_direction);
        let ghost t1 = *tree;
        attach_all(tree, id, children);
        proof {
            lemma_mock_attached(&*old(tree), &t1, tree, id as int, children@);
        }
        id
    }

    /// Adds a side area on `side`, `width` wide (scaled with the monitor's
    /// scale factor where `scale_with_dpi`), with gaps `gaps`, holding the
    /// detached `children`.
    pub fn mock_side_area(
        tree: &mut ContainerTree,
        side: SideArea,
        width: LengthValue,
        scale_with_dpi: bool,
        gaps: GapsConfig,
        children: &Vec<usize>,
    ) -> (id: usize)
        requires
            old(tree).wf(),
            forall|k: int| 0 <= k < children@.len() ==> (#[trigger] children@[k] as int) < old(tree).len()
                && old(tree).parent_of(children@[k] as int) is None,
            children@.no_duplicates(),
        ensures
            final(tree).wf(),
            id == old(tree).len(),
            final(tree).is_workspace(id as int),
            final(tree).workspace_info(id as int).side_area == Some(side),
            final(tree).workspace_info(id as int).side_area_width == width,
            final(tree).workspace_info(id as int).side_area_scale_with_dpi == scale_with_dpi,
            final(tree).workspace_info(id as int).gaps == gaps,
            final(tree).parent_of(id as int) is None,
            final(tree).ch(id as int) == children@,
            mock_attached(old(tree), final(tree), id as int, children@),
    {
        let info = crate::side_areas::new_side_area(side, width, scale_with_dpi, gaps);
        let id = tree.add_node(ContainerKind::Workspace(info), TilingDirection::Vertical);
        let ghost t1 = *tree;
        attach_all(tree, id, children);
        proof {
            lemma_mock_attached(&*old(tree), &t1, tree, id as int, children@);
        }
        id
    }
}

/// Marker for monitors.
pub struct Monitor;

impl Monitor {
    /// Adds a stand-in monitor named `device_name`, with scale factor
    /// `scale_factor` (an integer percentage), holding the detached
    /// `workspaces`.
    pub fn mock(tree: &mut ContainerTree, device_name: String, scale_factor: u32, workspaces: &Vec<usize>) -> (id: usize)
        requires
            old(tree).wf(),
            forall|k: int| 0 <= k < workspaces@.len() ==> (#[trigger] workspaces@[k] as int) < old(tree).len()
                && old(tree).parent_of(workspaces@[k] as int) is None,
            workspaces@.no_duplicates(),
        ensures
            final(tree).wf(),
            id == old(tree).len(),
            final(tree).is_monitor(id as int),
            final(tree).monitor_info(id as int).device_name@ == device_name@,
            final(tree).monitor_info(id as int).bounds == (Rect { left: 0, top: 0, right: 1680, bottom: 1050 }),
            final(tree).monitor_info(id as int).working_area == (Rect { left: 0, top: 0, right: 1680, bottom: 1000 }),
            final(tree).monitor_info(id as int).scale_factor == scale_factor,
            final(tree).parent_of(id as int) is None,
            final(tree).ch(id as int) == workspaces@,
            mock_attached(old(tree), final(tree), id as int, workspaces@),
    {
        let info = MonitorInfo {
            device_name,
            hardware_id: None,
            bounds: mock_bounds(),
            working_area: mock_working_area(),
            dpi: MOCK_DPI,
            scale_factor,
        };
        let id = tree.add_node(ContainerKind::Monitor(info), TilingDirection::Horizontal);
        let ghost t1 = *tree;
        attach_all(tree, id, workspaces);
        proof {
            lemma_mock_attached(&*old(tree), &t1, tree, id as int, workspaces@);
        }
        id
    }
}

/// Whether container `i` has consistent links: each child is a container
/// of the tree that names `i` as its parent, and its focus order lists
/// exactly its children, as many as there are.
pub open spec fn links_ok(t: &ContainerTree, i: int) -> bool {
    &&& t.fo(i).len() == t.ch(i).len()
    &&& forall|k: int| 0 <= k < t.ch(i).len() ==> t.valid(#[trigger] t.ch(i)[k] as int) && t.parent_of(t.ch(i)[k] as int) == Some(i as usize)
    &&& forall|k: int| 0 <= k < t.fo(i).len() ==> t.ch(i).contains(#[trigger] t.fo(i)[k])
    &&& forall|k: int| 0 <= k < t.ch(i).len() ==> t.fo(i).contains(#[trigger] t.ch(i)[k])
}

/// Whether container `c` and every container below it have consistent
/// links.
pub fn assert_tree_links_and_focus_order(tree: &ContainerTree, c: usize) -> (r: bool)
    requires
        tree.wf(),
        (c as int) < tree.len(),
    ensures
        r == forall|k: int|
            0 <= k < crate::side_areas::walk(tree, seq![c], tree.len()).len() ==> #[trigger] links_ok(
                tree,
                crate::side_areas::walk(tree, seq![c], tree.len())[k] as int,
            ),
{
    let all = tree.self_and_descendants(c);
    let mut i: usize = 0;
    while i < all.len()
        invariant
            all@ == crate::side_areas::walk(tree, seq![c], tree.len()),
            forall|q: int| 0 <= q < all@.len() ==> (#[trigger] all@[q] as int) < tree.len(),
            i <= all@.len(),
            forall|j: int| 0 <= j < i ==> #[trigger] links_ok(tree, all@[j] as int),
        decreases all@.len() - i,
    {
        if !node_links_ok(tree, all[i]) {
            return false;
        }
        i = i + 1;
    }
    true
}

fn node_links_ok(tree: &ContainerTree, i: usize) -> (r: bool)
    requires
        (i as int) < tree.len(),
    ensures
        r == links_ok(tree, i as int),
{
    let ch = &tree.nodes[i].children;
    let fo = &tree.nodes[i].focus_order;
    if fo.len() != ch.len() {
        return false;
    }
    let mut k: usize = 0;
    while k < ch.len()
        invariant
            (i as int) < tree.len(),
            ch@ == tree.ch(i as int),
            fo@ == tree.fo(i as int),
            k <= ch@.len(),
            forall|j: int| 0 <= j < k ==> tree.valid(#[trigger] ch@[j] as int) && tree.parent_of(ch@[j] as int) == Some(i)
                && fo@.contains(ch@[j]),
        decreases ch@.len() - k,
    {
        let c = ch[k];
        if c >= tree.nodes.len() || tree.nodes[c].parent != Some(i) || !crate::tabs::vec_contains(fo, c) {
            return false;
        }
        k = k + 1;
    }
    let mut k: usize = 0;
    while k < fo.len()
        invariant
            (i as int) < tree.len(),
            ch@ == tree.ch(i as int),
            fo@ == tree.fo(i as int),
            k <= fo@.len(),
            forall|j: int| 0 <= j < ch@.len() ==> tree.valid(#[trigger] ch@[j] as int) && tree.parent_of(ch@[j] as int) == Some(i)
                && fo@.contains(ch@[j]),
            forall|j: int| 0 <= j < k ==> ch@.contains(#[trigger] fo@[j]),
        decreases fo@.len() - k,
    {
        if !crate::tabs::vec_contains(ch, fo[k]) {
            return false;
        }
        k = k + 1;
    }
    true
}

} // verus!
