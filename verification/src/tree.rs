//! The container tree: monitors, workspaces, layout containers and
//! windows, held in an arena and linked by index.
//!
//! Every container is a node of the arena. A container that is taken out
//! of the tree keeps its node (with no parent), as a detached container
//! does. Tiling sizes are fixed-point fractions of `SIZE_ONE`.
use vstd::prelude::*;

use crate::config::{
    FloatingStateConfig, FullscreenStateConfig, GapsConfig, SideArea, WorkspaceConfig,
};
use crate::geometry::{LengthValue, Rect};

verus! {

/// The tiling size of a container that fills its whole layout slot.
pub const SIZE_ONE: u64 = 1_000_000_000;

/// The smallest tiling size that resizing leaves to a split sibling.
pub const MIN_TILING_SIZE: u64 = 10_000_000;

/// The largest tiling size a container can hold; larger sizes saturate.
pub const MAX_TILING_SIZE: u64 = 0x4000_0000_0000_0000;

#[derive(Clone, Copy, Debug, PartialEq, Eq, Structural)]
pub enum TilingDirection {
    Horizontal,
    Vertical,
}

impl TilingDirection {
    pub open spec fn spec_inverse(&self) -> TilingDirection {
        match self {
            TilingDirection::Horizontal => TilingDirection::Vertical,
            TilingDirection::Vertical => TilingDirection::Horizontal,
        }
    }

    /// The other tiling direction.
    #[verifier::when_used_as_spec(spec_inverse)]
    pub fn inverse(&self) -> (r: TilingDirection)
        ensures
            r == self.spec_inverse(),
    {
        match self {
            TilingDirection::Horizontal => TilingDirection::Vertical,
            TilingDirection::Vertical => TilingDirection::Horizontal,
        }
    }

    pub open spec fn spec_from_direction(direction: Direction) -> TilingDirection {
        match direction {
            Direction::Left | Direction::Right => TilingDirection::Horizontal,
            Direction::Up | Direction::Down => TilingDirection::Vertical,
        }
    }

    /// The tiling direction along which a focus direction moves.
    pub fn from_direction(direction: Direction) -> (r: TilingDirection)
        ensures
            r == TilingDirection::spec_from_direction(direction),
    {
        match direction {
            Direction::Left | Direction::Right => TilingDirection::Horizontal,
            Direction::Up | Direction::Down => TilingDirection::Vertical,
        }
    }
}

#[derive(Clone, Copy, Debug, PartialEq, Eq, Structural)]
pub enum Direction {
    Left,
    Right,
    Up,
    Down,
}

impl Direction {
    pub open spec fn spec_inverse(&self) -> Direction {
        match self {
            Direction::Left => Direction::Right,
            Direction::Right => Direction::Left,
            Direction::Up => Direction::Down,
            Direction::Down => Direction::Up,
        }
    }

    /// The opposite direction.
    #[verifier::when_used_as_spec(spec_inverse)]
    pub fn inverse(&self) -> (r: Direction)
        ensures
            r == self.spec_inverse(),
    {
        match self {
            Direction::Left => Direction::Right,
            Direction::Right => Direction::Left,
            Direction::Up => Direction::Down,
            Direction::Down => Direction::Up,
        }
    }
}

#[derive(Clone, Copy, Debug, PartialEq, Eq, Structural)]
pub enum WindowState {
    Tiling,
    Floating(FloatingStateConfig),
    Fullscreen(FullscreenStateConfig),
    Minimized,
}

/// Native properties of a monitor.
#[derive(Clone, Debug)]
pub struct MonitorInfo {
    pub device_name: String,
    pub hardware_id: Option<String>,
    pub bounds: Rect,
    pub working_area: Rect,
    pub dpi: u32,
    /// Scale factor as an integer percentage (`100` is unscaled).
    pub scale_factor: u32,
}

/// Properties of a workspace or a side area.
#[derive(Clone, Debug)]
pub struct WorkspaceInfo {
    pub config: WorkspaceConfig,
    pub gaps: GapsConfig,
    pub side_area: Option<SideArea>,
    pub side_area_width: LengthValue,
    pub side_area_scale_with_dpi: bool,
}

/// Where a tiling container stood: its parent, its position and size
/// there, and how many tiling siblings it had.
#[derive(Clone, Copy, Debug, PartialEq, Eq, Structural)]
pub struct InsertionLevel {
    pub target_parent: usize,
    pub target_index: usize,
    pub prev_tiling_size: u64,
    pub prev_sibling_count: usize,
}

/// Where a window that left the tiling layout goes back to. The first
/// level is the window's own place; each further level is the place of
/// the previous level's parent, recorded where that parent was left with
/// no other child.
#[derive(Clone, Debug)]
pub struct InsertionTarget {
    pub levels: Vec<InsertionLevel>,
}

/// Properties of a window.
#[derive(Clone, Debug)]
pub struct WindowInfo {
    pub title: String,
    pub process_name: String,
    pub class_name: String,
    pub state: WindowState,
    pub prev_state: Option<WindowState>,
    pub floating_placement: Rect,
    pub has_pending_dpi_adjustment: bool,
    pub is_minimized: bool,
    pub insertion_target: Option<InsertionTarget>,
}

#[derive(Clone, Debug)]
pub enum ContainerKind {
    Root,
    Monitor(MonitorInfo),
    Workspace(WorkspaceInfo),
    Split,
    Tabbed,
    TilingWindow(WindowInfo),
    NonTilingWindow(WindowInfo),
}

/// One container of the tree.
pub struct Node {
    pub kind: ContainerKind,
    pub parent: Option<usize>,
    pub children: Vec<usize>,
    /// The children, most recently focused first.
    pub focus_order: Vec<usize>,
    pub tiling_size: u64,
    pub tiling_direction: TilingDirection,
}

/// An arena of containers linked into a forest.
pub struct ContainerTree {
    pub nodes: Vec<Node>,
}

/// Whether a container of this kind takes part in a tiling layout.
pub open spec fn kind_is_tiling(k: ContainerKind) -> bool {
    match k {
        ContainerKind::Split | ContainerKind::Tabbed | ContainerKind::TilingWindow(_) => true,
        _ => false,
    }
}

/// Whether a container of this kind is a window.
pub open spec fn kind_is_window(k: ContainerKind) -> bool {
    match k {
        ContainerKind::TilingWindow(_) | ContainerKind::NonTilingWindow(_) => true,
        _ => false,
    }
}

impl ContainerTree {
    pub open spec fn len(&self) -> nat {
        self.nodes@.len()
    }

    pub open spec fn valid(&self, i: int) -> bool {
        0 <= i < self.nodes@.len()
    }

    pub open spec fn parent_of(&self, i: int) -> Option<usize> {
        self.nodes@[i].parent
    }

    pub open spec fn ch(&self, i: int) -> Seq<usize> {
        self.nodes@[i].children@
    }

    pub open spec fn fo(&self, i: int) -> Seq<usize> {
        self.nodes@[i].focus_order@
    }

    pub open spec fn kind(&self, i: int) -> ContainerKind {
        self.nodes@[i].kind
    }

    pub open spec fn size(&self, i: int) -> u64 {
        self.nodes@[i].tiling_size
    }

    pub open spec fn is_tiling(&self, i: int) -> bool {
        kind_is_tiling(self.kind(i))
    }

    pub open spec fn is_tabbed(&self, i: int) -> bool {
        self.kind(i) is Tabbed
    }

    pub open spec fn is_split(&self, i: int) -> bool {
        self.kind(i) is Split
    }

    pub open spec fn is_workspace(&self, i: int) -> bool {
        self.kind(i) is Workspace
    }

    /// Each child of `i` is a valid node that names `i` as its parent.
    pub open spec fn children_linked(&self, i: int) -> bool {
        forall|k: int|
            0 <= k < self.ch(i).len() ==> {
                let c = #[trigger] self.ch(i)[k];
                &&& self.valid(c as int)
                &&& self.parent_of(c as int) == Some(i as usize)
            }
    }

    /// A node with a parent is listed among that parent's children.
    pub open spec fn parent_linked(&self, i: int) -> bool {
        match self.parent_of(i) {
            None => true,
            Some(p) => self.valid(p as int) && self.ch(p as int).contains(i as usize),
        }
    }

    /// The focus order of `i` lists each child exactly once.
    pub open spec fn focus_wf(&self, i: int) -> bool {
        &&& self.ch(i).no_duplicates()
        &&& self.fo(i).no_duplicates()
        &&& self.fo(i).len() == self.ch(i).len()
        &&& forall|k: int| 0 <= k < self.fo(i).len() ==> self.ch(i).contains(#[trigger] self.fo(i)[k])
    }

    pub open spec fn node_wf(&self, i: int) -> bool {
        &&& self.size(i) <= MAX_TILING_SIZE
        &&& self.children_linked(i)
        &&& self.parent_linked(i)
        &&& self.focus_wf(i)
    }

    /// The links of the tree agree: parents list their children, children
    /// name their parent, and focus orders are permutations of children.
    pub open spec fn wf(&self) -> bool {
        &&& self.nodes@.len() <= usize::MAX
        &&& forall|i: int| 0 <= i < self.nodes@.len() ==> #[trigger] self.node_wf(i)
    }

    /// An empty tree.
    pub fn new() -> (t: ContainerTree)
        ensures
            t.wf(),
            t.len() == 0,
    {
        ContainerTree { nodes: Vec::new() }
    }

    /// The number of containers in the arena.
    pub fn count(&self) -> (r: usize)
        ensures
            r == self.len(),
    {
        self.nodes.len()
    }

    /// Adds a detached container with no children.
    pub fn add_node(
        &mut self,
        kind: ContainerKind,
        tiling_direction: TilingDirection,
    ) -> (id: usize)
        requires
            old(self).wf(),
        ensures
            final(self).wf(),
            id == old(self).len(),
            final(self).nodes@ == old(self).nodes@.push(final(self).nodes@[id as int]),
            final(self).kind(id as int) == kind,
            final(self).parent_of(id as int) is None,
            final(self).ch(id as int).len() == 0,
            final(self).fo(id as int).len() == 0,
            final(self).size(id as int) == SIZE_ONE,
            final(self).nodes@[id as int].tiling_direction == tiling_direction,
    {
        let id = self.nodes.len();
        let node = Node {
            kind,
            parent: None,
            children: Vec::new(),
            focus_order: Vec::new(),
            tiling_size: SIZE_ONE,
            tiling_direction,
        };
        self.nodes.push(node);
        proof {
            assert(self.nodes.len() <= usize::MAX);
            let t = *self;
            assert forall|i: int| 0 <= i < t.nodes@.len() implies #[trigger] t.node_wf(i) by {
                if i < id {
                    assert(old(self).node_wf(i));
                    assert(t.ch(i) == old(self).ch(i));
                    assert(t.fo(i) == old(self).fo(i));
                }
            }
        }
        id
    }

    /// The parent of a container.
    pub fn parent(&self, i: usize) -> (r: Option<usize>)
        requires
            (i as int) < self.len(),
        ensures
            r == self.parent_of(i as int),
    {
        self.nodes[i].parent
    }

    /// Whether a container has no parent.
    pub fn is_detached(&self, i: usize) -> (r: bool)
        requires
            (i as int) < self.len(),
        ensures
            r == (self.parent_of(i as int) is None),
    {
        self.nodes[i].parent.is_none()
    }

    /// The number of children of a container.
    pub fn child_count(&self, i: usize) -> (r: usize)
        requires
            (i as int) < self.len(),
        ensures
            r == self.ch(i as int).len(),
    {
        self.nodes[i].children.len()
    }

    /// Whether a container is a tiling container.
    pub fn tiling(&self, i: usize) -> (r: bool)
        requires
            (i as int) < self.len(),
        ensures
            r == self.is_tiling(i as int),
    {
        match self.nodes[i].kind {
            ContainerKind::Split | ContainerKind::Tabbed | ContainerKind::TilingWindow(_) => true,
            _ => false,
        }
    }

    /// Whether a container is a tabbed container.
    pub fn tabbed(&self, i: usize) -> (r: bool)
        requires
            (i as int) < self.len(),
        ensures
            r == self.is_tabbed(i as int),
    {
        match self.nodes[i].kind {
            ContainerKind::Tabbed => true,
            _ => false,
        }
    }

    /// Whether a container is a split container.
    pub fn split(&self, i: usize) -> (r: bool)
        requires
            (i as int) < self.len(),
        ensures
            r == self.is_split(i as int),
    {
        match self.nodes[i].kind {
            ContainerKind::Split => true,
            _ => false,
        }
    }

    /// Whether a container is a workspace (or a side area).
    pub fn workspace_node(&self, i: usize) -> (r: bool)
        requires
            (i as int) < self.len(),
        ensures
            r == self.is_workspace(i as int),
    {
        match self.nodes[i].kind {
            ContainerKind::Workspace(_) => true,
            _ => false,
        }
    }

    /// The tiling size of a container.
    pub fn tiling_size(&self, i: usize) -> (r: u64)
        requires
            (i as int) < self.len(),
        ensures
            r == self.size(i as int),
    {
        self.nodes[i].tiling_size
    }

    /// The position of `c` among the children of its parent `p`.
    pub fn index_in(&self, p: usize, c: usize) -> (r: usize)
        requires
            (p as int) < self.len(),
            self.ch(p as int).contains(c),
        ensures
            (r as int) < self.ch(p as int).len(),
            self.ch(p as int)[r as int] == c,
    {
        let mut k: usize = 0;
        while k < self.nodes[p].children.len()
            invariant
                (p as int) < self.len(),
                self.ch(p as int).contains(c),
                forall|j: int| 0 <= j < k ==> self.ch(p as int)[j] != c,
            decreases self.ch(p as int).len() - k,
        {
            if self.nodes[p].children[k] == c {
                return k;
            }
            k = k + 1;
        }
        proof {
            let j = choose|j: int| 0 <= j < self.ch(p as int).len() && self.ch(p as int)[j] == c;
            assert(self.ch(p as int)[j] == c);
        }
        0
    }

    /// The position of `c` in the focus order of its parent `p`.
    pub fn focus_index_in(&self, p: usize, c: usize) -> (r: usize)
        requires
            (p as int) < self.len(),
            self.fo(p as int).contains(c),
        ensures
            (r as int) < self.fo(p as int).len(),
            self.fo(p as int)[r as int] == c,
    {
        let mut k: usize = 0;
        while k < self.nodes[p].focus_order.len()
            invariant
                (p as int) < self.len(),
                self.fo(p as int).contains(c),
                forall|j: int| 0 <= j < k ==> self.fo(p as int)[j] != c,
            decreases self.fo(p as int).len() - k,
        {
            if self.nodes[p].focus_order[k] == c {
                return k;
            }
            k = k + 1;
        }
        proof {
            let j = choose|j: int| 0 <= j < self.fo(p as int).len() && self.fo(p as int)[j] == c;
            assert(self.fo(p as int)[j] == c);
        }
        0
    }
}

} // verus!
