//! Monitors and the workspaces and side areas they hold.
use vstd::prelude::*;

use crate::config::SideArea;
use crate::focus_direction::{first_such, last_such};
use crate::geometry::Rect;
use crate::tree::{ContainerKind, ContainerTree, Direction};

verus! {

impl ContainerTree {
    pub open spec fn is_monitor(&self, i: int) -> bool {
        self.kind(i) is Monitor
    }

    /// The side of a side area, or `None` for a regular workspace and for
    /// other containers.
    pub open spec fn side_of(&self, i: int) -> Option<SideArea> {
        match self.kind(i) {
            ContainerKind::Workspace(info) => info.side_area,
            _ => None,
        }
    }

    pub open spec fn is_side_area(&self, i: int) -> bool {
        self.side_of(i) is Some
    }

    /// Whether `i` is a regular workspace, not a side area.
    pub open spec fn is_regular_workspace(&self, i: int) -> bool {
        self.is_workspace(i) && !self.is_side_area(i)
    }

    /// The bounds of a monitor.
    pub open spec fn bounds_of(&self, m: int) -> Rect {
        match self.kind(m) {
            ContainerKind::Monitor(info) => info.bounds,
            _ => Rect { left: 0, top: 0, right: 0, bottom: 0 },
        }
    }

    /// Whether a container is a monitor.
    pub fn monitor_node(&self, i: usize) -> (r: bool)
        requires
            (i as int) < self.len(),
        ensures
            r == self.is_monitor(i as int),
    {
        match &self.nodes[i].kind {
            ContainerKind::Monitor(_) => true,
            _ => false,
        }
    }

    /// The side of a side area.
    pub fn side(&self, i: usize) -> (r: Option<SideArea>)
        requires
            (i as int) < self.len(),
        ensures
            r == self.side_of(i as int),
    {
        match &self.nodes[i].kind {
            ContainerKind::Workspace(info) => info.side_area,
            _ => None,
        }
    }

    /// Whether a container is a regular workspace.
    pub fn regular_workspace(&self, i: usize) -> (r: bool)
        requires
            (i as int) < self.len(),
        ensures
            r == self.is_regular_workspace(i as int),
    {
        self.workspace_node(i) && self.side(i).is_none()
    }

    /// The bounds of a monitor.
    pub fn bounds(&self, m: usize) -> (r: Rect)
        requires
            (m as int) < self.len(),
        ensures
            r == self.bounds_of(m as int),
    {
        match &self.nodes[m].kind {
            ContainerKind::Monitor(info) => info.bounds,
            _ => Rect { left: 0, top: 0, right: 0, bottom: 0 },
        }
    }
}

/// The nearest monitor among `c` and its ancestors, looking at most `fuel`
/// parents up.
pub open spec fn monitor_of(t: &ContainerTree, c: int, fuel: nat) -> Option<usize>
    decreases fuel,
{
    if t.is_monitor(c) {
        Some(c as usize)
    } else if fuel == 0 {
        None
    } else {
        match t.parent_of(c) {
            None => None,
            Some(p) => monitor_of(t, p as int, (fuel - 1) as nat),
        }
    }
}

/// The nearest workspace (or side area) among `c` and its ancestors,
/// looking at most `fuel` parents up.
pub open spec fn workspace_of(t: &ContainerTree, c: int, fuel: nat) -> Option<usize>
    decreases fuel,
{
    if t.is_workspace(c) {
        Some(c as usize)
    } else if fuel == 0 {
        None
    } else {
        match t.parent_of(c) {
            None => None,
            Some(p) => workspace_of(t, p as int, (fuel - 1) as nat),
        }
    }
}

/// The workspace a monitor displays: the most recently focused of its
/// regular workspaces.
pub open spec fn spec_displayed_workspace(t: &ContainerTree, m: int) -> Option<usize> {
    first_such(t.fo(m), |x: usize| t.is_regular_workspace(x as int))
}

/// The side area of a monitor on the given side.
pub open spec fn spec_side_area(t: &ContainerTree, m: int, side: SideArea) -> Option<usize> {
    first_such(t.ch(m), |x: usize| t.is_workspace(x as int) && t.side_of(x as int) == Some(side))
}

/// The regular workspaces of a monitor, in order.
pub open spec fn regular_workspaces(t: &ContainerTree, s: Seq<usize>) -> Seq<usize>
    decreases s.len(),
{
    if s.len() == 0 {
        s
    } else {
        let r = regular_workspaces(t, s.drop_last());
        if t.is_regular_workspace(s.last() as int) {
            r.push(s.last())
        } else {
            r
        }
    }
}

/// Whether `a` and `b` overlap horizontally, and vertically.
pub open spec fn overlap_x(a: Rect, b: Rect) -> bool {
    a.left < b.right && b.left < a.right
}

pub open spec fn overlap_y(a: Rect, b: Rect) -> bool {
    a.top < b.bottom && b.top < a.bottom
}

/// Whether a monitor with bounds `r` lies in direction `d` from bounds `o`.
pub open spec fn lies_in_direction(r: Rect, o: Rect, d: Direction) -> bool {
    match d {
        Direction::Up => r.top < o.top && overlap_x(r, o),
        Direction::Down => r.top > o.top && overlap_x(r, o),
        Direction::Left => r.left < o.left && overlap_y(r, o),
        Direction::Right => r.left > o.left && overlap_y(r, o),
    }
}

/// Whether bounds `r` are nearer than bounds `b` to bounds lying
/// opposite to direction `d`.
pub open spec fn nearer(r: Rect, b: Rect, d: Direction) -> bool {
    match d {
        Direction::Up => r.top > b.top,
        Direction::Down => r.top < b.top,
        Direction::Left => r.left > b.left,
        Direction::Right => r.left < b.left,
    }
}

/// The nearest monitor among `ms` that lies in direction `d` from bounds
/// `o`; of equally near ones, the first.
pub open spec fn nearest_monitor(t: &ContainerTree, ms: Seq<usize>, o: Rect, d: Direction) -> Option<usize>
    decreases ms.len(),
{
    if ms.len() == 0 {
        None
    } else {
        let best = nearest_monitor(t, ms.drop_last(), o, d);
        let x = ms.last();
        if t.is_monitor(x as int) && lies_in_direction(t.bounds_of(x as int), o, d) && (best is None || nearer(
            t.bounds_of(x as int),
            t.bounds_of(best.unwrap() as int),
            d,
        )) {
            Some(x)
        } else {
            best
        }
    }
}

/// The nearest monitor among the siblings of monitor `m` that lies in
/// direction `d` from it.
pub open spec fn spec_monitor_in_direction(t: &ContainerTree, m: int, d: Direction) -> Option<usize> {
    match t.parent_of(m) {
        None => None,
        Some(root) => nearest_monitor(t, t.ch(root as int), t.bounds_of(m), d),
    }
}

impl ContainerTree {
    /// The nearest monitor among `c` and its ancestors.
    pub fn monitor(&self, c: usize) -> (r: Option<usize>)
        requires
            self.wf(),
            (c as int) < self.len(),
        ensures
            r == monitor_of(self, c as int, self.len()),
            r matches Some(x) ==> (x as int) < self.len() && self.is_monitor(x as int),
    {
        let n = self.nodes.len();
        let mut cur = c;
        let mut fuel = n;
        while !self.monitor_node(cur) && fuel > 0
            invariant
                self.wf(),
                (cur as int) < self.len(),
                fuel <= n,
                n == self.len(),
                monitor_of(self, cur as int, fuel as nat) == monitor_of(self, c as int, n as nat),
            decreases fuel,
        {
            match self.nodes[cur].parent {
                None => {
                    return None;
                },
                Some(p) => {
                    proof {
                        assert(self.node_wf(cur as int));
                    }
                    cur = p;
                    fuel = fuel - 1;
                },
            }
        }
        if self.monitor_node(cur) {
            Some(cur)
        } else {
            None
        }
    }

    /// The nearest workspace (or side area) among `c` and its ancestors.
    pub fn workspace(&self, c: usize) -> (r: Option<usize>)
        requires
            self.wf(),
            (c as int) < self.len(),
        ensures
            r == workspace_of(self, c as int, self.len()),
            r matches Some(x) ==> (x as int) < self.len() && self.is_workspace(x as int),
    {
        let n = self.nodes.len();
        let mut cur = c;
        let mut fuel = n;
        while !self.workspace_node(cur) && fuel > 0
            invariant
                self.wf(),
                (cur as int) < self.len(),
                fuel <= n,
                n == self.len(),
                workspace_of(self, cur as int, fuel as nat) == workspace_of(self, c as int, n as nat),
            decreases fuel,
        {
            match self.nodes[cur].parent {
                None => {
                    return None;
                },
                Some(p) => {
                    proof {
                        assert(self.node_wf(cur as int));
                    }
                    cur = p;
                    fuel = fuel - 1;
                },
            }
        }
        if self.workspace_node(cur) {
            Some(cur)
        } else {
            None
        }
    }

    /// The workspace that monitor `m` displays.
    pub fn displayed_workspace(&self, m: usize) -> (r: Option<usize>)
        requires
            self.wf(),
            (m as int) < self.len(),
        ensures
            r == spec_displayed_workspace(self, m as int),
            r matches Some(x) ==> (x as int) < self.len() && self.is_regular_workspace(x as int),
    {
        proof {
            assert(self.node_wf(m as int));
        }
        let ghost s = self.fo(m as int);
        let ghost f = |x: usize| self.is_regular_workspace(x as int);
        let len = self.nodes[m].focus_order.len();
        let mut k: usize = 0;
        proof {
            assert(s.skip(0) =~= s);
        }
        while k < len
            invariant
                self.wf(),
                (m as int) < self.len(),
                s == self.fo(m as int),
                len == s.len(),
                k <= len,
                f == (|x: usize| self.is_regular_workspace(x as int)),
                first_such(s.skip(k as int), f) == first_such(s, f),
            decreases len - k,
        {
            let x = self.nodes[m].focus_order[k];
            proof {
                assert(self.node_wf(m as int));
                assert(self.ch(m as int).contains(x));
                let j = choose|j: int| 0 <= j < self.ch(m as int).len() && self.ch(m as int)[j] == x;
                assert(self.valid(self.ch(m as int)[j] as int));
                assert(s.skip(k as int)[0] == x);
                assert(s.skip(k as int).skip(1) =~= s.skip(k + 1));
            }
            if self.regular_workspace(x) {
                return Some(x);
            }
            k = k + 1;
        }
        None
    }

    /// The side area of monitor `m` on the given side.
    pub fn side_area(&self, m: usize, side: SideArea) -> (r: Option<usize>)
        requires
            self.wf(),
            (m as int) < self.len(),
        ensures
            r == spec_side_area(self, m as int, side),
            r matches Some(x) ==> (x as int) < self.len() && self.is_workspace(x as int) && self.side_of(x as int)
                == Some(side),
    {
        proof {
            assert(self.node_wf(m as int));
        }
        let ghost s = self.ch(m as int);
        let ghost f = |x: usize| self.is_workspace(x as int) && self.side_of(x as int) == Some(side);
        let len = self.nodes[m].children.len();
        let mut k: usize = 0;
        proof {
            assert(s.skip(0) =~= s);
        }
        while k < len
            invariant
                self.wf(),
                (m as int) < self.len(),
                s == self.ch(m as int),
                len == s.len(),
                k <= len,
                f == (|x: usize| self.is_workspace(x as int) && self.side_of(x as int) == Some(side)),
                first_such(s.skip(k as int), f) == first_such(s, f),
            decreases len - k,
        {
            let x = self.nodes[m].children[k];
            proof {
                assert(self.node_wf(m as int));
                assert(self.valid(s[k as int] as int));
                assert(s.skip(k as int)[0] == x);
                assert(s.skip(k as int).skip(1) =~= s.skip(k + 1));
            }
            if self.workspace_node(x) && self.side(x) == Some(side) {
                return Some(x);
            }
            k = k + 1;
        }
        None
    }

    /// Whether monitor `m` has a side area on either side.
    pub fn has_side_areas(&self, m: usize) -> (r: bool)
        requires
            self.wf(),
            (m as int) < self.len(),
        ensures
            r == (spec_side_area(self, m as int, SideArea::Left) is Some || spec_side_area(self, m as int, SideArea::Right) is Some),
    {
        self.side_area(m, SideArea::Left).is_some() || self.side_area(m, SideArea::Right).is_some()
    }

    /// The regular workspaces of monitor `m`, in order.
    pub fn workspaces(&self, m: usize) -> (r: Vec<usize>)
        requires
            self.wf(),
            (m as int) < self.len(),
        ensures
            r@ == regular_workspaces(self, self.ch(m as int)),
    {
        proof {
            assert(self.node_wf(m as int));
        }
        let ghost s = self.ch(m as int);
        let mut r: Vec<usize> = Vec::new();
        let mut k: usize = 0;
        while k < self.nodes[m].children.len()
            invariant
                self.wf(),
                (m as int) < self.len(),
                s == self.ch(m as int),
                self.children_linked(m as int),
                k <= s.len(),
                r@ == regular_workspaces(self, s.take(k as int)),
            decreases s.len() - k,
        {
            let c = self.nodes[m].children[k];
            proof {
                assert(s.take(k + 1).drop_last() =~= s.take(k as int));
                assert(s.take(k + 1).last() == c);
                assert(self.valid(s[k as int] as int));
            }
            if self.regular_workspace(c) {
                r.push(c);
            }
            k = k + 1;
        }
        proof {
            assert(s.take(s.len() as int) =~= s);
        }
        r
    }

    /// Whether regular workspace `w` is the one its monitor displays; a
    /// side area is displayed whenever it is on a monitor.
    pub fn is_displayed(&self, w: usize) -> (r: bool)
        requires
            self.wf(),
            (w as int) < self.len(),
        ensures
            self.is_side_area(w as int) ==> r == (monitor_of(self, w as int, self.len()) is Some),
            !self.is_side_area(w as int) ==> r == (monitor_of(self, w as int, self.len()) matches Some(m)
                && spec_displayed_workspace(self, m as int) == Some(w)),
    {
        if self.side(w).is_some() {
            return self.monitor(w).is_some();
        }
        match self.monitor(w) {
            None => false,
            Some(m) => self.displayed_workspace(m) == Some(w),
        }
    }

    /// The nearest monitor among the siblings of monitor `m` (and `m`
    /// itself) that lies in direction `d` from it.
    pub fn monitor_in_direction(&self, m: usize, d: Direction) -> (r: Option<usize>)
        requires
            self.wf(),
            (m as int) < self.len(),
        ensures
            r == spec_monitor_in_direction(self, m as int, d),
            r matches Some(x) ==> (x as int) < self.len(),
    {
        let root = match self.nodes[m].parent {
            None => {
                return None;
            },
            Some(root) => root,
        };
        proof {
            assert(self.node_wf(m as int));
            assert(self.node_wf(root as int));
        }
        let o = self.bounds(m);
        let ghost s = self.ch(root as int);
        let mut best: Option<usize> = None;
        let mut k: usize = 0;
        while k < self.nodes[root].children.len()
            invariant
                self.wf(),
                (root as int) < self.len(),
                s == self.ch(root as int),
                self.children_linked(root as int),
                k <= s.len(),
                best == nearest_monitor(self, s.take(k as int), o, d),
                best matches Some(b) ==> (b as int) < self.len(),
            decreases s.len() - k,
        {
            let x = self.nodes[root].children[k];
            proof {
                assert(s.take(k + 1).drop_last() =~= s.take(k as int));
                assert(s.take(k + 1).last() == x);
                assert(self.valid(s[k as int] as int));
            }
            if self.monitor_node(x) {
                let r = self.bounds(x);
                let in_dir = match d {
                    Direction::Up => r.top < o.top && r.left < o.right && o.left < r.right,
                    Direction::Down => r.top > o.top && r.left < o.right && o.left < r.right,
                    Direction::Left => r.left < o.left && r.top < o.bottom && o.top < r.bottom,
                    Direction::Right => r.left > o.left && r.top < o.bottom && o.top < r.bottom,
                };
                if in_dir {
                    let better = match best {
                        None => true,
                        Some(b) => {
                            let br = self.bounds(b);
                            match d {
                                Direction::Up => r.top > br.top,
                                Direction::Down => r.top < br.top,
                                Direction::Left => r.left > br.left,
                                Direction::Right => r.left < br.left,
                            }
                        },
                    };
                    if better {
                        best = Some(x);
                    }
                }
            }
            k = k + 1;
        }
        proof {
            assert(s.take(s.len() as int) =~= s);
        }
        best
    }
}

} // verus!
