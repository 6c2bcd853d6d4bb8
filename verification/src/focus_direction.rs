//! Moving focus in a direction: to an adjacent tiling container, a tab, a
//! floating sibling, or the workspace of the monitor in that direction.
use vstd::prelude::*;

use crate::attach::TreeError;
use crate::focus::{focus_orders, refocus, same_but_focus};
use crate::sync::PendingSync;
use crate::tab_commands::sync_unchanged;
use crate::monitors::{monitor_of, spec_displayed_workspace, spec_monitor_in_direction, workspace_of};
use crate::tabs::copy_ids;
use crate::tree::{ContainerKind, ContainerTree, Direction, TilingDirection, WindowState};

verus! {

/// The first element of `s` that `f` holds of.
pub open spec fn first_such(s: Seq<usize>, f: spec_fn(usize) -> bool) -> Option<usize>
    decreases s.len(),
{
    if s.len() == 0 {
        None
    } else if f(s[0]) {
        Some(s[0])
    } else {
        first_such(s.skip(1), f)
    }
}

/// The last element of `s` that `f` holds of.
pub open spec fn last_such(s: Seq<usize>, f: spec_fn(usize) -> bool) -> Option<usize>
    decreases s.len(),
{
    if s.len() == 0 {
        None
    } else if f(s.last()) {
        Some(s.last())
    } else {
        last_such(s.drop_last(), f)
    }
}

/// Tiling containers, or floating windows.
pub open spec fn wanted(t: ContainerTree, floating: bool) -> spec_fn(usize) -> bool {
    |x: usize| if floating { t.is_floating(x as int) } else { t.is_tiling(x as int) }
}

pub open spec fn is_horizontal(d: Direction) -> bool {
    d is Left || d is Right
}

pub proof fn lemma_first_such_concat(a: Seq<usize>, b: Seq<usize>, f: spec_fn(usize) -> bool)
    ensures
        first_such(a + b, f) == match first_such(a, f) {
            Some(x) => Some(x),
            None => first_such(b, f),
        },
    decreases a.len(),
{
    if a.len() > 0 {
        assert((a + b).skip(1) =~= a.skip(1) + b);
        assert((a + b)[0] == a[0]);
        lemma_first_such_concat(a.skip(1), b, f);
    } else {
        assert(a + b =~= b);
    }
}

/// What `first_such` and `last_such` find is an element of the sequence
/// that the predicate holds of.
pub proof fn lemma_first_such_member(s: Seq<usize>, f: spec_fn(usize) -> bool)
    ensures
        first_such(s, f) matches Some(x) ==> s.contains(x) && f(x),
        last_such(s, f) matches Some(x) ==> s.contains(x) && f(x),
    decreases s.len(),
{
    if s.len() > 0 {
        lemma_first_such_member(s.skip(1), f);
        lemma_first_such_member(s.drop_last(), f);
        if let Some(x) = first_such(s.skip(1), f) {
            let k = choose|k: int| 0 <= k < s.skip(1).len() && s.skip(1)[k] == x;
            assert(s[k + 1] == x);
        }
        if let Some(x) = last_such(s.drop_last(), f) {
            let k = choose|k: int| 0 <= k < s.drop_last().len() && s.drop_last()[k] == x;
            assert(s[k] == x);
        }
        assert(s[0] == s[0]);
        assert(s[s.len() - 1] == s.last());
    }
}

pub proof fn lemma_last_such_concat(a: Seq<usize>, b: Seq<usize>, f: spec_fn(usize) -> bool)
    ensures
        last_such(a + b, f) == match last_such(b, f) {
            Some(x) => Some(x),
            None => last_such(a, f),
        },
    decreases b.len(),
{
    if b.len() > 0 {
        assert((a + b).drop_last() =~= a + b.drop_last());
        assert((a + b).last() == b.last());
        lemma_last_such_concat(a, b.drop_last(), f);
    } else {
        assert(a + b =~= a);
    }
}

impl ContainerTree {
    pub open spec fn is_floating(&self, i: int) -> bool {
        self.kind(i) matches ContainerKind::NonTilingWindow(info) && info.state is Floating
    }

    pub open spec fn is_fullscreen(&self, i: int) -> bool {
        self.kind(i) matches ContainerKind::NonTilingWindow(info) && info.state is Fullscreen
    }

    /// The most recently focused child of `c`, or `c` itself.
    pub open spec fn spec_focused_leaf_or_self(&self, c: int) -> usize {
        if self.fo(c).len() > 0 {
            self.fo(c)[0]
        } else {
            c as usize
        }
    }

    /// The position of `c` among its parent's children.
    pub open spec fn sibling_index(&self, c: int) -> int {
        self.ch(self.parent_of(c).unwrap() as int).index_of(c as usize)
    }

    /// The siblings of `c` before it, and after it, in order.
    pub open spec fn prev_siblings(&self, c: int) -> Seq<usize> {
        self.ch(self.parent_of(c).unwrap() as int).take(self.sibling_index(c))
    }

    pub open spec fn next_siblings(&self, c: int) -> Seq<usize> {
        self.ch(self.parent_of(c).unwrap() as int).skip(self.sibling_index(c) + 1)
    }

    /// Whether a container is a floating window.
    pub fn floating(&self, i: usize) -> (r: bool)
        requires
            (i as int) < self.len(),
        ensures
            r == self.is_floating(i as int),
    {
        match &self.nodes[i].kind {
            ContainerKind::NonTilingWindow(info) => match info.state {
                WindowState::Floating(_) => true,
                _ => false,
            },
            _ => false,
        }
    }

    /// Whether a container is a fullscreen window.
    pub fn fullscreen(&self, i: usize) -> (r: bool)
        requires
            (i as int) < self.len(),
        ensures
            r == self.is_fullscreen(i as int),
    {
        match &self.nodes[i].kind {
            ContainerKind::NonTilingWindow(info) => match info.state {
                WindowState::Fullscreen(_) => true,
                _ => false,
            },
            _ => false,
        }
    }

    /// The container that focus goes to within `c`: its most recently
    /// focused child, or `c` itself where it has no children.
    pub fn focused_leaf_or_self(&self, c: usize) -> (r: usize)
        requires
            self.wf(),
            (c as int) < self.len(),
        ensures
            r == self.spec_focused_leaf_or_self(c as int),
            (r as int) < self.len(),
    {
        self.first_focused_or_self(c)
    }

    /// The first (or, with `from_end`, the last) element of `s[lo..hi]`
    /// that is a tiling container (or, with `floating`, a floating window).
    fn find_in(&self, s: &Vec<usize>, lo: usize, hi: usize, floating: bool, from_end: bool) -> (r: Option<usize>)
        requires
            lo <= hi <= s@.len(),
            forall|j: int| 0 <= j < s@.len() ==> (#[trigger] s@[j] as int) < self.len(),
        ensures
            !from_end ==> r == first_such(s@.subrange(lo as int, hi as int), wanted(*self, floating)),
            from_end ==> r == last_such(s@.subrange(lo as int, hi as int), wanted(*self, floating)),
            r matches Some(x) ==> (x as int) < self.len(),
    {
        let ghost f = wanted(*self, floating);
        if !from_end {
            let mut k = lo;
            while k < hi
                invariant
                    lo <= k <= hi <= s@.len(),
                    forall|j: int| 0 <= j < s@.len() ==> (#[trigger] s@[j] as int) < self.len(),
                    f == wanted(*self, floating),
                    !from_end,
                    first_such(s@.subrange(k as int, hi as int), f) == first_such(s@.subrange(lo as int, hi as int), f),
                decreases hi - k,
            {
                let x = s[k];
                let hit = if floating {
                    self.floating(x)
                } else {
                    self.tiling(x)
                };
                proof {
                    assert(s@.subrange(k as int, hi as int)[0] == x);
                    assert(s@.subrange(k as int, hi as int).skip(1) =~= s@.subrange(k + 1, hi as int));
                }
                if hit {
                    return Some(x);
                }
                k = k + 1;
            }
            None
        } else {
            let mut k = hi;
            while k > lo
                invariant
                    lo <= k <= hi <= s@.len(),
                    forall|j: int| 0 <= j < s@.len() ==> (#[trigger] s@[j] as int) < self.len(),
                    f == wanted(*self, floating),
                    from_end,
                    last_such(s@.subrange(lo as int, k as int), f) == last_such(s@.subrange(lo as int, hi as int), f),
                decreases k - lo,
            {
                let x = s[k - 1];
                let hit = if floating {
                    self.floating(x)
                } else {
                    self.tiling(x)
                };
                proof {
                    assert(s@.subrange(lo as int, k as int).last() == x);
                    assert(s@.subrange(lo as int, k as int).drop_last() =~= s@.subrange(lo as int, k - 1));
                }
                if hit {
                    return Some(x);
                }
                k = k - 1;
            }
            None
        }
    }

    /// The children (or focus order) of `c`, which are all containers of
    /// the tree.
    fn list_of(&self, c: usize, focus: bool) -> (r: Vec<usize>)
        requires
            self.wf(),
            (c as int) < self.len(),
        ensures
            r@ == if focus { self.fo(c as int) } else { self.ch(c as int) },
            forall|j: int| 0 <= j < r@.len() ==> (#[trigger] r@[j] as int) < self.len(),
    {
        proof {
            assert(self.node_wf(c as int));
        }
        let r = if focus {
            copy_ids(&self.nodes[c].focus_order)
        } else {
            copy_ids(&self.nodes[c].children)
        };
        proof {
            assert forall|j: int| 0 <= j < r@.len() implies (#[trigger] r@[j] as int) < self.len() by {
                if focus {
                    assert(self.ch(c as int).contains(r@[j]));
                    let m = choose|m: int| 0 <= m < self.ch(c as int).len() && self.ch(c as int)[m] == r@[j];
                    assert(self.valid(self.ch(c as int)[m] as int));
                } else {
                    assert(self.valid(self.ch(c as int)[j] as int));
                }
            }
        }
        r
    }
}

/// The adjacent direct tab of `tab` when moving horizontally, focused at
/// its most recently focused child.
pub open spec fn spec_tabbed_focus_target(t: &ContainerTree, tab: int, d: Direction) -> Option<usize> {
    if !is_horizontal(d) || !(t.parent_of(tab) is Some && t.is_tabbed(t.parent_of(tab).unwrap() as int)) {
        None
    } else {
        let s = if d is Left {
            last_such(t.prev_siblings(tab), |x: usize| true)
        } else {
            first_such(t.next_siblings(tab), |x: usize| true)
        };
        match s {
            None => None,
            Some(x) => Some(t.spec_focused_leaf_or_self(x as int)),
        }
    }
}

/// The first tabbed container strictly above `c`, looking at most `fuel`
/// parents up.
pub open spec fn tabbed_ancestor(t: &ContainerTree, c: int, fuel: nat) -> Option<usize>
    decreases fuel,
{
    if fuel == 0 {
        None
    } else {
        match t.parent_of(c) {
            None => None,
            Some(p) => if t.is_tabbed(p as int) {
                Some(p)
            } else {
                tabbed_ancestor(t, p as int, (fuel - 1) as nat)
            },
        }
    }
}

/// Focus wrapping within the innermost tabbed container above `c`: moving
/// left goes to the last tab, moving right to the first.
pub open spec fn spec_tabbed_wrap_target(t: &ContainerTree, c: int, d: Direction) -> Option<usize> {
    if !is_horizontal(d) {
        None
    } else {
        match tabbed_ancestor(t, c, t.len()) {
            None => None,
            Some(tb) => if t.ch(tb as int).len() < 2 {
                None
            } else if d is Left {
                Some(t.spec_focused_leaf_or_self(t.ch(tb as int).last() as int))
            } else {
                Some(t.spec_focused_leaf_or_self(t.ch(tb as int)[0] as int))
            },
        }
    }
}

/// The floating sibling that focus moves to from floating window `c`:
/// moving left, the next floating sibling after it or else the last
/// floating sibling; moving right, the nearest floating sibling before
/// it or else the first floating sibling.
pub open spec fn spec_floating_focus_target(t: &ContainerTree, c: int, d: Direction) -> Option<usize> {
    let f = wanted(*t, true);
    let others = t.prev_siblings(c) + t.next_siblings(c);
    if t.parent_of(c) is None {
        None
    } else if d is Left {
        match first_such(t.next_siblings(c), f) {
            Some(x) => Some(x),
            None => last_such(others, f),
        }
    } else if d is Right {
        match last_such(t.prev_siblings(c), f) {
            Some(x) => Some(x),
            None => first_such(others, f),
        }
    } else {
        None
    }
}

/// The child of direction container `c` that focus enters moving in
/// direction `d`: across `c`'s direction, its most recently focused tiling
/// child; along it, its first tiling child moving up or left and its last
/// moving down or right.
pub open spec fn child_in_direction(t: &ContainerTree, c: int, d: Direction) -> Option<usize> {
    if t.direction(c) != TilingDirection::spec_from_direction(d) {
        first_such(t.fo(c), wanted(*t, false))
    } else if d is Up || d is Left {
        first_such(t.ch(c), wanted(*t, false))
    } else {
        last_such(t.ch(c), wanted(*t, false))
    }
}

/// The tiling container that focus enters in direction container `c`
/// moving in direction `d`, descending through splits, at most `fuel` deep.
pub open spec fn descendant_in_direction(t: &ContainerTree, c: int, d: Direction, fuel: nat) -> Option<usize>
    decreases fuel,
{
    match child_in_direction(t, c, d) {
        None => None,
        Some(x) => if t.is_split(x as int) {
            if fuel == 0 {
                None
            } else {
                descendant_in_direction(t, x as int, d, (fuel - 1) as nat)
            }
        } else {
            Some(x)
        },
    }
}

/// The focus target for a tiling container `o` moving in direction `d`
/// within its workspace, looking at most `fuel` levels up.
pub open spec fn tiling_focus_search(t: &ContainerTree, o: int, d: Direction, fuel: nat) -> Result<Option<usize>, TreeError>
    decreases fuel,
{
    if t.is_workspace(o) || fuel == 0 {
        Ok(None)
    } else {
        match t.parent_of(o) {
            None => Err(TreeError::NoParent),
            Some(p) => if !t.is_direction_container(p as int) {
                if t.is_tabbed(p as int) {
                    match spec_tabbed_focus_target(t, o, d) {
                        Some(x) => Ok(Some(x)),
                        None => tiling_focus_search(t, p as int, d, (fuel - 1) as nat),
                    }
                } else {
                    Err(TreeError::NoDirectionContainer)
                }
            } else if t.direction(p as int) != TilingDirection::spec_from_direction(d) {
                tiling_focus_search(t, p as int, d, (fuel - 1) as nat)
            } else {
                let target = if d is Up || d is Left {
                    last_such(t.prev_siblings(o), wanted(*t, false))
                } else {
                    first_such(t.next_siblings(o), wanted(*t, false))
                };
                match target {
                    None => tiling_focus_search(t, p as int, d, (fuel - 1) as nat),
                    Some(x) => Ok(if t.is_tiling_window(x as int) {
                        Some(x)
                    } else if t.is_split(x as int) {
                        descendant_in_direction(t, x as int, d.spec_inverse(), t.len())
                    } else if t.fo(x as int).len() > 0 {
                        Some(t.spec_focused_leaf_or_self(t.fo(x as int)[0] as int))
                    } else {
                        None
                    }),
                }
            },
        }
    }
}

/// The focus target in the workspace `ws` of a neighbouring monitor,
/// entered from direction `d`: its focused fullscreen window if it has
/// one, else the tiling container that focus enters, else `ws` itself.
pub open spec fn spec_workspace_focus_target(t: &ContainerTree, ws: Option<usize>, d: Direction) -> Option<usize> {
    match ws {
        None => None,
        Some(w) => if t.fo(w as int).len() > 0 && t.is_fullscreen(t.fo(w as int)[0] as int) {
            Some(t.fo(w as int)[0])
        } else {
            match descendant_in_direction(t, w as int, d.spec_inverse(), t.len()) {
                Some(x) => Some(x),
                None => Some(w),
            }
        },
    }
}

impl ContainerTree {
    /// The position of `c` among its parent's children.
    fn sibling_position(&self, c: usize) -> (r: (usize, usize))
        requires
            self.wf(),
            (c as int) < self.len(),
            self.parent_of(c as int) is Some,
        ensures
            Some(r.0) == self.parent_of(c as int),
            (r.0 as int) < self.len(),
            r.1 == self.sibling_index(c as int),
            (r.1 as int) < self.ch(r.0 as int).len(),
            self.ch(r.0 as int)[r.1 as int] == c,
    {
        let p = self.nodes[c].parent.unwrap();
        proof {
            assert(self.node_wf(c as int));
            assert(self.node_wf(p as int));
        }
        let i = self.index_in(p, c);
        proof {
            let s = self.ch(p as int);
            let j = s.index_of(c);
            assert(s.contains(c));
            assert(0 <= j < s.len() && s[j] == c);
        }
        (p, i)
    }

    /// The adjacent direct tab of `tab` when moving horizontally.
    pub fn tabbed_focus_target(&self, tab: usize, d: Direction) -> (r: Option<usize>)
        requires
            self.wf(),
            (tab as int) < self.len(),
        ensures
            r == spec_tabbed_focus_target(self, tab as int, d),
            r matches Some(x) ==> (x as int) < self.len(),
    {
        let horizontal = match d {
            Direction::Left | Direction::Right => true,
            _ => false,
        };
        if !horizontal {
            return None;
        }
        match self.nodes[tab].parent {
            None => {
                return None;
            },
            Some(p) => {
                proof {
                    assert(self.node_wf(tab as int));
                }
                if !self.tabbed(p) {
                    return None;
                }
            },
        }
        let (p, i) = self.sibling_position(tab);
        let ch = self.list_of(p, false);
        let ghost s = ch@;
        let target = match d {
            Direction::Left => {
                proof {
                    assert(s.take(i as int).len() == i);
                    if i > 0 {
                        assert(s.take(i as int).last() == s[i - 1]);
                    }
                }
                if i > 0 {
                    Some(ch[i - 1])
                } else {
                    None
                }
            },
            _ => {
                proof {
                    assert(s.skip(i + 1).len() == s.len() - i - 1);
                    if i + 1 < s.len() {
                        assert(s.skip(i + 1)[0] == s[i + 1]);
                    }
                }
                if i < ch.len() - 1 {
                    Some(ch[i + 1])
                } else {
                    None
                }
            },
        };
        match target {
            None => None,
            Some(x) => Some(self.focused_leaf_or_self(x)),
        }
    }

    /// The first tabbed container strictly above `c`.
    pub fn tabbed_ancestor_of(&self, c: usize) -> (r: Option<usize>)
        requires
            self.wf(),
            (c as int) < self.len(),
        ensures
            r == tabbed_ancestor(self, c as int, self.len()),
            r matches Some(x) ==> (x as int) < self.len(),
    {
        let n = self.nodes.len();
        let mut cur = c;
        let mut fuel = n;
        while fuel > 0
            invariant
                self.wf(),
                (cur as int) < self.len(),
                fuel <= n,
                n == self.len(),
                tabbed_ancestor(self, cur as int, fuel as nat) == tabbed_ancestor(self, c as int, n as nat),
            decreases fuel,
        {
            match self.nodes[cur].parent {
                None => {
                    return None;
                },
                Some(p) => {
                    proof {
                        assert(self.node_wf(cur as int));
                    }
                    if self.tabbed(p) {
                        return Some(p);
                    }
                    cur = p;
                    fuel = fuel - 1;
                },
            }
        }
        None
    }

    /// Wraps focus within the innermost tabbed container above `c`.
    pub fn tabbed_wrap_target(&self, c: usize, d: Direction) -> (r: Option<usize>)
        requires
            self.wf(),
            (c as int) < self.len(),
        ensures
            r == spec_tabbed_wrap_target(self, c as int, d),
            r matches Some(x) ==> (x as int) < self.len(),
    {
        let horizontal = match d {
            Direction::Left | Direction::Right => true,
            _ => false,
        };
        if !horizontal {
            return None;
        }
        let tb = match self.tabbed_ancestor_of(c) {
            None => {
                return None;
            },
            Some(tb) => tb,
        };
        let ch = self.list_of(tb, false);
        if ch.len() < 2 {
            return None;
        }
        let x = match d {
            Direction::Left => ch[ch.len() - 1],
            _ => ch[0],
        };
        Some(self.focused_leaf_or_self(x))
    }

    /// The floating sibling that focus moves to from floating window `c`.
    pub fn floating_focus_target(&self, c: usize, d: Direction) -> (r: Option<usize>)
        requires
            self.wf(),
            (c as int) < self.len(),
        ensures
            r == spec_floating_focus_target(self, c as int, d),
            r matches Some(x) ==> (x as int) < self.len(),
    {
        if self.nodes[c].parent.is_none() {
            return None;
        }
        let (p, i) = self.sibling_position(c);
        let ch = self.list_of(p, false);
        let ghost s = ch@;
        let ghost f = wanted(*self, true);
        proof {
            assert(s.subrange(0, i as int) =~= s.take(i as int));
            assert(s.subrange(i + 1, s.len() as int) =~= s.skip(i + 1));
        }
        match d {
            Direction::Left => {
                let a = self.find_in(&ch, i + 1, ch.len(), true, false);
                if a.is_some() {
                    return a;
                }
                let b = self.find_in(&ch, i + 1, ch.len(), true, true);
                proof {
                    lemma_last_such_concat(s.take(i as int), s.skip(i + 1), f);
                }
                if b.is_some() {
                    return b;
                }
                self.find_in(&ch, 0, i, true, true)
            },
            Direction::Right => {
                let a = self.find_in(&ch, 0, i, true, true);
                if a.is_some() {
                    return a;
                }
                let b = self.find_in(&ch, 0, i, true, false);
                proof {
                    lemma_first_such_concat(s.take(i as int), s.skip(i + 1), f);
                }
                if b.is_some() {
                    return b;
                }
                self.find_in(&ch, i + 1, ch.len(), true, false)
            },
            _ => None,
        }
    }

    /// The child of direction container `c` that focus enters moving in
    /// direction `d`.
    fn child_in_direction(&self, c: usize, d: Direction) -> (r: Option<usize>)
        requires
            self.wf(),
            (c as int) < self.len(),
        ensures
            r == child_in_direction(self, c as int, d),
            r matches Some(x) ==> (x as int) < self.len(),
    {
        let along = TilingDirection::from_direction(d);
        if self.nodes[c].tiling_direction != along {
            let fo = self.list_of(c, true);
            proof {
                assert(fo@.subrange(0, fo@.len() as int) =~= fo@);
            }
            return self.find_in(&fo, 0, fo.len(), false, false);
        }
        let ch = self.list_of(c, false);
        proof {
            assert(ch@.subrange(0, ch@.len() as int) =~= ch@);
        }
        match d {
            Direction::Up | Direction::Left => self.find_in(&ch, 0, ch.len(), false, false),
            _ => self.find_in(&ch, 0, ch.len(), false, true),
        }
    }

    /// The tiling container that focus enters in direction container `c`
    /// moving in direction `d`, descending through splits.
    pub fn descendant_in_direction(&self, c: usize, d: Direction) -> (r: Option<usize>)
        requires
            self.wf(),
            (c as int) < self.len(),
        ensures
            r == descendant_in_direction(self, c as int, d, self.len()),
            r matches Some(x) ==> (x as int) < self.len(),
    {
        let n = self.nodes.len();
        let mut cur = c;
        let mut fuel = n;
        loop
            invariant
                self.wf(),
                (cur as int) < self.len(),
                fuel <= n,
                n == self.len(),
                descendant_in_direction(self, cur as int, d, fuel as nat) == descendant_in_direction(self, c as int, d, n as nat),
            decreases fuel,
        {
            match self.child_in_direction(cur, d) {
                None => {
                    return None;
                },
                Some(x) => {
                    if !self.split(x) {
                        return Some(x);
                    }
                    if fuel == 0 {
                        return None;
                    }
                    cur = x;
                    fuel = fuel - 1;
                },
            }
        }
    }

    /// The focus target for tiling container `o` moving in direction `d`
    /// within its workspace: the nearest tiling sibling in that direction
    /// of `o` or of an ancestor along a matching split, entered at its
    /// edge, or an adjacent tab. Refused where a non-tabbed, non-direction
    /// container or a missing parent interrupts the way up.
    pub fn tiling_focus_target(&self, o: usize, d: Direction) -> (r: Result<Option<usize>, TreeError>)
        requires
            self.wf(),
            (o as int) < self.len(),
        ensures
            r == tiling_focus_search(self, o as int, d, self.len()),
            r matches Ok(Some(x)) ==> (x as int) < self.len(),
    {
        let n = self.nodes.len();
        let along = TilingDirection::from_direction(d);
        let mut cur = o;
        let mut fuel = n;
        while !self.workspace_node(cur) && fuel > 0
            invariant
                self.wf(),
                (cur as int) < self.len(),
                fuel <= n,
                n == self.len(),
                along == TilingDirection::spec_from_direction(d),
                tiling_focus_search(self, cur as int, d, fuel as nat) == tiling_focus_search(self, o as int, d, n as nat),
            decreases fuel,
        {
            let p = match self.nodes[cur].parent {
                None => {
                    return Err(TreeError::NoParent);
                },
                Some(p) => p,
            };
            proof {
                assert(self.node_wf(cur as int));
            }
            if !(self.workspace_node(p) || self.split(p)) {
                if self.tabbed(p) {
                    let t = self.tabbed_focus_target(cur, d);
                    if t.is_some() {
                        return Ok(t);
                    }
                    cur = p;
                    fuel = fuel - 1;
                    continue;
                }
                return Err(TreeError::NoDirectionContainer);
            }
            if self.nodes[p].tiling_direction != along {
                cur = p;
                fuel = fuel - 1;
                continue;
            }
            let (p2, i) = self.sibling_position(cur);
            let ch = self.list_of(p2, false);
            proof {
                assert(ch@.subrange(0, i as int) =~= ch@.take(i as int));
                assert(ch@.subrange(i + 1, ch@.len() as int) =~= ch@.skip(i + 1));
            }
            let target = match d {
                Direction::Up | Direction::Left => self.find_in(&ch, 0, i, false, true),
                _ => self.find_in(&ch, i + 1, ch.len(), false, false),
            };
            match target {
                None => {
                    cur = p;
                    fuel = fuel - 1;
                },
                Some(x) => {
                    if self.tiling_window(x) {
                        return Ok(Some(x));
                    }
                    if self.split(x) {
                        let inv = d.inverse();
                        return Ok(self.descendant_in_direction(x, inv));
                    }
                    if self.nodes[x].focus_order.len() > 0 {
                        proof {
                            assert(self.node_wf(x as int));
                            assert(self.ch(x as int).contains(self.fo(x as int)[0]));
                            let m = choose|m: int| 0 <= m < self.ch(x as int).len() && self.ch(x as int)[m] == self.fo(x as int)[0];
                            assert(self.valid(self.ch(x as int)[m] as int));
                        }
                        let a = self.nodes[x].focus_order[0];
                        return Ok(Some(self.focused_leaf_or_self(a)));
                    }
                    return Ok(None);
                },
            }
        }
        Ok(None)
    }

    /// The focus target in workspace `ws` (the displayed workspace of the
    /// monitor in direction `d`), entered from direction `d`.
    pub fn workspace_focus_target(&self, ws: Option<usize>, d: Direction) -> (r: Option<usize>)
        requires
            self.wf(),
            ws matches Some(w) ==> (w as int) < self.len(),
        ensures
            r == spec_workspace_focus_target(self, ws, d),
            r matches Some(x) ==> (x as int) < self.len(),
    {
        let w = match ws {
            None => {
                return None;
            },
            Some(w) => w,
        };
        if self.nodes[w].focus_order.len() > 0 {
            proof {
                assert(self.node_wf(w as int));
                assert(self.ch(w as int).contains(self.fo(w as int)[0]));
                let m = choose|m: int| 0 <= m < self.ch(w as int).len() && self.ch(w as int)[m] == self.fo(w as int)[0];
                assert(self.valid(self.ch(w as int)[m] as int));
            }
            let f = self.nodes[w].focus_order[0];
            if self.fullscreen(f) {
                return Some(f);
            }
        }
        let inv = d.inverse();
        match self.descendant_in_direction(w, inv) {
            Some(x) => Some(x),
            None => Some(w),
        }
    }
}

/// The focus target in the displayed workspace of the monitor in
/// direction `d` from the monitor of `o`.
pub open spec fn workspace_target_from(t: &ContainerTree, o: int, d: Direction) -> Result<Option<usize>, TreeError> {
    match monitor_of(t, o, t.len()) {
        None => Err(TreeError::NoMonitor),
        Some(m) => Ok(spec_workspace_focus_target(
            t,
            match spec_monitor_in_direction(t, m as int, d) {
                None => None,
                Some(mm) => spec_displayed_workspace(t, mm as int),
            },
            d,
        )),
    }
}

/// The container that focus moves to from `o` in direction `d`.
pub open spec fn focus_target(t: &ContainerTree, o: int, d: Direction) -> Result<Option<usize>, TreeError> {
    let in_side_area = workspace_of(t, o, t.len()) matches Some(w) && t.is_side_area(w as int);
    let base = if t.is_tiling_window(o) {
        match tiling_focus_search(t, o, d, t.len()) {
            Err(e) => Err(e),
            Ok(Some(x)) => Ok(Some(x)),
            Ok(None) => if in_side_area {
                Ok(None)
            } else {
                workspace_target_from(t, o, d)
            },
        }
    } else if t.is_floating(o) {
        Ok(spec_floating_focus_target(t, o, d))
    } else if t.is_fullscreen(o) || t.is_workspace(o) {
        workspace_target_from(t, o, d)
    } else {
        Ok(None)
    };
    match base {
        Err(e) => Err(e),
        Ok(Some(x)) => Ok(Some(x)),
        Ok(None) => Ok(spec_tabbed_wrap_target(t, o, d)),
    }
}

impl ContainerTree {
    /// The focus target in the displayed workspace of the monitor in
    /// direction `d` from the monitor of `o`.
    fn workspace_target_from(&self, o: usize, d: Direction) -> (r: Result<Option<usize>, TreeError>)
        requires
            self.wf(),
            (o as int) < self.len(),
        ensures
            r == workspace_target_from(self, o as int, d),
            r matches Ok(Some(x)) ==> (x as int) < self.len(),
    {
        let m = match self.monitor(o) {
            None => {
                return Err(TreeError::NoMonitor);
            },
            Some(m) => m,
        };
        let ws = match self.monitor_in_direction(m, d) {
            None => None,
            Some(mm) => self.displayed_workspace(mm),
        };
        Ok(self.workspace_focus_target(ws, d))
    }
}

/// Moves focus from `o` in direction `d` (see `focus_target`): the target
/// becomes the focused container of its ancestors, and a focus change and
/// cursor jump are queued. Nothing changes where there is no target.
pub fn focus_in_direction(tree: &mut ContainerTree, o: usize, d: Direction, sync: &mut PendingSync) -> (r: Result<(), TreeError>)
    requires
        old(tree).wf(),
        (o as int) < old(tree).len(),
    ensures
        final(tree).wf(),
        match focus_target(old(tree), o as int, d) {
            Err(e) => r == Err::<(), TreeError>(e) && final(tree).nodes@ == old(tree).nodes@ && sync_unchanged(*old(sync), *final(sync)),
            Ok(None) => r is Ok && final(tree).nodes@ == old(tree).nodes@ && sync_unchanged(*old(sync), *final(sync)),
            Ok(Some(x)) => {
                &&& r is Ok
                &&& same_but_focus(final(tree), old(tree))
                &&& focus_orders(final(tree)) == refocus(old(tree), focus_orders(old(tree)), x as int, None, old(tree).len())
                &&& final(sync).containers_to_redraw@ == old(sync).containers_to_redraw@
                &&& final(sync).workspaces_to_reorder@ == old(sync).workspaces_to_reorder@
                &&& final(sync).focus_change
                &&& final(sync).cursor_jump
            },
        },
{
    let in_side_area = match tree.workspace(o) {
        Some(w) => tree.side(w).is_some(),
        None => false,
    };
    let base: Result<Option<usize>, TreeError> = if tree.tiling_window(o) {
        match tree.tiling_focus_target(o, d) {
            Err(e) => Err(e),
            Ok(Some(x)) => Ok(Some(x)),
            Ok(None) => if in_side_area {
                Ok(None)
            } else {
                tree.workspace_target_from(o, d)
            },
        }
    } else if tree.floating(o) {
        Ok(tree.floating_focus_target(o, d))
    } else if tree.fullscreen(o) || tree.workspace_node(o) {
        tree.workspace_target_from(o, d)
    } else {
        Ok(None)
    };
    let target = match base {
        Err(e) => {
            return Err(e);
        },
        Ok(Some(x)) => Some(x),
        Ok(None) => tree.tabbed_wrap_target(o, d),
    };
    match target {
        None => Ok(()),
        Some(x) => {
            tree.set_focused_descendant(x, None);
            sync.queue_focus_change();
            sync.queue_cursor_jump();
            Ok(())
        },
    }
}


/// Focus that crosses to a neighbouring monitor moving in direction `d`
/// enters that monitor's workspace `w` from the edge it comes from: where
/// `w` lays out along `d`, moving right or down it enters at the first
/// tiling child, moving left or up at the last (descending into a split
/// found there); where `w` lays out across `d`, at its most recently
/// focused tiling child. With no tiling child, focus goes to `w` itself.
/// A focused fullscreen window takes focus first.
pub proof fn law_focus_enters_at_near_edge(t: &ContainerTree, w: usize, d: Direction)
    requires
        t.wf(),
        (w as int) < t.len(),
    ensures
        t.fo(w as int).len() > 0 && t.is_fullscreen(t.fo(w as int)[0] as int) ==> spec_workspace_focus_target(t, Some(w), d)
            == Some(t.fo(w as int)[0]),
        !(t.fo(w as int).len() > 0 && t.is_fullscreen(t.fo(w as int)[0] as int)) ==> {
            let near = if t.direction(w as int) != TilingDirection::spec_from_direction(d) {
                first_such(t.fo(w as int), wanted(*t, false))
            } else if d is Right || d is Down {
                first_such(t.ch(w as int), wanted(*t, false))
            } else {
                last_such(t.ch(w as int), wanted(*t, false))
            };
            match near {
                Some(x) => !t.is_split(x as int) ==> spec_workspace_focus_target(t, Some(w), d) == Some(x),
                None => spec_workspace_focus_target(t, Some(w), d) == Some(w),
            }
        },
{
    assert(t.len() > 0);
    assert(TilingDirection::spec_from_direction(d.spec_inverse()) == TilingDirection::spec_from_direction(d));
}

} // verus!
