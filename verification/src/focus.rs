//! Focus within the container tree: moving a container to the front of
//! its ancestors' focus orders, and finding containers along the parent
//! chain or in focus order.
//!
//! Walks over the tree are bounded by the number of containers in the
//! arena, which a chain of distinct containers never exceeds.
use vstd::prelude::*;

use crate::links::{lemma_insert_no_dup, lemma_remove_no_dup};
use crate::tabs::{copy_ids, vec_contains};
use crate::tree::{ContainerKind, ContainerTree};

verus! {

/// `s` with `x` moved to the front, or `s` itself where it lacks `x`.
pub open spec fn to_front(s: Seq<usize>, x: usize) -> Seq<usize> {
    if s.contains(x) {
        seq![x] + s.remove(s.index_of(x))
    } else {
        s
    }
}

/// The focus orders of all containers of a tree, by index.
pub open spec fn focus_orders(t: &ContainerTree) -> Seq<Seq<usize>> {
    Seq::new(t.len(), |i: int| t.fo(i))
}

/// `a` and `b` agree on everything but focus orders.
pub open spec fn same_but_focus(a: &ContainerTree, b: &ContainerTree) -> bool {
    &&& a.len() == b.len()
    &&& forall|i: int|
        0 <= i < a.len() ==> {
            &&& (#[trigger] a.nodes@[i]).kind == b.nodes@[i].kind
            &&& a.nodes@[i].parent == b.nodes@[i].parent
            &&& a.nodes@[i].children@ == b.nodes@[i].children@
            &&& a.nodes@[i].tiling_size == b.nodes@[i].tiling_size
            &&& a.nodes@[i].tiling_direction == b.nodes@[i].tiling_direction
        }
}

/// The focus orders after `c` is made the focused child of its parent,
/// then its parent of the grandparent, and so on up the chain for at most
/// `fuel` steps, stopping after `end` has been moved or at a container
/// without a parent.
pub open spec fn refocus(
    t: &ContainerTree,
    fos: Seq<Seq<usize>>,
    c: int,
    end: Option<usize>,
    fuel: nat,
) -> Seq<Seq<usize>>
    decreases fuel,
{
    if fuel == 0 {
        fos
    } else {
        match t.parent_of(c) {
            None => fos,
            Some(p) => {
                let moved = fos.update(p as int, to_front(fos[p as int], c as usize));
                if end == Some(c as usize) {
                    moved
                } else {
                    refocus(t, moved, p as int, end, (fuel - 1) as nat)
                }
            },
        }
    }
}

/// The nearest container among `c` and its ancestors that is a tabbed
/// container, looking at most `fuel` parents up.
pub open spec fn nearest_tabbed(t: &ContainerTree, c: int, fuel: nat) -> Option<usize>
    decreases fuel,
{
    if t.is_tabbed(c) {
        Some(c as usize)
    } else if fuel == 0 {
        None
    } else {
        match t.parent_of(c) {
            None => None,
            Some(p) => nearest_tabbed(t, p as int, (fuel - 1) as nat),
        }
    }
}

/// `stack` with the elements of `s` pushed last to first, so that the
/// first element of `s` ends on top.
pub open spec fn push_reversed(stack: Seq<usize>, s: Seq<usize>) -> Seq<usize> {
    stack + Seq::new(s.len(), |j: int| s[s.len() - 1 - j])
}

impl ContainerTree {
    pub open spec fn is_tiling_window(&self, i: int) -> bool {
        self.kind(i) is TilingWindow
    }

    /// The first tiling window in a depth-first walk in focus order, where
    /// `stack` holds the containers still to visit (top last) and `fuel`
    /// bounds the number of visits.
    pub open spec fn first_tiling_window(&self, stack: Seq<usize>, fuel: nat) -> Option<usize>
        decreases fuel,
    {
        if fuel == 0 || stack.len() == 0 {
            None
        } else {
            let x = stack.last();
            if self.is_tiling_window(x as int) {
                Some(x)
            } else {
                self.first_tiling_window(push_reversed(stack.drop_last(), self.fo(x as int)), (fuel - 1) as nat)
            }
        }
    }

    /// The tiling window that stands for `c`: `c` itself if it is one,
    /// else the first tiling window among its descendants in focus order.
    pub open spec fn spec_focused_tiling_window(&self, c: int) -> Option<usize> {
        if self.is_tiling_window(c) {
            Some(c as usize)
        } else {
            self.first_tiling_window(push_reversed(Seq::empty(), self.fo(c)), self.len())
        }
    }

    /// Whether a container is a tiling window.
    pub fn tiling_window(&self, i: usize) -> (r: bool)
        requires
            (i as int) < self.len(),
        ensures
            r == self.is_tiling_window(i as int),
    {
        match self.nodes[i].kind {
            ContainerKind::TilingWindow(_) => true,
            _ => false,
        }
    }

    /// Moves `c` to the front of the focus order of `p`, where `p` lists it.
    fn move_to_front(&mut self, p: usize, c: usize)
        requires
            old(self).wf(),
            (p as int) < old(self).len(),
        ensures
            final(self).wf(),
            same_but_focus(final(self), old(self)),
            final(self).fo(p as int) == to_front(old(self).fo(p as int), c),
            forall|i: int| 0 <= i < final(self).len() && i != p ==> #[trigger] final(self).fo(i) == old(self).fo(i),
    {
        let ghost old_t = *old(self);
        if !vec_contains(&self.nodes[p].focus_order, c) {
            return;
        }
        let k = self.focus_index_in(p, c);
        let mut fo = copy_ids(&self.nodes[p].focus_order);
        let x = fo.remove(k);
        fo.insert(0, x);
        self.nodes[p].focus_order = fo;
        proof {
            let s = old_t.fo(p as int);
            assert(old_t.node_wf(p as int));
            assert(s.index_of(c) == k as int) by {
                let j = s.index_of(c);
                assert(s.contains(c));
                assert(0 <= j < s.len() && s[j] == c);
            }
            assert(self.fo(p as int) =~= seq![c] + s.remove(k as int));
            lemma_remove_no_dup(s, k as int);
            lemma_insert_no_dup(s.remove(k as int), 0, c);
            assert(s.remove(k as int).insert(0, c) =~= seq![c] + s.remove(k as int));
            let t = *self;
            assert forall|i: int| 0 <= i < t.len() implies #[trigger] t.node_wf(i) by {
                assert(old_t.node_wf(i));
                assert(t.ch(i) == old_t.ch(i));
                assert(t.nodes@[i].parent == old_t.nodes@[i].parent);
                assert forall|q: int| 0 <= q < t.ch(i).len() implies t.valid(#[trigger] t.ch(i)[q] as int)
                    && t.parent_of(t.ch(i)[q] as int) == Some(i as usize) by {
                    let cq = t.ch(i)[q] as int;
                    assert(old_t.valid(cq));
                    assert(t.nodes@[cq].parent == old_t.nodes@[cq].parent);
                }
                match t.parent_of(i) {
                    Some(pp) => {
                        assert(old_t.valid(pp as int));
                        assert(t.ch(pp as int) == old_t.ch(pp as int));
                    },
                    None => {},
                }
                if i == p {
                    let f = t.fo(i);
                    assert forall|q: int| 0 <= q < f.len() implies t.ch(i).contains(#[trigger] f[q]) by {
                        if q == 0 {
                            assert(s.contains(c));
                        } else {
                            assert(s.remove(k as int).contains(f[q])) by {
                                assert(f[q] == s.remove(k as int)[q - 1]);
                            }
                        }
                    }
                }
            }
        }
    }

    /// Makes `c` the focused container of its ancestors: it moves to the
    /// front of its parent's focus order, its parent to the front of the
    /// grandparent's, and so on to the root, or until `end` has been moved.
    pub fn set_focused_descendant(&mut self, c: usize, end: Option<usize>)
        requires
            old(self).wf(),
            (c as int) < old(self).len(),
        ensures
            final(self).wf(),
            same_but_focus(final(self), old(self)),
            focus_orders(final(self)) == refocus(old(self), focus_orders(old(self)), c as int, end, old(self).len()),
    {
        let ghost old_t = *old(self);
        let n = self.nodes.len();
        let mut target = c;
        let mut fuel = n;
        while fuel > 0
            invariant
                self.wf(),
                old_t.wf(),
                old_t == *old(self),
                same_but_focus(self, &old_t),
                (target as int) < self.len(),
                fuel <= n,
                n == old_t.len(),
                refocus(&old_t, focus_orders(self), target as int, end, fuel as nat) == refocus(
                    &old_t,
                    focus_orders(&old_t),
                    c as int,
                    end,
                    n as nat,
                ),
            decreases fuel,
        {
            let parent = self.nodes[target].parent;
            match parent {
                None => {
                    proof {
                        assert(old_t.parent_of(target as int) is None);
                    }
                    return;
                },
                Some(p) => {
                    proof {
                        assert(self.node_wf(target as int));
                        assert(old_t.parent_of(target as int) == Some(p));
                    }
                    let ghost before = *self;
                    self.move_to_front(p, target);
                    proof {
                        let fb = focus_orders(&before);
                        let fa = focus_orders(self);
                        assert(fa =~= fb.update(p as int, to_front(fb[p as int], target)));
                        assert forall|i: int| 0 <= i < self.len() implies {
                            &&& (#[trigger] self.nodes@[i]).kind == old_t.nodes@[i].kind
                            &&& self.nodes@[i].parent == old_t.nodes@[i].parent
                            &&& self.nodes@[i].children@ == old_t.nodes@[i].children@
                            &&& self.nodes@[i].tiling_size == old_t.nodes@[i].tiling_size
                            &&& self.nodes@[i].tiling_direction == old_t.nodes@[i].tiling_direction
                        } by {
                            assert(self.nodes@[i].kind == before.nodes@[i].kind);
                            assert(before.nodes@[i].kind == old_t.nodes@[i].kind);
                        }
                    }
                    if end == Some(target) {
                        return;
                    }
                    target = p;
                    fuel = fuel - 1;
                },
            }
        }
    }

    /// The nearest tabbed container among `c` and its ancestors.
    pub fn nearest_tabbed_parent(&self, c: usize) -> (r: Option<usize>)
        requires
            self.wf(),
            (c as int) < self.len(),
        ensures
            r == nearest_tabbed(self, c as int, self.len()),
            r matches Some(x) ==> (x as int) < self.len() && self.is_tabbed(x as int),
    {
        let n = self.nodes.len();
        let mut cur = c;
        let mut fuel = n;
        while !self.tabbed(cur) && fuel > 0
            invariant
                self.wf(),
                (cur as int) < self.len(),
                fuel <= n,
                n == self.len(),
                nearest_tabbed(self, cur as int, fuel as nat) == nearest_tabbed(self, c as int, n as nat),
            decreases fuel,
        {
            match self.nodes[cur].parent {
                None => {
                    return None;
                },
                Some(p) => {
                    proof {
                        assert(self.node_wf(cur as int));
                    }
                    cur = p;
                    fuel = fuel - 1;
                },
            }
        }
        if self.tabbed(cur) {
            Some(cur)
        } else {
            None
        }
    }

    /// The tiling window that stands for `c`: `c` itself if it is a tiling
    /// window, else the first tiling window among its descendants, walked
    /// depth first in focus order.
    pub fn focused_tiling_window(&self, c: usize) -> (r: Option<usize>)
        requires
            self.wf(),
            (c as int) < self.len(),
        ensures
            r == self.spec_focused_tiling_window(c as int),
            r matches Some(x) ==> (x as int) < self.len() && self.is_tiling_window(x as int),
    {
        if self.tiling_window(c) {
            return Some(c);
        }
        let mut stack: Vec<usize> = Vec::new();
        self.push_focus_reversed(&mut stack, c);
        proof {
            assert(stack@ =~= push_reversed(Seq::empty(), self.fo(c as int)));
        }
        let n = self.nodes.len();
        let mut fuel = n;
        while fuel > 0 && stack.len() > 0
            invariant
                self.wf(),
                (c as int) < self.len(),
                !self.is_tiling_window(c as int),
                fuel <= n,
                n == self.len(),
                forall|j: int| 0 <= j < stack@.len() ==> (#[trigger] stack@[j] as int) < self.len(),
                self.first_tiling_window(stack@, fuel as nat) == self.first_tiling_window(
                    push_reversed(Seq::empty(), self.fo(c as int)),
                    n as nat,
                ),
            decreases fuel,
        {
            let ghost before = stack@;
            let x = stack.pop().unwrap();
            proof {
                assert(x == before.last());
                assert(stack@ =~= before.drop_last());
            }
            if self.tiling_window(x) {
                proof {
                    assert(self.first_tiling_window(before, fuel as nat) == Some(x));
                }
                return Some(x);
            }
            self.push_focus_reversed(&mut stack, x);
            fuel = fuel - 1;
        }
        proof {
            assert(self.first_tiling_window(stack@, fuel as nat) is None);
        }
        None
    }

    /// Pushes the focus order of `x` onto `stack`, last to first.
    fn push_focus_reversed(&self, stack: &mut Vec<usize>, x: usize)
        requires
            self.wf(),
            (x as int) < self.len(),
            forall|j: int| 0 <= j < old(stack)@.len() ==> (#[trigger] old(stack)@[j] as int) < self.len(),
        ensures
            final(stack)@ == push_reversed(old(stack)@, self.fo(x as int)),
            forall|j: int| 0 <= j < final(stack)@.len() ==> (#[trigger] final(stack)@[j] as int) < self.len(),
    {
        let ghost s = self.fo(x as int);
        let ghost base = old(stack)@;
        proof {
            assert(self.node_wf(x as int));
        }
        let len = self.nodes[x].focus_order.len();
        let mut j: usize = 0;
        while j < len
            invariant
                self.wf(),
                (x as int) < self.len(),
                s == self.fo(x as int),
                len == s.len(),
                j <= len,
                stack@ == base + Seq::new(j as nat, |q: int| s[s.len() - 1 - q]),
                forall|q: int| 0 <= q < base.len() ==> (#[trigger] base[q] as int) < self.len(),
            decreases len - j,
        {
            let y = self.nodes[x].focus_order[len - 1 - j];
            stack.push(y);
            j = j + 1;
            proof {
                assert(stack@ =~= base + Seq::new(j as nat, |q: int| s[s.len() - 1 - q]));
            }
        }
        proof {
            assert(Seq::new(len as nat, |q: int| s[s.len() - 1 - q]) =~= Seq::new(s.len(), |q: int| s[s.len() - 1 - q]));
            assert forall|q: int| 0 <= q < stack@.len() implies (#[trigger] stack@[q] as int) < self.len() by {
                if q >= base.len() {
                    let r = s.len() - 1 - (q - base.len());
                    assert(self.ch(x as int).contains(s[r]));
                    let m = choose|m: int| 0 <= m < self.ch(x as int).len() && self.ch(x as int)[m] == s[r];
                    assert(self.valid(self.ch(x as int)[m] as int));
                }
            }
        }
    }

    /// The container that focus goes to within `c`: its most recently
    /// focused child, or `c` itself where it has no children.
    pub fn first_focused_or_self(&self, c: usize) -> (r: usize)
        requires
            self.wf(),
            (c as int) < self.len(),
        ensures
            self.fo(c as int).len() > 0 ==> r == self.fo(c as int)[0],
            self.fo(c as int).len() == 0 ==> r == c,
            (r as int) < self.len(),
    {
        if self.nodes[c].focus_order.len() > 0 {
            proof {
                assert(self.node_wf(c as int));
                assert(self.ch(c as int).contains(self.fo(c as int)[0]));
            }
            self.nodes[c].focus_order[0]
        } else {
            c
        }
    }
}

/// Whether `c` shows in every tabbed container above it: in each, the
/// child that leads to `c` is the active tab (first in focus order),
/// looking at most `fuel` parents up.
pub open spec fn active_tab_path(t: &ContainerTree, c: int, fuel: nat) -> bool
    decreases fuel,
{
    if fuel == 0 {
        true
    } else {
        match t.parent_of(c) {
            None => true,
            Some(p) => (!t.is_tabbed(p as int) || (t.fo(p as int).len() > 0 && t.fo(p as int)[0] == c as usize))
                && active_tab_path(t, p as int, (fuel - 1) as nat),
        }
    }
}

impl ContainerTree {
    /// The active tab of tabbed container `tb`: the first of its focus
    /// order.
    pub fn active_child(&self, tb: usize) -> (r: Option<usize>)
        requires
            (tb as int) < self.len(),
        ensures
            r == (if self.fo(tb as int).len() > 0 {
                Some(self.fo(tb as int)[0])
            } else {
                None
            }),
    {
        if self.nodes[tb].focus_order.len() > 0 {
            Some(self.nodes[tb].focus_order[0])
        } else {
            None
        }
    }

    /// Whether `c` shows in every tabbed container above it (see
    /// `active_tab_path`).
    pub fn is_active_tab_descendant(&self, c: usize) -> (r: bool)
        requires
            self.wf(),
            (c as int) < self.len(),
        ensures
            r == active_tab_path(self, c as int, self.len()),
    {
        let n = self.nodes.len();
        let mut cur = c;
        let mut fuel = n;
        while fuel > 0
            invariant
                self.wf(),
                (cur as int) < self.len(),
                fuel <= n,
                n == self.len(),
                active_tab_path(self, c as int, n as nat) == active_tab_path(self, cur as int, fuel as nat),
            decreases fuel,
        {
            let p = match self.nodes[cur].parent {
                None => {
                    return true;
                },
                Some(p) => p,
            };
            proof {
                assert(self.node_wf(cur as int));
            }
            if self.tabbed(p) {
                match self.active_child(p) {
                    Some(a) => {
                        if a != cur {
                            return false;
                        }
                    },
                    None => {
                        return false;
                    },
                }
            }
            cur = p;
            fuel = fuel - 1;
        }
        true
    }
}

} // verus!
