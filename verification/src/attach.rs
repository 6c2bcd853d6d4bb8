//! Attaching containers to the tree and detaching them from it.
use vstd::prelude::*;

use crate::links::{removed_from, same_content};
use crate::sizes::{
    lemma_count_nonneg,
    lemma_same_but_sizes_trans, lemma_sum_same_nodes, same_but_sizes, size_after_addition,
    size_after_removal, tiling_avail, tiling_count, tiling_sum, clamp_size,
};
use crate::tree::{kind_is_tiling, ContainerTree, Node, MAX_TILING_SIZE, MIN_TILING_SIZE, SIZE_ONE};

verus! {

/// Why an operation on the container tree was refused.
#[derive(Clone, Copy, Debug, PartialEq, Eq, Structural)]
pub enum TreeError {
    /// The container has no parent.
    NoParent,
    /// The container is already attached to a parent.
    AlreadyAttached,
    /// A tabbed container needs at least one child.
    EmptyTabs,
    /// The tabbed container to fill must be empty and detached.
    TabbedNotEmpty,
    /// The tab children must all be tiling children of the target parent.
    InvalidTabChildren,
    /// The tab children must have a positive total tiling size.
    NoTabSize,
    /// The container has no workspace.
    NoWorkspace,
    /// The container has no monitor.
    NoMonitor,
    /// The container has no split or workspace among its ancestors.
    NoDirectionContainer,
    /// The window's parent is not a tabbed container.
    NoTabbedParent,
    /// The requested side area does not exist on the monitor.
    NoSideArea,
    /// Side areas do not apply to the monitor: no entry of the side
    /// areas' monitor conditions matches it.
    SideAreaNotMatched,
    /// The side area is turned off by a width that is not positive.
    SideAreaDisabled,
    /// The side area is configured but the monitor does not have it yet.
    SideAreaUnavailable,
    /// The window is not in the expected state.
    InvalidWindowState,
    /// The container is its own ancestor.
    Cycle,
    /// No other monitor can take the workspaces of a removed one.
    NoTargetMonitor,
}

/// Number of nodes that have a parent.
pub open spec fn attached_count(nodes: Seq<Node>) -> nat
    decreases nodes.len(),
{
    if nodes.len() == 0 {
        0
    } else {
        attached_count(nodes.drop_last()) + if nodes.last().parent is Some {
            1nat
        } else {
            0nat
        }
    }
}

/// Node sequences whose nodes have parents at the same positions have the
/// same number of attached nodes.
proof fn lemma_attached_count_eq(a: Seq<Node>, b: Seq<Node>)
    requires
        a.len() == b.len(),
        forall|i: int| 0 <= i < a.len() ==> (#[trigger] a[i].parent is Some) == (b[i].parent is Some),
    ensures
        attached_count(a) == attached_count(b),
    decreases a.len(),
{
    if a.len() > 0 {
        let da = a.drop_last();
        let db = b.drop_last();
        assert forall|i: int| 0 <= i < da.len() implies (#[trigger] da[i].parent is Some) == (
        db[i].parent is Some) by {
            assert(da[i] == a[i]);
            assert(db[i] == b[i]);
        }
        lemma_attached_count_eq(da, db);
        assert(a.last().parent is Some == b.last().parent is Some) by {
            assert(a[a.len() - 1].parent is Some == b[b.len() - 1].parent is Some);
        }
    }
}

/// Taking the parent of one node away lowers the count by one.
proof fn lemma_attached_count_drop(a: Seq<Node>, b: Seq<Node>, x: int)
    requires
        a.len() == b.len(),
        0 <= x < a.len(),
        a[x].parent is Some,
        b[x].parent is None,
        forall|i: int|
            0 <= i < a.len() && i != x ==> (#[trigger] a[i].parent is Some) == (b[i].parent is Some),
    ensures
        attached_count(b) + 1 == attached_count(a),
    decreases a.len(),
{
    let da = a.drop_last();
    let db = b.drop_last();
    if x == a.len() - 1 {
        assert forall|i: int| 0 <= i < da.len() implies (#[trigger] da[i].parent is Some) == (
        db[i].parent is Some) by {
            assert(da[i] == a[i]);
            assert(db[i] == b[i]);
        }
        lemma_attached_count_eq(da, db);
    } else {
        assert forall|i: int| 0 <= i < da.len() && i != x implies (#[trigger] da[i].parent is Some)
            == (db[i].parent is Some) by {
            assert(da[i] == a[i]);
            assert(db[i] == b[i]);
        }
        assert(da[x] == a[x]);
        assert(db[x] == b[x]);
        lemma_attached_count_drop(da, db, x);
        assert(a.last().parent is Some == b.last().parent is Some) by {
            assert(a[a.len() - 1].parent is Some == b[b.len() - 1].parent is Some);
        }
    }
}

/// Whether `i` is an emptied layout container that has no parent.
pub open spec fn emptied_layout(t: &ContainerTree, i: int) -> bool {
    &&& t.parent_of(i) is None
    &&& t.ch(i).len() == 0
    &&& (t.is_split(i) || t.is_tabbed(i))
}

/// The edits of a cascade of detachments: links change only where an
/// emptied layout container left its parent, and sizes only among the
/// children of a parent that lost a child.
pub open spec fn cascade_edits(old: &ContainerTree, new: &ContainerTree) -> bool {
    &&& new.len() == old.len()
    &&& forall|i: int|
        0 <= i < new.len() ==> (#[trigger] new.nodes@[i]).kind == old.nodes@[i].kind
            && new.nodes@[i].tiling_direction == old.nodes@[i].tiling_direction
    &&& forall|i: int|
        0 <= i < new.len() ==> #[trigger] new.parent_of(i) == old.parent_of(i) || (emptied_layout(
            new,
            i,
        ) && old.parent_of(i) is Some)
    &&& forall|i: int|
        0 <= i < new.len() ==> #[trigger] new.ch(i) == old.ch(i) || exists|x: usize|
            removed_from(old.ch(i), new.ch(i), x) && removed_from(old.fo(i), new.fo(i), x)
                && old.parent_of(x as int) == Some(i as usize) && new.parent_of(x as int) is None
    &&& forall|i: int| 0 <= i < new.len() && new.ch(i) == old.ch(i) ==> #[trigger] new.fo(i) == old.fo(i)
    &&& forall|i: int|
        0 <= i < new.len() ==> #[trigger] new.size(i) == old.size(i) || (old.parent_of(i) is Some
            && new.ch(old.parent_of(i).unwrap() as int) != old.ch(old.parent_of(i).unwrap() as int))
}

/// The tiling children that `g` has in `new` took their sizes as a
/// removal of `c`, of size `old.size(c)`, from `g` returns it
/// (`size_after_removal`), over the sizes they had in `old`.
pub open spec fn sizes_returned(old: &ContainerTree, new: &ContainerTree, c: int, g: int) -> bool {
    forall|k: int|
        0 <= k < new.ch(g).len() && old.is_tiling(new.ch(g)[k] as int) ==> #[trigger] new.size(new.ch(g)[k] as int)
            == size_after_removal(
            old.is_tabbed(g),
            old.size(new.ch(g)[k] as int) as int,
            old.size(c) as int,
            tiling_avail(old.nodes@, new.ch(g)),
            tiling_sum(old.nodes@, new.ch(g)),
            tiling_count(old.nodes@, new.ch(g)),
        )
}

/// Whether a container is an attached, empty layout container, which a
/// detachment does not leave behind.
pub open spec fn removable_layout(t: &ContainerTree, i: int) -> bool {
    &&& t.parent_of(i) is Some
    &&& t.ch(i).len() == 0
    &&& (t.is_split(i) || t.is_tabbed(i))
}

impl ContainerTree {
    /// Detaches `start` if it is an attached, empty split or tabbed
    /// container, then its parent if that is left an empty split or tabbed
    /// container, and so on. Each detachment returns the detached size to
    /// its siblings as `redistribute_after_removal` does.
    fn detach_emptied_ancestors(&mut self, start: usize)
        requires
            old(self).wf(),
            (start as int) < old(self).len(),
        ensures
            final(self).wf(),
            cascade_edits(old(self), final(self)),
            !removable_layout(old(self), start as int) ==> final(self).nodes@ == old(self).nodes@,
            removable_layout(old(self), start as int) ==> final(self).parent_of(start as int) is None,
            removable_layout(old(self), start as int) ==> (old(self).parent_of(start as int) matches Some(g) ==> sizes_returned(
                old(self),
                final(self),
                start as int,
                g as int,
            )),
    {
        let ghost old_t = *old(self);
        let ghost mut changed = false;
        let mut cur = start;
        loop
            invariant
                self.wf(),
                old_t.wf(),
                (cur as int) < self.len(),
                (start as int) < self.len(),
                cascade_edits(&old_t, self),
                !changed ==> self.nodes@ == old_t.nodes@ && cur == start,
                changed ==> removable_layout(&old_t, start as int),
                changed ==> self.parent_of(start as int) is None,
                forall|i: int|
                    0 <= i < self.len() && #[trigger] self.ch(i) != old_t.ch(i) ==> self.ch(i).len()
                        == 0 || i == cur,
                changed ==> (old_t.parent_of(start as int) matches Some(g0) ==> ((cur == g0 && sizes_returned(
                    &old_t,
                    self,
                    start as int,
                    g0 as int,
                )) || self.ch(g0 as int).len() == 0)),
            ensures
                self.wf(),
                cascade_edits(&old_t, self),
                !changed ==> self.nodes@ == old_t.nodes@,
                !changed ==> !removable_layout(&old_t, start as int),
                changed ==> removable_layout(&old_t, start as int),
                changed ==> self.parent_of(start as int) is None,
                changed ==> (old_t.parent_of(start as int) matches Some(g0) ==> sizes_returned(
                    &old_t,
                    self,
                    start as int,
                    g0 as int,
                )),
            decreases attached_count(self.nodes@),
        {
            let is_layout = self.split(cur) || self.tabbed(cur);
            if !(self.nodes[cur].parent.is_some() && self.nodes[cur].children.len() == 0
                && is_layout) {
                break;
            }
            let ghost before = *self;
            let size = self.nodes[cur].tiling_size;
            proof {
                assert(self.node_wf(cur as int));
            }
            let gp = self.unlink(cur);
            let ghost mid = *self;
            proof {
                assert(before.node_wf(gp as int));
                assert(before.ch(gp as int).contains(cur));
                // The parent still holds its children as they were.
                assert(before.ch(gp as int) == old_t.ch(gp as int)) by {
                    if before.ch(gp as int) != old_t.ch(gp as int) {
                        if gp != cur {
                            assert(before.ch(gp as int).len() == 0);
                        } else {
                            assert(before.ch(cur as int).len() == 0);
                        }
                    }
                }
                assert(before.fo(gp as int) == old_t.fo(gp as int));
                assert forall|i: int| 0 <= i < before.nodes@.len() && i != cur as int implies (
                #[trigger] before.nodes@[i].parent is Some) == (mid.nodes@[i].parent is Some) by {
                    assert(mid.parent_of(i) == before.parent_of(i));
                }
                lemma_attached_count_drop(before.nodes@, mid.nodes@, cur as int);
                if !changed {
                    assert(removable_layout(&old_t, start as int));
                }
            }
            self.redistribute_after_removal(gp, size);
            proof {
                let t = *self;
                assert forall|i: int| 0 <= i < t.len() implies #[trigger] t.nodes@[i].parent
                    == mid.nodes@[i].parent && t.ch(i) == mid.ch(i) && t.fo(i) == mid.fo(i) by {
                    assert(t.nodes@[i].kind == mid.nodes@[i].kind);
                }
                lemma_attached_count_eq(mid.nodes@, t.nodes@);
                assert(t.parent_of(cur as int) is None);
                assert(before.parent_of(cur as int) == Some(gp));
                assert(old_t.parent_of(cur as int) == Some(gp));
                // Links: only `cur` lost its parent, and only `gp` lost a child.
                assert forall|i: int| 0 <= i < t.len() implies #[trigger] t.parent_of(i)
                    == old_t.parent_of(i) || (emptied_layout(&t, i) && old_t.parent_of(i) is Some) by {
                    if i != cur as int {
                        assert(t.nodes@[i].parent == mid.nodes@[i].parent);
                        assert(mid.parent_of(i) == before.parent_of(i));
                        assert(t.parent_of(i) == before.parent_of(i));
                        assert(t.ch(i) == mid.ch(i));
                        if before.parent_of(i) != old_t.parent_of(i) {
                            assert(emptied_layout(&before, i));
                            if i == gp as int {
                                assert(before.ch(gp as int).contains(cur));
                            }
                        }
                    } else {
                        assert(t.ch(i) == before.ch(i)) by {
                            if gp == cur {
                                assert(before.ch(cur as int).contains(cur));
                            }
                        }
                    }
                }
                assert forall|i: int| 0 <= i < t.len() implies #[trigger] t.ch(i) == old_t.ch(i)
                    || exists|x: usize|
                    removed_from(old_t.ch(i), t.ch(i), x) && removed_from(old_t.fo(i), t.fo(i), x)
                        && old_t.parent_of(x as int) == Some(i as usize) && t.parent_of(x as int)
                        is None by {
                    assert(t.ch(i) == mid.ch(i));
                    assert(t.fo(i) == mid.fo(i));
                    if i == gp as int {
                        assert(removed_from(old_t.ch(i), t.ch(i), cur));
                        assert(removed_from(old_t.fo(i), t.fo(i), cur));
                    } else {
                        assert(mid.ch(i) == before.ch(i));
                        assert(mid.fo(i) == before.fo(i));
                        if before.ch(i) != old_t.ch(i) {
                            let x = choose|x: usize|
                                removed_from(old_t.ch(i), before.ch(i), x) && removed_from(
                                    old_t.fo(i),
                                    before.fo(i),
                                    x,
                                ) && old_t.parent_of(x as int) == Some(i as usize)
                                    && before.parent_of(x as int) is None;
                            assert(t.parent_of(x as int) is None) by {
                                if x != cur {
                                    assert(0 <= x < t.len()) by {
                                        assert(old_t.node_wf(i));
                                        let (k) = choose|k: int| 0 <= k < old_t.ch(i).len() && old_t.ch(i)[k] == x && before.ch(i) == old_t.ch(i).remove(k);
                                        assert(old_t.ch(i)[k] == x);
                                    }
                                    assert(t.nodes@[x as int].parent == mid.nodes@[x as int].parent);
                                    assert(mid.parent_of(x as int) == before.parent_of(x as int));
                                    assert(t.parent_of(x as int) == before.parent_of(x as int));
                                }
                            }
                        }
                    }
                }
                assert forall|i: int| 0 <= i < t.len() && t.ch(i) == old_t.ch(i) implies #[trigger] t.fo(
                    i,
                ) == old_t.fo(i) by {
                    assert(t.ch(i) == mid.ch(i));
                    assert(t.fo(i) == mid.fo(i));
                    if i == gp as int {
                        assert(t.ch(i).len() + 1 == old_t.ch(i).len());
                    } else {
                        assert(mid.ch(i) == before.ch(i));
                        assert(mid.fo(i) == before.fo(i));
                    }
                }
                assert forall|i: int| 0 <= i < t.len() implies #[trigger] t.size(i) == old_t.size(i)
                    || (old_t.parent_of(i) is Some && t.ch(old_t.parent_of(i).unwrap() as int)
                    != old_t.ch(old_t.parent_of(i).unwrap() as int)) by {
                    assert(mid.size(i) == before.size(i));
                    if t.size(i) != mid.size(i) {
                        assert(mid.ch(gp as int).contains(i as usize) && mid.is_tiling(i));
                        assert(mid.node_wf(gp as int));
                        let k = choose|k: int| 0 <= k < mid.ch(gp as int).len() && mid.ch(gp as int)[k] == i as usize;
                        assert(mid.parent_of(i) == Some(gp));
                        assert(old_t.parent_of(i) == Some(gp)) by {
                            if i != cur as int {
                                assert(mid.parent_of(i) == before.parent_of(i));
                            }
                        }
                        assert(t.ch(gp as int).len() + 1 == old_t.ch(gp as int).len());
                    } else if before.size(i) != old_t.size(i) {
                        let q = old_t.parent_of(i).unwrap();
                        assert(old_t.node_wf(i));
                        assert(old_t.valid(q as int));
                        if t.ch(q as int) == old_t.ch(q as int) {
                            assert(t.ch(q as int) == mid.ch(q as int));
                            if q == gp {
                                assert(t.ch(gp as int).len() + 1 == old_t.ch(gp as int).len());
                            } else {
                                assert(mid.ch(q as int) == before.ch(q as int));
                            }
                        }
                    }
                }
                assert forall|i: int| 0 <= i < t.len() && #[trigger] t.ch(i) != old_t.ch(i) implies t.ch(
                    i,
                ).len() == 0 || i == gp as int by {
                    assert(t.ch(i) == mid.ch(i));
                    if i != gp as int {
                        assert(mid.ch(i) == before.ch(i));
                    }
                }
                assert forall|i: int| 0 <= i < t.len() implies (#[trigger] t.nodes@[i]).kind
                    == old_t.nodes@[i].kind && t.nodes@[i].tiling_direction
                    == old_t.nodes@[i].tiling_direction by {
                    assert(same_content(mid.nodes@[i], before.nodes@[i]));
                }
            }
            proof {
                let t = *self;
                let g0 = old_t.parent_of(start as int).unwrap();
                if !changed {
                    assert(cur == start);
                    assert(gp == g0);
                    assert(t.ch(gp as int) == mid.ch(gp as int));
                    assert forall|m: int| 0 <= m < mid.ch(gp as int).len() implies (
                    #[trigger] mid.nodes@[mid.ch(gp as int)[m] as int]).kind == old_t.nodes@[mid.ch(gp as int)[m] as int].kind
                        && mid.nodes@[mid.ch(gp as int)[m] as int].tiling_size
                        == old_t.nodes@[mid.ch(gp as int)[m] as int].tiling_size by {
                        assert(mid.node_wf(gp as int));
                        assert(mid.valid(mid.ch(gp as int)[m] as int));
                        assert(same_content(mid.nodes@[mid.ch(gp as int)[m] as int], before.nodes@[mid.ch(gp as int)[m] as int]));
                    }
                    lemma_sum_same_nodes(mid.nodes@, old_t.nodes@, mid.ch(gp as int));
                    assert(same_content(mid.nodes@[gp as int], before.nodes@[gp as int]));
                    assert forall|k: int|
                        0 <= k < t.ch(gp as int).len() && old_t.is_tiling(t.ch(gp as int)[k] as int) implies #[trigger] t.size(
                        t.ch(gp as int)[k] as int,
                    ) == size_after_removal(
                        old_t.is_tabbed(gp as int),
                        old_t.size(t.ch(gp as int)[k] as int) as int,
                        old_t.size(start as int) as int,
                        tiling_avail(old_t.nodes@, t.ch(gp as int)),
                        tiling_sum(old_t.nodes@, t.ch(gp as int)),
                        tiling_count(old_t.nodes@, t.ch(gp as int)),
                    ) by {
                        let x = t.ch(gp as int)[k];
                        assert(mid.ch(gp as int)[k] == x);
                        assert(mid.node_wf(gp as int));
                        assert(mid.valid(x as int));
                        assert(same_content(mid.nodes@[x as int], before.nodes@[x as int]));
                    }
                    assert(sizes_returned(&old_t, &t, start as int, g0 as int));
                } else {
                    assert(old_t.node_wf(start as int));
                    assert(before.ch(g0 as int).len() == 0) by {
                        if before.ch(g0 as int).len() != 0 {
                            assert(cur == g0);
                        }
                    }
                    assert(gp != g0) by {
                        assert(before.ch(gp as int).contains(cur));
                    }
                    assert(mid.ch(g0 as int) == before.ch(g0 as int));
                    assert(t.nodes@[g0 as int].children@ == mid.nodes@[g0 as int].children@) by {
                        assert(t.nodes@[g0 as int].kind == mid.nodes@[g0 as int].kind);
                    }
                    assert(t.ch(g0 as int) == mid.ch(g0 as int));
                    assert(t.ch(g0 as int).len() == 0);
                }
            }
            proof {
                if changed {
                    assert(cur != start) by {
                        assert(before.parent_of(cur as int) is Some);
                    }
                    assert(self.nodes@[start as int].parent == mid.nodes@[start as int].parent);
                    assert(mid.parent_of(start as int) == before.parent_of(start as int));
                }
                changed = true;
            }
            cur = gp;
        }
    }
}


/// Counting over a concatenation adds the counts.
pub proof fn lemma_count_concat(nodes: Seq<Node>, a: Seq<usize>, b: Seq<usize>)
    ensures
        tiling_count(nodes, a + b) == tiling_count(nodes, a) + tiling_count(nodes, b),
        tiling_sum(nodes, a + b) == tiling_sum(nodes, a) + tiling_sum(nodes, b),
    decreases b.len(),
{
    if b.len() > 0 {
        lemma_count_concat(nodes, a, b.drop_last());
        assert((a + b).drop_last() =~= a + b.drop_last());
        assert((a + b).last() == b.last());
    } else {
        assert(a + b =~= a);
    }
}

/// Counting after an insertion adds the inserted element's share.
pub proof fn lemma_count_insert(nodes: Seq<Node>, s: Seq<usize>, i: int, x: usize)
    requires
        0 <= i <= s.len(),
    ensures
        tiling_count(nodes, s.insert(i, x)) == tiling_count(nodes, s) + if kind_is_tiling(
            nodes[x as int].kind,
        ) {
            1int
        } else {
            0int
        },
{
    let a = s.take(i);
    let b = s.skip(i);
    assert(s =~= a + b);
    assert(s.insert(i, x) =~= (a + seq![x]) + b);
    lemma_count_concat(nodes, a, b);
    lemma_count_concat(nodes, a + seq![x], b);
    lemma_count_concat(nodes, a, seq![x]);
    assert(seq![x].drop_last() =~= Seq::<usize>::empty());
    assert(seq![x].last() == x);
    assert(tiling_count(nodes, Seq::<usize>::empty()) == 0);
    assert(tiling_count(nodes, seq![x]) == if kind_is_tiling(nodes[x as int].kind) {
        1int
    } else {
        0int
    });
}

/// What attaching `c` to `p` at `index` leaves, for each result `r`.
pub open spec fn attach_outcome(old: &ContainerTree, new: &ContainerTree, c: int, p: int, index: Option<usize>, r: Result<(), TreeError>) -> bool {
    &&& new.wf()
    &&& new.len() == old.len()
    &&& old.parent_of(c) is Some ==> r == Err::<(), TreeError>(TreeError::AlreadyAttached) && new.nodes@ == old.nodes@
    &&& old.parent_of(c) is None ==> r is Ok
    &&& old.parent_of(c) is None ==> new.parent_of(c) == Some(p as usize)
    &&& old.parent_of(c) is None ==> new.ch(p) == old.ch(p).insert(
        match index {
            Some(i) => i as int,
            None => old.ch(p).len() as int,
        },
        c as usize,
    )
    &&& old.parent_of(c) is None ==> new.fo(p) == old.fo(p).push(c as usize)
    &&& old.parent_of(c) is None && old.is_tiling(c) ==> new.size(c) == (if tiling_count(old.nodes@, old.ch(p)) == 0 {
        SIZE_ONE
    } else {
        clamp_size(SIZE_ONE as int / (tiling_count(old.nodes@, old.ch(p)) + 1))
    })
    &&& old.parent_of(c) is None && old.is_tiling(c) ==> forall|k: int|
        0 <= k < old.ch(p).len() && old.is_tiling(old.ch(p)[k] as int) ==> #[trigger] new.size(old.ch(p)[k] as int)
            == size_after_addition(old.size(old.ch(p)[k] as int) as int, tiling_count(old.nodes@, old.ch(p)))
    &&& forall|i: int| 0 <= i < new.len() && i != c ==> #[trigger] new.parent_of(i) == old.parent_of(i)
    &&& forall|i: int|
        0 <= i < new.len() && i != p ==> #[trigger] new.ch(i) == old.ch(i) && new.fo(i) == old.fo(i)
    &&& forall|i: int| 0 <= i < new.len() ==> (#[trigger] new.nodes@[i]).kind == old.nodes@[i].kind
        && new.nodes@[i].tiling_direction == old.nodes@[i].tiling_direction
    &&& forall|i: int|
        0 <= i < new.len() && !(old.is_tiling(c) && (i == c || old.ch(p).contains(i as usize) && old.is_tiling(i)))
            ==> #[trigger] new.size(i) == old.size(i)
}

/// What detaching `c` leaves, for each result `r`.
pub open spec fn detach_outcome(old: &ContainerTree, new: &ContainerTree, c: int, r: Result<(), TreeError>) -> bool {
    &&& new.wf()
    &&& new.len() == old.len()
    &&& old.parent_of(c) is None ==> r == Err::<(), TreeError>(TreeError::NoParent) && new.nodes@ == old.nodes@
    &&& old.parent_of(c) is Some ==> r is Ok
    &&& old.parent_of(c) is Some ==> new.parent_of(c) is None
    &&& old.parent_of(c) matches Some(p) ==> removed_from(old.ch(p as int), new.ch(p as int), c as usize) && removed_from(
        old.fo(p as int),
        new.fo(p as int),
        c as usize,
    )
    &&& old.parent_of(c) matches Some(p) ==> (old.is_tiling(c) ==> forall|k: int|
        0 <= k < new.ch(p as int).len() && old.is_tiling(new.ch(p as int)[k] as int) ==> #[trigger] new.size(
            new.ch(p as int)[k] as int,
        ) == size_after_removal(
            old.is_tabbed(p as int),
            old.size(new.ch(p as int)[k] as int) as int,
            old.size(c) as int,
            tiling_avail(old.nodes@, new.ch(p as int)),
            tiling_sum(old.nodes@, new.ch(p as int)),
            tiling_count(old.nodes@, new.ch(p as int)),
        ))
    &&& old.parent_of(c) matches Some(p) ==> !removable_layout(new, p as int)
    &&& old.parent_of(c) matches Some(p) ==> ((old.is_split(p as int) || old.is_tabbed(p as int)) && old.ch(p as int).len() == 1
        ==> (old.parent_of(p as int) matches Some(g) ==> (g != p ==> new.parent_of(p as int) is None && sizes_returned(
        old,
        new,
        p as int,
        g as int,
    ))))
    &&& forall|i: int| 0 <= i < new.len() ==> (#[trigger] new.nodes@[i]).kind == old.nodes@[i].kind
    &&& forall|i: int|
        0 <= i < new.len() && i != c ==> #[trigger] new.parent_of(i) == old.parent_of(i) || (emptied_layout(new, i)
            && old.parent_of(i) is Some)
    &&& forall|i: int| 0 <= i < new.len() ==> (#[trigger] new.ch(i)).len() <= old.ch(i).len()
    &&& old.parent_of(c) matches Some(p) ==> (!(old.is_split(p as int) || old.is_tabbed(p as int)) ==> forall|i: int|
        0 <= i < new.len() && i != p as int ==> #[trigger] new.ch(i) == old.ch(i) && new.fo(i) == old.fo(i))
    &&& old.parent_of(c) matches Some(p) ==> (!(old.is_split(p as int) || old.is_tabbed(p as int)) ==> forall|i: int|
        0 <= i < new.len() && i != c ==> #[trigger] new.parent_of(i) == old.parent_of(i))
}

impl ContainerTree {
    /// Removes a container from the tree. A tiling container's size is
    /// returned to its tiling siblings (`size_after_removal`). A parent
    /// left as an empty split or tabbed container is detached in turn, and
    /// so on up the tree.
    pub fn detach_container(&mut self, c: usize) -> (r: Result<(), TreeError>)
        requires
            old(self).wf(),
            (c as int) < old(self).len(),
        ensures
            detach_outcome(old(self), final(self), c as int, r),
    {
        if self.nodes[c].parent.is_none() {
            return Err(TreeError::NoParent);
        }
        let ghost old_t = *old(self);
        let removed = self.nodes[c].tiling_size;
        let tiling = self.tiling(c);
        proof {
            assert(old_t.node_wf(c as int));
        }
        let p = self.unlink(c);
        let ghost after_unlink = *self;
        if tiling {
            self.redistribute_after_removal(p, removed);
        }
        let ghost mid = *self;
        proof {
            assert forall|i: int| 0 <= i < mid.len() implies #[trigger] mid.nodes@[i].parent
                == after_unlink.nodes@[i].parent && mid.ch(i) == after_unlink.ch(i) && mid.fo(i)
                == after_unlink.fo(i) && mid.nodes@[i].kind == after_unlink.nodes@[i].kind by {
                if tiling {
                    assert(mid.nodes@[i].kind == after_unlink.nodes@[i].kind);
                }
            }
        }
        self.detach_emptied_ancestors(p);
        proof {
            let t = *self;
            assert(mid.ch(p as int) == after_unlink.ch(p as int));
            // The parent's lists are not touched by the cascade.
            assert(t.ch(p as int) == mid.ch(p as int) && t.fo(p as int) == mid.fo(p as int)) by {
                if removable_layout(&mid, p as int) {
                    if t.ch(p as int) != mid.ch(p as int) {
                        let x = choose|x: usize|
                            removed_from(mid.ch(p as int), t.ch(p as int), x) && removed_from(
                                mid.fo(p as int),
                                t.fo(p as int),
                                x,
                            ) && mid.parent_of(x as int) == Some(p) && t.parent_of(x as int) is None;
                        assert(mid.ch(p as int).len() == 0);
                    }
                }
            }
            assert(t.parent_of(c as int) is None) by {
                assert(mid.parent_of(c as int) is None);
                if t.parent_of(c as int) != mid.parent_of(c as int) {
                    assert(emptied_layout(&t, c as int));
                }
            }
            if tiling {
                assert forall|k: int|
                    0 <= k < t.ch(p as int).len() && old_t.is_tiling(t.ch(p as int)[k] as int)
                        implies #[trigger] t.size(t.ch(p as int)[k] as int) == size_after_removal(
                    old_t.is_tabbed(p as int),
                    old_t.size(t.ch(p as int)[k] as int) as int,
                    old_t.size(c as int) as int,
                    tiling_avail(old_t.nodes@, t.ch(p as int)),
                    tiling_sum(old_t.nodes@, t.ch(p as int)),
                    tiling_count(old_t.nodes@, t.ch(p as int)),
                ) by {
                    let x = t.ch(p as int)[k];
                    assert(mid.node_wf(p as int));
                    assert(mid.ch(p as int)[k] == x);
                    assert(mid.parent_of(x as int) == Some(p));
                    assert(t.size(x as int) == mid.size(x as int));
                    assert(after_unlink.ch(p as int)[k] == x);
                    assert forall|m: int| 0 <= m < after_unlink.ch(p as int).len() implies (
                    #[trigger] after_unlink.nodes@[after_unlink.ch(p as int)[m] as int]).kind
                        == old_t.nodes@[after_unlink.ch(p as int)[m] as int].kind
                        && after_unlink.nodes@[after_unlink.ch(p as int)[m] as int].tiling_size
                        == old_t.nodes@[after_unlink.ch(p as int)[m] as int].tiling_size by {
                        assert(after_unlink.node_wf(p as int));
                        assert(after_unlink.valid(after_unlink.ch(p as int)[m] as int));
                        assert(same_content(
                            after_unlink.nodes@[after_unlink.ch(p as int)[m] as int],
                            old_t.nodes@[after_unlink.ch(p as int)[m] as int],
                        ));
                    }
                    lemma_sum_same_nodes(after_unlink.nodes@, old_t.nodes@, after_unlink.ch(p as int));
                    assert(same_content(after_unlink.nodes@[x as int], old_t.nodes@[x as int]));
                    assert(same_content(after_unlink.nodes@[p as int], old_t.nodes@[p as int]));
                }
            }
            assert(!removable_layout(&t, p as int)) by {
                if removable_layout(&mid, p as int) {
                    assert(t.parent_of(p as int) is None);
                } else {
                    assert(t.nodes@ == mid.nodes@);
                }
            }
            assert(ContainerTree { nodes: self.nodes }.nodes@ == t.nodes@);
            assert forall|i: int| 0 <= i < t.len() implies (#[trigger] t.nodes@[i]).kind
                == old_t.nodes@[i].kind by {
                assert(same_content(after_unlink.nodes@[i], old_t.nodes@[i]));
            }
            assert forall|i: int| 0 <= i < t.len() && i != c implies #[trigger] t.parent_of(i)
                == old_t.parent_of(i) || (emptied_layout(&t, i) && old_t.parent_of(i) is Some) by {
                assert(after_unlink.parent_of(i) == old_t.parent_of(i));
            }
            assert forall|i: int| 0 <= i < t.len() implies (#[trigger] t.ch(i)).len() <= old_t.ch(i).len() by {
                assert(mid.ch(i) == after_unlink.ch(i));
                if t.ch(i) != mid.ch(i) {
                    let x = choose|x: usize| removed_from(mid.ch(i), t.ch(i), x) && removed_from(mid.fo(i), t.fo(i), x)
                        && mid.parent_of(x as int) == Some(i as usize) && t.parent_of(x as int) is None;
                }
                if i != p as int {
                    assert(after_unlink.ch(i) == old_t.ch(i));
                }
            }
        }
        proof {
            let t = *self;
            if (old_t.is_split(p as int) || old_t.is_tabbed(p as int)) && old_t.ch(p as int).len() == 1 {
                if let Some(g) = old_t.parent_of(p as int) {
                    if g != p {
                        assert(same_content(after_unlink.nodes@[p as int], old_t.nodes@[p as int]));
                        assert(mid.ch(p as int).len() == 0);
                        assert(mid.parent_of(p as int) == Some(g));
                        assert(removable_layout(&mid, p as int));
                        assert(sizes_returned(&mid, &t, p as int, g as int));
                        assert(old_t.node_wf(p as int));
                        assert(old_t.ch(p as int)[0] == c);
                        assert forall|m: int| 0 <= m < t.ch(g as int).len() implies (#[trigger] mid.nodes@[t.ch(
                            g as int,
                        )[m] as int]).kind == old_t.nodes@[t.ch(g as int)[m] as int].kind && mid.nodes@[t.ch(
                            g as int,
                        )[m] as int].tiling_size == old_t.nodes@[t.ch(g as int)[m] as int].tiling_size by {
                            let x = t.ch(g as int)[m];
                            assert(t.node_wf(g as int));
                            assert(t.valid(x as int));
                            assert(t.parent_of(x as int) == Some(g));
                            assert(same_content(after_unlink.nodes@[x as int], old_t.nodes@[x as int]));
                            assert(x != c) by {
                                assert(t.parent_of(c as int) is None);
                            }
                            assert(mid.parent_of(x as int) == Some(g)) by {
                                if mid.parent_of(x as int) != t.parent_of(x as int) {
                                    assert(emptied_layout(&t, x as int));
                                }
                            }
                            assert(!after_unlink.ch(p as int).contains(x)) by {
                                assert(after_unlink.ch(p as int).len() == 0);
                            }
                            assert(mid.nodes@[x as int].kind == after_unlink.nodes@[x as int].kind);
                            assert(mid.size(x as int) == after_unlink.size(x as int));
                        }
                        lemma_sum_same_nodes(mid.nodes@, old_t.nodes@, t.ch(g as int));
                        assert(mid.nodes@[g as int].kind == old_t.nodes@[g as int].kind) by {
                            assert(same_content(after_unlink.nodes@[g as int], old_t.nodes@[g as int]));
                        }
                        assert(mid.size(p as int) == old_t.size(p as int)) by {
                            assert(!after_unlink.ch(p as int).contains(p)) by {
                                assert(after_unlink.ch(p as int).len() == 0);
                            }
                        }
                        assert forall|k: int|
                            0 <= k < t.ch(g as int).len() && old_t.is_tiling(t.ch(g as int)[k] as int) implies #[trigger] t.size(
                            t.ch(g as int)[k] as int,
                        ) == size_after_removal(
                            old_t.is_tabbed(g as int),
                            old_t.size(t.ch(g as int)[k] as int) as int,
                            old_t.size(p as int) as int,
                            tiling_avail(old_t.nodes@, t.ch(g as int)),
                            tiling_sum(old_t.nodes@, t.ch(g as int)),
                            tiling_count(old_t.nodes@, t.ch(g as int)),
                        ) by {
                            let x = t.ch(g as int)[k];
                            assert(mid.nodes@[x as int].kind == old_t.nodes@[x as int].kind);
                            assert(mid.is_tiling(x as int));
                        }
                    }
                }
            }
            if !(old_t.is_split(p as int) || old_t.is_tabbed(p as int)) {
                assert(same_content(after_unlink.nodes@[p as int], old_t.nodes@[p as int]));
                assert(mid.nodes@[p as int].kind == old_t.nodes@[p as int].kind);
                assert(!removable_layout(&mid, p as int));
                assert(t.nodes@ == mid.nodes@);
                assert forall|i: int| 0 <= i < t.len() && i != p as int implies #[trigger] t.ch(i) == old_t.ch(i)
                    && t.fo(i) == old_t.fo(i) by {
                    assert(mid.ch(i) == after_unlink.ch(i) && mid.fo(i) == after_unlink.fo(i));
                }
                assert forall|i: int| 0 <= i < t.len() && i != c as int implies #[trigger] t.parent_of(i)
                    == old_t.parent_of(i) by {
                    assert(mid.nodes@[i].parent == after_unlink.nodes@[i].parent);
                }
            }
        }
        Ok(())
    }

    /// Attaches a detached container `c` to `p` at `index` (at the end for
    /// `None`) and appends it to `p`'s focus order. A tiling container
    /// takes the size `1 / (n + 1)` beside `n` tiling siblings, which keep
    /// `n / (n + 1)` of their sizes (`fit_new_child`).
    pub fn attach_container(&mut self, c: usize, p: usize, index: Option<usize>) -> (r: Result<
        (),
        TreeError,
    >)
        requires
            old(self).wf(),
            (c as int) < old(self).len(),
            (p as int) < old(self).len(),
            index matches Some(i) ==> i <= old(self).ch(p as int).len(),
        ensures
            attach_outcome(old(self), final(self), c as int, p as int, index, r),
    {
        if self.nodes[c].parent.is_some() {
            return Err(TreeError::AlreadyAttached);
        }
        let ghost old_t = *old(self);
        let idx = match index {
            Some(i) => i,
            None => self.nodes[p].children.len(),
        };
        self.link(c, p, idx);
        let ghost mid = *self;
        proof {
            assert(mid.ch(p as int)[idx as int] == c);
            assert(mid.ch(p as int).contains(c));
        }
        self.fit_new_child(p, c);
        proof {
            let t = *self;
            let ids = old_t.ch(p as int);
            let n = tiling_count(old_t.nodes@, ids);
            assert forall|m: int| 0 <= m < mid.ch(p as int).len() implies (
            #[trigger] mid.nodes@[mid.ch(p as int)[m] as int]).kind
                == old_t.nodes@[mid.ch(p as int)[m] as int].kind
                && mid.nodes@[mid.ch(p as int)[m] as int].tiling_size
                == old_t.nodes@[mid.ch(p as int)[m] as int].tiling_size by {
                assert(mid.node_wf(p as int));
                assert(mid.valid(mid.ch(p as int)[m] as int));
                assert(same_content(
                    mid.nodes@[mid.ch(p as int)[m] as int],
                    old_t.nodes@[mid.ch(p as int)[m] as int],
                ));
            }
            lemma_sum_same_nodes(mid.nodes@, old_t.nodes@, mid.ch(p as int));
            lemma_count_insert(old_t.nodes@, ids, idx as int, c);
            assert(same_content(mid.nodes@[c as int], old_t.nodes@[c as int]));
            assert forall|i: int| 0 <= i < t.len() implies #[trigger] t.nodes@[i].parent
                == mid.nodes@[i].parent && t.ch(i) == mid.ch(i) && t.fo(i) == mid.fo(i)
                && t.nodes@[i].kind == mid.nodes@[i].kind by {
                assert(t.nodes@[i].kind == mid.nodes@[i].kind);
            }
            assert forall|i: int| 0 <= i < t.len() implies (#[trigger] t.nodes@[i]).kind
                == old_t.nodes@[i].kind by {
                assert(same_content(mid.nodes@[i], old_t.nodes@[i]));
            }
            assert forall|i: int| 0 <= i < t.len() && i != c implies #[trigger] t.parent_of(i)
                == old_t.parent_of(i) by {
                assert(t.nodes@[i].parent == mid.nodes@[i].parent);
                assert(mid.parent_of(i) == old_t.parent_of(i));
            }
            if old_t.is_tiling(c as int) {
                assert(tiling_count(mid.nodes@, mid.ch(p as int)) == n + 1);
                lemma_count_nonneg(old_t.nodes@, ids);
            }
            if old_t.is_tiling(c as int) {
                assert forall|k: int|
                    0 <= k < ids.len() && old_t.is_tiling(ids[k] as int) implies #[trigger] t.size(
                    ids[k] as int,
                ) == size_after_addition(old_t.size(ids[k] as int) as int, n) by {
                    let k2 = if k < idx { k } else { k + 1 };
                    assert(mid.ch(p as int)[k2] == ids[k]);
                    assert(old_t.node_wf(p as int));
                    assert(ids[k] != c) by {
                        assert(old_t.parent_of(ids[k] as int) == Some(p));
                    }
                    assert(old_t.valid(ids[k] as int));
                    assert(same_content(mid.nodes@[ids[k] as int], old_t.nodes@[ids[k] as int]));
                }
            }
            assert forall|i: int|
                0 <= i < t.len() && !(old_t.is_tiling(c as int) && (i == c || ids.contains(i as usize)
                    && old_t.is_tiling(i))) implies #[trigger] t.size(i) == old_t.size(i) by {
                assert(same_content(mid.nodes@[i], old_t.nodes@[i]));
                if mid.ch(p as int).contains(i as usize) && i != c {
                    let m = choose|m: int| 0 <= m < mid.ch(p as int).len() && mid.ch(p as int)[m] == i as usize;
                    if m < idx {
                        assert(ids[m] == i as usize);
                    } else {
                        assert(m != idx);
                        assert(ids[m - 1] == i as usize);
                    }
                }
            }
        }
        Ok(())
    }
}

/// Each container named by `ids` that is tiling in `a` has in `b` its
/// size in `a` plus its share of `r`: in proportion to its size above the
/// minimum, over `avail`, rounded down.
pub open spec fn shares_added(a: Seq<Node>, b: Seq<Node>, ids: Seq<usize>, r: int, avail: int) -> bool {
    forall|k: int|
        0 <= k < ids.len() && kind_is_tiling(a[ids[k] as int].kind) ==> #[trigger] b[ids[k] as int].tiling_size as int
            == a[ids[k] as int].tiling_size + ((a[ids[k] as int].tiling_size - MIN_TILING_SIZE) * r) / avail
}

/// Adding shares of `r` rounded down to sizes whose excess over the
/// minimum totals `e` adds, over `avail`, at most `r * e / avail` and less
/// than one unit per tiling container more than that.
proof fn lemma_shares_sum(a: Seq<Node>, b: Seq<Node>, ids: Seq<usize>, r: int, avail: int)
    requires
        r >= 0,
        avail > 0,
        shares_added(a, b, ids, r, avail),
        forall|k: int| 0 <= k < ids.len() ==> (#[trigger] b[ids[k] as int]).kind == a[ids[k] as int].kind,
        forall|k: int|
            0 <= k < ids.len() && kind_is_tiling(a[ids[k] as int].kind) ==> (#[trigger] a[ids[k] as int]).tiling_size
                >= MIN_TILING_SIZE,
    ensures
        (tiling_sum(b, ids) - tiling_sum(a, ids)) * avail <= r * tiling_avail(a, ids),
        (tiling_sum(b, ids) - tiling_sum(a, ids)) * avail > r * tiling_avail(a, ids) - avail * tiling_count(a, ids)
            || tiling_count(a, ids) == 0,
        (tiling_sum(b, ids) - tiling_sum(a, ids)) * avail >= r * tiling_avail(a, ids) - avail * tiling_count(a, ids),
    decreases ids.len(),
{
    if ids.len() > 0 {
        let d = ids.drop_last();
        assert(shares_added(a, b, d, r, avail)) by {
            assert forall|k: int| 0 <= k < d.len() && kind_is_tiling(a[d[k] as int].kind) implies #[trigger] b[d[k] as int].tiling_size as int
                == a[d[k] as int].tiling_size + ((a[d[k] as int].tiling_size - MIN_TILING_SIZE) * r) / avail by {
                assert(d[k] == ids[k]);
            }
        }
        assert forall|k: int| 0 <= k < d.len() implies (#[trigger] b[d[k] as int]).kind == a[d[k] as int].kind by {
            assert(d[k] == ids[k]);
        }
        assert forall|k: int|
            0 <= k < d.len() && kind_is_tiling(a[d[k] as int].kind) implies (#[trigger] a[d[k] as int]).tiling_size >= MIN_TILING_SIZE by {
            assert(d[k] == ids[k]);
        }
        lemma_shares_sum(a, b, d, r, avail);
        let x = ids.last() as int;
        assert(ids[ids.len() - 1] as int == x);
        assert(b[x].kind == a[x].kind);
        crate::sizes::lemma_count_nonneg(a, d);
        assert(ids.drop_last() == d);
        if kind_is_tiling(a[x].kind) {
            assert(tiling_sum(a, ids) == tiling_sum(a, d) + a[x].tiling_size);
            assert(tiling_sum(b, ids) == tiling_sum(b, d) + b[x].tiling_size);
            assert(tiling_count(a, ids) == tiling_count(a, d) + 1);
            let e = a[x].tiling_size - MIN_TILING_SIZE;
            let q = (e * r) / avail;
            assert(e >= 0);
            assert(q * avail <= e * r && e * r < q * avail + avail) by (nonlinear_arith)
                requires
                    e >= 0,
                    r >= 0,
                    avail > 0,
                    q == (e * r) / avail,
            ;
            assert(b[x].tiling_size - a[x].tiling_size == q);
            let sd = tiling_sum(b, d) - tiling_sum(a, d);
            assert((sd + q) * avail == sd * avail + q * avail) by (nonlinear_arith);
            assert(r * tiling_avail(a, ids) == r * tiling_avail(a, d) + e * r) by (nonlinear_arith)
                requires
                    tiling_avail(a, ids) == tiling_avail(a, d) + e,
            ;
            assert(avail * tiling_count(a, ids) == avail * tiling_count(a, d) + avail) by (nonlinear_arith)
                requires
                    tiling_count(a, ids) == tiling_count(a, d) + 1,
            ;
            let big = tiling_sum(b, ids) - tiling_sum(a, ids);
            assert(big == sd + q);
            assert(big * avail == sd * avail + q * avail) by (nonlinear_arith)
                requires
                    big == sd + q,
            ;
            assert(big * avail <= r * tiling_avail(a, ids));
            assert(big * avail > r * tiling_avail(a, ids) - avail * tiling_count(a, ids)) by {
                assert(sd * avail >= r * tiling_avail(a, d) - avail * tiling_count(a, d));
            }
        } else {
            assert(tiling_sum(a, ids) == tiling_sum(a, d));
            assert(tiling_sum(b, ids) == tiling_sum(b, d));
            assert(tiling_count(a, ids) == tiling_count(a, d));
            assert(tiling_avail(a, ids) == tiling_avail(a, d));
            let big = tiling_sum(b, ids) - tiling_sum(a, ids);
            let sd = tiling_sum(b, d) - tiling_sum(a, d);
            assert(big == sd);
            assert(big * avail == sd * avail);
        }
    } else {
        assert(tiling_sum(a, ids) == 0 && tiling_sum(b, ids) == 0 && tiling_count(a, ids) == 0);
        assert(tiling_avail(a, ids) == 0);
        assert((tiling_sum(b, ids) - tiling_sum(a, ids)) * avail == 0) by (nonlinear_arith)
            requires
                tiling_sum(b, ids) - tiling_sum(a, ids) == 0,
        ;
        assert(r * tiling_avail(a, ids) == 0) by (nonlinear_arith)
            requires
                tiling_avail(a, ids) == 0,
        ;
        assert(avail * tiling_count(a, ids) == 0) by (nonlinear_arith)
            requires
                tiling_count(a, ids) == 0,
        ;
    }
}

/// Where every tiling container named by `ids` is at least the minimum,
/// each one's excess over the minimum is within their total excess.
proof fn lemma_excess_within_avail(nodes: Seq<Node>, ids: Seq<usize>, k: int)
    requires
        0 <= k < ids.len(),
        kind_is_tiling(nodes[ids[k] as int].kind),
        forall|j: int|
            0 <= j < ids.len() && kind_is_tiling(nodes[ids[j] as int].kind) ==> (#[trigger] nodes[ids[j] as int]).tiling_size
                >= MIN_TILING_SIZE,
    ensures
        nodes[ids[k] as int].tiling_size - MIN_TILING_SIZE <= tiling_avail(nodes, ids),
        tiling_avail(nodes, ids) >= 0,
    decreases ids.len(),
{
    let d = ids.drop_last();
    assert forall|j: int|
        0 <= j < d.len() && kind_is_tiling(nodes[d[j] as int].kind) implies (#[trigger] nodes[d[j] as int]).tiling_size
            >= MIN_TILING_SIZE by {
        assert(d[j] == ids[j]);
    }
    assert(ids.drop_last() == d);
    let x = ids.last() as int;
    assert(ids[ids.len() - 1] as int == x);
    lemma_excess_within_avail_nonneg(nodes, d);
    if kind_is_tiling(nodes[x].kind) {
        assert(tiling_sum(nodes, ids) == tiling_sum(nodes, d) + nodes[x].tiling_size);
        assert(tiling_count(nodes, ids) == tiling_count(nodes, d) + 1);
        assert(nodes[x].tiling_size >= MIN_TILING_SIZE);
    } else {
        assert(tiling_sum(nodes, ids) == tiling_sum(nodes, d));
        assert(tiling_count(nodes, ids) == tiling_count(nodes, d));
    }
    if k < ids.len() - 1 {
        assert(d[k] == ids[k]);
        lemma_excess_within_avail(nodes, d, k);
    }
}

/// Sizes at least the minimum leave a total excess that is not negative.
proof fn lemma_excess_within_avail_nonneg(nodes: Seq<Node>, ids: Seq<usize>)
    requires
        forall|j: int|
            0 <= j < ids.len() && kind_is_tiling(nodes[ids[j] as int].kind) ==> (#[trigger] nodes[ids[j] as int]).tiling_size
                >= MIN_TILING_SIZE,
    ensures
        tiling_avail(nodes, ids) >= 0,
    decreases ids.len(),
{
    if ids.len() > 0 {
        let d = ids.drop_last();
        assert forall|j: int|
            0 <= j < d.len() && kind_is_tiling(nodes[d[j] as int].kind) implies (#[trigger] nodes[d[j] as int]).tiling_size
                >= MIN_TILING_SIZE by {
            assert(d[j] == ids[j]);
        }
        lemma_excess_within_avail_nonneg(nodes, d);
        let x = ids.last() as int;
        assert(ids[ids.len() - 1] as int == x);
        if kind_is_tiling(nodes[x].kind) {
            assert(tiling_sum(nodes, ids) == tiling_sum(nodes, d) + nodes[x].tiling_size);
            assert(tiling_count(nodes, ids) == tiling_count(nodes, d) + 1);
        } else {
            assert(tiling_sum(nodes, ids) == tiling_sum(nodes, d));
            assert(tiling_count(nodes, ids) == tiling_count(nodes, d));
        }
    } else {
        assert(tiling_sum(nodes, ids) == 0 && tiling_count(nodes, ids) == 0);
    }
}

/// A detachment hands the size of a tiling container back to its tiling
/// siblings in a parent that is not tabbed: when their sizes are at least
/// the minimum and some are above it, their total grows by the removed
/// size, less under one unit per sibling for rounding down. So sizes that
/// summed to one before sum to one after, up to that rounding.
pub proof fn law_detach_returns_size(old: &ContainerTree, new: &ContainerTree, c: int, p: int)
    requires
        old.wf(),
        0 <= c < old.len(),
        0 <= p < old.len(),
        detach_outcome(old, new, c, Ok(())),
        old.parent_of(c) == Some(p as usize),
        old.is_tiling(c),
        !old.is_tabbed(p),
        tiling_avail(old.nodes@, new.ch(p)) > 0,
        forall|k: int|
            0 <= k < new.ch(p).len() && old.is_tiling(new.ch(p)[k] as int) ==> MIN_TILING_SIZE <= #[trigger] old.size(
                new.ch(p)[k] as int,
            ) && old.size(new.ch(p)[k] as int) + old.size(c) <= MAX_TILING_SIZE,
    ensures
        tiling_sum(new.nodes@, new.ch(p)) <= tiling_sum(old.nodes@, new.ch(p)) + old.size(c),
        tiling_sum(new.nodes@, new.ch(p)) > tiling_sum(old.nodes@, new.ch(p)) + old.size(c) - tiling_count(
            old.nodes@,
            new.ch(p),
        ) || tiling_count(old.nodes@, new.ch(p)) == 0,
{
    let ids = new.ch(p);
    let r = old.size(c) as int;
    let avail = tiling_avail(old.nodes@, ids);
    assert forall|j: int|
        0 <= j < ids.len() && kind_is_tiling(old.nodes@[ids[j] as int].kind) implies (#[trigger] old.nodes@[ids[j] as int]).tiling_size
            >= MIN_TILING_SIZE by {
        assert(old.is_tiling(new.ch(p)[j] as int));
        assert(old.size(new.ch(p)[j] as int) >= MIN_TILING_SIZE);
    }
    assert(shares_added(old.nodes@, new.nodes@, ids, r, avail)) by {
        assert forall|k: int| 0 <= k < ids.len() && kind_is_tiling(old.nodes@[ids[k] as int].kind) implies #[trigger] new.nodes@[ids[k] as int].tiling_size as int
            == old.nodes@[ids[k] as int].tiling_size + ((old.nodes@[ids[k] as int].tiling_size - MIN_TILING_SIZE) * r) / avail by {
            let x = ids[k] as int;
            assert(old.is_tiling(x));
            assert(old.is_tiling(new.ch(p)[k] as int));
            assert(new.size(new.ch(p)[k] as int) == size_after_removal(
                old.is_tabbed(p),
                old.size(x) as int,
                old.size(c) as int,
                tiling_avail(old.nodes@, ids),
                tiling_sum(old.nodes@, ids),
                tiling_count(old.nodes@, ids),
            ));
            let e = old.size(x) - MIN_TILING_SIZE;
            assert(e * r >= 0) by (nonlinear_arith)
                requires
                    e >= 0,
                    r >= 0,
            ;
            assert((e * r) / avail <= e * r) by (nonlinear_arith)
                requires
                    e * r >= 0,
                    avail > 0,
            ;
            lemma_excess_within_avail(old.nodes@, ids, k);
            assert((e * r) / avail <= r) by (nonlinear_arith)
                requires
                    e >= 0,
                    r >= 0,
                    avail > 0,
                    e <= avail,
            ;
            lemma_excess_within_avail(old.nodes@, ids, k);
        }
    }
    assert forall|k: int| 0 <= k < ids.len() implies (#[trigger] new.nodes@[ids[k] as int]).kind == old.nodes@[ids[k] as int].kind by {
        let x = ids[k] as int;
        assert(new.node_wf(p));
        assert(new.valid(x));
    }
    lemma_shares_sum(old.nodes@, new.nodes@, ids, r, avail);
    let sd = tiling_sum(new.nodes@, ids) - tiling_sum(old.nodes@, ids);
    assert(sd <= r) by (nonlinear_arith)
        requires
            sd * avail <= r * avail,
            avail > 0,
    ;
    lemma_count_nonneg(old.nodes@, ids);
    if tiling_count(old.nodes@, ids) > 0 {
        let n = tiling_count(old.nodes@, ids);
        assert(sd * avail > r * avail - avail * n);
        assert(sd > r - n) by (nonlinear_arith)
            requires
                sd * avail > r * avail - avail * n,
                avail > 0,
        ;
    }
}

} // verus!
