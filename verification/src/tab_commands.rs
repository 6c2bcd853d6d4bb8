//! Commands on tabbed layouts: toggling a window's siblings in and out of
//! a tabbed container, and focusing the next or previous tab.
use vstd::prelude::*;

use crate::attach::TreeError;
use crate::focus::{focus_orders, nearest_tabbed, refocus, same_but_focus};
use crate::sync::PendingSync;
use crate::tabs::{flatten_tabbed_outcome, wrap_outcome};
use crate::tree::{ContainerKind, ContainerTree, TilingDirection};

verus! {

/// The position of the tab after (or before) position `a` among `n`
/// tabs, wrapping at either end.
pub open spec fn tab_step(a: int, n: int, is_next: bool) -> int {
    if is_next {
        (a + 1) % n
    } else {
        (a + n - 1) % n
    }
}

/// The tiling containers among `s`, in order.
pub open spec fn tiling_of(t: &ContainerTree, s: Seq<usize>) -> Seq<usize>
    decreases s.len(),
{
    if s.len() == 0 {
        s
    } else {
        let r = tiling_of(t, s.drop_last());
        if t.is_tiling(s.last() as int) {
            r.push(s.last())
        } else {
            r
        }
    }
}

/// The container that `focus_tab` focuses in tabbed container `tb`: the
/// tab next to (or before) the active one, or its most recently focused
/// child where it has one.
pub open spec fn tab_focus_target(t: &ContainerTree, tb: int, is_next: bool) -> usize {
    let ch = t.ch(tb);
    let a = ch.index_of(t.fo(tb)[0]);
    let tab = ch[tab_step(a, ch.len() as int, is_next)];
    if t.fo(tab as int).len() > 0 {
        t.fo(tab as int)[0]
    } else {
        tab
    }
}

/// `new` is `old` with a detached, empty tabbed container appended.
pub open spec fn tabbed_appended(old: &ContainerTree, new: &ContainerTree) -> bool {
    &&& new.nodes@.drop_last() == old.nodes@
    &&& new.len() == old.len() + 1
    &&& new.is_tabbed(old.len() as int)
    &&& new.parent_of(old.len() as int) is None
    &&& new.ch(old.len() as int).len() == 0
    &&& new.fo(old.len() as int).len() == 0
}

/// `s` is `old` with the focus moved to `w` and `c` queued for redraw.
pub open spec fn focused_and_queued(old: &ContainerTree, new: &ContainerTree, w: int, c: usize, s0: PendingSync, s1: PendingSync) -> bool {
    &&& same_but_focus(new, old)
    &&& focus_orders(new) == refocus(old, focus_orders(old), w, None, old.len())
    &&& s1.containers_to_redraw@ == s0.containers_to_redraw@.push(c)
    &&& s1.workspaces_to_reorder@ == s0.workspaces_to_reorder@
    &&& s1.focus_change
    &&& s1.cursor_jump
}

/// The sync queue is as it was.
pub open spec fn sync_unchanged(s0: PendingSync, s1: PendingSync) -> bool {
    &&& s1.containers_to_redraw@ == s0.containers_to_redraw@
    &&& s1.workspaces_to_reorder@ == s0.workspaces_to_reorder@
    &&& s1.focus_change == s0.focus_change
    &&& s1.cursor_jump == s0.cursor_jump
}

impl ContainerTree {
    /// The tiling children of `p`, in order.
    pub fn tiling_children(&self, p: usize) -> (r: Vec<usize>)
        requires
            self.wf(),
            (p as int) < self.len(),
        ensures
            r@ == tiling_of(self, self.ch(p as int)),
            forall|k: int| 0 <= k < r@.len() ==> (#[trigger] r@[k] as int) < self.len(),
    {
        let ghost s = self.ch(p as int);
        proof {
            assert(self.node_wf(p as int));
        }
        let mut r: Vec<usize> = Vec::new();
        let mut k: usize = 0;
        while k < self.nodes[p].children.len()
            invariant
                self.wf(),
                (p as int) < self.len(),
                s == self.ch(p as int),
                self.children_linked(p as int),
                k <= s.len(),
                r@ == tiling_of(self, s.take(k as int)),
                forall|j: int| 0 <= j < r@.len() ==> (#[trigger] r@[j] as int) < self.len(),
            decreases s.len() - k,
        {
            let c = self.nodes[p].children[k];
            proof {
                assert(s.take(k + 1).drop_last() =~= s.take(k as int));
                assert(s.take(k + 1).last() == c);
                assert(self.valid(s[k as int] as int));
            }
            if self.tiling(c) {
                r.push(c);
            }
            k = k + 1;
        }
        proof {
            assert(s.take(s.len() as int) =~= s);
        }
        r
    }
}

/// Focuses the next (or previous) tab of the nearest tabbed container
/// among `c` and its ancestors, wrapping at either end. The focus goes to
/// that tab's most recently focused child, or to the tab itself. Nothing
/// changes where there is no such tabbed container or it has fewer than
/// two tabs.
pub fn focus_tab(tree: &mut ContainerTree, c: usize, is_next: bool, sync: &mut PendingSync) -> (r: Result<(), TreeError>)
    requires
        old(tree).wf(),
        (c as int) < old(tree).len(),
    ensures
        r is Ok,
        final(tree).wf(),
        match nearest_tabbed(old(tree), c as int, old(tree).len()) {
            Some(tb) => if old(tree).ch(tb as int).len() >= 2 {
                focused_and_queued(old(tree), final(tree), tab_focus_target(old(tree), tb as int, is_next) as int, tb, *old(sync), *final(sync))
            } else {
                final(tree).nodes@ == old(tree).nodes@ && sync_unchanged(*old(sync), *final(sync))
            },
            None => final(tree).nodes@ == old(tree).nodes@ && sync_unchanged(*old(sync), *final(sync)),
        },
{
    let ghost t0 = *old(tree);
    let tb = match tree.nearest_tabbed_parent(c) {
        None => {
            return Ok(());
        },
        Some(tb) => tb,
    };
    let n = tree.nodes[tb].children.len();
    if n < 2 {
        return Ok(());
    }
    proof {
        assert(t0.node_wf(tb as int));
        assert(t0.fo(tb as int).len() == n);
        assert(t0.ch(tb as int).contains(t0.fo(tb as int)[0]));
    }
    let active = tree.nodes[tb].focus_order[0];
    let a = tree.index_in(tb, active);
    proof {
        let ch = t0.ch(tb as int);
        assert(ch.index_of(active) == a as int) by {
            let j = ch.index_of(active);
            assert(ch.contains(active));
            assert(0 <= j < ch.len() && ch[j] == active);
        }
    }
    let ti = if is_next {
        (a + 1) % n
    } else if a == 0 {
        n - 1
    } else {
        a - 1
    };
    proof {
        assert(ti as int == tab_step(a as int, n as int, is_next)) by {
            if !is_next {
                if a == 0 {
                    assert((n - 1) as int % n as int == n - 1) by (nonlinear_arith) requires n >= 2;
                } else {
                    assert((a + n - 1) as int % n as int == a - 1) by (nonlinear_arith) requires 0 < a < n;
                }
            }
        }
    }
    let tab = tree.nodes[tb].children[ti];
    proof {
        assert(t0.valid(t0.ch(tb as int)[ti as int] as int));
    }
    let target = tree.first_focused_or_self(tab);
    tree.set_focused_descendant(target, None);
    sync.queue_container_to_redraw(tb);
    sync.queue_focus_change();
    sync.queue_cursor_jump();
    Ok(())
}

/// Toggles the layout around the tiling window that stands for `c`
/// (`c` itself, or its first tiling descendant in focus order). Where
/// that window is inside a tabbed container, the nearest one is
/// flattened into its parent; otherwise the window's tiling siblings,
/// the window among them, are wrapped in a new tabbed container. The
/// window is then focused. Nothing changes where `c` has no tiling window.
pub fn toggle_tabbed(tree: &mut ContainerTree, c: usize, sync: &mut PendingSync) -> (r: Result<(), TreeError>)
    requires
        old(tree).wf(),
        (c as int) < old(tree).len(),
    ensures
        final(tree).wf(),
        old(tree).spec_focused_tiling_window(c as int) is None ==> r is Ok && final(tree).nodes@ == old(tree).nodes@
            && sync_unchanged(*old(sync), *final(sync)),
        old(tree).spec_focused_tiling_window(c as int) matches Some(w) ==> match nearest_tabbed(old(tree), w as int, old(tree).len()) {
            Some(tb) => match old(tree).parent_of(tb as int) {
                None => r == Err::<(), TreeError>(TreeError::NoParent) && final(tree).nodes@ == old(tree).nodes@
                    && sync_unchanged(*old(sync), *final(sync)),
                Some(pt) => exists|mid: ContainerTree| {
                    &&& #[trigger] flatten_tabbed_outcome(old(tree), &mid, tb as int, r)
                    &&& r is Ok ==> focused_and_queued(&mid, final(tree), w as int, pt, *old(sync), *final(sync))
                    &&& r is Err ==> final(tree).nodes@ == mid.nodes@ && sync_unchanged(*old(sync), *final(sync))
                },
            },
            None => match old(tree).parent_of(w as int) {
                None => r == Err::<(), TreeError>(TreeError::NoParent) && final(tree).nodes@ == old(tree).nodes@
                    && sync_unchanged(*old(sync), *final(sync)),
                Some(p) => if tiling_of(old(tree), old(tree).ch(p as int)).len() == 0 {
                    r is Ok && final(tree).nodes@ == old(tree).nodes@ && sync_unchanged(*old(sync), *final(sync))
                } else {
                    exists|added: ContainerTree, mid: ContainerTree| {
                        &&& #[trigger] tabbed_appended(old(tree), &added)
                        &&& #[trigger] wrap_outcome(&added, &mid, old(tree).len() as int, p as int, tiling_of(old(tree), old(tree).ch(p as int)), r)
                        &&& r is Ok ==> focused_and_queued(&mid, final(tree), w as int, old(tree).len() as usize, *old(sync), *final(sync))
                        &&& r is Err ==> final(tree).nodes@ == mid.nodes@ && sync_unchanged(*old(sync), *final(sync))
                    }
                },
            },
        },
{
    let ghost t0 = *old(tree);
    let w = match tree.focused_tiling_window(c) {
        None => {
            return Ok(());
        },
        Some(w) => w,
    };
    match tree.nearest_tabbed_parent(w) {
        Some(tb) => {
            let pt = match tree.nodes[tb].parent {
                None => {
                    return Err(TreeError::NoParent);
                },
                Some(pt) => pt,
            };
            let r = tree.flatten_tabbed_container(tb);
            let ghost mid = *tree;
            if r.is_err() {
                proof {
                    assert(flatten_tabbed_outcome(&t0, &mid, tb as int, r));
                }
                return r;
            }
            tree.set_focused_descendant(w, None);
            sync.queue_container_to_redraw(pt);
            sync.queue_focus_change();
            sync.queue_cursor_jump();
            proof {
                assert(flatten_tabbed_outcome(&t0, &mid, tb as int, Ok(())));
            }
            Ok(())
        },
        None => {
            let p = match tree.nodes[w].parent {
                None => {
                    return Err(TreeError::NoParent);
                },
                Some(p) => p,
            };
            proof {
                assert(t0.node_wf(w as int));
            }
            let targets = tree.tiling_children(p);
            if targets.len() == 0 {
                return Ok(());
            }
            let tb = tree.add_node(ContainerKind::Tabbed, TilingDirection::Horizontal);
            let ghost added = *tree;
            proof {
                assert(added.nodes@.drop_last() =~= t0.nodes@);
                assert forall|i: int| 0 <= i < targets@.len() implies (#[trigger] targets@[i] as int) < added.len() by {}
            }
            let r = tree.wrap_in_tabbed_container(tb, p, &targets);
            let ghost mid = *tree;
            if r.is_err() {
                proof {
                    assert(tabbed_appended(&t0, &added));
                    assert(wrap_outcome(&added, &mid, t0.len() as int, p as int, targets@, r));
                }
                return r;
            }
            proof {
                assert(w < t0.len());
            }
            tree.set_focused_descendant(w, None);
            sync.queue_container_to_redraw(tb);
            sync.queue_focus_change();
            sync.queue_cursor_jump();
            proof {
                assert(tabbed_appended(&t0, &added));
                assert(wrap_outcome(&added, &mid, t0.len() as int, p as int, targets@, Ok(())));
            }
            Ok(())
        },
    }
}

} // verus!
