//! Split containers: flattening a split into its parent, and tidying the
//! split and tabbed children of a direction container.
use vstd::prelude::*;

use crate::attach::TreeError;
use crate::links::same_content;
use crate::sizes::{clamp_size, lemma_same_but_sizes_trans, same_but_sizes};
use crate::tabs::{copy_ids, dissolved, dissolved_links, vec_contains};
use crate::tree::{ContainerTree, TilingDirection, MAX_TILING_SIZE, SIZE_ONE};

verus! {

/// The size of a tiling child of a flattened split of size `split_size`:
/// its share of the split, as a share of the split's parent.
pub open spec fn split_share(split_size: int, s: int) -> u64 {
    clamp_size(split_size * s / SIZE_ONE as int)
}

/// What flattening the split container `x` into its parent leaves, for
/// each result `r`.
pub open spec fn flatten_split_outcome(old: &ContainerTree, new: &ContainerTree, x: int, r: Result<(), TreeError>) -> bool {
    &&& new.wf()
    &&& new.len() == old.len()
    &&& old.parent_of(x) is None ==> r == Err::<(), TreeError>(TreeError::NoParent) && new.nodes@ == old.nodes@
    &&& old.parent_of(x) is Some && !old.dissolvable(x) ==> r == Err::<(), TreeError>(TreeError::Cycle)
        && new.nodes@ == old.nodes@
    &&& old.dissolvable(x) ==> r is Ok && exists|i: int, f: int|
        dissolved_links(old, new, x, old.parent_of(x).unwrap() as int, i, f)
    &&& old.dissolvable(x) ==> forall|k: int|
        0 <= k < old.ch(x).len() && old.is_tiling(old.ch(x)[k] as int) ==> #[trigger] new.size(old.ch(x)[k] as int)
            == split_share(old.size(x) as int, old.size(old.ch(x)[k] as int) as int)
    &&& old.dissolvable(x) ==> forall|y: int|
        0 <= y < new.len() && !(old.ch(x).contains(y as usize) && old.is_tiling(y)) ==> #[trigger] new.size(y)
            == old.size(y)
    &&& forall|y: int|
        0 <= y < new.len() ==> (#[trigger] new.nodes@[y]).kind == old.nodes@[y].kind
            && new.nodes@[y].tiling_direction == old.nodes@[y].tiling_direction
}

impl ContainerTree {
    /// Removes split container `x` and moves its children into its parent,
    /// in its place in the parent's children and focus order. Each tiling
    /// child takes its share of the split's size (`split_share`).
    pub fn flatten_split_container(&mut self, x: usize) -> (r: Result<(), TreeError>)
        requires
            old(self).wf(),
            (x as int) < old(self).len(),
        ensures
            flatten_split_outcome(old(self), final(self), x as int, r),
    {
        let ghost old_t = *old(self);
        let p0 = match self.nodes[x].parent {
            None => {
                return Err(TreeError::NoParent);
            },
            Some(p0) => p0,
        };
        if p0 == x || vec_contains(&self.nodes[x].children, p0) {
            return Err(TreeError::Cycle);
        }
        let split_size = self.nodes[x].tiling_size;
        let child_count = self.nodes[x].children.len();
        let cx = copy_ids(&self.nodes[x].children);
        let (p, i, f) = self.dissolve(x);
        let ghost mid = *self;
        proof {
            assert(old_t.node_wf(x as int));
        }
        let mut k: usize = 0;
        while k < child_count
            invariant
                self.wf(),
                same_but_sizes(self, &mid),
                dissolved(&old_t, &mid, x as int, p as int, i as int, f as int),
                (p as int) < mid.len(),
                mid.len() == old_t.len(),
                old_t.wf(),
                cx@ == old_t.ch(x as int),
                child_count == cx@.len(),
                cx@.no_duplicates(),
                old_t.children_linked(x as int),
                k <= child_count,
                split_size == old_t.size(x as int),
                split_size <= MAX_TILING_SIZE,
                forall|y: int| 0 <= y < mid.len() ==> same_content(#[trigger] mid.nodes@[y], old_t.nodes@[y]),
                forall|j: int|
                    0 <= j < k && old_t.is_tiling(cx@[j] as int) ==> #[trigger] self.size(cx@[j] as int) == split_share(
                        split_size as int,
                        old_t.size(cx@[j] as int) as int,
                    ),
                forall|y: int|
                    0 <= y < self.len() && !(cx@.take(k as int).contains(y as usize) && old_t.is_tiling(y))
                        ==> #[trigger] self.size(y) == old_t.size(y),
            decreases child_count - k,
        {
            let c = cx[k];
            proof {
                assert(old_t.valid(c as int));
                assert(!cx@.take(k as int).contains(c)) by {
                    if cx@.take(k as int).contains(c) {
                        let q = choose|q: int| 0 <= q < k && cx@.take(k as int)[q] == c;
                        assert(cx@[q] == cx@[k as int]);
                    }
                }
                assert(same_content(mid.nodes@[c as int], old_t.nodes@[c as int]));
                assert(self.nodes@[c as int].kind == mid.nodes@[c as int].kind);
                assert(old_t.node_wf(c as int));
                assert(self.size(c as int) == old_t.size(c as int));
            }
            if self.tiling(c) {
                let s = self.nodes[c].tiling_size;
                proof {
                    assert(split_size * s <= 0x4000_0000_0000_0000 * 0x4000_0000_0000_0000) by (nonlinear_arith)
                        requires
                            split_size <= 0x4000_0000_0000_0000,
                            s <= 0x4000_0000_0000_0000,
                    ;
                }
                let q: u128 = (split_size as u128 * s as u128) / (SIZE_ONE as u128);
                let v: u64 = if q > MAX_TILING_SIZE as u128 {
                    MAX_TILING_SIZE
                } else {
                    q as u64
                };
                let ghost before = *self;
                self.set_tiling_size(c, v);
                proof {
                    lemma_same_but_sizes_trans(self, &before, &mid);
                }
            }
            proof {
                let t = *self;
                assert forall|y: int|
                    0 <= y < t.len() && !(cx@.take(k + 1).contains(y as usize) && old_t.is_tiling(y)) implies #[trigger] t.size(y)
                    == old_t.size(y) by {
                    if cx@.take(k as int).contains(y as usize) {
                        let q = choose|q: int| 0 <= q < k && cx@.take(k as int)[q] == y as usize;
                        assert(cx@.take(k + 1)[q] == y as usize);
                    }
                    if y == c as int {
                        assert(cx@.take(k + 1)[k as int] == c);
                    }
                }
            }
            k = k + 1;
        }
        proof {
            let t = *self;
            assert(cx@.take(child_count as int) =~= cx@);
            crate::tabs::lemma_links_ignore_sizes(&old_t, &mid, &t, x as int, p as int, i as int, f as int);
            assert forall|y: int| 0 <= y < t.len() implies (#[trigger] t.nodes@[y]).kind == old_t.nodes@[y].kind
                && t.nodes@[y].tiling_direction == old_t.nodes@[y].tiling_direction by {
                assert(t.nodes@[y].kind == mid.nodes@[y].kind);
                assert(same_content(mid.nodes@[y], old_t.nodes@[y]));
            }
        }
        Ok(())
    }

    /// Sets the tiling direction of a container.
    pub fn set_tiling_direction_of(&mut self, c: usize, direction: TilingDirection)
        requires
            old(self).wf(),
            (c as int) < old(self).len(),
        ensures
            final(self).wf(),
            final(self).len() == old(self).len(),
            final(self).nodes@[c as int].tiling_direction == direction,
            forall|y: int|
                0 <= y < final(self).len() && y != c ==> (#[trigger] final(self).nodes@[y]).tiling_direction
                    == old(self).nodes@[y].tiling_direction,
            forall|y: int|
                0 <= y < final(self).len() ==> {
                    &&& (#[trigger] final(self).nodes@[y]).kind == old(self).nodes@[y].kind
                    &&& final(self).nodes@[y].parent == old(self).nodes@[y].parent
                    &&& final(self).nodes@[y].children@ == old(self).nodes@[y].children@
                    &&& final(self).nodes@[y].focus_order@ == old(self).nodes@[y].focus_order@
                    &&& final(self).nodes@[y].tiling_size == old(self).nodes@[y].tiling_size
                },
    {
        let ghost old_t = *old(self);
        self.nodes[c].tiling_direction = direction;
        proof {
            let t = *self;
            assert forall|y: int| 0 <= y < t.len() implies #[trigger] t.node_wf(y) by {
                assert(old_t.node_wf(y));
                assert(t.ch(y) == old_t.ch(y));
                assert forall|q: int| 0 <= q < t.ch(y).len() implies t.valid(#[trigger] t.ch(y)[q] as int)
                    && t.parent_of(t.ch(y)[q] as int) == Some(y as usize) by {
                    assert(old_t.valid(t.ch(y)[q] as int));
                }
                match t.parent_of(y) {
                    Some(pp) => {
                        assert(t.ch(pp as int) == old_t.ch(pp as int));
                    },
                    None => {},
                }
            }
        }
    }
}

impl ContainerTree {
    pub open spec fn is_direction_container(&self, i: int) -> bool {
        self.is_workspace(i) || self.is_split(i)
    }

    pub open spec fn direction(&self, i: int) -> TilingDirection {
        self.nodes@[i].tiling_direction
    }
}

/// Whether container `i` is a layout container: a split or a tabbed one.
pub open spec fn is_layout(t: &ContainerTree, i: int) -> bool {
    t.is_split(i) || t.is_tabbed(i)
}

/// From `old` to `new`, a container changed parent only where it is a
/// layout container or its parent was one.
pub open spec fn parents_kept_outside_layouts(old: &ContainerTree, new: &ContainerTree) -> bool {
    &&& new.len() == old.len()
    &&& forall|y: int|
        0 <= y < new.len() ==> #[trigger] new.parent_of(y) == old.parent_of(y) || is_layout(old, y) || (old.parent_of(
            y,
        ) matches Some(q) && is_layout(old, q as int))
}

/// Two such steps over containers whose kinds stay make one.
proof fn lemma_parents_kept_trans(a: &ContainerTree, b: &ContainerTree, c: &ContainerTree)
    requires
        a.wf(),
        parents_kept_outside_layouts(a, b),
        parents_kept_outside_layouts(b, c),
        forall|i: int| 0 <= i < b.len() ==> (#[trigger] b.nodes@[i]).kind == a.nodes@[i].kind,
    ensures
        parents_kept_outside_layouts(a, c),
{
    assert forall|y: int| 0 <= y < c.len() implies #[trigger] c.parent_of(y) == a.parent_of(y) || is_layout(a, y) || (
    a.parent_of(y) matches Some(q) && is_layout(a, q as int)) by {
        assert(b.nodes@[y].kind == a.nodes@[y].kind);
        if c.parent_of(y) != a.parent_of(y) && !is_layout(a, y) && b.parent_of(y) == a.parent_of(y) {
            assert(c.parent_of(y) != b.parent_of(y));
            if let Some(q) = a.parent_of(y) {
                assert(a.node_wf(y));
                assert(b.nodes@[q as int].kind == a.nodes@[q as int].kind);
            }
        }
    }
}

/// Flattening split `x` changes the parents of `x` and its children only.
proof fn lemma_split_flatten_parents(before: &ContainerTree, after: &ContainerTree, x: int, r: Result<(), TreeError>)
    requires
        before.wf(),
        0 <= x < before.len(),
        before.is_split(x),
        flatten_split_outcome(before, after, x, r),
    ensures
        parents_kept_outside_layouts(before, after),
{
    if before.dissolvable(x) {
        let p = before.parent_of(x).unwrap() as int;
        let (i, f) = choose|i: int, f: int| dissolved_links(before, after, x, p, i, f);
        assert(before.node_wf(x));
        assert forall|y: int| 0 <= y < after.len() implies #[trigger] after.parent_of(y) == before.parent_of(y)
            || is_layout(before, y) || (before.parent_of(y) matches Some(q) && is_layout(before, q as int)) by {
            if y != x && before.ch(x).contains(y as usize) {
                let q = choose|q: int| 0 <= q < before.ch(x).len() && before.ch(x)[q] == y as usize;
                assert(before.parent_of(before.ch(x)[q] as int) == Some(x as usize));
            }
        }
    }
}

/// One step of flattening the children of a direction container with
/// direction `pdir`, for its tiling child `y`: a split with that direction
/// is flattened into it, after its own sole child where that is a split;
/// any other child is left as it is.
pub open spec fn flatten_step(a: &ContainerTree, b: &ContainerTree, y: usize, pdir: TilingDirection) -> bool {
    if a.is_split(y as int) && a.direction(y as int) == pdir {
        exists|c: ContainerTree| {
            &&& #[trigger] flatten_split_outcome(&c, b, y as int, Ok(()))
            &&& if a.ch(y as int).len() == 1 && a.is_split(a.ch(y as int)[0] as int) {
                flatten_split_outcome(a, &c, a.ch(y as int)[0] as int, Ok(()))
            } else {
                c == *a
            }
        }
    } else {
        b.nodes@ == a.nodes@
    }
}

/// One step of removing the empty tab stacks among the children of a
/// direction container, for its tiling child `x`: an empty tabbed
/// container is detached; any other child is left as it is.
pub open spec fn removal_step(a: &ContainerTree, b: &ContainerTree, x: usize) -> bool {
    if a.is_tabbed(x as int) && a.ch(x as int).len() == 0 {
        exists|r: Result<(), TreeError>| #[trigger] crate::attach::detach_outcome(a, b, x as int, r)
    } else {
        b.nodes@ == a.nodes@
    }
}

/// `fs` are the trees met while flattening the split children of `p`, one
/// tiling child of `old` at a time, and `rs` those met while then removing
/// its empty tab stacks, ending at `new`.
pub open spec fn flatten_chains(fs: Seq<ContainerTree>, rs: Seq<ContainerTree>, old: &ContainerTree, new: &ContainerTree, p: usize) -> bool {
    let tcs = crate::tab_commands::tiling_of(old, old.ch(p as int));
    &&& fs.len() == tcs.len() + 1
    &&& rs.len() == tcs.len() + 1
    &&& fs[0] == *old
    &&& rs[0] == fs.last()
    &&& rs.last() == *new
    &&& forall|j: int| 0 <= j < tcs.len() ==> #[trigger] flatten_step(&fs[j], &fs[j + 1], tcs[j], old.direction(p as int))
    &&& forall|j: int| 0 <= j < tcs.len() ==> #[trigger] removal_step(&rs[j], &rs[j + 1], tcs[j])
}

/// What flattening the split and empty tabbed children of `p` leaves
/// (see `flatten_child_split_containers`), for each result `r`.
pub open spec fn children_flattened(old: &ContainerTree, new: &ContainerTree, p: usize, r: Result<(), TreeError>) -> bool {
    &&& new.wf()
    &&& new.len() == old.len()
    &&& parents_kept_outside_layouts(old, new)
    &&& forall|y: int| 0 <= y < new.len() ==> (#[trigger] new.nodes@[y]).kind == old.nodes@[y].kind
    &&& !old.is_direction_container(p as int) ==> r is Ok && new.nodes@ == old.nodes@
    &&& old.is_direction_container(p as int) && crate::tab_commands::tiling_of(old, old.ch(p as int)).len() == 1 ==> {
        let c0 = crate::tab_commands::tiling_of(old, old.ch(p as int))[0] as int;
        &&& old.is_split(c0) ==> exists|mid: ContainerTree| {
            &&& #[trigger] flatten_split_outcome(old, &mid, c0, r)
            &&& r is Ok ==> new.direction(p as int) == mid.direction(p as int).spec_inverse()
            &&& r is Ok ==> forall|y: int| 0 <= y < new.len() ==> {
                &&& (#[trigger] new.nodes@[y]).kind == mid.nodes@[y].kind
                &&& new.nodes@[y].parent == mid.nodes@[y].parent
                &&& new.nodes@[y].children@ == mid.nodes@[y].children@
                &&& new.nodes@[y].focus_order@ == mid.nodes@[y].focus_order@
                &&& new.nodes@[y].tiling_size == mid.nodes@[y].tiling_size
                &&& y != p ==> new.nodes@[y].tiling_direction == mid.nodes@[y].tiling_direction
            }
            &&& r is Err ==> new.nodes@ == mid.nodes@
        }
        &&& old.is_tabbed(c0) && old.ch(c0).len() == 0 ==> r is Ok && new.parent_of(c0) is None
        &&& !old.is_split(c0) && !(old.is_tabbed(c0) && old.ch(c0).len() == 0) ==> r is Ok
            && new.nodes@ == old.nodes@
    }
    &&& old.is_direction_container(p as int) && crate::tab_commands::tiling_of(old, old.ch(p as int)).len() != 1 && r is Ok
        ==> forall|k: int| 0 <= k < crate::tab_commands::tiling_of(old, old.ch(p as int)).len() ==> {
            let y = #[trigger] crate::tab_commands::tiling_of(old, old.ch(p as int))[k] as int;
            &&& old.is_split(y) && old.direction(y) == old.direction(p as int) ==> new.parent_of(y) is None
            &&& old.is_tabbed(y) && old.ch(y).len() == 0 ==> new.parent_of(y) is None
        }
    &&& old.is_direction_container(p as int) && crate::tab_commands::tiling_of(old, old.ch(p as int)).len() != 1 && r is Ok
        ==> exists|fs: Seq<ContainerTree>, rs: Seq<ContainerTree>| #[trigger] flatten_chains(fs, rs, old, new, p)
}

/// Flattens redundant layout containers under the direction container
/// `p` (a workspace or a split). A sole tiling child that is a split is
/// flattened and `p` takes the inverse direction; a sole tiling child that
/// is an empty tabbed container is removed. Otherwise each split child
/// with `p`'s direction is flattened (after its own sole split child,
/// if it has one), and each empty tabbed child is removed.
pub fn flatten_child_split_containers(tree: &mut ContainerTree, p: usize) -> (r: Result<(), TreeError>)
    requires
        old(tree).wf(),
        (p as int) < old(tree).len(),
    ensures
        children_flattened(old(tree), final(tree), p, r),
{
    let ghost t0 = *old(tree);
    if !(tree.workspace_node(p) || tree.split(p)) {
        return Ok(());
    }
    let tc = tree.tiling_children(p);
    if tc.len() == 1 {
        let c0 = tc[0];
        if tree.split(c0) {
            let r = tree.flatten_split_container(c0);
            let ghost mid = *tree;
            proof {
                lemma_tiling_of_members(&t0, t0.ch(p as int));
                lemma_split_flatten_parents(&t0, &mid, c0 as int, r);
            }
            if r.is_err() {
                proof {
                    assert(flatten_split_outcome(&t0, &mid, c0 as int, r));
                }
                return r;
            }
            let d = tree.nodes[p].tiling_direction.inverse();
            tree.set_tiling_direction_of(p, d);
            proof {
                assert(flatten_split_outcome(&t0, &mid, c0 as int, Ok(())));
                assert(parents_kept_outside_layouts(&mid, tree));
                lemma_parents_kept_trans(&t0, &mid, tree);
            }
            return Ok(());
        }
        if tree.tabbed(c0) && tree.nodes[c0].children.len() == 0 {
            proof {
                lemma_tiling_of_members(&t0, t0.ch(p as int));
                assert(t0.node_wf(p as int));
                assert(t0.ch(p as int).contains(c0));
            }
            let r = tree.flatten_empty_tabbed_container(c0);
            proof {
                assert forall|y: int| 0 <= y < tree.len() implies #[trigger] tree.parent_of(y) == t0.parent_of(y)
                    || is_layout(&t0, y) || (t0.parent_of(y) matches Some(q) && is_layout(&t0, q as int)) by {
                    if y != c0 && tree.parent_of(y) != t0.parent_of(y) {
                        assert(crate::attach::emptied_layout(tree, y));
                        assert(tree.nodes@[y].kind == t0.nodes@[y].kind);
                    }
                }
            }
            return r;
        }
        return Ok(());
    }
    let ghost tcs = tc@;
    let pdir = tree.nodes[p].tiling_direction;
    let ghost mut fs: Seq<ContainerTree> = seq![t0];
    let mut k: usize = 0;
    while k < tc.len()
        invariant
            tree.wf(),
            tree.len() == t0.len(),
            t0.wf(),
            t0 == *old(tree),
            tc@ == tcs,
            tcs == crate::tab_commands::tiling_of(&t0, t0.ch(p as int)),
            forall|j: int| 0 <= j < tcs.len() ==> (#[trigger] tcs[j] as int) < t0.len(),
            (p as int) < t0.len(),
            t0.is_direction_container(p as int),
            tcs.len() != 1,
            pdir == t0.direction(p as int),
            k <= tcs.len(),
            forall|y: int| 0 <= y < tree.len() ==> (#[trigger] tree.nodes@[y]).kind == t0.nodes@[y].kind
                && tree.nodes@[y].tiling_direction == t0.nodes@[y].tiling_direction,
            forall|y: int| 0 <= y < tree.len() && t0.is_tabbed(y) && t0.ch(y).len() == 0 ==> #[trigger] tree.ch(y).len() == 0,
            forall|j: int| 0 <= j < k ==> {
                let y = #[trigger] tcs[j] as int;
                t0.is_split(y) && t0.direction(y) == t0.direction(p as int) ==> tree.parent_of(y) is None
            },
            parents_kept_outside_layouts(&t0, tree),
            fs.len() == k + 1,
            fs[0] == t0,
            fs.last() == *tree,
            forall|j: int| 0 <= j < k ==> #[trigger] flatten_step(&fs[j], &fs[j + 1], tcs[j], pdir),
        decreases tcs.len() - k,
    {
        let ghost a = *tree;
        let s = tc[k];
        if tree.split(s) && tree.nodes[s].tiling_direction == pdir {
            if tree.nodes[s].children.len() == 1 {
                let g = tree.nodes[s].children[0];
                proof {
                    assert(tree.node_wf(s as int));
                    assert(tree.valid(tree.ch(s as int)[0] as int));
                }
                if tree.split(g) {
                    let ghost before = *tree;
                    let r = tree.flatten_split_container(g);
                    proof {
                        lemma_split_flatten_parents(&before, tree, g as int, r);
                        lemma_parents_kept_trans(&t0, &before, tree);
                    }
                    if r.is_err() {
                        return r;
                    }
                    proof {
                        lemma_split_flatten_keeps(&before, tree, g as int);
                        assert(r == Ok::<(), TreeError>(r->Ok_0));
                    }
                }
            }
            let ghost before = *tree;
            let r = tree.flatten_split_container(s);
            proof {
                lemma_split_flatten_parents(&before, tree, s as int, r);
                lemma_parents_kept_trans(&t0, &before, tree);
            }
            if r.is_err() {
                return r;
            }
            proof {
                lemma_split_flatten_keeps(&before, tree, s as int);
                assert(r == Ok::<(), TreeError>(r->Ok_0));
                assert(flatten_split_outcome(&before, tree, s as int, Ok(())));
                assert(flatten_step(&a, tree, s, pdir));
            }
        }
        proof {
            assert(flatten_step(&a, tree, s, pdir));
            let next = fs.push(*tree);
            assert forall|j: int| 0 <= j < k + 1 implies #[trigger] flatten_step(&next[j], &next[j + 1], tcs[j], pdir) by {
                if j < k {
                    assert(next[j] == fs[j] && next[j + 1] == fs[j + 1]);
                } else {
                    assert(next[j] == a && next[j + 1] == *tree);
                }
            }
            fs = next;
        }
        k = k + 1;
    }
    let ghost mut rs: Seq<ContainerTree> = seq![*tree];
    proof {
        assert(pdir == t0.direction(p as int));
    }
    let mut k: usize = 0;
    while k < tc.len()
        invariant
            tree.wf(),
            tree.len() == t0.len(),
            t0.wf(),
            t0 == *old(tree),
            tc@ == tcs,
            tcs == crate::tab_commands::tiling_of(&t0, t0.ch(p as int)),
            forall|j: int| 0 <= j < tcs.len() ==> (#[trigger] tcs[j] as int) < t0.len(),
            k <= tcs.len(),
            forall|y: int| 0 <= y < tree.len() ==> (#[trigger] tree.nodes@[y]).kind == t0.nodes@[y].kind,
            forall|y: int| 0 <= y < tree.len() && t0.is_tabbed(y) && t0.ch(y).len() == 0 ==> #[trigger] tree.ch(y).len() == 0,
            forall|j: int| 0 <= j < tcs.len() ==> {
                let y = #[trigger] tcs[j] as int;
                t0.is_split(y) && t0.direction(y) == t0.direction(p as int) ==> tree.parent_of(y) is None
            },
            forall|j: int| 0 <= j < k ==> {
                let y = #[trigger] tcs[j] as int;
                t0.is_tabbed(y) && t0.ch(y).len() == 0 ==> tree.parent_of(y) is None
            },
            parents_kept_outside_layouts(&t0, tree),
            fs.len() == tcs.len() + 1,
            fs[0] == t0,
            forall|j: int| 0 <= j < tcs.len() ==> #[trigger] flatten_step(&fs[j], &fs[j + 1], tcs[j], t0.direction(p as int)),
            rs.len() == k + 1,
            rs[0] == fs.last(),
            rs.last() == *tree,
            forall|j: int| 0 <= j < k ==> #[trigger] removal_step(&rs[j], &rs[j + 1], tcs[j]),
        decreases tcs.len() - k,
    {
        let ghost a = *tree;
        let x = tc[k];
        proof {
            assert(tree.nodes@[x as int].kind == t0.nodes@[x as int].kind);
            if t0.is_tabbed(x as int) && t0.ch(x as int).len() == 0 {
                assert(tree.ch(x as int).len() == 0);
            }
        }
        if tree.tabbed(x) && tree.nodes[x].children.len() == 0 {
            let ghost before = *tree;
            let r = tree.flatten_empty_tabbed_container(x);
            proof {
                assert(parents_kept_outside_layouts(&before, tree)) by {
                    assert forall|y: int| 0 <= y < tree.len() implies #[trigger] tree.parent_of(y) == before.parent_of(y)
                        || is_layout(&before, y) || (before.parent_of(y) matches Some(q) && is_layout(&before, q as int)) by {
                        assert(tree.nodes@[y].kind == before.nodes@[y].kind);
                        if y != x && tree.parent_of(y) != before.parent_of(y) {
                            assert(crate::attach::emptied_layout(tree, y));
                        }
                    }
                }
                lemma_parents_kept_trans(&t0, &before, tree);
            }
            if r.is_err() {
                proof {
                    assert(before.parent_of(x as int) is None);
                }
            }
            proof {
                assert forall|y: int| 0 <= y < tree.len() && before.parent_of(y) is None implies #[trigger] tree.parent_of(y) is None by {
                    if y != x as int && tree.parent_of(y) != before.parent_of(y) {
                        assert(crate::attach::emptied_layout(tree, y));
                    }
                }
                assert forall|y: int| 0 <= y < tree.len() && t0.is_tabbed(y) && t0.ch(y).len() == 0 implies #[trigger] tree.ch(y).len() == 0 by {
                    assert(before.ch(y).len() == 0);
                }
                assert(tree.parent_of(x as int) is None);
                assert forall|j: int| 0 <= j < k + 1 implies {
                    let y = #[trigger] tcs[j] as int;
                    t0.is_tabbed(y) && t0.ch(y).len() == 0 ==> tree.parent_of(y) is None
                } by {
                    let y = tcs[j] as int;
                    if j < k && t0.is_tabbed(y) && t0.ch(y).len() == 0 {
                        assert(before.parent_of(y) is None);
                    }
                }
                assert forall|j: int| 0 <= j < tcs.len() implies {
                    let y = #[trigger] tcs[j] as int;
                    t0.is_split(y) && t0.direction(y) == t0.direction(p as int) ==> tree.parent_of(y) is None
                } by {
                    let y = tcs[j] as int;
                    if t0.is_split(y) && t0.direction(y) == t0.direction(p as int) {
                        assert(before.parent_of(y) is None);
                    }
                }
                assert(crate::attach::detach_outcome(&before, tree, x as int, r));
            }
        }
        proof {
            assert(removal_step(&a, tree, x));
            let next = rs.push(*tree);
            assert forall|j: int| 0 <= j < k + 1 implies #[trigger] removal_step(&next[j], &next[j + 1], tcs[j]) by {
                if j < k {
                    assert(next[j] == rs[j] && next[j + 1] == rs[j + 1]);
                } else {
                    assert(next[j] == a && next[j + 1] == *tree);
                }
            }
            rs = next;
        }
        k = k + 1;
    }
    proof {
        assert(flatten_chains(fs, rs, &t0, tree, p));
    }
    Ok(())
}

/// The tiling containers of `s` are elements of `s`, and tiling.
pub proof fn lemma_tiling_of_members(t: &ContainerTree, s: Seq<usize>)
    ensures
        forall|k: int| 0 <= k < crate::tab_commands::tiling_of(t, s).len() ==> s.contains(
            #[trigger] crate::tab_commands::tiling_of(t, s)[k],
        ) && t.is_tiling(crate::tab_commands::tiling_of(t, s)[k] as int),
    decreases s.len(),
{
    if s.len() > 0 {
        let d = s.drop_last();
        lemma_tiling_of_members(t, d);
        let r = crate::tab_commands::tiling_of(t, d);
        assert forall|k: int| 0 <= k < crate::tab_commands::tiling_of(t, s).len() implies s.contains(
            #[trigger] crate::tab_commands::tiling_of(t, s)[k],
        ) && t.is_tiling(crate::tab_commands::tiling_of(t, s)[k] as int) by {
            let x = crate::tab_commands::tiling_of(t, s)[k];
            if k < r.len() {
                assert(x == r[k]);
                let q = choose|q: int| 0 <= q < d.len() && d[q] == x;
                assert(s[q] == x);
            } else {
                assert(x == s.last());
                assert(s[s.len() - 1] == x);
            }
        }
    }
}

/// Flattening a split leaves detached containers detached and empty
/// ones empty.
proof fn lemma_split_flatten_keeps(before: &ContainerTree, after: &ContainerTree, x: int)
    requires
        before.wf(),
        0 <= x < before.len(),
        flatten_split_outcome(before, after, x, Ok(())),
    ensures
        after.parent_of(x) is None,
        forall|y: int| 0 <= y < after.len() && before.parent_of(y) is None ==> #[trigger] after.parent_of(y) is None,
        forall|y: int| 0 <= y < after.len() && before.ch(y).len() == 0 ==> #[trigger] after.ch(y).len() == 0,
{
    assert(before.dissolvable(x));
    let p = before.parent_of(x).unwrap() as int;
    let (i, f) = choose|i: int, f: int| dissolved_links(before, after, x, p, i, f);
    assert(before.node_wf(x));
    assert forall|y: int| 0 <= y < after.len() && before.parent_of(y) is None implies #[trigger] after.parent_of(y) is None by {
        if y != x && before.ch(x).contains(y as usize) {
            let q = choose|q: int| 0 <= q < before.ch(x).len() && before.ch(x)[q] == y as usize;
            assert(before.parent_of(before.ch(x)[q] as int) == Some(x as usize));
        }
    }
    assert forall|y: int| 0 <= y < after.len() && before.ch(y).len() == 0 implies #[trigger] after.ch(y).len() == 0 by {
        if y == p {
            assert(before.ch(p)[i] == x as usize);
        }
    }
}

} // verus!
