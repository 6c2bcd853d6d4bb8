//! Tiling sizes: the share of its parent's layout that each tiling
//! container takes.
use vstd::prelude::*;

use crate::geometry::div_trunc;
use crate::links::same_content;
use crate::tree::{
    kind_is_tiling, ContainerKind, ContainerTree, Node, MAX_TILING_SIZE, MIN_TILING_SIZE, SIZE_ONE,
};

verus! {

/// Sum of the tiling sizes of the tiling containers among `ids`.
pub open spec fn tiling_sum(nodes: Seq<Node>, ids: Seq<usize>) -> int
    decreases ids.len(),
{
    if ids.len() == 0 {
        0
    } else {
        tiling_sum(nodes, ids.drop_last()) + if kind_is_tiling(nodes[ids.last() as int].kind) {
            nodes[ids.last() as int].tiling_size as int
        } else {
            0
        }
    }
}

/// Number of tiling containers among `ids`.
pub open spec fn tiling_count(nodes: Seq<Node>, ids: Seq<usize>) -> int
    decreases ids.len(),
{
    if ids.len() == 0 {
        0
    } else {
        tiling_count(nodes, ids.drop_last()) + if kind_is_tiling(nodes[ids.last() as int].kind) {
            1int
        } else {
            0int
        }
    }
}

/// Size above the minimum held by the tiling containers among `ids`.
pub open spec fn tiling_avail(nodes: Seq<Node>, ids: Seq<usize>) -> int {
    tiling_sum(nodes, ids) - MIN_TILING_SIZE * tiling_count(nodes, ids)
}

/// Clamps an integer into the range of tiling sizes.
pub open spec fn clamp_size(x: int) -> u64 {
    if x < 0 {
        0
    } else if x > MAX_TILING_SIZE {
        MAX_TILING_SIZE
    } else {
        x as u64
    }
}

/// A size rescaled so that sizes summing to `total` sum to one.
pub open spec fn normalized(s: int, total: int, count: int) -> u64 {
    if total > 0 {
        clamp_size(s * SIZE_ONE / total)
    } else if count > 0 {
        clamp_size((SIZE_ONE as int) / count)
    } else {
        SIZE_ONE
    }
}

/// The new size of a remaining tiling sibling after a sibling of size
/// `removed` left. In a tabbed parent sizes are renormalized. In other
/// parents the freed size is shared out in proportion to each sibling's
/// size above the minimum; if no sibling is above the minimum they are
/// renormalized instead.
pub open spec fn size_after_removal(
    tabbed: bool,
    s: int,
    removed: int,
    avail: int,
    total: int,
    count: int,
) -> u64 {
    if tabbed {
        normalized(s, total, count)
    } else if avail > 0 {
        clamp_size(s + div_trunc((s - MIN_TILING_SIZE) * removed, avail))
    } else {
        normalized(s, total, count)
    }
}

/// The tree with only tiling sizes changed.
pub open spec fn same_but_sizes(a: &ContainerTree, b: &ContainerTree) -> bool {
    &&& a.len() == b.len()
    &&& forall|i: int|
        0 <= i < a.len() ==> {
            &&& (#[trigger] a.nodes@[i]).kind == b.nodes@[i].kind
            &&& a.nodes@[i].parent == b.nodes@[i].parent
            &&& a.nodes@[i].children@ == b.nodes@[i].children@
            &&& a.nodes@[i].focus_order@ == b.nodes@[i].focus_order@
            &&& a.nodes@[i].tiling_direction == b.nodes@[i].tiling_direction
        }
}

proof fn lemma_sum_step(nodes: Seq<Node>, ids: Seq<usize>, j: int)
    requires
        0 <= j < ids.len(),
    ensures
        tiling_sum(nodes, ids.take(j + 1)) == tiling_sum(nodes, ids.take(j)) + if kind_is_tiling(
            nodes[ids[j] as int].kind,
        ) {
            nodes[ids[j] as int].tiling_size as int
        } else {
            0
        },
        tiling_count(nodes, ids.take(j + 1)) == tiling_count(nodes, ids.take(j)) + if kind_is_tiling(
            nodes[ids[j] as int].kind,
        ) {
            1int
        } else {
            0int
        },
{
    assert(ids.take(j + 1).drop_last() =~= ids.take(j));
}

/// Sums and counts over a sequence only depend on the kinds and sizes of
/// the nodes it names.
pub proof fn lemma_sum_same_nodes(a: Seq<Node>, b: Seq<Node>, ids: Seq<usize>)
    requires
        forall|k: int|
            0 <= k < ids.len() ==> (#[trigger] a[ids[k] as int]).kind == b[ids[k] as int].kind
                && a[ids[k] as int].tiling_size == b[ids[k] as int].tiling_size,
    ensures
        tiling_sum(a, ids) == tiling_sum(b, ids),
        tiling_count(a, ids) == tiling_count(b, ids),
    decreases ids.len(),
{
    if ids.len() > 0 {
        let d = ids.drop_last();
        assert forall|k: int| 0 <= k < d.len() implies (#[trigger] a[d[k] as int]).kind
            == b[d[k] as int].kind && a[d[k] as int].tiling_size == b[d[k] as int].tiling_size by {
            assert(d[k] == ids[k]);
        }
        lemma_sum_same_nodes(a, b, d);
        assert(a[ids[ids.len() - 1] as int].kind == b[ids[ids.len() - 1] as int].kind);
    }
}

/// Bounds on sums and counts.
pub proof fn lemma_sum_bounds(nodes: Seq<Node>, ids: Seq<usize>)
    requires
        forall|k: int|
            0 <= k < ids.len() ==> (#[trigger] nodes[ids[k] as int]).tiling_size
                <= MAX_TILING_SIZE,
    ensures
        0 <= tiling_sum(nodes, ids) <= ids.len() * MAX_TILING_SIZE,
        0 <= tiling_count(nodes, ids) <= ids.len(),
        tiling_count(nodes, ids) == 0 ==> tiling_sum(nodes, ids) == 0,
    decreases ids.len(),
{
    if ids.len() > 0 {
        let d = ids.drop_last();
        assert forall|k: int| 0 <= k < d.len() implies (#[trigger] nodes[d[k] as int]).tiling_size
            <= MAX_TILING_SIZE by {
            assert(d[k] == ids[k]);
        }
        lemma_sum_bounds(nodes, d);
        assert(nodes[ids[ids.len() - 1] as int].tiling_size <= MAX_TILING_SIZE);
    }
}

/// Clamps an `i128` into the range of tiling sizes.
pub(crate) fn clamp_size_i128(x: i128) -> (r: u64)
    ensures
        r == clamp_size(x as int),
{
    if x < 0 {
        0
    } else if x > MAX_TILING_SIZE as i128 {
        MAX_TILING_SIZE
    } else {
        x as u64
    }
}

/// Computes `normalized` for sizes within bounds.
fn normalized_exec(s: u64, total: u128, count: usize) -> (r: u64)
    requires
        s <= MAX_TILING_SIZE,
    ensures
        r == normalized(s as int, total as int, count as int),
{
    if total > 0 {
        proof {
            assert(s * SIZE_ONE <= 0x4000_0000_0000_0000 * 1_000_000_000) by (nonlinear_arith)
                requires
                    s <= 0x4000_0000_0000_0000,
            ;
        }
        let num: u128 = s as u128 * SIZE_ONE as u128;
        let q: u128 = num / total;
        if q > MAX_TILING_SIZE as u128 {
            MAX_TILING_SIZE
        } else {
            q as u64
        }
    } else if count > 0 {
        (SIZE_ONE / count as u64) as u64
    } else {
        SIZE_ONE
    }
}

/// Computes `size_after_removal` for sizes within bounds.
pub fn size_after_removal_exec(
    tabbed: bool,
    s: u64,
    removed: u64,
    avail: i128,
    total: u128,
    count: usize,
) -> (r: u64)
    requires
        s <= MAX_TILING_SIZE,
        removed <= MAX_TILING_SIZE,
    ensures
        r == size_after_removal(
            tabbed,
            s as int,
            removed as int,
            avail as int,
            total as int,
            count as int,
        ),
{
    if tabbed {
        normalized_exec(s, total, count)
    } else if avail > 0 {
        let d: i128 = s as i128 - MIN_TILING_SIZE as i128;
        proof {
            assert(-0x1000_0000_0000_0000_0000_0000_0000_0000 <= d * removed
                <= 0x1000_0000_0000_0000_0000_0000_0000_0000) by (nonlinear_arith)
                requires
                    -0x4000_0000_0000_0000 <= d <= 0x4000_0000_0000_0000,
                    0 <= removed <= 0x4000_0000_0000_0000,
            ;
        }
        let num: i128 = d * removed as i128;
        let q: i128 = if num >= 0 {
            num / avail
        } else {
            let m: i128 = -num;
            -(m / avail)
        };
        proof {
            if num >= 0 {
                assert(0 <= num / avail <= num) by (nonlinear_arith)
                    requires
                        num >= 0,
                        avail > 0,
                ;
            } else {
                assert(0 <= (-(num as int)) / (avail as int) <= -(num as int)) by (nonlinear_arith)
                    requires
                        num < 0,
                        avail > 0,
                ;
            }
        }
        clamp_size_i128(s as i128 + q)
    } else {
        normalized_exec(s, total, count)
    }
}

impl ContainerTree {
    /// Sets the tiling size of one container.
    pub fn set_tiling_size(&mut self, c: usize, size: u64)
        requires
            old(self).wf(),
            (c as int) < old(self).len(),
            size <= MAX_TILING_SIZE,
        ensures
            final(self).wf(),
            same_but_sizes(final(self), old(self)),
            final(self).size(c as int) == size,
            forall|i: int|
                0 <= i < final(self).len() && i != c ==> #[trigger] final(self).size(i) == old(self).size(i),
    {
        let ghost old_t = *old(self);
        self.nodes[c].tiling_size = size;
        proof {
            let t = *self;
            assert forall|i: int| 0 <= i < t.len() implies #[trigger] t.node_wf(i) by {
                assert(old_t.node_wf(i));
                assert(t.ch(i) == old_t.ch(i));
                assert(t.fo(i) == old_t.fo(i));
                assert forall|k: int| 0 <= k < t.ch(i).len() implies {
                    let x = #[trigger] t.ch(i)[k];
                    &&& t.valid(x as int)
                    &&& t.parent_of(x as int) == Some(i as usize)
                } by {
                    assert(old_t.ch(i)[k] == t.ch(i)[k]);
                }
                if t.parent_of(i) is Some {
                    let q = t.parent_of(i).unwrap();
                    assert(t.ch(q as int) == old_t.ch(q as int));
                }
            }
        }
    }

    /// Sum, size above the minimum, and number of the tiling children
    /// of `p`.
    pub fn tiling_totals(&self, p: usize) -> (r: (u128, i128, usize))
        requires
            self.wf(),
            (p as int) < self.len(),
        ensures
            r.0 == tiling_sum(self.nodes@, self.ch(p as int)),
            r.1 == tiling_avail(self.nodes@, self.ch(p as int)),
            r.2 == tiling_count(self.nodes@, self.ch(p as int)),
    {
        let ghost ids = self.ch(p as int);
        proof {
            assert(self.node_wf(p as int));
            assert forall|k: int| 0 <= k < ids.len() implies (#[trigger] self.nodes@[ids[k] as int]).tiling_size
                <= MAX_TILING_SIZE by {
                assert(self.valid(ids[k] as int));
                assert(self.node_wf(ids[k] as int));
            }
        }
        let n = self.nodes[p].children.len();
        let mut sum: u128 = 0;
        let mut count: usize = 0;
        let mut j: usize = 0;
        while j < n
            invariant
                self.wf(),
                (p as int) < self.len(),
                ids == self.ch(p as int),
                n == ids.len(),
                j <= n,
                forall|k: int|
                    0 <= k < ids.len() ==> (#[trigger] self.nodes@[ids[k] as int]).tiling_size
                        <= MAX_TILING_SIZE,
                sum == tiling_sum(self.nodes@, ids.take(j as int)),
                count == tiling_count(self.nodes@, ids.take(j as int)),
            decreases n - j,
        {
            let c = self.nodes[p].children[j];
            proof {
                lemma_sum_step(self.nodes@, ids, j as int);
                assert(self.node_wf(p as int));
                assert(self.valid(c as int));
                let tk = ids.take(j + 1);
                assert forall|k: int| 0 <= k < tk.len() implies (#[trigger] self.nodes@[tk[k] as int]).tiling_size
                    <= MAX_TILING_SIZE by {
                    assert(tk[k] == ids[k]);
                }
                lemma_sum_bounds(self.nodes@, tk);
                assert(tk.len() <= n);
                assert(tk.len() * MAX_TILING_SIZE <= 0xffff_ffff_ffff_ffff * MAX_TILING_SIZE)
                    by (nonlinear_arith)
                    requires
                        tk.len() <= 0xffff_ffff_ffff_ffff,
                ;
            }
            if self.tiling(c) {
                sum = sum + self.nodes[c].tiling_size as u128;
                count = count + 1;
            }
            j = j + 1;
        }
        proof {
            assert(ids.take(n as int) =~= ids);
            lemma_sum_bounds(self.nodes@, ids);
            assert(ids.len() * MAX_TILING_SIZE <= 0xffff_ffff_ffff_ffff * MAX_TILING_SIZE)
                by (nonlinear_arith)
                requires
                    ids.len() <= 0xffff_ffff_ffff_ffff,
            ;
        }
        let avail: i128 = sum as i128 - (MIN_TILING_SIZE as i128) * (count as i128);
        (sum, avail, count)
    }
}


/// `same_but_sizes` is an equivalence along a chain of edits.
pub proof fn lemma_same_but_sizes_trans(a: &ContainerTree, b: &ContainerTree, c: &ContainerTree)
    requires
        same_but_sizes(a, b),
        same_but_sizes(b, c),
    ensures
        same_but_sizes(a, c),
{
    assert forall|i: int| 0 <= i < a.len() implies {
        &&& (#[trigger] a.nodes@[i]).kind == c.nodes@[i].kind
        &&& a.nodes@[i].parent == c.nodes@[i].parent
        &&& a.nodes@[i].children@ == c.nodes@[i].children@
        &&& a.nodes@[i].focus_order@ == c.nodes@[i].focus_order@
        &&& a.nodes@[i].tiling_direction == c.nodes@[i].tiling_direction
    } by {
        assert(b.nodes@[i].kind == c.nodes@[i].kind);
    }
}

impl ContainerTree {
    /// After a tiling child of size `removed` has left `p`, gives every
    /// remaining tiling child of `p` its new size (`size_after_removal`).
    pub fn redistribute_after_removal(&mut self, p: usize, removed: u64)
        requires
            old(self).wf(),
            (p as int) < old(self).len(),
            removed <= MAX_TILING_SIZE,
        ensures
            final(self).wf(),
            same_but_sizes(final(self), old(self)),
            forall|k: int|
                0 <= k < old(self).ch(p as int).len() && old(self).is_tiling(
                    old(self).ch(p as int)[k] as int,
                ) ==> #[trigger] final(self).size(old(self).ch(p as int)[k] as int)
                    == size_after_removal(
                    old(self).is_tabbed(p as int),
                    old(self).size(old(self).ch(p as int)[k] as int) as int,
                    removed as int,
                    tiling_avail(old(self).nodes@, old(self).ch(p as int)),
                    tiling_sum(old(self).nodes@, old(self).ch(p as int)),
                    tiling_count(old(self).nodes@, old(self).ch(p as int)),
                ),
            forall|i: int|
                0 <= i < final(self).len() && !(old(self).ch(p as int).contains(i as usize)
                    && old(self).is_tiling(i)) ==> #[trigger] final(self).size(i) == old(self).size(i),
    {
        let ghost old_t = *old(self);
        let (sum, avail, count) = self.tiling_totals(p);
        let tabbed = self.tabbed(p);
        let n = self.nodes[p].children.len();
        let ghost ids = old_t.ch(p as int);
        proof {
            assert(old_t.node_wf(p as int));
        }
        let mut j: usize = 0;
        while j < n
            invariant
                self.wf(),
                same_but_sizes(self, &old_t),
                old_t.wf(),
                (p as int) < old_t.len(),
                ids == old_t.ch(p as int),
                ids.no_duplicates(),
                old_t.children_linked(p as int),
                n == ids.len(),
                j <= n,
                tabbed == old_t.is_tabbed(p as int),
                sum == tiling_sum(old_t.nodes@, ids),
                avail == tiling_avail(old_t.nodes@, ids),
                count == tiling_count(old_t.nodes@, ids),
                removed <= MAX_TILING_SIZE,
                forall|k: int|
                    0 <= k < j && old_t.is_tiling(ids[k] as int) ==> #[trigger] self.size(
                        ids[k] as int,
                    ) == size_after_removal(
                        tabbed,
                        old_t.size(ids[k] as int) as int,
                        removed as int,
                        avail as int,
                        sum as int,
                        count as int,
                    ),
                forall|i: int|
                    0 <= i < self.len() && !(ids.take(j as int).contains(i as usize)
                        && old_t.is_tiling(i)) ==> #[trigger] self.size(i) == old_t.size(i),
            decreases n - j,
        {
            let c = self.nodes[p].children[j];
            proof {
                assert(self.ch(p as int) == ids);
                assert(c == ids[j as int]);
                assert(old_t.valid(c as int));
                assert(!ids.take(j as int).contains(c)) by {
                    if ids.take(j as int).contains(c) {
                        let m = choose|m: int| 0 <= m < j && ids.take(j as int)[m] == c;
                        assert(ids[m] == ids[j as int]);
                    }
                }
                assert(self.size(c as int) == old_t.size(c as int));
                assert(old_t.node_wf(c as int));
            }
            if self.tiling(c) {
                let s = self.nodes[c].tiling_size;
                let v = size_after_removal_exec(tabbed, s, removed, avail, sum, count);
                let ghost before = *self;
                self.set_tiling_size(c, v);
                proof {
                    lemma_same_but_sizes_trans(self, &before, &old_t);
                }
            }
            proof {
                let t = *self;
                assert forall|i: int|
                    0 <= i < t.len() && !(ids.take(j + 1).contains(i as usize) && old_t.is_tiling(
                        i,
                    )) implies #[trigger] t.size(i) == old_t.size(i) by {
                    if ids.take(j as int).contains(i as usize) {
                        let m = choose|m: int| 0 <= m < j && ids.take(j as int)[m] == i as usize;
                        assert(ids.take(j + 1)[m] == i as usize);
                    }
                    if i == c as int {
                        assert(ids.take(j + 1)[j as int] == c);
                    }
                }
            }
            j = j + 1;
        }
        proof {
            assert(ids.take(n as int) =~= ids);
        }
    }
}

/// The size of an existing tiling sibling once a new tiling container
/// joins `n` of them: it keeps the share `n / (n + 1)` of its size.
pub open spec fn size_after_addition(s: int, n: int) -> u64 {
    clamp_size(s * n / (n + 1))
}

impl ContainerTree {
    /// Gives a tiling child `c` that just joined `p` the size `1 / (n + 1)`,
    /// where `n` is the number of its tiling siblings, and shrinks each
    /// sibling to `n / (n + 1)` of its size. A child without tiling
    /// siblings takes the whole size. Nothing happens for a child that is
    /// not a tiling container.
    pub fn fit_new_child(&mut self, p: usize, c: usize)
        requires
            old(self).wf(),
            (p as int) < old(self).len(),
            old(self).ch(p as int).contains(c),
        ensures
            final(self).wf(),
            same_but_sizes(final(self), old(self)),
            old(self).is_tiling(c as int) ==> final(self).size(c as int) == (if tiling_count(
                old(self).nodes@,
                old(self).ch(p as int),
            ) <= 1 {
                SIZE_ONE
            } else {
                clamp_size(SIZE_ONE as int / tiling_count(old(self).nodes@, old(self).ch(p as int)))
            }),
            forall|k: int|
                0 <= k < old(self).ch(p as int).len() && old(self).ch(p as int)[k] != c
                    && old(self).is_tiling(c as int) && old(self).is_tiling(
                    old(self).ch(p as int)[k] as int,
                ) ==> #[trigger] final(self).size(old(self).ch(p as int)[k] as int)
                    == size_after_addition(
                    old(self).size(old(self).ch(p as int)[k] as int) as int,
                    tiling_count(old(self).nodes@, old(self).ch(p as int)) - 1,
                ),
            forall|i: int|
                0 <= i < final(self).len() && !(old(self).is_tiling(c as int)
                    && old(self).ch(p as int).contains(i as usize) && old(self).is_tiling(i))
                    ==> #[trigger] final(self).size(i) == old(self).size(i),
    {
        let ghost old_t = *old(self);
        proof {
            assert(old_t.node_wf(p as int));
            let k0 = choose|k: int| 0 <= k < old_t.ch(p as int).len() && old_t.ch(p as int)[k] == c;
            assert(old_t.ch(p as int)[k0] == c);
        }
        if !self.tiling(c) {
            return;
        }
        let (_sum, _avail, count) = self.tiling_totals(p);
        let ghost ids = old_t.ch(p as int);
        proof {
            assert(old_t.node_wf(p as int));
            let k0 = choose|k: int| 0 <= k < ids.len() && ids[k] == c;
            lemma_count_positive(old_t.nodes@, ids, k0);
        }
        let n = self.nodes[p].children.len();
        let sib: u64 = (count - 1) as u64;
        let mut j: usize = 0;
        while j < n
            invariant
                self.wf(),
                same_but_sizes(self, &old_t),
                old_t.wf(),
                (p as int) < old_t.len(),
                ids == old_t.ch(p as int),
                ids.no_duplicates(),
                old_t.children_linked(p as int),
                ids.contains(c),
                old_t.is_tiling(c as int),
                n == ids.len(),
                j <= n,
                count == tiling_count(old_t.nodes@, ids),
                count >= 1,
                sib == count - 1,
                forall|k: int|
                    0 <= k < j && ids[k] != c && old_t.is_tiling(ids[k] as int) ==> #[trigger] self.size(
                        ids[k] as int,
                    ) == size_after_addition(old_t.size(ids[k] as int) as int, sib as int),
                forall|i: int|
                    0 <= i < self.len() && !(ids.take(j as int).contains(i as usize)
                        && old_t.is_tiling(i) && i != c) ==> #[trigger] self.size(i) == old_t.size(i),
            decreases n - j,
        {
            let x = self.nodes[p].children[j];
            proof {
                assert(self.ch(p as int) == ids);
                assert(x == ids[j as int]);
                assert(old_t.valid(x as int));
                assert(!ids.take(j as int).contains(x)) by {
                    if ids.take(j as int).contains(x) {
                        let m = choose|m: int| 0 <= m < j && ids.take(j as int)[m] == x;
                        assert(ids[m] == ids[j as int]);
                    }
                }
                assert(old_t.node_wf(x as int));
                assert(self.size(x as int) == old_t.size(x as int));
            }
            if x != c && self.tiling(x) {
                let s = self.nodes[x].tiling_size;
                proof {
                    assert(s * sib <= 0x4000_0000_0000_0000 * 0xffff_ffff_ffff_ffff)
                        by (nonlinear_arith)
                        requires
                            s <= 0x4000_0000_0000_0000,
                            sib <= 0xffff_ffff_ffff_ffff,
                    ;
                    assert(s * sib / (sib + 1) <= s) by (nonlinear_arith)
                        requires
                            0 <= s,
                            0 <= sib,
                    ;
                }
                let v: u128 = (s as u128 * sib as u128) / (sib as u128 + 1);
                let ghost before = *self;
                self.set_tiling_size(x, v as u64);
                proof {
                    lemma_same_but_sizes_trans(self, &before, &old_t);
                }
            }
            proof {
                let t = *self;
                assert forall|i: int|
                    0 <= i < t.len() && !(ids.take(j + 1).contains(i as usize) && old_t.is_tiling(i)
                        && i != c) implies #[trigger] t.size(i) == old_t.size(i) by {
                    if ids.take(j as int).contains(i as usize) {
                        let m = choose|m: int| 0 <= m < j && ids.take(j as int)[m] == i as usize;
                        assert(ids.take(j + 1)[m] == i as usize);
                    }
                    if i == x as int {
                        assert(ids.take(j + 1)[j as int] == x);
                    }
                }
            }
            j = j + 1;
        }
        proof {
            assert(ids.take(n as int) =~= ids);
            assert(self.size(c as int) == old_t.size(c as int));
        }
        let v: u64 = if sib == 0 {
            SIZE_ONE
        } else {
            SIZE_ONE / count as u64
        };
        let ghost before = *self;
        self.set_tiling_size(c, v);
        proof {
            lemma_same_but_sizes_trans(self, &before, &old_t);
            let t = *self;
            assert forall|k: int|
                0 <= k < ids.len() && ids[k] != c && old_t.is_tiling(ids[k] as int) implies #[trigger] t.size(
                ids[k] as int,
            ) == size_after_addition(old_t.size(ids[k] as int) as int, sib as int) by {
                assert(before.size(ids[k] as int) == t.size(ids[k] as int));
            }
        }
    }
}

/// A sequence that names a tiling container counts at least one.
pub proof fn lemma_count_positive(nodes: Seq<Node>, ids: Seq<usize>, k: int)
    requires
        0 <= k < ids.len(),
        kind_is_tiling(nodes[ids[k] as int].kind),
    ensures
        tiling_count(nodes, ids) >= 1,
    decreases ids.len(),
{
    if k < ids.len() - 1 {
        let d = ids.drop_last();
        assert(d[k] == ids[k]);
        lemma_count_positive(nodes, d, k);
        lemma_count_nonneg(nodes, ids);
    } else {
        lemma_count_nonneg(nodes, ids.drop_last());
    }
}

/// Counts are never negative.
pub proof fn lemma_count_nonneg(nodes: Seq<Node>, ids: Seq<usize>)
    ensures
        tiling_count(nodes, ids) >= 0,
        tiling_sum(nodes, ids) >= 0,
    decreases ids.len(),
{
    if ids.len() > 0 {
        lemma_count_nonneg(nodes, ids.drop_last());
    }
}
/// A tiling container among `ids` accounts for at least its own size in
/// their sum.
pub proof fn lemma_sum_step_contains(nodes: Seq<Node>, ids: Seq<usize>, c: usize)
    requires
        ids.contains(c),
        kind_is_tiling(nodes[c as int].kind),
    ensures
        tiling_sum(nodes, ids) >= nodes[c as int].tiling_size,
    decreases ids.len(),
{
    let d = ids.drop_last();
    if ids.last() == c {
        lemma_sum_nonneg(nodes, d);
    } else {
        let k = choose|k: int| 0 <= k < ids.len() && ids[k] == c;
        assert(k < ids.len() - 1);
        assert(d[k] == c);
        lemma_sum_step_contains(nodes, d, c);
    }
}

/// Sums of sizes are never negative.
pub proof fn lemma_sum_nonneg(nodes: Seq<Node>, ids: Seq<usize>)
    ensures
        tiling_sum(nodes, ids) >= 0,
    decreases ids.len(),
{
    if ids.len() > 0 {
        lemma_sum_nonneg(nodes, ids.drop_last());
    }
}

} // verus!
