//! Tabbed layouts: wrapping tiling siblings in a tabbed container and
//! flattening it back into its parent.
use vstd::prelude::*;

use crate::attach::{TreeError, removable_layout, emptied_layout};
use crate::links::removed_from;
use crate::sizes::{same_but_sizes, lemma_same_but_sizes_trans};
use crate::links::{lemma_subset_len, splice_replace, same_content};
use crate::seqs::{drop_in, keep_in, lemma_keep_all, lemma_select, lemma_select_concat, lemma_select_push, lemma_select_uniform};
use crate::sizes::{clamp_size, normalized, tiling_count, tiling_sum};
use crate::tree::{kind_is_tiling, ContainerTree, Node, MAX_TILING_SIZE, SIZE_ONE};

verus! {

/// Whether a vector holds a value.
pub fn vec_contains(v: &Vec<usize>, x: usize) -> (r: bool)
    ensures
        r == v@.contains(x),
{
    let mut i: usize = 0;
    while i < v.len()
        invariant
            i <= v@.len(),
            forall|j: int| 0 <= j < i ==> v@[j] != x,
        decreases v@.len() - i,
    {
        if v[i] == x {
            assert(v@[i as int] == x);
            return true;
        }
        i = i + 1;
    }
    false
}

/// Sum of the tiling sizes of the containers among `ids`, counting every
/// one of them.
pub open spec fn size_sum(nodes: Seq<Node>, ids: Seq<usize>) -> int
    decreases ids.len(),
{
    if ids.len() == 0 {
        0
    } else {
        size_sum(nodes, ids.drop_last()) + nodes[ids.last() as int].tiling_size as int
    }
}

/// The checks that `wrap_in_tabbed_container` makes before it edits.
pub open spec fn wrap_allowed(t: &ContainerTree, tb: int, p: int, targets: Seq<usize>) -> bool {
    &&& targets.len() > 0
    &&& t.parent_of(tb) is None
    &&& t.ch(tb).len() == 0
    &&& forall|i: int| 0 <= i < targets.len() ==> t.parent_of(#[trigger] targets[i] as int) == Some(p as usize)
    &&& forall|i: int| 0 <= i < targets.len() ==> #[trigger] targets[i] != p as usize
    &&& targets.no_duplicates()
    &&& forall|i: int| 0 <= i < targets.len() ==> t.is_tiling(#[trigger] targets[i] as int)
    &&& size_sum(t.nodes@, targets) > 0
}

/// The first position of `s` whose element `m` holds is `i`.
pub open spec fn first_in(s: Seq<usize>, m: Seq<usize>, i: int) -> bool {
    &&& 0 <= i < s.len()
    &&& m.contains(s[i])
    &&& forall|k: int| 0 <= k < i ==> !m.contains(#[trigger] s[k])
}

/// The tree after wrapping `targets` of `p` in the empty tabbed container
/// `tb`: `tb` takes the place of the first target in `p`'s children and
/// in `p`'s focus order; the targets become `tb`'s children in `p`'s
/// order, with `p`'s focus order among them.
pub open spec fn wrapped(
    old: &ContainerTree,
    new: &ContainerTree,
    tb: int,
    p: int,
    targets: Seq<usize>,
) -> bool {
    &&& new.len() == old.len()
    &&& exists|i0: int|
        first_in(old.ch(p), targets, i0) && new.ch(p) == old.ch(p).take(i0) + seq![tb as usize]
            + drop_in(old.ch(p).skip(i0), targets)
    &&& exists|f0: int|
        first_in(old.fo(p), targets, f0) && new.fo(p) == old.fo(p).take(f0) + seq![tb as usize]
            + drop_in(old.fo(p).skip(f0), targets)
    &&& new.ch(tb) == keep_in(old.ch(p), targets)
    &&& new.fo(tb) == keep_in(old.fo(p), targets)
    &&& new.parent_of(tb) == Some(p as usize)
    &&& forall|i: int| 0 <= i < targets.len() ==> new.parent_of(#[trigger] targets[i] as int) == Some(tb as usize)
    &&& forall|i: int|
        0 <= i < new.len() && i != tb && !targets.contains(i as usize) ==> #[trigger] new.parent_of(i) == old.parent_of(i)
    &&& forall|i: int|
        0 <= i < new.len() && i != tb && i != p ==> #[trigger] new.ch(i) == old.ch(i) && new.fo(i) == old.fo(i)
    &&& forall|i: int| 0 <= i < new.len() ==> (#[trigger] new.nodes@[i]).kind == old.nodes@[i].kind
    &&& forall|i: int|
        0 <= i < new.len() ==> (#[trigger] new.nodes@[i]).tiling_direction == old.nodes@[i].tiling_direction
}

/// The sizes after wrapping: the tabbed container takes the targets'
/// total size and each target its share of that total.
pub open spec fn wrapped_sizes(
    old: &ContainerTree,
    new: &ContainerTree,
    tb: int,
    targets: Seq<usize>,
) -> bool {
    &&& new.size(tb) == clamp_size(size_sum(old.nodes@, targets))
    &&& forall|i: int|
        0 <= i < targets.len() ==> #[trigger] new.size(targets[i] as int) == clamp_size(
            old.size(targets[i] as int) * SIZE_ONE / size_sum(old.nodes@, targets),
        )
    &&& forall|i: int|
        0 <= i < new.len() && i != tb && !targets.contains(i as usize) ==> #[trigger] new.size(i) == old.size(i)
}

proof fn lemma_size_sum_step(nodes: Seq<Node>, ids: Seq<usize>, j: int)
    requires
        0 <= j < ids.len(),
    ensures
        size_sum(nodes, ids.take(j + 1)) == size_sum(nodes, ids.take(j)) + nodes[ids[j] as int].tiling_size,
{
    assert(ids.take(j + 1).drop_last() =~= ids.take(j));
}

proof fn lemma_size_sum_bounds(nodes: Seq<Node>, ids: Seq<usize>)
    requires
        forall|k: int| 0 <= k < ids.len() ==> (#[trigger] nodes[ids[k] as int]).tiling_size <= MAX_TILING_SIZE,
    ensures
        0 <= size_sum(nodes, ids) <= ids.len() * MAX_TILING_SIZE,
    decreases ids.len(),
{
    if ids.len() > 0 {
        let d = ids.drop_last();
        assert forall|k: int| 0 <= k < d.len() implies (#[trigger] nodes[d[k] as int]).tiling_size
            <= MAX_TILING_SIZE by {
            assert(d[k] == ids[k]);
        }
        lemma_size_sum_bounds(nodes, d);
        assert(nodes[ids[ids.len() - 1] as int].tiling_size <= MAX_TILING_SIZE);
    }
}

/// Builds the new children of the parent and of the tabbed container from
/// the parent's list: the targets move out in order, and `tb` takes the
/// first one's place.
fn split_out(list: &Vec<usize>, targets: &Vec<usize>, tb: usize) -> (r: (Vec<usize>, Vec<usize>, usize))
    requires
        exists|k: int| 0 <= k < list@.len() && targets@.contains(list@[k]),
    ensures
        first_in(list@, targets@, r.2 as int),
        r.0@ == list@.take(r.2 as int) + seq![tb] + drop_in(list@.skip(r.2 as int), targets@),
        r.1@ == keep_in(list@, targets@),
{
    let n = list.len();
    let mut rest: Vec<usize> = Vec::new();
    let mut moved: Vec<usize> = Vec::new();
    let mut i0: usize = n;
    let mut k: usize = 0;
    while k < n
        invariant
            n == list@.len(),
            k <= n,
            moved@ == keep_in(list@.take(k as int), targets@),
            i0 == n ==> rest@ == list@.take(k as int) && forall|j: int| 0 <= j < k ==> !targets@.contains(#[trigger] list@[j]),
            i0 != n ==> i0 < k && first_in(list@, targets@, i0 as int) && rest@ == list@.take(i0 as int) + seq![tb] + drop_in(list@.subrange(i0 as int, k as int), targets@),
        decreases n - k,
    {
        let x = list[k];
        proof {
            lemma_select_push(list@.take(k as int), targets@, x);
            assert(list@.take(k + 1) =~= list@.take(k as int).push(x));
        }
        if vec_contains(targets, x) {
            if i0 == n {
                proof {
                    assert(list@.subrange(k as int, k + 1) =~= seq![x]);
                    lemma_select_push(Seq::<usize>::empty(), targets@, x);
                    assert(Seq::<usize>::empty().push(x) =~= seq![x]);
                }
                i0 = k;
                rest.push(tb);
                proof {
                    assert(rest@ =~= list@.take(i0 as int) + seq![tb] + drop_in(list@.subrange(i0 as int, k + 1), targets@));
                }
            } else {
                proof {
                    assert(list@.subrange(i0 as int, k + 1) =~= list@.subrange(i0 as int, k as int).push(x));
                    lemma_select_push(list@.subrange(i0 as int, k as int), targets@, x);
                }
            }
            moved.push(x);
        } else {
            if i0 != n {
                proof {
                    assert(list@.subrange(i0 as int, k + 1) =~= list@.subrange(i0 as int, k as int).push(x));
                    lemma_select_push(list@.subrange(i0 as int, k as int), targets@, x);
                }
            }
            rest.push(x);
            proof {
                if i0 != n {
                    assert(rest@ =~= list@.take(i0 as int) + seq![tb] + drop_in(list@.subrange(i0 as int, k + 1), targets@));
                } else {
                    assert(rest@ =~= list@.take(k + 1));
                }
            }
        }
        k = k + 1;
    }
    proof {
        assert(list@.take(n as int) =~= list@);
        if i0 == n {
            let j = choose|j: int| 0 <= j < list@.len() && targets@.contains(list@[j]);
            assert(!targets@.contains(list@[j]));
        }
        assert(list@.subrange(i0 as int, n as int) =~= list@.skip(i0 as int));
    }
    (rest, moved, i0)
}

/// What wrapping `targets` of `p` in the empty layout container `tb`
/// leaves, for each result `r`.
pub open spec fn wrap_outcome(
    old: &ContainerTree,
    new: &ContainerTree,
    tb: int,
    p: int,
    targets: Seq<usize>,
    r: Result<(), TreeError>,
) -> bool {
    &&& (new.wf())
    &&& (r is Ok <==> wrap_allowed(old, tb, p, targets))
    &&& (r is Err ==> new.nodes@ == old.nodes@)
    &&& (targets.len() == 0 ==> r == Err::<(), TreeError>(TreeError::EmptyTabs))
    &&& (targets.len() > 0 && (old.parent_of(tb) is Some || old.ch(tb).len() > 0) ==> r == Err::<(), TreeError>(TreeError::TabbedNotEmpty))
    &&& (r is Ok ==> wrapped(old, new, tb, p, targets))
    &&& (r is Ok ==> wrapped_sizes(old, new, tb, targets))
}

impl ContainerTree {
    /// Wraps tiling children `targets` of `p` in the empty, detached
    /// layout container `tb`. Refused with `EmptyTabs` for no targets,
    /// `TabbedNotEmpty` when `tb` is attached or has children,
    /// `InvalidTabChildren` when a target is not a tiling child of `p` or
    /// is named twice, and `NoTabSize` when the targets' sizes sum to zero.
    fn wrap_layout(&mut self, tb: usize, p: usize, targets: &Vec<usize>) -> (r: Result<(), TreeError>)
        requires
            old(self).wf(),
            (tb as int) < old(self).len(),
            (p as int) < old(self).len(),
            old(self).is_tabbed(tb as int) || old(self).is_split(tb as int),
            forall|i: int| 0 <= i < targets@.len() ==> (#[trigger] targets@[i] as int) < old(self).len(),
        ensures
            wrap_outcome(old(self), final(self), tb as int, p as int, targets@, r),
    {
        let ghost old_t = *old(self);
        let m = targets.len();
        if m == 0 {
            return Err(TreeError::EmptyTabs);
        }
        if self.nodes[tb].parent.is_some() || self.nodes[tb].children.len() > 0 {
            return Err(TreeError::TabbedNotEmpty);
        }
        let mut i: usize = 0;
        while i < m
            invariant
                m == targets@.len(),
                i <= m,
                forall|j: int| 0 <= j < targets@.len() ==> (#[trigger] targets@[j] as int) < self.len(),
                self.nodes@ == old_t.nodes@,
                self.wf(),
                old_t.parent_of(tb as int) is None,
                old_t.ch(tb as int).len() == 0,
                forall|j: int| 0 <= j < i ==> self.parent_of(#[trigger] targets@[j] as int) == Some(p),
                forall|j: int| 0 <= j < i ==> #[trigger] targets@[j] != p,
            decreases m - i,
        {
            let x = targets[i];
            if x == p || self.nodes[x].parent != Some(p) {
                return Err(TreeError::InvalidTabChildren);
            }
            i = i + 1;
        }
        let mut total: u128 = 0;
        let mut i: usize = 0;
        while i < m
            invariant
                self.wf(),
                self.nodes@ == old_t.nodes@,
                old_t.parent_of(tb as int) is None,
                old_t.ch(tb as int).len() == 0,
                forall|j: int| 0 <= j < targets@.len() ==> old_t.parent_of(#[trigger] targets@[j] as int) == Some(p),
                forall|j: int| 0 <= j < targets@.len() ==> #[trigger] targets@[j] != p,
                m == targets@.len(),
                i <= m,
                forall|j: int| 0 <= j < targets@.len() ==> (#[trigger] targets@[j] as int) < self.len(),
                forall|j: int| 0 <= j < i ==> self.is_tiling(#[trigger] targets@[j] as int),
                forall|a: int, b: int| 0 <= a < i && 0 <= b < i && a != b ==> targets@[a] != targets@[b],
                total == size_sum(self.nodes@, targets@.take(i as int)),
                total <= i * MAX_TILING_SIZE,
            decreases m - i,
        {
            let x = targets[i];
            if !self.tiling(x) {
                return Err(TreeError::InvalidTabChildren);
            }
            let mut j: usize = 0;
            while j < i
                invariant
                    self.wf(),
                    self.nodes@ == old_t.nodes@,
                    old_t.parent_of(tb as int) is None,
                    old_t.ch(tb as int).len() == 0,
                    m == targets@.len(),
                    j <= i,
                    i < m,
                    x == targets@[i as int],
                    forall|b: int| 0 <= b < j ==> targets@[b] != x,
                decreases i - j,
            {
                if targets[j] == x {
                    return Err(TreeError::InvalidTabChildren);
                }
                j = j + 1;
            }
            proof {
                lemma_size_sum_step(self.nodes@, targets@, i as int);
                assert(self.node_wf(x as int));
                assert((i + 1) * MAX_TILING_SIZE == i * MAX_TILING_SIZE + MAX_TILING_SIZE) by (nonlinear_arith);
                assert(i * MAX_TILING_SIZE <= 0xffff_ffff_ffff_ffff * MAX_TILING_SIZE) by (nonlinear_arith)
                    requires i <= 0xffff_ffff_ffff_ffff;
            }
            total = total + self.nodes[x].tiling_size as u128;
            i = i + 1;
        }
        proof {
            assert(targets@.take(m as int) =~= targets@);
        }
        if total == 0 {
            return Err(TreeError::NoTabSize);
        }
        proof {
            assert(wrap_allowed(&old_t, tb as int, p as int, targets@));
            assert(old_t.node_wf(p as int));
            let x0 = targets@[0];
            assert(old_t.parent_of(x0 as int) == Some(p));
            assert(old_t.node_wf(x0 as int));
            let k0 = choose|k: int| 0 <= k < old_t.ch(p as int).len() && old_t.ch(p as int)[k] == x0;
            assert(targets@.contains(old_t.ch(p as int)[k0]));
            assert(old_t.fo(p as int).contains(x0)) by {
                if !old_t.fo(p as int).contains(x0) {
                    // The focus order is a permutation of the children.
                    let ch = old_t.ch(p as int);
                    let fo = old_t.fo(p as int);
                    crate::links::lemma_remove_no_dup(ch, k0);
                    assert forall|q: int| 0 <= q < fo.len() implies ch.remove(k0).contains(#[trigger] fo[q]) by {
                        assert(ch.contains(fo[q]));
                    }
                    lemma_subset_len(fo, ch.remove(k0));
                }
            }
            let f0 = choose|k: int| 0 <= k < old_t.fo(p as int).len() && old_t.fo(p as int)[k] == x0;
            assert(targets@.contains(old_t.fo(p as int)[f0]));
        }
        let (new_ch, tab_ch, i0) = split_out(&self.nodes[p].children, targets, tb);
        let (new_fo, tab_fo, f0) = split_out(&self.nodes[p].focus_order, targets, tb);
        self.nodes[p].children = new_ch;
        self.nodes[p].focus_order = new_fo;
        self.nodes[tb].children = tab_ch;
        self.nodes[tb].focus_order = tab_fo;
        self.nodes[tb].parent = Some(p);
        let tb_size: u64 = if total > MAX_TILING_SIZE as u128 { MAX_TILING_SIZE } else { total as u64 };
        self.nodes[tb].tiling_size = tb_size;
        let ghost mid = *self;
        proof {
            assert forall|j: int| 0 <= j < targets@.len() implies (#[trigger] targets@[j] as int) != tb && targets@[j] != p by {
                assert(old_t.parent_of(targets@[j] as int) == Some(p));
            }
            assert forall|j: int| 0 <= j < targets@.len() implies mid.nodes@[targets@[j] as int] == old_t.nodes@[targets@[j] as int] by {
                assert(targets@[j] != p && targets@[j] != tb) by {
                    assert(old_t.parent_of(targets@[j] as int) == Some(p));
                }
            }
            assert forall|j: int| 0 <= j < targets@.len() implies (#[trigger] old_t.nodes@[targets@[j] as int]).tiling_size <= MAX_TILING_SIZE by {
                assert(old_t.node_wf(targets@[j] as int));
            }
        }
        let mut i: usize = 0;
        while i < m
            invariant
                m == targets@.len(),
                i <= m,
                self.len() == mid.len(),
                mid.len() == old_t.len(),
                total == size_sum(old_t.nodes@, targets@),
                total > 0,
                targets@.no_duplicates(),
                forall|j: int| 0 <= j < targets@.len() ==> (#[trigger] targets@[j] as int) < self.len(),
                forall|j: int| 0 <= j < targets@.len() ==> (#[trigger] targets@[j] as int) != tb && targets@[j] != p,
                forall|j: int| 0 <= j < targets@.len() ==> mid.nodes@[targets@[j] as int] == old_t.nodes@[targets@[j] as int],
                forall|j: int| 0 <= j < i ==> self.parent_of(#[trigger] targets@[j] as int) == Some(tb)
                    && self.size(targets@[j] as int) == clamp_size(old_t.size(targets@[j] as int) * SIZE_ONE / size_sum(old_t.nodes@, targets@))
                    && self.nodes@[targets@[j] as int].kind == old_t.nodes@[targets@[j] as int].kind
                    && self.nodes@[targets@[j] as int].children@ == old_t.nodes@[targets@[j] as int].children@
                    && self.nodes@[targets@[j] as int].focus_order@ == old_t.nodes@[targets@[j] as int].focus_order@
                    && self.nodes@[targets@[j] as int].tiling_direction == old_t.nodes@[targets@[j] as int].tiling_direction,
                forall|y: int| 0 <= y < self.len() && !targets@.take(i as int).contains(y as usize) ==> #[trigger] self.nodes@[y] == mid.nodes@[y],
                forall|j: int| 0 <= j < targets@.len() ==> (#[trigger] old_t.nodes@[targets@[j] as int]).tiling_size <= MAX_TILING_SIZE,
            decreases m - i,
        {
            let x = targets[i];
            proof {
                assert(!targets@.take(i as int).contains(x)) by {
                    if targets@.take(i as int).contains(x) {
                        let q = choose|q: int| 0 <= q < i && targets@.take(i as int)[q] == x;
                        assert(targets@[q] == targets@[i as int]);
                    }
                }
                assert(self.nodes@[x as int] == mid.nodes@[x as int]);
            }
            let s = self.nodes[x].tiling_size;
            proof {
                assert(s * SIZE_ONE <= 0x4000_0000_0000_0000 * 1_000_000_000) by (nonlinear_arith)
                    requires s <= 0x4000_0000_0000_0000;
            }
            let q: u128 = (s as u128 * SIZE_ONE as u128) / total;
            let v: u64 = if q > MAX_TILING_SIZE as u128 { MAX_TILING_SIZE } else { q as u64 };
            self.nodes[x].parent = Some(tb);
            self.nodes[x].tiling_size = v;
            proof {
                let t = *self;
                assert forall|y: int| 0 <= y < t.len() && !targets@.take(i + 1).contains(y as usize) implies #[trigger] t.nodes@[y] == mid.nodes@[y] by {
                    if y == x as int {
                        assert(targets@.take(i + 1)[i as int] == x);
                    }
                    if targets@.take(i as int).contains(y as usize) {
                        let q = choose|q: int| 0 <= q < i && targets@.take(i as int)[q] == y as usize;
                        assert(targets@.take(i + 1)[q] == y as usize);
                    }
                }
            }
            i = i + 1;
        }
        proof {
            let t = *self;
            assert(targets@.take(m as int) =~= targets@);
            self.lemma_wrap_wf(&old_t, &mid, tb, p, targets@, i0 as int, f0 as int);
        }
        Ok(())
    }

    /// Wraps tiling children `targets` of `p` in the empty, detached
    /// tabbed container `tb`, which takes the place of the first of them
    /// and their total size. Refused with `EmptyTabs` for no targets,
    /// `TabbedNotEmpty` when `tb` is attached or has children,
    /// `InvalidTabChildren` when a target is not a tiling child of `p` or
    /// is named twice, and `NoTabSize` when the targets' sizes sum to zero.
    pub fn wrap_in_tabbed_container(&mut self, tb: usize, p: usize, targets: &Vec<usize>) -> (r: Result<(), TreeError>)
        requires
            old(self).wf(),
            (tb as int) < old(self).len(),
            (p as int) < old(self).len(),
            old(self).is_tabbed(tb as int),
            forall|i: int| 0 <= i < targets@.len() ==> (#[trigger] targets@[i] as int) < old(self).len(),
        ensures
            wrap_outcome(old(self), final(self), tb as int, p as int, targets@, r),
    {
        self.wrap_layout(tb, p, targets)
    }

    /// Wraps tiling children `targets` of `p` in the empty, detached split
    /// container `tb`, as `wrap_in_tabbed_container` does for a tabbed one.
    pub fn wrap_in_split_container(&mut self, tb: usize, p: usize, targets: &Vec<usize>) -> (r: Result<(), TreeError>)
        requires
            old(self).wf(),
            (tb as int) < old(self).len(),
            (p as int) < old(self).len(),
            old(self).is_split(tb as int),
            forall|i: int| 0 <= i < targets@.len() ==> (#[trigger] targets@[i] as int) < old(self).len(),
        ensures
            wrap_outcome(old(self), final(self), tb as int, p as int, targets@, r),
    {
        self.wrap_layout(tb, p, targets)
    }

    proof fn lemma_wrap_wf(&self, old_t: &ContainerTree, mid: &ContainerTree, tb: usize, p: usize, targets: Seq<usize>, i0: int, f0: int)
        requires
            old_t.wf(),
            wrap_allowed(old_t, tb as int, p as int, targets),
            (tb as int) < old_t.len(),
            (p as int) < old_t.len(),
            self.len() == old_t.len(),
            mid.len() == old_t.len(),
            first_in(old_t.ch(p as int), targets, i0),
            first_in(old_t.fo(p as int), targets, f0),
            mid.ch(p as int) == old_t.ch(p as int).take(i0) + seq![tb] + drop_in(old_t.ch(p as int).skip(i0), targets),
            mid.fo(p as int) == old_t.fo(p as int).take(f0) + seq![tb] + drop_in(old_t.fo(p as int).skip(f0), targets),
            mid.ch(tb as int) == keep_in(old_t.ch(p as int), targets),
            mid.fo(tb as int) == keep_in(old_t.fo(p as int), targets),
            mid.parent_of(tb as int) == Some(p),
            mid.size(tb as int) == clamp_size(size_sum(old_t.nodes@, targets)),
            mid.nodes@[tb as int].kind == old_t.nodes@[tb as int].kind,
            mid.nodes@[tb as int].tiling_direction == old_t.nodes@[tb as int].tiling_direction,
            mid.nodes@[p as int].kind == old_t.nodes@[p as int].kind,
            mid.nodes@[p as int].parent == old_t.nodes@[p as int].parent,
            mid.nodes@[p as int].tiling_size == old_t.nodes@[p as int].tiling_size,
            mid.nodes@[p as int].tiling_direction == old_t.nodes@[p as int].tiling_direction,
            forall|y: int| 0 <= y < old_t.len() && y != tb && y != p ==> #[trigger] mid.nodes@[y] == old_t.nodes@[y],
            forall|j: int| 0 <= j < targets.len() ==> self.parent_of(#[trigger] targets[j] as int) == Some(tb)
                && self.size(targets[j] as int) == clamp_size(old_t.size(targets[j] as int) * SIZE_ONE / size_sum(old_t.nodes@, targets))
                && self.nodes@[targets[j] as int].kind == old_t.nodes@[targets[j] as int].kind
                && self.nodes@[targets[j] as int].children@ == old_t.nodes@[targets[j] as int].children@
                && self.nodes@[targets[j] as int].focus_order@ == old_t.nodes@[targets[j] as int].focus_order@
                && self.nodes@[targets[j] as int].tiling_direction == old_t.nodes@[targets[j] as int].tiling_direction,
            forall|y: int| 0 <= y < self.len() && !targets.contains(y as usize) ==> #[trigger] self.nodes@[y] == mid.nodes@[y],
            forall|j: int| 0 <= j < targets.len() ==> (#[trigger] targets[j] as int) < old_t.len(),
        ensures
            self.wf(),
            wrapped(old_t, self, tb as int, p as int, targets),
            wrapped_sizes(old_t, self, tb as int, targets),
    {
        let ch = old_t.ch(p as int);
        let fo = old_t.fo(p as int);
        assert(old_t.node_wf(p as int));
        assert(old_t.node_wf(tb as int));
        lemma_select(ch, targets);
        lemma_select(fo, targets);
        lemma_select(ch.skip(i0), targets);
        lemma_select(fo.skip(f0), targets);
        // Every target is a child of `p`.
        assert forall|j: int| 0 <= j < targets.len() implies ch.contains(#[trigger] targets[j]) by {
            assert(old_t.node_wf(targets[j] as int));
        }
        assert forall|j: int| 0 <= j < targets.len() implies fo.contains(#[trigger] targets[j]) by {
            let x = targets[j];
            assert(ch.contains(x));
            if !fo.contains(x) {
                let k = choose|k: int| 0 <= k < ch.len() && ch[k] == x;
                crate::links::lemma_remove_no_dup(ch, k);
                assert forall|q: int| 0 <= q < fo.len() implies ch.remove(k).contains(#[trigger] fo[q]) by {
                    assert(ch.contains(fo[q]));
                }
                lemma_subset_len(fo, ch.remove(k));
            }
        }
        lemma_keep_all(ch, targets);
        lemma_keep_all(fo, targets);
        assert(tb != p) by {
            assert(ch.contains(targets[0]));
        }
        assert(!ch.contains(tb)) by {
            if ch.contains(tb) {
                let k = choose|k: int| 0 <= k < ch.len() && ch[k] == tb;
                assert(old_t.parent_of(tb as int) == Some(p));
            }
        }
        assert(!targets.contains(tb)) by {
            if targets.contains(tb) {
                let k = choose|k: int| 0 <= k < targets.len() && targets[k] == tb;
                assert(old_t.parent_of(targets[k] as int) == Some(p));
            }
        }
        assert(!targets.contains(p)) by {
            if targets.contains(p) {
                let k = choose|k: int| 0 <= k < targets.len() && targets[k] == p;
                assert(old_t.parent_of(targets[k] as int) == Some(p));
                assert(ch.contains(p));
            }
        }
        // Membership in the parent's new lists.
        let nch = self.ch(p as int);
        let nfo = self.fo(p as int);
        assert(self.nodes@[p as int] == mid.nodes@[p as int]);
        assert(self.nodes@[tb as int] == mid.nodes@[tb as int]);
        assert forall|y: usize| #[trigger] nch.contains(y) <==> (y == tb || (ch.contains(y) && !targets.contains(y))) by {
            let a = ch.take(i0);
            let b = drop_in(ch.skip(i0), targets);
            assert(nch == a + seq![tb] + b);
            if nch.contains(y) {
                let k = choose|k: int| 0 <= k < nch.len() && nch[k] == y;
                if k < i0 {
                    assert(a[k] == y);
                    assert(ch[k] == y);
                } else if k > i0 {
                    assert(b[k - i0 - 1] == y);
                    assert(b.contains(y));
                    assert(ch.skip(i0).contains(y));
                    let k2 = choose|k2: int| 0 <= k2 < ch.skip(i0).len() && ch.skip(i0)[k2] == y;
                    assert(ch[k2 + i0] == y);
                }
            }
            if y == tb {
                assert(nch[i0] == tb);
            } else if ch.contains(y) && !targets.contains(y) {
                let k = choose|k: int| 0 <= k < ch.len() && ch[k] == y;
                if k < i0 {
                    assert(nch[k] == y);
                } else {
                    assert(ch.skip(i0)[k - i0] == y);
                    assert(b.contains(y));
                    let k2 = choose|k2: int| 0 <= k2 < b.len() && b[k2] == y;
                    assert(nch[i0 + 1 + k2] == y);
                }
            }
        }
        assert forall|y: usize| #[trigger] nfo.contains(y) <==> (y == tb || (fo.contains(y) && !targets.contains(y))) by {
            let a = fo.take(f0);
            let b = drop_in(fo.skip(f0), targets);
            assert(nfo == a + seq![tb] + b);
            if nfo.contains(y) {
                let k = choose|k: int| 0 <= k < nfo.len() && nfo[k] == y;
                if k < f0 {
                    assert(a[k] == y);
                    assert(fo[k] == y);
                } else if k > f0 {
                    assert(b[k - f0 - 1] == y);
                    assert(b.contains(y));
                    assert(fo.skip(f0).contains(y));
                    let k2 = choose|k2: int| 0 <= k2 < fo.skip(f0).len() && fo.skip(f0)[k2] == y;
                    assert(fo[k2 + f0] == y);
                }
            }
            if y == tb {
                assert(nfo[f0] == tb);
            } else if fo.contains(y) && !targets.contains(y) {
                let k = choose|k: int| 0 <= k < fo.len() && fo[k] == y;
                if k < f0 {
                    assert(nfo[k] == y);
                } else {
                    assert(fo.skip(f0)[k - f0] == y);
                    assert(b.contains(y));
                    let k2 = choose|k2: int| 0 <= k2 < b.len() && b[k2] == y;
                    assert(nfo[f0 + 1 + k2] == y);
                }
            }
        }
        // No duplicates in the parent's new lists.
        assert(ch.take(i0).no_duplicates() && !ch.take(i0).contains(tb)) by {
            assert forall|a: int, b: int| 0 <= a < i0 && 0 <= b < i0 && a != b implies ch.take(i0)[a] != ch.take(i0)[b] by {}
        }
        assert(ch.skip(i0).no_duplicates()) by {
            assert forall|a: int, b: int| 0 <= a < ch.skip(i0).len() && 0 <= b < ch.skip(i0).len() && a != b implies ch.skip(i0)[a] != ch.skip(i0)[b] by {
                assert(ch.skip(i0)[a] == ch[a + i0]);
                assert(ch.skip(i0)[b] == ch[b + i0]);
            }
        }
        assert(fo.skip(f0).no_duplicates()) by {
            assert forall|a: int, b: int| 0 <= a < fo.skip(f0).len() && 0 <= b < fo.skip(f0).len() && a != b implies fo.skip(f0)[a] != fo.skip(f0)[b] by {
                assert(fo.skip(f0)[a] == fo[a + f0]);
                assert(fo.skip(f0)[b] == fo[b + f0]);
            }
        }
        assert(nch.no_duplicates()) by {
            let a = ch.take(i0);
            let b = drop_in(ch.skip(i0), targets);
            assert forall|x: int, y: int| 0 <= x < nch.len() && 0 <= y < nch.len() && x != y implies nch[x] != nch[y] by {
                if x < i0 && y > i0 {
                    assert(b.contains(nch[y]));
                    let yy = nch[y];
                    assert(ch.skip(i0).contains(yy));
                    let k2 = choose|k2: int| 0 <= k2 < ch.skip(i0).len() && ch.skip(i0)[k2] == yy;
                    assert(ch[k2 + i0] == yy);
                    assert(ch[x] == nch[x]);
                } else if y < i0 && x > i0 {
                    assert(b.contains(nch[x]));
                    let xx = nch[x];
                    assert(ch.skip(i0).contains(xx));
                    let k2 = choose|k2: int| 0 <= k2 < ch.skip(i0).len() && ch.skip(i0)[k2] == xx;
                    assert(ch[k2 + i0] == xx);
                    assert(ch[y] == nch[y]);
                } else if x == i0 {
                    if y < i0 { assert(ch[y] == nch[y]); } else {
                        assert(b.contains(nch[y]));
                    }
                } else if y == i0 {
                    if x < i0 { assert(ch[x] == nch[x]); } else {
                        assert(b.contains(nch[x]));
                    }
                } else if x < i0 && y < i0 {
                    assert(ch[x] == nch[x]);
                    assert(ch[y] == nch[y]);
                } else {
                    assert(b[x - i0 - 1] == nch[x]);
                    assert(b[y - i0 - 1] == nch[y]);
                }
            }
        }
        assert(nfo.no_duplicates()) by {
            let a = fo.take(f0);
            let b = drop_in(fo.skip(f0), targets);
            assert forall|x: int, y: int| 0 <= x < nfo.len() && 0 <= y < nfo.len() && x != y implies nfo[x] != nfo[y] by {
                if x < f0 && y > f0 {
                    assert(b.contains(nfo[y]));
                    let yy = nfo[y];
                    assert(fo.skip(f0).contains(yy));
                    let k2 = choose|k2: int| 0 <= k2 < fo.skip(f0).len() && fo.skip(f0)[k2] == yy;
                    assert(fo[k2 + f0] == yy);
                    assert(fo[x] == nfo[x]);
                } else if y < f0 && x > f0 {
                    assert(b.contains(nfo[x]));
                    let xx = nfo[x];
                    assert(fo.skip(f0).contains(xx));
                    let k2 = choose|k2: int| 0 <= k2 < fo.skip(f0).len() && fo.skip(f0)[k2] == xx;
                    assert(fo[k2 + f0] == xx);
                    assert(fo[y] == nfo[y]);
                } else if x == f0 {
                    if y < f0 { assert(fo[y] == nfo[y]); assert(fo.contains(fo[y])); } else {
                        assert(b.contains(nfo[y]));
                    }
                } else if y == f0 {
                    if x < f0 { assert(fo[x] == nfo[x]); assert(fo.contains(fo[x])); } else {
                        assert(b.contains(nfo[x]));
                    }
                } else if x < f0 && y < f0 {
                    assert(fo[x] == nfo[x]);
                    assert(fo[y] == nfo[y]);
                } else {
                    assert(b[x - f0 - 1] == nfo[x]);
                    assert(b[y - f0 - 1] == nfo[y]);
                }
            }
        }
        // Lengths: both lists lose all the targets and gain `tb`.
        assert(ch.take(i0) + drop_in(ch.skip(i0), targets) == drop_in(ch, targets) || true);
        assert(nch.len() == ch.len() - targets.len() + 1) by {
            assert(ch =~= ch.take(i0) + ch.skip(i0));
            assert(keep_in(ch.skip(i0), targets).len() == targets.len()) by {
                assert forall|j: int| 0 <= j < targets.len() implies ch.skip(i0).contains(#[trigger] targets[j]) by {
                    let x = targets[j];
                    let k = choose|k: int| 0 <= k < ch.len() && ch[k] == x;
                    assert(targets.contains(ch[k]));
                    assert(k >= i0);
                    assert(ch.skip(i0)[k - i0] == x);
                }
                assert(ch.skip(i0).no_duplicates());
                lemma_keep_all(ch.skip(i0), targets);
            }
        }
        assert(nfo.len() == fo.len() - targets.len() + 1) by {
            assert(fo =~= fo.take(f0) + fo.skip(f0));
            assert(keep_in(fo.skip(f0), targets).len() == targets.len()) by {
                assert forall|j: int| 0 <= j < targets.len() implies fo.skip(f0).contains(#[trigger] targets[j]) by {
                    let x = targets[j];
                    let k = choose|k: int| 0 <= k < fo.len() && fo[k] == x;
                    assert(targets.contains(fo[k]));
                    assert(k >= f0);
                    assert(fo.skip(f0)[k - f0] == x);
                }
                lemma_keep_all(fo.skip(f0), targets);
            }
        }
        // Node by node.
        assert forall|i: int| 0 <= i < self.len() implies #[trigger] self.node_wf(i) by {
            assert(old_t.node_wf(i));
            if i == p as int {
                assert forall|k: int| 0 <= k < self.ch(i).len() implies {
                    let x = #[trigger] self.ch(i)[k];
                    &&& self.valid(x as int)
                    &&& self.parent_of(x as int) == Some(i as usize)
                } by {
                    let x = self.ch(i)[k];
                    assert(nch.contains(x));
                    if x != tb {
                        let k2 = choose|k2: int| 0 <= k2 < ch.len() && ch[k2] == x;
                        assert(old_t.parent_of(x as int) == Some(p));
                        assert(self.nodes@[x as int] == mid.nodes@[x as int]);
                    } else {
                        assert(self.nodes@[tb as int] == mid.nodes@[tb as int]);
                    }
                }
                assert forall|k: int| 0 <= k < self.fo(i).len() implies self.ch(i).contains(#[trigger] self.fo(i)[k]) by {
                    let x = self.fo(i)[k];
                    assert(nfo.contains(x));
                    if x != tb {
                        let k2 = choose|k2: int| 0 <= k2 < fo.len() && fo[k2] == x;
                        assert(ch.contains(fo[k2]));
                    }
                }
                match self.parent_of(i) {
                    Some(q) => {
                        assert(old_t.parent_of(i) == Some(q));
                        if q == p {
                            assert(ch.contains(p));
                            assert(!targets.contains(p));
                        } else if q == tb {
                            assert(old_t.ch(tb as int).contains(p));
                        } else {
                            assert(old_t.valid(q as int));
                            if targets.contains(q) {
                                let k = choose|k: int| 0 <= k < targets.len() && targets[k] == q;
                                assert(self.ch(q as int) == old_t.ch(q as int));
                            } else {
                                assert(self.nodes@[q as int] == mid.nodes@[q as int]);
                            }
                        }
                    },
                    None => {},
                }
            } else if i == tb as int {
                assert forall|k: int| 0 <= k < self.ch(i).len() implies {
                    let x = #[trigger] self.ch(i)[k];
                    &&& self.valid(x as int)
                    &&& self.parent_of(x as int) == Some(i as usize)
                } by {
                    let x = self.ch(i)[k];
                    assert(keep_in(ch, targets).contains(x));
                    let j = choose|j: int| 0 <= j < targets.len() && targets[j] == x;
                    assert(self.parent_of(targets[j] as int) == Some(tb));
                }
                assert forall|k: int| 0 <= k < self.fo(i).len() implies self.ch(i).contains(#[trigger] self.fo(i)[k]) by {
                    let x = self.fo(i)[k];
                    assert(keep_in(fo, targets).contains(x));
                    assert(fo.contains(x));
                    let k2 = choose|k2: int| 0 <= k2 < fo.len() && fo[k2] == x;
                    assert(ch.contains(fo[k2]));
                }
                assert(nch.contains(tb));
                assert(self.nodes@[p as int] == mid.nodes@[p as int]);
            } else if targets.contains(i as usize) {
                let j = choose|j: int| 0 <= j < targets.len() && targets[j] == i as usize;
                assert(self.ch(i) == old_t.ch(i));
                assert(self.fo(i) == old_t.fo(i));
                assert forall|k: int| 0 <= k < self.ch(i).len() implies {
                    let x = #[trigger] self.ch(i)[k];
                    &&& self.valid(x as int)
                    &&& self.parent_of(x as int) == Some(i as usize)
                } by {
                    let x = self.ch(i)[k];
                    assert(old_t.ch(i)[k] == x);
                    assert(old_t.parent_of(x as int) == Some(i as usize));
                    if targets.contains(x) {
                        let j2 = choose|j2: int| 0 <= j2 < targets.len() && targets[j2] == x;
                        assert(old_t.parent_of(targets[j2] as int) == Some(p));
                    } else if x == tb {
                        assert(old_t.parent_of(tb as int) is None);
                    } else if x == p {
                        assert(self.nodes@[p as int] == mid.nodes@[p as int]);
                    } else {
                        assert(self.nodes@[x as int] == mid.nodes@[x as int]);
                    }
                }
                assert(self.ch(tb as int).contains(i as usize)) by {
                    assert(self.nodes@[tb as int] == mid.nodes@[tb as int]);
                    assert(keep_in(ch, targets).contains(i as usize));
                }
            } else {
                assert(self.nodes@[i] == mid.nodes@[i]);
                assert(mid.nodes@[i] == old_t.nodes@[i]);
                assert forall|k: int| 0 <= k < self.ch(i).len() implies {
                    let x = #[trigger] self.ch(i)[k];
                    &&& self.valid(x as int)
                    &&& self.parent_of(x as int) == Some(i as usize)
                } by {
                    let x = self.ch(i)[k];
                    assert(old_t.ch(i)[k] == x);
                    assert(old_t.parent_of(x as int) == Some(i as usize));
                    if targets.contains(x) {
                        let j2 = choose|j2: int| 0 <= j2 < targets.len() && targets[j2] == x;
                        assert(old_t.parent_of(targets[j2] as int) == Some(p));
                    } else if x == tb {
                        assert(old_t.parent_of(tb as int) is None);
                    } else if x == p {
                        assert(self.nodes@[p as int] == mid.nodes@[p as int]);
                    } else {
                        assert(self.nodes@[x as int] == mid.nodes@[x as int]);
                    }
                }
                match self.parent_of(i) {
                    Some(q) => {
                        assert(old_t.valid(q as int));
                        if q == p {
                            assert(ch.contains(i as usize));
                            assert(nch.contains(i as usize));
                        } else if q == tb {
                            assert(old_t.ch(tb as int).contains(i as usize));
                        } else {
                            if targets.contains(q) {
                                let k = choose|k: int| 0 <= k < targets.len() && targets[k] == q;
                                assert(self.ch(q as int) == old_t.ch(q as int));
                            } else {
                                assert(self.nodes@[q as int] == mid.nodes@[q as int]);
                                assert(mid.nodes@[q as int] == old_t.nodes@[q as int]);
                            }
                        }
                    },
                    None => {},
                }
            }
        }
        // The relational summary.
        assert(first_in(old_t.ch(p as int), targets, i0) && self.ch(p as int) == old_t.ch(p as int).take(i0) + seq![tb] + drop_in(old_t.ch(p as int).skip(i0), targets));
        assert(first_in(old_t.fo(p as int), targets, f0) && self.fo(p as int) == old_t.fo(p as int).take(f0) + seq![tb] + drop_in(old_t.fo(p as int).skip(f0), targets));
        assert forall|i: int| 0 <= i < self.len() && i != tb && !targets.contains(i as usize) implies #[trigger] self.parent_of(i) == old_t.parent_of(i) by {
            assert(self.nodes@[i] == mid.nodes@[i]);
        }
        assert forall|i: int| 0 <= i < self.len() && i != tb && i != p implies #[trigger] self.ch(i) == old_t.ch(i) && self.fo(i) == old_t.fo(i) by {
            if targets.contains(i as usize) {
                let j = choose|j: int| 0 <= j < targets.len() && targets[j] == i as usize;
            } else {
                assert(self.nodes@[i] == mid.nodes@[i]);
            }
        }
        assert forall|i: int| 0 <= i < self.len() implies (#[trigger] self.nodes@[i]).kind == old_t.nodes@[i].kind && self.nodes@[i].tiling_direction == old_t.nodes@[i].tiling_direction by {
            if targets.contains(i as usize) {
                let j = choose|j: int| 0 <= j < targets.len() && targets[j] == i as usize;
            } else {
                assert(self.nodes@[i] == mid.nodes@[i]);
            }
        }
        assert forall|i: int| 0 <= i < self.len() && i != tb && !targets.contains(i as usize) implies #[trigger] self.size(i) == old_t.size(i) by {
            assert(self.nodes@[i] == mid.nodes@[i]);
        }
    }
}


/// Copies a vector of ids.
pub fn copy_ids(v: &Vec<usize>) -> (r: Vec<usize>)
    ensures
        r@ == v@,
{
    let mut r: Vec<usize> = Vec::new();
    let mut k: usize = 0;
    while k < v.len()
        invariant
            k <= v@.len(),
            r@ == v@.take(k as int),
        decreases v@.len() - k,
    {
        r.push(v[k]);
        proof {
            assert(v@.take(k + 1) =~= v@.take(k as int).push(v@[k as int]));
        }
        k = k + 1;
    }
    proof {
        assert(v@.take(v@.len() as int) =~= v@);
    }
    r
}

/// The tree after container `x` at position `i` of its parent's children
/// and `f` of its parent's focus order gave its place to its children.
pub open spec fn dissolved(old: &ContainerTree, new: &ContainerTree, x: int, p: int, i: int, f: int) -> bool {
    &&& dissolved_links(old, new, x, p, i, f)
    &&& forall|y: int| 0 <= y < new.len() ==> same_content(#[trigger] new.nodes@[y], old.nodes@[y])
}

/// The links after container `x` at position `i` of its parent's children
/// and `f` of its parent's focus order gave its place to its children.
pub open spec fn dissolved_links(old: &ContainerTree, new: &ContainerTree, x: int, p: int, i: int, f: int) -> bool {
    &&& new.len() == old.len()
    &&& 0 <= i < old.ch(p).len() && old.ch(p)[i] == x as usize
    &&& 0 <= f < old.fo(p).len() && old.fo(p)[f] == x as usize
    &&& new.ch(p) == old.ch(p).take(i) + old.ch(x) + old.ch(p).skip(i + 1)
    &&& new.fo(p) == old.fo(p).take(f) + old.fo(x) + old.fo(p).skip(f + 1)
    &&& new.parent_of(x) is None
    &&& new.ch(x).len() == 0
    &&& new.fo(x).len() == 0
    &&& forall|k: int| 0 <= k < old.ch(x).len() ==> new.parent_of(#[trigger] old.ch(x)[k] as int) == Some(p as usize)
    &&& forall|y: int|
        0 <= y < new.len() && y != x && !old.ch(x).contains(y as usize) ==> #[trigger] new.parent_of(y) == old.parent_of(y)
    &&& forall|y: int| 0 <= y < new.len() && y != x && y != p ==> #[trigger] new.ch(y) == old.ch(y) && new.fo(y) == old.fo(y)
}

pub(crate) proof fn lemma_links_ignore_sizes(old: &ContainerTree, mid: &ContainerTree, t: &ContainerTree, x: int, p: int, i: int, f: int)
    requires
        dissolved_links(old, mid, x, p, i, f),
        same_but_sizes(t, mid),
        old.wf(),
        0 <= p < mid.len(),
        0 <= x < mid.len(),
    ensures
        dissolved_links(old, t, x, p, i, f),
{
    assert(old.node_wf(x));
    assert(t.nodes@[p].children@ == mid.nodes@[p].children@);
    assert(t.nodes@[p].focus_order@ == mid.nodes@[p].focus_order@);
    assert(t.nodes@[x].children@ == mid.nodes@[x].children@);
    assert(t.nodes@[x].parent == mid.nodes@[x].parent);
    assert forall|k: int| 0 <= k < old.ch(x).len() implies t.parent_of(#[trigger] old.ch(x)[k] as int) == Some(p as usize) by {
        let c = old.ch(x)[k] as int;
        assert(mid.parent_of(c) == Some(p as usize));
        if 0 <= c < t.len() {
            assert(t.nodes@[c].parent == mid.nodes@[c].parent);
        }
    }
    assert forall|y: int| 0 <= y < t.len() && y != x && !old.ch(x).contains(y as usize) implies #[trigger] t.parent_of(y) == old.parent_of(y) by {
        assert(t.nodes@[y].parent == mid.nodes@[y].parent);
        assert(mid.parent_of(y) == old.parent_of(y));
    }
    assert forall|y: int| 0 <= y < t.len() && y != x && y != p implies #[trigger] t.ch(y) == old.ch(y) && t.fo(y) == old.fo(y) by {
        assert(t.nodes@[y].children@ == mid.nodes@[y].children@);
        assert(mid.ch(y) == old.ch(y));
    }
}

impl ContainerTree {
    /// Whether `x` has a parent other than itself that is not among its
    /// own children.
    pub open spec fn dissolvable(&self, x: int) -> bool {
        &&& self.parent_of(x) is Some
        &&& self.parent_of(x).unwrap() as int != x
        &&& !self.ch(x).contains(self.parent_of(x).unwrap())
    }

    /// Puts the children of `x` in its place in its parent's children and
    /// focus order, and leaves `x` detached and empty.
    pub(crate) fn dissolve(&mut self, x: usize) -> (r: (usize, usize, usize))
        requires
            old(self).wf(),
            (x as int) < old(self).len(),
            old(self).dissolvable(x as int),
        ensures
            final(self).wf(),
            Some(r.0) == old(self).parent_of(x as int),
            dissolved(old(self), final(self), x as int, r.0 as int, r.1 as int, r.2 as int),
    {
        let ghost old_t = *old(self);
        let p = self.nodes[x].parent.unwrap();
        proof {
            assert(old_t.node_wf(x as int));
            assert(old_t.node_wf(p as int));
            old_t.lemma_child_in_focus(p as int, x);
        }
        let i = self.index_in(p, x);
        let f = self.focus_index_in(p, x);
        let cx = copy_ids(&self.nodes[x].children);
        let fx = copy_ids(&self.nodes[x].focus_order);
        let new_ch = splice_replace(&self.nodes[p].children, i, &cx);
        let new_fo = splice_replace(&self.nodes[p].focus_order, f, &fx);
        self.nodes[p].children = new_ch;
        self.nodes[p].focus_order = new_fo;
        self.nodes[x].children = Vec::new();
        self.nodes[x].focus_order = Vec::new();
        self.nodes[x].parent = None;
        let ghost mid = *self;
        let mut k: usize = 0;
        while k < cx.len()
            invariant
                self.len() == old_t.len(),
                old_t.wf(),
                cx@ == old_t.ch(x as int),
                k <= cx@.len(),
                (x as int) < old_t.len(),
                old_t.children_linked(x as int),
                cx@.no_duplicates(),
                !cx@.contains(x),
                forall|j: int| 0 <= j < k ==> #[trigger] self.nodes@[cx@[j] as int] == (Node { parent: Some(p), ..mid.nodes@[cx@[j] as int] }),
                forall|y: int| 0 <= y < self.len() && !cx@.take(k as int).contains(y as usize) ==> #[trigger] self.nodes@[y] == mid.nodes@[y],
            decreases cx@.len() - k,
        {
            let c = cx[k];
            proof {
                assert(old_t.valid(c as int));
                assert(!cx@.take(k as int).contains(c)) by {
                    if cx@.take(k as int).contains(c) {
                        let q = choose|q: int| 0 <= q < k && cx@.take(k as int)[q] == c;
                        assert(cx@[q] == cx@[k as int]);
                    }
                }
            }
            self.nodes[c].parent = Some(p);
            proof {
                let t = *self;
                assert forall|y: int| 0 <= y < t.len() && !cx@.take(k + 1).contains(y as usize) implies #[trigger] t.nodes@[y] == mid.nodes@[y] by {
                    if y == c as int {
                        assert(cx@.take(k + 1)[k as int] == c);
                    }
                    if cx@.take(k as int).contains(y as usize) {
                        let q = choose|q: int| 0 <= q < k && cx@.take(k as int)[q] == y as usize;
                        assert(cx@.take(k + 1)[q] == y as usize);
                    }
                }
                assert forall|j: int| 0 <= j < k + 1 implies #[trigger] t.nodes@[cx@[j] as int] == (Node { parent: Some(p), ..mid.nodes@[cx@[j] as int] }) by {
                    if j < k {
                        assert(cx@[j] != c);
                    }
                }
            }
            k = k + 1;
        }
        proof {
            assert(cx@.take(cx@.len() as int) =~= cx@);
            self.lemma_dissolve_wf(&old_t, &mid, x, p, i as int, f as int);
        }
        (p, i, f)
    }

    proof fn lemma_dissolve_wf(&self, old_t: &ContainerTree, mid: &ContainerTree, x: usize, p: usize, i: int, f: int)
        requires
            old_t.wf(),
            (x as int) < old_t.len(),
            old_t.dissolvable(x as int),
            old_t.parent_of(x as int) == Some(p),
            self.len() == old_t.len(),
            mid.len() == old_t.len(),
            0 <= i < old_t.ch(p as int).len() && old_t.ch(p as int)[i] == x,
            0 <= f < old_t.fo(p as int).len() && old_t.fo(p as int)[f] == x,
            mid.ch(p as int) == old_t.ch(p as int).take(i) + old_t.ch(x as int) + old_t.ch(p as int).skip(i + 1),
            mid.fo(p as int) == old_t.fo(p as int).take(f) + old_t.fo(x as int) + old_t.fo(p as int).skip(f + 1),
            mid.nodes@[p as int].parent == old_t.nodes@[p as int].parent,
            same_content(mid.nodes@[p as int], old_t.nodes@[p as int]),
            same_content(mid.nodes@[x as int], old_t.nodes@[x as int]),
            mid.parent_of(x as int) is None,
            mid.ch(x as int).len() == 0,
            mid.fo(x as int).len() == 0,
            forall|y: int| 0 <= y < old_t.len() && y != x && y != p ==> #[trigger] mid.nodes@[y] == old_t.nodes@[y],
            forall|j: int| 0 <= j < old_t.ch(x as int).len() ==> #[trigger] self.nodes@[old_t.ch(x as int)[j] as int] == (Node { parent: Some(p), ..mid.nodes@[old_t.ch(x as int)[j] as int] }),
            forall|y: int| 0 <= y < self.len() && !old_t.ch(x as int).contains(y as usize) ==> #[trigger] self.nodes@[y] == mid.nodes@[y],
        ensures
            self.wf(),
            dissolved(old_t, self, x as int, p as int, i, f),
    {
        let cp = old_t.ch(p as int);
        let fp = old_t.fo(p as int);
        let cx = old_t.ch(x as int);
        let fx = old_t.fo(x as int);
        assert(old_t.node_wf(x as int));
        assert(old_t.node_wf(p as int));
        assert(x != p);
        assert(!cx.contains(p));
        assert(!cx.contains(x)) by {
            if cx.contains(x) {
                let k = choose|k: int| 0 <= k < cx.len() && cx[k] == x;
                assert(old_t.parent_of(cx[k] as int) == Some(x));
            }
        }
        assert(self.nodes@[p as int] == mid.nodes@[p as int]);
        assert(self.nodes@[x as int] == mid.nodes@[x as int]);
        // Elements of the parent's old list other than `x` are not children of `x`.
        assert forall|y: usize| cp.contains(y) && y != x implies !cx.contains(y) by {
            if cx.contains(y) {
                let k = choose|k: int| 0 <= k < cx.len() && cx[k] == y;
                assert(old_t.parent_of(cx[k] as int) == Some(x));
                let k2 = choose|k2: int| 0 <= k2 < cp.len() && cp[k2] == y;
                assert(old_t.parent_of(cp[k2] as int) == Some(p));
            }
        }
        let nch = self.ch(p as int);
        let nfo = self.fo(p as int);
        assert forall|y: usize| #[trigger] nch.contains(y) <==> ((cp.contains(y) && y != x) || cx.contains(y)) by {
            if nch.contains(y) {
                let k = choose|k: int| 0 <= k < nch.len() && nch[k] == y;
                if k < i {
                    assert(cp[k] == y);
                    assert(cp[k] != cp[i]);
                } else if k < i + cx.len() {
                    assert(cx[k - i] == y);
                } else {
                    assert(cp[k - cx.len() + 1] == y);
                    assert(k - cx.len() + 1 != i);
                }
            }
            if cp.contains(y) && y != x {
                let k = choose|k: int| 0 <= k < cp.len() && cp[k] == y;
                if k < i {
                    assert(nch[k] == y);
                } else {
                    assert(k != i);
                    assert(nch[k - 1 + cx.len()] == y);
                }
            }
            if cx.contains(y) {
                let k = choose|k: int| 0 <= k < cx.len() && cx[k] == y;
                assert(nch[i + k] == y);
            }
        }
        assert forall|y: usize| #[trigger] nfo.contains(y) <==> ((fp.contains(y) && y != x) || fx.contains(y)) by {
            if nfo.contains(y) {
                let k = choose|k: int| 0 <= k < nfo.len() && nfo[k] == y;
                if k < f {
                    assert(fp[k] == y);
                    assert(fp[k] != fp[f]);
                } else if k < f + fx.len() {
                    assert(fx[k - f] == y);
                } else {
                    assert(fp[k - fx.len() + 1] == y);
                    assert(k - fx.len() + 1 != f);
                }
            }
            if fp.contains(y) && y != x {
                let k = choose|k: int| 0 <= k < fp.len() && fp[k] == y;
                if k < f {
                    assert(nfo[k] == y);
                } else {
                    assert(k != f);
                    assert(nfo[k - 1 + fx.len()] == y);
                }
            }
            if fx.contains(y) {
                let k = choose|k: int| 0 <= k < fx.len() && fx[k] == y;
                assert(nfo[f + k] == y);
            }
        }
        assert(nch.no_duplicates()) by {
            assert forall|a: int, b: int| 0 <= a < nch.len() && 0 <= b < nch.len() && a != b implies nch[a] != nch[b] by {
                let ya = nch[a];
                let yb = nch[b];
                let ia = if a < i { a } else if a < i + cx.len() { -1 } else { a - cx.len() + 1 };
                let ib = if b < i { b } else if b < i + cx.len() { -1 } else { b - cx.len() + 1 };
                if ia >= 0 && ib >= 0 {
                    assert(cp[ia] == ya);
                    assert(cp[ib] == yb);
                    assert(ia != ib);
                } else if ia < 0 && ib < 0 {
                    assert(cx[a - i] == ya);
                    assert(cx[b - i] == yb);
                } else if ia >= 0 {
                    assert(cp[ia] == ya);
                    assert(ia != i);
                    assert(cx[b - i] == yb);
                    assert(cp.contains(ya));
                } else {
                    assert(cp[ib] == yb);
                    assert(ib != i);
                    assert(cx[a - i] == ya);
                    assert(cp.contains(yb));
                }
            }
        }
        assert forall|y: usize| fp.contains(y) && y != x implies !fx.contains(y) by {
            if fx.contains(y) {
                let k = choose|k: int| 0 <= k < fx.len() && fx[k] == y;
                assert(cx.contains(fx[k]));
                let k2 = choose|k2: int| 0 <= k2 < fp.len() && fp[k2] == y;
                assert(cp.contains(fp[k2]));
            }
        }
        assert(nfo.no_duplicates()) by {
            assert forall|a: int, b: int| 0 <= a < nfo.len() && 0 <= b < nfo.len() && a != b implies nfo[a] != nfo[b] by {
                let ya = nfo[a];
                let yb = nfo[b];
                let ia = if a < f { a } else if a < f + fx.len() { -1 } else { a - fx.len() + 1 };
                let ib = if b < f { b } else if b < f + fx.len() { -1 } else { b - fx.len() + 1 };
                if ia >= 0 && ib >= 0 {
                    assert(fp[ia] == ya);
                    assert(fp[ib] == yb);
                    assert(ia != ib);
                } else if ia < 0 && ib < 0 {
                    assert(fx[a - f] == ya);
                    assert(fx[b - f] == yb);
                } else if ia >= 0 {
                    assert(fp[ia] == ya);
                    assert(ia != f);
                    assert(fx[b - f] == yb);
                    assert(fp.contains(ya));
                    assert(fx.contains(yb));
                } else {
                    assert(fp[ib] == yb);
                    assert(ib != f);
                    assert(fx[a - f] == ya);
                    assert(fp.contains(yb));
                    assert(fx.contains(ya));
                }
            }
        }
        assert forall|y: int| 0 <= y < self.len() implies #[trigger] self.node_wf(y) by {
            assert(old_t.node_wf(y));
            if y == p as int {
                assert forall|k: int| 0 <= k < self.ch(y).len() implies {
                    let c = #[trigger] self.ch(y)[k];
                    &&& self.valid(c as int)
                    &&& self.parent_of(c as int) == Some(y as usize)
                } by {
                    let c = self.ch(y)[k];
                    assert(nch.contains(c));
                    if cx.contains(c) {
                        let j = choose|j: int| 0 <= j < cx.len() && cx[j] == c;
                        assert(self.nodes@[cx[j] as int] == (Node { parent: Some(p), ..mid.nodes@[cx[j] as int] }));
                    } else {
                        let j = choose|j: int| 0 <= j < cp.len() && cp[j] == c;
                        assert(old_t.parent_of(cp[j] as int) == Some(p));
                        assert(self.nodes@[c as int] == mid.nodes@[c as int]);
                    }
                }
                assert forall|k: int| 0 <= k < self.fo(y).len() implies self.ch(y).contains(#[trigger] self.fo(y)[k]) by {
                    let c = self.fo(y)[k];
                    assert(nfo.contains(c));
                    if fx.contains(c) {
                        let j = choose|j: int| 0 <= j < fx.len() && fx[j] == c;
                        assert(cx.contains(fx[j]));
                    } else {
                        let j = choose|j: int| 0 <= j < fp.len() && fp[j] == c;
                        assert(cp.contains(fp[j]));
                    }
                }
                assert(nch.len() == cp.len() - 1 + cx.len());
                assert(nfo.len() == fp.len() - 1 + fx.len());
                match self.parent_of(y) {
                    Some(q) => {
                        assert(old_t.parent_of(y) == Some(q));
                        assert(old_t.valid(q as int));
                        if q == x {
                            assert(cx.contains(p));
                        } else if q == p {
                            assert(cp.contains(p));
                            assert(nch.contains(p));
                        } else {
                            if cx.contains(q) {
                                let j = choose|j: int| 0 <= j < cx.len() && cx[j] == q;
                                assert(self.nodes@[cx[j] as int] == (Node { parent: Some(p), ..mid.nodes@[cx[j] as int] }));
                            } else {
                                assert(self.nodes@[q as int] == mid.nodes@[q as int]);
                            }
                        }
                    },
                    None => {},
                }
            } else if y == x as int {
            } else if cx.contains(y as usize) {
                let j = choose|j: int| 0 <= j < cx.len() && cx[j] == y as usize;
                assert(self.nodes@[y] == (Node { parent: Some(p), ..mid.nodes@[y] }));
                assert(mid.nodes@[y] == old_t.nodes@[y]);
                assert forall|k: int| 0 <= k < self.ch(y).len() implies {
                    let c = #[trigger] self.ch(y)[k];
                    &&& self.valid(c as int)
                    &&& self.parent_of(c as int) == Some(y as usize)
                } by {
                    let c = self.ch(y)[k];
                    assert(old_t.ch(y)[k] == c);
                    assert(old_t.parent_of(c as int) == Some(y as usize));
                    if cx.contains(c) {
                        let j2 = choose|j2: int| 0 <= j2 < cx.len() && cx[j2] == c;
                        assert(old_t.parent_of(cx[j2] as int) == Some(x));
                    } else if c == x {
                    } else if c == p {
                    } else {
                        assert(self.nodes@[c as int] == mid.nodes@[c as int]);
                    }
                }
                assert(nch.contains(y as usize));
            } else {
                assert(self.nodes@[y] == mid.nodes@[y]);
                assert(mid.nodes@[y] == old_t.nodes@[y]);
                assert forall|k: int| 0 <= k < self.ch(y).len() implies {
                    let c = #[trigger] self.ch(y)[k];
                    &&& self.valid(c as int)
                    &&& self.parent_of(c as int) == Some(y as usize)
                } by {
                    let c = self.ch(y)[k];
                    assert(old_t.ch(y)[k] == c);
                    assert(old_t.parent_of(c as int) == Some(y as usize));
                    if cx.contains(c) {
                        let j2 = choose|j2: int| 0 <= j2 < cx.len() && cx[j2] == c;
                        assert(old_t.parent_of(cx[j2] as int) == Some(x));
                    } else if c == x {
                    } else if c == p {
                        assert(self.nodes@[p as int] == mid.nodes@[p as int]);
                    } else {
                        assert(self.nodes@[c as int] == mid.nodes@[c as int]);
                    }
                }
                match self.parent_of(y) {
                    Some(q) => {
                        assert(old_t.valid(q as int));
                        if q == p {
                            assert(cp.contains(y as usize));
                            assert(nch.contains(y as usize));
                        } else if q == x {
                            assert(cx.contains(y as usize));
                        } else if cx.contains(q) {
                            let j = choose|j: int| 0 <= j < cx.len() && cx[j] == q;
                            assert(self.nodes@[cx[j] as int] == (Node { parent: Some(p), ..mid.nodes@[cx[j] as int] }));
                            assert(mid.nodes@[q as int] == old_t.nodes@[q as int]);
                        } else {
                            assert(self.nodes@[q as int] == mid.nodes@[q as int]);
                            assert(mid.nodes@[q as int] == old_t.nodes@[q as int]);
                        }
                    },
                    None => {},
                }
            }
        }
        assert forall|k: int| 0 <= k < cx.len() implies self.parent_of(#[trigger] cx[k] as int) == Some(p) by {
            assert(self.nodes@[cx[k] as int] == (Node { parent: Some(p), ..mid.nodes@[cx[k] as int] }));
        }
        assert forall|y: int| 0 <= y < self.len() && y != x && !cx.contains(y as usize) implies #[trigger] self.parent_of(y) == old_t.parent_of(y) by {
            assert(self.nodes@[y] == mid.nodes@[y]);
        }
        assert forall|y: int| 0 <= y < self.len() && y != x && y != p implies #[trigger] self.ch(y) == old_t.ch(y) && self.fo(y) == old_t.fo(y) by {
            if cx.contains(y as usize) {
                let j = choose|j: int| 0 <= j < cx.len() && cx[j] == y as usize;
                assert(self.nodes@[y] == (Node { parent: Some(p), ..mid.nodes@[y] }));
            } else {
                assert(self.nodes@[y] == mid.nodes@[y]);
            }
        }
        assert forall|y: int| 0 <= y < self.len() implies same_content(#[trigger] self.nodes@[y], old_t.nodes@[y]) by {
            if cx.contains(y as usize) {
                let j = choose|j: int| 0 <= j < cx.len() && cx[j] == y as usize;
                assert(self.nodes@[y] == (Node { parent: Some(p), ..mid.nodes@[y] }));
            } else {
                assert(self.nodes@[y] == mid.nodes@[y]);
            }
        }
    }
}

/// The size a tiling child of a flattened tabbed container of size
/// `tb_size` takes in the parent: its share of the tabbed container's size
/// in proportion to the children's total size, or an equal share when the
/// total is zero.
pub open spec fn flattened_size(tb_size: int, s: int, total: int, count: int) -> u64 {
    if total > 0 {
        clamp_size(tb_size * s / total)
    } else {
        clamp_size(tb_size / count)
    }
}

/// What flattening the tabbed container `tb` leaves, for each result `r`.
pub open spec fn flatten_tabbed_outcome(old: &ContainerTree, new: &ContainerTree, tb: int, r: Result<(), TreeError>) -> bool {
    &&& (new.wf())
    &&& (new.len() == old.len())
    &&& (old.parent_of(tb) is None ==> r == Err::<(), TreeError>(TreeError::NoParent) && new.nodes@ == old.nodes@)
    &&& (old.ch(tb).len() == 0 ==> (old.parent_of(tb) matches Some(p) ==> r is Ok && new.parent_of(tb) is None
        && removed_from(old.ch(p as int), new.ch(p as int), tb as usize) && removed_from(old.fo(p as int), new.fo(p as int), tb as usize)))
    &&& (old.ch(tb).len() > 0 && old.parent_of(tb) is Some && !old.dissolvable(tb) ==> r == Err::<(), TreeError>(TreeError::Cycle) && new.nodes@ == old.nodes@)
    &&& (old.ch(tb).len() > 0 && old.dissolvable(tb) ==> r is Ok && exists|i: int, f: int| dissolved_links(old, new, tb, old.parent_of(tb).unwrap() as int, i, f))
    &&& (old.ch(tb).len() > 0 && old.dissolvable(tb) ==> forall|k: int|
        0 <= k < old.ch(tb).len() && old.is_tiling(old.ch(tb)[k] as int) ==> #[trigger] new.size(old.ch(tb)[k] as int)
            == flattened_size(
            old.size(tb) as int,
            old.size(old.ch(tb)[k] as int) as int,
            tiling_sum(old.nodes@, old.ch(tb)),
            old.ch(tb).len() as int,
        ))
    &&& (old.ch(tb).len() > 0 && old.dissolvable(tb) ==> forall|y: int| 0 <= y < new.len() && !(old.ch(tb).contains(y as usize) && old.is_tiling(y)) ==> #[trigger] new.size(y) == old.size(y))
    &&& (forall|y: int| 0 <= y < new.len() ==> (#[trigger] new.nodes@[y]).kind == old.nodes@[y].kind)
}

impl ContainerTree {
    /// Removes a tabbed container and moves its children into its parent,
    /// in its place in the parent's children and focus order. The tiling
    /// children share out the tabbed container's size (`flattened_size`).
    /// A tabbed container without children is detached instead.
    pub fn flatten_tabbed_container(&mut self, tb: usize) -> (r: Result<(), TreeError>)
        requires
            old(self).wf(),
            (tb as int) < old(self).len(),
            old(self).is_tabbed(tb as int),
        ensures
            flatten_tabbed_outcome(old(self), final(self), tb as int, r),
    {
        let ghost old_t = *old(self);
        if self.nodes[tb].parent.is_none() {
            return Err(TreeError::NoParent);
        }
        if self.nodes[tb].children.len() == 0 {
            let r = self.detach_container(tb);
            return r;
        }
        let p0 = self.nodes[tb].parent.unwrap();
        if p0 == tb || vec_contains(&self.nodes[tb].children, p0) {
            return Err(TreeError::Cycle);
        }
        let (sum, _avail, _count) = self.tiling_totals(tb);
        let tb_size = self.nodes[tb].tiling_size;
        let child_count = self.nodes[tb].children.len();
        let cx = copy_ids(&self.nodes[tb].children);
        let (p, i, f) = self.dissolve(tb);
        let ghost mid = *self;
        proof {
            assert(old_t.node_wf(tb as int));
            assert forall|k: int| 0 <= k < cx@.len() implies (#[trigger] old_t.nodes@[cx@[k] as int]).tiling_size <= MAX_TILING_SIZE by {
                assert(old_t.node_wf(cx@[k] as int));
            }
            crate::sizes::lemma_sum_bounds(old_t.nodes@, cx@);
        }
        let mut k: usize = 0;
        while k < child_count
            invariant
                self.wf(),
                same_but_sizes(self, &mid),
                dissolved(&old_t, &mid, tb as int, p as int, i as int, f as int),
                (p as int) < mid.len(),
                mid.len() == old_t.len(),
                old_t.wf(),
                cx@ == old_t.ch(tb as int),
                child_count == cx@.len(),
                child_count > 0,
                cx@.no_duplicates(),
                old_t.children_linked(tb as int),
                k <= child_count,
                tb_size == old_t.size(tb as int),
                tb_size <= MAX_TILING_SIZE,
                sum == tiling_sum(old_t.nodes@, cx@),
                forall|y: int| 0 <= y < mid.len() ==> same_content(#[trigger] mid.nodes@[y], old_t.nodes@[y]),
                forall|j: int| 0 <= j < k && old_t.is_tiling(cx@[j] as int) ==> #[trigger] self.size(cx@[j] as int) == flattened_size(
                    tb_size as int, old_t.size(cx@[j] as int) as int, sum as int, child_count as int),
                forall|y: int| 0 <= y < self.len() && !(cx@.take(k as int).contains(y as usize) && old_t.is_tiling(y)) ==> #[trigger] self.size(y) == old_t.size(y),
            decreases child_count - k,
        {
            let c = cx[k];
            proof {
                assert(old_t.valid(c as int));
                assert(!cx@.take(k as int).contains(c)) by {
                    if cx@.take(k as int).contains(c) {
                        let q = choose|q: int| 0 <= q < k && cx@.take(k as int)[q] == c;
                        assert(cx@[q] == cx@[k as int]);
                    }
                }
                assert(same_content(mid.nodes@[c as int], old_t.nodes@[c as int]));
                assert(self.nodes@[c as int].kind == mid.nodes@[c as int].kind);
                assert(old_t.node_wf(c as int));
                assert(self.size(c as int) == old_t.size(c as int));
            }
            if self.tiling(c) {
                let s = self.nodes[c].tiling_size;
                let v: u64 = if sum > 0 {
                    proof {
                        assert(tb_size * s <= 0x4000_0000_0000_0000 * 0x4000_0000_0000_0000) by (nonlinear_arith)
                            requires tb_size <= 0x4000_0000_0000_0000, s <= 0x4000_0000_0000_0000;
                    }
                    let q: u128 = (tb_size as u128 * s as u128) / sum;
                    if q > MAX_TILING_SIZE as u128 { MAX_TILING_SIZE } else { q as u64 }
                } else {
                    let q: u64 = tb_size / child_count as u64;
                    proof {
                        assert((tb_size as int) / (child_count as int) <= tb_size as int) by (nonlinear_arith)
                            requires child_count > 0, tb_size >= 0;
                    }
                    q
                };
                let ghost before = *self;
                self.set_tiling_size(c, v);
                proof {
                    lemma_same_but_sizes_trans(self, &before, &mid);
                }
            }
            proof {
                let t = *self;
                assert forall|y: int| 0 <= y < t.len() && !(cx@.take(k + 1).contains(y as usize) && old_t.is_tiling(y)) implies #[trigger] t.size(y) == old_t.size(y) by {
                    if cx@.take(k as int).contains(y as usize) {
                        let q = choose|q: int| 0 <= q < k && cx@.take(k as int)[q] == y as usize;
                        assert(cx@.take(k + 1)[q] == y as usize);
                    }
                    if y == c as int {
                        assert(cx@.take(k + 1)[k as int] == c);
                    }
                }
            }
            k = k + 1;
        }
        proof {
            let t = *self;
            assert(cx@.take(child_count as int) =~= cx@);
            assert(old_t.wf());
            lemma_links_ignore_sizes(&old_t, &mid, &t, tb as int, p as int, i as int, f as int);
            assert forall|y: int| 0 <= y < t.len() implies (#[trigger] t.nodes@[y]).kind == old_t.nodes@[y].kind by {
                assert(t.nodes@[y].kind == mid.nodes@[y].kind);
                assert(same_content(mid.nodes@[y], old_t.nodes@[y]));
            }
        }
        Ok(())
    }

    /// Removes a tabbed container if it has no children; one that still has
    /// children, even a single one, is kept.
    pub fn flatten_empty_tabbed_container(&mut self, tb: usize) -> (r: Result<(), TreeError>)
        requires
            old(self).wf(),
            (tb as int) < old(self).len(),
        ensures
            final(self).wf(),
            final(self).len() == old(self).len(),
            old(self).ch(tb as int).len() > 0 ==> r is Ok && final(self).nodes@ == old(self).nodes@,
            old(self).ch(tb as int).len() == 0 && old(self).parent_of(tb as int) is None ==> r == Err::<(), TreeError>(TreeError::NoParent)
                && final(self).nodes@ == old(self).nodes@,
            old(self).ch(tb as int).len() == 0 ==> (old(self).parent_of(tb as int) matches Some(p) ==> r is Ok
                && final(self).parent_of(tb as int) is None
                && removed_from(old(self).ch(p as int), final(self).ch(p as int), tb)
                && removed_from(old(self).fo(p as int), final(self).fo(p as int), tb)),
            forall|i: int|
                0 <= i < final(self).len() ==> (#[trigger] final(self).nodes@[i]).kind == old(self).nodes@[i].kind,
            forall|i: int|
                0 <= i < final(self).len() && i != tb ==> #[trigger] final(self).parent_of(i)
                    == old(self).parent_of(i) || (emptied_layout(final(self), i) && old(self).parent_of(i) is Some),
            forall|i: int| 0 <= i < final(self).len() ==> (#[trigger] final(self).ch(i)).len() <= old(self).ch(i).len(),
            old(self).ch(tb as int).len() == 0 ==> crate::attach::detach_outcome(old(self), final(self), tb as int, r),
    {
        if self.nodes[tb].children.len() > 0 {
            return Ok(());
        }
        self.detach_container(tb)
    }
}
/// `s` holds the elements that `targets` holds as one unbroken run: it is
/// `a`, then those elements in the order of `s`, then `b`, and neither `a`
/// nor `b` holds a target.
pub open spec fn run_of(s: Seq<usize>, targets: Seq<usize>, a: Seq<usize>, b: Seq<usize>) -> bool {
    &&& s == a + keep_in(s, targets) + b
    &&& forall|k: int| 0 <= k < a.len() ==> !targets.contains(#[trigger] a[k])
    &&& forall|k: int| 0 <= k < b.len() ==> !targets.contains(#[trigger] b[k])
}

/// Where `tb` is taken out of `a + [tb] + b` and `a`, `b` do not hold it.
proof fn lemma_unique_slot(a: Seq<usize>, b: Seq<usize>, tb: usize, i: int)
    requires
        !a.contains(tb),
        !b.contains(tb),
        0 <= i < (a + seq![tb] + b).len(),
        (a + seq![tb] + b)[i] == tb,
    ensures
        i == a.len(),
{
    let s = a + seq![tb] + b;
    if i < a.len() {
        assert(a[i] == s[i]);
    } else if i > a.len() {
        assert(b[i - a.len() - 1] == s[i]);
    }
}

/// Wrapping an unbroken run `a + K + b` leaves `a + [tb] + b` in the
/// parent's list, and the run `K` in the tabbed container.
proof fn lemma_wrap_run(s: Seq<usize>, targets: Seq<usize>, a: Seq<usize>, b: Seq<usize>, tb: usize, i0: int)
    requires
        run_of(s, targets, a, b),
        keep_in(s, targets).len() > 0,
        first_in(s, targets, i0),
    ensures
        i0 == a.len(),
        s.take(i0) + seq![tb] + drop_in(s.skip(i0), targets) == a + seq![tb] + b,
{
    let k = keep_in(s, targets);
    lemma_select(s, targets);
    assert(k.contains(k[0]));
    assert(s[a.len() as int] == k[0]);
    if i0 < a.len() {
        assert(s[i0] == a[i0]);
    } else if i0 > a.len() {
        assert(!targets.contains(s[a.len() as int]));
    }
    assert(s.take(i0) =~= a);
    assert(s.skip(i0) =~= k + b);
    lemma_select_concat(k, b, targets);
    assert forall|j: int| 0 <= j < k.len() implies targets.contains(#[trigger] k[j]) by {
        assert(k.contains(k[j]));
    }
    lemma_select_uniform(k, targets);
    lemma_select_uniform(b, targets);
    assert(drop_in(k, targets) + drop_in(b, targets) =~= b);
}

/// Flattening a tabbed container right after it wrapped targets that
/// stand as one unbroken run in their parent's children and in its focus
/// order gives the parent back its children and focus order as they were,
/// and the targets their parent.
pub proof fn law_flatten_undoes_wrap(
    before: &ContainerTree,
    mid: &ContainerTree,
    after: &ContainerTree,
    tb: int,
    p: int,
    targets: Seq<usize>,
    ca: Seq<usize>,
    cb: Seq<usize>,
    fa: Seq<usize>,
    fb: Seq<usize>,
    i: int,
    f: int,
)
    requires
        before.wf(),
        0 <= tb < before.len(),
        0 <= p < before.len(),
        forall|k: int| 0 <= k < targets.len() ==> (#[trigger] targets[k] as int) < before.len(),
        wrap_allowed(before, tb, p, targets),
        wrapped(before, mid, tb, p, targets),
        run_of(before.ch(p), targets, ca, cb),
        run_of(before.fo(p), targets, fa, fb),
        dissolved_links(mid, after, tb, p, i, f),
    ensures
        after.ch(p) == before.ch(p),
        after.fo(p) == before.fo(p),
        after.parent_of(tb) is None,
        forall|k: int| 0 <= k < targets.len() ==> after.parent_of(#[trigger] targets[k] as int) == Some(p as usize),
{
    let s = before.ch(p);
    let o = before.fo(p);
    assert(before.node_wf(p));
    assert(before.node_wf(targets[0] as int));
    lemma_select(s, targets);
    lemma_select(o, targets);
    assert(targets.contains(targets[0]));
    assert(s.contains(targets[0]));
    assert(keep_in(s, targets).contains(targets[0]));
    let j = choose|j: int| 0 <= j < s.len() && s[j] == targets[0];
    assert(o.contains(targets[0])) by {
        assert(o.len() == s.len());
        assert(o.no_duplicates());
        assert forall|k: int| 0 <= k < o.len() implies s.contains(#[trigger] o[k]) by {}
        crate::links::lemma_subset_len(o, s);
        assert forall|k: int| 0 <= k < s.len() implies o.contains(#[trigger] s[k]) by {
            if !o.contains(s[k]) {
                assert forall|q: int| 0 <= q < o.len() implies s.remove(k).contains(#[trigger] o[q]) by {
                    let r = choose|r: int| 0 <= r < s.len() && s[r] == o[q];
                    if r < k {
                        assert(s.remove(k)[r] == o[q]);
                    } else {
                        assert(r != k);
                        assert(s.remove(k)[r - 1] == o[q]);
                    }
                }
                crate::links::lemma_subset_len(o, s.remove(k));
            }
        }
        assert(s[j] == targets[0]);
    }
    assert(keep_in(o, targets).contains(targets[0]));
    let i0 = choose|i0: int| first_in(s, targets, i0) && mid.ch(p) == s.take(i0) + seq![tb as usize]
        + drop_in(s.skip(i0), targets);
    let f0 = choose|f0: int| first_in(o, targets, f0) && mid.fo(p) == o.take(f0) + seq![tb as usize]
        + drop_in(o.skip(f0), targets);
    lemma_wrap_run(s, targets, ca, cb, tb as usize, i0);
    lemma_wrap_run(o, targets, fa, fb, tb as usize, f0);
    assert(!s.contains(tb as usize)) by {
        if s.contains(tb as usize) {
            let q = choose|q: int| 0 <= q < s.len() && s[q] == tb as usize;
            assert(before.parent_of(s[q] as int) == Some(p as usize));
        }
    }
    assert(!ca.contains(tb as usize)) by {
        if ca.contains(tb as usize) {
            let q = choose|q: int| 0 <= q < ca.len() && ca[q] == tb as usize;
            assert(s[q] == ca[q]);
        }
    }
    assert(!cb.contains(tb as usize)) by {
        if cb.contains(tb as usize) {
            let q = choose|q: int| 0 <= q < cb.len() && cb[q] == tb as usize;
            assert(s[ca.len() + keep_in(s, targets).len() + q] == cb[q]);
        }
    }
    assert(!o.contains(tb as usize)) by {
        if o.contains(tb as usize) {
            let q = choose|q: int| 0 <= q < o.len() && o[q] == tb as usize;
            assert(s.contains(o[q]));
        }
    }
    assert(!fa.contains(tb as usize)) by {
        if fa.contains(tb as usize) {
            let q = choose|q: int| 0 <= q < fa.len() && fa[q] == tb as usize;
            assert(o[q] == fa[q]);
        }
    }
    assert(!fb.contains(tb as usize)) by {
        if fb.contains(tb as usize) {
            let q = choose|q: int| 0 <= q < fb.len() && fb[q] == tb as usize;
            assert(o[fa.len() + keep_in(o, targets).len() + q] == fb[q]);
        }
    }
    lemma_unique_slot(ca, cb, tb as usize, i);
    lemma_unique_slot(fa, fb, tb as usize, f);
    let mc = ca + seq![tb as usize] + cb;
    let mf = fa + seq![tb as usize] + fb;
    assert(mc.take(i) =~= ca);
    assert(mc.skip(i + 1) =~= cb);
    assert(mf.take(f) =~= fa);
    assert(mf.skip(f + 1) =~= fb);
    assert(after.ch(p) =~= s);
    assert(after.fo(p) =~= o);
    assert forall|k: int| 0 <= k < targets.len() implies after.parent_of(#[trigger] targets[k] as int) == Some(p as usize) by {
        assert(s.contains(targets[k])) by {
            assert(before.node_wf(targets[k] as int));
        }
        assert(targets.contains(targets[k]));
        assert(mid.ch(tb).contains(targets[k]));
        let q = choose|q: int| 0 <= q < mid.ch(tb).len() && mid.ch(tb)[q] == targets[k];
        assert(after.parent_of(mid.ch(tb)[q] as int) == Some(p as usize));
    }
}


/// A list whose every entry is a member of `m` keeps all of itself and
/// drops nothing.
proof fn lemma_keep_every(s: Seq<usize>, m: Seq<usize>)
    requires
        forall|k: int| 0 <= k < s.len() ==> m.contains(#[trigger] s[k]),
    ensures
        keep_in(s, m) == s,
        drop_in(s, m) == Seq::<usize>::empty(),
    decreases s.len(),
{
    if s.len() > 0 {
        let d = s.drop_last();
        assert forall|k: int| 0 <= k < d.len() implies m.contains(#[trigger] d[k]) by {
            assert(d[k] == s[k]);
        }
        lemma_keep_every(d, m);
        assert(m.contains(s[s.len() - 1]));
        assert(d.push(s.last()) =~= s);
    }
}

/// Each entry's size is at most the sum of the sizes.
proof fn lemma_entry_within_sum(nodes: Seq<Node>, ids: Seq<usize>, k: int)
    requires
        0 <= k < ids.len(),
    ensures
        nodes[ids[k] as int].tiling_size <= size_sum(nodes, ids),
    decreases ids.len(),
{
    let d = ids.drop_last();
    lemma_size_sum_nonneg(nodes, d);
    if k < ids.len() - 1 {
        lemma_entry_within_sum(nodes, d, k);
        assert(d[k] == ids[k]);
    }
}

proof fn lemma_size_sum_nonneg(nodes: Seq<Node>, ids: Seq<usize>)
    ensures
        size_sum(nodes, ids) >= 0,
    decreases ids.len(),
{
    if ids.len() > 0 {
        lemma_size_sum_nonneg(nodes, ids.drop_last());
    }
}

/// Shares of `total` taken by each entry (its size times `SIZE_ONE` over
/// `total`, rounded down) sum to the sizes' share, less under one unit per
/// entry.
proof fn lemma_share_sums(n0: Seq<Node>, n1: Seq<Node>, ids: Seq<usize>, total: int)
    requires
        total > 0,
        forall|k: int| 0 <= k < ids.len() ==> kind_is_tiling((#[trigger] n1[ids[k] as int]).kind),
        forall|k: int|
            0 <= k < ids.len() ==> (#[trigger] n1[ids[k] as int]).tiling_size as int == n0[ids[k] as int].tiling_size
                * SIZE_ONE / total,
    ensures
        tiling_sum(n1, ids) * total <= size_sum(n0, ids) * SIZE_ONE,
        tiling_sum(n1, ids) * total >= size_sum(n0, ids) * SIZE_ONE - ids.len() * total,
    decreases ids.len(),
{
    if ids.len() > 0 {
        let d = ids.drop_last();
        assert forall|k: int| 0 <= k < d.len() implies kind_is_tiling((#[trigger] n1[d[k] as int]).kind) by {
            assert(d[k] == ids[k]);
        }
        assert forall|k: int| 0 <= k < d.len() implies (#[trigger] n1[d[k] as int]).tiling_size as int
            == n0[d[k] as int].tiling_size * SIZE_ONE / total by {
            assert(d[k] == ids[k]);
        }
        lemma_share_sums(n0, n1, d, total);
        let j = ids.len() - 1;
        let last = ids[j] as int;
        assert(kind_is_tiling(n1[last].kind));
        let a = n0[last].tiling_size as int;
        let q = n1[last].tiling_size as int;
        assert(q == a * SIZE_ONE / total);
        assert(q * total <= a * SIZE_ONE && a * SIZE_ONE < q * total + total) by (nonlinear_arith)
            requires
                q == a * SIZE_ONE / total,
                total > 0,
                a >= 0,
        ;
        let x = tiling_sum(n1, d);
        let y = size_sum(n0, d);
        let len = d.len() as int;
        assert(tiling_sum(n1, ids) == x + q);
        assert(size_sum(n0, ids) == y + a);
        assert((x + q) * total == x * total + q * total) by (nonlinear_arith);
        assert((y + a) * SIZE_ONE == y * SIZE_ONE + a * SIZE_ONE) by (nonlinear_arith);
        assert((len + 1) * total == len * total + total) by (nonlinear_arith);
    }
}

/// Flattening a tabbed container that wrapped all the tiling children of
/// `p` just before succeeds, gives `p` back its children and its focus
/// order, and leaves the tabbed container detached and empty. Each child
/// gets back its size up to the rounding of the fixed-point shares: less
/// than `S / SIZE_ONE + 1` below it, for `S` the children's total size,
/// and at most a factor `SIZE_ONE / (SIZE_ONE - n)` above it, for `n`
/// children.
pub proof fn law_flatten_restores_wrapped_sizes(
    t0: ContainerTree,
    t1: ContainerTree,
    t2: ContainerTree,
    tb: int,
    p: int,
    r2: Result<(), TreeError>,
)
    requires
        t0.wf(),
        0 <= p < t0.len(),
        0 <= tb < t0.len(),
        wrap_outcome(&t0, &t1, tb, p, t0.ch(p), Ok(())),
        flatten_tabbed_outcome(&t1, &t2, tb, r2),
        forall|k: int|
            0 <= k < t0.ch(p).len() ==> t0.is_tiling(#[trigger] t0.ch(p)[k] as int) && t0.size(t0.ch(p)[k] as int) > 0,
        !t0.ch(p).contains(p as usize),
        t0.ch(p).len() < SIZE_ONE,
        size_sum(t0.nodes@, t0.ch(p)) <= MAX_TILING_SIZE,
    ensures
        r2 is Ok,
        t2.ch(p) == t0.ch(p),
        t2.fo(p) == t0.fo(p),
        t2.parent_of(tb) is None,
        t2.ch(tb).len() == 0,
        forall|k: int|
            0 <= k < t0.ch(p).len() ==> {
                let c = #[trigger] t0.ch(p)[k] as int;
                &&& t2.parent_of(c) == Some(p as usize)
                &&& t2.size(c) * SIZE_ONE + SIZE_ONE + size_sum(t0.nodes@, t0.ch(p)) > t0.size(c) * SIZE_ONE
                &&& t2.size(c) * (SIZE_ONE - t0.ch(p).len()) <= t0.size(c) * SIZE_ONE
            },
{
    let ws = t0.ch(p);
    let fo0 = t0.fo(p);
    let n = ws.len() as int;
    assert(t0.node_wf(p));
    assert(wrap_allowed(&t0, tb, p, ws));
    assert(n > 0);
    assert(ws.contains(ws[0]));
    assert forall|k: int| 0 <= k < fo0.len() implies ws.contains(#[trigger] fo0[k]) by {}
    lemma_keep_every(ws, ws);
    lemma_keep_every(fo0, ws);
    // Wrapping left `tb` alone in `p`.
    let i0 = choose|i0: int|
        first_in(ws, ws, i0) && t1.ch(p) == ws.take(i0) + seq![tb as usize] + drop_in(ws.skip(i0), ws);
    assert(i0 == 0);
    assert(ws.skip(0) =~= ws);
    assert(t1.ch(p) =~= seq![tb as usize]);
    let f0 = choose|f0: int|
        first_in(fo0, ws, f0) && t1.fo(p) == fo0.take(f0) + seq![tb as usize] + drop_in(fo0.skip(f0), ws);
    assert(fo0.len() == n);
    assert(ws.contains(fo0[0]));
    assert(f0 == 0);
    assert(fo0.skip(0) =~= fo0);
    assert(t1.fo(p) =~= seq![tb as usize]);
    assert(t1.ch(tb) == ws);
    assert(t1.fo(tb) == fo0);
    // The tabbed container dissolves back into `p`.
    assert(tb != p);
    assert(t1.parent_of(tb) == Some(p as usize));
    assert(t1.dissolvable(tb));
    let (i, f) = choose|i: int, f: int| dissolved_links(&t1, &t2, tb, p, i, f);
    assert(i == 0);
    assert(f == 0);
    assert(t2.ch(p) =~= ws);
    assert(t2.fo(p) =~= fo0);
    // Sizes.
    let total = size_sum(t0.nodes@, ws);
    lemma_entry_within_sum(t0.nodes@, ws, 0);
    assert(total > 0);
    assert(t1.size(tb) == total);
    assert forall|k: int| 0 <= k < n implies (#[trigger] t1.nodes@[ws[k] as int]).tiling_size as int
        == t0.nodes@[ws[k] as int].tiling_size * SIZE_ONE / total by {
        let c = ws[k] as int;
        lemma_entry_within_sum(t0.nodes@, ws, k);
        let a = t0.size(c) as int;
        assert(a * SIZE_ONE / total <= SIZE_ONE) by (nonlinear_arith)
            requires
                0 <= a <= total,
                total > 0,
        ;
        assert(t1.size(c) == clamp_size(t0.size(c) * SIZE_ONE / size_sum(t0.nodes@, ws)));
    }
    assert forall|k: int| 0 <= k < n implies kind_is_tiling((#[trigger] t1.nodes@[ws[k] as int]).kind) by {
        assert(t1.nodes@[ws[k] as int].kind == t0.nodes@[ws[k] as int].kind);
        assert(t0.is_tiling(ws[k] as int));
    }
    lemma_share_sums(t0.nodes@, t1.nodes@, ws, total);
    let u = tiling_sum(t1.nodes@, ws);
    assert(u <= SIZE_ONE && u >= SIZE_ONE - n) by (nonlinear_arith)
        requires
            u * total <= total * SIZE_ONE,
            u * total >= total * SIZE_ONE - n * total,
            total > 0,
    ;
    assert forall|k: int| 0 <= k < n implies {
        let c = #[trigger] ws[k] as int;
        &&& t2.parent_of(c) == Some(p as usize)
        &&& t2.size(c) * SIZE_ONE + SIZE_ONE + total > t0.size(c) * SIZE_ONE
        &&& t2.size(c) * (SIZE_ONE - n) <= t0.size(c) * SIZE_ONE
    } by {
        let c = ws[k] as int;
        assert(t1.ch(tb)[k] == ws[k]);
        assert(t1.is_tiling(c)) by {
            assert(kind_is_tiling(t1.nodes@[ws[k] as int].kind));
        }
        let s = t0.size(c) as int;
        let q = t1.size(c) as int;
        assert(q == s * SIZE_ONE / total);
        assert(t2.size(c) == flattened_size(total, q, u, n));
        let x = total * q / u;
        assert(t2.size(c) == clamp_size(x));
        assert(q * total <= s * SIZE_ONE && s * SIZE_ONE < q * total + total) by (nonlinear_arith)
            requires
                q == s * SIZE_ONE / total,
                total > 0,
                s >= 0,
        ;
        assert(x >= 0 && x * u <= total * q && total * q < x * u + u) by (nonlinear_arith)
            requires
                x == total * q / u,
                u > 0,
                total > 0,
                q >= 0,
        ;
        assert(x * SIZE_ONE + SIZE_ONE + total > s * SIZE_ONE) by (nonlinear_arith)
            requires
                x * u + u > total * q,
                q * total + total > s * SIZE_ONE,
                0 < u <= SIZE_ONE,
                x >= 0,
        ;
        assert(x * (SIZE_ONE - n) <= s * SIZE_ONE) by (nonlinear_arith)
            requires
                x * u <= total * q,
                q * total <= s * SIZE_ONE,
                u >= SIZE_ONE - n,
                SIZE_ONE - n > 0,
                x >= 0,
        ;
        assert(s <= MAX_TILING_SIZE) by {
            assert(t0.node_wf(c));
        }
        if x > MAX_TILING_SIZE {
            assert(MAX_TILING_SIZE * SIZE_ONE + SIZE_ONE + total > s * SIZE_ONE) by (nonlinear_arith)
                requires
                    s <= MAX_TILING_SIZE,
                    total > 0,
            ;
            assert(MAX_TILING_SIZE * (SIZE_ONE - n) <= x * (SIZE_ONE - n)) by (nonlinear_arith)
                requires
                    x > MAX_TILING_SIZE,
                    SIZE_ONE - n > 0,
            ;
        }
    }
}

} // verus!
