//! Resizing a tiling container against its tiling siblings.
use vstd::prelude::*;

use crate::geometry::div_trunc;
use crate::sizes::{clamp_size, lemma_same_but_sizes_trans, same_but_sizes, tiling_avail, tiling_count, tiling_sum};
use crate::tree::{ContainerTree, MAX_TILING_SIZE, MIN_TILING_SIZE, SIZE_ONE};

verus! {

/// How the tiling siblings of a resized container change.
#[derive(Clone, Copy, Debug, PartialEq, Eq, Structural)]
pub enum Rescale {
    /// Each sibling gives up its share of `delta`, in proportion to its
    /// size above the minimum out of `avail`; nothing changes when
    /// `avail` is not positive.
    Absorb { delta: i128, avail: i128 },
    /// The siblings share out `rest` in proportion to their sizes, whose
    /// total is `sum`, or equally among `count` of them where `sum` is
    /// zero.
    Share { rest: u64, sum: u128, count: u64 },
}

/// A sibling's new size under `mode`.
pub open spec fn rescaled(mode: Rescale, s: int) -> u64 {
    match mode {
        Rescale::Absorb { delta, avail } => if avail <= 0 {
            clamp_size(s)
        } else {
            clamp_size(s - div_trunc((s - MIN_TILING_SIZE) * delta, avail as int))
        },
        Rescale::Share { rest, sum, count } => if sum > 0 {
            clamp_size(s * rest / sum as int)
        } else if count > 0 {
            clamp_size(rest as int / count as int)
        } else {
            clamp_size(s)
        },
    }
}

/// Whether a rescale's numbers are in range.
pub open spec fn rescale_ok(mode: Rescale) -> bool {
    match mode {
        Rescale::Absorb { delta, avail } => -0x8000_0000_0000_0000 <= delta <= 0x8000_0000_0000_0000,
        Rescale::Share { rest, sum, count } => true,
    }
}

/// A sibling's new size under `mode`, as `rescaled` says.
pub fn rescaled_exec(mode: Rescale, s: u64) -> (r: u64)
    requires
        rescale_ok(mode),
        s <= MAX_TILING_SIZE,
    ensures
        r == rescaled(mode, s as int),
{
    match mode {
        Rescale::Absorb { delta, avail } => {
            if avail <= 0 {
                return s;
            }
            let above: i128 = s as i128 - MIN_TILING_SIZE as i128;
            proof {
                assert(above * delta <= 0x4000_0000_0000_0000 * 0x8000_0000_0000_0000) by (nonlinear_arith)
                    requires
                        -0x8000_0000_0000_0000 <= delta <= 0x8000_0000_0000_0000,
                        -0x1_0000_0000 <= above <= 0x4000_0000_0000_0000,
                ;
                assert(above * delta >= -(0x4000_0000_0000_0000 * 0x8000_0000_0000_0000)) by (nonlinear_arith)
                    requires
                        -0x8000_0000_0000_0000 <= delta <= 0x8000_0000_0000_0000,
                        -0x1_0000_0000 <= above <= 0x4000_0000_0000_0000,
                ;
            }
            let prod: i128 = above * delta;
            let q: i128 = crate::geometry::i128_div_trunc(prod, avail);
            let v: i128 = s as i128 - q;
            crate::sizes::clamp_size_i128(v)
        },
        Rescale::Share { rest, sum, count } => {
            if sum > 0 {
                proof {
                    assert((s as int) * (rest as int) <= 0x4000_0000_0000_0000 * 0xffff_ffff_ffff_ffff) by (nonlinear_arith)
                        requires
                            s <= 0x4000_0000_0000_0000,
                            rest <= 0xffff_ffff_ffff_ffff,
                    ;
                }
                let q: u128 = (s as u128 * rest as u128) / sum;
                if q > MAX_TILING_SIZE as u128 {
                    MAX_TILING_SIZE
                } else {
                    q as u64
                }
            } else if count > 0 {
                let q: u64 = rest / count;
                if q > MAX_TILING_SIZE {
                    MAX_TILING_SIZE
                } else {
                    q
                }
            } else {
                s
            }
        },
    }
}

impl ContainerTree {
    /// Gives every tiling sibling of child `c` of `p` its size under
    /// `mode`.
    pub fn rescale_siblings(&mut self, p: usize, c: usize, mode: Rescale)
        requires
            old(self).wf(),
            (p as int) < old(self).len(),
            rescale_ok(mode),
        ensures
            final(self).wf(),
            same_but_sizes(final(self), old(self)),
            forall|k: int|
                0 <= k < old(self).ch(p as int).len() && old(self).is_tiling(old(self).ch(p as int)[k] as int)
                    && old(self).ch(p as int)[k] != c ==> #[trigger] final(self).size(old(self).ch(p as int)[k] as int)
                    == rescaled(mode, old(self).size(old(self).ch(p as int)[k] as int) as int),
            forall|i: int|
                0 <= i < final(self).len() && !(old(self).ch(p as int).contains(i as usize) && old(self).is_tiling(i)
                    && i != c) ==> #[trigger] final(self).size(i) == old(self).size(i),
    {
        let ghost old_t = *old(self);
        let n = self.nodes[p].children.len();
        let ghost ids = old_t.ch(p as int);
        proof {
            assert(old_t.node_wf(p as int));
        }
        let mut j: usize = 0;
        while j < n
            invariant
                self.wf(),
                same_but_sizes(self, &old_t),
                old_t.wf(),
                (p as int) < old_t.len(),
                ids == old_t.ch(p as int),
                ids.no_duplicates(),
                old_t.children_linked(p as int),
                n == ids.len(),
                j <= n,
                rescale_ok(mode),
                forall|k: int|
                    0 <= k < j && old_t.is_tiling(ids[k] as int) && ids[k] != c ==> #[trigger] self.size(ids[k] as int)
                        == rescaled(mode, old_t.size(ids[k] as int) as int),
                forall|i: int|
                    0 <= i < self.len() && !(ids.take(j as int).contains(i as usize) && old_t.is_tiling(i) && i != c)
                        ==> #[trigger] self.size(i) == old_t.size(i),
            decreases n - j,
        {
            let y = self.nodes[p].children[j];
            proof {
                assert(self.ch(p as int) == ids);
                assert(y == ids[j as int]);
                assert(old_t.valid(y as int));
                assert(!ids.take(j as int).contains(y)) by {
                    if ids.take(j as int).contains(y) {
                        let m = choose|m: int| 0 <= m < j && ids.take(j as int)[m] == y;
                        assert(ids[m] == ids[j as int]);
                    }
                }
                assert(self.size(y as int) == old_t.size(y as int));
                assert(old_t.node_wf(y as int));
            }
            if y != c && self.tiling(y) {
                let s = self.nodes[y].tiling_size;
                let v = rescaled_exec(mode, s);
                let ghost before = *self;
                self.set_tiling_size(y, v);
                proof {
                    lemma_same_but_sizes_trans(self, &before, &old_t);
                }
            }
            proof {
                let t = *self;
                assert forall|i: int|
                    0 <= i < t.len() && !(ids.take(j + 1).contains(i as usize) && old_t.is_tiling(i) && i != c) implies #[trigger] t.size(i)
                    == old_t.size(i) by {
                    if ids.take(j as int).contains(i as usize) {
                        let m = choose|m: int| 0 <= m < j && ids.take(j as int)[m] == i as usize;
                        assert(ids.take(j + 1)[m] == i as usize);
                    }
                    if i == y as int {
                        assert(ids.take(j + 1)[j as int] == y);
                    }
                }
            }
            j = j + 1;
        }
        proof {
            assert(ids.take(n as int) =~= ids);
        }
    }
}

/// `x` kept between `lo` and `hi` (where `lo <= hi`).
pub open spec fn clamp_int(x: int, lo: int, hi: int) -> int {
    if x < lo { lo } else if x > hi { hi } else { x }
}

/// The size that a container resized to `target` takes beside `n` tiling
/// siblings: at least the minimum, and no more than leaves each sibling
/// the minimum (and the minimum where siblings are too many to leave each
/// the minimum).
pub open spec fn resize_target(target: int, n: int) -> int {
    let hi = if n * MIN_TILING_SIZE <= SIZE_ONE - MIN_TILING_SIZE { SIZE_ONE - n * MIN_TILING_SIZE } else { MIN_TILING_SIZE as int };
    clamp_int(target, MIN_TILING_SIZE as int, hi)
}

impl ContainerTree {
    /// Resizes tiling child `c` of `p` to `target`: alone it takes the
    /// whole size; otherwise it takes `resize_target`, and its tiling
    /// siblings absorb the change in proportion to their sizes above the
    /// minimum (`Rescale::Absorb`).
    pub fn resize_tiling_container(&mut self, p: usize, c: usize, target: u64)
        requires
            old(self).wf(),
            (p as int) < old(self).len(),
            old(self).ch(p as int).contains(c),
            old(self).is_tiling(c as int),
            target <= MAX_TILING_SIZE,
        ensures
            final(self).wf(),
            same_but_sizes(final(self), old(self)),
            tiling_count(old(self).nodes@, old(self).ch(p as int)) == 1 ==> final(self).size(c as int) == SIZE_ONE
                && forall|i: int| 0 <= i < final(self).len() && i != c ==> #[trigger] final(self).size(i) == old(self).size(i),
            tiling_count(old(self).nodes@, old(self).ch(p as int)) > 1 ==> {
                let n = tiling_count(old(self).nodes@, old(self).ch(p as int)) - 1;
                let clamped = resize_target(target as int, n);
                let avail = tiling_avail(old(self).nodes@, old(self).ch(p as int)) - (old(self).size(c as int) - MIN_TILING_SIZE);
                let mode = Rescale::Absorb { delta: (clamped - old(self).size(c as int)) as i128, avail: avail as i128 };
                &&& final(self).size(c as int) == clamped
                &&& forall|k: int|
                    0 <= k < old(self).ch(p as int).len() && old(self).is_tiling(old(self).ch(p as int)[k] as int)
                        && old(self).ch(p as int)[k] != c ==> #[trigger] final(self).size(old(self).ch(p as int)[k] as int)
                        == rescaled(mode, old(self).size(old(self).ch(p as int)[k] as int) as int)
                &&& forall|i: int|
                    0 <= i < final(self).len() && !(old(self).ch(p as int).contains(i as usize) && old(self).is_tiling(i))
                        ==> #[trigger] final(self).size(i) == old(self).size(i)
            },
    {
        let ghost old_t = *old(self);
        let (sum, avail_all, count) = self.tiling_totals(p);
        proof {
            assert(old_t.node_wf(p as int));
            let k = choose|k: int| 0 <= k < old_t.ch(p as int).len() && old_t.ch(p as int)[k] == c;
            assert(old_t.valid(c as int));
            assert(old_t.node_wf(c as int));
            crate::sizes::lemma_count_positive(old_t.nodes@, old_t.ch(p as int), k);
        }
        if count <= 1 {
            self.set_tiling_size(c, SIZE_ONE);
            return;
        }
        let n: u64 = (count - 1) as u64;
        let hi: u64 = if n <= 99 {
            SIZE_ONE - n * MIN_TILING_SIZE
        } else {
            MIN_TILING_SIZE
        };
        let clamped: u64 = if target < MIN_TILING_SIZE {
            MIN_TILING_SIZE
        } else if target > hi {
            hi
        } else {
            target
        };
        let cur = self.nodes[c].tiling_size;
        let delta: i128 = clamped as i128 - cur as i128;
        let nch = self.nodes[p].children.len();
        proof {
            let ids = old_t.ch(p as int);
            assert(ids.len() == nch);
            assert forall|k: int| 0 <= k < ids.len() implies (#[trigger] old_t.nodes@[ids[k] as int]).tiling_size <= MAX_TILING_SIZE by {
                assert(old_t.valid(ids[k] as int));
                assert(old_t.node_wf(ids[k] as int));
            }
            crate::sizes::lemma_sum_bounds(old_t.nodes@, ids);
            assert(ids.len() <= usize::MAX);
            assert(ids.len() * MAX_TILING_SIZE <= 0xffff_ffff_ffff_ffff * MAX_TILING_SIZE) by (nonlinear_arith)
                requires
                    ids.len() <= 0xffff_ffff_ffff_ffff,
            ;
        }
        let avail: i128 = avail_all - (cur as i128 - MIN_TILING_SIZE as i128);
        let mode = Rescale::Absorb { delta, avail };
        self.set_tiling_size(c, clamped);
        let ghost mid = *self;
        self.rescale_siblings(p, c, mode);
        proof {
            lemma_same_but_sizes_trans(self, &mid, &old_t);
            assert forall|k: int|
                0 <= k < old_t.ch(p as int).len() && old_t.is_tiling(old_t.ch(p as int)[k] as int) && old_t.ch(p as int)[k] != c
                    implies #[trigger] self.size(old_t.ch(p as int)[k] as int) == rescaled(mode, old_t.size(old_t.ch(p as int)[k] as int) as int) by {
                assert(mid.ch(p as int) == old_t.ch(p as int));
                assert(mid.nodes@[old_t.ch(p as int)[k] as int].kind == old_t.nodes@[old_t.ch(p as int)[k] as int].kind);
            }
        }
    }
}

} // verus!
