//! Linking and unlinking single containers, keeping the tree's links
//! consistent.
use vstd::prelude::*;

use crate::tree::{ContainerTree, Node};

verus! {

/// `new` is `old` with the element at some position holding `x` removed.
pub open spec fn removed_from(old: Seq<usize>, new: Seq<usize>, x: usize) -> bool {
    exists|k: int| 0 <= k < old.len() && old[k] == x && new == old.remove(k)
}

/// Nodes `a` and `b` agree on everything but their links.
pub open spec fn same_content(a: Node, b: Node) -> bool {
    &&& a.kind == b.kind
    &&& a.tiling_size == b.tiling_size
    &&& a.tiling_direction == b.tiling_direction
}

/// Removing an element from a sequence without duplicates keeps it free
/// of duplicates, and drops exactly that element.
pub proof fn lemma_remove_no_dup(s: Seq<usize>, k: int)
    requires
        s.no_duplicates(),
        0 <= k < s.len(),
    ensures
        s.remove(k).no_duplicates(),
        !s.remove(k).contains(s[k]),
        forall|y: usize| s.contains(y) && y != s[k] ==> s.remove(k).contains(y),
        forall|y: usize| s.remove(k).contains(y) ==> s.contains(y),
{
    let r = s.remove(k);
    assert forall|i: int, j: int| 0 <= i < r.len() && 0 <= j < r.len() && i != j implies r[i]
        != r[j] by {
        let i2 = if i < k { i } else { i + 1 };
        let j2 = if j < k { j } else { j + 1 };
        assert(r[i] == s[i2]);
        assert(r[j] == s[j2]);
    }
    assert forall|y: usize| s.contains(y) && y != s[k] implies r.contains(y) by {
        let i = choose|i: int| 0 <= i < s.len() && s[i] == y;
        if i < k {
            assert(r[i] == y);
        } else {
            assert(r[i - 1] == y);
        }
    }
    assert forall|y: usize| r.contains(y) implies s.contains(y) by {
        let i = choose|i: int| 0 <= i < r.len() && r[i] == y;
        if i < k {
            assert(s[i] == y);
        } else {
            assert(s[i + 1] == y);
        }
    }
    if r.contains(s[k]) {
        let i = choose|i: int| 0 <= i < r.len() && r[i] == s[k];
        if i < k {
            assert(s[i] == s[k]);
        } else {
            assert(s[i + 1] == s[k]);
        }
    }
}

/// Inserting an element that is not present keeps a sequence free of
/// duplicates.
pub proof fn lemma_insert_no_dup(s: Seq<usize>, k: int, x: usize)
    requires
        s.no_duplicates(),
        !s.contains(x),
        0 <= k <= s.len(),
    ensures
        s.insert(k, x).no_duplicates(),
        s.insert(k, x).contains(x),
        forall|y: usize| #[trigger] s.insert(k, x).contains(y) <==> (s.contains(y) || y == x),
{
    let r = s.insert(k, x);
    assert(r[k] == x);
    assert forall|i: int, j: int| 0 <= i < r.len() && 0 <= j < r.len() && i != j implies r[i]
        != r[j] by {
        if i == k {
            if j < k {
                assert(r[j] == s[j]);
            } else {
                assert(r[j] == s[j - 1]);
            }
        } else if j == k {
            if i < k {
                assert(r[i] == s[i]);
            } else {
                assert(r[i] == s[i - 1]);
            }
        } else {
            let i2 = if i < k { i } else { i - 1 };
            let j2 = if j < k { j } else { j - 1 };
            assert(r[i] == s[i2]);
            assert(r[j] == s[j2]);
        }
    }
    assert forall|y: usize| #[trigger] r.contains(y) <==> (s.contains(y) || y == x) by {
        if r.contains(y) {
            let i = choose|i: int| 0 <= i < r.len() && r[i] == y;
            if i < k {
                assert(s[i] == y);
            } else if i > k {
                assert(s[i - 1] == y);
            }
        }
        if s.contains(y) {
            let i = choose|i: int| 0 <= i < s.len() && s[i] == y;
            if i < k {
                assert(r[i] == y);
            } else {
                assert(r[i + 1] == y);
            }
        }
    }
}

/// Removes the element at a known position of a vector.
fn vec_remove_at(v: &mut Vec<usize>, k: usize) -> (x: usize)
    requires
        (k as int) < old(v)@.len(),
    ensures
        x == old(v)@[k as int],
        final(v)@ == old(v)@.remove(k as int),
{
    v.remove(k)
}

/// Finds the position of an element that a vector holds.
fn position_of(v: &Vec<usize>, x: usize) -> (k: usize)
    requires
        v@.contains(x),
    ensures
        (k as int) < v@.len(),
        v@[k as int] == x,
{
    let mut k: usize = 0;
    while k < v.len()
        invariant
            v@.contains(x),
            forall|j: int| 0 <= j < k ==> v@[j] != x,
        decreases v@.len() - k,
    {
        if v[k] == x {
            return k;
        }
        k = k + 1;
    }
    proof {
        let j = choose|j: int| 0 <= j < v@.len() && v@[j] == x;
        assert(v@[j] == x);
    }
    0
}

impl ContainerTree {
    /// Unlinks `c` from its parent: the parent loses it from its children
    /// and its focus order, and `c` keeps its own children. Nothing else
    /// changes. Returns the former parent.
    pub fn unlink(&mut self, c: usize) -> (p: usize)
        requires
            old(self).wf(),
            (c as int) < old(self).len(),
            old(self).parent_of(c as int) is Some,
        ensures
            final(self).wf(),
            Some(p) == old(self).parent_of(c as int),
            final(self).len() == old(self).len(),
            final(self).parent_of(c as int) is None,
            removed_from(old(self).ch(p as int), final(self).ch(p as int), c),
            removed_from(old(self).fo(p as int), final(self).fo(p as int), c),
            forall|i: int|
                0 <= i < final(self).len() ==> same_content(
                    #[trigger] final(self).nodes@[i],
                    old(self).nodes@[i],
                ),
            forall|i: int|
                0 <= i < final(self).len() && i != c ==> #[trigger] final(self).parent_of(i)
                    == old(self).parent_of(i),
            forall|i: int|
                0 <= i < final(self).len() && i != p ==> #[trigger] final(self).ch(i) == old(self).ch(i) && final(self).fo(i) == old(self).fo(i),
    {
        let p = self.nodes[c].parent.unwrap();
        let ghost old_t = *old(self);
        proof {
            assert(old_t.node_wf(c as int));
            assert(old_t.node_wf(p as int));
        }
        let k = position_of(&self.nodes[p].children, c);
        vec_remove_at(&mut self.nodes[p].children, k);
        proof {
            assert(old_t.fo(p as int).len() == old_t.ch(p as int).len());
            lemma_remove_no_dup(old_t.ch(p as int), k as int);
            assert(old_t.fo(p as int).contains(c)) by {
                let ch = old_t.ch(p as int);
                let fo = old_t.fo(p as int);
                // The focus order lists every child: count argument via no-dup subset.
                if !fo.contains(c) {
                    lemma_subset_len(fo, ch.remove(k as int));
                }
            }
        }
        let fk = position_of(&self.nodes[p].focus_order, c);
        vec_remove_at(&mut self.nodes[p].focus_order, fk);
        self.nodes[c].parent = None;
        proof {
            lemma_remove_no_dup(old_t.fo(p as int), fk as int);
            let t = *self;
            assert(t.ch(p as int) == old_t.ch(p as int).remove(k as int));
            assert(t.fo(p as int) == old_t.fo(p as int).remove(fk as int));
            assert forall|x: int| 0 <= x < t.len() && x != c implies #[trigger] t.parent_of(x)
                == old_t.parent_of(x) by {}
            assert forall|x: int| 0 <= x < t.len() && x != p implies #[trigger] t.ch(x) == old_t.ch(
                x,
            ) && t.fo(x) == old_t.fo(x) by {}
            assert forall|i: int| 0 <= i < t.len() implies #[trigger] t.node_wf(i) by {
                assert(old_t.node_wf(i));
                if i == p {
                    assert forall|j: int| 0 <= j < t.ch(i).len() implies {
                        let x = #[trigger] t.ch(i)[j];
                        &&& t.valid(x as int)
                        &&& t.parent_of(x as int) == Some(i as usize)
                    } by {
                        let j2 = if j < k { j } else { j + 1 };
                        assert(t.ch(i)[j] == old_t.ch(i)[j2]);
                        assert(old_t.ch(i)[j2] != c) by {
                            assert(old_t.ch(i)[k as int] == c);
                        }
                    }
                    assert forall|j: int| 0 <= j < t.fo(i).len() implies t.ch(i).contains(
                        #[trigger] t.fo(i)[j],
                    ) by {
                        let y = t.fo(i)[j];
                        assert(old_t.fo(i).contains(y)) by {
                            let j2 = if j < fk { j } else { j + 1 };
                            assert(old_t.fo(i)[j2] == y);
                        }
                        assert(y != c);
                        let m = choose|m: int| 0 <= m < old_t.fo(i).len() && old_t.fo(i)[m] == y;
                        assert(old_t.ch(i).contains(old_t.fo(i)[m]));
                    }
                    if t.parent_of(i) is Some {
                        let q = t.parent_of(i).unwrap();
                        if q as int == i {
                            assert(old_t.ch(i).contains(i as usize));
                            assert(i as usize != c) by {
                                if i as usize == c {
                                    assert(old_t.parent_of(c as int) == Some(p));
                                }
                            }
                        }
                    }
                } else if i == c {
                    assert(t.ch(i) == old_t.ch(i));
                    assert(t.fo(i) == old_t.fo(i));
                    assert forall|j: int| 0 <= j < t.ch(i).len() implies {
                        let x = #[trigger] t.ch(i)[j];
                        &&& t.valid(x as int)
                        &&& t.parent_of(x as int) == Some(i as usize)
                    } by {
                        let x = t.ch(i)[j];
                        assert(old_t.ch(i)[j] == x);
                        if x == c {
                            assert(old_t.parent_of(c as int) == Some(c));
                            assert(p == c);
                        }
                    }
                } else {
                    assert(t.ch(i) == old_t.ch(i));
                    assert(t.fo(i) == old_t.fo(i));
                    assert forall|j: int| 0 <= j < t.ch(i).len() implies {
                        let x = #[trigger] t.ch(i)[j];
                        &&& t.valid(x as int)
                        &&& t.parent_of(x as int) == Some(i as usize)
                    } by {
                        let x = t.ch(i)[j];
                        assert(old_t.ch(i)[j] == x);
                        if x == c {
                            assert(old_t.parent_of(c as int) == Some(i as usize));
                            assert(old_t.parent_of(c as int) == Some(p));
                            assert(false);
                        }
                        assert(t.parent_of(x as int) == old_t.parent_of(x as int));
                    }
                    if t.parent_of(i) is Some {
                        let q = t.parent_of(i).unwrap();
                        if q == p {
                            assert(old_t.ch(p as int).contains(i as usize));
                        }
                    }
                }
            }
            assert(removed_from(old_t.ch(p as int), t.ch(p as int), c));
            assert(removed_from(old_t.fo(p as int), t.fo(p as int), c));
        }
        p
    }

    /// Links a detached container `c` as a child of `p` at `index`, and
    /// appends it to the end of `p`'s focus order. Nothing else changes.
    pub fn link(&mut self, c: usize, p: usize, index: usize)
        requires
            old(self).wf(),
            (c as int) < old(self).len(),
            (p as int) < old(self).len(),
            old(self).parent_of(c as int) is None,
            index <= old(self).ch(p as int).len(),
        ensures
            final(self).wf(),
            final(self).len() == old(self).len(),
            final(self).parent_of(c as int) == Some(p),
            final(self).ch(p as int) == old(self).ch(p as int).insert(index as int, c),
            final(self).fo(p as int) == old(self).fo(p as int).push(c),
            forall|i: int|
                0 <= i < final(self).len() ==> same_content(
                    #[trigger] final(self).nodes@[i],
                    old(self).nodes@[i],
                ),
            forall|i: int|
                0 <= i < final(self).len() && i != c ==> #[trigger] final(self).parent_of(i)
                    == old(self).parent_of(i),
            forall|i: int|
                0 <= i < final(self).len() && i != p ==> #[trigger] final(self).ch(i) == old(self).ch(i) && final(self).fo(i) == old(self).fo(i),
    {
        let ghost old_t = *old(self);
        proof {
            assert(old_t.node_wf(p as int));
            assert(!old_t.ch(p as int).contains(c)) by {
                if old_t.ch(p as int).contains(c) {
                    let j = choose|j: int|
                        0 <= j < old_t.ch(p as int).len() && old_t.ch(p as int)[j] == c;
                    assert(old_t.ch(p as int)[j] == c);
                }
            }
            assert(!old_t.fo(p as int).contains(c)) by {
                if old_t.fo(p as int).contains(c) {
                    let j = choose|j: int|
                        0 <= j < old_t.fo(p as int).len() && old_t.fo(p as int)[j] == c;
                    assert(old_t.ch(p as int).contains(old_t.fo(p as int)[j]));
                }
            }
            lemma_insert_no_dup(old_t.ch(p as int), index as int, c);
            lemma_insert_no_dup(old_t.fo(p as int), old_t.fo(p as int).len() as int, c);
            assert(old_t.fo(p as int).insert(old_t.fo(p as int).len() as int, c)
                =~= old_t.fo(p as int).push(c));
        }
        self.nodes[p].children.insert(index, c);
        self.nodes[p].focus_order.push(c);
        self.nodes[c].parent = Some(p);
        proof {
            let t = *self;
            assert(t.ch(p as int) == old_t.ch(p as int).insert(index as int, c));
            assert(t.fo(p as int) == old_t.fo(p as int).push(c));
            assert forall|i: int| 0 <= i < t.len() implies #[trigger] t.node_wf(i) by {
                assert(old_t.node_wf(i));
                if i == p {
                    assert forall|j: int| 0 <= j < t.ch(i).len() implies {
                        let x = #[trigger] t.ch(i)[j];
                        &&& t.valid(x as int)
                        &&& t.parent_of(x as int) == Some(i as usize)
                    } by {
                        if j < index {
                            assert(t.ch(i)[j] == old_t.ch(i)[j]);
                        } else if j > index {
                            assert(t.ch(i)[j] == old_t.ch(i)[j - 1]);
                        }
                    }
                    assert forall|j: int| 0 <= j < t.fo(i).len() implies t.ch(i).contains(
                        #[trigger] t.fo(i)[j],
                    ) by {
                        if j < old_t.fo(i).len() {
                            assert(old_t.ch(i).contains(old_t.fo(i)[j]));
                            assert(t.fo(i)[j] == old_t.fo(i)[j]);
                        }
                    }
                    if i == c {
                        assert(t.ch(i).contains(i as usize));
                    }
                } else if i == c {
                    assert(t.ch(i) == old_t.ch(i));
                    assert(t.fo(i) == old_t.fo(i));
                    assert forall|j: int| 0 <= j < t.ch(i).len() implies {
                        let x = #[trigger] t.ch(i)[j];
                        &&& t.valid(x as int)
                        &&& t.parent_of(x as int) == Some(i as usize)
                    } by {
                        assert(old_t.ch(i)[j] == t.ch(i)[j]);
                        if t.ch(i)[j] == c {
                            assert(old_t.parent_of(c as int) == Some(c));
                        }
                    }
                    assert(t.ch(p as int).contains(c)) by {
                        assert(t.ch(p as int)[index as int] == c);
                    }
                } else {
                    assert(t.ch(i) == old_t.ch(i));
                    assert(t.fo(i) == old_t.fo(i));
                    assert forall|j: int| 0 <= j < t.ch(i).len() implies {
                        let x = #[trigger] t.ch(i)[j];
                        &&& t.valid(x as int)
                        &&& t.parent_of(x as int) == Some(i as usize)
                    } by {
                        assert(old_t.ch(i)[j] == t.ch(i)[j]);
                        if t.ch(i)[j] == c {
                            assert(old_t.parent_of(c as int) == Some(i as usize));
                        }
                    }
                    if t.parent_of(i) is Some {
                        let q = t.parent_of(i).unwrap();
                        if q == p {
                            assert(old_t.ch(p as int).contains(i as usize));
                            assert(t.ch(p as int).contains(i as usize));
                        }
                    }
                }
            }
        }
    }
}

/// A sequence without duplicates whose elements all lie in another
/// sequence is no longer than it.
pub proof fn lemma_subset_len(a: Seq<usize>, b: Seq<usize>)
    requires
        a.no_duplicates(),
        forall|i: int| 0 <= i < a.len() ==> b.contains(#[trigger] a[i]),
    ensures
        a.len() <= b.len(),
    decreases a.len(),
{
    if a.len() > 0 {
        let x = a.last();
        assert(b.contains(x));
        let k = choose|k: int| 0 <= k < b.len() && b[k] == x;
        let a2 = a.drop_last();
        let b2 = b.remove(k);
        assert forall|i: int| 0 <= i < a2.len() implies b2.contains(#[trigger] a2[i]) by {
            let y = a2[i];
            assert(a[i] == y);
            assert(b.contains(y));
            assert(y != x) by {
                assert(a[a.len() - 1] == x);
            }
            let m = choose|m: int| 0 <= m < b.len() && b[m] == y;
            if m < k {
                assert(b2[m] == y);
            } else {
                assert(m != k);
                assert(b2[m - 1] == y);
            }
        }
        assert(a2.no_duplicates()) by {
            assert forall|i: int, j: int| 0 <= i < a2.len() && 0 <= j < a2.len() && i != j implies a2[i]
                != a2[j] by {
                assert(a2[i] == a[i]);
                assert(a2[j] == a[j]);
            }
        }
        lemma_subset_len(a2, b2);
    }
}


impl ContainerTree {
    /// A child of a node appears in the node's focus order.
    pub proof fn lemma_child_in_focus(&self, p: int, x: usize)
        requires
            self.wf(),
            0 <= p < self.len(),
            self.ch(p).contains(x),
        ensures
            self.fo(p).contains(x),
    {
        assert(self.node_wf(p));
        let ch = self.ch(p);
        let fo = self.fo(p);
        if !fo.contains(x) {
            let k = choose|k: int| 0 <= k < ch.len() && ch[k] == x;
            lemma_remove_no_dup(ch, k);
            assert forall|q: int| 0 <= q < fo.len() implies ch.remove(k).contains(#[trigger] fo[q]) by {
                assert(ch.contains(fo[q]));
            }
            lemma_subset_len(fo, ch.remove(k));
        }
    }
}

/// Copies `list` with the element at `i` replaced by all of `mid`.
pub fn splice_replace(list: &Vec<usize>, i: usize, mid: &Vec<usize>) -> (r: Vec<usize>)
    requires
        (i as int) < list@.len(),
    ensures
        r@ == list@.take(i as int) + mid@ + list@.skip(i + 1),
{
    let mut r: Vec<usize> = Vec::new();
    let mut k: usize = 0;
    while k < i
        invariant
            k <= i,
            (i as int) < list@.len(),
            r@ == list@.take(k as int),
        decreases i - k,
    {
        r.push(list[k]);
        proof {
            assert(list@.take(k + 1) =~= list@.take(k as int).push(list@[k as int]));
        }
        k = k + 1;
    }
    let mut k: usize = 0;
    while k < mid.len()
        invariant
            k <= mid@.len(),
            r@ == list@.take(i as int) + mid@.take(k as int),
        decreases mid@.len() - k,
    {
        r.push(mid[k]);
        proof {
            assert(mid@.take(k + 1) =~= mid@.take(k as int).push(mid@[k as int]));
            assert(r@ =~= list@.take(i as int) + mid@.take(k + 1));
        }
        k = k + 1;
    }
    proof {
        assert(mid@.take(mid@.len() as int) =~= mid@);
    }
    let n = list.len();
    let mut k: usize = i + 1;
    while k < n
        invariant
            i + 1 <= k <= list@.len(),
            n == list@.len(),
            r@ == list@.take(i as int) + mid@ + list@.subrange(i + 1, k as int),
        decreases list@.len() - k,
    {
        r.push(list[k]);
        proof {
            assert(list@.subrange(i + 1, k + 1) =~= list@.subrange(i + 1, k as int).push(list@[k as int]));
            assert(r@ =~= list@.take(i as int) + mid@ + list@.subrange(i + 1, k + 1));
        }
        k = k + 1;
    }
    proof {
        assert(list@.subrange(i + 1, list@.len() as int) =~= list@.skip(i + 1));
    }
    r
}
} // verus!
