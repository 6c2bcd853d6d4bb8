//! Order-preserving selections from sequences of container ids.
use vstd::prelude::*;

use crate::links::lemma_subset_len;

verus! {

/// The elements of `s` that `m` holds, in the order of `s`.
pub open spec fn keep_in(s: Seq<usize>, m: Seq<usize>) -> Seq<usize>
    decreases s.len(),
{
    if s.len() == 0 {
        s
    } else {
        let r = keep_in(s.drop_last(), m);
        if m.contains(s.last()) {
            r.push(s.last())
        } else {
            r
        }
    }
}

/// The elements of `s` that `m` does not hold, in the order of `s`.
pub open spec fn drop_in(s: Seq<usize>, m: Seq<usize>) -> Seq<usize>
    decreases s.len(),
{
    if s.len() == 0 {
        s
    } else {
        let r = drop_in(s.drop_last(), m);
        if m.contains(s.last()) {
            r
        } else {
            r.push(s.last())
        }
    }
}

/// Membership, lengths and duplicates of the two selections.
pub proof fn lemma_select(s: Seq<usize>, m: Seq<usize>)
    ensures
        keep_in(s, m).len() + drop_in(s, m).len() == s.len(),
        forall|y: usize| #[trigger] keep_in(s, m).contains(y) <==> (s.contains(y) && m.contains(y)),
        forall|y: usize| #[trigger] drop_in(s, m).contains(y) <==> (s.contains(y) && !m.contains(y)),
        s.no_duplicates() ==> keep_in(s, m).no_duplicates() && drop_in(s, m).no_duplicates(),
    decreases s.len(),
{
    if s.len() > 0 {
        let d = s.drop_last();
        let x = s.last();
        lemma_select(d, m);
        assert forall|y: usize| s.contains(y) <==> (d.contains(y) || y == x) by {
            if s.contains(y) {
                let i = choose|i: int| 0 <= i < s.len() && s[i] == y;
                if i < s.len() - 1 {
                    assert(d[i] == y);
                }
            }
            if d.contains(y) {
                let i = choose|i: int| 0 <= i < d.len() && d[i] == y;
                assert(s[i] == y);
            }
            if y == x {
                assert(s[s.len() - 1] == y);
            }
        }
        if s.no_duplicates() {
            assert(d.no_duplicates()) by {
                assert forall|i: int, j: int| 0 <= i < d.len() && 0 <= j < d.len() && i != j implies d[i]
                    != d[j] by {
                    assert(d[i] == s[i]);
                    assert(d[j] == s[j]);
                }
            }
            assert(!d.contains(x)) by {
                if d.contains(x) {
                    let i = choose|i: int| 0 <= i < d.len() && d[i] == x;
                    assert(s[i] == s[s.len() - 1]);
                }
            }
            let k = keep_in(d, m);
            let r = drop_in(d, m);
            assert(keep_in(s, m).no_duplicates()) by {
                if m.contains(x) {
                    assert forall|i: int, j: int|
                        0 <= i < k.push(x).len() && 0 <= j < k.push(x).len() && i != j implies k.push(
                        x,
                    )[i] != k.push(x)[j] by {
                        if i == k.len() {
                            assert(k.contains(k.push(x)[j]));
                        } else if j == k.len() {
                            assert(k.contains(k.push(x)[i]));
                        }
                    }
                }
            }
            assert(drop_in(s, m).no_duplicates()) by {
                if !m.contains(x) {
                    assert forall|i: int, j: int|
                        0 <= i < r.push(x).len() && 0 <= j < r.push(x).len() && i != j implies r.push(
                        x,
                    )[i] != r.push(x)[j] by {
                        if i == r.len() {
                            assert(r.contains(r.push(x)[j]));
                        } else if j == r.len() {
                            assert(r.contains(r.push(x)[i]));
                        }
                    }
                }
            }
        }
        assert forall|y: usize| #[trigger] keep_in(s, m).contains(y) <==> (s.contains(y)
            && m.contains(y)) by {
            let k = keep_in(d, m);
            if m.contains(x) {
                assert(keep_in(s, m) == k.push(x));
                if k.push(x).contains(y) && y != x {
                    let i = choose|i: int| 0 <= i < k.push(x).len() && k.push(x)[i] == y;
                    assert(k[i] == y);
                }
                if k.contains(y) {
                    let i = choose|i: int| 0 <= i < k.len() && k[i] == y;
                    assert(k.push(x)[i] == y);
                }
                assert(k.push(x)[k.len() as int] == x);
            }
        }
        assert forall|y: usize| #[trigger] drop_in(s, m).contains(y) <==> (s.contains(y)
            && !m.contains(y)) by {
            let r = drop_in(d, m);
            if !m.contains(x) {
                assert(drop_in(s, m) == r.push(x));
                if r.push(x).contains(y) && y != x {
                    let i = choose|i: int| 0 <= i < r.push(x).len() && r.push(x)[i] == y;
                    assert(r[i] == y);
                }
                if r.contains(y) {
                    let i = choose|i: int| 0 <= i < r.len() && r[i] == y;
                    assert(r.push(x)[i] == y);
                }
                assert(r.push(x)[r.len() as int] == x);
            }
        }
    }
}

/// Keeping the elements of a list without duplicates that a sequence
/// without duplicates holds entirely keeps exactly as many as the list has.
pub proof fn lemma_keep_all(s: Seq<usize>, m: Seq<usize>)
    requires
        s.no_duplicates(),
        m.no_duplicates(),
        forall|i: int| 0 <= i < m.len() ==> s.contains(#[trigger] m[i]),
    ensures
        keep_in(s, m).len() == m.len(),
{
    lemma_select(s, m);
    let k = keep_in(s, m);
    assert forall|i: int| 0 <= i < k.len() implies m.contains(#[trigger] k[i]) by {
        assert(k.contains(k[i]));
    }
    lemma_subset_len(k, m);
    assert forall|i: int| 0 <= i < m.len() implies k.contains(#[trigger] m[i]) by {
        assert(m.contains(m[i]));
    }
    lemma_subset_len(m, k);
}

/// Selecting from a sequence extended by one element.
pub proof fn lemma_select_push(s: Seq<usize>, m: Seq<usize>, x: usize)
    ensures
        keep_in(s.push(x), m) == if m.contains(x) {
            keep_in(s, m).push(x)
        } else {
            keep_in(s, m)
        },
        drop_in(s.push(x), m) == if m.contains(x) {
            drop_in(s, m)
        } else {
            drop_in(s, m).push(x)
        },
{
    assert(s.push(x).drop_last() =~= s);
    assert(s.push(x).last() == x);
}

/// Selecting from a concatenation selects from each part.
pub proof fn lemma_select_concat(a: Seq<usize>, b: Seq<usize>, m: Seq<usize>)
    ensures
        keep_in(a + b, m) == keep_in(a, m) + keep_in(b, m),
        drop_in(a + b, m) == drop_in(a, m) + drop_in(b, m),
    decreases b.len(),
{
    if b.len() == 0 {
        assert(a + b =~= a);
        assert(keep_in(a, m) + keep_in(b, m) =~= keep_in(a, m));
        assert(drop_in(a, m) + drop_in(b, m) =~= drop_in(a, m));
    } else {
        let d = b.drop_last();
        let x = b.last();
        lemma_select_concat(a, d, m);
        assert(a + b =~= (a + d).push(x));
        assert(b =~= d.push(x));
        lemma_select_push(a + d, m, x);
        lemma_select_push(d, m, x);
        if m.contains(x) {
            assert(keep_in(a, m) + keep_in(d, m).push(x) =~= (keep_in(a, m) + keep_in(d, m)).push(x));
        } else {
            assert(drop_in(a, m) + drop_in(d, m).push(x) =~= (drop_in(a, m) + drop_in(d, m)).push(x));
        }
    }
}

/// A sequence none of whose elements `m` holds keeps nothing and drops
/// nothing; one all of whose elements `m` holds keeps everything.
pub proof fn lemma_select_uniform(s: Seq<usize>, m: Seq<usize>)
    ensures
        (forall|i: int| 0 <= i < s.len() ==> !m.contains(#[trigger] s[i])) ==> keep_in(s, m).len() == 0
            && drop_in(s, m) == s,
        (forall|i: int| 0 <= i < s.len() ==> m.contains(#[trigger] s[i])) ==> keep_in(s, m) == s
            && drop_in(s, m).len() == 0,
    decreases s.len(),
{
    if s.len() > 0 {
        let d = s.drop_last();
        lemma_select_uniform(d, m);
        assert(s =~= d.push(s.last()));
        lemma_select_push(d, m, s.last());
        assert(forall|i: int| 0 <= i < d.len() ==> d[i] == s[i]);
        assert(s[s.len() - 1] == s.last());
    }
}

} // verus!
