//! Closure of attribute sets under a list of implications, and the step of
//! Ganter's NextClosure algorithm that finds the lectically next closed set.
use vstd::prelude::*;
use bit_set::BitSet;
use crate::bitset::{members, below, pair_sets, lemma_below_len, bs_clone, bs_contains, bs_insert, bs_is_subset, bs_union_with, bs_restrict};
use crate::lectic::{lectic_at, lectic_lt, lemma_min_exists, lemma_proper_subset_lectic};

verus! {

/// `x` respects every implication of `imps`: whenever it holds a premise it
/// holds the conclusion too.
pub open spec fn respects(x: Set<usize>, imps: Seq<(Set<usize>, Set<usize>)>) -> bool {
    forall|i: int| 0 <= i < imps.len() ==> (#[trigger] imps[i]).0.subset_of(x) ==> imps[i].1.subset_of(x)
}

/// Every premise and conclusion of `imps` lies within `0..n`.
pub open spec fn imps_within(imps: Seq<(Set<usize>, Set<usize>)>, n: nat) -> bool {
    forall|i: int| 0 <= i < imps.len() ==> (#[trigger] imps[i]).0.subset_of(below(n)) && imps[i].1.subset_of(below(n))
}

/// `c` is the closure of `x` under `imps`: the least superset of `x` that
/// respects every implication.
pub open spec fn is_imp_closure(c: Set<usize>, x: Set<usize>, imps: Seq<(Set<usize>, Set<usize>)>) -> bool {
    &&& x.subset_of(c)
    &&& respects(c, imps)
    &&& forall|z: Set<usize>| x.subset_of(z) && #[trigger] respects(z, imps) ==> c.subset_of(z)
}

/// The closure of `x` under the implications `imps` (all within `0..n`).
pub fn imp_closure(imps: &Vec<(BitSet, BitSet)>, x: &BitSet, n: usize) -> (r: BitSet)
    requires
        n < usize::MAX,
        members(*x).subset_of(below(n as nat)),
        imps_within(pair_sets(imps@), n as nat),
    ensures
        is_imp_closure(members(r), members(*x), pair_sets(imps@)),
        members(r).subset_of(below(n as nat)),
{
    let ghost l = pair_sets(imps@);
    let ghost x0 = members(*x);
    let mut r = bs_clone(x);
    proof { lemma_below_len(n); }
    loop
        invariant
            n < usize::MAX,
            l == pair_sets(imps@),
            imps_within(l, n as nat),
            below(n as nat).finite(),
            below(n as nat).len() == n,
            x0.subset_of(members(r)),
            members(r).subset_of(below(n as nat)),
            forall|z: Set<usize>| x0.subset_of(z) && #[trigger] respects(z, l) ==> members(r).subset_of(z),
        ensures
            respects(members(r), l),
        decreases n - members(r).len(),
    {
        let ghost start = members(r);
        proof { vstd::set_lib::lemma_len_subset(start, below(n as nat)); }
        let mut changed = false;
        let mut i: usize = 0;
        while i < imps.len()
            invariant
                n < usize::MAX,
                l == pair_sets(imps@),
                imps_within(l, n as nat),
                below(n as nat).finite(),
                i <= imps@.len(),
                x0.subset_of(members(r)),
                start.subset_of(members(r)),
                members(r).subset_of(below(n as nat)),
                forall|z: Set<usize>| x0.subset_of(z) && #[trigger] respects(z, l) ==> members(r).subset_of(z),
                changed ==> members(r).len() > start.len(),
                !changed ==> members(r) == start,
                !changed ==> forall|k: int| 0 <= k < i ==> (#[trigger] l[k]).0.subset_of(start) ==> l[k].1.subset_of(start),
            decreases imps@.len() - i,
        {
            if bs_is_subset(&imps[i].0, &r) && !bs_is_subset(&imps[i].1, &r) {
                let ghost before = members(r);
                proof {
                    assert(l[i as int] == (members(imps@[i as int].0), members(imps@[i as int].1)));
                }
                bs_union_with(&mut r, &imps[i].1);
                proof {
                    let c = members(imps@[i as int].1);
                    let w = choose|w: usize| c.contains(w) && !before.contains(w);
                    assert(before.subset_of(members(r)));
                    vstd::set_lib::lemma_len_subset(members(r), below(n as nat));
                    before.lemma_subset_not_in_lt(members(r), w);
                    vstd::set_lib::lemma_len_subset(start, before);
                    assert forall|z: Set<usize>| x0.subset_of(z) && #[trigger] respects(z, l) implies members(r).subset_of(z) by {
                        assert(before.subset_of(z));
                        assert(l[i as int].0.subset_of(z));
                    }
                }
                changed = true;
            } else {
                proof {
                    assert(l[i as int] == (members(imps@[i as int].0), members(imps@[i as int].1)));
                }
            }
            i = i + 1;
        }
        proof { vstd::set_lib::lemma_len_subset(members(r), below(n as nat)); }
        if !changed {
            break;
        }
    }
    r
}

/// `y` is the lectically smallest set within `0..n` that respects `imps` and
/// comes after `a`.
pub open spec fn is_next_closed(y: Set<usize>, a: Set<usize>, imps: Seq<(Set<usize>, Set<usize>)>, n: nat) -> bool {
    &&& y.subset_of(below(n))
    &&& respects(y, imps)
    &&& lectic_lt(a, y)
    &&& forall|z: Set<usize>| #![trigger respects(z, imps), lectic_lt(a, z)]
            z.subset_of(below(n)) && respects(z, imps) && lectic_lt(a, z) ==> z == y || lectic_lt(y, z)
}

/// Whether `b` holds no index below `i` that `a` lacks.
fn adds_nothing_below(b: &BitSet, a: &BitSet, i: usize) -> (r: bool)
    ensures
        r == forall|j: usize| j < i && #[trigger] members(*b).contains(j) ==> members(*a).contains(j),
{
    let mut j: usize = 0;
    while j < i
        invariant
            j <= i,
            forall|k: usize| k < j && #[trigger] members(*b).contains(k) ==> members(*a).contains(k),
        decreases i - j,
    {
        if bs_contains(b, j) && !bs_contains(a, j) {
            return false;
        }
        j = j + 1;
    }
    true
}

/// The lectically next set after `current` that respects the implications,
/// by Ganter's NextClosure step; `current` itself when it already holds all of
/// `0..n`.
pub fn next_closed(imps: &Vec<(BitSet, BitSet)>, current: &BitSet, n: usize) -> (r: BitSet)
    requires
        n < usize::MAX,
        members(*current).subset_of(below(n as nat)),
        imps_within(pair_sets(imps@), n as nat),
    ensures
        members(*current) == below(n as nat) ==> members(r) == below(n as nat),
        members(*current) != below(n as nat) ==> is_next_closed(members(r), members(*current), pair_sets(imps@), n as nat),
{
    let ghost l = pair_sets(imps@);
    let ghost a = members(*current);
    let mut i: usize = n;
    while i > 0
        invariant
            n < usize::MAX,
            i <= n,
            l == pair_sets(imps@),
            a == members(*current),
            a.subset_of(below(n as nat)),
            imps_within(l, n as nat),
            forall|j: usize, z: Set<usize>| i <= j < n && #[trigger] lectic_at(a, z, j) && z.subset_of(below(n as nat)) ==> !#[trigger] respects(z, l),
        decreases i,
    {
        i = i - 1;
        if !bs_contains(current, i) {
            let mut y = bs_restrict(current, i);
            bs_insert(&mut y, i);
            let ghost ys = members(y);
            let b = imp_closure(imps, &y, n);
            let ghost bs = members(b);
            if adds_nothing_below(&b, current, i) {
                proof {
                    assert(lectic_at(a, bs, i));
                    assert forall|z: Set<usize>| #![trigger respects(z, l), lectic_lt(a, z)]
                        z.subset_of(below(n as nat)) && respects(z, l) && lectic_lt(a, z) implies z == bs || lectic_lt(bs, z) by {
                        let j = choose|j: usize| lectic_at(a, z, j);
                        assert(z.contains(j));
                        if j < i {
                            assert forall|k: usize| k < j implies (#[trigger] bs.contains(k) <==> z.contains(k)) by {
                                assert(bs.contains(k) <==> a.contains(k));
                            }
                            assert(!bs.contains(j));
                            assert(lectic_at(bs, z, j));
                        } else if j == i {
                            assert(ys.subset_of(z));
                            assert(bs.subset_of(z));
                            if z != bs {
                                let d = z.difference(bs);
                                if !(exists|w: usize| z.contains(w) && !bs.contains(w)) {
                                    assert(z =~= bs);
                                }
                                let w = choose|w: usize| z.contains(w) && !bs.contains(w);
                                assert(d.contains(w));
                                let m = lemma_min_exists(d, w);
                                assert forall|k: usize| k < m implies (#[trigger] bs.contains(k) <==> z.contains(k)) by {
                                    assert(!d.contains(k));
                                }
                                assert(lectic_at(bs, z, m));
                            }
                        } else {
                            assert(i <= j < n);
                        }
                    }
                }
                return b;
            }
            proof {
                assert forall|z: Set<usize>| #[trigger] lectic_at(a, z, i) && z.subset_of(below(n as nat)) implies !#[trigger] respects(z, l) by {
                    if respects(z, l) {
                        assert(ys.subset_of(z));
                        assert(bs.subset_of(z));
                        let k = choose|k: usize| k < i && #[trigger] bs.contains(k) && !a.contains(k);
                        assert(z.contains(k));
                    }
                }
            }
        } else {
            proof {
                assert forall|z: Set<usize>| #[trigger] lectic_at(a, z, i) && z.subset_of(below(n as nat)) implies !#[trigger] respects(z, l) by {
                }
            }
        }
    }
    proof {
        let full = below(n as nat);
        if a != full {
            assert(a.subset_of(full));
            lemma_proper_subset_lectic(a, full);
            let j = choose|j: usize| lectic_at(a, full, j);
            assert(full.contains(j));
            assert(respects(full, l));
        }
    }
    bs_clone(current)
}

} // verus!
