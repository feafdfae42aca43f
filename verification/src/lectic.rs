//! The lectic order on sets of indices: `x` comes before `y` when the smallest
//! index on which they differ belongs to `y`.
use vstd::prelude::*;
use crate::bitset::below;

verus! {

/// `i` is the smallest index on which `x` and `y` differ, and `y` holds it.
pub open spec fn lectic_at(x: Set<usize>, y: Set<usize>, i: usize) -> bool {
    &&& y.contains(i)
    &&& !x.contains(i)
    &&& forall|j: usize| j < i ==> (#[trigger] x.contains(j) <==> y.contains(j))
}

/// `x` comes strictly before `y` in the lectic order.
pub open spec fn lectic_lt(x: Set<usize>, y: Set<usize>) -> bool {
    exists|i: usize| #[trigger] lectic_at(x, y, i)
}

/// The lectic order is irreflexive.
pub proof fn law_lectic_irreflexive(x: Set<usize>)
    ensures
        !lectic_lt(x, x),
{
}

/// The lectic order is transitive.
pub proof fn law_lectic_transitive(x: Set<usize>, y: Set<usize>, z: Set<usize>)
    requires
        lectic_lt(x, y),
        lectic_lt(y, z),
    ensures
        lectic_lt(x, z),
{
    let i = choose|i: usize| lectic_at(x, y, i);
    let j = choose|j: usize| lectic_at(y, z, j);
    if i < j {
        assert(lectic_at(x, z, i));
    } else if j < i {
        assert(lectic_at(x, z, j));
    } else {
        assert(false);
    }
}

/// A nonempty set of indices has a smallest member.
pub proof fn lemma_min_exists(s: Set<usize>, a: usize) -> (m: usize)
    requires
        s.contains(a),
    ensures
        s.contains(m),
        m <= a,
        forall|j: usize| j < m ==> !#[trigger] s.contains(j),
    decreases a,
{
    if exists|b: usize| b < a && #[trigger] s.contains(b) {
        let b = choose|b: usize| b < a && #[trigger] s.contains(b);
        lemma_min_exists(s, b)
    } else {
        a
    }
}

/// The lectic order is total: of two different sets, one comes first.
pub proof fn law_lectic_total(x: Set<usize>, y: Set<usize>)
    requires
        x != y,
    ensures
        lectic_lt(x, y) || lectic_lt(y, x),
{
    let d = x.difference(y).union(y.difference(x));
    if !(exists|a: usize| d.contains(a)) {
        assert forall|a: usize| x.contains(a) <==> y.contains(a) by {
            assert(!d.contains(a));
        }
        assert(x =~= y);
    }
    let a = choose|a: usize| d.contains(a);
    let m = lemma_min_exists(d, a);
    assert forall|j: usize| j < m implies (#[trigger] x.contains(j) <==> y.contains(j)) by {
        assert(!d.contains(j));
    }
    if y.contains(m) {
        assert(lectic_at(x, y, m));
    } else {
        assert(lectic_at(y, x, m));
    }
}

/// A proper subset comes lectically before its superset.
pub proof fn lemma_proper_subset_lectic(x: Set<usize>, y: Set<usize>)
    requires
        x.subset_of(y),
        x != y,
    ensures
        lectic_lt(x, y),
{
    let d = y.difference(x);
    if !(exists|a: usize| d.contains(a)) {
        assert forall|a: usize| x.contains(a) <==> y.contains(a) by {
            assert(!d.contains(a));
        }
        assert(x =~= y);
    }
    let a = choose|a: usize| d.contains(a);
    let m = lemma_min_exists(d, a);
    assert forall|j: usize| j < m implies (#[trigger] x.contains(j) <==> y.contains(j)) by {
        assert(!d.contains(j));
    }
    assert(lectic_at(x, y, m));
}

pub open spec fn pow2(k: nat) -> nat
    decreases k,
{
    if k == 0 {
        1
    } else {
        2 * pow2((k - 1) as nat)
    }
}

/// The number whose binary digits, most significant first, tell which of
/// `0..k` belong to `x`.
pub open spec fn lectic_rank(x: Set<usize>, k: nat) -> nat
    decreases k,
{
    if k == 0 {
        0
    } else {
        2 * lectic_rank(x, (k - 1) as nat) + if x.contains((k - 1) as usize) { 1nat } else { 0nat }
    }
}

pub proof fn lemma_rank_bound(x: Set<usize>, k: nat)
    ensures
        lectic_rank(x, k) < pow2(k),
    decreases k,
{
    if k > 0 {
        lemma_rank_bound(x, (k - 1) as nat);
    }
}

proof fn lemma_rank_step(x: Set<usize>, y: Set<usize>, i: usize, k: nat)
    requires
        lectic_at(x, y, i),
        k <= usize::MAX,
    ensures
        k <= i ==> lectic_rank(x, k) == lectic_rank(y, k),
        k > i ==> lectic_rank(x, k) < lectic_rank(y, k),
    decreases k,
{
    if k > 0 {
        lemma_rank_step(x, y, i, (k - 1) as nat);
        let j = (k - 1) as usize;
        if j < i {
            assert(x.contains(j) <==> y.contains(j));
        }
    }
}

/// Sets within `0..n` that come lectically later have a larger rank.
pub proof fn lemma_rank_lectic(x: Set<usize>, y: Set<usize>, n: usize)
    requires
        lectic_lt(x, y),
        y.subset_of(below(n as nat)),
    ensures
        lectic_rank(x, n as nat) < lectic_rank(y, n as nat),
{
    let i = choose|i: usize| lectic_at(x, y, i);
    assert(y.contains(i));
    lemma_rank_step(x, y, i, n as nat);
}

/// A chain of sets within `0..n` that climbs strictly in the lectic order
/// has at most `2^n` members: a walk that steps to the lectically next set
/// reaches the end after at most that many steps.
pub proof fn law_lectic_chain_bounded(n: usize, s: Seq<Set<usize>>)
    requires
        forall|i: int| 0 <= i < s.len() ==> (#[trigger] s[i]).subset_of(below(n as nat)),
        forall|i: int| 0 <= i < s.len() - 1 ==> lectic_lt(#[trigger] s[i], s[i + 1]),
    ensures
        s.len() <= pow2(n as nat),
{
    if s.len() > 0 {
        assert forall|i: int| 0 <= i < s.len() implies i <= lectic_rank(#[trigger] s[i], n as nat) by {
            lemma_rank_climbs(n, s, i);
        }
        let last = s.len() - 1;
        assert(last <= lectic_rank(s[last], n as nat));
        lemma_rank_bound(s[last], n as nat);
    }
}

proof fn lemma_rank_climbs(n: usize, s: Seq<Set<usize>>, i: int)
    requires
        0 <= i < s.len(),
        forall|k: int| 0 <= k < s.len() ==> (#[trigger] s[k]).subset_of(below(n as nat)),
        forall|k: int| 0 <= k < s.len() - 1 ==> lectic_lt(#[trigger] s[k], s[k + 1]),
    ensures
        i <= lectic_rank(s[i], n as nat),
    decreases i,
{
    if i > 0 {
        lemma_rank_climbs(n, s, i - 1);
        assert(lectic_lt(s[i - 1], s[i - 1 + 1]));
        lemma_rank_lectic(s[i - 1], s[i], n);
    }
}

} // verus!
