//! The canonical (Duquenne–Guigues) implication basis of a context, computed
//! by enumerating the sets closed under the implications found so far in
//! lectic order.
use vstd::prelude::*;
use bit_set::BitSet;
use crate::bitset::{members, below, pair_sets, lemma_below_len, lemma_usize_set_finite, bs_new, bs_clone, bs_eq, bs_len};
use crate::closure::{respects, imps_within, is_next_closed, next_closed};
use crate::context::{ContextView, FormalContext, law_attribute_hull_is_closure};
use crate::lectic::{lectic_lt, lectic_rank, pow2, law_lectic_irreflexive, law_lectic_transitive, law_lectic_total, lemma_proper_subset_lectic, lemma_rank_bound, lemma_rank_lectic};

verus! {

/// `x` is a premise of one of the implications of `l`.
pub open spec fn is_premise(l: Seq<(Set<usize>, Set<usize>)>, x: Set<usize>) -> bool {
    exists|i: int| 0 <= i < l.len() && (#[trigger] l[i]).0 == x
}

/// `x` is not closed, yet contains the conclusion of every implication of `l`
/// whose premise is a proper subset of `x`: the defining property of a
/// pseudo-intent, relative to the implications `l`.
pub open spec fn pseudo_closed(c: ContextView, l: Seq<(Set<usize>, Set<usize>)>, x: Set<usize>) -> bool {
    &&& x != c.attribute_hull(x)
    &&& forall|i: int| 0 <= i < l.len() && (#[trigger] l[i]).0.subset_of(x) && l[i].0 != x ==> l[i].1.subset_of(x)
}

/// `l` is the canonical basis of `c`: its premises are exactly the
/// pseudo-intents, listed in lectic order, each implying its closure.
pub open spec fn is_canonical_basis(c: ContextView, l: Seq<(Set<usize>, Set<usize>)>) -> bool {
    &&& forall|i: int| 0 <= i < l.len() ==> {
        &&& (#[trigger] l[i]).0.subset_of(below(c.n_attr()))
        &&& l[i].1 == c.attribute_hull(l[i].0)
        &&& l[i].0 != l[i].1
    }
    &&& forall|i: int, j: int| 0 <= i < j < l.len() ==> lectic_lt((#[trigger] l[i]).0, (#[trigger] l[j]).0)
    &&& forall|x: Set<usize>| x.subset_of(below(c.n_attr())) ==> (#[trigger] is_premise(l, x) <==> pseudo_closed(c, l, x))
}

/// The implications of `l` whose premise is `x` or lectically before it are
/// those that characterise pseudo-intents up to `x`.
spec fn basis_upto(c: ContextView, l: Seq<(Set<usize>, Set<usize>)>, a: Set<usize>) -> bool {
    forall|x: Set<usize>| x.subset_of(below(c.n_attr())) && lectic_lt(x, a) ==> (#[trigger] is_premise(l, x) <==> pseudo_closed(c, l, x))
}

spec fn basis_entries_ok(c: ContextView, l: Seq<(Set<usize>, Set<usize>)>) -> bool {
    forall|i: int| 0 <= i < l.len() ==> {
        &&& (#[trigger] l[i]).0.subset_of(below(c.n_attr()))
        &&& l[i].1 == c.attribute_hull(l[i].0)
        &&& l[i].0 != l[i].1
    }
}

impl FormalContext {
    /// The canonical basis of the context's implications.
    pub fn index_canonical_basis(&self) -> (r: Vec<(BitSet, BitSet)>)
        requires
            self.wf(),
        ensures
            is_canonical_basis(self@, pair_sets(r@)),
    {
        let ghost c = self@;
        let n = self.n_attributes();
        let ghost full = below(n as nat);
        let mut basis: Vec<(BitSet, BitSet)> = Vec::new();
        let mut a = bs_new();
        proof {
            lemma_below_len(n);
            assert(basis_upto(c, pair_sets(basis@), members(a))) by {
                assert forall|x: Set<usize>| x.subset_of(full) && lectic_lt(x, members(a)) implies (#[trigger] is_premise(pair_sets(basis@), x) <==> pseudo_closed(c, pair_sets(basis@), x)) by {
                    let i = choose|i: usize| crate::lectic::lectic_at(x, members(a), i);
                    assert(members(a).contains(i));
                }
            }
        }
        loop
            invariant_except_break
                respects(members(a), pair_sets(basis@)),
                forall|i: int| 0 <= i < basis@.len() ==> lectic_lt((#[trigger] pair_sets(basis@)[i]).0, members(a)),
            invariant
                self.wf(),
                c == self@,
                n == c.n_attr(),
                full == below(n as nat),
                full.len() == n,
                members(a).subset_of(full),
                imps_within(pair_sets(basis@), n as nat),
                basis_entries_ok(c, pair_sets(basis@)),
                basis_upto(c, pair_sets(basis@), members(a)),
                forall|i: int, j: int| 0 <= i < j < basis@.len() ==> lectic_lt((#[trigger] pair_sets(basis@)[i]).0, (#[trigger] pair_sets(basis@)[j]).0),
            ensures
                is_canonical_basis(c, pair_sets(basis@)),
            decreases pow2(n as nat) - lectic_rank(members(a), n as nat),
        {
            let ghost l0 = pair_sets(basis@);
            let ghost am = members(a);
            let h = self.index_attribute_hull(&a);
            proof { law_attribute_hull_is_closure(c, am, am); }
            if !bs_eq(&a, &h) {
                let p = bs_clone(&a);
                basis.push((p, h));
                proof {
                    assert(pair_sets(basis@) =~= l0.push((am, c.attribute_hull(am))));
                }
            } else {
                proof {
                    assert(pair_sets(basis@) == l0);
                }
            }
            let ghost l1 = pair_sets(basis@);
            proof {
                // Every set up to and including `a` is now classified correctly.
                assert forall|x: Set<usize>| x.subset_of(full) && (lectic_lt(x, am) || x == am) implies (#[trigger] is_premise(l1, x) <==> pseudo_closed(c, l1, x)) by {
                    if x == am {
                        if am != c.attribute_hull(am) {
                            assert(l1[l1.len() - 1].0 == am);
                        } else {
                            if is_premise(l1, x) {
                                let i = choose|i: int| 0 <= i < l1.len() && (#[trigger] l1[i]).0 == x;
                                assert(l0[i].0 == x);
                                law_lectic_irreflexive(x);
                            }
                        }
                        assert forall|i: int| 0 <= i < l1.len() && (#[trigger] l1[i]).0.subset_of(x) && l1[i].0 != x implies l1[i].1.subset_of(x) by {
                            assert(l0[i] == l1[i]);
                        }
                        if is_premise(l1, x) && am != c.attribute_hull(am) {
                        }
                        if is_premise(l1, x) {
                            let i = choose|i: int| 0 <= i < l1.len() && (#[trigger] l1[i]).0 == x;
                            if i < l0.len() {
                                assert(l0[i].0 == x);
                                law_lectic_irreflexive(x);
                            }
                        }
                    } else {
                        // x comes before a: the new implication, if any, has premise a, which is
                        // neither x nor a proper subset of x.
                        assert(is_premise(l0, x) <==> pseudo_closed(c, l0, x));
                        if is_premise(l1, x) {
                            let i = choose|i: int| 0 <= i < l1.len() && (#[trigger] l1[i]).0 == x;
                            if i >= l0.len() {
                                law_lectic_irreflexive(x);
                            }
                            assert(l0[i].0 == x);
                        }
                        if is_premise(l0, x) {
                            let i = choose|i: int| 0 <= i < l0.len() && (#[trigger] l0[i]).0 == x;
                            assert(l1[i].0 == x);
                        }
                        assert forall|i: int| 0 <= i < l1.len() && (#[trigger] l1[i]).0.subset_of(x) && l1[i].0 != x implies (l1[i].1.subset_of(x) <==> (i < l0.len() ==> l0[i].1.subset_of(x))) by {
                            if i >= l0.len() {
                                lemma_proper_subset_lectic(am, x);
                                law_lectic_transitive(x, am, x);
                                law_lectic_irreflexive(x);
                            }
                        }
                        if pseudo_closed(c, l0, x) {
                            assert forall|i: int| 0 <= i < l1.len() && (#[trigger] l1[i]).0.subset_of(x) && l1[i].0 != x implies l1[i].1.subset_of(x) by {
                                if i < l0.len() {
                                    assert(l0[i] == l1[i]);
                                }
                            }
                        }
                        if pseudo_closed(c, l1, x) {
                            assert forall|i: int| 0 <= i < l0.len() && (#[trigger] l0[i]).0.subset_of(x) && l0[i].0 != x implies l0[i].1.subset_of(x) by {
                                assert(l0[i] == l1[i]);
                            }
                        }
                    }
                }
                assert forall|i: int| 0 <= i < l1.len() implies {
                    &&& (#[trigger] l1[i]).0.subset_of(below(c.n_attr()))
                    &&& l1[i].1 == c.attribute_hull(l1[i].0)
                    &&& l1[i].0 != l1[i].1
                } by {
                    if i < l0.len() {
                        assert(l0[i] == l1[i]);
                    }
                }
                assert forall|i: int| 0 <= i < l1.len() implies (#[trigger] l1[i]).0.subset_of(below(n as nat)) && l1[i].1.subset_of(below(n as nat)) by {
                    if i < l0.len() {
                        assert(l0[i] == l1[i]);
                    }
                }
                assert forall|i: int, j: int| 0 <= i < j < l1.len() implies lectic_lt((#[trigger] l1[i]).0, (#[trigger] l1[j]).0) by {
                    assert(l0[i] == l1[i]);
                    if j < l0.len() {
                        assert(l0[j] == l1[j]);
                    } else {
                        assert(lectic_lt(l0[i].0, am));
                    }
                }
                assert forall|i: int| 0 <= i < l1.len() implies (#[trigger] l1[i]).0 == am || lectic_lt(l1[i].0, am) by {
                    if i < l0.len() {
                        assert(l0[i] == l1[i]);
                        assert(lectic_lt(pair_sets(basis@)[i].0, am) || true);
                    }
                }
            }
            if bs_len(&a) == n {
                proof {
                    assert(am =~= full) by {
                        lemma_below_len(n);
                        if am != full {
                            if !(exists|w: usize| full.contains(w) && !am.contains(w)) {
                                assert(am =~= full);
                            }
                            am.lemma_subset_not_in_lt(full, choose|w: usize| full.contains(w) && !am.contains(w));
                        }
                    }
                    assert forall|x: Set<usize>| x.subset_of(below(c.n_attr())) implies (#[trigger] is_premise(l1, x) <==> pseudo_closed(c, l1, x)) by {
                        if x != am {
                            lemma_proper_subset_lectic(x, am);
                        }
                    }
                }
                break;
            }
            proof {
                if am == full {
                    vstd::set_lib::lemma_len_subset(am, full);
                }
                assert(am != full);
            }
            let next = next_closed(&basis, &a, n);
            proof {
                let y = members(next);
                assert(is_next_closed(y, am, l1, n as nat));
                assert forall|x: Set<usize>| x.subset_of(full) && lectic_lt(x, y) implies (#[trigger] is_premise(l1, x) <==> pseudo_closed(c, l1, x)) by {
                    if !(lectic_lt(x, am) || x == am) {
                        law_lectic_total(x, am);
                        assert(lectic_lt(am, x));
                        // x lies strictly between a and the next closed set, so it breaks some implication.
                        if respects(x, l1) {
                            assert(x == y || lectic_lt(y, x));
                            law_lectic_irreflexive(x);
                            if lectic_lt(y, x) {
                                law_lectic_transitive(x, y, x);
                            }
                        }
                        let i = choose|i: int| 0 <= i < l1.len() && (#[trigger] l1[i]).0.subset_of(x) && !l1[i].1.subset_of(x);
                        assert(l1[i].0 == am || lectic_lt(l1[i].0, am));
                        if l1[i].0 == x {
                            law_lectic_irreflexive(x);
                        }
                        if lectic_lt(l1[i].0, am) {
                            law_lectic_transitive(l1[i].0, am, x);
                            if l1[i].0 == x {
                                law_lectic_irreflexive(x);
                            }
                        }
                        assert(!pseudo_closed(c, l1, x));
                        if is_premise(l1, x) {
                            let k = choose|k: int| 0 <= k < l1.len() && (#[trigger] l1[k]).0 == x;
                            assert(l1[k].0 == am || lectic_lt(l1[k].0, am));
                            if lectic_lt(x, am) {
                                law_lectic_transitive(x, am, x);
                            }
                            law_lectic_irreflexive(x);
                        }
                    }
                }
                assert forall|i: int| 0 <= i < l1.len() implies lectic_lt((#[trigger] l1[i]).0, y) by {
                    if l1[i].0 != am {
                        law_lectic_transitive(l1[i].0, am, y);
                    }
                }
                lemma_rank_lectic(am, y, n);
                lemma_rank_bound(y, n as nat);
            }
            a = next;
        }
        basis
    }

    /// The canonical basis, by the same enumeration as
    /// [`FormalContext::index_canonical_basis`].
    pub fn index_canonical_basis_optimised(&self) -> (r: Vec<(BitSet, BitSet)>)
        requires
            self.wf(),
        ensures
            is_canonical_basis(self@, pair_sets(r@)),
    {
        self.index_canonical_basis()
    }

    /// The lectically next set of attributes after `current` that respects
    /// every implication of `imps`; `current` itself when it holds every attribute.
    pub fn index_next_preclosure(&self, imps: &Vec<(BitSet, BitSet)>, current: &BitSet) -> (r: BitSet)
        requires
            self.wf(),
            members(*current).subset_of(below(self@.n_attr())),
            imps_within(pair_sets(imps@), self@.n_attr()),
        ensures
            members(*current) == below(self@.n_attr()) ==> members(r) == members(*current),
            members(*current) != below(self@.n_attr()) ==> is_next_closed(members(r), members(*current), pair_sets(imps@), self@.n_attr()),
    {
        next_closed(imps, current, self.n_attributes())
    }
}


/// Every implication of the canonical basis holds in the context: the objects
/// having all attributes of a premise have all attributes of its conclusion.
pub proof fn law_basis_holds(c: ContextView, l: Seq<(Set<usize>, Set<usize>)>, i: int)
    requires
        is_canonical_basis(c, l),
        0 <= i < l.len(),
    ensures
        c.extent_of(l[i].0).subset_of(c.extent_of(l[i].1)),
{
    crate::context::lemma_extent_closed(c, l[i].0);
}

/// The sets of attributes that respect every implication of the canonical
/// basis are exactly the intents of the context: the basis is sound and
/// complete.
pub proof fn law_basis_closed_sets_are_intents(c: ContextView, l: Seq<(Set<usize>, Set<usize>)>, x: Set<usize>)
    requires
        is_canonical_basis(c, l),
        x.subset_of(below(c.n_attr())),
    ensures
        respects(x, l) <==> c.is_intent(x),
{
    law_attribute_hull_is_closure(c, x, x);
    if c.is_intent(x) {
        assert forall|i: int| 0 <= i < l.len() && (#[trigger] l[i]).0.subset_of(x) implies l[i].1.subset_of(x) by {
            law_attribute_hull_is_closure(c, l[i].0, x);
        }
    }
    if respects(x, l) && !c.is_intent(x) {
        assert(pseudo_closed(c, l, x));
        assert(is_premise(l, x));
        let i = choose|i: int| 0 <= i < l.len() && (#[trigger] l[i]).0 == x;
        assert(l[i].1 == c.attribute_hull(x));
        assert(c.attribute_hull(x).subset_of(x));
        assert(c.attribute_hull(x) =~= x);
    }
}


/// Two canonical bases of a context have the same premises: a set is
/// pseudo-closed relative to either exactly when it is relative to the other,
/// by induction on its size.
proof fn lemma_same_premises(c: ContextView, l1: Seq<(Set<usize>, Set<usize>)>, l2: Seq<(Set<usize>, Set<usize>)>, x: Set<usize>)
    requires
        is_canonical_basis(c, l1),
        is_canonical_basis(c, l2),
        x.subset_of(below(c.n_attr())),
    ensures
        is_premise(l1, x) <==> is_premise(l2, x),
    decreases x.len(),
{
    lemma_usize_set_finite(x);
    assert forall|j: int| 0 <= j < l2.len() && (#[trigger] l2[j]).0.subset_of(x) && l2[j].0 != x implies is_premise(l1, l2[j].0) && l2[j].1 == c.attribute_hull(l2[j].0) by {
        let p = l2[j].0;
        if !(exists|w: usize| x.contains(w) && !p.contains(w)) {
            assert(p =~= x);
        }
        let w = choose|w: usize| x.contains(w) && !p.contains(w);
        p.lemma_subset_not_in_lt(x, w);
        assert(is_premise(l2, p));
        lemma_same_premises(c, l1, l2, p);
    }
    assert forall|i: int| 0 <= i < l1.len() && (#[trigger] l1[i]).0.subset_of(x) && l1[i].0 != x implies is_premise(l2, l1[i].0) && l1[i].1 == c.attribute_hull(l1[i].0) by {
        let p = l1[i].0;
        if !(exists|w: usize| x.contains(w) && !p.contains(w)) {
            assert(p =~= x);
        }
        let w = choose|w: usize| x.contains(w) && !p.contains(w);
        p.lemma_subset_not_in_lt(x, w);
        assert(is_premise(l1, p));
        lemma_same_premises(c, l1, l2, p);
    }
    if pseudo_closed(c, l1, x) {
        assert forall|j: int| 0 <= j < l2.len() && (#[trigger] l2[j]).0.subset_of(x) && l2[j].0 != x implies l2[j].1.subset_of(x) by {
            let i = choose|i: int| 0 <= i < l1.len() && (#[trigger] l1[i]).0 == l2[j].0;
        }
    }
    if pseudo_closed(c, l2, x) {
        assert forall|i: int| 0 <= i < l1.len() && (#[trigger] l1[i]).0.subset_of(x) && l1[i].0 != x implies l1[i].1.subset_of(x) by {
            let j = choose|j: int| 0 <= j < l2.len() && (#[trigger] l2[j]).0 == l1[i].0;
        }
    }
}

/// Two lists of implications whose premises are strictly increasing in the
/// lectic order, whose conclusions are the closures of their premises and
/// which have the same premises are equal.
proof fn lemma_sorted_premises_equal(c: ContextView, l1: Seq<(Set<usize>, Set<usize>)>, l2: Seq<(Set<usize>, Set<usize>)>)
    requires
        forall|i: int, j: int| 0 <= i < j < l1.len() ==> lectic_lt((#[trigger] l1[i]).0, (#[trigger] l1[j]).0),
        forall|i: int, j: int| 0 <= i < j < l2.len() ==> lectic_lt((#[trigger] l2[i]).0, (#[trigger] l2[j]).0),
        forall|i: int| 0 <= i < l1.len() ==> (#[trigger] l1[i]).1 == c.attribute_hull(l1[i].0),
        forall|i: int| 0 <= i < l2.len() ==> (#[trigger] l2[i]).1 == c.attribute_hull(l2[i].0),
        forall|x: Set<usize>| #![trigger is_premise(l1, x)] #![trigger is_premise(l2, x)] is_premise(l1, x) <==> is_premise(l2, x),
    ensures
        l1 == l2,
    decreases l1.len(),
{
    if l1.len() == 0 {
        if l2.len() > 0 {
            assert(is_premise(l2, l2[0].0));
        }
        assert(l1 =~= l2);
    } else {
        assert(is_premise(l1, l1[0].0));
        assert(is_premise(l2, l1[0].0));
        let j = choose|j: int| 0 <= j < l2.len() && (#[trigger] l2[j]).0 == l1[0].0;
        assert(is_premise(l2, l2[0].0));
        assert(is_premise(l1, l2[0].0));
        let k = choose|k: int| 0 <= k < l1.len() && (#[trigger] l1[k]).0 == l2[0].0;
        if j > 0 && k > 0 {
            law_lectic_transitive(l1[0].0, l1[k].0, l1[0].0);
            law_lectic_irreflexive(l1[0].0);
        } else if j > 0 {
            law_lectic_irreflexive(l1[0].0);
        } else if k > 0 {
            law_lectic_irreflexive(l2[0].0);
        }
        assert(l1[0] == l2[0]);
        let t1 = l1.drop_first();
        let t2 = l2.drop_first();
        assert forall|x: Set<usize>| #![trigger is_premise(t1, x)] #![trigger is_premise(t2, x)] is_premise(t1, x) <==> is_premise(t2, x) by {
            if is_premise(t1, x) {
                let i = choose|i: int| 0 <= i < t1.len() && (#[trigger] t1[i]).0 == x;
                assert(l1[i + 1].0 == x);
                assert(is_premise(l1, x));
                let q = choose|q: int| 0 <= q < l2.len() && (#[trigger] l2[q]).0 == x;
                if q == 0 {
                    law_lectic_irreflexive(x);
                }
                assert(t2[q - 1].0 == x);
            }
            if is_premise(t2, x) {
                let i = choose|i: int| 0 <= i < t2.len() && (#[trigger] t2[i]).0 == x;
                assert(l2[i + 1].0 == x);
                assert(is_premise(l2, x));
                let q = choose|q: int| 0 <= q < l1.len() && (#[trigger] l1[q]).0 == x;
                if q == 0 {
                    law_lectic_irreflexive(x);
                }
                assert(t1[q - 1].0 == x);
            }
        }
        assert forall|i: int, j: int| 0 <= i < j < t1.len() implies lectic_lt((#[trigger] t1[i]).0, (#[trigger] t1[j]).0) by {
            assert(t1[i] == l1[i + 1] && t1[j] == l1[j + 1]);
        }
        assert forall|i: int, j: int| 0 <= i < j < t2.len() implies lectic_lt((#[trigger] t2[i]).0, (#[trigger] t2[j]).0) by {
            assert(t2[i] == l2[i + 1] && t2[j] == l2[j + 1]);
        }
        assert forall|i: int| 0 <= i < t1.len() implies (#[trigger] t1[i]).1 == c.attribute_hull(t1[i].0) by {
            assert(t1[i] == l1[i + 1]);
        }
        assert forall|i: int| 0 <= i < t2.len() implies (#[trigger] t2[i]).1 == c.attribute_hull(t2[i].0) by {
            assert(t2[i] == l2[i + 1]);
        }
        lemma_sorted_premises_equal(c, t1, t2);
        assert(l1 =~= seq![l1[0]] + t1);
        assert(l2 =~= seq![l2[0]] + t2);
    }
}

/// The canonical basis of a context is unique: any two lists that are both
/// its canonical basis are the same list.
pub proof fn law_canonical_basis_unique(c: ContextView, l1: Seq<(Set<usize>, Set<usize>)>, l2: Seq<(Set<usize>, Set<usize>)>)
    requires
        is_canonical_basis(c, l1),
        is_canonical_basis(c, l2),
    ensures
        l1 == l2,
{
    assert forall|x: Set<usize>| #![trigger is_premise(l1, x)] #![trigger is_premise(l2, x)] is_premise(l1, x) <==> is_premise(l2, x) by {
        if is_premise(l1, x) {
            let i = choose|i: int| 0 <= i < l1.len() && (#[trigger] l1[i]).0 == x;
            lemma_same_premises(c, l1, l2, x);
        }
        if is_premise(l2, x) {
            let i = choose|i: int| 0 <= i < l2.len() && (#[trigger] l2[i]).0 == x;
            lemma_same_premises(c, l1, l2, x);
        }
    }
    lemma_sorted_premises_equal(c, l1, l2);
}


/// Every implication of `l` lies within the attributes of `c` and holds in
/// it: its conclusion lies in the closure of its premise.
pub open spec fn valid_implications(c: ContextView, l: Seq<(Set<usize>, Set<usize>)>) -> bool {
    forall|i: int| 0 <= i < l.len() ==> {
        &&& (#[trigger] l[i]).0.subset_of(below(c.n_attr()))
        &&& l[i].1.subset_of(below(c.n_attr()))
        &&& l[i].1.subset_of(c.attribute_hull(l[i].0))
    }
}

/// Every implication valid in `c` follows from `l`: the sets of attributes
/// that respect `l` are closed.
pub open spec fn complete_for(c: ContextView, l: Seq<(Set<usize>, Set<usize>)>) -> bool {
    forall|x: Set<usize>| x.subset_of(below(c.n_attr())) && #[trigger] respects(x, l) ==> c.attribute_hull(x) == x
}

/// A pseudo-intent breaks some implication of a complete list.
proof fn lemma_premise_breaks(c: ContextView, b: Seq<(Set<usize>, Set<usize>)>, l: Seq<(Set<usize>, Set<usize>)>, i: int) -> (j: int)
    requires
        is_canonical_basis(c, b),
        complete_for(c, l),
        0 <= i < b.len(),
    ensures
        0 <= j < l.len(),
        l[j].0.subset_of(b[i].0),
        !l[j].1.subset_of(b[i].0),
{
    let p = b[i].0;
    assert(p != c.attribute_hull(p));
    if respects(p, l) {
        assert(c.attribute_hull(p) == p);
    }
    choose|j: int| 0 <= j < l.len() && (#[trigger] l[j]).0.subset_of(p) && !l[j].1.subset_of(p)
}

/// Two different pseudo-intents cannot break the same valid implication: if
/// one breaks it, the other holds its conclusion.
proof fn lemma_breaks_injective(c: ContextView, b: Seq<(Set<usize>, Set<usize>)>, l: Seq<(Set<usize>, Set<usize>)>, i: int, k: int, j: int)
    requires
        is_canonical_basis(c, b),
        valid_implications(c, l),
        0 <= i < b.len(),
        0 <= k < b.len(),
        i != k,
        0 <= j < l.len(),
        l[j].0.subset_of(b[i].0),
        !l[j].1.subset_of(b[i].0),
        l[j].0.subset_of(b[k].0),
    ensures
        l[j].1.subset_of(b[k].0),
{
    if !l[j].1.subset_of(b[k].0) {
        let p = b[i].0;
        let q = b[k].0;
        let a = l[j].0;
        assert(p != q) by {
            if i < k {
                assert(lectic_lt(b[i].0, b[k].0));
            } else {
                assert(lectic_lt(b[k].0, b[i].0));
            }
            law_lectic_irreflexive(p);
        }
        assert(is_premise(b, p));
        assert(is_premise(b, q));
        assert(pseudo_closed(c, b, p));
        assert(pseudo_closed(c, b, q));
        law_attribute_hull_is_closure(c, a, p);
        law_attribute_hull_is_closure(c, a, q);
        if p.subset_of(q) {
            // The closure of `p` lies within `q`, and so does the conclusion.
            law_attribute_hull_is_closure(c, a, p);
            assert(b[i].1.subset_of(q));
            assert(c.attribute_hull(p).subset_of(q));
            assert(l[j].1.subset_of(q));
        } else if q.subset_of(p) {
            assert(b[k].1.subset_of(p));
            assert(c.attribute_hull(q).subset_of(p));
            assert(l[j].1.subset_of(p));
        } else {
            // Two incomparable pseudo-intents meet in an intent.
            let d = p.intersect(q);
            assert forall|m: int| 0 <= m < b.len() && (#[trigger] b[m]).0.subset_of(d) implies b[m].1.subset_of(d) by {
                assert(b[m].0 != p);
                assert(b[m].0 != q);
            }
            assert(respects(d, b));
            law_basis_closed_sets_are_intents(c, b, d);
            law_attribute_hull_is_closure(c, a, d);
            assert(l[j].1.subset_of(d));
        }
    }
}

/// The canonical basis is a smallest complete list: every list of valid
/// implications from which all valid implications follow has at least as
/// many members.
pub proof fn law_canonical_basis_minimal(c: ContextView, b: Seq<(Set<usize>, Set<usize>)>, l: Seq<(Set<usize>, Set<usize>)>)
    requires
        is_canonical_basis(c, b),
        valid_implications(c, l),
        complete_for(c, l),
    ensures
        b.len() <= l.len(),
{
    let f = Seq::new(b.len(), |i: int| broken_implication(c, b, l, i));
    assert forall|i: int| 0 <= i < b.len() implies {
        &&& 0 <= #[trigger] f[i] < l.len()
        &&& l[f[i]].0.subset_of(b[i].0)
        &&& !l[f[i]].1.subset_of(b[i].0)
    } by {
        let j = lemma_premise_breaks(c, b, l, i);
    }
    assert(f.no_duplicates()) by {
        assert forall|i: int, k: int| 0 <= i < f.len() && 0 <= k < f.len() && i != k implies f[i] != f[k] by {
            if f[i] == f[k] {
                lemma_breaks_injective(c, b, l, i, k, f[i]);
            }
        }
    }
    f.unique_seq_to_set();
    vstd::set_lib::lemma_int_range(0, l.len() as int);
    assert(f.to_set().subset_of(vstd::set_lib::set_int_range(0, l.len() as int)));
    vstd::set_lib::lemma_len_subset(f.to_set(), vstd::set_lib::set_int_range(0, l.len() as int));
}

/// An implication of `l` that the premise of `b[i]` breaks, when there is one.
spec fn broken_implication(c: ContextView, b: Seq<(Set<usize>, Set<usize>)>, l: Seq<(Set<usize>, Set<usize>)>, i: int) -> int {
    choose|j: int| 0 <= j < l.len() && (#[trigger] l[j]).0.subset_of(b[i].0) && !l[j].1.subset_of(b[i].0)
}

} // verus!
