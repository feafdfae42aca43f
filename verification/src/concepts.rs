//! Enumeration of all formal concepts of a context.
use vstd::prelude::*;
use bit_set::BitSet;
use crate::bitset::{members, below, bs_clone, bs_below, bs_eq, bs_intersect_with, pair_sets, set_list};
use crate::context::{ContextView, FormalContext, lemma_intent_closed, lemma_intent_union, lemma_row_is_intent};
use crate::concept::{sort_by_intent, sorted_by_intent};
use crate::lectic::{lectic_lt, law_lectic_irreflexive, law_lectic_transitive, law_lectic_total};

verus! {

/// `v` lists exactly the concepts of `c`, each once.
pub open spec fn lists_all_concepts(c: ContextView, v: Seq<(Set<usize>, Set<usize>)>) -> bool {
    &&& forall|i: int| 0 <= i < v.len() ==> c.is_concept(#[trigger] v[i].0, v[i].1)
    &&& forall|e: Set<usize>, b: Set<usize>| #[trigger] c.is_concept(e, b) ==> v.contains((e, b))
    &&& forall|i: int, j: int| 0 <= i < j < v.len() ==> #[trigger] v[i].1 != #[trigger] v[j].1
}

/// Whether `x` holds the same indices as one of the sets in `v`.
pub fn contains_set(v: &Vec<BitSet>, x: &BitSet) -> (r: bool)
    ensures
        r == set_list(v@).contains(members(*x)),
{
    let mut i: usize = 0;
    while i < v.len()
        invariant
            i <= v@.len(),
            forall|j: int| 0 <= j < i ==> members(#[trigger] v@[j]) != members(*x),
        decreases v@.len() - i,
    {
        if bs_eq(&v[i], x) {
            assert(set_list(v@)[i as int] == members(*x));
            return true;
        }
        i = i + 1;
    }
    proof {
        if set_list(v@).contains(members(*x)) {
            let k = choose|k: int| 0 <= k < set_list(v@).len() && set_list(v@)[k] == members(*x);
            assert(members(v@[k]) == members(*x));
        }
    }
    false
}

impl FormalContext {
    /// All intents of the context, each once: the intersections of every
    /// family of object rows (the empty family giving all attributes).
    pub fn index_intents(&self) -> (r: Vec<BitSet>)
        requires
            self.wf(),
        ensures
            forall|i: int| 0 <= i < r@.len() ==> self@.is_intent(#[trigger] set_list(r@)[i]),
            forall|b: Set<usize>| #[trigger] self@.is_intent(b) ==> set_list(r@).contains(b),
            forall|i: int, j: int| 0 <= i < j < r@.len() ==> set_list(r@)[i] != set_list(r@)[j],
    {
        let ghost c = self@;
        let n_attr = self.n_attributes();
        let n_obj = self.n_objects();
        let mut intents: Vec<BitSet> = Vec::new();
        intents.push(bs_below(n_attr));
        proof {
            assert(c.intent_of(Set::empty()) =~= below(n_attr as nat));
            lemma_intent_closed(c, Set::empty());
            assert forall|f: Set<usize>| f.subset_of(below(0)) implies #[trigger] set_list(intents@).contains(c.intent_of(f)) by {
                assert(f =~= Set::empty());
                assert(set_list(intents@)[0] == c.intent_of(f));
            }
        }
        let mut k: usize = 0;
        while k < n_obj
            invariant
                self.wf(),
                c == self@,
                n_attr == c.n_attr(),
                n_obj == c.n_obj(),
                k <= n_obj,
                forall|i: int| 0 <= i < intents@.len() ==> c.is_intent(#[trigger] set_list(intents@)[i]),
                forall|f: Set<usize>| f.subset_of(below(k as nat)) ==> #[trigger] set_list(intents@).contains(c.intent_of(f)),
                forall|i: int, j: int| 0 <= i < j < intents@.len() ==> set_list(intents@)[i] != set_list(intents@)[j],
            decreases n_obj - k,
        {
            let ghost old_sets = set_list(intents@);
            let row = self.row(k);
            proof { lemma_row_is_intent(c, k); }
            let len0 = intents.len();
            let mut j: usize = 0;
            while j < len0
                invariant
                    self.wf(),
                    c == self@,
                    k < n_obj == c.n_obj(),
                    members(*row) == c.rows[k as int],
                    members(*row) == c.intent_of(set![k]),
                    len0 == old_sets.len(),
                    j <= len0 <= intents@.len(),
                    forall|i: int| 0 <= i < len0 ==> #[trigger] set_list(intents@)[i] == old_sets[i],
                    forall|i: int| 0 <= i < intents@.len() ==> c.is_intent(#[trigger] set_list(intents@)[i]),
                    forall|i: int, jj: int| 0 <= i < jj < intents@.len() ==> set_list(intents@)[i] != set_list(intents@)[jj],
                    forall|i: int| 0 <= i < j ==> #[trigger] set_list(intents@).contains(old_sets[i].intersect(c.intent_of(set![k]))),
                decreases len0 - j,
            {
                let mut x = bs_clone(&intents[j]);
                bs_intersect_with(&mut x, row);
                let ghost xs = members(x);
                proof {
                    let b = old_sets[j as int];
                    assert(set_list(intents@)[j as int] == b);
                    assert(c.is_intent(b));
                    let e = c.extent_of(b);
                    assert(b == c.intent_of(e));
                    lemma_intent_union(c, e, set![k]);
                    assert(e.union(set![k]).subset_of(below(c.n_obj())));
                    lemma_intent_closed(c, e.union(set![k]));
                    assert(xs == c.intent_of(e.union(set![k])));
                }
                let present = contains_set(&intents, &x);
                if !present {
                    let ghost before = set_list(intents@);
                    intents.push(x);
                    proof {
                        assert(set_list(intents@) =~= before.push(xs));
                        assert forall|i: int| 0 <= i < j + 1 implies #[trigger] set_list(intents@).contains(old_sets[i].intersect(c.intent_of(set![k]))) by {
                            if i < j {
                                let y = old_sets[i].intersect(c.intent_of(set![k]));
                                assert(before.contains(y));
                                let w = choose|w: int| 0 <= w < before.len() && before[w] == y;
                                assert(set_list(intents@)[w] == y);
                            } else {
                                assert(set_list(intents@)[before.len() as int] == xs);
                            }
                        }
                    }
                }
                j = j + 1;
            }
            proof {
                let s = set_list(intents@);
                assert forall|f: Set<usize>| f.subset_of(below((k + 1) as nat)) implies #[trigger] s.contains(c.intent_of(f)) by {
                    if f.contains(k) {
                        let f0 = f.remove(k);
                        assert(f0.subset_of(below(k as nat)));
                        assert(old_sets.contains(c.intent_of(f0)));
                        let w = choose|w: int| 0 <= w < old_sets.len() && old_sets[w] == c.intent_of(f0);
                        assert(f0.union(set![k]) =~= f);
                        lemma_intent_union(c, f0, set![k]);
                        assert(s.contains(old_sets[w].intersect(c.intent_of(set![k]))));
                    } else {
                        assert(f.subset_of(below(k as nat)));
                        assert(old_sets.contains(c.intent_of(f)));
                        let w = choose|w: int| 0 <= w < old_sets.len() && old_sets[w] == c.intent_of(f);
                        assert(s[w] == c.intent_of(f));
                    }
                }
            }
            k = k + 1;
        }
        proof {
            let s = set_list(intents@);
            assert forall|b: Set<usize>| #[trigger] c.is_intent(b) implies s.contains(b) by {
                let e = c.extent_of(b);
                assert(e.subset_of(below(n_obj as nat)));
                assert(s.contains(c.intent_of(e)));
            }
        }
        intents
    }

    /// All formal concepts `(extent, intent)` of the context, each once, in
    /// lectic order of their intents.
    pub fn index_concepts(&self) -> (r: Vec<(BitSet, BitSet)>)
        requires
            self.wf(),
        ensures
            lists_all_concepts(self@, pair_sets(r@)),
            sorted_by_intent(pair_sets(r@)),
    {
        let found = self.concepts_in_any_order();
        let r = sort_by_intent(&found, self.n_attributes());
        proof {
            lemma_listing_reordered(self@, pair_sets(found@), pair_sets(r@));
        }
        r
    }

    /// All formal concepts of the context, each once, as the intents are found.
    fn concepts_in_any_order(&self) -> (r: Vec<(BitSet, BitSet)>)
        requires
            self.wf(),
        ensures
            lists_all_concepts(self@, pair_sets(r@)),
            forall|i: int| 0 <= i < r@.len() ==> (#[trigger] pair_sets(r@)[i]).1.subset_of(below(self@.n_attr())),
    {
        let ghost c = self@;
        let intents = self.index_intents();
        let mut r: Vec<(BitSet, BitSet)> = Vec::new();
        let mut i: usize = 0;
        while i < intents.len()
            invariant
                self.wf(),
                c == self@,
                i <= intents@.len(),
                r@.len() == i,
                forall|x: int| 0 <= x < intents@.len() ==> c.is_intent(#[trigger] set_list(intents@)[x]),
                forall|x: int, y: int| 0 <= x < y < intents@.len() ==> set_list(intents@)[x] != set_list(intents@)[y],
                forall|x: int| 0 <= x < i ==> #[trigger] pair_sets(r@)[x] == (c.extent_of(set_list(intents@)[x]), set_list(intents@)[x]),
            decreases intents@.len() - i,
        {
            let e = self.index_extent(&intents[i]);
            let b = bs_clone(&intents[i]);
            let ghost before = r@;
            r.push((e, b));
            proof {
                assert(set_list(intents@)[i as int] == members(intents@[i as int]));
                assert(r@ == before.push((e, b)));
                assert forall|x: int| 0 <= x < i + 1 implies #[trigger] pair_sets(r@)[x] == (c.extent_of(set_list(intents@)[x]), set_list(intents@)[x]) by {
                    if x < i {
                        assert(r@[x] == before[x]);
                        assert(pair_sets(r@)[x] == pair_sets(before)[x]);
                    } else {
                        assert(pair_sets(r@)[x] == (members(e), members(b)));
                    }
                }
            }
            i = i + 1;
        }
        proof {
            let p = pair_sets(r@);
            let s = set_list(intents@);
            assert forall|x: int| 0 <= x < p.len() implies c.is_concept(#[trigger] p[x].0, p[x].1) by {
                assert(c.is_intent(s[x]));
            }
            assert forall|e: Set<usize>, b: Set<usize>| #[trigger] c.is_concept(e, b) implies p.contains((e, b)) by {
                lemma_intent_closed(c, e);
                assert(c.is_intent(b));
                let w = choose|w: int| 0 <= w < s.len() && s[w] == b;
                assert(p[w] == (e, b));
            }
            assert forall|x: int, y: int| 0 <= x < y < p.len() implies #[trigger] p[x].1 != #[trigger] p[y].1 by {
                assert(p[x].1 == s[x]);
                assert(p[y].1 == s[y]);
            }
            assert forall|x: int| 0 <= x < p.len() implies (#[trigger] p[x]).1.subset_of(below(c.n_attr())) by {
                assert(c.is_intent(s[x]));
            }
        }
        r
    }
}

/// A listing of all concepts, reordered, still lists every concept once.
pub proof fn lemma_listing_reordered(c: ContextView, v: Seq<(Set<usize>, Set<usize>)>, r: Seq<(Set<usize>, Set<usize>)>)
    requires
        lists_all_concepts(c, v),
        r.to_multiset() == v.to_multiset(),
    ensures
        lists_all_concepts(c, r),
{
    v.to_multiset_ensures();
    r.to_multiset_ensures();
    assert forall|i: int| 0 <= i < r.len() implies c.is_concept(#[trigger] r[i].0, r[i].1) by {
        assert(r.contains(r[i]));
        assert(r.to_multiset().count(r[i]) > 0);
        assert(v.to_multiset().count(r[i]) > 0);
        assert(v.contains(r[i]));
    }
    assert forall|e: Set<usize>, b: Set<usize>| #[trigger] c.is_concept(e, b) implies r.contains((e, b)) by {
        assert(v.contains((e, b)));
        assert(v.to_multiset().count((e, b)) > 0);
        assert(r.to_multiset().count((e, b)) > 0);
    }
    assert(v.no_duplicates()) by {
        assert forall|i: int, j: int| 0 <= i < v.len() && 0 <= j < v.len() && i != j implies v[i] != v[j] by {
            if i < j {
                assert(v[i].1 != v[j].1);
            } else {
                assert(v[j].1 != v[i].1);
            }
        }
    }
    v.lemma_multiset_has_no_duplicates();
    r.lemma_multiset_has_no_duplicates_conv();
    assert forall|i: int, j: int| 0 <= i < j < r.len() implies #[trigger] r[i].1 != #[trigger] r[j].1 by {
        assert(c.is_concept(r[i].0, r[i].1));
        assert(c.is_concept(r[j].0, r[j].1));
        assert(r[i] != r[j]);
        if r[i].1 == r[j].1 {
            assert(r[i].0 == r[j].0);
            assert(r[i] == r[j]);
        }
    }
}

/// Two listings of the pairs `(extent, intent)` whose intents strictly
/// increase in the lectic order and which hold the same pairs are equal.
proof fn lemma_strictly_sorted_equal(v1: Seq<(Set<usize>, Set<usize>)>, v2: Seq<(Set<usize>, Set<usize>)>)
    requires
        forall|i: int, j: int| 0 <= i < j < v1.len() ==> lectic_lt((#[trigger] v1[i]).1, (#[trigger] v1[j]).1),
        forall|i: int, j: int| 0 <= i < j < v2.len() ==> lectic_lt((#[trigger] v2[i]).1, (#[trigger] v2[j]).1),
        forall|x: (Set<usize>, Set<usize>)| #![trigger v1.contains(x)] #![trigger v2.contains(x)] v1.contains(x) <==> v2.contains(x),
    ensures
        v1 == v2,
    decreases v1.len(),
{
    if v1.len() == 0 {
        if v2.len() > 0 {
            assert(v2.contains(v2[0]));
        }
        assert(v1 =~= v2);
    } else {
        assert(v1.contains(v1[0]));
        assert(v2.contains(v2[0]));
        let j = choose|j: int| 0 <= j < v2.len() && v2[j] == v1[0];
        let k = choose|k: int| 0 <= k < v1.len() && v1[k] == v2[0];
        if j > 0 && k > 0 {
            law_lectic_transitive(v1[0].1, v1[k].1, v1[0].1);
            law_lectic_irreflexive(v1[0].1);
        } else if j > 0 {
            law_lectic_irreflexive(v1[0].1);
        } else if k > 0 {
            law_lectic_irreflexive(v2[0].1);
        }
        let t1 = v1.drop_first();
        let t2 = v2.drop_first();
        assert forall|x: (Set<usize>, Set<usize>)| #![trigger t1.contains(x)] #![trigger t2.contains(x)] t1.contains(x) <==> t2.contains(x) by {
            if t1.contains(x) {
                let i = choose|i: int| 0 <= i < t1.len() && t1[i] == x;
                assert(v1[i + 1] == x);
                assert(v1.contains(x));
                let q = choose|q: int| 0 <= q < v2.len() && v2[q] == x;
                if q == 0 {
                    law_lectic_irreflexive(x.1);
                }
                assert(t2[q - 1] == x);
            }
            if t2.contains(x) {
                let i = choose|i: int| 0 <= i < t2.len() && t2[i] == x;
                assert(v2[i + 1] == x);
                assert(v2.contains(x));
                let q = choose|q: int| 0 <= q < v1.len() && v1[q] == x;
                if q == 0 {
                    law_lectic_irreflexive(x.1);
                }
                assert(t1[q - 1] == x);
            }
        }
        assert forall|i: int, j: int| 0 <= i < j < t1.len() implies lectic_lt((#[trigger] t1[i]).1, (#[trigger] t1[j]).1) by {
            assert(t1[i] == v1[i + 1] && t1[j] == v1[j + 1]);
        }
        assert forall|i: int, j: int| 0 <= i < j < t2.len() implies lectic_lt((#[trigger] t2[i]).1, (#[trigger] t2[j]).1) by {
            assert(t2[i] == v2[i + 1] && t2[j] == v2[j + 1]);
        }
        lemma_strictly_sorted_equal(t1, t2);
        assert(v1 =~= seq![v1[0]] + t1);
        assert(v2 =~= seq![v2[0]] + t2);
    }
}

/// Intents that never decrease and are pairwise different strictly increase.
proof fn lemma_sorted_distinct_strict(v: Seq<(Set<usize>, Set<usize>)>)
    requires
        sorted_by_intent(v),
        forall|i: int, j: int| 0 <= i < j < v.len() ==> #[trigger] v[i].1 != #[trigger] v[j].1,
    ensures
        forall|i: int, j: int| 0 <= i < j < v.len() ==> lectic_lt((#[trigger] v[i]).1, (#[trigger] v[j]).1),
{
    assert forall|i: int, j: int| 0 <= i < j < v.len() implies lectic_lt((#[trigger] v[i]).1, (#[trigger] v[j]).1) by {
        assert(v[i].1 != v[j].1);
        law_lectic_total(v[i].1, v[j].1);
    }
}

/// Any two listings of all concepts of a context in lectic order of their
/// intents are the same list: the concepts come in one order only, whether
/// listed at once, lazily or as the nodes of a diagram.
pub proof fn law_concept_listing_unique(c: ContextView, v1: Seq<(Set<usize>, Set<usize>)>, v2: Seq<(Set<usize>, Set<usize>)>)
    requires
        lists_all_concepts(c, v1),
        sorted_by_intent(v1),
        lists_all_concepts(c, v2),
        sorted_by_intent(v2),
    ensures
        v1 == v2,
{
    lemma_sorted_distinct_strict(v1);
    lemma_sorted_distinct_strict(v2);
    assert forall|x: (Set<usize>, Set<usize>)| #![trigger v1.contains(x)] #![trigger v2.contains(x)] v1.contains(x) <==> v2.contains(x) by {
        if v1.contains(x) {
            let i = choose|i: int| 0 <= i < v1.len() && v1[i] == x;
            assert(c.is_concept(v1[i].0, v1[i].1));
        }
        if v2.contains(x) {
            let i = choose|i: int| 0 <= i < v2.len() && v2[i] == x;
            assert(c.is_concept(v2[i].0, v2[i].1));
        }
    }
    lemma_strictly_sorted_equal(v1, v2);
}

/// Any two listings of the concepts of a context with at least `s` objects,
/// in lectic order of their intents, are the same list.
pub proof fn law_iceberg_listing_unique(c: ContextView, s: nat, v1: Seq<(Set<usize>, Set<usize>)>, v2: Seq<(Set<usize>, Set<usize>)>)
    requires
        c.lists_iceberg(v1, s),
        sorted_by_intent(v1),
        c.lists_iceberg(v2, s),
        sorted_by_intent(v2),
    ensures
        v1 == v2,
{
    lemma_sorted_distinct_strict(v1);
    lemma_sorted_distinct_strict(v2);
    assert forall|x: (Set<usize>, Set<usize>)| #![trigger v1.contains(x)] #![trigger v2.contains(x)] v1.contains(x) <==> v2.contains(x) by {
        if v1.contains(x) {
            let i = choose|i: int| 0 <= i < v1.len() && v1[i] == x;
            assert(c.is_concept(v1[i].0, v1[i].1));
        }
        if v2.contains(x) {
            let i = choose|i: int| 0 <= i < v2.len() && v2[i] == x;
            assert(c.is_concept(v2[i].0, v2[i].1));
        }
    }
    lemma_strictly_sorted_equal(v1, v2);
}

} // verus!
