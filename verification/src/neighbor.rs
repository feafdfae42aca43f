//! Upper neighbours in the concept lattice and iceberg concepts.
use vstd::prelude::*;
use bit_set::BitSet;
use crate::bitset::{members, below, pair_sets, bs_clone, bs_contains, bs_insert, bs_eq, bs_is_subset, bs_len};
use crate::concepts::lists_all_concepts;
use crate::concept::sorted_by_intent;
use crate::context::{ContextView, FormalContext, law_object_hull_is_closure};

verus! {

impl ContextView {
    /// A set of objects that is its own closure.
    pub open spec fn is_extent(self, objs: Set<usize>) -> bool {
        objs.subset_of(below(self.n_obj())) && self.object_hull(objs) == objs
    }

    /// `x` is an extent directly above the extent `a`: strictly larger, with
    /// no extent strictly between them.
    pub open spec fn is_upper_cover(self, a: Set<usize>, x: Set<usize>) -> bool {
        &&& self.is_extent(x)
        &&& a.subset_of(x)
        &&& a != x
        &&& forall|y: Set<usize>| #[trigger] self.is_extent(y) && a.subset_of(y) && a != y && y.subset_of(x) ==> y == x
    }

    /// The extent generated by adding object `g` to `a`.
    pub open spec fn step_up(self, a: Set<usize>, g: usize) -> Set<usize> {
        self.object_hull(a.insert(g))
    }

    /// `x` lists exactly the concepts whose extent has at least `min_support`
    /// objects, each once.
    pub open spec fn lists_iceberg(self, v: Seq<(Set<usize>, Set<usize>)>, min_support: nat) -> bool {
        &&& forall|i: int| 0 <= i < v.len() ==> self.is_concept(#[trigger] v[i].0, v[i].1) && v[i].0.len() >= min_support
        &&& forall|e: Set<usize>, b: Set<usize>| #[trigger] self.is_concept(e, b) && e.len() >= min_support ==> v.contains((e, b))
        &&& forall|i: int, j: int| 0 <= i < j < v.len() ==> #[trigger] v[i].1 != #[trigger] v[j].1
    }
}

/// Some object outside the extent `a` generates an upper cover of `a`, as
/// long as `g` is outside `a`.
proof fn lemma_cover_exists(c: ContextView, a: Set<usize>, g: usize) -> (h: usize)
    requires
        c.is_extent(a),
        g < c.n_obj(),
        !a.contains(g),
    ensures
        h < c.n_obj(),
        !a.contains(h),
        c.is_upper_cover(a, c.step_up(a, h)),
    decreases c.step_up(a, g).len(),
{
    let eg = c.step_up(a, g);
    law_object_hull_is_closure(c, a.insert(g), a.insert(g));
    crate::bitset::lemma_usize_set_finite(eg);
    if c.is_upper_cover(a, eg) {
        g
    } else {
        let y = choose|y: Set<usize>| #[trigger] c.is_extent(y) && a.subset_of(y) && a != y && y.subset_of(eg) && y != eg;
        let h = choose|h: usize| y.contains(h) && !a.contains(h);
        assert(!(a =~= y));
        law_object_hull_is_closure(c, a.insert(h), y);
        let eh = c.step_up(a, h);
        assert(eh.subset_of(y));
        let w = choose|w: usize| eg.contains(w) && !y.contains(w);
        if !(exists|w: usize| eg.contains(w) && !y.contains(w)) {
            assert(y =~= eg);
        }
        crate::bitset::lemma_usize_set_finite(y);
        y.lemma_subset_not_in_lt(eg, w);
        vstd::set_lib::lemma_len_subset(eh, y);
        lemma_cover_exists(c, a, h)
    }
}

/// For an extent `a`, a set `c.step_up(a, g)` is an upper cover exactly when
/// no other generated extent lies strictly inside it.
proof fn lemma_cover_by_candidates(c: ContextView, a: Set<usize>, g: usize)
    requires
        c.is_extent(a),
        g < c.n_obj(),
        !a.contains(g),
    ensures
        c.is_upper_cover(a, c.step_up(a, g)) <==> forall|h: usize| h < c.n_obj() && !a.contains(h) ==> !(#[trigger] c.step_up(a, h).subset_of(c.step_up(a, g)) && c.step_up(a, h) != c.step_up(a, g)),
{
    let eg = c.step_up(a, g);
    law_object_hull_is_closure(c, a.insert(g), a.insert(g));
    assert(a.insert(g).subset_of(eg));
    if !(a =~= eg) {
    }
    assert(eg.contains(g));
    if c.is_upper_cover(a, eg) {
        assert forall|h: usize| h < c.n_obj() && !a.contains(h) implies !(#[trigger] c.step_up(a, h).subset_of(eg) && c.step_up(a, h) != eg) by {
            let eh = c.step_up(a, h);
            law_object_hull_is_closure(c, a.insert(h), a.insert(h));
            assert(eh.contains(h));
            if eh.subset_of(eg) {
                assert(c.is_extent(eh));
                assert(a.subset_of(eh));
                assert(a != eh);
            }
        }
    } else {
        if forall|h: usize| h < c.n_obj() && !a.contains(h) ==> !(#[trigger] c.step_up(a, h).subset_of(eg) && c.step_up(a, h) != eg) {
            let y = choose|y: Set<usize>| #[trigger] c.is_extent(y) && a.subset_of(y) && a != y && y.subset_of(eg) && y != eg;
            if !(exists|h: usize| y.contains(h) && !a.contains(h)) {
                assert(a =~= y);
            }
            let h = choose|h: usize| y.contains(h) && !a.contains(h);
            law_object_hull_is_closure(c, a.insert(h), y);
            let eh = c.step_up(a, h);
            assert(eh.subset_of(y));
            assert(eh.subset_of(eg));
            assert(eh == eg);
            assert(y =~= eg);
        }
    }
}

impl FormalContext {
    /// The extent of an upper neighbour of the concept generated by `objs`:
    /// with `a` the closure of `objs`, the closure of `a` plus the first object
    /// outside `a` that yields an extent directly above `a`.  When `a` holds
    /// every object there is no neighbour above, and `a` itself is returned.
    pub fn index_upper_neighbor(&self, objs: &BitSet) -> (r: BitSet)
        requires
            self.wf(),
        ensures
            ({
                let a = self@.object_hull(members(*objs));
                &&& a == below(self@.n_obj()) ==> members(r) == a
                &&& a != below(self@.n_obj()) ==> exists|g: usize| {
                    &&& g < self@.n_obj()
                    &&& !a.contains(g)
                    &&& members(r) == self@.step_up(a, g)
                    &&& self@.is_upper_cover(a, members(r))
                    &&& forall|h: usize| h < g && !a.contains(h) ==> !self@.is_upper_cover(a, #[trigger] self@.step_up(a, h))
                }
            }),
    {
        let ghost c = self@;
        let n = self.n_objects();
        let a = self.index_object_hull(objs);
        let ghost am = members(a);
        proof {
            let o = members(*objs);
            assert(c.object_hull(o).subset_of(below(n as nat)));
            assert(c.intent_of(o).subset_of(below(c.n_attr())));
            crate::context::lemma_extent_closed(c, c.intent_of(o));
            assert(c.is_extent(am));
        }
        if bs_len(&a) == n {
            proof {
                crate::bitset::lemma_below_len(n);
                if am != below(n as nat) {
                    if !(exists|w: usize| below(n as nat).contains(w) && !am.contains(w)) {
                        assert(am =~= below(n as nat));
                    }
                    let w = choose|w: usize| below(n as nat).contains(w) && !am.contains(w);
                    am.lemma_subset_not_in_lt(below(n as nat), w);
                }
            }
            return a;
        }
        proof {
            crate::bitset::lemma_below_len(n);
            if am == below(n as nat) {
                assert(members(a).len() == n);
            }
        }
        // The extents generated by each object outside `a` (the others get `a` itself).
        let mut gen: Vec<BitSet> = Vec::new();
        let mut g: usize = 0;
        while g < n
            invariant
                self.wf(),
                c == self@,
                n == c.n_obj(),
                am == members(a),
                c.is_extent(am),
                g <= n,
                gen@.len() == g,
                forall|h: int| 0 <= h < g ==> !am.contains(h as usize) ==> members(#[trigger] gen@[h]) == c.step_up(am, h as usize),
            decreases n - g,
        {
            let mut x = bs_clone(&a);
            if !bs_contains(&a, g) {
                bs_insert(&mut x, g);
                let e = self.index_object_hull(&x);
                gen.push(e);
            } else {
                gen.push(x);
            }
            g = g + 1;
        }
        let mut g: usize = 0;
        while g < n
            invariant
                self.wf(),
                c == self@,
                n == c.n_obj(),
                am == members(a),
                c.is_extent(am),
                am != below(n as nat),
                am == c.object_hull(members(*objs)),
                g <= n,
                gen@.len() == n,
                forall|h: int| 0 <= h < n ==> !am.contains(h as usize) ==> members(#[trigger] gen@[h]) == c.step_up(am, h as usize),
                forall|h: usize| h < g && !am.contains(h) ==> !c.is_upper_cover(am, #[trigger] c.step_up(am, h)),
            decreases n - g,
        {
            if !bs_contains(&a, g) {
                // Is some generated extent strictly inside the one `g` generates?
                let mut covered = true;
                let mut h: usize = 0;
                while h < n
                    invariant
                        self.wf(),
                        c == self@,
                        n == c.n_obj(),
                        am == members(a),
                        g < n,
                        !am.contains(g),
                        h <= n,
                        gen@.len() == n,
                        forall|k: int| 0 <= k < n ==> !am.contains(k as usize) ==> members(#[trigger] gen@[k]) == c.step_up(am, k as usize),
                        covered == forall|k: usize| k < h && !am.contains(k) ==> !(#[trigger] c.step_up(am, k).subset_of(c.step_up(am, g)) && c.step_up(am, k) != c.step_up(am, g)),
                    decreases n - h,
                {
                    if !bs_contains(&a, h) {
                        proof {
                            assert(members(gen@[h as int]) == c.step_up(am, h));
                            assert(members(gen@[g as int]) == c.step_up(am, g));
                        }
                        if bs_is_subset(&gen[h], &gen[g]) && !bs_eq(&gen[h], &gen[g]) {
                            covered = false;
                        }
                    }
                    h = h + 1;
                }
                proof {
                    lemma_cover_by_candidates(c, am, g);
                }
                if covered {
                    let r = bs_clone(&gen[g]);
                    proof {
                        assert(members(gen@[g as int]) == c.step_up(am, g));
                        assert(c.is_upper_cover(am, members(r)));
                        assert({
                            &&& g < c.n_obj()
                            &&& !am.contains(g)
                            &&& members(r) == c.step_up(am, g)
                            &&& c.is_upper_cover(am, members(r))
                            &&& forall|h: usize| h < g && !am.contains(h) ==> !c.is_upper_cover(am, #[trigger] c.step_up(am, h))
                        });
                        assert(am == self@.object_hull(members(*objs)));
                        assert(exists|g2: usize| {
                            &&& g2 < self@.n_obj()
                            &&& !am.contains(g2)
                            &&& members(r) == self@.step_up(am, g2)
                            &&& self@.is_upper_cover(am, members(r))
                            &&& forall|h: usize| h < g2 && !am.contains(h) ==> !self@.is_upper_cover(am, #[trigger] self@.step_up(am, h))
                        });
                    }
                    return r;
                }
            }
            g = g + 1;
        }
        proof {
            let w = choose|w: usize| below(n as nat).contains(w) && !am.contains(w);
            if !(exists|w: usize| below(n as nat).contains(w) && !am.contains(w)) {
                assert(am =~= below(n as nat));
            }
            let h = lemma_cover_exists(c, am, w);
            assert(!c.is_upper_cover(am, c.step_up(am, h)));
        }
        a
    }

    /// The concepts whose extent holds at least `min_support` objects, each once.
    pub fn index_iceberg_concepts(&self, min_support: u32) -> (r: Vec<(BitSet, BitSet)>)
        requires
            self.wf(),
        ensures
            self@.lists_iceberg(pair_sets(r@), min_support as nat),
            sorted_by_intent(pair_sets(r@)),
    {
        let ghost c = self@;
        let all = self.index_concepts();
        let ghost p = pair_sets(all@);
        let mut r: Vec<(BitSet, BitSet)> = Vec::new();
        let ghost mut taken: Seq<int> = Seq::empty();
        let mut i: usize = 0;
        while i < all.len()
            invariant
                self.wf(),
                c == self@,
                p == pair_sets(all@),
                lists_all_concepts(c, p),
                sorted_by_intent(p),
                i <= all@.len(),
                r@.len() == taken.len(),
                forall|k: int| 0 <= k < taken.len() ==> 0 <= #[trigger] taken[k] < i && pair_sets(r@)[k] == p[taken[k]],
                forall|k: int, l: int| 0 <= k < l < taken.len() ==> #[trigger] taken[k] < #[trigger] taken[l],
                forall|k: int| 0 <= k < r@.len() ==> (#[trigger] pair_sets(r@)[k]).0.len() >= min_support,
                forall|j: int| 0 <= j < i && p[j].0.len() >= min_support ==> #[trigger] pair_sets(r@).contains(p[j]),
            decreases all@.len() - i,
        {
            if bs_len(&all[i].0) >= min_support as usize {
                let ghost before = r@;
                r.push((bs_clone(&all[i].0), bs_clone(&all[i].1)));
                proof {
                    taken = taken.push(i as int);
                    assert(pair_sets(r@)[before.len() as int] == p[i as int]);
                    assert forall|k: int| 0 <= k < taken.len() implies 0 <= #[trigger] taken[k] < i + 1 && pair_sets(r@)[k] == p[taken[k]] by {
                        if k < before.len() {
                            assert(r@[k] == before[k]);
                            assert(pair_sets(r@)[k] == pair_sets(before)[k]);
                        }
                    }
                    assert forall|k: int| 0 <= k < r@.len() implies (#[trigger] pair_sets(r@)[k]).0.len() >= min_support by {
                        if k < before.len() {
                            assert(r@[k] == before[k]);
                            assert(pair_sets(r@)[k] == pair_sets(before)[k]);
                        }
                    }
                    assert forall|j: int| 0 <= j < i + 1 && p[j].0.len() >= min_support implies #[trigger] pair_sets(r@).contains(p[j]) by {
                        if j < i {
                            assert(pair_sets(before).contains(p[j]));
                            let k = choose|k: int| 0 <= k < pair_sets(before).len() && pair_sets(before)[k] == p[j];
                            assert(r@[k] == before[k]);
                            assert(pair_sets(r@)[k] == p[j]);
                        } else {
                            assert(pair_sets(r@)[before.len() as int] == p[j]);
                        }
                    }
                }
            }
            i = i + 1;
        }
        proof {
            let q = pair_sets(r@);
            assert forall|k: int| 0 <= k < q.len() implies c.is_concept(#[trigger] q[k].0, q[k].1) && q[k].0.len() >= min_support by {
                assert(q[k] == p[taken[k]]);
            }
            assert forall|e: Set<usize>, b: Set<usize>| #[trigger] c.is_concept(e, b) && e.len() >= min_support implies q.contains((e, b)) by {
                let j = choose|j: int| 0 <= j < p.len() && p[j] == (e, b);
            }
            assert forall|k: int, l: int| 0 <= k < l < q.len() implies #[trigger] q[k].1 != #[trigger] q[l].1 by {
                assert(taken[k] < taken[l]);
            }
            assert forall|k: int, l: int| 0 <= k < l < q.len() implies crate::concept::lectic_le((#[trigger] q[k]).1, (#[trigger] q[l]).1) by {
                assert(taken[k] < taken[l]);
                assert(q[k] == p[taken[k]] && q[l] == p[taken[l]]);
            }
        }
        r
    }
}

} // verus!
