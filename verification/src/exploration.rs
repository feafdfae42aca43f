//! Attribute exploration as a sequence of decisions: the library proposes
//! implications one at a time; the caller answers each by accepting it or by
//! naming a counterexample, which becomes a new object of the context.
use vstd::prelude::*;
use bit_set::BitSet;
use crate::bitset::{members, below, pair_sets, lemma_below_len, bs_new, bs_clone, bs_eq, bs_len};
use crate::closure::{respects, imps_within, is_next_closed, next_closed};
use crate::concept::lectic_le;
use crate::context::{ContextView, FormalContext, law_attribute_hull_is_closure};
use crate::lectic::{lectic_lt, lectic_rank, pow2, law_lectic_irreflexive, law_lectic_transitive, law_lectic_total, lemma_rank_bound, lemma_rank_lectic, lemma_proper_subset_lectic};
use crate::basis::{is_premise, pseudo_closed, is_canonical_basis};

verus! {

/// What the exploration asks next.
pub enum ExplorationStep {
    /// Does every object having all attributes of the premise (first) have
    /// all attributes of the conclusion (second)?
    Ask(BitSet, BitSet),
    /// Nothing is left to ask.
    Done,
}

/// The state of an attribute exploration: the implications accepted so far
/// and the set of attributes currently under consideration.
pub struct AttributeExploration {
    basis: Vec<(BitSet, BitSet)>,
    current: BitSet,
}

impl AttributeExploration {
    pub closed spec fn accepted(&self) -> Seq<(Set<usize>, Set<usize>)> {
        pair_sets(self.basis@)
    }

    pub closed spec fn current_set(&self) -> Set<usize> {
        members(self.current)
    }

    /// The state fits a context with `n` attributes: everything lies within
    /// `0..n` and the current set respects the accepted implications.
    pub open spec fn wf(&self, n: nat) -> bool {
        &&& n < usize::MAX
        &&& self.current_set().subset_of(below(n))
        &&& imps_within(self.accepted(), n)
        &&& respects(self.current_set(), self.accepted())
    }

    /// The exploration starts from the empty set with nothing accepted.
    pub fn start(ctx: &FormalContext) -> (r: Self)
        requires
            ctx.wf(),
        ensures
            r.wf(ctx@.n_attr()),
            r.accepted() == Seq::<(Set<usize>, Set<usize>)>::empty(),
            r.current_set() == Set::<usize>::empty(),
            basis_before(ctx@, r.accepted(), r.current_set()),
    {
        proof { lemma_basis_before_empty(ctx@); }
        let r = AttributeExploration { basis: Vec::new(), current: bs_new() };
        assert(r.accepted() =~= Seq::<(Set<usize>, Set<usize>)>::empty());
        r
    }

    /// The accepted implications.
    pub fn basis(&self) -> (r: &Vec<(BitSet, BitSet)>)
        ensures
            pair_sets(r@) == self.accepted(),
    {
        &self.basis
    }

    /// Moves on, in lectic order, past every set that respects the accepted
    /// implications and is closed in `ctx`, and asks about the first one that
    /// is not closed; done once the set of all attributes is reached.
    pub fn question(&mut self, ctx: &FormalContext) -> (r: ExplorationStep)
        requires
            ctx.wf(),
            old(self).wf(ctx@.n_attr()),
        ensures
            final(self).wf(ctx@.n_attr()),
            final(self).accepted() == old(self).accepted(),
            lectic_le(old(self).current_set(), final(self).current_set()),
            forall|x: Set<usize>| #![trigger respects(x, old(self).accepted()), lectic_lt(x, final(self).current_set())]
                x.subset_of(below(ctx@.n_attr())) && lectic_le(old(self).current_set(), x) && lectic_lt(x, final(self).current_set())
                && respects(x, old(self).accepted()) ==> ctx@.attribute_hull(x) == x,
            match r {
                ExplorationStep::Ask(p, c) => {
                    &&& members(p) == final(self).current_set()
                    &&& members(c) == ctx@.attribute_hull(final(self).current_set())
                    &&& members(p) != members(c)
                },
                ExplorationStep::Done => {
                    &&& final(self).current_set() == below(ctx@.n_attr())
                    &&& ctx@.attribute_hull(final(self).current_set()) == final(self).current_set()
                },
            },
            basis_before(ctx@, old(self).accepted(), old(self).current_set()) ==> basis_before(ctx@, final(self).accepted(), final(self).current_set()),
    {
        let ghost c = ctx@;
        let ghost l = self.accepted();
        let ghost start = self.current_set();
        let n = ctx.n_attributes();
        proof { lemma_below_len(n); }
        loop
            invariant
                ctx.wf(),
                c == ctx@,
                n == c.n_attr(),
                below(n as nat).len() == n,
                l == self.accepted(),
                l == old(self).accepted(),
                start == old(self).current_set(),
                self.wf(n as nat),
                lectic_le(start, self.current_set()),
                forall|x: Set<usize>| #![trigger respects(x, l), lectic_lt(x, self.current_set())]
                    x.subset_of(below(n as nat)) && lectic_le(start, x) && lectic_lt(x, self.current_set())
                    && respects(x, l) ==> c.attribute_hull(x) == x,
            decreases pow2(n as nat) - lectic_rank(self.current_set(), n as nat),
        {
            let ghost cur = self.current_set();
            let h = ctx.index_attribute_hull(&self.current);
            proof { law_attribute_hull_is_closure(c, cur, cur); }
            proof {
                if basis_before(c, l, start) {
                    lemma_basis_moves_past_closed(c, l, start, cur);
                }
            }
            if !bs_eq(&self.current, &h) {
                let p = bs_clone(&self.current);
                return ExplorationStep::Ask(p, h);
            }
            if bs_len(&self.current) == n {
                proof {
                    lemma_below_len(n);
                    if cur != below(n as nat) {
                        if !(exists|w: usize| below(n as nat).contains(w) && !cur.contains(w)) {
                            assert(cur =~= below(n as nat));
                        }
                        let w = choose|w: usize| below(n as nat).contains(w) && !cur.contains(w);
                        cur.lemma_subset_not_in_lt(below(n as nat), w);
                    }
                }
                return ExplorationStep::Done;
            }
            proof {
                if cur == below(n as nat) {
                    vstd::set_lib::lemma_len_subset(cur, below(n as nat));
                }
            }
            let next = next_closed(&self.basis, &self.current, n);
            proof {
                let y = members(next);
                assert(is_next_closed(y, cur, l, n as nat));
                assert forall|x: Set<usize>| #![trigger respects(x, l), lectic_lt(x, y)]
                    x.subset_of(below(n as nat)) && lectic_le(start, x) && lectic_lt(x, y) && respects(x, l) implies c.attribute_hull(x) == x by {
                    if !lectic_lt(x, cur) {
                        if x != cur {
                            law_lectic_total(x, cur);
                            // cur < x < y with x respecting l contradicts the choice of y.
                            assert(x == y || lectic_lt(y, x));
                            if x == y {
                                law_lectic_irreflexive(x);
                            } else {
                                law_lectic_transitive(x, y, x);
                                law_lectic_irreflexive(x);
                            }
                        }
                    }
                }
                if lectic_lt(y, start) {
                    if start == cur {
                        law_lectic_transitive(cur, y, cur);
                        law_lectic_irreflexive(cur);
                    } else {
                        law_lectic_total(start, cur);
                        if lectic_lt(start, cur) {
                            law_lectic_transitive(y, start, cur);
                            law_lectic_transitive(cur, y, cur);
                            law_lectic_irreflexive(cur);
                        }
                    }
                }
                lemma_rank_lectic(cur, y, n);
                lemma_rank_bound(y, n as nat);
            }
            self.current = next;
        }
    }

    /// Accepts the implication just asked about (the current set implies its
    /// closure) and moves to the lectically next set respecting all accepted
    /// implications.
    pub fn accept(&mut self, ctx: &FormalContext)
        requires
            ctx.wf(),
            old(self).wf(ctx@.n_attr()),
            old(self).current_set() != ctx@.attribute_hull(old(self).current_set()),
        ensures
            final(self).wf(ctx@.n_attr()),
            final(self).accepted() == old(self).accepted().push((old(self).current_set(), ctx@.attribute_hull(old(self).current_set()))),
            is_next_closed(final(self).current_set(), old(self).current_set(), final(self).accepted(), ctx@.n_attr()),
            basis_before(ctx@, old(self).accepted(), old(self).current_set()) ==> basis_before(ctx@, final(self).accepted(), final(self).current_set()),
    {
        let ghost c = ctx@;
        let ghost cur = self.current_set();
        let n = ctx.n_attributes();
        let h = ctx.index_attribute_hull(&self.current);
        proof { law_attribute_hull_is_closure(c, cur, cur); }
        let p = bs_clone(&self.current);
        let ghost before = self.accepted();
        self.basis.push((p, h));
        proof {
            assert(self.accepted() =~= before.push((cur, c.attribute_hull(cur))));
            assert forall|i: int| 0 <= i < self.accepted().len() implies (#[trigger] self.accepted()[i]).0.subset_of(below(n as nat)) && self.accepted()[i].1.subset_of(below(n as nat)) by {
                if i < before.len() {
                    assert(self.accepted()[i] == before[i]);
                }
            }
            if cur == below(n as nat) {
                assert(c.attribute_hull(cur).subset_of(below(n as nat)));
                assert(cur.subset_of(c.attribute_hull(cur)));
                assert(c.attribute_hull(cur) =~= cur);
            }
        }
        let next = next_closed(&self.basis, &self.current, n);
        proof {
            if basis_before(c, before, cur) {
                lemma_basis_accepts(c, before, cur, members(next));
            }
        }
        self.current = next;
    }
}

impl FormalContext {
    /// Adds the counterexample `name` with the attributes of `attrs` that
    /// exist, as the exploration's answer that rejects the implication asked.
    pub fn add_counterexample(&mut self, name: String, attrs: &BitSet)
        requires
            old(self).wf(),
            old(self)@.n_obj() + 1 < usize::MAX,
        ensures
            final(self).wf(),
            final(self)@ == old(self)@.with_object(name@, members(*attrs)),
            final(self)@.n_attr() == old(self)@.n_attr(),
    {
        self.add_object(name, attrs);
    }
}


/// The accepted implications `l` are the canonical basis of `c` as far as the
/// set `a`: each implies its closure, their premises come in lectic order and
/// all before `a`, and among the sets before `a` the premises are exactly the
/// pseudo-closed ones.
pub open spec fn basis_before(c: ContextView, l: Seq<(Set<usize>, Set<usize>)>, a: Set<usize>) -> bool {
    &&& forall|i: int| 0 <= i < l.len() ==> {
        &&& (#[trigger] l[i]).0.subset_of(below(c.n_attr()))
        &&& l[i].1 == c.attribute_hull(l[i].0)
        &&& l[i].0 != l[i].1
        &&& lectic_lt(l[i].0, a)
    }
    &&& forall|i: int, j: int| 0 <= i < j < l.len() ==> lectic_lt((#[trigger] l[i]).0, (#[trigger] l[j]).0)
    &&& forall|x: Set<usize>| x.subset_of(below(c.n_attr())) && lectic_lt(x, a) ==> (#[trigger] is_premise(l, x) <==> pseudo_closed(c, l, x))
}

/// Nothing comes lectically before the empty set, so no implication accepted
/// is the canonical basis up to it.
proof fn lemma_basis_before_empty(c: ContextView)
    ensures
        basis_before(c, Seq::empty(), Set::empty()),
{
    assert forall|x: Set<usize>| x.subset_of(below(c.n_attr())) && lectic_lt(x, Set::<usize>::empty()) implies (#[trigger] is_premise(Seq::<(Set<usize>, Set<usize>)>::empty(), x) <==> pseudo_closed(c, Seq::empty(), x)) by {
        let i = choose|i: usize| crate::lectic::lectic_at(x, Set::<usize>::empty(), i);
    }
}

/// Moving from `s` to `t` past sets that are closed whenever they respect the
/// implications keeps the implications the canonical basis up to `t`.
proof fn lemma_basis_moves_past_closed(c: ContextView, l: Seq<(Set<usize>, Set<usize>)>, s: Set<usize>, t: Set<usize>)
    requires
        basis_before(c, l, s),
        lectic_le(s, t),
        forall|x: Set<usize>| #![trigger respects(x, l), lectic_lt(x, t)]
            x.subset_of(below(c.n_attr())) && lectic_le(s, x) && lectic_lt(x, t) && respects(x, l) ==> c.attribute_hull(x) == x,
    ensures
        basis_before(c, l, t),
{
    if s != t {
        law_lectic_total(s, t);
        assert forall|i: int| 0 <= i < l.len() implies lectic_lt((#[trigger] l[i]).0, t) by {
            law_lectic_transitive(l[i].0, s, t);
        }
    }
    assert forall|x: Set<usize>| x.subset_of(below(c.n_attr())) && lectic_lt(x, t) implies (#[trigger] is_premise(l, x) <==> pseudo_closed(c, l, x)) by {
        if !lectic_lt(x, s) {
            if is_premise(l, x) {
                let k = choose|k: int| 0 <= k < l.len() && (#[trigger] l[k]).0 == x;
                assert(lectic_lt(l[k].0, s));
            }
            if pseudo_closed(c, l, x) {
                assert forall|i: int| 0 <= i < l.len() && (#[trigger] l[i]).0.subset_of(x) implies l[i].1.subset_of(x) by {
                    if l[i].0 == x {
                        assert(lectic_lt(l[i].0, s));
                    }
                }
                assert(respects(x, l));
                assert(c.attribute_hull(x) == x);
            }
        }
    }
}

/// Accepting the implication from a set `a` that is not closed, then moving
/// to the next set that respects all implications, keeps the implications the
/// canonical basis up to that next set.
proof fn lemma_basis_accepts(c: ContextView, l: Seq<(Set<usize>, Set<usize>)>, a: Set<usize>, y: Set<usize>)
    requires
        basis_before(c, l, a),
        a.subset_of(below(c.n_attr())),
        respects(a, l),
        a != c.attribute_hull(a),
        is_next_closed(y, a, l.push((a, c.attribute_hull(a))), c.n_attr()),
    ensures
        basis_before(c, l.push((a, c.attribute_hull(a))), y),
{
    let h = c.attribute_hull(a);
    let l1 = l.push((a, h));
    let n = c.n_attr();
    assert forall|i: int| 0 <= i < l1.len() implies {
        &&& (#[trigger] l1[i]).0.subset_of(below(c.n_attr()))
        &&& l1[i].1 == c.attribute_hull(l1[i].0)
        &&& l1[i].0 != l1[i].1
        &&& lectic_lt(l1[i].0, y)
    } by {
        if i < l.len() {
            assert(l1[i] == l[i]);
            law_lectic_transitive(l[i].0, a, y);
        }
    }
    assert forall|i: int, j: int| 0 <= i < j < l1.len() implies lectic_lt((#[trigger] l1[i]).0, (#[trigger] l1[j]).0) by {
        assert(l1[i] == l[i]);
        if j < l.len() {
            assert(l1[j] == l[j]);
        }
    }
    assert forall|x: Set<usize>| x.subset_of(below(n)) && lectic_lt(x, y) implies (#[trigger] is_premise(l1, x) <==> pseudo_closed(c, l1, x)) by {
        if lectic_lt(x, a) {
            // The new premise `a` is neither `x` nor a proper subset of it.
            if is_premise(l1, x) {
                let k = choose|k: int| 0 <= k < l1.len() && (#[trigger] l1[k]).0 == x;
                if k == l.len() {
                    law_lectic_irreflexive(x);
                }
                assert(l[k] == l1[k]);
            }
            if is_premise(l, x) {
                let k = choose|k: int| 0 <= k < l.len() && (#[trigger] l[k]).0 == x;
                assert(l1[k] == l[k]);
            }
            if a.subset_of(x) && a != x {
                lemma_proper_subset_lectic(a, x);
                law_lectic_transitive(a, x, a);
                law_lectic_irreflexive(a);
            }
            if pseudo_closed(c, l, x) {
                assert forall|i: int| 0 <= i < l1.len() && (#[trigger] l1[i]).0.subset_of(x) && l1[i].0 != x implies l1[i].1.subset_of(x) by {
                    if i < l.len() {
                        assert(l1[i] == l[i]);
                    }
                }
            }
            if pseudo_closed(c, l1, x) {
                assert forall|i: int| 0 <= i < l.len() && (#[trigger] l[i]).0.subset_of(x) && l[i].0 != x implies l[i].1.subset_of(x) by {
                    assert(l1[i] == l[i]);
                }
            }
        } else if x == a {
            assert(l1[l.len() as int].0 == a);
            assert forall|i: int| 0 <= i < l1.len() && (#[trigger] l1[i]).0.subset_of(x) && l1[i].0 != x implies l1[i].1.subset_of(x) by {
                if i < l.len() {
                    assert(l1[i] == l[i]);
                }
            }
        } else {
            // `x` lies strictly between `a` and `y`, so it breaks an implication
            // whose premise comes before it.
            law_lectic_total(x, a);
            if respects(x, l1) {
                assert(x == y || lectic_lt(y, x));
                law_lectic_irreflexive(x);
                if lectic_lt(y, x) {
                    law_lectic_transitive(x, y, x);
                }
            }
            let i = choose|i: int| 0 <= i < l1.len() && (#[trigger] l1[i]).0.subset_of(x) && !l1[i].1.subset_of(x);
            if i < l.len() {
                assert(l1[i] == l[i]);
                law_lectic_transitive(l[i].0, a, x);
            }
            if l1[i].0 == x {
                law_lectic_irreflexive(x);
            }
            assert(!pseudo_closed(c, l1, x));
            if is_premise(l1, x) {
                let k = choose|k: int| 0 <= k < l1.len() && (#[trigger] l1[k]).0 == x;
                if k < l.len() {
                    assert(l1[k] == l[k]);
                    law_lectic_transitive(x, a, x);
                }
                law_lectic_irreflexive(x);
            }
        }
    }
}

/// The closure of `x` once an object with the attributes `b` is added: cut
/// down to `b` when `b` holds all of `x`, unchanged otherwise.
proof fn lemma_hull_with_object(c: ContextView, name: Seq<char>, b: Set<usize>, x: Set<usize>)
    requires
        c.wf(),
    ensures
        ({
            let bb = b.intersect(below(c.n_attr()));
            c.with_object(name, b).attribute_hull(x) == if x.subset_of(bb) { c.attribute_hull(x).intersect(bb) } else { c.attribute_hull(x) }
        }),
{
    let c2 = c.with_object(name, b);
    let bb = b.intersect(below(c.n_attr()));
    let n = c.n_obj();
    assert(c2.rows[n as int] == bb);
    assert forall|g: usize, m: usize| g < n implies c2.incident(g, m) == c.incident(g, m) by {
        assert(c2.rows[g as int] == c.rows[g as int]);
    }
    let e = c.extent_of(x);
    let e2 = c2.extent_of(x);
    if x.subset_of(bb) {
        assert(e2 =~= e.insert(n as usize)) by {
            assert forall|g: usize| e2.contains(g) <==> e.insert(n as usize).contains(g) by {
                if g < n {
                    assert forall|m: usize| x.contains(m) implies (#[trigger] c2.incident(g, m) == c.incident(g, m)) by {}
                }
                if g == n {
                    assert forall|m: usize| #[trigger] x.contains(m) implies c2.incident(g, m) by {}
                }
            }
        }
        assert(c2.intent_of(e2) =~= c.intent_of(e).intersect(bb)) by {
            assert forall|m: usize| c2.intent_of(e2).contains(m) <==> #[trigger] c.intent_of(e).intersect(bb).contains(m) by {
                if c2.intent_of(e2).contains(m) {
                    assert(e2.contains(n as usize));
                    assert(c2.incident(n as usize, m));
                    assert forall|g: usize| #[trigger] e.contains(g) implies c.incident(g, m) by {
                        assert(e2.contains(g));
                        assert(c2.incident(g, m));
                    }
                }
                if c.intent_of(e).intersect(bb).contains(m) {
                    assert forall|g: usize| #[trigger] e2.contains(g) implies c2.incident(g, m) by {
                        if g != n {
                            assert(e.contains(g));
                            assert(c.incident(g, m));
                        }
                    }
                }
            }
        }
    } else {
        let w = choose|w: usize| x.contains(w) && !bb.contains(w);
        assert(e2 =~= e) by {
            assert forall|g: usize| e2.contains(g) <==> e.contains(g) by {
                if g < n {
                    assert forall|m: usize| x.contains(m) implies (#[trigger] c2.incident(g, m) == c.incident(g, m)) by {}
                }
                if g == n {
                    assert(!c2.incident(g, w));
                }
            }
        }
        assert(c2.intent_of(e2) =~= c.intent_of(e)) by {
            assert forall|m: usize| c2.intent_of(e2).contains(m) <==> #[trigger] c.intent_of(e).contains(m) by {
                if c2.intent_of(e2).contains(m) {
                    assert forall|g: usize| #[trigger] e.contains(g) implies c.incident(g, m) by {
                        assert(c2.incident(g, m));
                    }
                }
                if c.intent_of(e).contains(m) {
                    assert forall|g: usize| #[trigger] e2.contains(g) implies c2.incident(g, m) by {
                        assert(c.incident(g, m));
                    }
                }
            }
        }
    }
}

/// A counterexample whose attributes respect every accepted implication
/// leaves those implications the canonical basis up to the current set of
/// the context that gained it.
pub proof fn lemma_basis_survives_counterexample(c: ContextView, l: Seq<(Set<usize>, Set<usize>)>, a: Set<usize>, name: Seq<char>, b: Set<usize>)
    requires
        c.wf(),
        basis_before(c, l, a),
        respects(b.intersect(below(c.n_attr())), l),
    ensures
        basis_before(c.with_object(name, b), l, a),
{
    let c2 = c.with_object(name, b);
    let bb = b.intersect(below(c.n_attr()));
    assert forall|i: int| 0 <= i < l.len() implies (#[trigger] l[i]).1 == c2.attribute_hull(l[i].0) by {
        lemma_hull_with_object(c, name, b, l[i].0);
        if l[i].0.subset_of(bb) {
            assert(l[i].1.subset_of(bb));
            assert(c.attribute_hull(l[i].0).intersect(bb) =~= l[i].1);
        }
    }
    assert forall|x: Set<usize>| x.subset_of(below(c2.n_attr())) && lectic_lt(x, a) implies (#[trigger] is_premise(l, x) <==> pseudo_closed(c2, l, x)) by {
        lemma_hull_with_object(c, name, b, x);
        if is_premise(l, x) {
            let k = choose|k: int| 0 <= k < l.len() && (#[trigger] l[k]).0 == x;
            assert(l[k].1 == c2.attribute_hull(x));
        } else if c.attribute_hull(x) == x {
            if x.subset_of(bb) {
                assert(x.intersect(bb) =~= x);
            }
        }
    }
}

/// Once the exploration reaches the set of all attributes and finds it
/// closed, the accepted implications are exactly the canonical basis.
pub proof fn law_exploration_ends_with_canonical_basis(c: ContextView, l: Seq<(Set<usize>, Set<usize>)>, a: Set<usize>)
    requires
        basis_before(c, l, a),
        a == below(c.n_attr()),
        c.attribute_hull(a) == a,
    ensures
        is_canonical_basis(c, l),
{
    assert forall|x: Set<usize>| x.subset_of(below(c.n_attr())) implies (#[trigger] is_premise(l, x) <==> pseudo_closed(c, l, x)) by {
        if x != a {
            lemma_proper_subset_lectic(x, a);
        } else {
            if is_premise(l, x) {
                let k = choose|k: int| 0 <= k < l.len() && (#[trigger] l[k]).0 == x;
                law_lectic_irreflexive(x);
            }
        }
    }
}

} // verus!
