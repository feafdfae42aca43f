//! Collections of concepts as handed to callers: an indexed, sliceable list,
//! iterators over it, and the concept itself as a pair of label sets.
use vstd::prelude::*;
use bit_set::BitSet;
use crate::bitset::{members, below, pair_sets, bs_clone, bs_contains, bs_eq};
use crate::errors::FcaError;
use crate::labelset::LabelSet;
use crate::lectic::{lectic_at, lectic_lt, law_lectic_irreflexive, law_lectic_transitive, law_lectic_total};
use crate::names::{label_views, copy_labels};

verus! {

/// The position that a Python-style index (negative counts from the end)
/// denotes in a sequence of length `len`.
pub open spec fn python_index(idx: int, len: int) -> int {
    if idx < 0 { len + idx } else { idx }
}

/// The `k`-th position visited by a slice from `start` in steps of `step`.
pub open spec fn slice_position(start: int, step: int, k: int) -> int {
    start + k * step
}

/// Position `i` lies on the near side of `stop` for a slice moving by `step`.
pub open spec fn before_stop(i: int, stop: int, step: int) -> bool {
    if step > 0 { i < stop } else { i > stop }
}

/// The bounds that Python's `slice.indices` gives for a sequence of length `len`.
pub open spec fn slice_bounds_ok(start: int, stop: int, step: int, len: int) -> bool {
    &&& step != 0
    &&& step > 0 ==> 0 <= start && stop <= len
    &&& step < 0 ==> start < len && -1 <= stop
}

/// The positions `0 <= i < len` of a slice, as the sequence of positions visited.
pub open spec fn slice_positions_ok(ps: Seq<int>, start: int, stop: int, step: int) -> bool {
    &&& forall|k: int| 0 <= k < ps.len() ==> #[trigger] ps[k] == slice_position(start, step, k) && before_stop(ps[k], stop, step)
    &&& !before_stop(slice_position(start, step, ps.len() as int), stop, step)
}

/// `a` does not come lectically after `b`.
pub open spec fn lectic_le(a: Set<usize>, b: Set<usize>) -> bool {
    !lectic_lt(b, a)
}

/// The intents of `v` never decrease lectically.
pub open spec fn sorted_by_intent(v: Seq<(Set<usize>, Set<usize>)>) -> bool {
    forall|i: int, j: int| 0 <= i < j < v.len() ==> lectic_le((#[trigger] v[i]).1, (#[trigger] v[j]).1)
}

/// Whether `a` comes lectically before `b`, both within `0..n`: the first
/// index below `n` on which they differ belongs to `b`.
pub fn lectic_less(a: &BitSet, b: &BitSet, n: usize) -> (r: bool)
    requires
        members(*a).subset_of(below(n as nat)),
        members(*b).subset_of(below(n as nat)),
    ensures
        r == lectic_lt(members(*a), members(*b)),
{
    let mut i: usize = 0;
    while i < n
        invariant
            i <= n,
            members(*a).subset_of(below(n as nat)),
            members(*b).subset_of(below(n as nat)),
            forall|j: usize| j < i ==> (#[trigger] members(*a).contains(j) <==> members(*b).contains(j)),
        decreases n - i,
    {
        let in_a = bs_contains(a, i);
        let in_b = bs_contains(b, i);
        if !in_a && in_b {
            assert(lectic_at(members(*a), members(*b), i));
            return true;
        }
        if in_a && !in_b {
            proof {
                assert(lectic_at(members(*b), members(*a), i));
                if lectic_lt(members(*a), members(*b)) {
                    law_lectic_transitive(members(*a), members(*b), members(*a));
                    law_lectic_irreflexive(members(*a));
                }
            }
            return false;
        }
        i = i + 1;
    }
    proof {
        if lectic_lt(members(*a), members(*b)) {
            let j = choose|j: usize| lectic_at(members(*a), members(*b), j);
            assert(members(*b).contains(j));
        }
    }
    false
}

/// Whether position `i` lies on the near side of `stop` for a slice moving by `step`.
pub fn short_of_stop(i: i128, stop: i128, step: isize) -> (r: bool)
    ensures
        r == before_stop(i as int, stop as int, step as int),
{
    if step > 0 {
        i < stop
    } else {
        i > stop
    }
}

/// A formal concept as a pair of label sets.
pub struct Concept {
    extent: LabelSet,
    intent: LabelSet,
}

impl Concept {
    pub closed spec fn extent_set(&self) -> LabelSet {
        self.extent
    }

    pub closed spec fn intent_set(&self) -> LabelSet {
        self.intent
    }

    pub open spec fn wf(&self) -> bool {
        self.extent_set().wf() && self.intent_set().wf()
    }

    pub fn new(extent: LabelSet, intent: LabelSet) -> (r: Self)
        ensures
            r.extent_set() == extent,
            r.intent_set() == intent,
    {
        Concept { extent, intent }
    }

    /// The extent, as a label set of objects.
    pub fn extent(&self) -> (r: LabelSet)
        ensures
            r.index_set() == self.extent_set().index_set(),
            r.names() == self.extent_set().names(),
    {
        self.extent.copy()
    }

    /// The intent, as a label set of attributes.
    pub fn intent(&self) -> (r: LabelSet)
        ensures
            r.index_set() == self.intent_set().index_set(),
            r.names() == self.intent_set().names(),
    {
        self.intent.copy()
    }

    /// A concept is a pair: it has two items.
    pub fn len(&self) -> (r: usize)
        ensures
            r == 2,
    {
        2
    }

    /// Item `idx` of the pair: 0 or -2 the extent, 1 or -1 the intent.
    pub fn get(&self, idx: isize) -> (r: Result<LabelSet, FcaError>)
        ensures
            (idx == 0 || idx == -2) ==> (r matches Ok(s) && s.index_set() == self.extent_set().index_set() && s.names() == self.extent_set().names()),
            (idx == 1 || idx == -1) ==> (r matches Ok(s) && s.index_set() == self.intent_set().index_set() && s.names() == self.intent_set().names()),
            !(idx == 0 || idx == -2 || idx == 1 || idx == -1) ==> (r matches Err(FcaError::IndexOutOfRange)),
    {
        if idx == 0 || idx == -2 {
            Ok(self.extent.copy())
        } else if idx == 1 || idx == -1 {
            Ok(self.intent.copy())
        } else {
            Err(FcaError::IndexOutOfRange)
        }
    }

    /// Whether `label` is one of the objects of the extent or one of the
    /// attributes of the intent.
    pub fn contains(&self, label: &String) -> (r: bool)
        requires
            self.wf(),
        ensures
            r == (self.extent_set().label_set().contains(label@) || self.intent_set().label_set().contains(label@)),
    {
        self.extent.holds_label(label) || self.intent.holds_label(label)
    }

    /// Two concepts are equal when their extents and intents hold the same indices.
    pub fn eq(&self, other: &Concept) -> (r: bool)
        ensures
            r == (self.extent_set().index_set() == other.extent_set().index_set()
                && self.intent_set().index_set() == other.intent_set().index_set()),
    {
        bs_eq(self.extent.bits(), other.extent.bits()) && bs_eq(self.intent.bits(), other.intent.bits())
    }

    pub fn copy(&self) -> (r: Self)
        ensures
            r.extent_set().index_set() == self.extent_set().index_set(),
            r.extent_set().names() == self.extent_set().names(),
            r.intent_set().index_set() == self.intent_set().index_set(),
            r.intent_set().names() == self.intent_set().names(),
    {
        Concept { extent: self.extent.copy(), intent: self.intent.copy() }
    }
}

/// Hands out the two items of a concept: first the extent, then the intent.
pub struct ConceptPairIterator {
    first: Option<LabelSet>,
    second: Option<LabelSet>,
    pos: usize,
}

impl ConceptPairIterator {
    pub closed spec fn position(&self) -> nat {
        self.pos as nat
    }

    pub closed spec fn first_item(&self) -> Option<LabelSet> {
        self.first
    }

    pub closed spec fn second_item(&self) -> Option<LabelSet> {
        self.second
    }

    pub fn new(c: &Concept) -> (r: Self)
        ensures
            r.position() == 0,
            r.first_item() matches Some(s) && s.index_set() == c.extent_set().index_set() && s.names() == c.extent_set().names(),
            r.second_item() matches Some(s) && s.index_set() == c.intent_set().index_set() && s.names() == c.intent_set().names(),
    {
        ConceptPairIterator { first: Some(c.extent()), second: Some(c.intent()), pos: 0 }
    }

    /// The next item: the extent, then the intent, then nothing.
    pub fn next(&mut self) -> (r: Option<LabelSet>)
        ensures
            old(self).position() == 0 ==> r == old(self).first_item() && final(self).position() == 1 && final(self).first_item() is None && final(self).second_item() == old(self).second_item(),
            old(self).position() == 1 ==> r == old(self).second_item() && final(self).position() == 2 && final(self).second_item() is None && final(self).first_item() == old(self).first_item(),
            old(self).position() >= 2 ==> r is None && *final(self) == *old(self),
    {
        if self.pos >= 2 {
            return None;
        }
        let item = if self.pos == 0 { self.first.take() } else { self.second.take() };
        self.pos = self.pos + 1;
        item
    }
}

/// All concepts of a context, indexed, with the names of its objects and attributes.
pub struct ConceptCollection {
    data: Vec<(BitSet, BitSet)>,
    objects: Vec<String>,
    attributes: Vec<String>,
}

/// The concept at position `i` of `data`, named by `objects` and `attributes`.
pub open spec fn concept_at(c: Concept, data: Seq<(Set<usize>, Set<usize>)>, objects: Seq<Seq<char>>, attributes: Seq<Seq<char>>, i: int) -> bool {
    &&& c.extent_set().index_set() == data[i].0
    &&& c.intent_set().index_set() == data[i].1
    &&& c.extent_set().names() == objects
    &&& c.intent_set().names() == attributes
}

impl ConceptCollection {
    pub closed spec fn pairs(&self) -> Seq<(Set<usize>, Set<usize>)> {
        pair_sets(self.data@)
    }

    pub closed spec fn object_names(&self) -> Seq<Seq<char>> {
        label_views(self.objects@)
    }

    pub closed spec fn attribute_names(&self) -> Seq<Seq<char>> {
        label_views(self.attributes@)
    }

    /// Every extent and intent indexes the names it is given.
    pub open spec fn wf(&self) -> bool {
        forall|i: int| 0 <= i < self.pairs().len() ==> {
            &&& (#[trigger] self.pairs()[i]).0.subset_of(below(self.object_names().len()))
            &&& self.pairs()[i].1.subset_of(below(self.attribute_names().len()))
        }
    }

    pub fn new(data: Vec<(BitSet, BitSet)>, objects: Vec<String>, attributes: Vec<String>) -> (r: Self)
        ensures
            r.pairs() == pair_sets(data@),
            r.object_names() == label_views(objects@),
            r.attribute_names() == label_views(attributes@),
    {
        ConceptCollection { data, objects, attributes }
    }

    /// The names that extents index.
    pub fn objects(&self) -> (r: &Vec<String>)
        ensures
            label_views(r@) == self.object_names(),
    {
        &self.objects
    }

    /// The names that intents index.
    pub fn attributes(&self) -> (r: &Vec<String>)
        ensures
            label_views(r@) == self.attribute_names(),
    {
        &self.attributes
    }

    /// The raw pairs of index sets.
    pub fn data(&self) -> (r: &Vec<(BitSet, BitSet)>)
        ensures
            pair_sets(r@) == self.pairs(),
    {
        &self.data
    }

    pub fn len(&self) -> (r: usize)
        ensures
            r == self.pairs().len(),
    {
        self.data.len()
    }

    /// The concept at position `i`.
    pub fn make_concept(&self, i: usize) -> (r: Concept)
        requires
            i < self.pairs().len(),
        ensures
            concept_at(r, self.pairs(), self.object_names(), self.attribute_names(), i as int),
    {
        let extent = LabelSet::new(bs_clone(&self.data[i].0), copy_labels(&self.objects));
        let intent = LabelSet::new(bs_clone(&self.data[i].1), copy_labels(&self.attributes));
        Concept::new(extent, intent)
    }

    /// The concept at a Python-style index; refused outside the collection.
    pub fn get(&self, idx: isize) -> (r: Result<Concept, FcaError>)
        ensures
            ({
                let p = python_index(idx as int, self.pairs().len() as int);
                &&& (0 <= p < self.pairs().len()) ==> (r matches Ok(c) && concept_at(c, self.pairs(), self.object_names(), self.attribute_names(), p))
                &&& !(0 <= p < self.pairs().len()) ==> (r matches Err(FcaError::IndexOutOfRange))
            }),
    {
        let len = self.data.len() as i128;
        let i: i128 = if idx < 0 { len + idx as i128 } else { idx as i128 };
        if i < 0 || i >= len {
            return Err(FcaError::IndexOutOfRange);
        }
        Ok(self.make_concept(i as usize))
    }

    /// The concepts at the positions of a slice, whose bounds are those that
    /// Python's `slice.indices` gives for this collection.
    pub fn select(&self, start: isize, stop: isize, step: isize) -> (r: Vec<Concept>)
        requires
            slice_bounds_ok(start as int, stop as int, step as int, self.pairs().len() as int),
        ensures
            exists|ps: Seq<int>| #![auto] {
                &&& slice_positions_ok(ps, start as int, stop as int, step as int)
                &&& ps.len() == r@.len()
                &&& forall|k: int| 0 <= k < ps.len() ==> concept_at(#[trigger] r@[k], self.pairs(), self.object_names(), self.attribute_names(), ps[k])
            },
    {
        let len = self.data.len() as i128;
        let mut out: Vec<Concept> = Vec::new();
        let mut i: i128 = start as i128;
        let ghost mut ps: Seq<int> = Seq::empty();
        while short_of_stop(i, stop as i128, step)
            invariant
                slice_bounds_ok(start as int, stop as int, step as int, len as int),
                len == self.pairs().len(),
                out@.len() == ps.len(),
                i == slice_position(start as int, step as int, ps.len() as int),
                ps.len() == 0 ==> i == start,
                ps.len() > 0 ==> before_stop(i - step, stop as int, step as int),
                step > 0 ==> start <= i,
                step < 0 ==> i <= start,
                forall|k: int| 0 <= k < ps.len() ==> #[trigger] ps[k] == slice_position(start as int, step as int, k) && before_stop(ps[k], stop as int, step as int),
                forall|k: int| 0 <= k < ps.len() ==> concept_at(#[trigger] out@[k], self.pairs(), self.object_names(), self.attribute_names(), ps[k]),
            decreases (if step > 0 { if i < stop as int { stop as int - i } else { 0 } } else { if i > stop as int { i - stop as int } else { 0 } }),
        {
            let c = self.make_concept(i as usize);
            let ghost before = out@;
            out.push(c);
            proof {
                let k = ps.len() as int;
                ps = ps.push(i as int);
                assert(slice_position(start as int, step as int, k + 1) == i + step) by (nonlinear_arith)
                    requires i == slice_position(start as int, step as int, k);
                assert forall|q: int| 0 <= q < ps.len() implies concept_at(#[trigger] out@[q], self.pairs(), self.object_names(), self.attribute_names(), ps[q]) by {
                    if q < k {
                        assert(out@[q] == before[q]);
                    }
                }
            }
            i = i + step as i128;
        }
        proof {
            assert(slice_positions_ok(ps, start as int, stop as int, step as int));
        }
        out
    }

    /// An iterator over the concepts, in order.
    pub fn iter(&self) -> (r: ConceptIterator)
        ensures
            r.pairs() == self.pairs(),
            r.object_names() == self.object_names(),
            r.attribute_names() == self.attribute_names(),
            r.position() == 0,
    {
        ConceptIterator { data: copy_pairs(&self.data), pos: 0, objects: copy_labels(&self.objects), attributes: copy_labels(&self.attributes) }
    }

    /// Two collections are equal when they list the same pairs of index sets
    /// in the same order.
    pub fn eq(&self, other: &ConceptCollection) -> (r: bool)
        ensures
            r == (self.pairs() == other.pairs()),
    {
        pairs_equal(&self.data, &other.data)
    }

    /// The same collection ordered by intent: an intent lacking the first
    /// attribute on which two intents differ comes first.
    pub fn sorted(&self) -> (r: Self)
        requires
            self.wf(),
        ensures
            r.pairs().to_multiset() == self.pairs().to_multiset(),
            sorted_by_intent(r.pairs()),
            forall|b: Set<usize>| #[trigger] r.pairs().filter(has_intent(b)) == self.pairs().filter(has_intent(b)),
            r.object_names() == self.object_names(),
            r.attribute_names() == self.attribute_names(),
    {
        proof {
            assert forall|i: int| 0 <= i < self.data@.len() implies (#[trigger] pair_sets(self.data@)[i]).1.subset_of(below(self.attributes@.len() as nat)) by {
                assert(self.pairs()[i] == pair_sets(self.data@)[i]);
            }
        }
        let data = sort_by_intent(&self.data, self.attributes.len());
        ConceptCollection { data, objects: copy_labels(&self.objects), attributes: copy_labels(&self.attributes) }
    }
}

/// A copy of a list of pairs of bit sets.
pub fn copy_pairs(v: &Vec<(BitSet, BitSet)>) -> (r: Vec<(BitSet, BitSet)>)
    ensures
        pair_sets(r@) == pair_sets(v@),
{
    let mut r: Vec<(BitSet, BitSet)> = Vec::new();
    let mut i: usize = 0;
    while i < v.len()
        invariant
            i <= v@.len(),
            r@.len() == i,
            forall|j: int| 0 <= j < i ==> (#[trigger] pair_sets(r@)[j]) == pair_sets(v@)[j],
        decreases v@.len() - i,
    {
        let ghost before = r@;
        r.push((bs_clone(&v[i].0), bs_clone(&v[i].1)));
        proof {
            assert forall|j: int| 0 <= j < i + 1 implies (#[trigger] pair_sets(r@)[j]) == pair_sets(v@)[j] by {
                if j < i {
                    assert(r@[j] == before[j]);
                    assert(pair_sets(before)[j] == pair_sets(v@)[j]);
                }
            }
        }
        i = i + 1;
    }
    assert(pair_sets(r@) =~= pair_sets(v@));
    r
}

/// Whether two lists of pairs of bit sets hold the same pairs of sets in order.
pub fn pairs_equal(a: &Vec<(BitSet, BitSet)>, b: &Vec<(BitSet, BitSet)>) -> (r: bool)
    ensures
        r == (pair_sets(a@) == pair_sets(b@)),
{
    if a.len() != b.len() {
        proof {
            assert(pair_sets(a@).len() != pair_sets(b@).len());
        }
        return false;
    }
    let mut i: usize = 0;
    while i < a.len()
        invariant
            a@.len() == b@.len(),
            i <= a@.len(),
            forall|j: int| 0 <= j < i ==> #[trigger] pair_sets(a@)[j] == pair_sets(b@)[j],
        decreases a@.len() - i,
    {
        if !bs_eq(&a[i].0, &b[i].0) || !bs_eq(&a[i].1, &b[i].1) {
            proof {
                assert(pair_sets(a@)[i as int] != pair_sets(b@)[i as int]);
            }
            return false;
        }
        i = i + 1;
    }
    assert(pair_sets(a@) =~= pair_sets(b@));
    true
}

/// Inserting `x` at `p`, the first position whose intent comes after that of
/// `x`, keeps for every intent the order of the pairs that have it: those of
/// `old_r` and, after them, `x`.
proof fn lemma_insert_keeps_intent_order(old_r: Seq<(Set<usize>, Set<usize>)>, x: (Set<usize>, Set<usize>), p: int, done: Seq<(Set<usize>, Set<usize>)>)
    requires
        0 <= p <= old_r.len(),
        sorted_by_intent(old_r),
        p < old_r.len() ==> lectic_lt(x.1, old_r[p].1),
        forall|b: Set<usize>| #[trigger] old_r.filter(has_intent(b)) == done.filter(has_intent(b)),
    ensures
        forall|b: Set<usize>| #[trigger] old_r.insert(p, x).filter(has_intent(b)) == done.push(x).filter(has_intent(b)),
{
    broadcast use Seq::filter_distributes_over_add, Seq::lemma_filter_push;

    let s = old_r.insert(p, x);
    let front = old_r.take(p);
    let back = old_r.skip(p);
    assert(s =~= front + seq![x] + back);
    assert(old_r =~= front + back);
    assert forall|b: Set<usize>| #[trigger] s.filter(has_intent(b)) == done.push(x).filter(has_intent(b)) by {
        let f = has_intent(b);
        assert(seq![x] =~= Seq::<(Set<usize>, Set<usize>)>::empty().push(x));
        assert(Seq::<(Set<usize>, Set<usize>)>::empty().filter(f) =~= Seq::<(Set<usize>, Set<usize>)>::empty()) by {
            reveal(Seq::filter);
        }
        assert(s.filter(f) == front.filter(f) + seq![x].filter(f) + back.filter(f));
        assert(old_r.filter(f) == front.filter(f) + back.filter(f));
        if x.1 == b {
            assert forall|j: int| 0 <= j < back.len() implies !f(#[trigger] back[j]) by {
                assert(back[j] == old_r[p + j]);
                assert(lectic_lt(x.1, old_r[p + j].1)) by {
                    if j > 0 {
                        assert(lectic_le(old_r[p].1, old_r[p + j].1));
                        if old_r[p].1 != old_r[p + j].1 {
                            law_lectic_total(old_r[p].1, old_r[p + j].1);
                            law_lectic_transitive(x.1, old_r[p].1, old_r[p + j].1);
                        }
                    }
                }
                law_lectic_irreflexive(x.1);
            }
            back.lemma_all_neg_filter_empty(f);
            assert(back.filter(f) =~= Seq::<(Set<usize>, Set<usize>)>::empty());
            assert(s.filter(f) =~= old_r.filter(f).push(x));
        } else {
            assert(s.filter(f) =~= old_r.filter(f));
        }
    }
}

/// Whether a pair has the intent `b`.
pub open spec fn has_intent(b: Set<usize>) -> spec_fn((Set<usize>, Set<usize>)) -> bool {
    |q: (Set<usize>, Set<usize>)| q.1 == b
}

/// The pairs of `v` reordered by intent, stably, with every pair kept.
pub fn sort_by_intent(v: &Vec<(BitSet, BitSet)>, n: usize) -> (r: Vec<(BitSet, BitSet)>)
    requires
        forall|i: int| 0 <= i < v@.len() ==> (#[trigger] pair_sets(v@)[i]).1.subset_of(below(n as nat)),
    ensures
        pair_sets(r@).to_multiset() == pair_sets(v@).to_multiset(),
        sorted_by_intent(pair_sets(r@)),
        forall|b: Set<usize>| #[trigger] pair_sets(r@).filter(has_intent(b)) == pair_sets(v@).filter(has_intent(b)),
{
    broadcast use vstd::seq_lib::group_to_multiset_ensures;

    let mut r: Vec<(BitSet, BitSet)> = Vec::new();
    let mut k: usize = 0;
    while k < v.len()
        invariant
            k <= v@.len(),
            forall|i: int| 0 <= i < v@.len() ==> (#[trigger] pair_sets(v@)[i]).1.subset_of(below(n as nat)),
            forall|i: int| 0 <= i < r@.len() ==> (#[trigger] pair_sets(r@)[i]).1.subset_of(below(n as nat)),
            pair_sets(r@).to_multiset() == pair_sets(v@).take(k as int).to_multiset(),
            sorted_by_intent(pair_sets(r@)),
            forall|b: Set<usize>| #[trigger] pair_sets(r@).filter(has_intent(b)) == pair_sets(v@).take(k as int).filter(has_intent(b)),
        decreases v@.len() - k,
    {
        let ghost x = pair_sets(v@)[k as int];
        let mut p: usize = 0;
        while p < r.len()
            invariant
                p <= r@.len(),
                x == pair_sets(v@)[k as int],
                k < v@.len(),
                forall|i: int| 0 <= i < v@.len() ==> (#[trigger] pair_sets(v@)[i]).1.subset_of(below(n as nat)),
                forall|i: int| 0 <= i < r@.len() ==> (#[trigger] pair_sets(r@)[i]).1.subset_of(below(n as nat)),
                forall|q: int| 0 <= q < p ==> !lectic_lt(x.1, (#[trigger] pair_sets(r@)[q]).1),
            ensures
                p <= r@.len(),
                forall|q: int| 0 <= q < p ==> !lectic_lt(x.1, (#[trigger] pair_sets(r@)[q]).1),
                p < r@.len() ==> lectic_lt(x.1, pair_sets(r@)[p as int].1),
            decreases r@.len() - p,
        {
            proof { assert(pair_sets(r@)[p as int].1 == members(r@[p as int].1)); }
            if lectic_less(&v[k].1, &r[p].1, n) {
                break;
            }
            p = p + 1;
        }
        let ghost old_r = pair_sets(r@);
        let item = (bs_clone(&v[k].0), bs_clone(&v[k].1));
        r.insert(p, item);
        proof {
            let s = pair_sets(r@);
            assert(s =~= old_r.insert(p as int, x));
            assert(s.remove(p as int) =~= old_r);
            assert(s[p as int] == x);
            vstd::seq_lib::to_multiset_remove(s, p as int);
            s.to_multiset_ensures();
            assert(s.to_multiset().remove(x) == old_r.to_multiset());
            assert(s.to_multiset().count(x) > 0) by {
                assert(s.contains(x));
            }
            assert(s.to_multiset() =~= old_r.to_multiset().insert(x)) by {
                broadcast use vstd::multiset::group_multiset_axioms;
                assert forall|y| #[trigger] s.to_multiset().count(y) == old_r.to_multiset().insert(x).count(y) by {
                    if y == x {
                        assert(s.to_multiset().remove(x).count(x) == s.to_multiset().count(x) - 1);
                    } else {
                        assert(s.to_multiset().remove(x).count(y) == s.to_multiset().count(y));
                    }
                }
            }
            assert(pair_sets(v@).take(k + 1) =~= pair_sets(v@).take(k as int).push(x));
            vstd::seq_lib::to_multiset_build(pair_sets(v@).take(k as int), x);
            // p is the first position whose intent comes after x (or the end).
            assert forall|i: int, j: int| 0 <= i < j < s.len() implies lectic_le((#[trigger] s[i]).1, (#[trigger] s[j]).1) by {
                if j < p {
                    assert(s[i] == old_r[i] && s[j] == old_r[j]);
                } else if j == p {
                    assert(s[i] == old_r[i]);
                    assert(!lectic_lt(x.1, old_r[i].1));
                } else if i == p {
                    // x comes before old_r[p] (if p was found), which comes no later than old_r[j-1].
                    assert(s[j] == old_r[j - 1]);
                    assert(p < old_r.len());
                    assert(lectic_lt(x.1, old_r[p as int].1));
                    if lectic_lt(old_r[j - 1].1, x.1) {
                        if j - 1 == p {
                            law_lectic_transitive(x.1, old_r[p as int].1, x.1);
                            law_lectic_irreflexive(x.1);
                        } else {
                            assert(lectic_le(old_r[p as int].1, old_r[j - 1].1));
                            if old_r[p as int].1 == old_r[j - 1].1 {
                                law_lectic_transitive(x.1, old_r[p as int].1, x.1);
                                law_lectic_irreflexive(x.1);
                            } else {
                                law_lectic_total(old_r[p as int].1, old_r[j - 1].1);
                                law_lectic_transitive(x.1, old_r[p as int].1, old_r[j - 1].1);
                                law_lectic_transitive(x.1, old_r[j - 1].1, x.1);
                                law_lectic_irreflexive(x.1);
                            }
                        }
                    }
                } else if i < p {
                    assert(s[i] == old_r[i] && s[j] == old_r[j - 1]);
                } else {
                    assert(s[i] == old_r[i - 1] && s[j] == old_r[j - 1]);
                }
            }
            assert forall|i: int| 0 <= i < s.len() implies (#[trigger] s[i]).1.subset_of(below(n as nat)) by {
                if i < p {
                    assert(s[i] == old_r[i]);
                } else if i > p {
                    assert(s[i] == old_r[i - 1]);
                }
            }
            lemma_insert_keeps_intent_order(old_r, x, p as int, pair_sets(v@).take(k as int));
        }
        k = k + 1;
    }
    proof {
        assert(pair_sets(v@).take(v@.len() as int) =~= pair_sets(v@));
    }
    r
}

/// Hands out the concepts of a collection one at a time.
pub struct ConceptIterator {
    data: Vec<(BitSet, BitSet)>,
    pos: usize,
    objects: Vec<String>,
    attributes: Vec<String>,
}

impl ConceptIterator {
    pub closed spec fn pairs(&self) -> Seq<(Set<usize>, Set<usize>)> {
        pair_sets(self.data@)
    }

    pub closed spec fn object_names(&self) -> Seq<Seq<char>> {
        label_views(self.objects@)
    }

    pub closed spec fn attribute_names(&self) -> Seq<Seq<char>> {
        label_views(self.attributes@)
    }

    pub closed spec fn position(&self) -> nat {
        self.pos as nat
    }

    /// The next concept, if any is left.
    pub fn next(&mut self) -> (r: Option<Concept>)
        ensures
            final(self).pairs() == old(self).pairs(),
            final(self).object_names() == old(self).object_names(),
            final(self).attribute_names() == old(self).attribute_names(),
            old(self).position() < old(self).pairs().len() ==> {
                &&& r matches Some(c) && concept_at(c, old(self).pairs(), old(self).object_names(), old(self).attribute_names(), old(self).position() as int)
                &&& final(self).position() == old(self).position() + 1
            },
            old(self).position() >= old(self).pairs().len() ==> r is None && final(self).position() == old(self).position(),
    {
        if self.pos >= self.data.len() {
            return None;
        }
        let extent = LabelSet::new(bs_clone(&self.data[self.pos].0), copy_labels(&self.objects));
        let intent = LabelSet::new(bs_clone(&self.data[self.pos].1), copy_labels(&self.attributes));
        self.pos = self.pos + 1;
        Some(Concept::new(extent, intent))
    }
}

/// A lazy sequence of concepts that refuses to go on once the context it came
/// from has changed (or was asked to change) since it was made.
pub struct ConceptGenerator {
    data: Vec<(BitSet, BitSet)>,
    pos: usize,
    objects: Vec<String>,
    attributes: Vec<String>,
    gen_at_creation: u64,
}

impl ConceptGenerator {
    pub closed spec fn pairs(&self) -> Seq<(Set<usize>, Set<usize>)> {
        pair_sets(self.data@)
    }

    pub closed spec fn object_names(&self) -> Seq<Seq<char>> {
        label_views(self.objects@)
    }

    pub closed spec fn attribute_names(&self) -> Seq<Seq<char>> {
        label_views(self.attributes@)
    }

    pub closed spec fn position(&self) -> nat {
        self.pos as nat
    }

    /// The generation of the context when this generator was made.
    pub closed spec fn generation(&self) -> u64 {
        self.gen_at_creation
    }

    pub fn new(data: Vec<(BitSet, BitSet)>, objects: Vec<String>, attributes: Vec<String>, generation: u64) -> (r: Self)
        ensures
            r.pairs() == pair_sets(data@),
            r.object_names() == label_views(objects@),
            r.attribute_names() == label_views(attributes@),
            r.position() == 0,
            r.generation() == generation,
    {
        ConceptGenerator { data, pos: 0, objects, attributes, gen_at_creation: generation }
    }

    /// The generation of the context when this generator was made.
    pub fn gen_at_creation(&self) -> (r: u64)
        ensures
            r == self.generation(),
    {
        self.gen_at_creation
    }

    /// The next concept, given the context's current generation and its count
    /// of live lazy generators; refused when the generation has moved on.
    pub fn next(&mut self, current_gen: u64, active_lazy: u32) -> (r: Result<Option<Concept>, FcaError>)
        ensures
            final(self).pairs() == old(self).pairs(),
            final(self).object_names() == old(self).object_names(),
            final(self).attribute_names() == old(self).attribute_names(),
            final(self).generation() == old(self).generation(),
            current_gen != old(self).generation() ==> r == Err::<Option<Concept>, FcaError>(FcaError::MutationDuringLazy(active_lazy)) && final(self).position() == old(self).position(),
            current_gen == old(self).generation() && old(self).position() < old(self).pairs().len() ==> {
                &&& r matches Ok(Some(c)) && concept_at(c, old(self).pairs(), old(self).object_names(), old(self).attribute_names(), old(self).position() as int)
                &&& final(self).position() == old(self).position() + 1
            },
            current_gen == old(self).generation() && old(self).position() >= old(self).pairs().len() ==> (r matches Ok(None) && final(self).position() == old(self).position()),
    {
        if current_gen != self.gen_at_creation {
            return Err(FcaError::MutationDuringLazy(active_lazy));
        }
        if self.pos >= self.data.len() {
            return Ok(None);
        }
        let extent = LabelSet::new(bs_clone(&self.data[self.pos].0), copy_labels(&self.objects));
        let intent = LabelSet::new(bs_clone(&self.data[self.pos].1), copy_labels(&self.attributes));
        self.pos = self.pos + 1;
        Ok(Some(Concept::new(extent, intent)))
    }
}

} // verus!
