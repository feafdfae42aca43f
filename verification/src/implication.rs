//! Lists of implications as handed to callers: an indexed, sliceable list,
//! iterators over it, and the implication itself as a pair of label sets.
use vstd::prelude::*;
use bit_set::BitSet;
use crate::bitset::{members, below, pair_sets, bs_clone, bs_eq};
use crate::concept::{python_index, slice_position, before_stop, slice_bounds_ok, slice_positions_ok, short_of_stop, copy_pairs, pairs_equal};
use crate::errors::FcaError;
use crate::labelset::LabelSet;
use crate::names::{label_views, copy_labels};

verus! {

/// An implication as a pair of label sets of attributes: premise and conclusion.
pub struct Implication {
    premise: LabelSet,
    conclusion: LabelSet,
}

impl Implication {
    pub closed spec fn premise_set(&self) -> LabelSet {
        self.premise
    }

    pub closed spec fn conclusion_set(&self) -> LabelSet {
        self.conclusion
    }

    pub open spec fn wf(&self) -> bool {
        self.premise_set().wf() && self.conclusion_set().wf()
    }

    pub fn new(premise: LabelSet, conclusion: LabelSet) -> (r: Self)
        ensures
            r.premise_set() == premise,
            r.conclusion_set() == conclusion,
    {
        Implication { premise, conclusion }
    }

    /// The premise, as a label set of attributes.
    pub fn premise(&self) -> (r: LabelSet)
        ensures
            r.index_set() == self.premise_set().index_set(),
            r.names() == self.premise_set().names(),
    {
        self.premise.copy()
    }

    /// The conclusion, as a label set of attributes.
    pub fn conclusion(&self) -> (r: LabelSet)
        ensures
            r.index_set() == self.conclusion_set().index_set(),
            r.names() == self.conclusion_set().names(),
    {
        self.conclusion.copy()
    }

    /// An implication is a pair: it has two items.
    pub fn len(&self) -> (r: usize)
        ensures
            r == 2,
    {
        2
    }

    /// Item `idx` of the pair: 0 or -2 the premise, 1 or -1 the conclusion.
    pub fn get(&self, idx: isize) -> (r: Result<LabelSet, FcaError>)
        ensures
            (idx == 0 || idx == -2) ==> (r matches Ok(s) && s.index_set() == self.premise_set().index_set() && s.names() == self.premise_set().names()),
            (idx == 1 || idx == -1) ==> (r matches Ok(s) && s.index_set() == self.conclusion_set().index_set() && s.names() == self.conclusion_set().names()),
            !(idx == 0 || idx == -2 || idx == 1 || idx == -1) ==> (r matches Err(FcaError::IndexOutOfRange)),
    {
        if idx == 0 || idx == -2 {
            Ok(self.premise.copy())
        } else if idx == 1 || idx == -1 {
            Ok(self.conclusion.copy())
        } else {
            Err(FcaError::IndexOutOfRange)
        }
    }

    /// Whether `label` is one of the attributes of the premise or of the
    /// conclusion.
    pub fn contains(&self, label: &String) -> (r: bool)
        requires
            self.wf(),
        ensures
            r == (self.premise_set().label_set().contains(label@) || self.conclusion_set().label_set().contains(label@)),
    {
        self.premise.holds_label(label) || self.conclusion.holds_label(label)
    }

    /// Two implications are equal when their premises and conclusions hold the same indices.
    pub fn eq(&self, other: &Implication) -> (r: bool)
        ensures
            r == (self.premise_set().index_set() == other.premise_set().index_set()
                && self.conclusion_set().index_set() == other.conclusion_set().index_set()),
    {
        bs_eq(self.premise.bits(), other.premise.bits()) && bs_eq(self.conclusion.bits(), other.conclusion.bits())
    }

    pub fn copy(&self) -> (r: Self)
        ensures
            r.premise_set().index_set() == self.premise_set().index_set(),
            r.premise_set().names() == self.premise_set().names(),
            r.conclusion_set().index_set() == self.conclusion_set().index_set(),
            r.conclusion_set().names() == self.conclusion_set().names(),
    {
        Implication { premise: self.premise.copy(), conclusion: self.conclusion.copy() }
    }
}

/// Hands out the two items of an implication: first the premise, then the conclusion.
pub struct ImplicationPairIterator {
    first: Option<LabelSet>,
    second: Option<LabelSet>,
    pos: usize,
}

impl ImplicationPairIterator {
    pub closed spec fn position(&self) -> nat {
        self.pos as nat
    }

    pub closed spec fn first_item(&self) -> Option<LabelSet> {
        self.first
    }

    pub closed spec fn second_item(&self) -> Option<LabelSet> {
        self.second
    }

    pub fn new(c: &Implication) -> (r: Self)
        ensures
            r.position() == 0,
            r.first_item() matches Some(s) && s.index_set() == c.premise_set().index_set() && s.names() == c.premise_set().names(),
            r.second_item() matches Some(s) && s.index_set() == c.conclusion_set().index_set() && s.names() == c.conclusion_set().names(),
    {
        ImplicationPairIterator { first: Some(c.premise()), second: Some(c.conclusion()), pos: 0 }
    }

    /// The next item: the premise, then the conclusion, then nothing.
    pub fn next(&mut self) -> (r: Option<LabelSet>)
        ensures
            old(self).position() == 0 ==> r == old(self).first_item() && final(self).position() == 1 && final(self).first_item() is None && final(self).second_item() == old(self).second_item(),
            old(self).position() == 1 ==> r == old(self).second_item() && final(self).position() == 2 && final(self).second_item() is None && final(self).first_item() == old(self).first_item(),
            old(self).position() >= 2 ==> r is None && *final(self) == *old(self),
    {
        if self.pos >= 2 {
            return None;
        }
        let item = if self.pos == 0 { self.first.take() } else { self.second.take() };
        self.pos = self.pos + 1;
        item
    }
}

/// The implications of a basis, indexed, with the names of the attributes.
pub struct ImplicationList {
    data: Vec<(BitSet, BitSet)>,
    attributes: Vec<String>,
}

/// The implication at position `i` of `data`, named by `attributes`.
pub open spec fn implication_at(c: Implication, data: Seq<(Set<usize>, Set<usize>)>, attributes: Seq<Seq<char>>, i: int) -> bool {
    &&& c.premise_set().index_set() == data[i].0
    &&& c.conclusion_set().index_set() == data[i].1
    &&& c.premise_set().names() == attributes
    &&& c.conclusion_set().names() == attributes
}

impl ImplicationList {
    pub closed spec fn pairs(&self) -> Seq<(Set<usize>, Set<usize>)> {
        pair_sets(self.data@)
    }

    pub closed spec fn attribute_names(&self) -> Seq<Seq<char>> {
        label_views(self.attributes@)
    }

    /// Every premise and conclusion indexes the attribute names.
    pub open spec fn wf(&self) -> bool {
        forall|i: int| 0 <= i < self.pairs().len() ==> {
            &&& (#[trigger] self.pairs()[i]).0.subset_of(below(self.attribute_names().len()))
            &&& self.pairs()[i].1.subset_of(below(self.attribute_names().len()))
        }
    }

    pub fn new(data: Vec<(BitSet, BitSet)>, attributes: Vec<String>) -> (r: Self)
        ensures
            r.pairs() == pair_sets(data@),
            r.attribute_names() == label_views(attributes@),
    {
        ImplicationList { data, attributes }
    }

    /// The raw pairs of index sets.
    pub fn data(&self) -> (r: &Vec<(BitSet, BitSet)>)
        ensures
            pair_sets(r@) == self.pairs(),
    {
        &self.data
    }

    pub fn len(&self) -> (r: usize)
        ensures
            r == self.pairs().len(),
    {
        self.data.len()
    }

    /// The implication at position `i`.
    pub fn make_implication(&self, i: usize) -> (r: Implication)
        requires
            i < self.pairs().len(),
        ensures
            implication_at(r, self.pairs(), self.attribute_names(), i as int),
    {
        let premise = LabelSet::new(bs_clone(&self.data[i].0), copy_labels(&self.attributes));
        let conclusion = LabelSet::new(bs_clone(&self.data[i].1), copy_labels(&self.attributes));
        Implication::new(premise, conclusion)
    }

    /// The implication at a Python-style index; refused outside the collection.
    pub fn get(&self, idx: isize) -> (r: Result<Implication, FcaError>)
        ensures
            ({
                let p = python_index(idx as int, self.pairs().len() as int);
                &&& (0 <= p < self.pairs().len()) ==> (r matches Ok(c) && implication_at(c, self.pairs(), self.attribute_names(), p))
                &&& !(0 <= p < self.pairs().len()) ==> (r matches Err(FcaError::IndexOutOfRange))
            }),
    {
        let len = self.data.len() as i128;
        let i: i128 = if idx < 0 { len + idx as i128 } else { idx as i128 };
        if i < 0 || i >= len {
            return Err(FcaError::IndexOutOfRange);
        }
        Ok(self.make_implication(i as usize))
    }

    /// The implications at the positions of a slice, whose bounds are those that
    /// Python's `slice.indices` gives for this collection.
    pub fn select(&self, start: isize, stop: isize, step: isize) -> (r: Vec<Implication>)
        requires
            slice_bounds_ok(start as int, stop as int, step as int, self.pairs().len() as int),
        ensures
            exists|ps: Seq<int>| #![auto] {
                &&& slice_positions_ok(ps, start as int, stop as int, step as int)
                &&& ps.len() == r@.len()
                &&& forall|k: int| 0 <= k < ps.len() ==> implication_at(#[trigger] r@[k], self.pairs(), self.attribute_names(), ps[k])
            },
    {
        let len = self.data.len() as i128;
        let mut out: Vec<Implication> = Vec::new();
        let mut i: i128 = start as i128;
        let ghost mut ps: Seq<int> = Seq::empty();
        while short_of_stop(i, stop as i128, step)
            invariant
                slice_bounds_ok(start as int, stop as int, step as int, len as int),
                len == self.pairs().len(),
                out@.len() == ps.len(),
                i == slice_position(start as int, step as int, ps.len() as int),
                ps.len() == 0 ==> i == start,
                ps.len() > 0 ==> before_stop(i - step, stop as int, step as int),
                step > 0 ==> start <= i,
                step < 0 ==> i <= start,
                forall|k: int| 0 <= k < ps.len() ==> #[trigger] ps[k] == slice_position(start as int, step as int, k) && before_stop(ps[k], stop as int, step as int),
                forall|k: int| 0 <= k < ps.len() ==> implication_at(#[trigger] out@[k], self.pairs(), self.attribute_names(), ps[k]),
            decreases (if step > 0 { if i < stop as int { stop as int - i } else { 0 } } else { if i > stop as int { i - stop as int } else { 0 } }),
        {
            let c = self.make_implication(i as usize);
            let ghost before = out@;
            out.push(c);
            proof {
                let k = ps.len() as int;
                ps = ps.push(i as int);
                assert(slice_position(start as int, step as int, k + 1) == i + step) by (nonlinear_arith)
                    requires i == slice_position(start as int, step as int, k);
                assert forall|q: int| 0 <= q < ps.len() implies implication_at(#[trigger] out@[q], self.pairs(), self.attribute_names(), ps[q]) by {
                    if q < k {
                        assert(out@[q] == before[q]);
                    }
                }
            }
            i = i + step as i128;
        }
        proof {
            assert(slice_positions_ok(ps, start as int, stop as int, step as int));
        }
        out
    }

    /// An iterator over the implications, in order.
    pub fn iter(&self) -> (r: ImplicationIterator)
        ensures
            r.pairs() == self.pairs(),
            r.attribute_names() == self.attribute_names(),
            r.position() == 0,
    {
        ImplicationIterator { data: copy_pairs(&self.data), pos: 0, attributes: copy_labels(&self.attributes) }
    }

    /// Two collections are equal when they list the same pairs of index sets
    /// in the same order.
    pub fn eq(&self, other: &ImplicationList) -> (r: bool)
        ensures
            r == (self.pairs() == other.pairs()),
    {
        pairs_equal(&self.data, &other.data)
    }
}

/// Hands out the implications of a collection one at a time.
pub struct ImplicationIterator {
    data: Vec<(BitSet, BitSet)>,
    pos: usize,
    attributes: Vec<String>,
}

impl ImplicationIterator {
    pub closed spec fn pairs(&self) -> Seq<(Set<usize>, Set<usize>)> {
        pair_sets(self.data@)
    }

    pub closed spec fn attribute_names(&self) -> Seq<Seq<char>> {
        label_views(self.attributes@)
    }

    pub closed spec fn position(&self) -> nat {
        self.pos as nat
    }

    /// The next implication, if any is left.
    pub fn next(&mut self) -> (r: Option<Implication>)
        ensures
            final(self).pairs() == old(self).pairs(),
            final(self).attribute_names() == old(self).attribute_names(),
            old(self).position() < old(self).pairs().len() ==> {
                &&& r matches Some(c) && implication_at(c, old(self).pairs(), old(self).attribute_names(), old(self).position() as int)
                &&& final(self).position() == old(self).position() + 1
            },
            old(self).position() >= old(self).pairs().len() ==> r is None && final(self).position() == old(self).position(),
    {
        if self.pos >= self.data.len() {
            return None;
        }
        let premise = LabelSet::new(bs_clone(&self.data[self.pos].0), copy_labels(&self.attributes));
        let conclusion = LabelSet::new(bs_clone(&self.data[self.pos].1), copy_labels(&self.attributes));
        self.pos = self.pos + 1;
        Some(Implication::new(premise, conclusion))
    }
}

/// A lazy sequence of implications that refuses to go on once the context it came
/// from has changed (or was asked to change) since it was made.
pub struct ImplicationGenerator {
    data: Vec<(BitSet, BitSet)>,
    pos: usize,
    attributes: Vec<String>,
    gen_at_creation: u64,
}

impl ImplicationGenerator {
    pub closed spec fn pairs(&self) -> Seq<(Set<usize>, Set<usize>)> {
        pair_sets(self.data@)
    }

    pub closed spec fn attribute_names(&self) -> Seq<Seq<char>> {
        label_views(self.attributes@)
    }

    pub closed spec fn position(&self) -> nat {
        self.pos as nat
    }

    /// The generation of the context when this generator was made.
    pub closed spec fn generation(&self) -> u64 {
        self.gen_at_creation
    }

    pub fn new(data: Vec<(BitSet, BitSet)>, attributes: Vec<String>, generation: u64) -> (r: Self)
        ensures
            r.pairs() == pair_sets(data@),
            r.attribute_names() == label_views(attributes@),
            r.position() == 0,
            r.generation() == generation,
    {
        ImplicationGenerator { data, pos: 0, attributes, gen_at_creation: generation }
    }

    /// The generation of the context when this generator was made.
    pub fn gen_at_creation(&self) -> (r: u64)
        ensures
            r == self.generation(),
    {
        self.gen_at_creation
    }

    /// The next implication, given the context's current generation and its count
    /// of live lazy generators; refused when the generation has moved on.
    pub fn next(&mut self, current_gen: u64, active_lazy: u32) -> (r: Result<Option<Implication>, FcaError>)
        ensures
            final(self).pairs() == old(self).pairs(),
            final(self).attribute_names() == old(self).attribute_names(),
            final(self).generation() == old(self).generation(),
            current_gen != old(self).generation() ==> r == Err::<Option<Implication>, FcaError>(FcaError::MutationDuringLazy(active_lazy)) && final(self).position() == old(self).position(),
            current_gen == old(self).generation() && old(self).position() < old(self).pairs().len() ==> {
                &&& r matches Ok(Some(c)) && implication_at(c, old(self).pairs(), old(self).attribute_names(), old(self).position() as int)
                &&& final(self).position() == old(self).position() + 1
            },
            current_gen == old(self).generation() && old(self).position() >= old(self).pairs().len() ==> (r matches Ok(None) && final(self).position() == old(self).position()),
    {
        if current_gen != self.gen_at_creation {
            return Err(FcaError::MutationDuringLazy(active_lazy));
        }
        if self.pos >= self.data.len() {
            return Ok(None);
        }
        let premise = LabelSet::new(bs_clone(&self.data[self.pos].0), copy_labels(&self.attributes));
        let conclusion = LabelSet::new(bs_clone(&self.data[self.pos].1), copy_labels(&self.attributes));
        self.pos = self.pos + 1;
        Ok(Some(Implication::new(premise, conclusion)))
    }
}

} // verus!
