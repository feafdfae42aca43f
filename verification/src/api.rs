//! A formal context addressed by the names of its objects and attributes,
//! with a guard that refuses changes while lazy generators over it are alive.
use vstd::prelude::*;
use bit_set::BitSet;
use crate::basis::is_canonical_basis;
use crate::bitset::{members, below, pair_sets, bs_new, bs_insert, bs_restrict};
use crate::closure::{imps_within, is_next_closed, respects};
use crate::concept::{lectic_le, copy_pairs, sorted_by_intent};
use crate::exploration::{AttributeExploration, ExplorationStep, basis_before, lemma_basis_survives_counterexample};
use crate::lectic::lectic_lt;
use crate::concept::{ConceptCollection, ConceptGenerator};
use crate::concepts::lists_all_concepts;
use crate::context::{ContextView, FormalContext};
use crate::cxt::{CxtError, parse_cxt, cxt_text};
use crate::drawing::{LatticeDiagram, known_algorithm, check_algorithm};
use crate::errors::FcaError;
use crate::implication::{ImplicationList, ImplicationGenerator};
use crate::labelset::LabelSet;
use crate::names::{label_views, first_index_of, position_of, contains_name, copy_labels, extend_names, name_indices, names_to_bits, lemma_first_index_push, lemma_extend_names};

verus! {

/// The context after adding object `name` with the attributes named in
/// `attrs`, creating (without objects) those attributes that do not exist yet.
pub open spec fn with_named_object(c: ContextView, name: Seq<char>, attrs: Seq<Seq<char>>) -> ContextView {
    let attributes = extend_names(c.attributes, attrs);
    ContextView {
        objects: c.objects.push(name),
        attributes: attributes,
        rows: c.rows.push(name_indices(attributes, attrs)),
        name: c.name,
    }
}

/// The context built from `(object, attribute names)` entries, in order.
pub open spec fn dict_context(entries: Seq<(Seq<char>, Seq<Seq<char>>)>) -> ContextView
    decreases entries.len(),
{
    if entries.len() == 0 {
        ContextView { name: Seq::empty(), objects: Seq::empty(), attributes: Seq::empty(), rows: Seq::empty() }
    } else {
        with_named_object(dict_context(entries.drop_last()), entries.last().0, entries.last().1)
    }
}

/// The text of each entry of a list of `(object, attribute names)` pairs.
pub open spec fn entry_views(v: Seq<(String, Vec<String>)>) -> Seq<(Seq<char>, Seq<Seq<char>>)> {
    v.map_values(|e: (String, Vec<String>)| (e.0@, label_views(e.1@)))
}

/// How many attribute names the entries mention in all.
pub open spec fn total_names(entries: Seq<(Seq<char>, Seq<Seq<char>>)>) -> nat
    decreases entries.len(),
{
    if entries.len() == 0 {
        0
    } else {
        total_names(entries.drop_last()) + entries.last().1.len()
    }
}

/// The generation that follows `g` (wrapping around).
pub open spec fn next_gen(g: u64) -> u64 {
    if g == u64::MAX { 0 } else { (g + 1) as u64 }
}

/// The implications with premises and conclusions cut down to `0..n`.
pub open spec fn restrict_imps(l: Seq<(Set<usize>, Set<usize>)>, n: nat) -> Seq<(Set<usize>, Set<usize>)> {
    l.map_values(|p: (Set<usize>, Set<usize>)| (p.0.intersect(below(n)), p.1.intersect(below(n))))
}

/// Adds an object with the named attributes, creating missing attributes.
fn add_named_object(ctx: &mut FormalContext, name: String, attrs: &Vec<String>)
    requires
        old(ctx).wf(),
        old(ctx)@.n_attr() + attrs@.len() + 1 < usize::MAX,
        old(ctx)@.n_obj() + 1 < usize::MAX,
    ensures
        final(ctx).wf(),
        final(ctx)@ == with_named_object(old(ctx)@, name@, label_views(attrs@)),
{
    let ghost c0 = ctx@;
    let ghost av = label_views(attrs@);
    let mut bits = bs_new();
    let mut k: usize = 0;
    while k < attrs.len()
        invariant
            ctx.wf(),
            c0 == old(ctx)@,
            c0.n_attr() + attrs@.len() + 1 < usize::MAX,
            c0.n_obj() + 1 < usize::MAX,
            av == label_views(attrs@),
            k <= attrs@.len(),
            ctx@ == (ContextView { attributes: extend_names(c0.attributes, av.take(k as int)), ..c0 }),
            members(bits) == name_indices(ctx@.attributes, av.take(k as int)),
            members(bits).subset_of(below(ctx@.n_attr())),
        decreases attrs@.len() - k,
    {
        let ghost a = av[k as int];
        let ghost t = av.take(k as int);
        let ghost t1 = av.take(k + 1);
        let ghost before_attrs = ctx@.attributes;
        let ghost before_bits = members(bits);
        proof {
            assert(t1 =~= t.push(a));
            assert(t1.drop_last() =~= t);
            assert(t1.last() == a);
            lemma_extend_names(c0.attributes, t);
            assert(extend_names(c0.attributes, t).len() <= c0.n_attr() + k);
        }
        match position_of(ctx.attributes(), &attrs[k]) {
            Some(i) => {
                bs_insert(&mut bits, i);
                proof {
                    assert(first_index_of(before_attrs, a) == Some(i as int));
                    assert(extend_names(c0.attributes, t1) == before_attrs);
                    assert forall|j: usize| members(bits).contains(j) <==> name_indices(before_attrs, t1).contains(j) by {
                        if name_indices(before_attrs, t1).contains(j) {
                            let q = choose|q: int| 0 <= q < t1.len() && first_index_of(before_attrs, #[trigger] t1[q]) == Some(j as int);
                            if q < k {
                                assert(t[q] == t1[q]);
                                assert(before_bits.contains(j));
                            }
                        }
                        if before_bits.contains(j) {
                            let q = choose|q: int| 0 <= q < t.len() && first_index_of(before_attrs, #[trigger] t[q]) == Some(j as int);
                            assert(t1[q] == t[q]);
                        }
                        if j == i {
                            assert(t1[k as int] == a);
                        }
                    }
                    assert(members(bits) =~= name_indices(before_attrs, t1));
                }
            },
            None => {
                let n = ctx.n_attributes();
                ctx.add_attribute(attrs[k].clone(), &bs_new());
                bs_insert(&mut bits, n);
                proof {
                    let after = before_attrs.push(a);
                    assert(!before_attrs.contains(a));
                    assert(extend_names(c0.attributes, t1) == after);
                    lemma_first_index_push(before_attrs, a, a);
                    assert(ctx@.rows =~= c0.rows);
                    assert(ctx@.attributes == after);
                    assert forall|j: usize| members(bits).contains(j) <==> name_indices(after, t1).contains(j) by {
                        if name_indices(after, t1).contains(j) {
                            let q = choose|q: int| 0 <= q < t1.len() && first_index_of(after, #[trigger] t1[q]) == Some(j as int);
                            if q < k {
                                assert(t[q] == t1[q]);
                                assert(before_attrs.contains(t[q]));
                                lemma_first_index_push(before_attrs, a, t[q]);
                                assert(before_bits.contains(j));
                            } else {
                                assert(t1[q] == a);
                            }
                        }
                        if before_bits.contains(j) {
                            let q = choose|q: int| 0 <= q < t.len() && first_index_of(before_attrs, #[trigger] t[q]) == Some(j as int);
                            assert(t1[q] == t[q]);
                            assert(before_attrs.contains(t[q]));
                            lemma_first_index_push(before_attrs, a, t[q]);
                        }
                        if j == n {
                            assert(t1[k as int] == a);
                        }
                    }
                    assert(members(bits) =~= name_indices(after, t1));
                }
            },
        }
        k = k + 1;
    }
    proof {
        assert(av.take(attrs@.len() as int) =~= av);
        assert(members(bits).intersect(below(ctx@.n_attr())) =~= members(bits));
    }
    ctx.add_object(name, &bits);
}

/// A formal context addressed by names.  `mutation_gen` counts the changes
/// (and refused attempts at change) so that lazy generators can tell whether
/// the context moved on; `active_lazy` counts the live lazy generators, while
/// which every change is refused.
pub struct PyFormalContext {
    inner: FormalContext,
    mutation_gen: u64,
    active_lazy: u32,
}

impl PyFormalContext {
    pub closed spec fn ctx(&self) -> ContextView {
        self.inner@
    }

    pub closed spec fn generation(&self) -> u64 {
        self.mutation_gen
    }

    pub closed spec fn live_lazy(&self) -> u32 {
        self.active_lazy
    }

    pub closed spec fn wf(&self) -> bool {
        self.inner.wf()
    }

    /// A well-formed context has a well-formed view.
    pub proof fn lemma_wf(&self)
        requires
            self.wf(),
        ensures
            self.ctx().wf(),
    {
    }

    /// Wraps a context, with no generation counted and no generator alive.
    pub fn wrap(inner: FormalContext) -> (r: Self)
        requires
            inner.wf(),
        ensures
            r.wf(),
            r.ctx() == inner@,
            r.generation() == 0,
            r.live_lazy() == 0,
    {
        PyFormalContext { inner, mutation_gen: 0, active_lazy: 0 }
    }

    /// The empty context.
    pub fn new_empty() -> (r: Self)
        ensures
            r.wf(),
            r.ctx() == (ContextView { name: Seq::empty(), objects: Seq::empty(), attributes: Seq::empty(), rows: Seq::empty() }),
            r.generation() == 0,
            r.live_lazy() == 0,
    {
        PyFormalContext::wrap(FormalContext::new())
    }

    /// The context with one object per entry, in order, each having the
    /// attributes it names; attributes are created in order of first mention.
    pub fn from_dict(entries: &Vec<(String, Vec<String>)>) -> (r: Self)
        requires
            entries@.len() + total_names(entry_views(entries@)) + 1 < usize::MAX,
        ensures
            r.wf(),
            r.ctx() == dict_context(entry_views(entries@)),
            r.generation() == 0,
            r.live_lazy() == 0,
    {
        let ghost ev = entry_views(entries@);
        let mut inner = FormalContext::new();
        proof {
            assert(inner@ == dict_context(ev.take(0)));
        }
        let mut k: usize = 0;
        while k < entries.len()
            invariant
                inner.wf(),
                ev == entry_views(entries@),
                entries@.len() + total_names(ev) + 1 < usize::MAX,
                k <= entries@.len(),
                inner@ == dict_context(ev.take(k as int)),
                inner@.n_obj() == k,
                inner@.n_attr() <= total_names(ev.take(k as int)),
            decreases entries@.len() - k,
        {
            proof {
                let t1 = ev.take(k + 1);
                assert(t1.drop_last() =~= ev.take(k as int));
                assert(t1.last() == ev[k as int]);
                lemma_total_names_prefix(ev, k as int);
            }
            add_named_object(&mut inner, entries[k].0.clone(), &entries[k].1);
            proof {
                let t1 = ev.take(k + 1);
                assert(t1.drop_last() =~= ev.take(k as int));
                lemma_extend_names(dict_context(ev.take(k as int)).attributes, ev[k as int].1);
            }
            k = k + 1;
        }
        proof {
            assert(ev.take(entries@.len() as int) =~= ev);
        }
        PyFormalContext::wrap(inner)
    }

    /// The context's name.
    pub fn name(&self) -> (r: String)
        ensures
            r@ == self.ctx().name,
    {
        self.inner.name().clone()
    }

    /// Renames the context (this is not guarded).
    pub fn set_name(&mut self, name: String)
        requires
            old(self).wf(),
        ensures
            final(self).wf(),
            final(self).ctx() == (ContextView { name: name@, ..old(self).ctx() }),
            final(self).generation() == old(self).generation(),
            final(self).live_lazy() == old(self).live_lazy(),
    {
        self.inner.set_name(name);
    }

    /// The underlying context.
    pub fn inner(&self) -> (r: &FormalContext)
        ensures
            r@ == self.ctx(),
            self.wf() ==> r.wf(),
    {
        &self.inner
    }

    /// The current generation.
    pub fn mutation_gen(&self) -> (r: u64)
        ensures
            r == self.generation(),
    {
        self.mutation_gen
    }

    /// How many lazy generators are alive.
    pub fn active_lazy(&self) -> (r: u32)
        ensures
            r == self.live_lazy(),
    {
        self.active_lazy
    }

    /// The object names, in order.
    pub fn objects(&self) -> (r: Vec<String>)
        ensures
            label_views(r@) == self.ctx().objects,
    {
        copy_labels(self.inner.objects())
    }

    /// The attribute names, in order.
    pub fn attributes(&self) -> (r: Vec<String>)
        ensures
            label_views(r@) == self.ctx().attributes,
    {
        copy_labels(self.inner.attributes())
    }

    /// `(number of objects, number of attributes)`.
    pub fn shape(&self) -> (r: (usize, usize))
        ensures
            r.0 == self.ctx().n_obj(),
            r.1 == self.ctx().n_attr(),
    {
        (self.inner.n_objects(), self.inner.n_attributes())
    }

    /// The number of objects.
    pub fn len(&self) -> (r: usize)
        ensures
            r == self.ctx().n_obj(),
    {
        self.inner.n_objects()
    }

    /// Whether an object of this name exists.
    pub fn contains(&self, obj: &String) -> (r: bool)
        ensures
            r == self.ctx().objects.contains(obj@),
    {
        contains_name(self.inner.objects(), obj)
    }

    /// Whether object `obj` has attribute `attr`; refused for unknown names.
    pub fn get_cross(&self, obj: &String, attr: &String) -> (r: Result<bool, FcaError>)
        requires
            self.wf(),
        ensures
            ({
                let c = self.ctx();
                match (first_index_of(c.objects, obj@), first_index_of(c.attributes, attr@)) {
                    (None, _) => r matches Err(FcaError::UnknownObject(s)) && s@ == obj@,
                    (Some(_), None) => r matches Err(FcaError::UnknownAttribute(s)) && s@ == attr@,
                    (Some(g), Some(m)) => r == Ok::<bool, FcaError>(c.incident(g as usize, m as usize)),
                }
            }),
    {
        let g = match position_of(self.inner.objects(), obj) {
            Some(g) => g,
            None => return Err(FcaError::UnknownObject(obj.clone())),
        };
        let m = match position_of(self.inner.attributes(), attr) {
            Some(m) => m,
            None => return Err(FcaError::UnknownAttribute(attr.clone())),
        };
        Ok(self.inner.has_cross(g, m))
    }

    /// Refuses when lazy generators are alive, moving the generation on so
    /// that they notice the attempt.
    pub fn guard_mutation(&mut self) -> (r: Result<(), FcaError>)
        ensures
            final(self).ctx() == old(self).ctx(),
            final(self).wf() == old(self).wf(),
            final(self).live_lazy() == old(self).live_lazy(),
            old(self).live_lazy() > 0 ==> r == Err::<(), FcaError>(FcaError::MutationDuringLazy(old(self).live_lazy()))
                && final(self).generation() == next_gen(old(self).generation()),
            old(self).live_lazy() == 0 ==> r is Ok && final(self).generation() == old(self).generation(),
    {
        let n = self.active_lazy;
        if n > 0 {
            self.mutation_gen = if self.mutation_gen == u64::MAX { 0 } else { self.mutation_gen + 1 };
            Err(FcaError::MutationDuringLazy(n))
        } else {
            Ok(())
        }
    }

    /// Moves the generation on after a change.
    fn refresh(&mut self)
        ensures
            final(self).ctx() == old(self).ctx(),
            final(self).wf() == old(self).wf(),
            final(self).live_lazy() == old(self).live_lazy(),
            final(self).generation() == next_gen(old(self).generation()),
    {
        self.mutation_gen = if self.mutation_gen == u64::MAX { 0 } else { self.mutation_gen + 1 };
    }
}

/// A change `r` was refused because lazy generators are alive: only the
/// generation moved on.
pub open spec fn refused_during_lazy(o: PyFormalContext, f: PyFormalContext, r: Result<(), FcaError>) -> bool {
    &&& r == Err::<(), FcaError>(FcaError::MutationDuringLazy(o.live_lazy()))
    &&& f.ctx() == o.ctx()
    &&& f.generation() == next_gen(o.generation())
    &&& f.live_lazy() == o.live_lazy()
}

/// A change was refused for another reason: nothing moved.
pub open spec fn untouched(o: PyFormalContext, f: PyFormalContext) -> bool {
    &&& f.ctx() == o.ctx()
    &&& f.generation() == o.generation()
    &&& f.live_lazy() == o.live_lazy()
}

/// A change was made: the context became `c` and the generation moved on.
pub open spec fn changed_to(o: PyFormalContext, f: PyFormalContext, c: ContextView) -> bool {
    &&& f.ctx() == c
    &&& f.generation() == next_gen(o.generation())
    &&& f.live_lazy() == o.live_lazy()
}

pub proof fn lemma_total_names_prefix(ev: Seq<(Seq<char>, Seq<Seq<char>>)>, k: int)
    requires
        0 <= k < ev.len(),
    ensures
        total_names(ev.take(k + 1)) == total_names(ev.take(k)) + ev[k].1.len(),
        total_names(ev.take(k + 1)) <= total_names(ev),
    decreases ev.len() - k,
{
    let t1 = ev.take(k + 1);
    assert(t1.drop_last() =~= ev.take(k));
    if k + 1 < ev.len() {
        lemma_total_names_prefix(ev, k + 1);
    } else {
        assert(t1 =~= ev);
    }
}


impl PyFormalContext {
    /// Sets or clears the cross of the named object and attribute.
    pub fn set_cross(&mut self, obj: &String, attr: &String, value: bool) -> (r: Result<(), FcaError>)
        requires
            old(self).wf(),
        ensures
            final(self).wf(),
            ({
                let o = *old(self);
                let f = *final(self);
                let c = o.ctx();
                if o.live_lazy() > 0 {
                    refused_during_lazy(o, f, r)
                } else {
                    match (first_index_of(c.objects, obj@), first_index_of(c.attributes, attr@)) {
                        (None, _) => untouched(o, f) && (r matches Err(FcaError::UnknownObject(s)) && s@ == obj@),
                        (Some(_), None) => untouched(o, f) && (r matches Err(FcaError::UnknownAttribute(s)) && s@ == attr@),
                        (Some(g), Some(m)) => r is Ok && changed_to(o, f, c.with_cross(g as usize, m as usize, value)),
                    }
                }
            }),
    {
        match self.guard_mutation() {
            Err(e) => return Err(e),
            Ok(()) => {},
        }
        let g = match position_of(self.inner.objects(), obj) {
            Some(g) => g,
            None => return Err(FcaError::UnknownObject(obj.clone())),
        };
        let m = match position_of(self.inner.attributes(), attr) {
            Some(m) => m,
            None => return Err(FcaError::UnknownAttribute(attr.clone())),
        };
        self.inner.set_cross(g, m, value);
        self.refresh();
        Ok(())
    }

    /// Adds an object; the attributes named that do not exist yet are created
    /// first (without objects).  Refused when the name is taken.
    pub fn add_object(&mut self, name: String, attributes: Option<Vec<String>>) -> (r: Result<(), FcaError>)
        requires
            old(self).wf(),
            old(self).ctx().n_obj() + 1 < usize::MAX,
            old(self).ctx().n_attr() + 1 + match attributes { Some(a) => a@.len(), None => 0 } < usize::MAX,
        ensures
            final(self).wf(),
            ({
                let o = *old(self);
                let f = *final(self);
                let c = o.ctx();
                let wanted = match attributes { Some(a) => label_views(a@), None => Seq::empty() };
                if o.live_lazy() > 0 {
                    refused_during_lazy(o, f, r)
                } else if c.objects.contains(name@) {
                    untouched(o, f) && (r matches Err(FcaError::DuplicateObject(s)) && s@ == name@)
                } else {
                    r is Ok && changed_to(o, f, with_named_object(c, name@, wanted))
                }
            }),
    {
        match self.guard_mutation() {
            Err(e) => return Err(e),
            Ok(()) => {},
        }
        if contains_name(self.inner.objects(), &name) {
            return Err(FcaError::DuplicateObject(name));
        }
        let attrs = match attributes {
            Some(a) => a,
            None => Vec::new(),
        };
        proof {
            assert(label_views(attrs@) =~= match attributes { Some(a) => label_views(a@), None => Seq::empty() });
        }
        add_named_object(&mut self.inner, name, &attrs);
        self.refresh();
        Ok(())
    }

    /// Adds an attribute that no object has.  Refused when the name is taken.
    pub fn add_attribute(&mut self, name: String) -> (r: Result<(), FcaError>)
        requires
            old(self).wf(),
            old(self).ctx().n_attr() + 1 < usize::MAX,
        ensures
            final(self).wf(),
            ({
                let o = *old(self);
                let f = *final(self);
                let c = o.ctx();
                if o.live_lazy() > 0 {
                    refused_during_lazy(o, f, r)
                } else if c.attributes.contains(name@) {
                    untouched(o, f) && (r matches Err(FcaError::DuplicateAttribute(s)) && s@ == name@)
                } else {
                    r is Ok && changed_to(o, f, c.with_attribute(name@, Set::empty()))
                }
            }),
    {
        match self.guard_mutation() {
            Err(e) => return Err(e),
            Ok(()) => {},
        }
        if contains_name(self.inner.attributes(), &name) {
            return Err(FcaError::DuplicateAttribute(name));
        }
        self.inner.add_attribute(name, &bs_new());
        self.refresh();
        Ok(())
    }

    /// Removes the named object (its first occurrence).
    pub fn remove_object(&mut self, name: &String) -> (r: Result<(), FcaError>)
        requires
            old(self).wf(),
        ensures
            final(self).wf(),
            ({
                let o = *old(self);
                let f = *final(self);
                let c = o.ctx();
                if o.live_lazy() > 0 {
                    refused_during_lazy(o, f, r)
                } else {
                    match first_index_of(c.objects, name@) {
                        None => untouched(o, f) && (r matches Err(FcaError::UnknownObject(s)) && s@ == name@),
                        Some(g) => r is Ok && changed_to(o, f, c.without_object(g as usize)),
                    }
                }
            }),
    {
        match self.guard_mutation() {
            Err(e) => return Err(e),
            Ok(()) => {},
        }
        let g = match position_of(self.inner.objects(), name) {
            Some(g) => g,
            None => return Err(FcaError::UnknownObject(name.clone())),
        };
        self.inner.remove_object(g);
        self.refresh();
        Ok(())
    }

    /// Removes the named attribute (its first occurrence).
    pub fn remove_attribute(&mut self, name: &String) -> (r: Result<(), FcaError>)
        requires
            old(self).wf(),
        ensures
            final(self).wf(),
            ({
                let o = *old(self);
                let f = *final(self);
                let c = o.ctx();
                if o.live_lazy() > 0 {
                    refused_during_lazy(o, f, r)
                } else {
                    match first_index_of(c.attributes, name@) {
                        None => untouched(o, f) && (r matches Err(FcaError::UnknownAttribute(s)) && s@ == name@),
                        Some(m) => r is Ok && changed_to(o, f, c.without_attribute(m as usize)),
                    }
                }
            }),
    {
        match self.guard_mutation() {
            Err(e) => return Err(e),
            Ok(()) => {},
        }
        let m = match position_of(self.inner.attributes(), name) {
            Some(m) => m,
            None => return Err(FcaError::UnknownAttribute(name.clone())),
        };
        self.inner.remove_attribute(m);
        self.refresh();
        Ok(())
    }

    /// Renames an object; refused when the old name is unknown or the new one taken.
    pub fn rename_object(&mut self, old_name: &String, new_name: String) -> (r: Result<(), FcaError>)
        requires
            old(self).wf(),
        ensures
            final(self).wf(),
            ({
                let o = *old(self);
                let f = *final(self);
                let c = o.ctx();
                if o.live_lazy() > 0 {
                    refused_during_lazy(o, f, r)
                } else {
                    match first_index_of(c.objects, old_name@) {
                        None => untouched(o, f) && (r matches Err(FcaError::UnknownObject(s)) && s@ == old_name@),
                        Some(g) => if c.objects.contains(new_name@) {
                            untouched(o, f) && (r matches Err(FcaError::DuplicateObject(s)) && s@ == new_name@)
                        } else {
                            r is Ok && changed_to(o, f, ContextView { objects: c.objects.update(g, new_name@), ..c })
                        },
                    }
                }
            }),
    {
        match self.guard_mutation() {
            Err(e) => return Err(e),
            Ok(()) => {},
        }
        let g = match position_of(self.inner.objects(), old_name) {
            Some(g) => g,
            None => return Err(FcaError::UnknownObject(old_name.clone())),
        };
        if contains_name(self.inner.objects(), &new_name) {
            return Err(FcaError::DuplicateObject(new_name));
        }
        self.inner.change_object_name(new_name, g);
        self.refresh();
        Ok(())
    }

    /// Renames an attribute; refused when the old name is unknown or the new one taken.
    pub fn rename_attribute(&mut self, old_name: &String, new_name: String) -> (r: Result<(), FcaError>)
        requires
            old(self).wf(),
        ensures
            final(self).wf(),
            ({
                let o = *old(self);
                let f = *final(self);
                let c = o.ctx();
                if o.live_lazy() > 0 {
                    refused_during_lazy(o, f, r)
                } else {
                    match first_index_of(c.attributes, old_name@) {
                        None => untouched(o, f) && (r matches Err(FcaError::UnknownAttribute(s)) && s@ == old_name@),
                        Some(m) => if c.attributes.contains(new_name@) {
                            untouched(o, f) && (r matches Err(FcaError::DuplicateAttribute(s)) && s@ == new_name@)
                        } else {
                            r is Ok && changed_to(o, f, ContextView { attributes: c.attributes.update(m, new_name@), ..c })
                        },
                    }
                }
            }),
    {
        match self.guard_mutation() {
            Err(e) => return Err(e),
            Ok(()) => {},
        }
        let m = match position_of(self.inner.attributes(), old_name) {
            Some(m) => m,
            None => return Err(FcaError::UnknownAttribute(old_name.clone())),
        };
        if contains_name(self.inner.attributes(), &new_name) {
            return Err(FcaError::DuplicateAttribute(new_name));
        }
        self.inner.change_attribute_name(new_name, m);
        self.refresh();
        Ok(())
    }

    /// An independent copy: same context, fresh generation, no generator alive.
    pub fn copy(&self) -> (r: Self)
        requires
            self.wf(),
        ensures
            r.wf(),
            r.ctx() == self.ctx(),
            r.generation() == 0,
            r.live_lazy() == 0,
    {
        PyFormalContext::wrap(self.inner.copy())
    }

    /// Records that a lazy generator was dropped.
    pub fn release_lazy(&mut self)
        ensures
            final(self).ctx() == old(self).ctx(),
            final(self).wf() == old(self).wf(),
            final(self).generation() == old(self).generation(),
            final(self).live_lazy() == if old(self).live_lazy() == 0 { u32::MAX } else { (old(self).live_lazy() - 1) as u32 },
    {
        self.active_lazy = if self.active_lazy == 0 { u32::MAX } else { self.active_lazy - 1 };
    }

    /// Records that a lazy generator was made.
    pub(crate) fn register_lazy(&mut self)
        ensures
            final(self).ctx() == old(self).ctx(),
            final(self).wf() == old(self).wf(),
            final(self).generation() == old(self).generation(),
            final(self).live_lazy() == if old(self).live_lazy() == u32::MAX { 0 } else { (old(self).live_lazy() + 1) as u32 },
    {
        self.active_lazy = if self.active_lazy == u32::MAX { 0 } else { self.active_lazy + 1 };
    }

    /// All concepts, each once, in lectic order of their intents, with the current names.
    pub fn concepts(&self) -> (r: ConceptCollection)
        requires
            self.wf(),
        ensures
            lists_all_concepts(self.ctx(), r.pairs()),
            sorted_by_intent(r.pairs()),
            r.object_names() == self.ctx().objects,
            r.attribute_names() == self.ctx().attributes,
    {
        let data = self.inner.index_concepts();
        ConceptCollection::new(data, copy_labels(self.inner.objects()), copy_labels(self.inner.attributes()))
    }

    /// All concepts, handed out lazily; while the generator lives, changes are refused.
    pub fn concepts_lazy(&mut self) -> (r: ConceptGenerator)
        requires
            old(self).wf(),
        ensures
            final(self).wf(),
            lists_all_concepts(old(self).ctx(), r.pairs()),
            sorted_by_intent(r.pairs()),
            r.object_names() == old(self).ctx().objects,
            r.attribute_names() == old(self).ctx().attributes,
            r.position() == 0,
            r.generation() == old(self).generation(),
            final(self).ctx() == old(self).ctx(),
            final(self).generation() == old(self).generation(),
            final(self).live_lazy() == if old(self).live_lazy() == u32::MAX { 0 } else { (old(self).live_lazy() + 1) as u32 },
    {
        let data = self.inner.index_concepts();
        self.register_lazy();
        ConceptGenerator::new(data, copy_labels(self.inner.objects()), copy_labels(self.inner.attributes()), self.mutation_gen)
    }

    /// The objects having every attribute named (unknown names are dropped).
    pub fn extent(&self, attributes: &Vec<String>) -> (r: LabelSet)
        requires
            self.wf(),
        ensures
            r.index_set() == self.ctx().extent_of(name_indices(self.ctx().attributes, label_views(attributes@))),
            r.names() == self.ctx().objects,
    {
        let bits = names_to_bits(attributes, self.inner.attributes());
        LabelSet::new(self.inner.index_extent(&bits), copy_labels(self.inner.objects()))
    }

    /// The attributes shared by every object named (unknown names are dropped).
    pub fn intent(&self, objects: &Vec<String>) -> (r: LabelSet)
        requires
            self.wf(),
        ensures
            r.index_set() == self.ctx().intent_of(name_indices(self.ctx().objects, label_views(objects@))),
            r.names() == self.ctx().attributes,
    {
        let bits = names_to_bits(objects, self.inner.objects());
        LabelSet::new(self.inner.index_intent(&bits), copy_labels(self.inner.attributes()))
    }

    /// The closure of the attributes named (unknown names are dropped).
    pub fn attribute_hull(&self, attributes: &Vec<String>) -> (r: LabelSet)
        requires
            self.wf(),
        ensures
            r.index_set() == self.ctx().attribute_hull(name_indices(self.ctx().attributes, label_views(attributes@))),
            r.names() == self.ctx().attributes,
    {
        let bits = names_to_bits(attributes, self.inner.attributes());
        LabelSet::new(self.inner.index_attribute_hull(&bits), copy_labels(self.inner.attributes()))
    }

    /// The closure of the objects named (unknown names are dropped).
    pub fn object_hull(&self, objects: &Vec<String>) -> (r: LabelSet)
        requires
            self.wf(),
        ensures
            r.index_set() == self.ctx().object_hull(name_indices(self.ctx().objects, label_views(objects@))),
            r.names() == self.ctx().objects,
    {
        let bits = names_to_bits(objects, self.inner.objects());
        LabelSet::new(self.inner.index_object_hull(&bits), copy_labels(self.inner.objects()))
    }

    /// The extent of an upper neighbour of the concept generated by the
    /// objects named (see [`FormalContext::index_upper_neighbor`]).
    pub fn upper_neighbor(&self, extent: &Vec<String>) -> (r: LabelSet)
        requires
            self.wf(),
        ensures
            ({
                let c = self.ctx();
                let a = c.object_hull(name_indices(c.objects, label_views(extent@)));
                &&& r.names() == c.objects
                &&& a == below(c.n_obj()) ==> r.index_set() == a
                &&& a != below(c.n_obj()) ==> exists|g: usize| {
                    &&& g < c.n_obj()
                    &&& !a.contains(g)
                    &&& r.index_set() == c.step_up(a, g)
                    &&& c.is_upper_cover(a, r.index_set())
                    &&& forall|h: usize| h < g && !a.contains(h) ==> !c.is_upper_cover(a, #[trigger] c.step_up(a, h))
                }
            }),
    {
        let bits = names_to_bits(extent, self.inner.objects());
        LabelSet::new(self.inner.index_upper_neighbor(&bits), copy_labels(self.inner.objects()))
    }

    /// The canonical basis of the context's implications.
    pub fn canonical_basis(&self) -> (r: ImplicationList)
        requires
            self.wf(),
        ensures
            is_canonical_basis(self.ctx(), r.pairs()),
            r.attribute_names() == self.ctx().attributes,
    {
        ImplicationList::new(self.inner.index_canonical_basis(), copy_labels(self.inner.attributes()))
    }

    /// The canonical basis, by [`FormalContext::index_canonical_basis_optimised`].
    pub fn canonical_basis_optimised(&self) -> (r: ImplicationList)
        requires
            self.wf(),
        ensures
            is_canonical_basis(self.ctx(), r.pairs()),
            r.attribute_names() == self.ctx().attributes,
    {
        ImplicationList::new(self.inner.index_canonical_basis_optimised(), copy_labels(self.inner.attributes()))
    }

    /// The canonical basis, handed out lazily; while the generator lives, changes are refused.
    pub fn canonical_basis_lazy(&mut self) -> (r: ImplicationGenerator)
        requires
            old(self).wf(),
        ensures
            final(self).wf(),
            is_canonical_basis(old(self).ctx(), r.pairs()),
            r.attribute_names() == old(self).ctx().attributes,
            r.position() == 0,
            r.generation() == old(self).generation(),
            final(self).ctx() == old(self).ctx(),
            final(self).generation() == old(self).generation(),
            final(self).live_lazy() == if old(self).live_lazy() == u32::MAX { 0 } else { (old(self).live_lazy() + 1) as u32 },
    {
        let data = self.inner.index_canonical_basis();
        self.register_lazy();
        ImplicationGenerator::new(data, copy_labels(self.inner.attributes()), self.mutation_gen)
    }

    /// The optimised canonical basis, handed out lazily.
    pub fn canonical_basis_optimised_lazy(&mut self) -> (r: ImplicationGenerator)
        requires
            old(self).wf(),
        ensures
            final(self).wf(),
            is_canonical_basis(old(self).ctx(), r.pairs()),
            r.attribute_names() == old(self).ctx().attributes,
            r.position() == 0,
            r.generation() == old(self).generation(),
            final(self).ctx() == old(self).ctx(),
            final(self).generation() == old(self).generation(),
            final(self).live_lazy() == if old(self).live_lazy() == u32::MAX { 0 } else { (old(self).live_lazy() + 1) as u32 },
    {
        let data = self.inner.index_canonical_basis_optimised();
        self.register_lazy();
        ImplicationGenerator::new(data, copy_labels(self.inner.attributes()), self.mutation_gen)
    }

    /// The lectically next set of attributes after the one named by `current`
    /// (unknown names dropped) that respects the implications `imps`, whose
    /// indices are first cut down to the existing attributes.
    pub fn next_preclosure(&self, imps: &Vec<(BitSet, BitSet)>, current: &Vec<String>) -> (r: LabelSet)
        requires
            self.wf(),
        ensures
            ({
                let c = self.ctx();
                let cur = name_indices(c.attributes, label_views(current@));
                let l = restrict_imps(pair_sets(imps@), c.n_attr());
                &&& r.names() == c.attributes
                &&& cur == below(c.n_attr()) ==> r.index_set() == cur
                &&& cur != below(c.n_attr()) ==> is_next_closed(r.index_set(), cur, l, c.n_attr())
            }),
    {
        let n = self.inner.n_attributes();
        let ghost l0 = pair_sets(imps@);
        let mut cut: Vec<(BitSet, BitSet)> = Vec::new();
        let mut i: usize = 0;
        while i < imps.len()
            invariant
                n == self.ctx().n_attr(),
                n < usize::MAX,
                l0 == pair_sets(imps@),
                i <= imps@.len(),
                cut@.len() == i,
                forall|k: int| 0 <= k < i ==> #[trigger] pair_sets(cut@)[k] == (l0[k].0.intersect(below(n as nat)), l0[k].1.intersect(below(n as nat))),
            decreases imps@.len() - i,
        {
            let ghost before = cut@;
            cut.push((bs_restrict(&imps[i].0, n), bs_restrict(&imps[i].1, n)));
            proof {
                assert forall|k: int| 0 <= k < i + 1 implies #[trigger] pair_sets(cut@)[k] == (l0[k].0.intersect(below(n as nat)), l0[k].1.intersect(below(n as nat))) by {
                    if k < i {
                        assert(cut@[k] == before[k]);
                        assert(pair_sets(cut@)[k] == pair_sets(before)[k]);
                    }
                }
            }
            i = i + 1;
        }
        proof {
            assert(pair_sets(cut@) =~= restrict_imps(l0, n as nat));
        }
        let cur = names_to_bits(current, self.inner.attributes());
        LabelSet::new(self.inner.index_next_preclosure(&cut, &cur), copy_labels(self.inner.attributes()))
    }
}


impl PyFormalContext {
    /// Starts an attribute exploration of this context.
    pub fn exploration_start(&self) -> (r: AttributeExploration)
        requires
            self.wf(),
        ensures
            r.wf(self.ctx().n_attr()),
            r.accepted() == Seq::<(Set<usize>, Set<usize>)>::empty(),
            r.current_set() == Set::<usize>::empty(),
            basis_before(self.ctx(), r.accepted(), r.current_set()),
    {
        AttributeExploration::start(&self.inner)
    }

    /// The exploration's next question (see [`AttributeExploration::question`]).
    pub fn exploration_question(&self, ex: &mut AttributeExploration) -> (r: ExplorationStep)
        requires
            self.wf(),
            old(ex).wf(self.ctx().n_attr()),
        ensures
            final(ex).wf(self.ctx().n_attr()),
            final(ex).accepted() == old(ex).accepted(),
            lectic_le(old(ex).current_set(), final(ex).current_set()),
            forall|x: Set<usize>| #![trigger respects(x, old(ex).accepted()), lectic_lt(x, final(ex).current_set())]
                x.subset_of(below(self.ctx().n_attr())) && lectic_le(old(ex).current_set(), x) && lectic_lt(x, final(ex).current_set())
                && respects(x, old(ex).accepted()) ==> self.ctx().attribute_hull(x) == x,
            match r {
                ExplorationStep::Ask(p, c) => {
                    &&& members(p) == final(ex).current_set()
                    &&& members(c) == self.ctx().attribute_hull(final(ex).current_set())
                    &&& members(p) != members(c)
                },
                ExplorationStep::Done => {
                    &&& final(ex).current_set() == below(self.ctx().n_attr())
                    &&& self.ctx().attribute_hull(final(ex).current_set()) == final(ex).current_set()
                },
            },
            basis_before(self.ctx(), old(ex).accepted(), old(ex).current_set()) ==> basis_before(self.ctx(), final(ex).accepted(), final(ex).current_set()),
    {
        ex.question(&self.inner)
    }

    /// Accepts the implication just asked about.
    pub fn exploration_accept(&self, ex: &mut AttributeExploration)
        requires
            self.wf(),
            old(ex).wf(self.ctx().n_attr()),
            old(ex).current_set() != self.ctx().attribute_hull(old(ex).current_set()),
        ensures
            final(ex).wf(self.ctx().n_attr()),
            final(ex).accepted() == old(ex).accepted().push((old(ex).current_set(), self.ctx().attribute_hull(old(ex).current_set()))),
            is_next_closed(final(ex).current_set(), old(ex).current_set(), final(ex).accepted(), self.ctx().n_attr()),
            basis_before(self.ctx(), old(ex).accepted(), old(ex).current_set()) ==> basis_before(self.ctx(), final(ex).accepted(), final(ex).current_set()),
    {
        ex.accept(&self.inner)
    }

    /// Rejects the implication just asked about with a counterexample: an
    /// object `name` having the attributes named (unknown names are dropped).
    /// Adding it is a change, refused while lazy generators are alive.
    pub fn exploration_reject(&mut self, ex: &AttributeExploration, name: String, attributes: &Vec<String>) -> (r: Result<(), FcaError>)
        requires
            old(self).wf(),
            old(self).ctx().n_obj() + 1 < usize::MAX,
            ex.wf(old(self).ctx().n_attr()),
        ensures
            final(self).wf(),
            final(self).ctx().n_attr() == old(self).ctx().n_attr(),
            final(self).live_lazy() == old(self).live_lazy(),
            ex.wf(final(self).ctx().n_attr()),
            old(self).live_lazy() > 0 ==> refused_during_lazy(*old(self), *final(self), r),
            old(self).live_lazy() == 0 ==> {
                &&& r is Ok
                &&& final(self).ctx() == old(self).ctx().with_object(name@, name_indices(old(self).ctx().attributes, label_views(attributes@)))
                &&& final(self).generation() == old(self).generation()
            },
            ({
                let b = name_indices(old(self).ctx().attributes, label_views(attributes@));
                basis_before(old(self).ctx(), ex.accepted(), ex.current_set()) && respects(b.intersect(below(old(self).ctx().n_attr())), ex.accepted())
                    ==> basis_before(final(self).ctx(), ex.accepted(), ex.current_set())
            }),
    {
        if self.active_lazy > 0 {
            return self.guard_mutation();
        }
        let bits = names_to_bits(attributes, self.inner.attributes());
        self.inner.add_counterexample(name, &bits);
        proof {
            let b = name_indices(old(self).ctx().attributes, label_views(attributes@));
            if basis_before(old(self).ctx(), ex.accepted(), ex.current_set()) && respects(b.intersect(below(old(self).ctx().n_attr())), ex.accepted()) {
                lemma_basis_survives_counterexample(old(self).ctx(), ex.accepted(), ex.current_set(), name@, b);
            }
        }
        Ok(())
    }

    /// Ends an exploration: the generation moves on (the context may have
    /// gained objects) and the accepted implications are handed back.
    pub fn exploration_finish(&mut self, ex: AttributeExploration) -> (r: ImplicationList)
        requires
            old(self).wf(),
        ensures
            final(self).wf(),
            final(self).ctx() == old(self).ctx(),
            final(self).generation() == next_gen(old(self).generation()),
            final(self).live_lazy() == old(self).live_lazy(),
            r.pairs() == ex.accepted(),
            r.attribute_names() == old(self).ctx().attributes,
    {
        self.refresh();
        let basis = copy_pairs(ex.basis());
        ImplicationList::new(basis, copy_labels(self.inner.attributes()))
    }
}


impl PyFormalContext {
    /// Reads a context from its Burmeister (`.cxt`) text.
    pub fn from_cxt(text: &Vec<char>) -> (r: Result<Self, CxtError>)
        ensures
            match parse_cxt(text@) {
                Ok(c) => r matches Ok(p) && p.wf() && p.ctx() == c && p.generation() == 0 && p.live_lazy() == 0,
                Err(CxtError::ParseError) => r matches Err(CxtError::ParseError),
                Err(CxtError::InvalidFormat) => r matches Err(CxtError::InvalidFormat),
            },
    {
        match FormalContext::from_cxt(text) {
            Ok(inner) => Ok(PyFormalContext::wrap(inner)),
            Err(e) => Err(e),
        }
    }

    /// The Burmeister (`.cxt`) text of the context.
    pub fn to_cxt(&self) -> (r: Vec<char>)
        requires
            self.wf(),
        ensures
            r@ == cxt_text(self.ctx()),
    {
        self.inner.to_cxt()
    }
}


impl PyFormalContext {
    /// What a drawing of the context starts from: an unknown layout algorithm
    /// is refused first; a context without objects or without attributes has
    /// nothing to draw; any other gets the lattice diagram that a layout places.
    pub fn drawing_plan(&self, algorithm: &String) -> (r: Result<Option<LatticeDiagram>, FcaError>)
        requires
            self.wf(),
        ensures
            !known_algorithm(algorithm@, true) ==> (r matches Err(FcaError::UnknownAlgorithm(a)) && a@ == algorithm@),
            known_algorithm(algorithm@, true) && (self.ctx().n_obj() == 0 || self.ctx().n_attr() == 0) ==> r matches Ok(None),
            known_algorithm(algorithm@, true) && self.ctx().n_obj() > 0 && self.ctx().n_attr() > 0 ==> (r matches Ok(Some(d)) && d.describes(self.ctx())),
    {
        match check_algorithm(algorithm, true) {
            Err(e) => Err(e),
            Ok(()) => {
                if self.inner.n_objects() == 0 || self.inner.n_attributes() == 0 {
                    Ok(None)
                } else {
                    Ok(Some(self.inner.lattice_diagram()))
                }
            },
        }
    }
}

} // verus!
