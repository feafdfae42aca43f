//! A formal context: objects, attributes and the incidence relation between
//! them, held as one bit set of attribute indices per object.
use vstd::prelude::*;
use bit_set::BitSet;
use crate::bitset::{members, below, bs_new, bs_below, bs_iter, bs_clone, bs_contains, bs_insert, bs_remove, bs_intersect_with, bs_is_subset, bs_restrict};
use crate::names::{label_views, copy_labels};

verus! {

/// The mathematical content of a formal context.
pub struct ContextView {
    pub name: Seq<char>,
    pub objects: Seq<Seq<char>>,
    pub attributes: Seq<Seq<char>>,
    /// For each object, the indices of the attributes it has.
    pub rows: Seq<Set<usize>>,
}

impl ContextView {
    pub open spec fn n_obj(self) -> nat {
        self.objects.len()
    }

    pub open spec fn n_attr(self) -> nat {
        self.attributes.len()
    }

    /// Whether object `g` has attribute `m`.
    pub open spec fn incident(self, g: usize, m: usize) -> bool {
        g < self.n_obj() && self.rows[g as int].contains(m)
    }

    /// The attributes shared by all objects of `objs` (the derivation `objs'`).
    pub open spec fn intent_of(self, objs: Set<usize>) -> Set<usize> {
        Set::new(|m: usize| m < self.n_attr() && forall|g: usize| #[trigger] objs.contains(g) ==> self.incident(g, m))
    }

    /// The objects having all attributes of `attrs` (the derivation `attrs'`).
    pub open spec fn extent_of(self, attrs: Set<usize>) -> Set<usize> {
        Set::new(|g: usize| g < self.n_obj() && forall|m: usize| #[trigger] attrs.contains(m) ==> self.incident(g, m))
    }

    /// The closure `attrs''` of a set of attributes.
    pub open spec fn attribute_hull(self, attrs: Set<usize>) -> Set<usize> {
        self.intent_of(self.extent_of(attrs))
    }

    /// The closure `objs''` of a set of objects.
    pub open spec fn object_hull(self, objs: Set<usize>) -> Set<usize> {
        self.extent_of(self.intent_of(objs))
    }

    /// `(extent, intent)` is a formal concept of the context.
    pub open spec fn is_concept(self, extent: Set<usize>, intent: Set<usize>) -> bool {
        extent == self.extent_of(intent) && intent == self.intent_of(extent)
    }

    /// A set of attributes that is its own closure.
    pub open spec fn is_intent(self, attrs: Set<usize>) -> bool {
        attrs.subset_of(below(self.n_attr())) && self.attribute_hull(attrs) == attrs
    }

    /// The context with the cross of object `g` and attribute `m` set to `value`.
    pub open spec fn with_cross(self, g: usize, m: usize, value: bool) -> ContextView {
        ContextView {
            rows: self.rows.update(g as int, if value { self.rows[g as int].insert(m) } else { self.rows[g as int].remove(m) }),
            ..self
        }
    }

    /// The context with a new last attribute `name`, held by the objects of `objs`.
    pub open spec fn with_attribute(self, name: Seq<char>, objs: Set<usize>) -> ContextView {
        ContextView {
            attributes: self.attributes.push(name),
            rows: rows_with_attribute(self.rows, objs, self.n_attr() as usize),
            ..self
        }
    }

    /// The context with a new last object `name`, having the attributes of
    /// `attrs` that exist.
    pub open spec fn with_object(self, name: Seq<char>, attrs: Set<usize>) -> ContextView {
        ContextView {
            objects: self.objects.push(name),
            rows: self.rows.push(attrs.intersect(below(self.n_attr()))),
            ..self
        }
    }

    /// The context without object `g`.
    pub open spec fn without_object(self, g: usize) -> ContextView {
        ContextView {
            objects: self.objects.remove(g as int),
            rows: self.rows.remove(g as int),
            ..self
        }
    }

    /// The context without attribute `m`.
    pub open spec fn without_attribute(self, m: usize) -> ContextView {
        ContextView {
            attributes: self.attributes.remove(m as int),
            rows: self.rows.map_values(|r: Set<usize>| shift_out(r, m)),
            ..self
        }
    }

    pub open spec fn wf(self) -> bool {
        &&& self.rows.len() == self.objects.len()
        &&& self.n_obj() < usize::MAX
        &&& self.n_attr() < usize::MAX
        &&& forall|g: int| 0 <= g < self.rows.len() ==> #[trigger] self.rows[g].subset_of(below(self.n_attr()))
    }
}

/// The two derivations form a Galois connection: a set of objects lies within
/// the extent of a set of attributes exactly when those attributes lie within
/// the intent of the objects.
pub proof fn law_galois_connection(c: ContextView, objs: Set<usize>, attrs: Set<usize>)
    requires
        objs.subset_of(below(c.n_obj())),
        attrs.subset_of(below(c.n_attr())),
    ensures
        objs.subset_of(c.extent_of(attrs)) <==> attrs.subset_of(c.intent_of(objs)),
{
    if objs.subset_of(c.extent_of(attrs)) {
        assert forall|m: usize| attrs.contains(m) implies #[trigger] c.intent_of(objs).contains(m) by {
            assert forall|g: usize| #[trigger] objs.contains(g) implies c.incident(g, m) by {
                assert(c.extent_of(attrs).contains(g));
            }
        }
    }
    if attrs.subset_of(c.intent_of(objs)) {
        assert forall|g: usize| objs.contains(g) implies #[trigger] c.extent_of(attrs).contains(g) by {
            assert forall|m: usize| #[trigger] attrs.contains(m) implies c.incident(g, m) by {
                assert(c.intent_of(objs).contains(m));
            }
        }
    }
}

/// More objects share fewer attributes.
pub proof fn law_intent_antitone(c: ContextView, a1: Set<usize>, a2: Set<usize>)
    requires
        a1.subset_of(a2),
    ensures
        c.intent_of(a2).subset_of(c.intent_of(a1)),
{
}

/// More attributes are shared by fewer objects.
pub proof fn law_extent_antitone(c: ContextView, b1: Set<usize>, b2: Set<usize>)
    requires
        b1.subset_of(b2),
    ensures
        c.extent_of(b2).subset_of(c.extent_of(b1)),
{
}

/// The attribute hull is extensive, monotone and idempotent: a closure operator.
pub proof fn law_attribute_hull_is_closure(c: ContextView, b1: Set<usize>, b2: Set<usize>)
    requires
        b1.subset_of(below(c.n_attr())),
        b1.subset_of(b2),
    ensures
        b1.subset_of(c.attribute_hull(b1)),
        c.attribute_hull(b1).subset_of(c.attribute_hull(b2)),
        c.attribute_hull(c.attribute_hull(b1)) == c.attribute_hull(b1),
        c.attribute_hull(b1).subset_of(below(c.n_attr())),
{
    law_galois_connection(c, c.extent_of(b1), b1);
    lemma_intent_closed(c, c.extent_of(b1));
    law_extent_antitone(c, b1, b2);
    law_intent_antitone(c, c.extent_of(b2), c.extent_of(b1));
}

/// The object hull is extensive, monotone and idempotent: a closure operator.
pub proof fn law_object_hull_is_closure(c: ContextView, a1: Set<usize>, a2: Set<usize>)
    requires
        a1.subset_of(below(c.n_obj())),
        a1.subset_of(a2),
    ensures
        a1.subset_of(c.object_hull(a1)),
        c.object_hull(a1).subset_of(c.object_hull(a2)),
        c.object_hull(c.object_hull(a1)) == c.object_hull(a1),
        c.object_hull(a1).subset_of(below(c.n_obj())),
{
    law_galois_connection(c, a1, c.intent_of(a1));
    lemma_extent_closed(c, c.intent_of(a1));
    law_intent_antitone(c, a1, a2);
    law_extent_antitone(c, c.intent_of(a2), c.intent_of(a1));
}

/// Every derived set of attributes is closed.
pub proof fn lemma_intent_closed(c: ContextView, objs: Set<usize>)
    requires
        objs.subset_of(below(c.n_obj())),
    ensures
        c.attribute_hull(c.intent_of(objs)) == c.intent_of(objs),
        c.is_intent(c.intent_of(objs)),
{
    let b = c.intent_of(objs);
    law_galois_connection(c, objs, b);
    law_galois_connection(c, c.extent_of(b), b);
    assert(c.attribute_hull(b) =~= b);
}

/// Every derived set of objects is closed.
pub proof fn lemma_extent_closed(c: ContextView, attrs: Set<usize>)
    requires
        attrs.subset_of(below(c.n_attr())),
    ensures
        c.object_hull(c.extent_of(attrs)) == c.extent_of(attrs),
{
    let a = c.extent_of(attrs);
    law_galois_connection(c, a, attrs);
    law_galois_connection(c, a, c.intent_of(a));
    assert(c.object_hull(a) =~= a);
}

/// The attributes shared by two sets of objects are those each set shares.
pub proof fn lemma_intent_union(c: ContextView, a1: Set<usize>, a2: Set<usize>)
    ensures
        c.intent_of(a1.union(a2)) == c.intent_of(a1).intersect(c.intent_of(a2)),
{
    let l = c.intent_of(a1.union(a2));
    let r = c.intent_of(a1).intersect(c.intent_of(a2));
    assert forall|m: usize| l.contains(m) <==> r.contains(m) by {
        if r.contains(m) {
            assert(c.intent_of(a1).contains(m));
            assert(c.intent_of(a2).contains(m));
            assert forall|g: usize| #[trigger] a1.union(a2).contains(g) implies c.incident(g, m) by {
                if a1.contains(g) {
                } else {
                    assert(a2.contains(g));
                }
            }
        }
        if l.contains(m) {
            assert forall|g: usize| #[trigger] a1.contains(g) implies c.incident(g, m) by {
                assert(a1.union(a2).contains(g));
            }
            assert forall|g: usize| #[trigger] a2.contains(g) implies c.incident(g, m) by {
                assert(a1.union(a2).contains(g));
            }
        }
    }
    assert(l =~= r);
}

/// In a well-formed context an object's row is the intent of that object alone.
pub proof fn lemma_row_is_intent(c: ContextView, g: usize)
    requires
        c.wf(),
        g < c.n_obj(),
    ensures
        c.rows[g as int] == c.intent_of(set![g]),
{
    assert(c.rows[g as int].subset_of(below(c.n_attr())));
    assert forall|m: usize| c.rows[g as int].contains(m) <==> c.intent_of(set![g]).contains(m) by {
        if c.intent_of(set![g]).contains(m) {
            assert(set![g].contains(g));
            assert(c.incident(g, m));
        }
        if c.rows[g as int].contains(m) {
            assert(below(c.n_attr()).contains(m));
            assert forall|h: usize| #[trigger] set![g].contains(h) implies c.incident(h, m) by {
                assert(h == g);
            }
        }
    }
    assert(c.rows[g as int] =~= c.intent_of(set![g]));
}

/// Every intent, together with the objects having all its attributes, is a
/// formal concept.
pub proof fn law_intent_makes_concept(c: ContextView, b: Set<usize>)
    requires
        c.is_intent(b),
    ensures
        c.is_concept(c.extent_of(b), b),
{
}

/// Writing a cross and reading it back gives what was written, and no other
/// cross changes.
pub proof fn law_cross_write_read(c: ContextView, g: usize, m: usize, value: bool, h: usize, k: usize)
    requires
        c.wf(),
        g < c.n_obj(),
        m < c.n_attr(),
    ensures
        c.with_cross(g, m, value).incident(g, m) == value,
        (h != g || k != m) ==> c.with_cross(g, m, value).incident(h, k) == c.incident(h, k),
{
}

/// Removing the object just added gives back the context.
pub proof fn law_add_remove_object(c: ContextView, name: Seq<char>, attrs: Set<usize>)
    requires
        c.wf(),
    ensures
        c.with_object(name, attrs).without_object(c.n_obj() as usize) == c,
{
    let d = c.with_object(name, attrs).without_object(c.n_obj() as usize);
    assert(d.objects =~= c.objects);
    assert(d.rows =~= c.rows);
}

/// Removing the attribute just added gives back the context.
pub proof fn law_add_remove_attribute(c: ContextView, name: Seq<char>, objs: Set<usize>)
    requires
        c.wf(),
    ensures
        c.with_attribute(name, objs).without_attribute(c.n_attr() as usize) == c,
{
    let n = c.n_attr() as usize;
    let d = c.with_attribute(name, objs).without_attribute(n);
    assert(d.attributes =~= c.attributes);
    assert forall|g: int| 0 <= g < c.rows.len() implies #[trigger] d.rows[g] == c.rows[g] by {
        let r = c.rows[g];
        assert(r.subset_of(below(c.n_attr())));
        assert(d.rows[g] =~= r);
    }
    assert(d.rows =~= c.rows);
}

/// Adding an object leaves the crosses of the other objects as they were and
/// gives the new object exactly the attributes asked for that exist.
pub proof fn law_add_object_crosses(c: ContextView, name: Seq<char>, attrs: Set<usize>, h: usize, k: usize)
    requires
        c.wf(),
    ensures
        h < c.n_obj() ==> c.with_object(name, attrs).incident(h, k) == c.incident(h, k),
        c.with_object(name, attrs).incident(c.n_obj() as usize, k) == (attrs.contains(k) && k < c.n_attr()),
{
}

/// A formal context whose objects and attributes are named by strings.
pub struct FormalContext {
    name: String,
    objects: Vec<String>,
    attributes: Vec<String>,
    incidence: Vec<BitSet>,
}

/// The attribute sets of a list of rows.
pub open spec fn row_sets(v: Seq<BitSet>) -> Seq<Set<usize>> {
    v.map_values(|b: BitSet| members(b))
}

impl View for FormalContext {
    type V = ContextView;

    closed spec fn view(&self) -> ContextView {
        ContextView {
            name: self.name@,
            objects: label_views(self.objects@),
            attributes: label_views(self.attributes@),
            rows: row_sets(self.incidence@),
        }
    }
}

impl FormalContext {
    pub open spec fn wf(&self) -> bool {
        &&& self@.wf()
        &&& self.shape_ok()
    }

    /// One row per object.
    pub closed spec fn shape_ok(&self) -> bool {
        self.incidence@.len() == self.objects@.len()
    }

    /// The empty context, with no objects, no attributes and an empty name.
    pub fn new() -> (r: Self)
        ensures
            r.wf(),
            r@.name == Seq::<char>::empty(),
            r@.objects == Seq::<Seq<char>>::empty(),
            r@.attributes == Seq::<Seq<char>>::empty(),
            r@.rows == Seq::<Set<usize>>::empty(),
    {
        let r = FormalContext {
            name: String::new(),
            objects: Vec::new(),
            attributes: Vec::new(),
            incidence: Vec::new(),
        };
        assert(r@.objects =~= Seq::<Seq<char>>::empty());
        assert(r@.attributes =~= Seq::<Seq<char>>::empty());
        assert(r@.rows =~= Seq::<Set<usize>>::empty());
        r
    }

    /// The context's name.
    pub fn name(&self) -> (r: &String)
        ensures
            r@ == self@.name,
    {
        &self.name
    }

    /// Renames the context; nothing else changes.
    pub fn set_name(&mut self, name: String)
        requires
            old(self).wf(),
        ensures
            final(self).wf(),
            final(self)@ == (ContextView { name: name@, ..old(self)@ }),
    {
        self.name = name;
    }

    /// The object names, in order.
    pub fn objects(&self) -> (r: &Vec<String>)
        ensures
            label_views(r@) == self@.objects,
    {
        &self.objects
    }

    /// The attribute names, in order.
    pub fn attributes(&self) -> (r: &Vec<String>)
        ensures
            label_views(r@) == self@.attributes,
    {
        &self.attributes
    }

    pub fn n_objects(&self) -> (r: usize)
        ensures
            r == self@.n_obj(),
    {
        self.objects.len()
    }

    pub fn n_attributes(&self) -> (r: usize)
        ensures
            r == self@.n_attr(),
    {
        self.attributes.len()
    }

    /// The attributes of object `g`.
    pub fn row(&self, g: usize) -> (r: &BitSet)
        requires
            self.wf(),
            g < self@.n_obj(),
        ensures
            members(*r) == self@.rows[g as int],
    {
        &self.incidence[g]
    }

    /// Whether object `g` has attribute `m` (false for indices out of range).
    pub fn has_cross(&self, g: usize, m: usize) -> (r: bool)
        requires
            self.wf(),
        ensures
            r == self@.incident(g, m),
    {
        if g < self.incidence.len() {
            bs_contains(&self.incidence[g], m)
        } else {
            false
        }
    }

    /// The derivation of a set of objects: the attributes all of them share.
    pub fn index_intent(&self, objs: &BitSet) -> (r: BitSet)
        requires
            self.wf(),
        ensures
            members(r) == self@.intent_of(members(*objs)),
    {
        let n_attr = self.attributes.len();
        let n_obj = self.objects.len();
        let mut r = bs_below(n_attr);
        let items = bs_iter(objs);
        let mut k: usize = 0;
        while k < items.len()
            invariant
                self.wf(),
                n_attr == self@.n_attr(),
                n_obj == self@.n_obj(),
                k <= items@.len(),
                forall|m: usize| #[trigger] members(r).contains(m) <==> (m < n_attr && forall|j: int|
                    0 <= j < k ==> self@.incident(#[trigger] items@[j], m)),
            decreases items@.len() - k,
        {
            let g = items[k];
            if g < n_obj {
                bs_intersect_with(&mut r, &self.incidence[g]);
            } else {
                r = bs_new();
            }
            k = k + 1;
        }
        proof {
            let want = self@.intent_of(members(*objs));
            assert forall|m: usize| #[trigger] members(r).contains(m) <==> want.contains(m) by {
                if members(r).contains(m) {
                    assert forall|g: usize| #[trigger] members(*objs).contains(g) implies self@.incident(g, m) by {
                        assert(items@.to_set().contains(g));
                        let j = choose|j: int| 0 <= j < items@.len() && items@[j] == g;
                    }
                }
                if want.contains(m) {
                    assert forall|j: int| 0 <= j < items@.len() implies self@.incident(#[trigger] items@[j], m) by {
                        assert(items@.to_set().contains(items@[j]));
                    }
                }
            }
            assert(members(r) =~= want);
        }
        r
    }

    /// The derivation of a set of attributes: the objects having all of them.
    pub fn index_extent(&self, attrs: &BitSet) -> (r: BitSet)
        requires
            self.wf(),
        ensures
            members(r) == self@.extent_of(members(*attrs)),
    {
        let n_obj = self.objects.len();
        let mut r = bs_new();
        let mut g: usize = 0;
        while g < n_obj
            invariant
                self.wf(),
                n_obj == self@.n_obj(),
                g <= n_obj,
                forall|h: usize| #[trigger] members(r).contains(h) <==> (h < g && members(*attrs).subset_of(self@.rows[h as int])),
            decreases n_obj - g,
        {
            if bs_is_subset(attrs, &self.incidence[g]) {
                bs_insert(&mut r, g);
            }
            g = g + 1;
        }
        proof {
            let want = self@.extent_of(members(*attrs));
            assert forall|h: usize| #[trigger] members(r).contains(h) <==> want.contains(h) by {
                if want.contains(h) {
                    assert forall|m: usize| members(*attrs).contains(m) implies self@.rows[h as int].contains(m) by {
                        assert(self@.incident(h, m));
                    }
                }
            }
            assert(members(r) =~= want);
        }
        r
    }

    /// The closure `attrs''` of a set of attributes.
    pub fn index_attribute_hull(&self, attrs: &BitSet) -> (r: BitSet)
        requires
            self.wf(),
        ensures
            members(r) == self@.attribute_hull(members(*attrs)),
    {
        let e = self.index_extent(attrs);
        self.index_intent(&e)
    }

    /// The closure `objs''` of a set of objects.
    pub fn index_object_hull(&self, objs: &BitSet) -> (r: BitSet)
        requires
            self.wf(),
        ensures
            members(r) == self@.object_hull(members(*objs)),
    {
        let i = self.index_intent(objs);
        self.index_extent(&i)
    }
}


/// The row `r` after attribute `m` is taken out: indices above `m` move down by one.
pub open spec fn shift_out(r: Set<usize>, m: usize) -> Set<usize> {
    Set::new(|j: usize| if j < m { r.contains(j) } else { j + 1 < usize::MAX && r.contains((j + 1) as usize) })
}

/// The rows after a new attribute, index `new_attr`, is given to the objects of `objs`.
pub open spec fn rows_with_attribute(rows: Seq<Set<usize>>, objs: Set<usize>, new_attr: usize) -> Seq<Set<usize>> {
    Seq::new(rows.len(), |g: int| if objs.contains(g as usize) { rows[g].insert(new_attr) } else { rows[g] })
}

/// The row `r` of one object after one attribute is taken out, computed anew.
fn shifted_row(r: &BitSet, m: usize, n_attr: usize) -> (s: BitSet)
    requires
        m < n_attr < usize::MAX,
        members(*r).subset_of(below(n_attr as nat)),
    ensures
        members(s) == shift_out(members(*r), m),
        members(s).subset_of(below((n_attr - 1) as nat)),
{
    let mut s = bs_new();
    let mut t: usize = 0;
    while t < n_attr - 1
        invariant
            m < n_attr < usize::MAX,
            t <= n_attr - 1,
            members(s) == shift_out(members(*r), m).intersect(below(t as nat)),
        decreases n_attr - 1 - t,
    {
        let src = if t < m { t } else { t + 1 };
        if bs_contains(r, src) {
            bs_insert(&mut s, t);
        }
        t = t + 1;
        assert(members(s) =~= shift_out(members(*r), m).intersect(below(t as nat)));
    }
    assert(members(s) =~= shift_out(members(*r), m)) by {
        assert forall|j: usize| shift_out(members(*r), m).contains(j) implies j < n_attr - 1 by {
            if j >= m {
                assert(below(n_attr as nat).contains((j + 1) as usize));
            } else {
                assert(below(n_attr as nat).contains(j));
            }
        }
    }
    s
}

impl FormalContext {
    /// Sets or clears the cross of object `g` and attribute `m`.
    pub fn set_cross(&mut self, g: usize, m: usize, value: bool)
        requires
            old(self).wf(),
            g < old(self)@.n_obj(),
            m < old(self)@.n_attr(),
        ensures
            final(self).wf(),
            final(self)@ == old(self)@.with_cross(g, m, value),
    {
        let ghost before = self@;
        let mut row = bs_clone(&self.incidence[g]);
        if value {
            bs_insert(&mut row, m);
        } else {
            bs_remove(&mut row, m);
        }
        self.incidence.set(g, row);
        proof {
            assert(self@.rows =~= before.rows.update(g as int, members(row)));
            assert(before.rows[g as int].subset_of(below(before.n_attr())));
            assert forall|h: int| 0 <= h < self@.rows.len() implies #[trigger] self@.rows[h].subset_of(below(self@.n_attr())) by {
                if h != g {
                    assert(self@.rows[h] == before.rows[h]);
                }
            }
        }
    }

    /// Adds an attribute named `name`, held by the objects of `objs`.
    pub fn add_attribute(&mut self, name: String, objs: &BitSet)
        requires
            old(self).wf(),
            old(self)@.n_attr() + 1 < usize::MAX,
        ensures
            final(self).wf(),
            final(self)@ == old(self)@.with_attribute(name@, members(*objs)),
    {
        let ghost before = self@;
        let new_attr = self.attributes.len();
        let n_obj = self.objects.len();
        let mut g: usize = 0;
        while g < n_obj
            invariant
                self.shape_ok(),
                n_obj == self.incidence@.len(),
                self.objects@ == old(self).objects@,
                self.attributes@ == old(self).attributes@,
                self.name@ == old(self).name@,
                before == old(self)@,
                before.wf(),
                before.rows.len() == n_obj,
                new_attr == before.n_attr(),
                new_attr + 1 < usize::MAX,
                g <= n_obj,
                forall|h: int| 0 <= h < n_obj ==> #[trigger] members(self.incidence@[h]) == if h < g {
                    rows_with_attribute(before.rows, members(*objs), new_attr)[h]
                } else {
                    before.rows[h]
                },
            decreases n_obj - g,
        {
            proof { assert(members(self.incidence@[g as int]) == before.rows[g as int]); }
            if bs_contains(objs, g) {
                let mut row = bs_clone(&self.incidence[g]);
                bs_insert(&mut row, new_attr);
                self.incidence.set(g, row);
            }
            g = g + 1;
        }
        self.attributes.push(name);
        proof {
            let want = rows_with_attribute(before.rows, members(*objs), new_attr);
            assert(self@.rows =~= want);
            assert(self@.attributes =~= before.attributes.push(name@));
            assert(self@.objects =~= before.objects);
            assert forall|h: int| 0 <= h < self@.rows.len() implies #[trigger] self@.rows[h].subset_of(below(self@.n_attr())) by {
                assert(before.rows[h].subset_of(below(before.n_attr())));
            }
        }
    }

    /// Adds an object named `name` having the attributes of `attrs` (indices
    /// that name no attribute are left out).
    pub fn add_object(&mut self, name: String, attrs: &BitSet)
        requires
            old(self).wf(),
            old(self)@.n_obj() + 1 < usize::MAX,
        ensures
            final(self).wf(),
            final(self)@ == old(self)@.with_object(name@, members(*attrs)),
    {
        let ghost before = self@;
        let row = bs_restrict(attrs, self.attributes.len());
        self.objects.push(name);
        self.incidence.push(row);
        proof {
            assert(self@.objects =~= before.objects.push(name@));
            assert(self@.rows =~= before.rows.push(members(row)));
            assert forall|h: int| 0 <= h < self@.rows.len() implies #[trigger] self@.rows[h].subset_of(below(self@.n_attr())) by {
                if h < before.rows.len() {
                    assert(self@.rows[h] == before.rows[h]);
                }
            }
        }
    }

    /// Takes out object `g`; later objects move down by one.
    pub fn remove_object(&mut self, g: usize)
        requires
            old(self).wf(),
            g < old(self)@.n_obj(),
        ensures
            final(self).wf(),
            final(self)@ == old(self)@.without_object(g),
    {
        let ghost before = self@;
        self.objects.remove(g);
        self.incidence.remove(g);
        proof {
            assert(self@.objects =~= before.objects.remove(g as int));
            assert(self@.rows =~= before.rows.remove(g as int));
            assert forall|h: int| 0 <= h < self@.rows.len() implies #[trigger] self@.rows[h].subset_of(below(self@.n_attr())) by {
                if h < g {
                    assert(self@.rows[h] == before.rows[h]);
                } else {
                    assert(self@.rows[h] == before.rows[h + 1]);
                }
            }
        }
    }

    /// Takes out attribute `m`; later attributes move down by one in every row.
    pub fn remove_attribute(&mut self, m: usize)
        requires
            old(self).wf(),
            m < old(self)@.n_attr(),
        ensures
            final(self).wf(),
            final(self)@ == old(self)@.without_attribute(m),
    {
        let ghost before = self@;
        let n_attr = self.attributes.len();
        let n_obj = self.objects.len();
        let mut g: usize = 0;
        while g < n_obj
            invariant
                self.shape_ok(),
                n_obj == self.incidence@.len(),
                self.objects@ == old(self).objects@,
                self.attributes@ == old(self).attributes@,
                self.name@ == old(self).name@,
                before == old(self)@,
                before.wf(),
                n_attr == before.n_attr(),
                m < n_attr,
                g <= n_obj,
                forall|h: int| 0 <= h < n_obj ==> #[trigger] members(self.incidence@[h]) == if h < g {
                    shift_out(before.rows[h], m)
                } else {
                    before.rows[h]
                },
            decreases n_obj - g,
        {
            proof { assert(members(self.incidence@[g as int]) == before.rows[g as int]); }
            let row = shifted_row(&self.incidence[g], m, n_attr);
            self.incidence.set(g, row);
            g = g + 1;
        }
        self.attributes.remove(m);
        proof {
            assert(self@.rows =~= before.rows.map_values(|r: Set<usize>| shift_out(r, m)));
            assert(self@.attributes =~= before.attributes.remove(m as int));
            assert(self@.objects =~= before.objects);
            assert forall|h: int| 0 <= h < self@.rows.len() implies #[trigger] self@.rows[h].subset_of(below(self@.n_attr())) by {
                let r = before.rows[h];
                assert(r.subset_of(below(n_attr as nat)));
                assert forall|j: usize| shift_out(r, m).contains(j) implies j < n_attr - 1 by {
                    if j >= m {
                        assert(below(n_attr as nat).contains((j + 1) as usize));
                    } else {
                        assert(below(n_attr as nat).contains(j));
                    }
                }
            }
        }
    }

    /// Renames object `g`.
    pub fn change_object_name(&mut self, name: String, g: usize)
        requires
            old(self).wf(),
            g < old(self)@.n_obj(),
        ensures
            final(self).wf(),
            final(self)@ == (ContextView { objects: old(self)@.objects.update(g as int, name@), ..old(self)@ }),
    {
        let ghost before = self@;
        let ghost nv = name@;
        self.objects.set(g, name);
        proof {
            assert(self@.objects =~= before.objects.update(g as int, nv));
        }
    }

    /// Renames attribute `m`.
    pub fn change_attribute_name(&mut self, name: String, m: usize)
        requires
            old(self).wf(),
            m < old(self)@.n_attr(),
        ensures
            final(self).wf(),
            final(self)@ == (ContextView { attributes: old(self)@.attributes.update(m as int, name@), ..old(self)@ }),
    {
        let ghost before = self@;
        let ghost nv = name@;
        self.attributes.set(m, name);
        proof {
            assert(self@.attributes =~= before.attributes.update(m as int, nv));
        }
    }

    /// A copy of the context.
    pub fn copy(&self) -> (r: Self)
        requires
            self.wf(),
        ensures
            r.wf(),
            r@ == self@,
    {
        let mut incidence: Vec<BitSet> = Vec::new();
        let mut g: usize = 0;
        while g < self.incidence.len()
            invariant
                g <= self.incidence@.len(),
                incidence@.len() == g,
                forall|h: int| 0 <= h < g ==> members(#[trigger] incidence@[h]) == members(self.incidence@[h]),
            decreases self.incidence@.len() - g,
        {
            incidence.push(bs_clone(&self.incidence[g]));
            g = g + 1;
        }
        let r = FormalContext {
            name: self.name.clone(),
            objects: copy_labels(&self.objects),
            attributes: copy_labels(&self.attributes),
            incidence,
        };
        proof {
            assert(r@.rows =~= self@.rows);
        }
        r
    }
}


impl FormalContext {
    /// A context from its parts: the name, the object and attribute names, and
    /// one row of attribute indices per object.
    pub fn from_parts(name: String, objects: Vec<String>, attributes: Vec<String>, incidence: Vec<BitSet>) -> (r: Self)
        requires
            incidence@.len() == objects@.len(),
            objects@.len() < usize::MAX,
            attributes@.len() < usize::MAX,
            forall|g: int| 0 <= g < incidence@.len() ==> members(#[trigger] incidence@[g]).subset_of(below(attributes@.len() as nat)),
        ensures
            r.wf(),
            r@ == (ContextView {
                name: name@,
                objects: label_views(objects@),
                attributes: label_views(attributes@),
                rows: row_sets(incidence@),
            }),
    {
        let r = FormalContext { name, objects, attributes, incidence };
        proof {
            assert forall|g: int| 0 <= g < r@.rows.len() implies #[trigger] r@.rows[g].subset_of(below(r@.n_attr())) by {
                assert(r@.rows[g] == members(r.incidence@[g]));
            }
        }
        r
    }
}

} // verus!
