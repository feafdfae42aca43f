//! A set of labels: a bit set of indices into a list of names.
use vstd::prelude::*;
use bit_set::BitSet;
use crate::bitset::{members, below, bs_clone, bs_contains, bs_len, bs_iter};
use crate::names::{label_views, first_index_of, position_of, copy_labels};
use crate::cxt::string_chars;

verus! {

/// The labels of the indices `idx`, in that order.
pub open spec fn labels_at(labels: Seq<Seq<char>>, idx: Seq<usize>) -> Seq<Seq<char>> {
    idx.map_values(|i: usize| labels[i as int])
}

/// `a` comes no later than `b` in the order of strings: character by
/// character, a proper prefix first.
pub open spec fn label_le(a: Seq<char>, b: Seq<char>) -> bool
    decreases a.len(),
{
    if a.len() == 0 {
        true
    } else if b.len() == 0 {
        false
    } else if a[0] != b[0] {
        (a[0] as int) < (b[0] as int)
    } else {
        label_le(a.drop_first(), b.drop_first())
    }
}

/// The labels never decrease in the order of strings.
pub open spec fn labels_sorted(s: Seq<Seq<char>>) -> bool {
    forall|i: int, j: int| 0 <= i < j < s.len() ==> label_le(#[trigger] s[i], #[trigger] s[j])
}

/// Of two strings one comes no later than the other.
proof fn lemma_label_le_total(a: Seq<char>, b: Seq<char>)
    ensures
        label_le(a, b) || label_le(b, a),
    decreases a.len(),
{
    if a.len() > 0 && b.len() > 0 && a[0] == b[0] {
        lemma_label_le_total(a.drop_first(), b.drop_first());
    }
}

/// The order of strings is transitive.
proof fn lemma_label_le_transitive(a: Seq<char>, b: Seq<char>, c: Seq<char>)
    requires
        label_le(a, b),
        label_le(b, c),
    ensures
        label_le(a, c),
    decreases a.len(),
{
    if a.len() > 0 && b.len() > 0 && c.len() > 0 && a[0] == b[0] && b[0] == c[0] {
        lemma_label_le_transitive(a.drop_first(), b.drop_first(), c.drop_first());
    }
}

/// Whether `a` comes no later than `b` in the order of strings.
pub fn label_le_exec(a: &String, b: &String) -> (r: bool)
    ensures
        r == label_le(a@, b@),
{
    let x = string_chars(a);
    let y = string_chars(b);
    let mut i: usize = 0;
    proof {
        assert(x@.skip(0) =~= x@);
        assert(y@.skip(0) =~= y@);
    }
    while i < x.len() && i < y.len() && x[i] == y[i]
        invariant
            i <= x@.len(),
            i <= y@.len(),
            x@ == a@,
            y@ == b@,
            x@.take(i as int) == y@.take(i as int),
            label_le(a@, b@) == label_le(x@.skip(i as int), y@.skip(i as int)),
        decreases x@.len() - i,
    {
        proof {
            let xs = x@.skip(i as int);
            let ys = y@.skip(i as int);
            assert(xs.drop_first() =~= x@.skip(i + 1));
            assert(ys.drop_first() =~= y@.skip(i + 1));
            assert(x@.take(i + 1) =~= x@.take(i as int).push(x@[i as int]));
            assert(y@.take(i + 1) =~= y@.take(i as int).push(y@[i as int]));
        }
        i = i + 1;
    }
    proof {
        assert(x@.skip(0) =~= x@);
        assert(y@.skip(0) =~= y@);
    }
    if i == x.len() {
        true
    } else if i == y.len() {
        false
    } else {
        proof {
            assert(x@.skip(i as int)[0] == x@[i as int]);
            assert(y@.skip(i as int)[0] == y@[i as int]);
        }
        x[i] < y[i]
    }
}

/// The strings of `v` in the order of strings, each kept as often as it occurs.
pub fn sort_labels(v: Vec<String>) -> (r: Vec<String>)
    ensures
        label_views(r@).to_multiset() == label_views(v@).to_multiset(),
        labels_sorted(label_views(r@)),
{
    broadcast use vstd::seq_lib::group_to_multiset_ensures;

    let mut r: Vec<String> = Vec::new();
    let mut k: usize = 0;
    while k < v.len()
        invariant
            k <= v@.len(),
            label_views(r@).to_multiset() == label_views(v@).take(k as int).to_multiset(),
            labels_sorted(label_views(r@)),
        decreases v@.len() - k,
    {
        let ghost x = v@[k as int]@;
        let mut p: usize = 0;
        while p < r.len()
            invariant
                p <= r@.len(),
                x == v@[k as int]@,
                k < v@.len(),
                forall|q: int| 0 <= q < p ==> label_le((#[trigger] r@[q])@, x),
            ensures
                p <= r@.len(),
                forall|q: int| 0 <= q < p ==> label_le((#[trigger] r@[q])@, x),
                p < r@.len() ==> !label_le(r@[p as int]@, x),
            decreases r@.len() - p,
        {
            if !label_le_exec(&r[p], &v[k]) {
                break;
            }
            p = p + 1;
        }
        let ghost old_r = label_views(r@);
        r.insert(p, v[k].clone());
        proof {
            let s = label_views(r@);
            assert(s =~= old_r.insert(p as int, x));
            assert(s.remove(p as int) =~= old_r);
            assert(s[p as int] == x);
            vstd::seq_lib::to_multiset_remove(s, p as int);
            s.to_multiset_ensures();
            assert(s.to_multiset().count(x) > 0) by {
                assert(s.contains(x));
            }
            assert(s.to_multiset() =~= old_r.to_multiset().insert(x)) by {
                broadcast use vstd::multiset::group_multiset_axioms;
                assert forall|y| #[trigger] s.to_multiset().count(y) == old_r.to_multiset().insert(x).count(y) by {
                    if y == x {
                        assert(s.to_multiset().remove(x).count(x) == s.to_multiset().count(x) - 1);
                    } else {
                        assert(s.to_multiset().remove(x).count(y) == s.to_multiset().count(y));
                    }
                }
            }
            assert(label_views(v@).take(k + 1) =~= label_views(v@).take(k as int).push(x));
            vstd::seq_lib::to_multiset_build(label_views(v@).take(k as int), x);
            if p < old_r.len() {
                lemma_label_le_total(old_r[p as int], x);
            }
            assert forall|i: int, j: int| 0 <= i < j < s.len() implies label_le(#[trigger] s[i], #[trigger] s[j]) by {
                if j < p {
                    assert(s[i] == old_r[i] && s[j] == old_r[j]);
                } else if j == p {
                    assert(s[i] == old_r[i]);
                    assert(old_r[i] == r@[i]@);
                } else if i == p {
                    assert(s[j] == old_r[j - 1]);
                    if j - 1 > p {
                        lemma_label_le_transitive(x, old_r[p as int], old_r[j - 1]);
                    }
                } else if i < p {
                    assert(s[i] == old_r[i] && s[j] == old_r[j - 1]);
                } else {
                    assert(s[i] == old_r[i - 1] && s[j] == old_r[j - 1]);
                }
            }
        }
        k = k + 1;
    }
    proof {
        assert(label_views(v@).take(v@.len() as int) =~= label_views(v@));
    }
    r
}

/// `idx` lists the members of `s` in increasing order.
pub open spec fn ascending_listing(idx: Seq<usize>, s: Set<usize>) -> bool {
    &&& idx.to_set() == s
    &&& forall|i: int, j: int| 0 <= i < j < idx.len() ==> idx[i] < idx[j]
}

/// A set of labels: the indices of `bits`, named by `labels`.
pub struct LabelSet {
    bits: BitSet,
    labels: Vec<String>,
}

impl LabelSet {
    pub closed spec fn index_set(&self) -> Set<usize> {
        members(self.bits)
    }

    pub closed spec fn names(&self) -> Seq<Seq<char>> {
        label_views(self.labels@)
    }

    /// Every index names a label.
    pub open spec fn wf(&self) -> bool {
        self.index_set().subset_of(below(self.names().len()))
    }

    /// The labels the set holds.
    pub open spec fn label_set(&self) -> Set<Seq<char>> {
        self.index_set().map(|i: usize| self.names()[i as int])
    }

    pub fn new(bits: BitSet, labels: Vec<String>) -> (r: Self)
        ensures
            r.index_set() == members(bits),
            r.names() == label_views(labels@),
    {
        LabelSet { bits, labels }
    }

    /// The indices held.
    pub fn bits(&self) -> (r: &BitSet)
        ensures
            members(*r) == self.index_set(),
    {
        &self.bits
    }

    /// The names the indices refer to.
    pub fn labels(&self) -> (r: &Vec<String>)
        ensures
            label_views(r@) == self.names(),
    {
        &self.labels
    }

    pub fn copy(&self) -> (r: Self)
        ensures
            r.index_set() == self.index_set(),
            r.names() == self.names(),
    {
        LabelSet { bits: bs_clone(&self.bits), labels: copy_labels(&self.labels) }
    }

    /// Whether the label `name` is held: its first position among the names
    /// is one of the indices.
    pub fn contains(&self, name: &String) -> (r: bool)
        ensures
            r == match first_index_of(self.names(), name@) {
                Some(i) => self.index_set().contains(i as usize),
                None => false,
            },
    {
        match position_of(&self.labels, name) {
            Some(i) => bs_contains(&self.bits, i),
            None => false,
        }
    }

    /// How many indices are held.
    pub fn len(&self) -> (r: usize)
        ensures
            r == self.index_set().len(),
    {
        bs_len(&self.bits)
    }

    /// The labels held, in the order of strings (a label held at several
    /// indices occurs as often).
    pub fn to_vec(&self) -> (r: Vec<String>)
        requires
            self.wf(),
        ensures
            exists|idx: Seq<usize>| ascending_listing(idx, self.index_set()) && label_views(r@).to_multiset() == labels_at(self.names(), idx).to_multiset(),
            labels_sorted(label_views(r@)),
    {
        let v = self.labels_by_index();
        let r = sort_labels(v);
        proof {
            let idx = choose|idx: Seq<usize>| ascending_listing(idx, self.index_set()) && label_views(v@) == labels_at(self.names(), idx);
            assert(ascending_listing(idx, self.index_set()) && label_views(r@).to_multiset() == labels_at(self.names(), idx).to_multiset());
        }
        r
    }

    /// The labels held, by increasing index.
    fn labels_by_index(&self) -> (r: Vec<String>)
        requires
            self.wf(),
        ensures
            exists|idx: Seq<usize>| ascending_listing(idx, self.index_set()) && label_views(r@) == labels_at(self.names(), idx),
    {
        let idx = bs_iter(&self.bits);
        let mut r: Vec<String> = Vec::new();
        let mut k: usize = 0;
        while k < idx.len()
            invariant
                self.wf(),
                idx@.to_set() == self.index_set(),
                k <= idx@.len(),
                r@.len() == k,
                forall|j: int| 0 <= j < k ==> (#[trigger] r@[j])@ == self.names()[idx@[j] as int],
            decreases idx@.len() - k,
        {
            let i = idx[k];
            proof {
                assert(idx@.to_set().contains(i));
                assert(self.labels@.len() == self.names().len());
            }
            r.push(self.labels[i].clone());
            k = k + 1;
        }
        proof {
            assert(label_views(r@) =~= labels_at(self.names(), idx@));
        }
        r
    }

    /// Whether `name` equals one of the labels this set holds (checking every
    /// held index, not only the first position of the name).
    pub fn holds_label(&self, name: &String) -> (r: bool)
        requires
            self.wf(),
        ensures
            r == self.label_set().contains(name@),
    {
        let idx = bs_iter(&self.bits);
        let mut k: usize = 0;
        while k < idx.len()
            invariant
                self.wf(),
                idx@.to_set() == self.index_set(),
                k <= idx@.len(),
                forall|j: int| 0 <= j < k ==> self.names()[(#[trigger] idx@[j]) as int] != name@,
            decreases idx@.len() - k,
        {
            let i = idx[k];
            proof {
                assert(idx@.to_set().contains(i));
            }
            if self.labels[i] == *name {
                proof {
                    assert(self.index_set().contains(i));
                    assert(self.label_set().contains(self.names()[i as int]));
                }
                return true;
            }
            k = k + 1;
        }
        proof {
            if self.label_set().contains(name@) {
                let i = choose|i: usize| self.index_set().contains(i) && self.names()[i as int] == name@;
                assert(idx@.to_set().contains(i));
                let j = choose|j: int| 0 <= j < idx@.len() && idx@[j] == i;
            }
        }
        false
    }

    /// Two label sets are equal when they hold as many indices and the same
    /// labels, whatever lists of names they index.
    pub fn eq(&self, other: &LabelSet) -> (r: bool)
        requires
            self.wf(),
            other.wf(),
        ensures
            r == (self.index_set().len() == other.index_set().len() && self.label_set() == other.label_set()),
    {
        if self.len() != other.len() {
            return false;
        }
        let mine = bs_iter(&self.bits);
        let mut k: usize = 0;
        while k < mine.len()
            invariant
                self.wf(),
                other.wf(),
                mine@.to_set() == self.index_set(),
                k <= mine@.len(),
                forall|j: int| 0 <= j < k ==> other.label_set().contains(self.names()[(#[trigger] mine@[j]) as int]),
            decreases mine@.len() - k,
        {
            let i = mine[k];
            proof { assert(mine@.to_set().contains(i)); }
            if !other.holds_label(&self.labels[i]) {
                proof {
                    assert(self.label_set().contains(self.names()[i as int]));
                }
                return false;
            }
            k = k + 1;
        }
        let theirs = bs_iter(&other.bits);
        let mut k: usize = 0;
        while k < theirs.len()
            invariant
                self.wf(),
                other.wf(),
                theirs@.to_set() == other.index_set(),
                k <= theirs@.len(),
                forall|j: int| 0 <= j < k ==> self.label_set().contains(other.names()[(#[trigger] theirs@[j]) as int]),
            decreases theirs@.len() - k,
        {
            let i = theirs[k];
            proof { assert(theirs@.to_set().contains(i)); }
            if !self.holds_label(&other.labels[i]) {
                proof {
                    assert(other.label_set().contains(other.names()[i as int]));
                }
                return false;
            }
            k = k + 1;
        }
        proof {
            assert forall|x: Seq<char>| self.label_set().contains(x) <==> other.label_set().contains(x) by {
                if self.label_set().contains(x) {
                    let i = choose|i: usize| self.index_set().contains(i) && self.names()[i as int] == x;
                    assert(mine@.to_set().contains(i));
                    let j = choose|j: int| 0 <= j < mine@.len() && mine@[j] == i;
                }
                if other.label_set().contains(x) {
                    let i = choose|i: usize| other.index_set().contains(i) && other.names()[i as int] == x;
                    assert(theirs@.to_set().contains(i));
                    let j = choose|j: int| 0 <= j < theirs@.len() && theirs@[j] == i;
                }
            }
            assert(self.label_set() =~= other.label_set());
        }
        true
    }
}

/// Hands out the labels of a label set one at a time.
pub struct LabelSetIterator {
    data: Vec<String>,
    pos: usize,
}

impl LabelSetIterator {
    pub closed spec fn items(&self) -> Seq<Seq<char>> {
        label_views(self.data@)
    }

    pub closed spec fn position(&self) -> nat {
        self.pos as nat
    }

    /// An iterator over the labels of `set`, in the order of strings.
    pub fn new(set: &LabelSet) -> (r: Self)
        requires
            set.wf(),
        ensures
            r.position() == 0,
            exists|idx: Seq<usize>| ascending_listing(idx, set.index_set()) && r.items().to_multiset() == labels_at(set.names(), idx).to_multiset(),
            labels_sorted(r.items()),
    {
        LabelSetIterator { data: set.to_vec(), pos: 0 }
    }

    /// The next label, if any is left.
    pub fn next(&mut self) -> (r: Option<String>)
        ensures
            final(self).items() == old(self).items(),
            old(self).position() < old(self).items().len() ==> {
                &&& r matches Some(s) && s@ == old(self).items()[old(self).position() as int]
                &&& final(self).position() == old(self).position() + 1
            },
            old(self).position() >= old(self).items().len() ==> r is None && final(self).position() == old(self).position(),
    {
        if self.pos < self.data.len() {
            let s = self.data[self.pos].clone();
            self.pos = self.pos + 1;
            Some(s)
        } else {
            None
        }
    }
}

} // verus!
