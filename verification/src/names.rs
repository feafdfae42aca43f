//! Lists of labels: lookup by name and copying.
use vstd::prelude::*;
use bit_set::BitSet;
use crate::bitset::{members, below, bs_new, bs_insert};

verus! {

/// The text of each label.
pub open spec fn label_views(v: Seq<String>) -> Seq<Seq<char>> {
    v.map_values(|s: String| s@)
}

/// Where `name` first occurs in `names`, if anywhere.
pub open spec fn first_index_of(names: Seq<Seq<char>>, name: Seq<char>) -> Option<int> {
    if names.contains(name) {
        Some(choose|i: int|
            0 <= i < names.len() && names[i] == name && forall|j: int|
                0 <= j < i ==> names[j] != name)
    } else {
        None
    }
}

/// The position of the first occurrence of `name` in `names`.
pub fn position_of(names: &Vec<String>, name: &String) -> (r: Option<usize>)
    ensures
        match r {
            Some(i) => {
                &&& i < names@.len()
                &&& names@[i as int]@ == name@
                &&& forall|j: int| 0 <= j < i ==> names@[j]@ != name@
            },
            None => forall|j: int| 0 <= j < names@.len() ==> names@[j]@ != name@,
        },
        r matches Some(i) <==> label_views(names@).contains(name@),
        r matches Some(i) ==> first_index_of(label_views(names@), name@) == Some(i as int),
        r is None ==> first_index_of(label_views(names@), name@) is None,
{
    let mut i: usize = 0;
    while i < names.len()
        invariant
            i <= names@.len(),
            forall|j: int| 0 <= j < i ==> names@[j]@ != name@,
        decreases names@.len() - i,
    {
        if names[i] == *name {
            proof {
                let v = label_views(names@);
                assert(v[i as int] == name@);
                lemma_first_index_is(v, name@, i as int);
            }
            return Some(i);
        }
        i = i + 1;
    }
    proof {
        let v = label_views(names@);
        if v.contains(name@) {
            let k = choose|k: int| 0 <= k < v.len() && v[k] == name@;
            assert(names@[k]@ == name@);
        }
    }
    None
}

/// The first occurrence is where the name first appears.
pub proof fn lemma_first_index_is(names: Seq<Seq<char>>, name: Seq<char>, i: int)
    requires
        0 <= i < names.len(),
        names[i] == name,
        forall|j: int| 0 <= j < i ==> names[j] != name,
    ensures
        first_index_of(names, name) == Some(i),
{
    assert(names.contains(name));
    let k = choose|k: int|
        0 <= k < names.len() && names[k] == name && forall|j: int| 0 <= j < k ==> names[j] != name;
    assert(0 <= k < names.len() && names[k] == name && forall|j: int| 0 <= j < k ==> names[j] != name);
    if k < i {
        assert(names[k] != name);
    }
    if i < k {
        assert(names[i] != name);
    }
}

/// Whether `name` occurs in `names`.
pub fn contains_name(names: &Vec<String>, name: &String) -> (r: bool)
    ensures
        r == label_views(names@).contains(name@),
{
    position_of(names, name).is_some()
}

/// A copy of a list of labels.
pub fn copy_labels(names: &Vec<String>) -> (r: Vec<String>)
    ensures
        label_views(r@) == label_views(names@),
{
    let mut r: Vec<String> = Vec::new();
    let mut i: usize = 0;
    while i < names.len()
        invariant
            i <= names@.len(),
            r@.len() == i,
            forall|j: int| 0 <= j < i ==> r@[j]@ == names@[j]@,
        decreases names@.len() - i,
    {
        r.push(names[i].clone());
        i = i + 1;
    }
    assert(label_views(r@) =~= label_views(names@));
    r
}


/// `names` followed by those of `more` that it lacks, each once, in order of
/// first appearance.
pub open spec fn extend_names(names: Seq<Seq<char>>, more: Seq<Seq<char>>) -> Seq<Seq<char>>
    decreases more.len(),
{
    if more.len() == 0 {
        names
    } else {
        let e = extend_names(names, more.drop_last());
        if e.contains(more.last()) {
            e
        } else {
            e.push(more.last())
        }
    }
}

/// The positions (first occurrences) in `names` of the names of `wanted`
/// that occur there.
pub open spec fn name_indices(names: Seq<Seq<char>>, wanted: Seq<Seq<char>>) -> Set<usize> {
    Set::new(|i: usize| exists|k: int| 0 <= k < wanted.len() && first_index_of(names, #[trigger] wanted[k]) == Some(i as int))
}

/// The first occurrence of a name that occurs.
pub proof fn lemma_first_occurrence(names: Seq<Seq<char>>, y: Seq<char>, k: int) -> (i: int)
    requires
        0 <= k < names.len(),
        names[k] == y,
    ensures
        0 <= i <= k,
        names[i] == y,
        forall|j: int| 0 <= j < i ==> names[j] != y,
        first_index_of(names, y) == Some(i),
    decreases k,
{
    if exists|j: int| 0 <= j < k && names[j] == y {
        let j = choose|j: int| 0 <= j < k && names[j] == y;
        lemma_first_occurrence(names, y, j)
    } else {
        lemma_first_index_is(names, y, k);
        k
    }
}

/// Appending a name leaves the first occurrence of every name already present.
pub proof fn lemma_first_index_push(names: Seq<Seq<char>>, x: Seq<char>, y: Seq<char>)
    ensures
        names.contains(y) ==> first_index_of(names.push(x), y) == first_index_of(names, y),
        !names.contains(x) ==> first_index_of(names.push(x), x) == Some(names.len() as int),
        names.push(x).contains(y) <==> (names.contains(y) || y == x),
{
    let p = names.push(x);
    if names.contains(y) {
        let k = choose|k: int| 0 <= k < names.len() && names[k] == y;
        let i = lemma_first_occurrence(names, y, k);
        assert(p[i] == y);
        assert forall|j: int| 0 <= j < i implies p[j] != y by {
            assert(p[j] == names[j]);
        }
        lemma_first_index_is(p, y, i);
        assert(p.contains(y));
    }
    if !names.contains(x) {
        assert forall|j: int| 0 <= j < names.len() implies p[j] != x by {
            assert(p[j] == names[j]);
        }
        lemma_first_index_is(p, x, names.len() as int);
    }
    if p.contains(y) && !names.contains(y) {
        let i = choose|i: int| 0 <= i < p.len() && p[i] == y;
        if i < names.len() {
            assert(names[i] == y);
        }
    }
    if y == x {
        assert(p[names.len() as int] == y);
    }
}

/// Every name of `more` occurs in `extend_names(names, more)`, which begins with `names`.
pub proof fn lemma_extend_names(names: Seq<Seq<char>>, more: Seq<Seq<char>>)
    ensures
        forall|k: int| 0 <= k < more.len() ==> extend_names(names, more).contains(#[trigger] more[k]),
        extend_names(names, more).len() >= names.len(),
        forall|i: int| 0 <= i < names.len() ==> #[trigger] extend_names(names, more)[i] == names[i],
        extend_names(names, more).len() <= names.len() + more.len(),
    decreases more.len(),
{
    if more.len() > 0 {
        let m0 = more.drop_last();
        lemma_extend_names(names, m0);
        let e = extend_names(names, m0);
        assert forall|k: int| 0 <= k < more.len() implies extend_names(names, more).contains(#[trigger] more[k]) by {
            if k < more.len() - 1 {
                assert(m0[k] == more[k]);
                assert(e.contains(m0[k]));
                lemma_first_index_push(e, more.last(), more[k]);
            } else {
                lemma_first_index_push(e, more.last(), more.last());
            }
        }
    }
}

/// The indices in `labels` of the names of `names` that occur there (first
/// occurrences); the other names are left out.
pub fn names_to_bits(names: &Vec<String>, labels: &Vec<String>) -> (r: BitSet)
    requires
        labels@.len() < usize::MAX,
    ensures
        members(r) == name_indices(label_views(labels@), label_views(names@)),
        members(r).subset_of(below(labels@.len() as nat)),
{
    let ghost lv = label_views(labels@);
    let ghost nv = label_views(names@);
    let mut r = bs_new();
    let mut k: usize = 0;
    while k < names.len()
        invariant
            labels@.len() < usize::MAX,
            lv == label_views(labels@),
            nv == label_views(names@),
            k <= names@.len(),
            members(r) == name_indices(lv, nv.take(k as int)),
            members(r).subset_of(below(labels@.len() as nat)),
        decreases names@.len() - k,
    {
        let ghost before = members(r);
        match position_of(labels, &names[k]) {
            Some(i) => {
                bs_insert(&mut r, i);
            },
            None => {},
        }
        proof {
            let t = nv.take(k + 1);
            assert(t[k as int] == names@[k as int]@);
            assert forall|i: usize| members(r).contains(i) <==> name_indices(lv, t).contains(i) by {
                if name_indices(lv, t).contains(i) {
                    let q = choose|q: int| 0 <= q < t.len() && first_index_of(lv, #[trigger] t[q]) == Some(i as int);
                    if q < k {
                        assert(nv.take(k as int)[q] == t[q]);
                        assert(name_indices(lv, nv.take(k as int)).contains(i));
                    }
                }
                if before.contains(i) {
                    let q = choose|q: int| 0 <= q < k && first_index_of(lv, #[trigger] nv.take(k as int)[q]) == Some(i as int);
                    assert(t[q] == nv.take(k as int)[q]);
                }
            }
            assert(members(r) =~= name_indices(lv, t));
        }
        k = k + 1;
    }
    proof {
        assert(nv.take(names@.len() as int) =~= nv);
    }
    r
}

} // verus!
