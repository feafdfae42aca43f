use bit_set::BitSet;
use odis_fca::concept::{Concept, ConceptCollection, ConceptGenerator, ConceptPairIterator};
use odis_fca::errors::FcaError;
use odis_fca::implication::{Implication, ImplicationGenerator, ImplicationList, ImplicationPairIterator};
use odis_fca::labelset::{LabelSet, LabelSetIterator};

fn names(v: &[&str]) -> Vec<String> {
    v.iter().map(|x| x.to_string()).collect()
}

fn bits(v: &[usize]) -> BitSet {
    let mut b = BitSet::new();
    for &i in v {
        b.insert(i);
    }
    b
}

fn objects() -> Vec<String> {
    names(&["a", "b", "c"])
}

fn attributes() -> Vec<String> {
    names(&["x", "y", "z"])
}

/// Three pairs: ({a,b,c}, {}), ({a}, {x,y}), ({}, {x,y,z}).
fn sample() -> ConceptCollection {
    let data = vec![(bits(&[0, 1, 2]), bits(&[])), (bits(&[0]), bits(&[0, 1])), (bits(&[]), bits(&[0, 1, 2]))];
    ConceptCollection::new(data, objects(), attributes())
}

#[test]
fn label_set_reads_its_labels() {
    let s = LabelSet::new(bits(&[2, 0]), names(&["x", "y", "z"]));
    assert_eq!(s.len(), 2);
    assert!(s.contains(&"x".to_string()));
    assert!(s.contains(&"z".to_string()));
    assert!(!s.contains(&"y".to_string()));
    assert!(!s.contains(&"w".to_string()));
    assert_eq!(s.to_vec(), names(&["x", "z"]));
    let mut it = LabelSetIterator::new(&s);
    assert_eq!(it.next(), Some("x".to_string()));
    assert_eq!(it.next(), Some("z".to_string()));
    assert_eq!(it.next(), None);
    assert_eq!(it.next(), None);
}

#[test]
fn label_sets_compare_by_labels() {
    let a = LabelSet::new(bits(&[0, 2]), names(&["x", "y", "z"]));
    let b = LabelSet::new(bits(&[0, 1]), names(&["z", "x", "q"]));
    let c = LabelSet::new(bits(&[0, 1]), names(&["x", "y", "z"]));
    assert!(a.eq(&b));
    assert!(b.eq(&a));
    assert!(!a.eq(&c));
    let empty = LabelSet::new(bits(&[]), names(&["x"]));
    assert!(!a.eq(&empty));
}

#[test]
fn collection_indexing_with_negative_positions() {
    let cs = sample();
    assert_eq!(cs.len(), 3);
    let last = cs.get(-1).unwrap();
    assert_eq!(last.intent().to_vec(), names(&["x", "y", "z"]));
    assert_eq!(last.extent().len(), 0);
    let first = cs.get(-3).unwrap();
    assert_eq!(first.extent().to_vec(), names(&["a", "b", "c"]));
    let mid = cs.get(1).unwrap();
    assert_eq!(mid.extent().to_vec(), names(&["a"]));
    assert_eq!(mid.intent().to_vec(), names(&["x", "y"]));
    assert!(matches!(cs.get(3), Err(FcaError::IndexOutOfRange)));
    assert!(matches!(cs.get(-4), Err(FcaError::IndexOutOfRange)));
}

#[test]
fn collection_slices() {
    let cs = sample();
    // [::-1] gives start 2, stop -1, step -1.
    let rev = cs.select(2, -1, -1);
    assert_eq!(rev.len(), 3);
    assert_eq!(rev[0].intent().len(), 3);
    assert_eq!(rev[2].extent().len(), 3);
    // [0:3:2]
    let even = cs.select(0, 3, 2);
    assert_eq!(even.len(), 2);
    assert_eq!(even[1].intent().len(), 3);
    // An empty slice.
    assert_eq!(cs.select(2, 1, 1).len(), 0);
}

#[test]
fn collection_iterates_in_order() {
    let cs = sample();
    let mut it = cs.iter();
    let mut sizes = Vec::new();
    while let Some(c) = it.next() {
        sizes.push(c.extent().len());
    }
    assert_eq!(sizes, vec![3, 1, 0]);
    assert!(it.next().is_none());
}

#[test]
fn collection_equality_and_order() {
    let cs = sample();
    assert!(cs.eq(&sample()));
    let other = ConceptCollection::new(vec![(bits(&[0]), bits(&[0, 1]))], objects(), attributes());
    assert!(!cs.eq(&other));
    // Sorting by intent: {} < {x,y} < {x,y,z}, lectically.
    let shuffled = ConceptCollection::new(
        vec![(bits(&[]), bits(&[0, 1, 2])), (bits(&[0, 1, 2]), bits(&[])), (bits(&[0]), bits(&[0, 1]))],
        objects(),
        attributes(),
    );
    let sorted = shuffled.sorted();
    assert!(sorted.eq(&cs));
    assert!(!shuffled.eq(&cs));
}

#[test]
fn lectic_order_prefers_the_set_with_the_smallest_differing_element() {
    // {z} comes before {y}: the first difference is y, which {y} has.
    let v = ConceptCollection::new(
        vec![(bits(&[0]), bits(&[1])), (bits(&[1]), bits(&[2])), (bits(&[2]), bits(&[1, 2]))],
        objects(),
        attributes(),
    );
    let s = v.sorted();
    let intents: Vec<Vec<String>> = (0..3).map(|i| s.make_concept(i).intent().to_vec()).collect();
    assert_eq!(intents, vec![names(&["z"]), names(&["y"]), names(&["y", "z"])]);
}

#[test]
fn concept_is_a_pair() {
    let c = Concept::new(LabelSet::new(bits(&[0, 1]), objects()), LabelSet::new(bits(&[2]), attributes()));
    assert_eq!(c.len(), 2);
    assert_eq!(c.get(0).unwrap().to_vec(), names(&["a", "b"]));
    assert_eq!(c.get(-2).unwrap().to_vec(), names(&["a", "b"]));
    assert_eq!(c.get(1).unwrap().to_vec(), names(&["z"]));
    assert_eq!(c.get(-1).unwrap().to_vec(), names(&["z"]));
    assert!(matches!(c.get(2), Err(FcaError::IndexOutOfRange)));
    assert!(matches!(c.get(-3), Err(FcaError::IndexOutOfRange)));
    assert!(c.contains(&"a".to_string()));
    assert!(c.contains(&"z".to_string()));
    assert!(!c.contains(&"x".to_string()));
    let mut it = ConceptPairIterator::new(&c);
    assert_eq!(it.next().unwrap().to_vec(), names(&["a", "b"]));
    assert_eq!(it.next().unwrap().to_vec(), names(&["z"]));
    assert!(it.next().is_none());
    let d = c.copy();
    assert!(d.eq(&c));
    let e = Concept::new(LabelSet::new(bits(&[0]), objects()), LabelSet::new(bits(&[2]), attributes()));
    assert!(!e.eq(&c));
}

#[test]
fn concept_generator_stops_after_a_change() {
    let data = vec![(bits(&[0]), bits(&[1])), (bits(&[1]), bits(&[2]))];
    let mut g = ConceptGenerator::new(data, objects(), attributes(), 4);
    assert_eq!(g.gen_at_creation(), 4);
    let c = g.next(4, 1).unwrap().unwrap();
    assert_eq!(c.extent().to_vec(), names(&["a"]));
    assert!(matches!(g.next(5, 2), Err(FcaError::MutationDuringLazy(2))));
    let c2 = g.next(4, 1).unwrap().unwrap();
    assert_eq!(c2.intent().to_vec(), names(&["z"]));
    assert!(g.next(4, 1).unwrap().is_none());
}

#[test]
fn implication_is_a_pair() {
    let imp = Implication::new(LabelSet::new(bits(&[0]), attributes()), LabelSet::new(bits(&[0, 1]), attributes()));
    assert_eq!(imp.len(), 2);
    assert_eq!(imp.premise().to_vec(), names(&["x"]));
    assert_eq!(imp.conclusion().to_vec(), names(&["x", "y"]));
    assert_eq!(imp.get(-1).unwrap().to_vec(), names(&["x", "y"]));
    assert_eq!(imp.get(0).unwrap().to_vec(), names(&["x"]));
    assert!(matches!(imp.get(2), Err(FcaError::IndexOutOfRange)));
    assert!(imp.contains(&"y".to_string()));
    assert!(!imp.contains(&"z".to_string()));
    let mut it = ImplicationPairIterator::new(&imp);
    assert_eq!(it.next().unwrap().len(), 1);
    assert_eq!(it.next().unwrap().len(), 2);
    assert!(it.next().is_none());
    assert!(imp.copy().eq(&imp));
}

#[test]
fn implication_list_indexing_and_slices() {
    let data = vec![(bits(&[]), bits(&[0])), (bits(&[1]), bits(&[0, 1])), (bits(&[0, 2]), bits(&[0, 1, 2]))];
    let list = ImplicationList::new(data, attributes());
    assert_eq!(list.len(), 3);
    assert_eq!(list.get(-1).unwrap().premise().to_vec(), names(&["x", "z"]));
    assert_eq!(list.get(0).unwrap().conclusion().to_vec(), names(&["x"]));
    assert!(matches!(list.get(-4), Err(FcaError::IndexOutOfRange)));
    let tail = list.select(1, 3, 1);
    assert_eq!(tail.len(), 2);
    assert_eq!(tail[0].premise().to_vec(), names(&["y"]));
    let mut it = list.iter();
    let mut n = 0;
    while it.next().is_some() {
        n += 1;
    }
    assert_eq!(n, 3);
    let again = ImplicationList::new(vec![(bits(&[]), bits(&[0])), (bits(&[1]), bits(&[0, 1])), (bits(&[0, 2]), bits(&[0, 1, 2]))], attributes());
    assert!(list.eq(&again));
    let mut g = ImplicationGenerator::new(vec![(bits(&[]), bits(&[0]))], attributes(), 0);
    assert_eq!(g.gen_at_creation(), 0);
    assert!(matches!(g.next(1, 0), Err(FcaError::MutationDuringLazy(0))));
    assert_eq!(g.next(0, 0).unwrap().unwrap().conclusion().to_vec(), names(&["x"]));
    assert!(g.next(0, 0).unwrap().is_none());
}
