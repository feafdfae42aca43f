use bit_set::BitSet;
use odis_fca::api::PyFormalContext;
use odis_fca::concept::ConceptCollection;
use odis_fca::labelset::{label_le_exec, sort_labels, LabelSet, LabelSetIterator};
use odis_fca::titanic::PyTitanic;

fn s(x: &str) -> String {
    x.to_string()
}

fn names(v: &[&str]) -> Vec<String> {
    v.iter().map(|x| x.to_string()).collect()
}

fn bits(v: &[usize]) -> BitSet {
    let mut b = BitSet::new();
    for &i in v {
        b.insert(i);
    }
    b
}

fn living_beings() -> PyFormalContext {
    let entries: Vec<(String, Vec<String>)> = vec![
        (s("fish leech"), names(&["needs water to live", "lives in water", "can move"])),
        (s("bream"), names(&["needs water to live", "lives in water", "can move", "has limbs"])),
        (s("frog"), names(&["needs water to live", "lives in water", "lives on land", "can move", "has limbs"])),
        (s("dog"), names(&["needs water to live", "lives on land", "can move", "has limbs", "breast feeds"])),
        (s("water weeds"), names(&["needs water to live", "lives in water", "needs chlorophyll", "one seed leaf"])),
        (s("reed"), names(&["needs water to live", "lives in water", "lives on land", "needs chlorophyll", "one seed leaf"])),
        (s("bean"), names(&["needs water to live", "lives on land", "needs chlorophyll", "two seed leaves"])),
        (s("corn"), names(&["needs water to live", "lives on land", "needs chlorophyll", "one seed leaf"])),
    ];
    PyFormalContext::from_dict(&entries)
}

#[test]
fn extent_lists_its_labels_in_string_order() {
    let ctx = living_beings();
    let e = ctx.extent(&names(&["needs water to live", "can move"]));
    assert_eq!(e.to_vec(), names(&["bream", "dog", "fish leech", "frog"]));
    let mut it = LabelSetIterator::new(&e);
    let mut got = Vec::new();
    while let Some(x) = it.next() {
        got.push(x);
    }
    assert_eq!(got, names(&["bream", "dog", "fish leech", "frog"]));
}

#[test]
fn labels_are_ordered_as_strings() {
    assert!(label_le_exec(&s("ab"), &s("abc")));
    assert!(!label_le_exec(&s("abc"), &s("ab")));
    assert!(label_le_exec(&s("B"), &s("a")));
    assert!(label_le_exec(&s(""), &s("")));
    assert!(label_le_exec(&s("x"), &s("x")));
    assert_eq!(sort_labels(names(&["pear", "apple", "fig", "apple"])), names(&["apple", "apple", "fig", "pear"]));
    // A label held at two indices occurs twice.
    let dup = LabelSet::new(bits(&[0, 1, 2]), names(&["z", "a", "z"]));
    assert_eq!(dup.to_vec(), names(&["a", "z", "z"]));
}

#[test]
fn sorting_keeps_equal_intents_in_their_order() {
    let objs = names(&["a", "b", "c"]);
    let attrs = names(&["x", "y"]);
    let data = vec![(bits(&[0]), bits(&[1])), (bits(&[1]), bits(&[0])), (bits(&[2]), bits(&[1])), (bits(&[0, 1]), bits(&[]))];
    let sorted = ConceptCollection::new(data, objs, attrs).sorted();
    let extents: Vec<Vec<usize>> = sorted.data().iter().map(|p| p.0.iter().collect()).collect();
    // {} < {y} < {x}; the two pairs with intent {y} keep their order.
    assert_eq!(extents, vec![vec![0, 1], vec![0], vec![2], vec![1]]);
}

#[test]
fn eager_and_lazy_concepts_come_in_the_same_order() {
    let mut ctx = living_beings();
    let eager = ctx.concepts();
    let mut gen = ctx.concepts_lazy();
    let mut i = 0;
    while let Some(c) = gen.next(ctx.mutation_gen(), ctx.active_lazy()).unwrap() {
        let e = eager.make_concept(i);
        assert!(c.eq(&e));
        i += 1;
    }
    assert_eq!(i, eager.len());
    let d = ctx.inner().lattice_diagram();
    assert_eq!(d.concepts().len(), eager.data().len());
    for k in 0..eager.data().len() {
        assert!(d.concepts()[k] == eager.data()[k]);
    }
}

#[test]
fn eager_and_lazy_icebergs_come_in_the_same_order() {
    let mut ctx = living_beings();
    let t = PyTitanic::new();
    let eager = t.enumerate(&ctx, 2);
    let mut gen = t.enumerate_lazy(&mut ctx, 2);
    let mut i = 0;
    while let Some(c) = gen.next(ctx.mutation_gen(), ctx.active_lazy()).unwrap() {
        assert!(c.eq(&eager.make_concept(i)));
        i += 1;
    }
    assert_eq!(i, 14);
}

#[test]
fn preclosure_walk_stays_within_the_bound() {
    let ctx = living_beings();
    let basis = ctx.canonical_basis();
    let n = ctx.attributes().len();
    let mut current: Vec<String> = Vec::new();
    let mut steps: usize = 0;
    loop {
        let nxt = ctx.next_preclosure(basis.data(), &current);
        steps += 1;
        if nxt.len() == n {
            break;
        }
        current = nxt.to_vec();
    }
    assert!(steps <= 1 << n);
}
