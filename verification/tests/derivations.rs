use bit_set::BitSet;
use odis_fca::api::PyFormalContext;
use odis_fca::titanic::PyTitanic;

fn s(x: &str) -> String {
    x.to_string()
}

fn names(v: &[&str]) -> Vec<String> {
    v.iter().map(|x| x.to_string()).collect()
}

fn living_beings() -> PyFormalContext {
    let entries: Vec<(String, Vec<String>)> = vec![
        (s("fish leech"), names(&["needs water to live", "lives in water", "can move"])),
        (s("bream"), names(&["needs water to live", "lives in water", "can move", "has limbs"])),
        (s("frog"), names(&["needs water to live", "lives in water", "lives on land", "can move", "has limbs"])),
        (s("dog"), names(&["needs water to live", "lives on land", "can move", "has limbs", "breast feeds"])),
        (s("water weeds"), names(&["needs water to live", "lives in water", "needs chlorophyll", "one seed leaf"])),
        (s("reed"), names(&["needs water to live", "lives in water", "lives on land", "needs chlorophyll", "one seed leaf"])),
        (s("bean"), names(&["needs water to live", "lives on land", "needs chlorophyll", "two seed leaves"])),
        (s("corn"), names(&["needs water to live", "lives on land", "needs chlorophyll", "one seed leaf"])),
    ];
    PyFormalContext::from_dict(&entries)
}

fn sorted(mut v: Vec<String>) -> Vec<String> {
    v.sort();
    v
}

fn bits(v: &[usize]) -> BitSet {
    let mut b = BitSet::new();
    for &i in v {
        b.insert(i);
    }
    b
}

fn members(b: &BitSet) -> Vec<usize> {
    b.iter().collect()
}

#[test]
fn extent_of_attributes() {
    let ctx = living_beings();
    let e = ctx.extent(&names(&["needs water to live", "can move"]));
    assert_eq!(sorted(e.to_vec()), names(&["bream", "dog", "fish leech", "frog"]));
    assert!(e.contains(&s("frog")));
    assert!(!e.contains(&s("reed")));
    // Unknown names are dropped silently.
    let e2 = ctx.extent(&names(&["needs water to live", "can move", "no such attribute"]));
    assert_eq!(e2.len(), 4);
}

#[test]
fn intent_of_objects() {
    let ctx = living_beings();
    let i = ctx.intent(&names(&["fish leech", "bream"]));
    assert_eq!(sorted(i.to_vec()), names(&["can move", "lives in water", "needs water to live"]));
    let all = ctx.intent(&names(&[]));
    assert_eq!(all.len(), 9);
}

#[test]
fn hulls() {
    let ctx = living_beings();
    let h = ctx.attribute_hull(&names(&["needs water to live"]));
    assert_eq!(h.to_vec(), names(&["needs water to live"]));
    let h2 = ctx.attribute_hull(&names(&["breast feeds"]));
    assert_eq!(
        sorted(h2.to_vec()),
        names(&["breast feeds", "can move", "has limbs", "lives on land", "needs water to live"])
    );
    let o = ctx.object_hull(&names(&["frog"]));
    assert_eq!(o.to_vec(), names(&["frog"]));
    let o2 = ctx.object_hull(&names(&["fish leech", "dog"]));
    assert_eq!(sorted(o2.to_vec()), names(&["bream", "dog", "fish leech", "frog"]));
}

#[test]
fn upper_neighbors() {
    let ctx = living_beings();
    assert_eq!(sorted(ctx.upper_neighbor(&names(&["frog"])).to_vec()), names(&["bream", "frog"]));
    assert_eq!(sorted(ctx.upper_neighbor(&names(&[])).to_vec()), names(&["frog"]));
    assert_eq!(sorted(ctx.upper_neighbor(&names(&["dog"])).to_vec()), names(&["dog", "frog"]));
    let all = names(&["fish leech", "bream", "frog", "dog", "water weeds", "reed", "bean", "corn"]);
    assert_eq!(ctx.upper_neighbor(&all).len(), 8);
}

#[test]
fn concepts_are_listed_once_each() {
    let ctx = living_beings();
    let cs = ctx.concepts();
    assert_eq!(cs.len(), 19);
    let data = cs.data();
    for i in 0..data.len() {
        for j in 0..data.len() {
            if i != j {
                assert!(data[i].1 != data[j].1);
            }
        }
    }
}

#[test]
fn titanic_iceberg_concepts() {
    let ctx = living_beings();
    let t = PyTitanic::new();
    assert_eq!(t.enumerate(&ctx, 0).len(), 19);
    assert_eq!(t.enumerate(&ctx, 1).len(), 18);
    assert_eq!(t.enumerate(&ctx, 2).len(), 14);
    assert_eq!(t.enumerate(&ctx, 3).len(), 9);
    assert_eq!(t.enumerate(&ctx, 4).len(), 5);
    assert_eq!(t.enumerate(&ctx, 9).len(), 0);
}

#[test]
fn titanic_on_small_dict_context() {
    let entries: Vec<(String, Vec<String>)> = vec![
        (s("a"), names(&["x", "y", "z"])),
        (s("b"), names(&["x", "y"])),
        (s("c"), names(&["x", "z"])),
        (s("d"), names(&["y", "z"])),
        (s("e"), names(&["x"])),
    ];
    let ctx = PyFormalContext::from_dict(&entries);
    let top = PyTitanic::new().enumerate(&ctx, 2);
    // Extents with at least 2 objects: {a,b,c,d,e}, {a,b,c,e}, {a,b,d}, {a,c,d}, {a,b}, {a,c}, {a,d}.
    assert_eq!(top.len(), 7);
}

#[test]
fn canonical_basis_in_lectic_order() {
    let ctx = living_beings();
    let basis = ctx.canonical_basis();
    assert_eq!(basis.len(), 10);
    let attrs = ctx.attributes();
    let idx = |n: &str| attrs.iter().position(|a| a == n).unwrap();
    let first = basis.make_implication(0);
    assert_eq!(first.premise().len(), 0);
    assert_eq!(first.conclusion().to_vec(), names(&["needs water to live"]));
    // Every implication holds: objects with the premise have the conclusion.
    for i in 0..basis.len() {
        let imp = basis.make_implication(i);
        let prem = imp.premise().to_vec();
        let conc = imp.conclusion().to_vec();
        assert_eq!(sorted(ctx.extent(&prem).to_vec()), sorted(ctx.extent(&conc).to_vec()));
        assert!(prem.len() < conc.len());
    }
    let breast = idx("breast feeds");
    let found = (0..basis.len()).any(|i| {
        let imp = basis.make_implication(i);
        let p = members(imp.premise().bits());
        p.len() == 2 && p.contains(&0) && p.contains(&breast)
    });
    assert!(found);
    let opt = ctx.canonical_basis_optimised();
    assert!(opt.eq(&basis));
}

#[test]
fn next_preclosure_walk_visits_closed_sets() {
    // The README's loop: starting from the empty set, repeatedly ask for the
    // next set closed under the basis until every attribute is reached.
    let ctx = living_beings();
    let basis = ctx.canonical_basis();
    let n_attrs = ctx.attributes().len();
    let mut current: Vec<String> = Vec::new();
    let mut visited = 0;
    loop {
        let nxt = ctx.next_preclosure(basis.data(), &current);
        visited += 1;
        if nxt.len() == n_attrs {
            break;
        }
        // Every set closed under the basis is an intent.
        let next_names = nxt.to_vec();
        assert_eq!(sorted(ctx.attribute_hull(&next_names).to_vec()), sorted(next_names.clone()));
        current = next_names;
    }
    // The empty set is not closed (the basis forces "needs water to live"),
    // so the walk meets every one of the 19 intents, the full set last.
    assert_eq!(visited, 19);
}

#[test]
fn next_preclosure_without_implications() {
    let ctx = living_beings();
    let none: Vec<(BitSet, BitSet)> = Vec::new();
    let r = ctx.next_preclosure(&none, &names(&[]));
    // The lectically first nonempty set holds only the last attribute.
    assert_eq!(r.to_vec(), names(&["two seed leaves"]));
    let r2 = ctx.next_preclosure(&none, &names(&["two seed leaves"]));
    assert_eq!(r2.to_vec(), names(&["one seed leaf"]));
    let imps = vec![(bits(&[8]), bits(&[7, 8]))];
    let r3 = ctx.next_preclosure(&imps, &names(&["two seed leaves"]));
    assert_eq!(r3.to_vec(), names(&["one seed leaf"]));
    let r4 = ctx.next_preclosure(&imps, &names(&[]));
    assert_eq!(r4.to_vec(), names(&["one seed leaf"]));
}
