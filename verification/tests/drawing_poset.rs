use odis_fca::api::PyFormalContext;
use odis_fca::drawing::{check_algorithm, check_size, covering_edges, html_escape};
use odis_fca::errors::FcaError;
use odis_fca::poset::{check_covering_relation, PyPoset};

fn s(x: &str) -> String {
    x.to_string()
}

fn names(v: &[&str]) -> Vec<String> {
    v.iter().map(|x| x.to_string()).collect()
}

fn living_beings() -> PyFormalContext {
    let entries: Vec<(String, Vec<String>)> = vec![
        (s("fish leech"), names(&["needs water to live", "lives in water", "can move"])),
        (s("bream"), names(&["needs water to live", "lives in water", "can move", "has limbs"])),
        (s("frog"), names(&["needs water to live", "lives in water", "lives on land", "can move", "has limbs"])),
        (s("dog"), names(&["needs water to live", "lives on land", "can move", "has limbs", "breast feeds"])),
        (s("water weeds"), names(&["needs water to live", "lives in water", "needs chlorophyll", "one seed leaf"])),
        (s("reed"), names(&["needs water to live", "lives in water", "lives on land", "needs chlorophyll", "one seed leaf"])),
        (s("bean"), names(&["needs water to live", "lives on land", "needs chlorophyll", "two seed leaves"])),
        (s("corn"), names(&["needs water to live", "lives on land", "needs chlorophyll", "one seed leaf"])),
    ];
    PyFormalContext::from_dict(&entries)
}

#[test]
fn known_layout_algorithms() {
    assert!(check_algorithm(&s("dimdraw"), false).is_ok());
    assert!(check_algorithm(&s("sugiyama"), false).is_ok());
    assert!(check_algorithm(&s("dimflux"), true).is_ok());
    match check_algorithm(&s("dimflux"), false) {
        Err(FcaError::UnknownAlgorithm(a)) => assert_eq!(a, s("dimflux")),
        _ => panic!("a poset has no dimflux layout"),
    }
    match check_algorithm(&s("force"), true) {
        Err(FcaError::UnknownAlgorithm(a)) => assert_eq!(a, s("force")),
        _ => panic!("expected an unknown algorithm"),
    }
}

#[test]
fn drawing_sizes_must_be_positive() {
    assert!(check_size(800, 600).is_ok());
    assert!(check_size(1, 1).is_ok());
    assert!(matches!(check_size(0, 600), Err(FcaError::NonPositiveSize)));
    assert!(matches!(check_size(800, -1), Err(FcaError::NonPositiveSize)));
}

#[test]
fn escaping_for_svg() {
    let t: Vec<char> = "a<b & \"c\">".chars().collect();
    let e: String = html_escape(&t).iter().collect();
    assert_eq!(e, s("a&lt;b &amp; &quot;c&quot;&gt;"));
    let plain: Vec<char> = "frog".chars().collect();
    assert_eq!(html_escape(&plain), plain);
}

#[test]
fn lattice_diagram_of_the_living_beings() {
    let ctx = living_beings();
    let d = ctx.inner().lattice_diagram();
    assert_eq!(d.concepts().len(), 19);
    assert_eq!(d.edges().len(), 32);
    assert_eq!(d.object_labels().len(), 19);
    // Every object labels exactly one concept, and so does every attribute.
    let objs: usize = d.object_labels().iter().map(|v| v.len()).sum();
    let attrs: usize = d.attribute_labels().iter().map(|v| v.len()).sum();
    assert_eq!(objs, 8);
    assert_eq!(attrs, 9);
    // The top concept (all objects) carries "needs water to live".
    let top = (0..19).find(|&i| d.concepts()[i].0.len() == 8).unwrap();
    assert_eq!(d.attribute_labels()[top], names(&["needs water to live"]));
    // The frog's object concept has the extent {frog}.
    let frog = (0..19).find(|&i| d.concepts()[i].0.len() == 1 && d.concepts()[i].0.contains(2)).unwrap();
    assert_eq!(d.object_labels()[frog], names(&["frog"]));
    // Each edge goes from a smaller extent to a larger one.
    for &(lo, hi) in d.edges() {
        assert!(d.concepts()[lo].0.is_subset(&d.concepts()[hi].0));
        assert!(d.concepts()[lo].0.len() < d.concepts()[hi].0.len());
    }
    assert_eq!(covering_edges(d.concepts()), d.edges().clone());
}

#[test]
fn a_diamond_is_a_poset() {
    let p = PyPoset::new(names(&["bottom", "left", "right", "top"]), vec![(0, 1), (0, 2), (1, 3), (2, 3)]).unwrap();
    assert!(p.check().is_ok());
    assert_eq!(p.nodes(), names(&["bottom", "left", "right", "top"]));
    assert_eq!(p.edges(), vec![(0, 1), (0, 2), (1, 3), (2, 3)]);
}

#[test]
fn cycles_and_stray_edges_are_refused() {
    assert!(matches!(PyPoset::new(names(&["a", "b", "c"]), vec![(0, 1), (1, 2), (2, 0)]), Err(FcaError::EdgesFormCycle)));
    assert!(matches!(PyPoset::new(names(&["a", "b"]), vec![(0, 1), (1, 0)]), Err(FcaError::EdgesFormCycle)));
    assert!(matches!(PyPoset::new(names(&["a"]), vec![(0, 0)]), Err(FcaError::EdgesFormCycle)));
    assert!(matches!(PyPoset::new(names(&["a", "b"]), vec![(0, 1), (1, 2)]), Err(FcaError::EdgeOutOfRange)));
    assert!(matches!(PyPoset::new(Vec::new(), vec![(0, 1)]), Err(FcaError::EdgeOutOfRange)));
    let ok = PyPoset::new(names(&["a", "b"]), vec![(0, 1)]).unwrap();
    assert!(ok.check().is_ok());
    assert!(check_covering_relation(0, &Vec::new()).is_ok());
    assert!(matches!(check_covering_relation(2, &vec![(0, 1), (1, 0), (5, 0)]), Err(FcaError::EdgeOutOfRange)));
    assert!(matches!(check_covering_relation(2, &vec![(0, 1), (1, 0)]), Err(FcaError::EdgesFormCycle)));
}

#[test]
fn what_a_context_drawing_starts_from() {
    let ctx = living_beings();
    match ctx.drawing_plan(&s("sugiyama")) {
        Ok(Some(d)) => assert_eq!(d.edges().len(), 32),
        _ => panic!("expected a diagram"),
    }
    assert!(matches!(ctx.drawing_plan(&s("dimflux")), Ok(Some(_))));
    assert!(matches!(ctx.drawing_plan(&s("spring")), Err(FcaError::UnknownAlgorithm(_))));
    let empty = PyFormalContext::new_empty();
    assert!(matches!(empty.drawing_plan(&s("dimdraw")), Ok(None)));
    assert!(matches!(empty.drawing_plan(&s("spring")), Err(FcaError::UnknownAlgorithm(_))));
    let mut no_attrs = PyFormalContext::new_empty();
    no_attrs.add_object(s("lonely"), None).unwrap();
    assert!(matches!(no_attrs.drawing_plan(&s("dimdraw")), Ok(None)));
}

#[test]
fn what_a_poset_drawing_starts_from() {
    let p = PyPoset::new(names(&["a", "b"]), vec![(0, 1)]).unwrap();
    assert!(matches!(p.drawing_plan(&s("dimdraw")), Ok(true)));
    assert!(matches!(p.drawing_plan(&s("dimflux")), Err(FcaError::UnknownAlgorithm(_))));
    let empty = PyPoset::new(Vec::new(), Vec::new()).unwrap();
    assert!(matches!(empty.drawing_plan(&s("sugiyama")), Ok(false)));
    assert!(matches!(empty.drawing_plan(&s("spring")), Err(FcaError::UnknownAlgorithm(_))));
}
