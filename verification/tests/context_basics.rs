use odis_fca::api::PyFormalContext;
use odis_fca::errors::FcaError;

fn s(x: &str) -> String {
    x.to_string()
}

fn names(v: &[&str]) -> Vec<String> {
    v.iter().map(|x| x.to_string()).collect()
}

/// The "living beings and water" context of the README.
fn living_beings() -> PyFormalContext {
    let entries: Vec<(String, Vec<String>)> = vec![
        (s("fish leech"), names(&["needs water to live", "lives in water", "can move"])),
        (s("bream"), names(&["needs water to live", "lives in water", "can move", "has limbs"])),
        (s("frog"), names(&["needs water to live", "lives in water", "lives on land", "can move", "has limbs"])),
        (s("dog"), names(&["needs water to live", "lives on land", "can move", "has limbs", "breast feeds"])),
        (s("water weeds"), names(&["needs water to live", "lives in water", "needs chlorophyll", "one seed leaf"])),
        (s("reed"), names(&["needs water to live", "lives in water", "lives on land", "needs chlorophyll", "one seed leaf"])),
        (s("bean"), names(&["needs water to live", "lives on land", "needs chlorophyll", "two seed leaves"])),
        (s("corn"), names(&["needs water to live", "lives on land", "needs chlorophyll", "one seed leaf"])),
    ];
    PyFormalContext::from_dict(&entries)
}

#[test]
fn empty_context_has_no_objects() {
    let ctx = PyFormalContext::new_empty();
    assert_eq!(ctx.shape(), (0, 0));
    assert_eq!(ctx.len(), 0);
    assert!(!ctx.contains(&s("frog")));
    assert_eq!(ctx.name(), s(""));
}

#[test]
fn from_dict_orders_attributes_by_first_mention() {
    let ctx = living_beings();
    assert_eq!(ctx.shape(), (8, 9));
    assert_eq!(ctx.objects()[3], s("dog"));
    assert_eq!(
        ctx.attributes(),
        names(&[
            "needs water to live",
            "lives in water",
            "can move",
            "has limbs",
            "lives on land",
            "breast feeds",
            "needs chlorophyll",
            "one seed leaf",
            "two seed leaves",
        ])
    );
    assert!(ctx.contains(&s("frog")));
    assert!(!ctx.contains(&s("shark")));
}

#[test]
fn incidence_read_and_unknown_names() {
    let ctx = living_beings();
    assert_eq!(ctx.get_cross(&s("frog"), &s("lives in water")).unwrap(), true);
    assert_eq!(ctx.get_cross(&s("frog"), &s("breast feeds")).unwrap(), false);
    match ctx.get_cross(&s("ghost"), &s("flies")) {
        Err(FcaError::UnknownObject(n)) => assert_eq!(n, s("ghost")),
        _ => panic!("expected an unknown object"),
    }
    match ctx.get_cross(&s("frog"), &s("flies")) {
        Err(FcaError::UnknownAttribute(n)) => assert_eq!(n, s("flies")),
        _ => panic!("expected an unknown attribute"),
    }
}

#[test]
fn incidence_write_then_read() {
    let mut ctx = living_beings();
    ctx.set_cross(&s("frog"), &s("lives in water"), false).unwrap();
    assert_eq!(ctx.get_cross(&s("frog"), &s("lives in water")).unwrap(), false);
    ctx.set_cross(&s("frog"), &s("lives in water"), true).unwrap();
    assert_eq!(ctx.get_cross(&s("frog"), &s("lives in water")).unwrap(), true);
    assert_eq!(ctx.get_cross(&s("frog"), &s("can move")).unwrap(), true);
    assert!(matches!(ctx.set_cross(&s("ghost"), &s("can move"), true), Err(FcaError::UnknownObject(_))));
    assert!(matches!(ctx.set_cross(&s("frog"), &s("flies"), true), Err(FcaError::UnknownAttribute(_))));
}

#[test]
fn every_change_moves_the_generation_on() {
    let mut ctx = living_beings();
    assert_eq!(ctx.mutation_gen(), 0);
    ctx.set_cross(&s("frog"), &s("lives in water"), false).unwrap();
    assert_eq!(ctx.mutation_gen(), 1);
    assert!(ctx.remove_object(&s("ghost")).is_err());
    assert_eq!(ctx.mutation_gen(), 1);
}

#[test]
fn add_object_creates_missing_attributes() {
    let mut ctx = living_beings();
    ctx.add_object(s("shark"), None).unwrap();
    assert_eq!(ctx.shape(), (9, 9));
    ctx.add_object(s("whale"), Some(names(&["needs water to live", "can move", "breast feeds", "is big"]))).unwrap();
    assert_eq!(ctx.shape(), (10, 10));
    assert_eq!(ctx.attributes()[9], s("is big"));
    assert_eq!(ctx.get_cross(&s("whale"), &s("breast feeds")).unwrap(), true);
    assert_eq!(ctx.get_cross(&s("whale"), &s("is big")).unwrap(), true);
    assert_eq!(ctx.get_cross(&s("whale"), &s("has limbs")).unwrap(), false);
    assert_eq!(ctx.get_cross(&s("dog"), &s("is big")).unwrap(), false);
    match ctx.add_object(s("frog"), None) {
        Err(FcaError::DuplicateObject(n)) => assert_eq!(n, s("frog")),
        _ => panic!("expected a duplicate object"),
    }
}

#[test]
fn add_and_remove_attribute() {
    let mut ctx = living_beings();
    ctx.add_attribute(s("is_endangered")).unwrap();
    assert_eq!(ctx.shape(), (8, 10));
    assert_eq!(ctx.get_cross(&s("frog"), &s("is_endangered")).unwrap(), false);
    assert!(matches!(ctx.add_attribute(s("is_endangered")), Err(FcaError::DuplicateAttribute(_))));
    ctx.remove_attribute(&s("is_endangered")).unwrap();
    assert_eq!(ctx.shape(), (8, 9));
    assert!(matches!(ctx.remove_attribute(&s("is_endangered")), Err(FcaError::UnknownAttribute(_))));
}

#[test]
fn removing_an_attribute_shifts_the_later_ones() {
    let mut ctx = living_beings();
    ctx.remove_attribute(&s("lives in water")).unwrap();
    assert_eq!(ctx.shape(), (8, 8));
    assert_eq!(ctx.get_cross(&s("frog"), &s("can move")).unwrap(), true);
    assert_eq!(ctx.get_cross(&s("dog"), &s("breast feeds")).unwrap(), true);
    assert_eq!(ctx.get_cross(&s("bean"), &s("two seed leaves")).unwrap(), true);
    assert_eq!(ctx.get_cross(&s("corn"), &s("two seed leaves")).unwrap(), false);
}

#[test]
fn remove_objects() {
    let mut ctx = living_beings();
    ctx.add_object(s("shark"), None).unwrap();
    ctx.remove_object(&s("shark")).unwrap();
    assert_eq!(ctx.shape(), (8, 9));
    ctx.remove_object(&s("frog")).unwrap();
    assert_eq!(ctx.shape(), (7, 9));
    assert!(!ctx.contains(&s("frog")));
    assert_eq!(ctx.get_cross(&s("dog"), &s("breast feeds")).unwrap(), true);
    assert!(matches!(ctx.remove_object(&s("frog")), Err(FcaError::UnknownObject(_))));
}

#[test]
fn rename_objects_and_attributes() {
    let mut ctx = living_beings();
    ctx.rename_object(&s("frog"), s("toad")).unwrap();
    assert!(ctx.contains(&s("toad")));
    assert!(!ctx.contains(&s("frog")));
    assert_eq!(ctx.get_cross(&s("toad"), &s("lives in water")).unwrap(), true);
    ctx.rename_attribute(&s("needs water to live"), s("aquatic")).unwrap();
    assert_eq!(ctx.attributes()[0], s("aquatic"));
    assert!(matches!(ctx.rename_object(&s("frog"), s("x")), Err(FcaError::UnknownObject(_))));
    assert!(matches!(ctx.rename_object(&s("toad"), s("dog")), Err(FcaError::DuplicateObject(_))));
    assert!(matches!(ctx.rename_attribute(&s("flies"), s("x")), Err(FcaError::UnknownAttribute(_))));
    assert!(matches!(ctx.rename_attribute(&s("aquatic"), s("can move")), Err(FcaError::DuplicateAttribute(_))));
}

#[test]
fn copy_is_independent() {
    let ctx = living_beings();
    let mut copy = ctx.copy();
    copy.add_object(s("clone_only"), None).unwrap();
    assert!(!ctx.contains(&s("clone_only")));
    assert!(copy.contains(&s("clone_only")));
    assert_eq!(copy.get_cross(&s("frog"), &s("has limbs")).unwrap(), true);
}

#[test]
fn name_is_kept() {
    let mut ctx = living_beings();
    ctx.set_name(s("Living beings"));
    assert_eq!(ctx.name(), s("Living beings"));
}

#[test]
fn mutation_refused_while_lazy_generator_lives() {
    let mut ctx = living_beings();
    let mut gen = ctx.concepts_lazy();
    assert_eq!(ctx.active_lazy(), 1);
    let first = gen.next(ctx.mutation_gen(), ctx.active_lazy()).unwrap();
    assert!(first.is_some());
    match ctx.add_attribute(s("new_attr")) {
        Err(FcaError::MutationDuringLazy(n)) => assert_eq!(n, 1),
        _ => panic!("expected the change to be refused"),
    }
    assert_eq!(ctx.shape(), (8, 9));
    // The refused attempt invalidates the generator.
    match gen.next(ctx.mutation_gen(), ctx.active_lazy()) {
        Err(FcaError::MutationDuringLazy(1)) => {}
        _ => panic!("expected the generator to notice the attempted change"),
    }
    ctx.release_lazy();
    assert_eq!(ctx.active_lazy(), 0);
    ctx.add_attribute(s("new_attr")).unwrap();
    assert_eq!(ctx.shape(), (8, 10));
}

#[test]
fn every_mutation_is_guarded() {
    let mut ctx = living_beings();
    let _gen = ctx.canonical_basis_lazy();
    assert!(matches!(ctx.set_cross(&s("frog"), &s("can move"), false), Err(FcaError::MutationDuringLazy(1))));
    assert!(matches!(ctx.add_object(s("shark"), None), Err(FcaError::MutationDuringLazy(1))));
    assert!(matches!(ctx.remove_object(&s("frog")), Err(FcaError::MutationDuringLazy(1))));
    assert!(matches!(ctx.remove_attribute(&s("can move")), Err(FcaError::MutationDuringLazy(1))));
    assert!(matches!(ctx.rename_object(&s("frog"), s("toad")), Err(FcaError::MutationDuringLazy(1))));
    assert!(matches!(ctx.rename_attribute(&s("can move"), s("moves")), Err(FcaError::MutationDuringLazy(1))));
    assert_eq!(ctx.get_cross(&s("frog"), &s("can move")).unwrap(), true);
    assert_eq!(ctx.mutation_gen(), 6);
}
