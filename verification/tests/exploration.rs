use odis_fca::api::PyFormalContext;
use odis_fca::errors::FcaError;
use odis_fca::exploration::ExplorationStep;

fn s(x: &str) -> String {
    x.to_string()
}

fn names(v: &[&str]) -> Vec<String> {
    v.iter().map(|x| x.to_string()).collect()
}

fn small() -> PyFormalContext {
    let entries: Vec<(String, Vec<String>)> = vec![
        (s("a"), names(&["x", "y"])),
        (s("b"), names(&["y", "z"])),
        (s("c"), names(&["y"])),
    ];
    PyFormalContext::from_dict(&entries)
}

#[test]
fn accepting_every_question_gives_the_canonical_basis() {
    let mut ctx = small();
    let mut ex = ctx.exploration_start();
    let mut asked = 0;
    loop {
        match ctx.exploration_question(&mut ex) {
            ExplorationStep::Ask(p, c) => {
                assert!(p.is_subset(&c));
                assert!(p != c);
                ctx.exploration_accept(&mut ex);
                asked += 1;
            }
            ExplorationStep::Done => break,
        }
        assert!(asked < 100);
    }
    let gen_before = ctx.mutation_gen();
    let basis = ctx.exploration_finish(ex);
    assert_eq!(ctx.mutation_gen(), gen_before + 1);
    assert!(basis.eq(&ctx.canonical_basis()));
    assert_eq!(basis.len(), asked);
}

#[test]
fn a_counterexample_changes_the_questions() {
    let mut ctx = small();
    let mut ex = ctx.exploration_start();
    // The first question is {} -> {y}: every object has y.
    match ctx.exploration_question(&mut ex) {
        ExplorationStep::Ask(p, c) => {
            assert_eq!(p.len(), 0);
            assert_eq!(c.iter().collect::<Vec<usize>>(), vec![1]);
        }
        ExplorationStep::Done => panic!("expected a question"),
    }
    // Reject it: an object "d" with only z (and an unknown name, dropped).
    ctx.exploration_reject(&ex, s("d"), &names(&["z", "unknown"])).unwrap();
    assert_eq!(ctx.shape(), (4, 3));
    assert_eq!(ctx.get_cross(&s("d"), &s("z")).unwrap(), true);
    assert_eq!(ctx.get_cross(&s("d"), &s("y")).unwrap(), false);
    // Asked again, the exploration no longer proposes {} -> {y}.
    match ctx.exploration_question(&mut ex) {
        ExplorationStep::Ask(p, _) => assert!(p.len() > 0),
        ExplorationStep::Done => {}
    }
    loop {
        match ctx.exploration_question(&mut ex) {
            ExplorationStep::Ask(_, _) => ctx.exploration_accept(&mut ex),
            ExplorationStep::Done => break,
        }
    }
    let basis = ctx.exploration_finish(ex);
    assert!(basis.eq(&ctx.canonical_basis()));
}

#[test]
fn a_counterexample_is_refused_while_a_generator_lives() {
    let mut ctx = small();
    let _gen = ctx.concepts_lazy();
    let mut ex = ctx.exploration_start();
    assert!(matches!(ctx.exploration_question(&mut ex), ExplorationStep::Ask(_, _)));
    let before = ctx.mutation_gen();
    match ctx.exploration_reject(&ex, s("cx"), &names(&[])) {
        Err(FcaError::MutationDuringLazy(1)) => {}
        _ => panic!("expected the counterexample to be refused"),
    }
    assert_eq!(ctx.shape(), (3, 3));
    assert!(!ctx.contains(&s("cx")));
    assert_eq!(ctx.mutation_gen(), before + 1);
}
