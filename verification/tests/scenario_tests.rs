use ctl_model::checker::check;
use ctl_model::counterexample::find_counterexample;
use ctl_model::formula::CtlFormula;
use ctl_model::kripke::KripkeStruct;
use ctl_model::witness::find_witness;

fn mutex() -> KripkeStruct {
    KripkeStruct::builder()
        .state("idle")
        .state("trying")
        .state("critical")
        .transition(0, 1)
        .transition(1, 2)
        .transition(2, 0)
        .transition(0, 0)
        .label(2, "in_cs")
        .label(1, "waiting")
        .initial_state(0)
        .build()
        .unwrap()
}

#[test]
fn mutual_exclusion_properties() {
    let k = mutex();
    let safety = CtlFormula::ag(CtlFormula::implies(
        CtlFormula::atom("in_cs"),
        CtlFormula::ef(CtlFormula::not(CtlFormula::atom("in_cs"))),
    ));
    assert!(check(&k, &safety).holds);
    let liveness = CtlFormula::ag(CtlFormula::ef(CtlFormula::atom("in_cs")));
    assert!(check(&k, &liveness).holds);
    assert!(find_witness(&k, &CtlFormula::ef(CtlFormula::atom("in_cs"))).is_some());
}

#[test]
fn traffic_light_properties() {
    let k = KripkeStruct::builder()
        .state("red")
        .state("green")
        .state("yellow")
        .transition(0, 1)
        .transition(1, 2)
        .transition(2, 0)
        .label(0, "red")
        .label(0, "stop")
        .label(1, "green")
        .label(1, "go")
        .label(2, "yellow")
        .label(2, "caution")
        .initial_state(0)
        .build()
        .unwrap();
    let always_colored = CtlFormula::ag(CtlFormula::or(
        CtlFormula::or(CtlFormula::atom("red"), CtlFormula::atom("green")),
        CtlFormula::atom("yellow"),
    ));
    assert!(check(&k, &always_colored).holds);
    let no_conflict = CtlFormula::ag(CtlFormula::not(CtlFormula::and(
        CtlFormula::atom("green"),
        CtlFormula::atom("red"),
    )));
    assert!(check(&k, &no_conflict).holds);
    let progress = CtlFormula::ag(CtlFormula::implies(
        CtlFormula::atom("red"),
        CtlFormula::af(CtlFormula::atom("green")),
    ));
    assert!(check(&k, &progress).holds);
    let fairness = CtlFormula::ag(CtlFormula::af(CtlFormula::atom("green")));
    assert!(check(&k, &fairness).holds);
}

#[test]
fn protocol_properties() {
    let k = KripkeStruct::builder()
        .state("idle")
        .state("sending")
        .state("lost")
        .state("received")
        .state("acked")
        .transition(0, 1)
        .transition(0, 0)
        .transition(1, 3)
        .transition(1, 2)
        .transition(2, 1)
        .transition(3, 4)
        .transition(4, 0)
        .label(1, "sending")
        .label(2, "error")
        .label(3, "delivered")
        .label(4, "complete")
        .initial_state(0)
        .build()
        .unwrap();
    let infinite_loss = CtlFormula::ef(CtlFormula::eg(CtlFormula::atom("error")));
    assert!(!check(&k, &infinite_loss).holds);
    let always_recoverable = CtlFormula::ag(CtlFormula::ef(CtlFormula::atom("complete")));
    assert!(check(&k, &always_recoverable).holds);
    let eventual = CtlFormula::ag(CtlFormula::implies(
        CtlFormula::atom("sending"),
        CtlFormula::af(CtlFormula::or(
            CtlFormula::atom("delivered"),
            CtlFormula::atom("error"),
        )),
    ));
    assert!(check(&k, &eventual).holds);
}

#[test]
fn fixpoint_round_counts() {
    let k = KripkeStruct::builder()
        .state("s0")
        .state("s1")
        .transition(0, 1)
        .transition(1, 0)
        .label(0, "p")
        .label(1, "q")
        .initial_state(0)
        .build()
        .unwrap();
    let r = check(&k, &CtlFormula::ef(CtlFormula::atom("q")));
    assert_eq!(r.complexity.iterations("EF"), &[2]);
    let r = check(
        &k,
        &CtlFormula::eu(CtlFormula::ag(CtlFormula::atom("p")), CtlFormula::ef(CtlFormula::atom("q"))),
    );
    // Right operand first, then left, then the until itself.
    assert_eq!(r.complexity.operator_count(), 3);
    assert_eq!(r.complexity.iterations("EF").len(), 1);
    assert_eq!(r.complexity.iterations("AG").len(), 1);
    assert_eq!(r.complexity.iterations("EU").len(), 1);
    assert!(r.complexity.within_quadratic_bounds(k.state_count()));
}

#[test]
fn chain_rounds_grow_with_distance() {
    let n = 6;
    let mut b = KripkeStruct::builder();
    for i in 0..n {
        b = b.state(&format!("s{i}"));
    }
    for i in 0..n - 1 {
        b = b.transition(i, i + 1);
    }
    b = b.transition(n - 1, n - 1).label(n - 1, "goal").initial_state(0);
    let k = b.build().unwrap();
    let r = check(&k, &CtlFormula::ef(CtlFormula::atom("goal")));
    assert_eq!(r.complexity.iterations("EF"), &[6]);
    assert_eq!(r.satisfying_states.len(), n);
    let r = check(&k, &CtlFormula::af(CtlFormula::atom("goal")));
    assert_eq!(r.complexity.iterations("AF"), &[6]);
    assert!(r.complexity.within_quadratic_bounds(n));
}

#[test]
fn empty_structure_checks() {
    let k = KripkeStruct::new();
    let r = check(&k, &CtlFormula::ef(CtlFormula::atom("p")));
    assert!(r.satisfying_states.is_empty());
    assert!(r.holds);
    assert_eq!(r.complexity.iterations("EF"), &[1]);
    assert!(find_counterexample(&k, &CtlFormula::atom("p")).is_none());
}

#[test]
fn duality_af_and_eg_and_ag_and_ef() {
    let k = mutex();
    let p = || CtlFormula::atom("waiting");
    let af = check(&k, &CtlFormula::af(p()));
    let not_eg_not = check(&k, &CtlFormula::not(CtlFormula::eg(CtlFormula::not(p()))));
    assert_eq!(af.satisfying_states, not_eg_not.satisfying_states);
    let ag = check(&k, &CtlFormula::ag(p()));
    let not_ef_not = check(&k, &CtlFormula::not(CtlFormula::ef(CtlFormula::not(p()))));
    assert_eq!(ag.satisfying_states, not_ef_not.satisfying_states);
    let ax = check(&k, &CtlFormula::ax(p()));
    let not_ex_not = check(&k, &CtlFormula::not(CtlFormula::ex(CtlFormula::not(p()))));
    assert_eq!(ax.satisfying_states, not_ex_not.satisfying_states);
}

#[test]
fn fixpoint_equations_on_mutex() {
    // EF φ = φ ∨ EX EF φ and AG φ = φ ∧ AX AG φ, on concrete states.
    let k = mutex();
    let phi = || CtlFormula::atom("in_cs");
    let ef = check(&k, &CtlFormula::ef(phi()));
    let unfolded = check(&k, &CtlFormula::or(phi(), CtlFormula::ex(CtlFormula::ef(phi()))));
    assert_eq!(ef.satisfying_states, unfolded.satisfying_states);
    let notcs = || CtlFormula::not(CtlFormula::atom("in_cs"));
    let ag = check(&k, &CtlFormula::ag(notcs()));
    let unfolded = check(&k, &CtlFormula::and(notcs(), CtlFormula::ax(CtlFormula::ag(notcs()))));
    assert_eq!(ag.satisfying_states, unfolded.satisfying_states);
    let eu = check(&k, &CtlFormula::eu(notcs(), phi()));
    let unfolded = check(
        &k,
        &CtlFormula::or(
            phi(),
            CtlFormula::and(notcs(), CtlFormula::ex(CtlFormula::eu(notcs(), phi()))),
        ),
    );
    assert_eq!(eu.satisfying_states, unfolded.satisfying_states);
}

#[test]
fn check_result_clone() {
    let k = mutex();
    let r = check(&k, &CtlFormula::ef(CtlFormula::atom("in_cs")));
    let c = r.clone();
    assert_eq!(c.satisfying_states, r.satisfying_states);
    assert_eq!(c.holds, r.holds);
    assert_eq!(c.complexity.iterations("EF"), r.complexity.iterations("EF"));
}

#[test]
fn computation_tree_fixpoint_examples() {
    // s0 {p, q} -> s1, s0; s1 {q} -> s0.
    let k = KripkeStruct::builder()
        .state("s0")
        .state("s1")
        .transition(0, 1)
        .transition(0, 0)
        .transition(1, 0)
        .label(0, "p")
        .label(0, "q")
        .label(1, "q")
        .initial_state(0)
        .build()
        .unwrap();
    let ex = check(&k, &CtlFormula::ex(CtlFormula::atom("p")));
    assert_eq!(ex.satisfying_states.len(), 2);
    // EG q: nothing to remove in the first round.
    let eg = check(&k, &CtlFormula::eg(CtlFormula::atom("q")));
    assert_eq!(eg.satisfying_states.len(), 2);
    assert_eq!(eg.complexity.iterations("EG"), &[1]);
    // AG p: s0 is removed in the first round, the second changes nothing.
    let ag = check(&k, &CtlFormula::ag(CtlFormula::atom("p")));
    assert!(ag.satisfying_states.is_empty());
    assert_eq!(ag.complexity.iterations("AG"), &[2]);
    assert!(!ag.holds);
}

#[test]
fn witness_or_counterexample_exists() {
    let k = KripkeStruct::builder()
        .state("a")
        .state("b")
        .transition(0, 1)
        .transition(1, 0)
        .label(0, "p")
        .initial_state(0)
        .initial_state(1)
        .build()
        .unwrap();
    // p holds in a but not in b: both exist.
    let p = CtlFormula::atom("p");
    assert!(find_witness(&k, &p).is_some());
    assert!(find_counterexample(&k, &p).is_some());
    // EF p holds everywhere: a witness only.
    let efp = CtlFormula::ef(CtlFormula::atom("p"));
    assert!(find_witness(&k, &efp).is_some());
    assert!(find_counterexample(&k, &efp).is_none());
    // q holds nowhere: a counterexample only.
    let q = CtlFormula::atom("q");
    assert!(find_witness(&k, &q).is_none());
    assert!(find_counterexample(&k, &q).is_some());
}
