use ctl_model::formula::CtlFormula;
use ctl_model::kripke::KripkeStruct;
use ctl_model::witness::find_witness;

#[test]
fn witness_ef() {
    let k = KripkeStruct::builder()
        .state("s0")
        .state("s1")
        .transition(0, 1)
        .transition(1, 0)
        .label(0, "p")
        .label(1, "q")
        .initial_state(0)
        .build()
        .unwrap();

    let w = find_witness(&k, &CtlFormula::ef(CtlFormula::atom("q")));
    assert!(w.is_some());
    let w = w.unwrap();
    assert_eq!(w.path.len(), 2);
    assert_eq!(w.path[0], 0);
    assert_eq!(w.path[1], 1);
}

#[test]
fn witness_ex() {
    let k = KripkeStruct::builder()
        .state("s0")
        .state("s1")
        .transition(0, 1)
        .transition(1, 0)
        .label(0, "p")
        .label(1, "q")
        .initial_state(0)
        .build()
        .unwrap();

    let w = find_witness(&k, &CtlFormula::ex(CtlFormula::atom("q")));
    assert!(w.is_some());
    let w = w.unwrap();
    assert_eq!(w.path, vec![0, 1]);
}

#[test]
fn no_witness_when_false() {
    let k = KripkeStruct::builder()
        .state("s0")
        .state("s1")
        .transition(0, 1)
        .transition(1, 0)
        .label(0, "p")
        .label(1, "p")
        .initial_state(0)
        .build()
        .unwrap();

    let w = find_witness(&k, &CtlFormula::atom("q"));
    assert!(w.is_none());
}

#[test]
fn witness_eg_loop() {
    let k = KripkeStruct::builder()
        .state("s0")
        .state("s1")
        .transition(0, 1)
        .transition(1, 0)
        .label(0, "p")
        .label(1, "p")
        .initial_state(0)
        .build()
        .unwrap();

    let w = find_witness(&k, &CtlFormula::eg(CtlFormula::atom("p")));
    assert!(w.is_some());
    let path = &w.unwrap().path;
    assert!(path.len() >= 2);
}

// ─── Further cases ────────────────────────────────────────────────────────────

#[test]
fn witness_eg_closes_cycle_at_start() {
    let k = KripkeStruct::builder()
        .state("s0")
        .state("s1")
        .transition(0, 1)
        .transition(1, 0)
        .label(0, "p")
        .label(1, "p")
        .initial_state(0)
        .build()
        .unwrap();
    let w = find_witness(&k, &CtlFormula::eg(CtlFormula::atom("p"))).unwrap();
    assert_eq!(w.path, vec![0, 1, 0]);
    assert_eq!(w.description, "Formula EG p is true in state 0 (s0)");
}

#[test]
fn witness_eg_closes_loop_inside_eg_states() {
    // EG p holds at s0 by its self-loop; s1 has p but no infinite p-path, so
    // the walk stays among the EG states and closes the loop at s0.
    let k = KripkeStruct::builder()
        .state("s0")
        .state("s1")
        .state("s2")
        .transition(0, 1)
        .transition(0, 0)
        .transition(1, 2)
        .transition(2, 2)
        .label(0, "p")
        .label(1, "p")
        .initial_state(0)
        .build()
        .unwrap();
    let w = find_witness(&k, &CtlFormula::eg(CtlFormula::atom("p"))).unwrap();
    assert_eq!(w.path, vec![0, 0]);
}

#[test]
fn witness_eu_goes_through_left_operand() {
    let k = KripkeStruct::builder()
        .state("s0")
        .state("s1")
        .state("s2")
        .state("s3")
        .transition(0, 3)
        .transition(0, 1)
        .transition(1, 2)
        .transition(2, 2)
        .transition(3, 3)
        .label(0, "p")
        .label(1, "p")
        .label(2, "q")
        .initial_state(0)
        .build()
        .unwrap();
    let f = CtlFormula::eu(CtlFormula::atom("p"), CtlFormula::atom("q"));
    let w = find_witness(&k, &f).unwrap();
    assert_eq!(w.path, vec![0, 1, 2]);
}

#[test]
fn witness_ef_shortest_path_over_long_chain() {
    let k = KripkeStruct::builder()
        .state("idle")
        .state("trying")
        .state("critical")
        .transition(0, 1)
        .transition(1, 2)
        .transition(2, 0)
        .transition(0, 0)
        .label(2, "in_cs")
        .label(1, "waiting")
        .initial_state(0)
        .build()
        .unwrap();
    let w = find_witness(&k, &CtlFormula::ef(CtlFormula::atom("in_cs"))).unwrap();
    let names: Vec<&str> = w.path.iter().map(|&i| k.state_name(i).unwrap()).collect();
    assert_eq!(names, vec!["idle", "trying", "critical"]);
}

#[test]
fn witness_universal_is_start_state() {
    let k = KripkeStruct::builder()
        .state("s0")
        .transition(0, 0)
        .label(0, "p")
        .initial_state(0)
        .build()
        .unwrap();
    let w = find_witness(&k, &CtlFormula::ag(CtlFormula::atom("p"))).unwrap();
    assert_eq!(w.path, vec![0]);
}

#[test]
fn witness_without_initial_states_is_none() {
    let k = KripkeStruct::builder()
        .state("s0")
        .transition(0, 0)
        .build()
        .unwrap();
    assert!(find_witness(&k, &CtlFormula::atom("anything")).is_none());
}

#[test]
fn witness_starts_at_first_satisfying_initial_state() {
    let k = KripkeStruct::builder()
        .state("a")
        .state("b")
        .state("c")
        .transition(0, 0)
        .transition(1, 2)
        .transition(2, 2)
        .label(2, "q")
        .initial_state(0)
        .initial_state(1)
        .build()
        .unwrap();
    // EF q fails in a but holds in b.
    let w = find_witness(&k, &CtlFormula::ef(CtlFormula::atom("q"))).unwrap();
    assert_eq!(w.path, vec![1, 2]);
    assert_eq!(w.description, "Formula EF q is true in state 1 (b)");
    // Nothing satisfies r.
    assert!(find_witness(&k, &CtlFormula::ef(CtlFormula::atom("r"))).is_none());
}

#[test]
fn witness_eu_takes_shortest_path() {
    // p-states s0, s1, s2, s4; q at s3; s0 -> s1 -> s2 -> s3 and s0 -> s4 -> s3.
    let k = KripkeStruct::builder()
        .state("s0")
        .state("s1")
        .state("s2")
        .state("s3")
        .state("s4")
        .transition(0, 1)
        .transition(0, 4)
        .transition(1, 2)
        .transition(2, 3)
        .transition(3, 3)
        .transition(4, 3)
        .label(0, "p")
        .label(1, "p")
        .label(2, "p")
        .label(4, "p")
        .label(3, "q")
        .initial_state(0)
        .build()
        .unwrap();
    let f = CtlFormula::eu(CtlFormula::atom("p"), CtlFormula::atom("q"));
    let w = find_witness(&k, &f).unwrap();
    assert_eq!(w.path, vec![0, 4, 3]);
}

#[test]
fn witness_ef_prefers_successor_listed_first() {
    // Two shortest paths to q: 0 -> 2 -> 3 and 0 -> 1 -> 3; 2 is listed first.
    let k = KripkeStruct::builder()
        .state("s0")
        .state("s1")
        .state("s2")
        .state("s3")
        .transition(0, 2)
        .transition(0, 1)
        .transition(1, 3)
        .transition(2, 3)
        .transition(3, 3)
        .label(3, "q")
        .initial_state(0)
        .build()
        .unwrap();
    let w = find_witness(&k, &CtlFormula::ef(CtlFormula::atom("q"))).unwrap();
    assert_eq!(w.path, vec![0, 2, 3]);
    let k2 = KripkeStruct::builder()
        .state("s0")
        .state("s1")
        .state("s2")
        .state("s3")
        .transition(0, 1)
        .transition(0, 2)
        .transition(1, 3)
        .transition(2, 3)
        .transition(3, 3)
        .label(3, "q")
        .initial_state(0)
        .build()
        .unwrap();
    let w2 = find_witness(&k2, &CtlFormula::ef(CtlFormula::atom("q"))).unwrap();
    assert_eq!(w2.path, vec![0, 1, 3]);
}
