use ctl_model::counterexample::find_counterexample;
use ctl_model::formula::CtlFormula;
use ctl_model::kripke::KripkeStruct;

fn simple_kripke() -> KripkeStruct {
    KripkeStruct::builder()
        .state("s0")
        .state("s1")
        .state("s2")
        .transition(0, 1)
        .transition(1, 2)
        .transition(2, 2)
        .label(0, "p")
        .label(1, "q")
        .label(2, "p")
        .initial_state(0)
        .build()
        .unwrap()
}

#[test]
fn counterexample_atom_false() {
    let k = KripkeStruct::builder()
        .state("s0")
        .state("s1")
        .transition(0, 1)
        .transition(1, 0)
        .label(0, "p")
        .label(1, "p")
        .initial_state(0)
        .build()
        .unwrap();

    let ce = find_counterexample(&k, &CtlFormula::atom("q"));
    assert!(ce.is_some());
    assert!(ce.unwrap().path.contains(&0));
}

#[test]
fn no_counterexample_when_holds() {
    let k = simple_kripke();
    let ce = find_counterexample(&k, &CtlFormula::atom("p"));
    assert!(ce.is_none());
}

#[test]
fn counterexample_ag() {
    let k = simple_kripke();
    let ce = find_counterexample(&k, &CtlFormula::ag(CtlFormula::atom("p")));
    assert!(ce.is_some());
    let ce = ce.unwrap();
    assert!(!ce.path.is_empty());
}

// ─── Further cases ────────────────────────────────────────────────────────────

#[test]
fn counterexample_ag_path_reaches_violation() {
    let k = simple_kripke();
    let ce = find_counterexample(&k, &CtlFormula::ag(CtlFormula::atom("p"))).unwrap();
    assert_eq!(ce.path, vec![0, 1]);
    assert_eq!(ce.description, "Formula AG p is false in state 0 (s0)");
    assert_eq!(ce.formula, CtlFormula::ag(CtlFormula::atom("p")));
}

#[test]
fn counterexample_ax_names_violating_successor() {
    let k = KripkeStruct::builder()
        .state("s0")
        .state("s1")
        .state("s2")
        .transition(0, 1)
        .transition(0, 2)
        .transition(1, 0)
        .transition(2, 0)
        .label(1, "p")
        .initial_state(0)
        .build()
        .unwrap();
    let ce = find_counterexample(&k, &CtlFormula::ax(CtlFormula::atom("p"))).unwrap();
    assert_eq!(ce.path, vec![0, 2]);
}

#[test]
fn counterexample_ex_steps_to_first_successor() {
    // No state has p, so EX p fails at s0 and every step shows it.
    let k = KripkeStruct::builder()
        .state("s0")
        .state("s1")
        .transition(0, 1)
        .transition(1, 0)
        .initial_state(0)
        .build()
        .unwrap();
    let ce = find_counterexample(&k, &CtlFormula::ex(CtlFormula::atom("p"))).unwrap();
    assert_eq!(ce.path, vec![0, 1]);
}

#[test]
fn counterexample_af_avoids_goal() {
    // s0 -> s1 -> s0 loops without q; s0 -> s2 (q)
    let k = KripkeStruct::builder()
        .state("s0")
        .state("s1")
        .state("s2")
        .transition(0, 1)
        .transition(0, 2)
        .transition(1, 0)
        .transition(2, 2)
        .label(2, "q")
        .initial_state(0)
        .build()
        .unwrap();
    let ce = find_counterexample(&k, &CtlFormula::af(CtlFormula::atom("q"))).unwrap();
    assert_eq!(ce.path, vec![0, 1]);
    assert_eq!(ce.description, "Formula AF q is false in state 0 (s0)");
}

#[test]
fn counterexample_au_avoids_right_operand() {
    let k = KripkeStruct::builder()
        .state("s0")
        .state("s1")
        .state("s2")
        .transition(0, 0)
        .transition(0, 1)
        .transition(1, 2)
        .transition(2, 2)
        .label(0, "p")
        .label(2, "q")
        .initial_state(0)
        .build()
        .unwrap();
    let f = CtlFormula::au(CtlFormula::atom("p"), CtlFormula::atom("q"));
    let ce = find_counterexample(&k, &f).unwrap();
    // The walk takes the first successor outside q-states, s0 itself, which is
    // already on the path, so it stops there.
    assert_eq!(ce.path, vec![0]);
}

#[test]
fn counterexample_au_walks_until_revisit() {
    let k = KripkeStruct::builder()
        .state("s0")
        .state("s1")
        .state("s2")
        .transition(0, 1)
        .transition(1, 0)
        .transition(1, 2)
        .transition(2, 2)
        .label(0, "p")
        .label(2, "q")
        .initial_state(0)
        .build()
        .unwrap();
    let f = CtlFormula::au(CtlFormula::atom("p"), CtlFormula::atom("q"));
    let ce = find_counterexample(&k, &f).unwrap();
    assert_eq!(ce.path, vec![0, 1]);
}

#[test]
fn counterexample_first_failing_initial() {
    let k = KripkeStruct::builder()
        .state("a")
        .state("b")
        .transition(0, 1)
        .transition(1, 0)
        .label(0, "p")
        .initial_state(0)
        .initial_state(1)
        .build()
        .unwrap();
    let ce = find_counterexample(&k, &CtlFormula::atom("p")).unwrap();
    assert_eq!(ce.path, vec![1]);
    assert_eq!(ce.description, "Formula p is false in state 1 (b)");
}

#[test]
fn counterexample_ag_takes_shortest_path() {
    // s0 -> s1 -> s2 -> s3 (bad), and s0 -> s4 -> s3: the second is shorter.
    let k = KripkeStruct::builder()
        .state("s0")
        .state("s1")
        .state("s2")
        .state("s3")
        .state("s4")
        .transition(0, 1)
        .transition(0, 4)
        .transition(1, 2)
        .transition(2, 3)
        .transition(3, 3)
        .transition(4, 3)
        .label(0, "p")
        .label(1, "p")
        .label(2, "p")
        .label(4, "p")
        .initial_state(0)
        .build()
        .unwrap();
    let ce = find_counterexample(&k, &CtlFormula::ag(CtlFormula::atom("p"))).unwrap();
    assert_eq!(ce.path, vec![0, 4, 3]);
}

#[test]
fn counterexample_ag_prefers_successor_listed_first() {
    // Two shortest paths to the violating s3: 0 -> 2 -> 3 and 0 -> 1 -> 3.
    let k = KripkeStruct::builder()
        .state("s0")
        .state("s1")
        .state("s2")
        .state("s3")
        .transition(0, 2)
        .transition(0, 1)
        .transition(1, 3)
        .transition(2, 3)
        .transition(3, 3)
        .label(0, "p")
        .label(1, "p")
        .label(2, "p")
        .initial_state(0)
        .build()
        .unwrap();
    let ce = find_counterexample(&k, &CtlFormula::ag(CtlFormula::atom("p"))).unwrap();
    assert_eq!(ce.path, vec![0, 2, 3]);
}
