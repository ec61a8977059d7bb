use ctl_model::kripke::KripkeStruct;
use std::collections::HashSet;

#[test]
fn builder_basic() {
    let k = KripkeStruct::builder()
        .state("a")
        .state("b")
        .transition(0, 1)
        .transition(1, 0)
        .initial_state(0)
        .build()
        .unwrap();
    assert_eq!(k.state_count(), 2);
    assert_eq!(k.state_name(0), Some("a"));
    assert_eq!(k.state_name(1), Some("b"));
    assert_eq!(k.initial_states, vec![0]);
}

#[test]
fn builder_labels() {
    let k = KripkeStruct::builder()
        .state("s0")
        .state("s1")
        .transition(0, 1)
        .transition(1, 0)
        .label(0, "p")
        .label(0, "q")
        .label(1, "r")
        .initial_state(0)
        .build()
        .unwrap();
    assert!(k.labels(0).contains("p"));
    assert!(k.labels(0).contains("q"));
    assert!(k.labels(1).contains("r"));
    assert!(!k.labels(1).contains("p"));
}

#[test]
fn builder_validate_bad_transition() {
    let result = KripkeStruct::builder()
        .state("s0")
        .transition(0, 5) // invalid target
        .initial_state(0)
        .build();
    assert!(result.is_err());
}

#[test]
fn builder_validate_no_successors() {
    let result = KripkeStruct::builder()
        .state("s0")
        .state("s1")
        .label(0, "p")
        .initial_state(0)
        .build();
    assert!(result.is_err()); // no transitions = not total
}

#[test]
fn predecessors() {
    let k = KripkeStruct::builder()
        .state("s0")
        .state("s1")
        .state("s2")
        .transition(0, 1)
        .transition(2, 1)
        .transition(1, 0)
        .initial_state(0)
        .build()
        .unwrap();
    let preds = k.predecessors(1);
    assert!(preds.contains(&0));
    assert!(preds.contains(&2));
}

#[test]
fn default_empty() {
    let k = KripkeStruct::default();
    assert_eq!(k.state_count(), 0);
}

#[test]
fn self_loop() {
    let k = KripkeStruct::builder()
        .state("s0")
        .transition(0, 0)
        .label(0, "p")
        .initial_state(0)
        .build()
        .unwrap();
    assert_eq!(k.successors(0), &[0]);
}

// ─── Further cases ────────────────────────────────────────────────────────────

#[test]
fn validate_message_bad_target() {
    let err = KripkeStruct::builder()
        .state("s0")
        .transition(0, 5)
        .initial_state(0)
        .build()
        .unwrap_err();
    assert_eq!(err, "Invalid transition target: state index 5 from 0");
}

#[test]
fn validate_message_bad_source() {
    let err = KripkeStruct::builder()
        .state("s0")
        .transition(0, 0)
        .transition(12, 0)
        .build()
        .unwrap_err();
    assert_eq!(err, "Invalid transition source: state index 12");
}

#[test]
fn validate_message_bad_initial() {
    let err = KripkeStruct::builder()
        .state("s0")
        .transition(0, 0)
        .initial_state(0)
        .initial_state(3)
        .build()
        .unwrap_err();
    assert_eq!(err, "Invalid initial state index: 3");
}

#[test]
fn validate_message_dead_state() {
    let err = KripkeStruct::builder()
        .state("s0")
        .state("s1")
        .state("s2")
        .transition(0, 1)
        .transition(2, 0)
        .build()
        .unwrap_err();
    assert_eq!(
        err,
        "State 1 (s1) has no successors — transition relation must be total"
    );
}

#[test]
fn validate_accepts_valid_structure() {
    let mut k = KripkeStruct::new();
    assert!(k.validate().is_ok());
    k.states.push("x".to_string());
    assert!(k.validate().is_err());
    k.transitions.insert(0, vec![0]);
    assert!(k.validate().is_ok());
}

#[test]
fn initial_state_is_recorded_once() {
    let k = KripkeStruct::builder()
        .state("s0")
        .state("s1")
        .transition(0, 1)
        .transition(1, 1)
        .initial_state(1)
        .initial_state(0)
        .initial_state(1)
        .build()
        .unwrap();
    assert_eq!(k.initial_states, vec![1, 0]);
}

#[test]
fn successors_in_insertion_order_and_missing() {
    let k = KripkeStruct::builder()
        .state("s0")
        .state("s1")
        .state("s2")
        .transition(0, 2)
        .transition(0, 1)
        .transition(0, 2)
        .transition(1, 1)
        .transition(2, 0)
        .build()
        .unwrap();
    assert_eq!(k.successors(0), &[2, 1, 2]);
    assert!(k.successors(7).is_empty());
    assert_eq!(k.state_name(3), None);
    assert!(k.labels(0).is_empty());
    assert!(!k.has_label(0, "p"));
}

#[test]
fn predecessors_of_set_collects_sources() {
    let k = KripkeStruct::builder()
        .state("s0")
        .state("s1")
        .state("s2")
        .state("s3")
        .transition(0, 1)
        .transition(1, 2)
        .transition(2, 2)
        .transition(3, 0)
        .build()
        .unwrap();
    let targets: HashSet<usize> = [1, 2].into_iter().collect();
    let preds = k.predecessors_of_set(&targets);
    let expected: HashSet<usize> = [0, 1, 2].into_iter().collect();
    assert_eq!(preds, expected);
    let mut p3 = k.predecessors(0);
    p3.sort();
    assert_eq!(p3, vec![3]);
}

#[test]
fn has_label_matches_labels() {
    let k = KripkeStruct::builder()
        .state("s0")
        .transition(0, 0)
        .label(0, "p")
        .build()
        .unwrap();
    assert!(k.has_label(0, "p"));
    assert!(!k.has_label(0, "q"));
}

#[test]
fn cloned_structure_has_same_parts() {
    let k = KripkeStruct::builder()
        .state("a")
        .state("b")
        .transition(0, 1)
        .transition(1, 0)
        .label(1, "p")
        .initial_state(0)
        .build()
        .unwrap();
    let c = k.clone();
    assert_eq!(c.states, k.states);
    assert_eq!(c.transitions, k.transitions);
    assert_eq!(c.labeling, k.labeling);
    assert_eq!(c.initial_states, k.initial_states);
    assert!(c.validate().is_ok());
}
