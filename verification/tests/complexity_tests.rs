use ctl_model::complexity::ComplexityReport;

#[test]
fn empty_report() {
    let r = ComplexityReport::new();
    assert_eq!(r.total_iterations(), 0);
    assert_eq!(r.max_iterations(), 0);
    assert!(r.iterations("EF").is_empty());
}

#[test]
fn record_and_query() {
    let mut r = ComplexityReport::new();
    r.record("EF", 3);
    r.record("EF", 5);
    r.record("AG", 2);
    assert_eq!(r.iterations("EF"), &[3, 5]);
    assert_eq!(r.total_iterations(), 10);
    assert_eq!(r.max_iterations(), 5);
    assert_eq!(r.operator_count(), 2);
}

#[test]
fn quadratic_bounds() {
    let mut r = ComplexityReport::new();
    r.record("EF", 5);
    r.record("EG", 3);
    assert!(r.within_quadratic_bounds(10));
    assert!(!r.within_quadratic_bounds(3));
}

// ─── Further cases ────────────────────────────────────────────────────────────

#[test]
fn report_text_empty() {
    let r = ComplexityReport::default();
    assert_eq!(
        r.to_string(),
        "Complexity Report\n=================\nNo fixpoint operations performed.\n"
    );
}

#[test]
fn report_text_lines() {
    let mut r = ComplexityReport::new();
    r.record("EF", 3);
    r.record("AG", 12);
    r.record("EF", 5);
    assert_eq!(
        r.to_string(),
        "Complexity Report\n=================\n  EF: 2 occurrence(s), total 8 iterations, max 5\n  AG: 1 occurrence(s), total 12 iterations, max 12\n  Total: 20 iterations\n"
    );
}

#[test]
fn unrecorded_operator_has_no_counts() {
    let mut r = ComplexityReport::new();
    r.record("AU", 1);
    assert!(r.iterations("EU").is_empty());
    assert_eq!(r.iterations("AU"), &[1]);
    assert_eq!(r.operator_count(), 1);
}

#[test]
fn bounds_edge_equal_count() {
    let mut r = ComplexityReport::new();
    r.record("EG", 4);
    assert!(r.within_quadratic_bounds(4));
    assert!(!r.within_quadratic_bounds(0));
    assert!(ComplexityReport::new().within_quadratic_bounds(0));
}

#[test]
fn clone_keeps_counts() {
    let mut r = ComplexityReport::new();
    r.record("EF", 7);
    let c = r.clone();
    assert_eq!(c.iterations("EF"), &[7]);
    assert_eq!(c.total_iterations(), 7);
}

#[test]
fn record_changes_only_its_operator() {
    let mut r = ComplexityReport::new();
    assert!(r.within_quadratic_bounds(0));
    r.record("EF", 2);
    r.record("AG", 4);
    let before_ag = r.iterations("AG").to_vec();
    let total = r.total_iterations();
    let count = r.operator_count();
    r.record("EF", 3);
    assert_eq!(r.iterations("EF"), &[2, 3]);
    assert_eq!(r.iterations("AG"), before_ag.as_slice());
    assert_eq!(r.total_iterations(), total + 3);
    assert_eq!(r.operator_count(), count);
    r.record("EU", 1);
    assert_eq!(r.operator_count(), count + 1);
    assert!(r.within_quadratic_bounds(4));
    assert!(r.within_quadratic_bounds(5));
    assert!(!r.within_quadratic_bounds(3));
}
