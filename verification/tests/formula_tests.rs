use ctl_model::formula::CtlFormula;

#[test]
fn display_atom() {
    assert_eq!(CtlFormula::atom("p").to_string(), "p");
}

#[test]
fn display_not() {
    assert_eq!(CtlFormula::not(CtlFormula::atom("p")).to_string(), "¬p");
}

#[test]
fn display_and() {
    assert_eq!(
        CtlFormula::and(CtlFormula::atom("p"), CtlFormula::atom("q")).to_string(),
        "(p ∧ q)"
    );
}

#[test]
fn display_ex() {
    assert_eq!(CtlFormula::ex(CtlFormula::atom("p")).to_string(), "EX p");
}

#[test]
fn display_eu() {
    assert_eq!(
        CtlFormula::eu(CtlFormula::atom("p"), CtlFormula::atom("q")).to_string(),
        "(p EU q)"
    );
}

#[test]
fn test_size() {
    let f = CtlFormula::and(
        CtlFormula::atom("p"),
        CtlFormula::not(CtlFormula::atom("q")),
    );
    assert_eq!(f.size(), 4);
}

#[test]
fn formula_display_complex() {
    let f = CtlFormula::ag(CtlFormula::implies(
        CtlFormula::atom("request"),
        CtlFormula::af(CtlFormula::atom("grant")),
    ));
    let s = f.to_string();
    assert!(s.contains("AG"));
    assert!(s.contains("AF"));
    assert!(s.contains("request"));
    assert!(s.contains("grant"));
}

#[test]
fn formula_size_nested() {
    let f = CtlFormula::and(
        CtlFormula::or(
            CtlFormula::atom("a"),
            CtlFormula::not(CtlFormula::atom("b")),
        ),
        CtlFormula::ef(CtlFormula::atom("c")),
    );
    assert_eq!(f.size(), 7);
}

// ─── Further cases ────────────────────────────────────────────────────────────

#[test]
fn display_every_operator() {
    let p = || CtlFormula::atom("p");
    let q = || CtlFormula::atom("q");
    assert_eq!(CtlFormula::or(p(), q()).to_string(), "(p ∨ q)");
    assert_eq!(CtlFormula::ax(p()).to_string(), "AX p");
    assert_eq!(CtlFormula::ef(p()).to_string(), "EF p");
    assert_eq!(CtlFormula::af(p()).to_string(), "AF p");
    assert_eq!(CtlFormula::eg(p()).to_string(), "EG p");
    assert_eq!(CtlFormula::ag(p()).to_string(), "AG p");
    assert_eq!(CtlFormula::au(p(), q()).to_string(), "(p AU q)");
}

#[test]
fn display_parenthesizes_compound_operands() {
    let f = CtlFormula::ag(CtlFormula::ef(CtlFormula::atom("in_cs")));
    assert_eq!(f.to_string(), "AG (EF in_cs)");
    let g = CtlFormula::not(CtlFormula::and(CtlFormula::atom("a"), CtlFormula::atom("b")));
    assert_eq!(g.to_string(), "¬((a ∧ b))");
    let h = CtlFormula::ag(CtlFormula::implies(
        CtlFormula::atom("request"),
        CtlFormula::af(CtlFormula::atom("grant")),
    ));
    assert_eq!(h.to_string(), "AG ((¬request ∨ AF grant))");
}

#[test]
fn implies_and_iff_shapes() {
    let f = CtlFormula::implies(CtlFormula::atom("a"), CtlFormula::atom("b"));
    assert_eq!(
        f,
        CtlFormula::or(CtlFormula::not(CtlFormula::atom("a")), CtlFormula::atom("b"))
    );
    let g = CtlFormula::iff(CtlFormula::atom("a"), CtlFormula::atom("b"));
    assert_eq!(
        g,
        CtlFormula::and(
            CtlFormula::implies(CtlFormula::atom("a"), CtlFormula::atom("b")),
            CtlFormula::implies(CtlFormula::atom("b"), CtlFormula::atom("a")),
        )
    );
    assert_eq!(g.size(), 9);
}

#[test]
fn sub_formulas_in_order() {
    let f = CtlFormula::eu(CtlFormula::atom("a"), CtlFormula::ex(CtlFormula::atom("b")));
    let subs = f.sub_formulas();
    assert_eq!(subs.len(), 2);
    assert_eq!(*subs[0], CtlFormula::atom("a"));
    assert_eq!(*subs[1], CtlFormula::ex(CtlFormula::atom("b")));
    assert!(CtlFormula::atom("a").sub_formulas().is_empty());
    assert_eq!(CtlFormula::ag(CtlFormula::atom("x")).sub_formulas().len(), 1);
}

#[test]
fn clone_is_equal() {
    let f = CtlFormula::au(CtlFormula::atom("a"), CtlFormula::not(CtlFormula::atom("b")));
    assert_eq!(f.clone(), f);
}
