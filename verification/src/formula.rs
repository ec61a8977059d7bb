//! CTL formulas: the abstract syntax, its standard notation and its size.
use vstd::prelude::*;
use vstd::string::StringExecFns;

verus! {

/// A Computation Tree Logic (CTL) formula.
///
/// Every temporal operator pairs a path quantifier (**E**: some path, **A**: all
/// paths) with a state quantifier (**X** next, **F** eventually, **G** always,
/// **U** until):
///
/// ```text
/// φ ::= p | ¬φ | φ₁ ∧ φ₂ | φ₁ ∨ φ₂
///     | EX φ | AX φ | EF φ | AF φ | EG φ | AG φ
///     | φ₁ EU φ₂ | φ₁ AU φ₂
/// ```
#[derive(Debug, PartialEq, Eq, Hash)]
pub enum CtlFormula {
    /// Atomic proposition.
    Atom(String),
    /// Negation: ¬φ
    Not(Box<CtlFormula>),
    /// Conjunction: φ₁ ∧ φ₂
    And(Box<CtlFormula>, Box<CtlFormula>),
    /// Disjunction: φ₁ ∨ φ₂
    Or(Box<CtlFormula>, Box<CtlFormula>),
    /// Exists next: EX φ — some successor satisfies φ.
    Ex(Box<CtlFormula>),
    /// All next: AX φ — all successors satisfy φ.
    Ax(Box<CtlFormula>),
    /// Exists eventually: EF φ — on some path φ eventually holds.
    Ef(Box<CtlFormula>),
    /// All eventually: AF φ — on all paths φ eventually holds.
    Af(Box<CtlFormula>),
    /// Exists globally: EG φ — on some path φ always holds.
    Eg(Box<CtlFormula>),
    /// All globally: AG φ — on all paths φ always holds.
    Ag(Box<CtlFormula>),
    /// Exists until: φ₁ EU φ₂ — on some path φ₁ holds until φ₂ holds.
    Eu(Box<CtlFormula>, Box<CtlFormula>),
    /// All until: φ₁ AU φ₂ — on all paths φ₁ holds until φ₂ holds.
    Au(Box<CtlFormula>, Box<CtlFormula>),
}

impl Clone for CtlFormula {
    fn clone(&self) -> (r: Self)
        ensures
            r == *self,
        decreases self,
    {
        match self {
            CtlFormula::Atom(s) => CtlFormula::Atom(s.clone()),
            CtlFormula::Not(g) => CtlFormula::Not(Box::new((**g).clone())),
            CtlFormula::And(l, r) => CtlFormula::And(Box::new((**l).clone()), Box::new((**r).clone())),
            CtlFormula::Or(l, r) => CtlFormula::Or(Box::new((**l).clone()), Box::new((**r).clone())),
            CtlFormula::Ex(g) => CtlFormula::Ex(Box::new((**g).clone())),
            CtlFormula::Ax(g) => CtlFormula::Ax(Box::new((**g).clone())),
            CtlFormula::Ef(g) => CtlFormula::Ef(Box::new((**g).clone())),
            CtlFormula::Af(g) => CtlFormula::Af(Box::new((**g).clone())),
            CtlFormula::Eg(g) => CtlFormula::Eg(Box::new((**g).clone())),
            CtlFormula::Ag(g) => CtlFormula::Ag(Box::new((**g).clone())),
            CtlFormula::Eu(l, r) => CtlFormula::Eu(Box::new((**l).clone()), Box::new((**r).clone())),
            CtlFormula::Au(l, r) => CtlFormula::Au(Box::new((**l).clone()), Box::new((**r).clone())),
        }
    }
}

/// `φ₁ → φ₂`, written as `¬φ₁ ∨ φ₂`.
pub open spec fn implication(l: CtlFormula, r: CtlFormula) -> CtlFormula {
    CtlFormula::Or(Box::new(CtlFormula::Not(Box::new(l))), Box::new(r))
}

/// The immediate sub-formulas, left to right.
pub open spec fn children(f: CtlFormula) -> Seq<CtlFormula> {
    match f {
        CtlFormula::Atom(_) => seq![],
        CtlFormula::Not(p) => seq![*p],
        CtlFormula::Ex(p) => seq![*p],
        CtlFormula::Ax(p) => seq![*p],
        CtlFormula::Ef(p) => seq![*p],
        CtlFormula::Af(p) => seq![*p],
        CtlFormula::Eg(p) => seq![*p],
        CtlFormula::Ag(p) => seq![*p],
        CtlFormula::And(l, r) => seq![*l, *r],
        CtlFormula::Or(l, r) => seq![*l, *r],
        CtlFormula::Eu(l, r) => seq![*l, *r],
        CtlFormula::Au(l, r) => seq![*l, *r],
    }
}

/// The number of nodes of the formula tree.
pub open spec fn formula_size(f: CtlFormula) -> nat
    decreases f,
{
    match f {
        CtlFormula::Atom(_) => 1,
        CtlFormula::Not(p) => 1 + formula_size(*p),
        CtlFormula::Ex(p) => 1 + formula_size(*p),
        CtlFormula::Ax(p) => 1 + formula_size(*p),
        CtlFormula::Ef(p) => 1 + formula_size(*p),
        CtlFormula::Af(p) => 1 + formula_size(*p),
        CtlFormula::Eg(p) => 1 + formula_size(*p),
        CtlFormula::Ag(p) => 1 + formula_size(*p),
        CtlFormula::And(l, r) => 1 + formula_size(*l) + formula_size(*r),
        CtlFormula::Or(l, r) => 1 + formula_size(*l) + formula_size(*r),
        CtlFormula::Eu(l, r) => 1 + formula_size(*l) + formula_size(*r),
        CtlFormula::Au(l, r) => 1 + formula_size(*l) + formula_size(*r),
    }
}

/// An operand as it appears after a prefix operator: atoms bare, anything else
/// in parentheses.
pub open spec fn operand(g: CtlFormula, text: Seq<char>) -> Seq<char> {
    if g is Atom {
        text
    } else {
        "("@ + text + ")"@
    }
}

/// The standard CTL notation of a formula, with `¬`, `∧` and `∨`.
pub open spec fn notation(f: CtlFormula) -> Seq<char>
    decreases f,
{
    match f {
        CtlFormula::Atom(s) => s@,
        CtlFormula::Not(p) => "¬"@ + operand(*p, notation(*p)),
        CtlFormula::And(l, r) => "("@ + notation(*l) + " ∧ "@ + notation(*r) + ")"@,
        CtlFormula::Or(l, r) => "("@ + notation(*l) + " ∨ "@ + notation(*r) + ")"@,
        CtlFormula::Ex(p) => "EX "@ + operand(*p, notation(*p)),
        CtlFormula::Ax(p) => "AX "@ + operand(*p, notation(*p)),
        CtlFormula::Ef(p) => "EF "@ + operand(*p, notation(*p)),
        CtlFormula::Af(p) => "AF "@ + operand(*p, notation(*p)),
        CtlFormula::Eg(p) => "EG "@ + operand(*p, notation(*p)),
        CtlFormula::Ag(p) => "AG "@ + operand(*p, notation(*p)),
        CtlFormula::Eu(l, r) => "("@ + notation(*l) + " EU "@ + notation(*r) + ")"@,
        CtlFormula::Au(l, r) => "("@ + notation(*l) + " AU "@ + notation(*r) + ")"@,
    }
}

/// `(left op right)` for a binary operator with its surrounding spaces in `op`.
fn infixed(left: String, op: &str, right: String) -> (res: String)
    ensures
        res@ == "("@ + left@ + op@ + right@ + ")"@,
{
    let mut s = String::from_str("(");
    s.append(left.as_str());
    s.append(op);
    s.append(right.as_str());
    s.append(")");
    s
}

/// `prefix` followed by an already rendered operand.
fn prefixed(prefix: &str, inner: String) -> (res: String)
    ensures
        res@ == prefix@ + inner@,
{
    let mut s = String::from_str(prefix);
    s.append(inner.as_str());
    s
}

fn paren_if_needed(phi: &CtlFormula) -> (r: String)
    ensures
        r@ == operand(*phi, notation(*phi)),
    decreases phi, 1int,
{
    match phi {
        CtlFormula::Atom(_) => phi.to_string(),
        _ => {
            let mut s = String::from_str("(");
            let inner = phi.to_string();
            s.append(inner.as_str());
            s.append(")");
            s
        },
    }
}

impl CtlFormula {
    /// The formula in standard CTL notation, e.g. `(p ∧ EX q)`.
    pub fn to_string(&self) -> (r: String)
        ensures
            r@ == notation(*self),
            *self is Ex ==> r@.take(3) == "EX "@,
            *self is Ax ==> r@.take(3) == "AX "@,
            *self is Ef ==> r@.take(3) == "EF "@,
            *self is Af ==> r@.take(3) == "AF "@,
            *self is Eg ==> r@.take(3) == "EG "@,
            *self is Ag ==> r@.take(3) == "AG "@,
        decreases self, 0int,
    {
        proof {
            match self {
                CtlFormula::Ex(g) | CtlFormula::Ax(g) | CtlFormula::Ef(g) | CtlFormula::Af(g)
                | CtlFormula::Eg(g) | CtlFormula::Ag(g) => {
                    crate::laws::law_notation_names_operator(**g, **g, **g);
                },
                _ => {},
            }
        }
        match self {
            CtlFormula::Atom(s) => s.clone(),
            CtlFormula::Not(p) => prefixed("¬", paren_if_needed(p)),
            CtlFormula::And(l, r) => infixed(l.to_string(), " ∧ ", r.to_string()),
            CtlFormula::Or(l, r) => infixed(l.to_string(), " ∨ ", r.to_string()),
            CtlFormula::Ex(p) => prefixed("EX ", paren_if_needed(p)),
            CtlFormula::Ax(p) => prefixed("AX ", paren_if_needed(p)),
            CtlFormula::Ef(p) => prefixed("EF ", paren_if_needed(p)),
            CtlFormula::Af(p) => prefixed("AF ", paren_if_needed(p)),
            CtlFormula::Eg(p) => prefixed("EG ", paren_if_needed(p)),
            CtlFormula::Ag(p) => prefixed("AG ", paren_if_needed(p)),
            CtlFormula::Eu(l, r) => infixed(l.to_string(), " EU ", r.to_string()),
            CtlFormula::Au(l, r) => infixed(l.to_string(), " AU ", r.to_string()),
        }
    }

    /// Construct an atom.
    pub fn atom(s: &str) -> (r: CtlFormula)
        ensures
            r matches CtlFormula::Atom(p) && p@ == s@,
    {
        CtlFormula::Atom(String::from_str(s))
    }

    /// Construct ¬φ.
    pub fn not(phi: CtlFormula) -> (r: CtlFormula)
        ensures
            r == CtlFormula::Not(Box::new(phi)),
    {
        CtlFormula::Not(Box::new(phi))
    }

    /// Construct φ₁ ∧ φ₂.
    pub fn and(l: CtlFormula, r: CtlFormula) -> (res: CtlFormula)
        ensures
            res == CtlFormula::And(Box::new(l), Box::new(r)),
    {
        CtlFormula::And(Box::new(l), Box::new(r))
    }

    /// Construct φ₁ ∨ φ₂.
    pub fn or(l: CtlFormula, r: CtlFormula) -> (res: CtlFormula)
        ensures
            res == CtlFormula::Or(Box::new(l), Box::new(r)),
    {
        CtlFormula::Or(Box::new(l), Box::new(r))
    }

    /// Construct EX φ.
    pub fn ex(phi: CtlFormula) -> (r: CtlFormula)
        ensures
            r == CtlFormula::Ex(Box::new(phi)),
    {
        CtlFormula::Ex(Box::new(phi))
    }

    /// Construct AX φ.
    pub fn ax(phi: CtlFormula) -> (r: CtlFormula)
        ensures
            r == CtlFormula::Ax(Box::new(phi)),
    {
        CtlFormula::Ax(Box::new(phi))
    }

    /// Construct EF φ.
    pub fn ef(phi: CtlFormula) -> (r: CtlFormula)
        ensures
            r == CtlFormula::Ef(Box::new(phi)),
    {
        CtlFormula::Ef(Box::new(phi))
    }

    /// Construct AF φ.
    pub fn af(phi: CtlFormula) -> (r: CtlFormula)
        ensures
            r == CtlFormula::Af(Box::new(phi)),
    {
        CtlFormula::Af(Box::new(phi))
    }

    /// Construct EG φ.
    pub fn eg(phi: CtlFormula) -> (r: CtlFormula)
        ensures
            r == CtlFormula::Eg(Box::new(phi)),
    {
        CtlFormula::Eg(Box::new(phi))
    }

    /// Construct AG φ.
    pub fn ag(phi: CtlFormula) -> (r: CtlFormula)
        ensures
            r == CtlFormula::Ag(Box::new(phi)),
    {
        CtlFormula::Ag(Box::new(phi))
    }

    /// Construct φ₁ EU φ₂.
    pub fn eu(l: CtlFormula, r: CtlFormula) -> (res: CtlFormula)
        ensures
            res == CtlFormula::Eu(Box::new(l), Box::new(r)),
    {
        CtlFormula::Eu(Box::new(l), Box::new(r))
    }

    /// Construct φ₁ AU φ₂.
    pub fn au(l: CtlFormula, r: CtlFormula) -> (res: CtlFormula)
        ensures
            res == CtlFormula::Au(Box::new(l), Box::new(r)),
    {
        CtlFormula::Au(Box::new(l), Box::new(r))
    }

    /// Convenience: implies φ₁ → φ₂ = ¬φ₁ ∨ φ₂
    pub fn implies(l: CtlFormula, r: CtlFormula) -> (res: CtlFormula)
        ensures
            res == implication(l, r),
    {
        CtlFormula::Or(Box::new(CtlFormula::Not(Box::new(l))), Box::new(r))
    }

    /// Convenience: iff φ₁ ↔ φ₂ = (φ₁ → φ₂) ∧ (φ₂ → φ₁)
    pub fn iff(l: CtlFormula, r: CtlFormula) -> (res: CtlFormula)
        ensures
            res == CtlFormula::And(Box::new(implication(l, r)), Box::new(implication(r, l))),
    {
        CtlFormula::And(
            Box::new(CtlFormula::implies(l.clone(), r.clone())),
            Box::new(CtlFormula::implies(r, l)),
        )
    }

    /// The immediate sub-formulas of this formula, left to right.
    pub fn sub_formulas(&self) -> (r: Vec<&CtlFormula>)
        ensures
            r@.len() == children(*self).len(),
            forall|i: int| 0 <= i < r@.len() ==> *r@[i] == children(*self)[i],
            self is Atom ==> r@.len() == 0,
            self matches CtlFormula::Not(g) ==> r@.len() == 1 && *r@[0] == *g,
            self matches CtlFormula::Ex(g) ==> r@.len() == 1 && *r@[0] == *g,
            self matches CtlFormula::Ax(g) ==> r@.len() == 1 && *r@[0] == *g,
            self matches CtlFormula::Ef(g) ==> r@.len() == 1 && *r@[0] == *g,
            self matches CtlFormula::Af(g) ==> r@.len() == 1 && *r@[0] == *g,
            self matches CtlFormula::Eg(g) ==> r@.len() == 1 && *r@[0] == *g,
            self matches CtlFormula::Ag(g) ==> r@.len() == 1 && *r@[0] == *g,
            self matches CtlFormula::And(a, b) ==> r@.len() == 2 && *r@[0] == *a && *r@[1] == *b,
            self matches CtlFormula::Or(a, b) ==> r@.len() == 2 && *r@[0] == *a && *r@[1] == *b,
            self matches CtlFormula::Eu(a, b) ==> r@.len() == 2 && *r@[0] == *a && *r@[1] == *b,
            self matches CtlFormula::Au(a, b) ==> r@.len() == 2 && *r@[0] == *a && *r@[1] == *b,
    {
        match self {
            CtlFormula::Atom(_) => Vec::new(),
            CtlFormula::Not(p) | CtlFormula::Ex(p) | CtlFormula::Ax(p) | CtlFormula::Ef(p)
            | CtlFormula::Af(p) | CtlFormula::Eg(p) | CtlFormula::Ag(p) => {
                let mut v: Vec<&CtlFormula> = Vec::new();
                v.push(&**p);
                v
            },
            CtlFormula::And(l, r) | CtlFormula::Or(l, r) | CtlFormula::Eu(l, r)
            | CtlFormula::Au(l, r) => {
                let mut v: Vec<&CtlFormula> = Vec::new();
                v.push(&**l);
                v.push(&**r);
                v
            },
        }
    }

    /// Count the total number of nodes in the formula tree.
    pub fn size(&self) -> (r: usize)
        requires
            formula_size(*self) <= usize::MAX,
        ensures
            r == formula_size(*self),
        decreases self,
    {
        match self {
            CtlFormula::Atom(_) => 1,
            CtlFormula::Not(p) | CtlFormula::Ex(p) | CtlFormula::Ax(p) | CtlFormula::Ef(p)
            | CtlFormula::Af(p) | CtlFormula::Eg(p) | CtlFormula::Ag(p) => 1 + p.size(),
            CtlFormula::And(l, r) | CtlFormula::Or(l, r) | CtlFormula::Eu(l, r)
            | CtlFormula::Au(l, r) => 1 + l.size() + r.size(),
        }
    }
}

} // verus!
