//! Negation normal form.
use vstd::prelude::*;
use crate::ast::{AstNode, Operator, bin, mk_not, mk_bin};

verus! {

/// The negation normal form of `t`, or of its negation when `negated` holds:
/// negations are pushed down to the variables by De Morgan's laws, double
/// negations vanish, and implication, equivalence and exclusive or are written
/// with conjunction and disjunction.
pub open spec fn nnf_of(t: AstNode, negated: bool) -> AstNode
    decreases t,
{
    match t {
        AstNode::Variable(_) => if negated { mk_not(t) } else { t },
        AstNode::UnaryOperator(_, c) => nnf_of(*c, !negated),
        AstNode::BinaryOperator(op, l, r) => {
            let a = nnf_of(*l, false);
            let na = nnf_of(*l, true);
            let b = nnf_of(*r, false);
            let nb = nnf_of(*r, true);
            match op {
                Operator::And => if negated {
                    mk_bin(Operator::Or, na, nb)
                } else {
                    mk_bin(Operator::And, a, b)
                },
                Operator::Or => if negated {
                    mk_bin(Operator::And, na, nb)
                } else {
                    mk_bin(Operator::Or, a, b)
                },
                Operator::Implies => if negated {
                    mk_bin(Operator::And, a, nb)
                } else {
                    mk_bin(Operator::Or, na, b)
                },
                Operator::Iff => if negated {
                    mk_bin(Operator::Or, mk_bin(Operator::And, a, nb), mk_bin(Operator::And, na, b))
                } else {
                    mk_bin(Operator::Or, mk_bin(Operator::And, a, b), mk_bin(Operator::And, na, nb))
                },
                Operator::Xor => if negated {
                    mk_bin(Operator::Or, mk_bin(Operator::And, a, b), mk_bin(Operator::And, na, nb))
                } else {
                    mk_bin(Operator::Or, mk_bin(Operator::And, a, nb), mk_bin(Operator::And, na, b))
                },
                Operator::Not => t,
            }
        },
    }
}

/// The negation normal form of `t`.
pub open spec fn nnf(t: AstNode) -> AstNode {
    nnf_of(t, false)
}

/// Only conjunctions and disjunctions inside, negations only on variables.
pub open spec fn is_nnf(t: AstNode) -> bool
    decreases t,
{
    match t {
        AstNode::Variable(_) => true,
        AstNode::UnaryOperator(op, c) => op == Operator::Not && (*c) is Variable,
        AstNode::BinaryOperator(op, l, r) => (op == Operator::And || op == Operator::Or)
            && is_nnf(*l) && is_nnf(*r),
    }
}

/// The normal form is in shape, well formed, and has the same variables.
pub proof fn lemma_nnf_shape(t: AstNode, negated: bool)
    requires
        t.wf(),
    ensures
        is_nnf(nnf_of(t, negated)),
        nnf_of(t, negated).wf(),
        nnf_of(t, negated).vars() == t.vars(),
    decreases t,
{
    match t {
        AstNode::Variable(_) => {},
        AstNode::UnaryOperator(_, c) => lemma_nnf_shape(*c, !negated),
        AstNode::BinaryOperator(_, l, r) => {
            lemma_nnf_shape(*l, false);
            lemma_nnf_shape(*l, true);
            lemma_nnf_shape(*r, false);
            lemma_nnf_shape(*r, true);
            reveal_with_fuel(is_nnf, 3);
            reveal_with_fuel(AstNode::wf, 3);
            reveal_with_fuel(AstNode::vars, 3);
            let lv = l.vars();
            let rv = r.vars();
            assert(lv + rv + (lv + rv) =~= lv + rv);
            assert(lv + rv + (rv + lv) =~= lv + rv);
        },
    }
}

/// The normal form of the negation is true exactly where the tree is false.
pub proof fn lemma_nnf_holds(t: AstNode, negated: bool, env: Seq<(char, bool)>)
    requires
        t.wf(),
    ensures
        nnf_of(t, negated).holds(env) == (t.holds(env) != negated),
        nnf_of(t, negated).defined_in(env) == t.defined_in(env),
    decreases t,
{
    match t {
        AstNode::Variable(_) => {},
        AstNode::UnaryOperator(_, c) => lemma_nnf_holds(*c, !negated, env),
        AstNode::BinaryOperator(_, l, r) => {
            lemma_nnf_holds(*l, false, env);
            lemma_nnf_holds(*l, true, env);
            lemma_nnf_holds(*r, false, env);
            lemma_nnf_holds(*r, true, env);
            reveal_with_fuel(AstNode::holds, 3);
            reveal_with_fuel(AstNode::defined_in, 3);
        },
    }
}

/// A tree already in negation normal form is its own normal form.
pub proof fn lemma_nnf_fixed(t: AstNode)
    requires
        is_nnf(t),
    ensures
        nnf(t) == t,
    decreases t,
{
    match t {
        AstNode::Variable(_) => {},
        AstNode::UnaryOperator(_, c) => {
            reveal_with_fuel(nnf_of, 2);
        },
        AstNode::BinaryOperator(_, l, r) => {
            lemma_nnf_fixed(*l);
            lemma_nnf_fixed(*r);
        },
    }
}

/// Normalising twice gives the same tree as normalising once.
pub proof fn nnf_idempotent(t: AstNode)
    requires
        t.wf(),
    ensures
        nnf(nnf(t)) == nnf(t),
{
    lemma_nnf_shape(t, false);
    lemma_nnf_fixed(nnf(t));
}

impl AstNode {
    fn normal_form(&self, negated: bool) -> (r: AstNode)
        requires
            self.wf(),
        ensures
            r == nnf_of(*self, negated),
        decreases self,
    {
        match self {
            AstNode::Variable(c) => {
                if negated {
                    AstNode::UnaryOperator(Operator::Not, Box::new(AstNode::Variable(*c)))
                } else {
                    AstNode::Variable(*c)
                }
            },
            AstNode::UnaryOperator(_, c) => c.normal_form(!negated),
            AstNode::BinaryOperator(op, l, r) => {
                match op {
                    Operator::And | Operator::Or => {
                        // De Morgan: a negated conjunction is a disjunction of
                        // negations, and the other way round.
                        let a = l.normal_form(negated);
                        let b = r.normal_form(negated);
                        if (*op == Operator::And) != negated {
                            bin(Operator::And, a, b)
                        } else {
                            bin(Operator::Or, a, b)
                        }
                    },
                    Operator::Implies => if negated {
                        bin(Operator::And, l.normal_form(false), r.normal_form(true))
                    } else {
                        bin(Operator::Or, l.normal_form(true), r.normal_form(false))
                    },
                    Operator::Iff | Operator::Xor => {
                        let a = l.normal_form(false);
                        let na = l.normal_form(true);
                        let b = r.normal_form(false);
                        let nb = r.normal_form(true);
                        if (*op == Operator::Iff) != negated {
                            bin(Operator::Or, bin(Operator::And, a, b), bin(Operator::And, na, nb))
                        } else {
                            bin(Operator::Or, bin(Operator::And, a, nb), bin(Operator::And, na, b))
                        }
                    },
                    Operator::Not => {
                        proof {
                            assert(false);
                        }
                        AstNode::Variable('A')
                    },
                }
            },
        }
    }

    /// The negation normal form: equivalent under every assignment, built of
    /// conjunctions, disjunctions and negated variables only.
    pub fn to_nnf(&self) -> (r: AstNode)
        requires
            self.wf(),
        ensures
            r == nnf(*self),
            is_nnf(r),
            r.wf(),
            r.vars() == self.vars(),
    {
        proof {
            lemma_nnf_shape(*self, false);
        }
        self.normal_form(false)
    }
}

} // verus!
