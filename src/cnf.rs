//! Conjunctive normal form: distribution of disjunction over conjunction,
//! then right-leaning chains.
use vstd::prelude::*;
use crate::ast::{AstNode, Operator, bin, lemma_eval_defined, mk_bin};
use crate::nnf::{nnf, is_nnf, lemma_nnf_shape, lemma_nnf_holds};

verus! {

/// The disjunction of two trees in conjunctive form, itself put in conjunctive
/// form: a conjunction on either side is split, and each of its conjuncts is
/// joined with the other side.
pub open spec fn or_distribute(a: AstNode, b: AstNode) -> AstNode
    decreases a.size() + b.size(),
{
    match a {
        AstNode::BinaryOperator(Operator::And, x, y) => mk_bin(
            Operator::And,
            or_distribute(*x, b),
            or_distribute(*y, b),
        ),
        _ => match b {
            AstNode::BinaryOperator(Operator::And, x, y) => mk_bin(
                Operator::And,
                or_distribute(a, *x),
                or_distribute(a, *y),
            ),
            _ => mk_bin(Operator::Or, a, b),
        },
    }
}

/// Distribution of disjunction over conjunction, bottom up.
pub open spec fn distribute(t: AstNode) -> AstNode
    decreases t,
{
    match t {
        AstNode::BinaryOperator(Operator::And, l, r) => mk_bin(
            Operator::And,
            distribute(*l),
            distribute(*r),
        ),
        AstNode::BinaryOperator(Operator::Or, l, r) => or_distribute(distribute(*l), distribute(*r)),
        _ => t,
    }
}

/// The operands of the maximal chain of `op` nodes at the root, left to
/// right, each with its own chains of `op` rebuilt by `right_assoc`.
pub open spec fn operands(t: AstNode, op: Operator) -> Seq<AstNode>
    decreases t,
{
    match t {
        AstNode::Variable(_) => seq![t],
        AstNode::UnaryOperator(o, c) => seq![
            AstNode::UnaryOperator(o, Box::new(right_assoc(*c, op))),
        ],
        AstNode::BinaryOperator(o, l, r) => if o == op {
            operands(*l, op) + operands(*r, op)
        } else {
            seq![mk_bin(o, right_assoc(*l, op), right_assoc(*r, op))]
        },
    }
}

/// `ops[0] op (ops[1] op (... op ops[n-1]))`.
pub open spec fn chain(ops: Seq<AstNode>, op: Operator) -> AstNode
    decreases ops.len(),
{
    if ops.len() <= 1 {
        ops[0]
    } else {
        mk_bin(op, ops[0], chain(ops.drop_first(), op))
    }
}

/// Every maximal chain of `op` nodes, at any depth, rebuilt to lean right.
pub open spec fn right_assoc(t: AstNode, op: Operator) -> AstNode
    decreases t,
{
    match t {
        AstNode::Variable(_) => t,
        AstNode::UnaryOperator(o, c) => AstNode::UnaryOperator(o, Box::new(right_assoc(*c, op))),
        AstNode::BinaryOperator(o, l, r) => if o == op {
            chain(operands(*l, op) + operands(*r, op), op)
        } else {
            mk_bin(o, right_assoc(*l, op), right_assoc(*r, op))
        },
    }
}

/// `t` is a binary `op` node.
pub open spec fn rooted_at(t: AstNode, op: Operator) -> bool {
    t matches AstNode::BinaryOperator(o, _, _) && o == op
}

/// No `op` node has an `op` node as its left operand: every chain of `op`
/// leans right.
pub open spec fn leans_right(t: AstNode, op: Operator) -> bool
    decreases t,
{
    match t {
        AstNode::Variable(_) => true,
        AstNode::UnaryOperator(_, c) => leans_right(*c, op),
        AstNode::BinaryOperator(o, l, r) => (o == op ==> !rooted_at(*l, op)) && leans_right(*l, op)
            && leans_right(*r, op),
    }
}

proof fn lemma_chain_leans_right(ops: Seq<AstNode>, op: Operator)
    requires
        ops.len() >= 1,
        forall|k: int|
            0 <= k < ops.len() ==> leans_right(#[trigger] ops[k], op) && !rooted_at(ops[k], op),
    ensures
        leans_right(chain(ops, op), op),
    decreases ops.len(),
{
    if ops.len() > 1 {
        let rest = ops.drop_first();
        assert forall|k: int| 0 <= k < rest.len() implies leans_right(#[trigger] rest[k], op)
            && !rooted_at(rest[k], op) by {
            assert(rest[k] == ops[k + 1]);
        }
        lemma_chain_leans_right(rest, op);
        assert(leans_right(ops[0], op) && !rooted_at(ops[0], op));
    } else {
        assert(leans_right(ops[0], op));
    }
}

proof fn lemma_operands_lean_right(t: AstNode, op: Operator)
    ensures
        operands(t, op).len() >= 1,
        forall|k: int|
            0 <= k < operands(t, op).len() ==> leans_right(#[trigger] operands(t, op)[k], op)
                && !rooted_at(operands(t, op)[k], op),
    decreases t,
{
    match t {
        AstNode::BinaryOperator(o, l, r) => {
            if o == op {
                lemma_operands_lean_right(*l, op);
                lemma_operands_lean_right(*r, op);
                let a = operands(*l, op);
                let b = operands(*r, op);
                assert forall|k: int| 0 <= k < (a + b).len() implies leans_right(
                    #[trigger] (a + b)[k],
                    op,
                ) && !rooted_at((a + b)[k], op) by {
                    if k >= a.len() {
                        assert(leans_right(b[k - a.len()], op));
                    }
                }
            } else {
                right_assoc_leans_right(*l, op);
                right_assoc_leans_right(*r, op);
                assert(leans_right(operands(t, op)[0], op));
            }
        },
        AstNode::UnaryOperator(_, c) => {
            right_assoc_leans_right(*c, op);
            assert(leans_right(operands(t, op)[0], op));
        },
        AstNode::Variable(_) => {
            assert(leans_right(operands(t, op)[0], op));
        },
    }
}

/// After `right_assoc`, every chain of `op` in the tree, at any depth, leans
/// right.
pub proof fn right_assoc_leans_right(t: AstNode, op: Operator)
    ensures
        leans_right(right_assoc(t, op), op),
    decreases t,
{
    match t {
        AstNode::Variable(_) => {},
        AstNode::UnaryOperator(_, c) => right_assoc_leans_right(*c, op),
        AstNode::BinaryOperator(o, l, r) => {
            if o == op {
                lemma_operands_lean_right(*l, op);
                lemma_operands_lean_right(*r, op);
                let a = operands(*l, op);
                let b = operands(*r, op);
                assert forall|k: int| 0 <= k < (a + b).len() implies leans_right(
                    #[trigger] (a + b)[k],
                    op,
                ) && !rooted_at((a + b)[k], op) by {
                    if k >= a.len() {
                        assert(leans_right(b[k - a.len()], op));
                    }
                }
                lemma_chain_leans_right(a + b, op);
            } else {
                right_assoc_leans_right(*l, op);
                right_assoc_leans_right(*r, op);
            }
        },
    }
}

/// The conjunctive normal form of `t`.
pub open spec fn cnf(t: AstNode) -> AstNode {
    right_assoc(right_assoc(distribute(nnf(t)), Operator::Or), Operator::And)
}

/// A variable or a negated variable.
pub open spec fn is_literal(t: AstNode) -> bool {
    match t {
        AstNode::Variable(_) => true,
        AstNode::UnaryOperator(op, c) => op == Operator::Not && (*c) is Variable,
        _ => false,
    }
}

/// `l1 | (l2 | (... | ln))` over literals.
pub open spec fn is_clause(t: AstNode) -> bool
    decreases t,
{
    is_literal(t) || match t {
        AstNode::BinaryOperator(Operator::Or, l, r) => is_literal(*l) && is_clause(*r),
        _ => false,
    }
}

/// `c1 & (c2 & (... & cn))` over clauses.
pub open spec fn is_cnf(t: AstNode) -> bool
    decreases t,
{
    is_clause(t) || match t {
        AstNode::BinaryOperator(Operator::And, l, r) => is_clause(*l) && is_cnf(*r),
        _ => false,
    }
}

/// A disjunction of literals, in any grouping.
pub open spec fn any_clause(t: AstNode) -> bool
    decreases t,
{
    is_literal(t) || match t {
        AstNode::BinaryOperator(Operator::Or, l, r) => any_clause(*l) && any_clause(*r),
        _ => false,
    }
}

/// A conjunction, in any grouping, of clauses: right-leaning ones when
/// `right_clauses` holds, of any grouping otherwise.
pub open spec fn any_conjunction(t: AstNode, right_clauses: bool) -> bool
    decreases t,
{
    (if right_clauses { is_clause(t) } else { any_clause(t) }) || match t {
        AstNode::BinaryOperator(Operator::And, l, r) => any_conjunction(*l, right_clauses)
            && any_conjunction(*r, right_clauses),
        _ => false,
    }
}

/// Some operand holds (for `Or`), or all of them do (for `And`).
pub open spec fn fold_holds(ops: Seq<AstNode>, op: Operator, env: Seq<(char, bool)>) -> bool {
    if op == Operator::And {
        forall|k: int| 0 <= k < ops.len() ==> #[trigger] ops[k].holds(env)
    } else {
        exists|k: int| 0 <= k < ops.len() && #[trigger] ops[k].holds(env)
    }
}

pub open spec fn all_defined(ops: Seq<AstNode>, env: Seq<(char, bool)>) -> bool {
    forall|k: int| 0 <= k < ops.len() ==> #[trigger] ops[k].defined_in(env)
}

pub open spec fn all_wf(ops: Seq<AstNode>) -> bool {
    forall|k: int| 0 <= k < ops.len() ==> #[trigger] ops[k].wf()
}

/// The variables of all the trees.
pub open spec fn vars_of(ops: Seq<AstNode>) -> Set<char>
    decreases ops.len(),
{
    if ops.len() == 0 {
        Set::empty()
    } else {
        ops[0].vars() + vars_of(ops.drop_first())
    }
}

proof fn lemma_or_distribute_shape(a: AstNode, b: AstNode)
    requires
        any_conjunction(a, false),
        any_conjunction(b, false),
    ensures
        any_conjunction(or_distribute(a, b), false),
    decreases a.size() + b.size(),
{
    match a {
        AstNode::BinaryOperator(Operator::And, x, y) => {
            lemma_or_distribute_shape(*x, b);
            lemma_or_distribute_shape(*y, b);
        },
        _ => match b {
            AstNode::BinaryOperator(Operator::And, x, y) => {
                lemma_or_distribute_shape(a, *x);
                lemma_or_distribute_shape(a, *y);
            },
            _ => {},
        },
    }
}

proof fn lemma_distribute_shape(t: AstNode)
    requires
        is_nnf(t),
    ensures
        any_conjunction(distribute(t), false),
    decreases t,
{
    match t {
        AstNode::BinaryOperator(Operator::And, l, r) => {
            lemma_distribute_shape(*l);
            lemma_distribute_shape(*r);
        },
        AstNode::BinaryOperator(Operator::Or, l, r) => {
            lemma_distribute_shape(*l);
            lemma_distribute_shape(*r);
            lemma_or_distribute_shape(distribute(*l), distribute(*r));
        },
        _ => {},
    }
}

proof fn lemma_or_distribute_holds(a: AstNode, b: AstNode, env: Seq<(char, bool)>)
    ensures
        or_distribute(a, b).holds(env) == (a.holds(env) || b.holds(env)),
        or_distribute(a, b).defined_in(env) == (a.defined_in(env) && b.defined_in(env)),
        a.wf() && b.wf() ==> or_distribute(a, b).wf(),
        or_distribute(a, b).vars() == a.vars() + b.vars(),
    decreases a.size() + b.size(),
{
    match a {
        AstNode::BinaryOperator(Operator::And, x, y) => {
            lemma_or_distribute_holds(*x, b, env);
            lemma_or_distribute_holds(*y, b, env);
            assert(x.vars() + b.vars() + (y.vars() + b.vars()) =~= x.vars() + y.vars() + b.vars());
        },
        _ => match b {
            AstNode::BinaryOperator(Operator::And, x, y) => {
                lemma_or_distribute_holds(a, *x, env);
                lemma_or_distribute_holds(a, *y, env);
                assert(a.vars() + x.vars() + (a.vars() + y.vars()) =~= a.vars() + (x.vars()
                    + y.vars()));
            },
            _ => {},
        },
    }
}

proof fn lemma_distribute_holds(t: AstNode, env: Seq<(char, bool)>)
    ensures
        distribute(t).holds(env) == t.holds(env),
        distribute(t).defined_in(env) == t.defined_in(env),
        t.wf() ==> distribute(t).wf(),
        distribute(t).vars() == t.vars(),
    decreases t,
{
    match t {
        AstNode::BinaryOperator(Operator::And, l, r) => {
            lemma_distribute_holds(*l, env);
            lemma_distribute_holds(*r, env);
        },
        AstNode::BinaryOperator(Operator::Or, l, r) => {
            lemma_distribute_holds(*l, env);
            lemma_distribute_holds(*r, env);
            lemma_or_distribute_holds(distribute(*l), distribute(*r), env);
        },
        _ => {},
    }
}

proof fn lemma_vars_concat(a: Seq<AstNode>, b: Seq<AstNode>)
    ensures
        vars_of(a + b) == vars_of(a) + vars_of(b),
    decreases a.len(),
{
    if a.len() == 0 {
        assert(a + b =~= b);
        assert(vars_of(b) =~= Set::<char>::empty() + vars_of(b));
    } else {
        assert((a + b).drop_first() =~= a.drop_first() + b);
        lemma_vars_concat(a.drop_first(), b);
        assert((a + b)[0] == a[0]);
        assert(a[0].vars() + (vars_of(a.drop_first()) + vars_of(b)) =~= a[0].vars() + vars_of(
            a.drop_first(),
        ) + vars_of(b));
    }
}

proof fn lemma_fold_concat(a: Seq<AstNode>, b: Seq<AstNode>, op: Operator, env: Seq<(char, bool)>)
    ensures
        fold_holds(a + b, op, env) == (if op == Operator::And {
            fold_holds(a, op, env) && fold_holds(b, op, env)
        } else {
            fold_holds(a, op, env) || fold_holds(b, op, env)
        }),
        all_defined(a + b, env) == (all_defined(a, env) && all_defined(b, env)),
        all_wf(a + b) == (all_wf(a) && all_wf(b)),
{
    let s = a + b;
    assert(forall|k: int| 0 <= k < a.len() ==> s[k] == a[k]);
    assert(forall|k: int| 0 <= k < b.len() ==> s[a.len() + k] == b[k]);
    if op == Operator::And {
        if fold_holds(a, op, env) && fold_holds(b, op, env) {
            assert forall|k: int| 0 <= k < s.len() implies #[trigger] s[k].holds(env) by {
                if k >= a.len() {
                    assert(s[a.len() + (k - a.len())] == b[k - a.len()]);
                }
            }
        }
    } else {
        if fold_holds(s, op, env) {
            let k = choose|k: int| 0 <= k < s.len() && #[trigger] s[k].holds(env);
            if k >= a.len() {
                assert(s[a.len() + (k - a.len())] == b[k - a.len()]);
            }
        }
        if fold_holds(b, op, env) {
            let k = choose|k: int| 0 <= k < b.len() && #[trigger] b[k].holds(env);
            assert(s[a.len() + k].holds(env));
        }
    }
    if all_defined(a, env) && all_defined(b, env) {
        assert forall|k: int| 0 <= k < s.len() implies #[trigger] s[k].defined_in(env) by {
            if k >= a.len() {
                assert(s[a.len() + (k - a.len())] == b[k - a.len()]);
            }
        }
    }
    if all_wf(a) && all_wf(b) {
        assert forall|k: int| 0 <= k < s.len() implies #[trigger] s[k].wf() by {
            if k >= a.len() {
                assert(s[a.len() + (k - a.len())] == b[k - a.len()]);
            }
        }
    }
}

proof fn lemma_operands_holds(t: AstNode, op: Operator, env: Seq<(char, bool)>)
    requires
        op == Operator::And || op == Operator::Or,
    ensures
        operands(t, op).len() >= 1,
        fold_holds(operands(t, op), op, env) == t.holds(env),
        all_defined(operands(t, op), env) == t.defined_in(env),
        t.wf() ==> all_wf(operands(t, op)),
        vars_of(operands(t, op)) == t.vars(),
    decreases t,
{
    match t {
        AstNode::BinaryOperator(o, l, r) => {
            if o == op {
                lemma_operands_holds(*l, op, env);
                lemma_operands_holds(*r, op, env);
                lemma_fold_concat(operands(*l, op), operands(*r, op), op, env);
                lemma_vars_concat(operands(*l, op), operands(*r, op));
            } else {
                lemma_right_assoc_holds(*l, op, env);
                lemma_right_assoc_holds(*r, op, env);
                lemma_fold_single(operands(t, op)[0], op, env);
                assert(operands(t, op) =~= seq![operands(t, op)[0]]);
            }
        },
        AstNode::UnaryOperator(_, c) => {
            lemma_right_assoc_holds(*c, op, env);
            lemma_fold_single(operands(t, op)[0], op, env);
            assert(operands(t, op) =~= seq![operands(t, op)[0]]);
        },
        AstNode::Variable(_) => {
            lemma_fold_single(t, op, env);
        },
    }
}

proof fn lemma_fold_single(t: AstNode, op: Operator, env: Seq<(char, bool)>)
    ensures
        fold_holds(seq![t], op, env) == t.holds(env),
        all_defined(seq![t], env) == t.defined_in(env),
        all_wf(seq![t]) == t.wf(),
        vars_of(seq![t]) == t.vars(),
{
    assert(seq![t][0] == t);
    assert(seq![t].drop_first() =~= Seq::<AstNode>::empty());
    assert(vars_of(Seq::<AstNode>::empty()) == Set::<char>::empty());
    assert(t.vars() + Set::<char>::empty() =~= t.vars());
}

proof fn lemma_chain_holds(ops: Seq<AstNode>, op: Operator, env: Seq<(char, bool)>)
    requires
        op == Operator::And || op == Operator::Or,
        ops.len() >= 1,
    ensures
        chain(ops, op).holds(env) == fold_holds(ops, op, env),
        chain(ops, op).defined_in(env) == all_defined(ops, env),
        chain(ops, op).wf() == all_wf(ops),
        chain(ops, op).vars() == vars_of(ops),
    decreases ops.len(),
{
    lemma_fold_single(ops[0], op, env);
    if ops.len() == 1 {
        assert(ops =~= seq![ops[0]]);
    } else {
        let rest = ops.drop_first();
        lemma_chain_holds(rest, op, env);
        assert(ops =~= seq![ops[0]] + rest);
        lemma_fold_concat(seq![ops[0]], rest, op, env);
    }
}

proof fn lemma_right_assoc_holds(t: AstNode, op: Operator, env: Seq<(char, bool)>)
    requires
        op == Operator::And || op == Operator::Or,
    ensures
        right_assoc(t, op).holds(env) == t.holds(env),
        right_assoc(t, op).defined_in(env) == t.defined_in(env),
        t.wf() ==> right_assoc(t, op).wf(),
        right_assoc(t, op).vars() == t.vars(),
    decreases t,
{
    match t {
        AstNode::Variable(_) => {},
        AstNode::UnaryOperator(_, c) => lemma_right_assoc_holds(*c, op, env),
        AstNode::BinaryOperator(o, l, r) => {
            if o == op {
                lemma_operands_holds(*l, op, env);
                lemma_operands_holds(*r, op, env);
                let all = operands(*l, op) + operands(*r, op);
                lemma_fold_concat(operands(*l, op), operands(*r, op), op, env);
                lemma_vars_concat(operands(*l, op), operands(*r, op));
                lemma_chain_holds(all, op, env);
            } else {
                lemma_right_assoc_holds(*l, op, env);
                lemma_right_assoc_holds(*r, op, env);
            }
        },
    }
}

proof fn lemma_operands_of_clause(t: AstNode)
    requires
        any_clause(t),
    ensures
        operands(t, Operator::Or).len() >= 1,
        forall|k: int|
            0 <= k < operands(t, Operator::Or).len() ==> is_literal(
                #[trigger] operands(t, Operator::Or)[k],
            ),
    decreases t,
{
    match t {
        AstNode::BinaryOperator(Operator::Or, l, r) => {
            lemma_operands_of_clause(*l);
            lemma_operands_of_clause(*r);
            let a = operands(*l, Operator::Or);
            let b = operands(*r, Operator::Or);
            assert forall|k: int| 0 <= k < (a + b).len() implies is_literal(#[trigger] (a + b)[k]) by {
                if k >= a.len() {
                    assert(is_literal(b[k - a.len()]));
                }
            }
        },
        AstNode::UnaryOperator(_, c) => {
            assert(right_assoc(*c, Operator::Or) == *c);
            assert(is_literal(operands(t, Operator::Or)[0]));
        },
        _ => {
            assert(is_literal(operands(t, Operator::Or)[0]));
        },
    }
}

proof fn lemma_chain_of_literals(ops: Seq<AstNode>)
    requires
        ops.len() >= 1,
        forall|k: int| 0 <= k < ops.len() ==> is_literal(#[trigger] ops[k]),
    ensures
        is_clause(chain(ops, Operator::Or)),
    decreases ops.len(),
{
    if ops.len() > 1 {
        let rest = ops.drop_first();
        assert forall|k: int| 0 <= k < rest.len() implies is_literal(#[trigger] rest[k]) by {
            assert(rest[k] == ops[k + 1]);
        }
        lemma_chain_of_literals(rest);
        assert(is_literal(ops[0]));
    }
}

proof fn lemma_clauses_lean_right(t: AstNode)
    requires
        any_conjunction(t, false),
    ensures
        any_conjunction(right_assoc(t, Operator::Or), true),
    decreases t,
{
    if any_clause(t) {
        match t {
            AstNode::BinaryOperator(Operator::Or, _, _) => {
                lemma_operands_of_clause(t);
                lemma_chain_of_literals(operands(t, Operator::Or));
            },
            AstNode::UnaryOperator(_, c) => {
                assert(right_assoc(*c, Operator::Or) == *c);
            },
            _ => {},
        }
    } else {
        match t {
            AstNode::BinaryOperator(Operator::And, l, r) => {
                lemma_clauses_lean_right(*l);
                lemma_clauses_lean_right(*r);
            },
            _ => {},
        }
    }
}

proof fn lemma_operands_of_conjunction(t: AstNode)
    requires
        any_conjunction(t, true),
    ensures
        operands(t, Operator::And).len() >= 1,
        forall|k: int|
            0 <= k < operands(t, Operator::And).len() ==> is_clause(
                #[trigger] operands(t, Operator::And)[k],
            ),
    decreases t,
{
    if is_clause(t) {
        lemma_clause_untouched(t);
        assert(operands(t, Operator::And)[0] == t);
    } else {
        match t {
            AstNode::BinaryOperator(Operator::And, l, r) => {
                lemma_operands_of_conjunction(*l);
                lemma_operands_of_conjunction(*r);
                let a = operands(*l, Operator::And);
                let b = operands(*r, Operator::And);
                assert forall|k: int| 0 <= k < (a + b).len() implies is_clause(
                    #[trigger] (a + b)[k],
                ) by {
                    if k >= a.len() {
                        assert(is_clause(b[k - a.len()]));
                    }
                }
            },
            _ => {},
        }
    }
}

proof fn lemma_chain_of_clauses(ops: Seq<AstNode>)
    requires
        ops.len() >= 1,
        forall|k: int| 0 <= k < ops.len() ==> is_clause(#[trigger] ops[k]),
    ensures
        is_cnf(chain(ops, Operator::And)),
    decreases ops.len(),
{
    if ops.len() > 1 {
        let rest = ops.drop_first();
        assert forall|k: int| 0 <= k < rest.len() implies is_clause(#[trigger] rest[k]) by {
            assert(rest[k] == ops[k + 1]);
        }
        lemma_chain_of_clauses(rest);
        assert(is_clause(ops[0]));
    } else {
        assert(is_clause(ops[0]));
    }
}

proof fn lemma_clause_untouched(t: AstNode)
    requires
        is_clause(t),
    ensures
        right_assoc(t, Operator::And) == t,
        operands(t, Operator::And) == seq![t],
    decreases t,
{
    match t {
        AstNode::BinaryOperator(Operator::Or, l, r) => {
            lemma_clause_untouched(*l);
            lemma_clause_untouched(*r);
        },
        AstNode::UnaryOperator(_, c) => {
            assert(right_assoc(*c, Operator::And) == *c);
        },
        _ => {},
    }
}

proof fn lemma_conjunction_lean_right(t: AstNode)
    requires
        any_conjunction(t, true),
    ensures
        is_cnf(right_assoc(t, Operator::And)),
{
    if is_clause(t) {
        lemma_clause_untouched(t);
    } else {
        match t {
            AstNode::BinaryOperator(Operator::And, _, _) => {
                lemma_operands_of_conjunction(t);
                lemma_chain_of_clauses(operands(t, Operator::And));
            },
            _ => {},
        }
    }
}

proof fn lemma_distribute_fixed(t: AstNode)
    requires
        any_conjunction(t, false),
    ensures
        distribute(t) == t,
    decreases t,
{
    match t {
        AstNode::BinaryOperator(Operator::And, l, r) => {
            lemma_distribute_fixed(*l);
            lemma_distribute_fixed(*r);
        },
        AstNode::BinaryOperator(Operator::Or, l, r) => {
            assert(any_clause(*l) && any_clause(*r));
            lemma_distribute_fixed(*l);
            lemma_distribute_fixed(*r);
        },
        _ => {},
    }
}

/// Distribution rewrites a disjunction whose distributed left side is a
/// conjunction `x & y` into the conjunction of `x | r'` and `y | r'`, `r'` the
/// distributed right side, each distributed anew; and likewise for a
/// conjunction on the right side when the left one is none.
pub proof fn distribute_or_rule(l: AstNode, r: AstNode)
    requires
        is_nnf(l),
        is_nnf(r),
    ensures
        distribute(l) matches AstNode::BinaryOperator(Operator::And, x, y) ==> distribute(
            mk_bin(Operator::Or, l, r),
        ) == mk_bin(
            Operator::And,
            distribute(mk_bin(Operator::Or, *x, distribute(r))),
            distribute(mk_bin(Operator::Or, *y, distribute(r))),
        ),
        distribute(r) matches AstNode::BinaryOperator(Operator::And, x, y) ==> (!(distribute(
            l,
        ) matches AstNode::BinaryOperator(Operator::And, _, _)) ==> distribute(
            mk_bin(Operator::Or, l, r),
        ) == mk_bin(
            Operator::And,
            distribute(mk_bin(Operator::Or, distribute(l), *x)),
            distribute(mk_bin(Operator::Or, distribute(l), *y)),
        )),
{
    lemma_distribute_shape(l);
    lemma_distribute_shape(r);
    let dl = distribute(l);
    let dr = distribute(r);
    lemma_distribute_fixed(dl);
    lemma_distribute_fixed(dr);
    match dl {
        AstNode::BinaryOperator(Operator::And, x, y) => {
            lemma_distribute_fixed(*x);
            lemma_distribute_fixed(*y);
        },
        _ => match dr {
            AstNode::BinaryOperator(Operator::And, x, y) => {
                lemma_distribute_fixed(*x);
                lemma_distribute_fixed(*y);
            },
            _ => {},
        },
    }
}

/// The conjunctive normal form of a well-formed tree is a right-leaning
/// conjunction of right-leaning disjunctions of literals: no disjunction has
/// a conjunction below it.
pub proof fn cnf_shape(t: AstNode)
    requires
        t.wf(),
    ensures
        is_cnf(cnf(t)),
{
    lemma_nnf_shape(t, false);
    lemma_distribute_shape(nnf(t));
    lemma_clauses_lean_right(distribute(nnf(t)));
    lemma_conjunction_lean_right(right_assoc(distribute(nnf(t)), Operator::Or));
}

/// The conjunctive normal form is true exactly where the tree is, is well
/// formed, and has the same variables.
pub proof fn lemma_cnf_holds(t: AstNode, env: Seq<(char, bool)>)
    requires
        t.wf(),
    ensures
        cnf(t).holds(env) == t.holds(env),
        cnf(t).defined_in(env) == t.defined_in(env),
        cnf(t).wf(),
        cnf(t).vars() == t.vars(),
{
    lemma_nnf_shape(t, false);
    lemma_nnf_holds(t, false, env);
    lemma_distribute_holds(nnf(t), env);
    lemma_right_assoc_holds(distribute(nnf(t)), Operator::Or, env);
    lemma_right_assoc_holds(right_assoc(distribute(nnf(t)), Operator::Or), Operator::And, env);
}

/// Under every assignment that gives each variable of a well-formed tree a
/// value, the tree, its negation normal form and its conjunctive normal form
/// evaluate to the same truth value.
pub proof fn normal_forms_preserve_evaluation(t: AstNode, env: Seq<(char, bool)>)
    requires
        t.wf(),
        t.defined_in(env),
    ensures
        t.eval(env) is Ok,
        nnf(t).eval(env) == t.eval(env),
        cnf(t).eval(env) == t.eval(env),
{
    lemma_nnf_holds(t, false, env);
    lemma_cnf_holds(t, env);
    lemma_eval_defined(t, env);
    lemma_eval_defined(nnf(t), env);
    lemma_eval_defined(cnf(t), env);
}

fn or_distribute_exec(a: AstNode, b: AstNode) -> (r: AstNode)
    ensures
        r == or_distribute(a, b),
    decreases a.size() + b.size(),
{
    match a {
        AstNode::BinaryOperator(Operator::And, x, y) => {
            let b2 = b.duplicate();
            bin(Operator::And, or_distribute_exec(*x, b), or_distribute_exec(*y, b2))
        },
        a => match b {
            AstNode::BinaryOperator(Operator::And, x, y) => {
                let a2 = a.duplicate();
                bin(Operator::And, or_distribute_exec(a, *x), or_distribute_exec(a2, *y))
            },
            b => bin(Operator::Or, a, b),
        },
    }
}

impl AstNode {
    fn distribute(&self) -> (r: AstNode)
        ensures
            r == distribute(*self),
        decreases self,
    {
        match self {
            AstNode::BinaryOperator(Operator::And, l, r) => bin(
                Operator::And,
                l.distribute(),
                r.distribute(),
            ),
            AstNode::BinaryOperator(Operator::Or, l, r) => {
                let a = l.distribute();
                let b = r.distribute();
                or_distribute_exec(a, b)
            },
            _ => self.duplicate(),
        }
    }

    fn collect_operands(&self, target_op: &Operator) -> (r: Vec<AstNode>)
        requires
            *target_op == Operator::And || *target_op == Operator::Or,
        ensures
            r@ == operands(*self, *target_op),
        decreases self,
    {
        match self {
            AstNode::Variable(c) => vec![AstNode::Variable(*c)],
            AstNode::UnaryOperator(op, child) => vec![
                AstNode::UnaryOperator(*op, Box::new(child.to_right_associative(target_op))),
            ],
            AstNode::BinaryOperator(op, left, right) => {
                if *op == *target_op {
                    let mut ops = left.collect_operands(target_op);
                    let mut more = right.collect_operands(target_op);
                    ops.append(&mut more);
                    ops
                } else {
                    vec![
                        bin(
                            *op,
                            left.to_right_associative(target_op),
                            right.to_right_associative(target_op),
                        ),
                    ]
                }
            },
        }
    }

    fn to_right_associative(&self, target_op: &Operator) -> (r: AstNode)
        requires
            *target_op == Operator::And || *target_op == Operator::Or,
        ensures
            r == right_assoc(*self, *target_op),
            leans_right(r, *target_op),
        decreases self,
    {
        proof {
            right_assoc_leans_right(*self, *target_op);
        }
        match self {
            AstNode::Variable(c) => AstNode::Variable(*c),
            AstNode::UnaryOperator(op, child) => AstNode::UnaryOperator(
                *op,
                Box::new(child.to_right_associative(target_op)),
            ),
            AstNode::BinaryOperator(op, left, right) => {
                if *op == *target_op {
                    let mut ops = left.collect_operands(target_op);
                    let mut more = right.collect_operands(target_op);
                    ops.append(&mut more);
                    let ghost all = ops@;
                    proof {
                        lemma_operands_holds(**left, *target_op, seq![]);
                    }
                    let mut acc = ops.pop().unwrap();
                    assert(all.subrange(all.len() - 1, all.len() as int) =~= seq![acc]);
                    while ops.len() > 0
                        invariant
                            ops@ == all.subrange(0, ops@.len() as int),
                            ops@.len() < all.len(),
                            acc == chain(all.subrange(ops@.len() as int, all.len() as int), *target_op),
                        decreases ops@.len(),
                    {
                        let ghost k = ops@.len() as int;
                        let x = ops.pop().unwrap();
                        let ghost tail = all.subrange(k - 1, all.len() as int);
                        assert(tail.drop_first() =~= all.subrange(k, all.len() as int));
                        assert(ops@ =~= all.subrange(0, k - 1));
                        acc = bin(*target_op, x, acc);
                    }
                    assert(all.subrange(0, all.len() as int) =~= all);
                    acc
                } else {
                    bin(
                        *op,
                        left.to_right_associative(target_op),
                        right.to_right_associative(target_op),
                    )
                }
            },
        }
    }

    /// The conjunctive normal form: the negation normal form with disjunction
    /// distributed over conjunction, then every chain of conjunctions and of
    /// disjunctions rebuilt to lean right.
    pub fn to_cnf(&self) -> (r: AstNode)
        requires
            self.wf(),
        ensures
            r == cnf(*self),
            is_cnf(r),
            r.wf(),
            r.vars() == self.vars(),
    {
        proof {
            cnf_shape(*self);
            lemma_cnf_holds(*self, seq![]);
        }
        let n = self.to_nnf();
        let d = n.distribute();
        d.to_right_associative(&Operator::Or).to_right_associative(&Operator::And)
    }
}

} // verus!
