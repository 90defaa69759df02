use boole::ast::{AstNode, EvalError, Operator, ParseError};
use boole::sets::SetError;
use std::collections::HashSet;

fn universe_of(v: &[i32]) -> HashSet<i32> {
    v.iter().copied().collect()
}

fn tree(rpn: &str) -> AstNode {
    AstNode::parse(rpn).unwrap()
}

const SAMPLES: [&str; 8] = ["AB&!", "AB>", "AB=", "AB^!", "AB|C&!", "ABCD&|&", "AB>C=D^!", "A!!B&"];

fn all_rows_agree(a: &AstNode, b: &AstNode) {
    for (values, result) in a.truth_table() {
        assert_eq!(b.evaluate(&values), Ok(result));
    }
}

#[test]
fn parse_two_leaves_reports_stack_of_two() {
    assert_eq!(AstNode::parse("AB").unwrap_err(), ParseError::StackSize(2));
}

#[test]
fn parse_empty_reports_empty_stack() {
    assert_eq!(AstNode::parse("").unwrap_err(), ParseError::StackSize(0));
}

#[test]
fn parse_unknown_token() {
    assert_eq!(AstNode::parse("Ab&").unwrap_err(), ParseError::UnknownToken('b'));
}

#[test]
fn parse_missing_operand() {
    assert_eq!(AstNode::parse("A&").unwrap_err(), ParseError::MissingOperand('&'));
    assert_eq!(AstNode::parse("!").unwrap_err(), ParseError::MissingOperand('!'));
}

#[test]
fn parse_keeps_operand_order() {
    match tree("AB>") {
        AstNode::BinaryOperator(Operator::Implies, l, r) => {
            assert_eq!(l.to_rpn(), "A");
            assert_eq!(r.to_rpn(), "B");
        }
        other => panic!("unexpected tree {:?}", other),
    }
}

#[test]
fn rpn_round_trip_samples() {
    for s in SAMPLES {
        let t = tree(s);
        assert_eq!(t.to_rpn(), s);
        let back = tree(&t.to_rpn());
        all_rows_agree(&t, &back);
    }
}

#[test]
fn display_is_parenthesised_infix() {
    assert_eq!(tree("AB&C!|").to_display(), "((A & B) | !C)");
}

#[test]
fn nnf_is_idempotent_on_samples() {
    for s in SAMPLES {
        let once = tree(s).to_nnf();
        assert_eq!(once.to_nnf().to_rpn(), once.to_rpn());
    }
}

#[test]
fn nnf_of_negated_xor() {
    assert_eq!(tree("AB^!").to_nnf().to_rpn(), "AB&A!B!&|");
    assert_eq!(tree("AB^").to_nnf().to_rpn(), "AB!&A!B&|");
    assert_eq!(tree("AB=!").to_nnf().to_rpn(), "AB!&A!B&|");
    assert_eq!(tree("AB>!").to_nnf().to_rpn(), "AB!&");
}

#[test]
fn normal_forms_keep_every_row() {
    for s in SAMPLES {
        let t = tree(s);
        all_rows_agree(&t, &t.to_nnf());
        all_rows_agree(&t, &t.to_cnf());
    }
}

#[test]
fn cnf_lean_right() {
    assert_eq!(tree("AB&C&D&").to_cnf().to_rpn(), "ABCD&&&");
    assert_eq!(tree("AB|C|D|").to_cnf().to_rpn(), "ABCD|||");
    assert_eq!(tree("AB&CD&|").to_cnf().to_rpn(), "AC|AD|BC|BD|&&&");
}

#[test]
fn cnf_scenarios() {
    assert_eq!(tree("AB|!C!&").to_cnf().to_rpn(), "A!B!C!&&");
    assert_eq!(tree("ABCD&|&").to_cnf().to_rpn(), "ABC|BD|&&");
}

#[test]
fn sat_matches_truth_table() {
    for s in ["AB|", "AB&", "AA!&", "AA^", "AB>C=D^!"] {
        let t = tree(s);
        let any = t.truth_table().iter().any(|(_, r)| *r);
        assert_eq!(t.is_satisfiable(), any);
    }
}

#[test]
fn truth_table_rows_in_order() {
    let rows = tree("AB>").truth_table();
    assert_eq!(rows.len(), 4);
    let expected = [
        (vec![('A', false), ('B', false)], true),
        (vec![('A', false), ('B', true)], true),
        (vec![('A', true), ('B', false)], false),
        (vec![('A', true), ('B', true)], true),
    ];
    for (row, want) in rows.iter().zip(expected.iter()) {
        assert_eq!(row, want);
    }
}

#[test]
fn get_variables_first_occurrence() {
    assert_eq!(tree("BAB&|C^").get_variables(), vec!['B', 'A', 'C']);
}

#[test]
fn evaluate_undefined_variable() {
    let t = tree("AB&");
    assert_eq!(t.evaluate(&vec![('A', true)]), Err(EvalError::UndefinedVariable('B')));
    assert_eq!(t.evaluate(&vec![('B', true), ('A', true)]), Ok(true));
}

#[test]
fn evaluate_first_binding_wins() {
    let t = tree("A");
    assert_eq!(t.evaluate(&vec![('A', false), ('A', true)]), Ok(false));
}

#[test]
fn evaluate_set_complement_scenario() {
    let t = tree("A!");
    assert_eq!(t.evaluate_set(vec![vec![1, 2]], universe_of(&vec![1, 2, 3, 4])), Ok(vec![3, 4]));
}

#[test]
fn evaluate_set_operators() {
    let sets = vec![vec![3, 1, 2, 1], vec![2, 3, 4]];
    let universe = vec![1, 2, 3, 4, 5];
    assert_eq!(tree("A").evaluate_set(sets.clone(), universe_of(&universe)), Ok(vec![1, 2, 3]));
    assert_eq!(tree("AB^").evaluate_set(sets.clone(), universe_of(&universe)), Ok(vec![1, 4]));
    assert_eq!(tree("AB>").evaluate_set(sets.clone(), universe_of(&universe)), Ok(vec![2, 3, 4, 5]));
    assert_eq!(tree("AB=").evaluate_set(sets.clone(), universe_of(&universe)), Ok(vec![2, 3, 5]));
}

#[test]
fn evaluate_set_missing_set() {
    let t = tree("AC|");
    assert_eq!(t.evaluate_set(vec![vec![1]], universe_of(&vec![1])), Err(SetError::MissingSet('C')));
}

#[test]
fn try_from_matches_parse() {
    assert_eq!(AstNode::try_from("AB").unwrap_err(), ParseError::StackSize(2));
    assert_eq!(AstNode::try_from("AB|C&").unwrap().to_rpn(), "AB|C&");
}

#[test]
fn parse_reads_constants_as_leaves() {
    assert_eq!(AstNode::parse("1").unwrap().to_rpn(), "1");
    assert_eq!(AstNode::parse("10|!").unwrap().to_display(), "!(1 | 0)");
    assert_eq!(AstNode::parse("1?").unwrap_err(), ParseError::UnknownToken('?'));
    assert_eq!(AstNode::parse("1|").unwrap_err(), ParseError::MissingOperand('|'));
    assert_eq!(AstNode::parse("11").unwrap_err(), ParseError::StackSize(2));
}

#[test]
fn constants_evaluate_to_themselves() {
    assert_eq!(tree("10|").evaluate(&vec![]), Ok(true));
    assert_eq!(tree("A0&").evaluate(&vec![('A', true)]), Ok(false));
    assert_eq!(tree("A1>").get_variables(), vec!['A']);
}

#[test]
fn constant_formula_has_one_row() {
    let rows = tree("10&").truth_table();
    assert_eq!(rows.len(), 1);
    assert_eq!(rows[0], (vec![], false));
    assert!(!tree("10&").is_satisfiable());
    assert!(tree("10|").is_satisfiable());
}

#[test]
fn constants_over_sets() {
    let sets = vec![vec![1, 2]];
    let universe = vec![4, 3, 2, 1];
    assert_eq!(tree("1").evaluate_set(sets.clone(), universe_of(&universe)), Ok(vec![1, 2, 3, 4]));
    assert_eq!(tree("A0|").evaluate_set(sets.clone(), universe_of(&universe)), Ok(vec![1, 2]));
}

#[test]
fn normal_forms_with_constants() {
    assert_eq!(tree("1A&!").to_nnf().to_rpn(), "1!A!|");
    let t = tree("A1>B0=^");
    all_rows_agree(&t, &t.to_cnf());
}
