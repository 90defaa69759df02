use boole::ast::ParseError;
use boole::boole::{adder, eval_formula, gray_code, multiplier, powerset};
use boole::curve::{deinterleave, interleave};

#[test]
fn adder_wraps() {
    assert_eq!(adder(u32::MAX, 2), 1);
}

#[test]
fn multiplier_wraps() {
    assert_eq!(multiplier(0x10000, 0x10001), 0x10000);
}

#[test]
fn gray_code_neighbours_differ_in_one_bit() {
    for i in 0..1000u32 {
        assert_eq!((gray_code(i) ^ gray_code(i + 1)).count_ones(), 1);
    }
}

#[test]
fn eval_formula_errors() {
    assert_eq!(eval_formula("1A|"), Err(ParseError::UnknownToken('A')));
    assert_eq!(eval_formula("1|"), Err(ParseError::MissingOperand('|')));
    assert_eq!(eval_formula("!"), Err(ParseError::MissingOperand('!')));
    assert_eq!(eval_formula("11"), Err(ParseError::StackSize(2)));
    assert_eq!(eval_formula("10>"), Ok(false));
    assert_eq!(eval_formula("1!0="), Ok(true));
}

#[test]
fn powerset_of_empty() {
    let expected: Vec<Vec<i32>> = vec![vec![]];
    assert_eq!(powerset(vec![]), expected);
}

#[test]
fn powerset_of_three() {
    let result = powerset(vec![5, 6, 7]);
    assert_eq!(result.len(), 8);
    assert_eq!(result[5], vec![5, 7]);
    assert_eq!(result[7], vec![5, 6, 7]);
}

#[test]
fn interleave_bits_alternate() {
    assert_eq!(interleave(0, 0), 0);
    assert_eq!(interleave(1, 0), 1);
    assert_eq!(interleave(0, 1), 2);
    assert_eq!(interleave(u16::MAX, 0), 0x5555_5555);
    assert_eq!(interleave(0, u16::MAX), 0xAAAA_AAAA);
    assert_eq!(interleave(165, u16::MAX), 0xAAAA_EEBB);
    assert_eq!(deinterleave(0xAAAA_EEBB), (165, u16::MAX));
    for (x, y) in [(0u16, 0u16), (10, 100), (u16::MAX, 1), (12345, 54321)] {
        assert_eq!(deinterleave(interleave(x, y)), (x, y));
    }
}
