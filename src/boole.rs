//! Entry points on formula strings, and the arithmetic built from bit operations.
use vstd::prelude::*;
use vstd::string::StrSliceExecFns;
use crate::ast::{AstNode, ParseError, apply};
use crate::cnf::cnf;
use crate::nnf::nnf;
use crate::parse::{binary_of, parse_rpn, parsed_trees_are_well_formed};
use crate::sets::{add_filtered, increasing, set_eval, set_views};
use crate::table::{bit, has_true_row};
use vstd::arithmetic::div_mod::{lemma_add_mod_noop, lemma_mul_mod_noop_right};
use vstd::arithmetic::power2::pow2;
use vstd::bits::{lemma_usize_pow2_no_overflow, lemma_usize_shl_is_mul};

verus! {

/// The `k` lowest bits set.
spec fn low_mask(k: u64) -> u64 {
    ((1u64 << k) - 1) as u64
}

proof fn lemma_carry_step(res: u32, num: u32, k: u64)
    by (bit_vector)
    requires
        num != 0,
        k <= 32,
        (num as u64) & low_mask(k) == 0,
    ensures
        k < 32,
        ((res ^ num) + ((res & num) << 1u32) as u32) as u32 == (res + num) as u32,
        ((((res & num) << 1u32) as u32) as u64) & low_mask((k + 1) as u64) == 0,
{
}

/// The sum of `a` and `b` modulo `2^32`, computed with carries alone: the sum
/// without carries is `a ^ b`, the carries are `(a & b) << 1`.
pub fn adder(a: u32, b: u32) -> (r: u32)
    ensures
        r == (a + b) % 0x1_0000_0000,
{
    let mut res: u32 = a;
    let mut num: u32 = b;
    let ghost mut k: u64 = 0;
    assert((b as u64) & low_mask(0u64) == 0) by (bit_vector);
    while num != 0
        invariant
            (res + num) as u32 == (a + b) as u32,
            k <= 32,
            (num as u64) & low_mask(k) == 0,
        decreases 32 - k,
    {
        proof {
            lemma_carry_step(res, num, k);
        }
        let carry: u32 = (res & num) << 1u32;
        res = res ^ num;
        num = carry;
        proof {
            k = (k + 1) as u64;
        }
    }
    assert(((a + b) as u32) as int == (a + b) % 0x1_0000_0000) by (bit_vector);
    res
}

/// The product of `a` and `b` modulo `2^32`, by shifts and additions: each
/// set bit of `b` adds `a` shifted to that bit.
pub fn multiplier(a: u32, b: u32) -> (r: u32)
    ensures
        r == (a * b) % 0x1_0000_0000,
{
    let mut res: u32 = 0;
    let mut mul: u32 = b;
    let mut add: u32 = a;
    // What `res` and `add` would be without wrapping.
    let ghost mut exact: int = 0;
    let ghost mut scaled: int = a as int;
    while mul > 0
        invariant
            res == exact % 0x1_0000_0000,
            add == scaled % 0x1_0000_0000,
            exact + scaled * mul == a * b,
            exact >= 0,
            scaled >= 0,
        decreases mul,
    {
        let ghost half = mul >> 1u32;
        let ghost low = mul & 1u32;
        assert(mul == 2 * (mul >> 1u32) + (mul & 1u32) && (mul & 1u32) <= 1 && (mul >> 1u32) < mul)
            by (bit_vector)
            requires
                mul != 0,
        ;
        assert(scaled * mul == scaled * low + 2 * scaled * half) by (nonlinear_arith)
            requires
                mul == 2 * half + low,
        ;
        if mul & 1 == 1 {
            res = adder(res, add);
            proof {
                lemma_add_mod_noop(exact, scaled, 0x1_0000_0000);
                exact = exact + scaled;
            }
        }
        assert(((add << 1u32) as u32) as int == (2 * add) % 0x1_0000_0000) by (bit_vector);
        add = add << 1u32;
        mul = mul >> 1u32;
        proof {
            lemma_mul_mod_noop_right(2, scaled, 0x1_0000_0000);
            scaled = 2 * scaled;
        }
    }
    res
}

/// The reflected binary code of `a`: neighbouring numbers differ in one bit.
pub fn gray_code(a: u32) -> (r: u32)
    ensures
        r == a ^ (a >> 1u32),
{
    a ^ (a >> 1u32)
}

/// One token of a constant formula read onto the stack of truth values.
pub open spec fn bool_step(stack: Seq<bool>, c: char) -> Result<Seq<bool>, ParseError> {
    let n = stack.len();
    if c == '0' {
        Ok(stack.push(false))
    } else if c == '1' {
        Ok(stack.push(true))
    } else if binary_of(c) is Some {
        if n < 2 {
            Err(ParseError::MissingOperand(c))
        } else {
            Ok(stack.take(n - 2).push(apply(binary_of(c)->0, stack[n - 2], stack[n - 1])))
        }
    } else if c == '!' {
        if n < 1 {
            Err(ParseError::MissingOperand(c))
        } else {
            Ok(stack.take(n - 1).push(!stack[n - 1]))
        }
    } else {
        Err(ParseError::UnknownToken(c))
    }
}

/// The stack after reading `tokens` onto `stack`, or the first failure.
pub open spec fn bool_run(stack: Seq<bool>, tokens: Seq<char>) -> Result<Seq<bool>, ParseError>
    decreases tokens.len(),
{
    if tokens.len() == 0 {
        Ok(stack)
    } else {
        match bool_step(stack, tokens[0]) {
            Ok(next) => bool_run(next, tokens.drop_first()),
            Err(e) => Err(e),
        }
    }
}

/// The value of a reverse-Polish formula over the constants `0` and `1`.
pub open spec fn formula_value(tokens: Seq<char>) -> Result<bool, ParseError> {
    match bool_run(seq![], tokens) {
        Ok(stack) => if stack.len() == 1 {
            Ok(stack[0])
        } else {
            Err(ParseError::StackSize(stack.len() as usize))
        },
        Err(e) => Err(e),
    }
}

fn binary_value(c: char, a: bool, b: bool) -> (r: Option<bool>)
    ensures
        r == (match binary_of(c) {
            Some(op) => Some(apply(op, a, b)),
            None => None::<bool>,
        }),
{
    if c == '|' {
        Some(a || b)
    } else if c == '&' {
        Some(a && b)
    } else if c == '^' {
        Some(a != b)
    } else if c == '=' {
        Some(a == b)
    } else if c == '>' {
        Some(!a || b)
    } else {
        None
    }
}

/// Evaluates a formula of the constants `0` and `1` in reverse-Polish
/// notation with a stack of truth values.
pub fn eval_formula(formula: &str) -> (r: Result<bool, ParseError>)
    ensures
        r == formula_value(formula@),
{
    let n = formula.unicode_len();
    let mut stack: Vec<bool> = Vec::new();
    let mut i: usize = 0;
    assert(formula@.subrange(0, n as int) =~= formula@);
    while i < n
        invariant
            n == formula@.len(),
            i <= n,
            bool_run(seq![], formula@) == bool_run(stack@, formula@.subrange(i as int, n as int)),
        decreases n - i,
    {
        let c = formula.get_char(i);
        let ghost before = stack@;
        let ghost tokens = formula@.subrange(i as int, n as int);
        assert(tokens.drop_first() =~= formula@.subrange(i + 1, n as int));
        if c == '0' {
            stack.push(false);
        } else if c == '1' {
            stack.push(true);
        } else if c == '!' {
            let a = match stack.pop() {
                Some(a) => a,
                None => return Err(ParseError::MissingOperand(c)),
            };
            assert(before.take(before.len() - 1) =~= stack@);
            stack.push(!a);
        } else {
            match binary_value(c, false, false) {
                Some(_) => {
                    if stack.len() < 2 {
                        return Err(ParseError::MissingOperand(c));
                    }
                    let b = stack.pop().unwrap();
                    let a = stack.pop().unwrap();
                    assert(before.take(before.len() - 2) =~= stack@);
                    stack.push(binary_value(c, a, b).unwrap());
                },
                None => return Err(ParseError::UnknownToken(c)),
            }
        }
        assert(bool_step(before, c) == Ok::<Seq<bool>, ParseError>(stack@));
        i = i + 1;
    }
    if stack.len() != 1 {
        return Err(ParseError::StackSize(stack.len()));
    }
    Ok(stack.pop().unwrap())
}

/// The negation normal form of a formula, both in reverse-Polish notation.
pub fn negation_normal_form(formula: &str) -> (r: String)
    requires
        parse_rpn(formula@) is Ok,
    ensures
        r@ == nnf(parse_rpn(formula@)->Ok_0).rpn(),
{
    proof {
        parsed_trees_are_well_formed(formula@);
    }
    let ast = match AstNode::try_from(formula) {
        Ok(t) => t,
        Err(_) => {
            proof {
                assert(false);
            }
            return String::new();
        },
    };
    ast.to_nnf().to_rpn()
}

/// The conjunctive normal form of a formula, both in reverse-Polish notation.
pub fn conjunctive_normal_form(formula: &str) -> (r: String)
    requires
        parse_rpn(formula@) is Ok,
    ensures
        r@ == cnf(parse_rpn(formula@)->Ok_0).rpn(),
{
    proof {
        parsed_trees_are_well_formed(formula@);
    }
    let ast = match AstNode::try_from(formula) {
        Ok(t) => t,
        Err(_) => {
            proof {
                assert(false);
            }
            return String::new();
        },
    };
    ast.to_cnf().to_rpn()
}

/// Whether some assignment makes the formula true: some row of its truth
/// table is true.
pub fn sat(formula: &str) -> (r: bool)
    requires
        parse_rpn(formula@) is Ok,
    ensures
        r == has_true_row(parse_rpn(formula@)->Ok_0),
{
    proof {
        parsed_trees_are_well_formed(formula@);
    }
    let ast = match AstNode::try_from(formula) {
        Ok(t) => t,
        Err(_) => {
            proof {
                assert(false);
            }
            return false;
        },
    };
    ast.is_satisfiable()
}

/// The subset of `s` that mask `i` selects: element `j` is in when bit `j`
/// of `i` is set. Order is kept.
pub open spec fn subset_at(s: Seq<i32>, i: usize) -> Seq<i32>
    decreases s.len(),
{
    if s.len() == 0 {
        seq![]
    } else {
        let rest = subset_at(s.drop_last(), i);
        if bit(i, (s.len() - 1) as usize) {
            rest.push(s.last())
        } else {
            rest
        }
    }
}

/// All `2^n` subsets of `set`, the `i`-th made of the elements whose bit in
/// `i` is set.
pub fn powerset(set: Vec<i32>) -> (r: Vec<Vec<i32>>)
    requires
        set@.len() < usize::BITS,
    ensures
        r@.len() == pow2(set@.len() as nat),
        forall|i: int| 0 <= i < r@.len() ==> (#[trigger] r@[i])@ == subset_at(set@, i as usize),
{
    let n = set.len();
    proof {
        lemma_usize_pow2_no_overflow(n as nat);
        lemma_usize_shl_is_mul(1, n);
    }
    let count: usize = 1usize << n;
    let mut res: Vec<Vec<i32>> = Vec::new();
    let mut i: usize = 0;
    while i < count
        invariant
            n == set@.len(),
            n < usize::BITS,
            count == pow2(n as nat),
            i <= count,
            res@.len() == i,
            forall|k: int| 0 <= k < i ==> (#[trigger] res@[k])@ == subset_at(set@, k as usize),
        decreases count - i,
    {
        let mut v: Vec<i32> = Vec::new();
        let mut index: usize = 0;
        while index < n
            invariant
                n == set@.len(),
                n < usize::BITS,
                index <= n,
                v@ == subset_at(set@.take(index as int), i),
            decreases n - index,
        {
            let ghost prefix = set@.take(index + 1);
            assert(prefix.drop_last() =~= set@.take(index as int));
            if (i >> index) & 1 == 1 {
                v.push(set[index]);
            }
            index = index + 1;
        }
        assert(set@.take(n as int) =~= set@);
        res.push(v);
        i = i + 1;
    }
    res
}

/// The union of the supplied sets.
pub open spec fn union_of(sets: Seq<Vec<i32>>) -> Set<i32>
    decreases sets.len(),
{
    if sets.len() == 0 {
        Set::empty()
    } else {
        union_of(sets.drop_last()) + sets.last()@.to_set()
    }
}

/// A formula read over the supplied sets, with their union as universe.
pub fn evaluate_set(formula: &str, sets: Vec<Vec<i32>>) -> (r: Vec<i32>)
    requires
        parse_rpn(formula@) is Ok,
        set_eval(parse_rpn(formula@)->Ok_0, set_views(sets@), union_of(sets@)) is Ok,
    ensures
        increasing(r@),
        r@.to_set() == set_eval(parse_rpn(formula@)->Ok_0, set_views(sets@), union_of(sets@))->Ok_0,
{
    proof {
        parsed_trees_are_well_formed(formula@);
    }
    let ast = match AstNode::try_from(formula) {
        Ok(t) => t,
        Err(_) => {
            proof {
                assert(false);
            }
            return Vec::new();
        },
    };
    let none: Vec<i32> = Vec::new();
    let mut universe: Vec<i32> = Vec::new();
    let mut k: usize = 0;
    while k < sets.len()
        invariant
            k <= sets@.len(),
            increasing(universe@),
            universe@.to_set() == union_of(sets@.take(k as int)),
            none@.len() == 0,
        decreases sets@.len() - k,
    {
        assert(sets@.take(k + 1).drop_last() =~= sets@.take(k as int));
        add_filtered(&mut universe, &sets[k], &none, false);
        assert(universe@.to_set() =~= union_of(sets@.take(k + 1)));
        k = k + 1;
    }
    assert(sets@.take(sets@.len() as int) =~= sets@);
    match ast.set_value(&sets, &universe) {
        Ok(v) => v,
        Err(_) => Vec::new(),
    }
}

} // verus!
