//! Reading formulas in reverse-Polish notation.
use vstd::prelude::*;
use vstd::string::StrSliceExecFns;
use crate::ast::{AstNode, Operator, ParseError, is_leaf, mk_bin, mk_not, symbol_of};

verus! {

/// The binary operator that a character writes, if any.
pub open spec fn binary_of(c: char) -> Option<Operator> {
    if c == '|' {
        Some(Operator::Or)
    } else if c == '&' {
        Some(Operator::And)
    } else if c == '^' {
        Some(Operator::Xor)
    } else if c == '=' {
        Some(Operator::Iff)
    } else if c == '>' {
        Some(Operator::Implies)
    } else {
        None
    }
}

/// One token read onto the operand stack: a letter or constant is pushed as a leaf; an
/// operator pops its operands (the right one on top) and pushes the new node.
pub open spec fn parse_step(stack: Seq<AstNode>, c: char) -> Result<Seq<AstNode>, ParseError> {
    let n = stack.len();
    if is_leaf(c) {
        Ok(stack.push(AstNode::Variable(c)))
    } else if binary_of(c) is Some {
        if n < 2 {
            Err(ParseError::MissingOperand(c))
        } else {
            Ok(stack.take(n - 2).push(mk_bin(binary_of(c)->0, stack[n - 2], stack[n - 1])))
        }
    } else if c == '!' {
        if n < 1 {
            Err(ParseError::MissingOperand(c))
        } else {
            Ok(stack.take(n - 1).push(mk_not(stack[n - 1])))
        }
    } else {
        Err(ParseError::UnknownToken(c))
    }
}

/// The stack after reading `tokens` onto `stack`, or the first failure.
pub open spec fn parse_from(stack: Seq<AstNode>, tokens: Seq<char>) -> Result<Seq<AstNode>, ParseError>
    decreases tokens.len(),
{
    if tokens.len() == 0 {
        Ok(stack)
    } else {
        match parse_step(stack, tokens[0]) {
            Ok(next) => parse_from(next, tokens.drop_first()),
            Err(e) => Err(e),
        }
    }
}

/// The tree that a reverse-Polish string denotes: reading it must leave
/// exactly one element on the stack.
pub open spec fn parse_rpn(tokens: Seq<char>) -> Result<AstNode, ParseError> {
    match parse_from(seq![], tokens) {
        Ok(stack) => if stack.len() == 1 {
            Ok(stack[0])
        } else {
            Err(ParseError::StackSize(stack.len() as usize))
        },
        Err(e) => Err(e),
    }
}

proof fn lemma_parse_from_wf(stack: Seq<AstNode>, tokens: Seq<char>)
    requires
        forall|k: int| 0 <= k < stack.len() ==> (#[trigger] stack[k]).wf(),
    ensures
        parse_from(stack, tokens) matches Ok(s) ==> forall|k: int| 0 <= k < s.len() ==> (#[trigger] s[k]).wf(),
    decreases tokens.len(),
{
    if tokens.len() > 0 {
        let c = tokens[0];
        if let Ok(next) = parse_step(stack, c) {
            let n = stack.len();
            assert forall|k: int| 0 <= k < next.len() implies (#[trigger] next[k]).wf() by {
                if k < next.len() - 1 {
                    assert(next[k] == stack[k]);
                }
            }
            lemma_parse_from_wf(next, tokens.drop_first());
        }
    }
}

/// Every tree that parsing yields is well formed.
pub proof fn parsed_trees_are_well_formed(tokens: Seq<char>)
    ensures
        parse_rpn(tokens) matches Ok(t) ==> t.wf(),
{
    lemma_parse_from_wf(seq![], tokens);
}

proof fn lemma_parse_rpn_of(t: AstNode, stack: Seq<AstNode>, rest: Seq<char>)
    requires
        t.wf(),
    ensures
        parse_from(stack, t.rpn() + rest) == parse_from(stack.push(t), rest),
    decreases t,
{
    match t {
        AstNode::Variable(c) => {
            assert((t.rpn() + rest).drop_first() =~= rest);
        },
        AstNode::UnaryOperator(op, c) => {
            let tail = seq![symbol_of(op)] + rest;
            assert(t.rpn() + rest =~= c.rpn() + tail);
            lemma_parse_rpn_of(*c, stack, tail);
            let s1 = stack.push(*c);
            assert(s1.take(s1.len() - 1) =~= stack);
            assert(tail.drop_first() =~= rest);
        },
        AstNode::BinaryOperator(op, l, r) => {
            let tail = seq![symbol_of(op)] + rest;
            assert(t.rpn() + rest =~= l.rpn() + (r.rpn() + tail));
            lemma_parse_rpn_of(*l, stack, r.rpn() + tail);
            lemma_parse_rpn_of(*r, stack.push(*l), tail);
            let s2 = stack.push(*l).push(*r);
            assert(s2.take(s2.len() - 2) =~= stack);
            assert(tail.drop_first() =~= rest);
        },
    }
}

/// Writing a well-formed tree in reverse-Polish notation and reading it back
/// gives the same tree, so in particular the same truth table.
pub proof fn rpn_round_trip(t: AstNode)
    requires
        t.wf(),
    ensures
        parse_rpn(t.rpn()) == Ok::<AstNode, ParseError>(t),
{
    lemma_parse_rpn_of(t, seq![], seq![]);
    assert(t.rpn() + seq![] =~= t.rpn());
}

fn binary_operator(c: char) -> (r: Option<Operator>)
    ensures
        r == binary_of(c),
{
    if c == '|' {
        Some(Operator::Or)
    } else if c == '&' {
        Some(Operator::And)
    } else if c == '^' {
        Some(Operator::Xor)
    } else if c == '=' {
        Some(Operator::Iff)
    } else if c == '>' {
        Some(Operator::Implies)
    } else {
        None
    }
}

impl AstNode {
    /// Reads a formula in reverse-Polish notation with an operand stack.
    pub fn parse(rpn: &str) -> (r: Result<AstNode, ParseError>)
        ensures
            r == parse_rpn(rpn@),
            r is Ok ==> r->Ok_0.wf(),
    {
        let n = rpn.unicode_len();
        let mut stack: Vec<AstNode> = Vec::new();
        let mut i: usize = 0;
        assert(rpn@.subrange(0, n as int) =~= rpn@);
        while i < n
            invariant
                n == rpn@.len(),
                i <= n,
                parse_from(seq![], rpn@) == parse_from(stack@, rpn@.subrange(i as int, n as int)),
                forall|k: int| 0 <= k < stack@.len() ==> (#[trigger] stack@[k]).wf(),
            decreases n - i,
        {
            let c = rpn.get_char(i);
            let ghost before = stack@;
            let ghost tokens = rpn@.subrange(i as int, n as int);
            assert(tokens.drop_first() =~= rpn@.subrange(i + 1, n as int));
            if ('A' <= c && c <= 'Z') || c == '0' || c == '1' {
                stack.push(AstNode::Variable(c));
            } else if c == '!' {
                let operand = match stack.pop() {
                    Some(x) => x,
                    None => return Err(ParseError::MissingOperand(c)),
                };
                assert(before.take(before.len() - 1) =~= stack@);
                stack.push(AstNode::UnaryOperator(Operator::Not, Box::new(operand)));
            } else {
                match binary_operator(c) {
                    Some(op) => {
                        if stack.len() < 2 {
                            return Err(ParseError::MissingOperand(c));
                        }
                        let right = stack.pop().unwrap();
                        let left = stack.pop().unwrap();
                        assert(before.take(before.len() - 2) =~= stack@);
                        stack.push(AstNode::BinaryOperator(op, Box::new(left), Box::new(right)));
                    },
                    None => return Err(ParseError::UnknownToken(c)),
                }
            }
            assert(parse_step(before, c) == Ok::<Seq<AstNode>, ParseError>(stack@));
            i = i + 1;
        }
        if stack.len() != 1 {
            return Err(ParseError::StackSize(stack.len()));
        }
        Ok(stack.pop().unwrap())
    }
}

impl<'a> TryFrom<&'a str> for AstNode {
    type Error = ParseError;

    fn try_from(rpn: &'a str) -> (r: Result<AstNode, ParseError>) {
        AstNode::parse(rpn)
    }
}

impl<'a> vstd::std_specs::convert::TryFromSpecImpl<&'a str> for AstNode {
    open spec fn obeys_try_from_spec() -> bool {
        true
    }

    open spec fn try_from_spec(rpn: &'a str) -> Result<AstNode, ParseError> {
        parse_rpn(rpn@)
    }
}

} // verus!
