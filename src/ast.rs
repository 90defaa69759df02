//! The formula tree, its meaning under an assignment, and its written forms.
use vstd::prelude::*;

verus! {

/// The six connectives of a formula. `Not` is unary, the others binary.
#[derive(Debug, Clone, Copy, PartialEq, Eq, Structural)]
pub enum Operator {
    Or,
    And,
    Not,
    Xor,
    Iff,
    Implies,
}

/// A formula tree. Every child is owned by exactly one parent. A leaf holds a
/// variable letter, or `0` or `1` for a constant.
#[derive(Debug)]
pub enum AstNode {
    Variable(char),
    BinaryOperator(Operator, Box<AstNode>, Box<AstNode>),
    UnaryOperator(Operator, Box<AstNode>),
}

/// Why a string is not a formula in reverse-Polish notation.
#[derive(Debug, Clone, Copy, PartialEq, Eq, Structural)]
pub enum ParseError {
    /// A character outside the alphabet.
    UnknownToken(char),
    /// The operator found too few operands on the stack.
    MissingOperand(char),
    /// At the end the stack held this many elements instead of one.
    StackSize(usize),
}

/// Why a formula could not be evaluated.
#[derive(Debug, Clone, Copy, PartialEq, Eq, Structural)]
pub enum EvalError {
    /// The assignment gives no value to this variable.
    UndefinedVariable(char),
}

pub open spec fn is_letter(c: char) -> bool {
    'A' <= c && c <= 'Z'
}

/// `0` and `1` stand for false and true.
pub open spec fn is_constant(c: char) -> bool {
    c == '0' || c == '1'
}

/// What a leaf may hold: a variable letter or a constant.
pub open spec fn is_leaf(c: char) -> bool {
    is_letter(c) || is_constant(c)
}

/// The character that writes an operator.
pub open spec fn symbol_of(op: Operator) -> char {
    match op {
        Operator::Or => '|',
        Operator::And => '&',
        Operator::Not => '!',
        Operator::Xor => '^',
        Operator::Iff => '=',
        Operator::Implies => '>',
    }
}

/// The boolean meaning of a binary operator.
pub open spec fn apply(op: Operator, a: bool, b: bool) -> bool {
    match op {
        Operator::Or => a || b,
        Operator::And => a && b,
        Operator::Xor => a != b,
        Operator::Iff => a == b,
        Operator::Implies => !a || b,
        Operator::Not => !a,
    }
}

/// The value that an assignment gives a variable: its first binding, if any.
pub open spec fn lookup(env: Seq<(char, bool)>, c: char) -> Option<bool>
    decreases env.len(),
{
    if env.len() == 0 {
        None
    } else if env[0].0 == c {
        Some(env[0].1)
    } else {
        lookup(env.drop_first(), c)
    }
}

pub open spec fn mk_not(a: AstNode) -> AstNode {
    AstNode::UnaryOperator(Operator::Not, Box::new(a))
}

pub open spec fn mk_bin(op: Operator, a: AstNode, b: AstNode) -> AstNode {
    AstNode::BinaryOperator(op, Box::new(a), Box::new(b))
}

/// A binary node over two fresh operands.
pub fn bin(op: Operator, a: AstNode, b: AstNode) -> (r: AstNode)
    ensures
        r == mk_bin(op, a, b),
{
    AstNode::BinaryOperator(op, Box::new(a), Box::new(b))
}

impl Operator {
    pub fn symbol(&self) -> (r: char)
        ensures
            r == symbol_of(*self),
    {
        match self {
            Operator::Or => '|',
            Operator::And => '&',
            Operator::Not => '!',
            Operator::Xor => '^',
            Operator::Iff => '=',
            Operator::Implies => '>',
        }
    }
}

impl AstNode {
    pub open spec fn size(self) -> nat
        decreases self,
    {
        match self {
            AstNode::Variable(_) => 1,
            AstNode::UnaryOperator(_, c) => 1 + c.size(),
            AstNode::BinaryOperator(_, l, r) => 1 + l.size() + r.size(),
        }
    }

    /// Leaves are letters or constants, a unary node is a negation, a binary
    /// node is not.
    pub open spec fn wf(self) -> bool
        decreases self,
    {
        match self {
            AstNode::Variable(c) => is_leaf(c),
            AstNode::UnaryOperator(op, c) => op == Operator::Not && c.wf(),
            AstNode::BinaryOperator(op, l, r) => op != Operator::Not && l.wf() && r.wf(),
        }
    }

    /// The variables that occur in the tree; constants are none.
    pub open spec fn vars(self) -> Set<char>
        decreases self,
    {
        match self {
            AstNode::Variable(c) => if is_constant(c) {
                Set::empty()
            } else {
                set![c]
            },
            AstNode::UnaryOperator(_, c) => c.vars(),
            AstNode::BinaryOperator(_, l, r) => l.vars() + r.vars(),
        }
    }

    /// Every variable of the tree has a value in `env`.
    pub open spec fn defined_in(self, env: Seq<(char, bool)>) -> bool
        decreases self,
    {
        match self {
            AstNode::Variable(c) => is_constant(c) || lookup(env, c) is Some,
            AstNode::UnaryOperator(_, c) => c.defined_in(env),
            AstNode::BinaryOperator(_, l, r) => l.defined_in(env) && r.defined_in(env),
        }
    }

    /// The truth value of the tree, where an unbound variable counts as false.
    /// A constant is its own value.
    pub open spec fn holds(self, env: Seq<(char, bool)>) -> bool
        decreases self,
    {
        match self {
            AstNode::Variable(c) => if is_constant(c) {
                c == '1'
            } else {
                lookup(env, c) == Some(true)
            },
            AstNode::UnaryOperator(_, c) => !c.holds(env),
            AstNode::BinaryOperator(op, l, r) => apply(op, l.holds(env), r.holds(env)),
        }
    }

    /// Evaluation as `evaluate` performs it: left before right, stopping at
    /// the first variable without a value.
    pub open spec fn eval(self, env: Seq<(char, bool)>) -> Result<bool, EvalError>
        decreases self,
    {
        match self {
            AstNode::Variable(c) => if is_constant(c) {
                Ok(c == '1')
            } else {
                match lookup(env, c) {
                    Some(b) => Ok(b),
                    None => Err(EvalError::UndefinedVariable(c)),
                }
            },
            AstNode::UnaryOperator(_, c) => match c.eval(env) {
                Ok(b) => Ok(!b),
                Err(e) => Err(e),
            },
            AstNode::BinaryOperator(op, l, r) => match l.eval(env) {
                Err(e) => Err(e),
                Ok(a) => match r.eval(env) {
                    Err(e) => Err(e),
                    Ok(b) => Ok(apply(op, a, b)),
                },
            },
        }
    }

    /// The tree in reverse-Polish notation.
    pub open spec fn rpn(self) -> Seq<char>
        decreases self,
    {
        match self {
            AstNode::Variable(c) => seq![c],
            AstNode::UnaryOperator(op, c) => c.rpn().push(symbol_of(op)),
            AstNode::BinaryOperator(op, l, r) => (l.rpn() + r.rpn()).push(symbol_of(op)),
        }
    }

    /// The tree in fully parenthesised infix notation.
    pub open spec fn infix(self) -> Seq<char>
        decreases self,
    {
        match self {
            AstNode::Variable(c) => seq![c],
            AstNode::UnaryOperator(op, c) => seq![symbol_of(op)] + c.infix(),
            AstNode::BinaryOperator(op, l, r) => seq!['('] + l.infix() + seq![' ', symbol_of(op), ' ']
                + r.infix() + seq![')'],
        }
    }
}

/// Relies on `String::push`: the character is appended at the end.
pub assume_specification[ String::push ](s: &mut String, ch: char)
    ensures
        final(s)@ == old(s)@.push(ch),
;

/// Whatever the tree, its evaluation succeeds exactly when every variable has
/// a value, and then gives the truth value.
pub proof fn lemma_eval_defined(t: AstNode, env: Seq<(char, bool)>)
    ensures
        t.defined_in(env) ==> t.eval(env) == Ok::<bool, EvalError>(t.holds(env)),
        !t.defined_in(env) ==> t.eval(env) is Err,
    decreases t,
{
    match t {
        AstNode::Variable(c) => {},
        AstNode::UnaryOperator(_, c) => lemma_eval_defined(*c, env),
        AstNode::BinaryOperator(_, l, r) => {
            lemma_eval_defined(*l, env);
            lemma_eval_defined(*r, env);
        },
    }
}

impl AstNode {
    /// A fresh copy of the tree.
    pub fn duplicate(&self) -> (r: AstNode)
        ensures
            r == *self,
        decreases self,
    {
        match self {
            AstNode::Variable(c) => AstNode::Variable(*c),
            AstNode::UnaryOperator(op, c) => AstNode::UnaryOperator(*op, Box::new(c.duplicate())),
            AstNode::BinaryOperator(op, l, r) => AstNode::BinaryOperator(
                *op,
                Box::new(l.duplicate()),
                Box::new(r.duplicate()),
            ),
        }
    }

    fn write_rpn(&self, out: &mut String)
        ensures
            final(out)@ == old(out)@ + self.rpn(),
        decreases self,
    {
        match self {
            AstNode::Variable(c) => {
                out.push(*c);
            },
            AstNode::UnaryOperator(op, c) => {
                c.write_rpn(out);
                out.push(op.symbol());
            },
            AstNode::BinaryOperator(op, l, r) => {
                l.write_rpn(out);
                r.write_rpn(out);
                out.push(op.symbol());
                assert(final(out)@ =~= old(out)@ + self.rpn());
            },
        }
    }

    /// Post-order: a leaf gives its letter, a node its operands and then its symbol.
    pub fn to_rpn(&self) -> (r: String)
        ensures
            r@ == self.rpn(),
    {
        let mut out = String::new();
        self.write_rpn(&mut out);
        assert(out@ =~= self.rpn());
        out
    }

    fn write_infix(&self, out: &mut String)
        ensures
            final(out)@ == old(out)@ + self.infix(),
        decreases self,
    {
        match self {
            AstNode::Variable(c) => {
                out.push(*c);
            },
            AstNode::UnaryOperator(op, c) => {
                out.push(op.symbol());
                c.write_infix(out);
                assert(final(out)@ =~= old(out)@ + self.infix());
            },
            AstNode::BinaryOperator(op, l, r) => {
                out.push('(');
                l.write_infix(out);
                out.push(' ');
                out.push(op.symbol());
                out.push(' ');
                r.write_infix(out);
                out.push(')');
                assert(final(out)@ =~= old(out)@ + self.infix());
            },
        }
    }

    /// Infix form: `(left op right)` for a binary node, `!operand` for a negation.
    pub fn to_display(&self) -> (r: String)
        ensures
            r@ == self.infix(),
    {
        let mut out = String::new();
        self.write_infix(&mut out);
        assert(out@ =~= self.infix());
        out
    }

    /// The value of the formula under `vars`; the first variable met, left to
    /// right, that `vars` leaves without a value is reported.
    pub fn evaluate(&self, vars: &Vec<(char, bool)>) -> (r: Result<bool, EvalError>)
        ensures
            r == self.eval(vars@),
        decreases self,
    {
        match self {
            AstNode::Variable(c) => {
                if *c == '0' || *c == '1' {
                    return Ok(*c == '1');
                }
                match find_value(vars, *c) {
                    Some(b) => Ok(b),
                    None => Err(EvalError::UndefinedVariable(*c)),
                }
            },
            AstNode::UnaryOperator(_, c) => match c.evaluate(vars) {
                Ok(b) => Ok(!b),
                Err(e) => Err(e),
            },
            AstNode::BinaryOperator(op, l, r) => {
                let a = match l.evaluate(vars) {
                    Ok(a) => a,
                    Err(e) => return Err(e),
                };
                let b = match r.evaluate(vars) {
                    Ok(b) => b,
                    Err(e) => return Err(e),
                };
                Ok(apply_exec(op, a, b))
            },
        }
    }
}

fn apply_exec(op: &Operator, a: bool, b: bool) -> (r: bool)
    ensures
        r == apply(*op, a, b),
{
    match op {
        Operator::Or => a || b,
        Operator::And => a && b,
        Operator::Xor => a != b,
        Operator::Iff => a == b,
        Operator::Implies => !a || b,
        Operator::Not => !a,
    }
}

/// The first binding of `c` in `vars`.
pub fn find_value(vars: &Vec<(char, bool)>, c: char) -> (r: Option<bool>)
    ensures
        r == lookup(vars@, c),
{
    let mut i: usize = 0;
    assert(vars@.subrange(0, vars@.len() as int) =~= vars@);
    while i < vars.len()
        invariant
            i <= vars@.len(),
            lookup(vars@, c) == lookup(vars@.subrange(i as int, vars@.len() as int), c),
        decreases vars@.len() - i,
    {
        let ghost rest = vars@.subrange(i as int, vars@.len() as int);
        assert(rest.drop_first() =~= vars@.subrange(i + 1, vars@.len() as int));
        if vars[i].0 == c {
            return Some(vars[i].1);
        }
        i = i + 1;
    }
    None
}

} // verus!
