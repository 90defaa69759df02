//! Variables, truth tables and satisfiability.
use vstd::prelude::*;
use vstd::arithmetic::power2::pow2;
use vstd::bits::{lemma_usize_pow2_no_overflow, lemma_usize_shl_is_mul};
use vstd::set_lib::{lemma_int_range, lemma_len_subset, set_int_range};
use crate::ast::{AstNode, EvalError, is_constant, is_letter, lookup};

verus! {

/// The variables of `t` appended to `acc` in order of first occurrence, left
/// to right, each once. Constants are skipped.
pub open spec fn gather(t: AstNode, acc: Seq<char>) -> Seq<char>
    decreases t,
{
    match t {
        AstNode::Variable(c) => if is_constant(c) || acc.contains(c) {
            acc
        } else {
            acc.push(c)
        },
        AstNode::UnaryOperator(_, c) => gather(*c, acc),
        AstNode::BinaryOperator(_, l, r) => gather(*r, gather(*l, acc)),
    }
}

/// The variables of a tree in the order in which the truth table lists them:
/// by first occurrence, left to right.
pub open spec fn var_order(t: AstNode) -> Seq<char> {
    gather(t, seq![])
}

/// Bit `k` of `i`.
pub open spec fn bit(i: usize, k: usize) -> bool {
    (i >> k) & 1 == 1
}

/// Row `i` of the table over `vs`: the first variable takes the highest bit
/// of `i`, the last variable the lowest.
pub open spec fn row(vs: Seq<char>, i: usize) -> Seq<(char, bool)> {
    Seq::new(vs.len(), |j: int| (vs[j], bit(i, (vs.len() - 1 - j) as usize)))
}

/// The truth table of `t`: one row for each of the `2^n` assignments to its
/// `n` variables, in the order of their numbers, with the value of `t`.
pub open spec fn truth_rows(t: AstNode) -> Seq<(Seq<(char, bool)>, bool)> {
    let vs = var_order(t);
    Seq::new(
        pow2(vs.len()),
        |i: int| (row(vs, i as usize), t.holds(row(vs, i as usize))),
    )
}

/// Some row of the truth table is true.
pub open spec fn has_true_row(t: AstNode) -> bool {
    exists|i: int| 0 <= i < truth_rows(t).len() && (#[trigger] truth_rows(t)[i]).1
}

proof fn lemma_gather(t: AstNode, acc: Seq<char>)
    requires
        acc.no_duplicates(),
    ensures
        gather(t, acc).no_duplicates(),
        gather(t, acc).to_set() == acc.to_set() + t.vars(),
        t.wf() && (forall|k: int| 0 <= k < acc.len() ==> is_letter(#[trigger] acc[k])) ==> forall|
            k: int,
        | 0 <= k < gather(t, acc).len() ==> is_letter(#[trigger] gather(t, acc)[k]),
    decreases t,
{
    match t {
        AstNode::Variable(c) => {
            if is_constant(c) {
                assert(acc.to_set() =~= acc.to_set() + t.vars());
            } else if !acc.contains(c) {
                acc.lemma_push_to_set_commute(c);
                assert(acc.to_set().insert(c) =~= acc.to_set() + set![c]);
            } else {
                assert(acc.to_set() =~= acc.to_set() + set![c]);
            }
        },
        AstNode::UnaryOperator(_, c) => lemma_gather(*c, acc),
        AstNode::BinaryOperator(_, l, r) => {
            lemma_gather(*l, acc);
            lemma_gather(*r, gather(*l, acc));
            assert(acc.to_set() + l.vars() + r.vars() =~= acc.to_set() + (l.vars() + r.vars()));
        },
    }
}

/// Distinct letters are at most 26.
proof fn lemma_letters_bound(s: Seq<char>)
    requires
        s.no_duplicates(),
        forall|k: int| 0 <= k < s.len() ==> is_letter(#[trigger] s[k]),
    ensures
        s.len() <= 26,
{
    let codes = s.map_values(|c: char| c as int);
    assert forall|i: int, j: int| 0 <= i < codes.len() && 0 <= j < codes.len() && i != j implies codes[i]
        != codes[j] by {
        assert(s[i] != s[j]);
    }
    assert(codes.no_duplicates());
    codes.unique_seq_to_set();
    lemma_int_range(65, 91);
    assert forall|x: int| codes.to_set().contains(x) implies set_int_range(65, 91).contains(x) by {
        let k = choose|k: int| 0 <= k < codes.len() && codes[k] == x;
        assert(is_letter(s[k]));
    }
    lemma_len_subset(codes.to_set(), set_int_range(65, 91));
}

/// The variable order of a well-formed tree lists each of its variables once.
pub proof fn lemma_var_order(t: AstNode)
    requires
        t.wf(),
    ensures
        var_order(t).no_duplicates(),
        var_order(t).to_set() == t.vars(),
        var_order(t).len() <= 26,
{
    lemma_gather(t, seq![]);
    assert(Seq::<char>::empty().to_set() + t.vars() =~= t.vars());
    lemma_letters_bound(var_order(t));
}

proof fn lemma_lookup_bound(env: Seq<(char, bool)>, k: int)
    requires
        0 <= k < env.len(),
    ensures
        lookup(env, env[k].0) is Some,
    decreases env.len(),
{
    if k > 0 && env[0].0 != env[k].0 {
        lemma_lookup_bound(env.drop_first(), k - 1);
    }
}

proof fn lemma_defined(t: AstNode, env: Seq<(char, bool)>)
    requires
        forall|c: char| t.vars().contains(c) ==> lookup(env, c) is Some,
    ensures
        t.defined_in(env),
    decreases t,
{
    match t {
        AstNode::Variable(c) => {
            if !is_constant(c) {
                assert(t.vars().contains(c));
            }
        },
        AstNode::UnaryOperator(_, c) => {
            assert forall|x: char| c.vars().contains(x) implies lookup(env, x) is Some by {
                assert(t.vars().contains(x));
            }
            lemma_defined(*c, env);
        },
        AstNode::BinaryOperator(_, l, r) => {
            assert forall|x: char| l.vars().contains(x) implies lookup(env, x) is Some by {
                assert(t.vars().contains(x));
            }
            assert forall|x: char| r.vars().contains(x) implies lookup(env, x) is Some by {
                assert(t.vars().contains(x));
            }
            lemma_defined(*l, env);
            lemma_defined(*r, env);
        },
    }
}

/// Every row of the truth table gives each variable of the tree a value.
pub proof fn lemma_row_defined(t: AstNode, i: usize)
    requires
        t.wf(),
    ensures
        t.defined_in(row(var_order(t), i)),
{
    let vs = var_order(t);
    let env = row(vs, i);
    lemma_var_order(t);
    assert forall|c: char| t.vars().contains(c) implies lookup(env, c) is Some by {
        assert(vs.to_set().contains(c));
        let k = choose|k: int| 0 <= k < vs.len() && vs[k] == c;
        lemma_lookup_bound(env, k);
    }
    lemma_defined(t, env);
}

fn contains_char(v: &Vec<char>, c: char) -> (r: bool)
    ensures
        r == v@.contains(c),
{
    let mut i: usize = 0;
    while i < v.len()
        invariant
            i <= v@.len(),
            forall|k: int| 0 <= k < i ==> v@[k] != c,
        decreases v@.len() - i,
    {
        if v[i] == c {
            return true;
        }
        i = i + 1;
    }
    false
}

impl AstNode {
    fn collect_variables(&self, acc: &mut Vec<char>)
        ensures
            final(acc)@ == gather(*self, old(acc)@),
        decreases self,
    {
        match self {
            AstNode::Variable(c) => {
                if *c != '0' && *c != '1' && !contains_char(acc, *c) {
                    acc.push(*c);
                }
            },
            AstNode::UnaryOperator(_, child) => child.collect_variables(acc),
            AstNode::BinaryOperator(_, left, right) => {
                left.collect_variables(acc);
                right.collect_variables(acc);
            },
        }
    }

    /// The distinct variables of the tree, in order of first occurrence.
    pub fn get_variables(&self) -> (r: Vec<char>)
        ensures
            r@ == var_order(*self),
            r@.no_duplicates(),
            r@.to_set() == self.vars(),
    {
        let mut acc: Vec<char> = Vec::new();
        self.collect_variables(&mut acc);
        proof {
            lemma_gather(*self, seq![]);
            assert(Seq::<char>::empty().to_set() + self.vars() =~= self.vars());
        }
        acc
    }

    /// All `2^n` assignments to the `n` variables, each with the value of the
    /// formula under it. Row `i` gives the first variable the highest bit of `i`.
    pub fn truth_table(&self) -> (r: Vec<(Vec<(char, bool)>, bool)>)
        requires
            self.wf(),
        ensures
            r@.len() == truth_rows(*self).len(),
            forall|i: int|
                0 <= i < r@.len() ==> (#[trigger] r@[i]).0@ == truth_rows(*self)[i].0 && r@[i].1
                    == truth_rows(*self)[i].1,
    {
        let vars = self.get_variables();
        let n = vars.len();
        proof {
            lemma_var_order(*self);
            lemma_usize_pow2_no_overflow(n as nat);
            lemma_usize_shl_is_mul(1, n);
        }
        let count: usize = 1usize << n;
        assert(count == pow2(n as nat));
        let mut table: Vec<(Vec<(char, bool)>, bool)> = Vec::new();
        let mut i: usize = 0;
        while i < count
            invariant
                vars@ == var_order(*self),
                n == vars@.len(),
                n <= 26,
                count == pow2(n as nat),
                i <= count,
                table@.len() == i,
                self.wf(),
                forall|k: int|
                    0 <= k < i ==> (#[trigger] table@[k]).0@ == truth_rows(*self)[k].0 && table@[k].1
                        == truth_rows(*self)[k].1,
            decreases count - i,
        {
            let mut values: Vec<(char, bool)> = Vec::new();
            let mut j: usize = 0;
            while j < n
                invariant
                    vars@ == var_order(*self),
                    n == vars@.len(),
                    n <= 26,
                    j <= n,
                    values@ == row(vars@, i).take(j as int),
                decreases n - j,
            {
                let b = (i >> (n - 1 - j)) & 1 == 1;
                values.push((vars[j], b));
                assert(values@ =~= row(vars@, i).take(j + 1));
                j = j + 1;
            }
            assert(values@ =~= row(vars@, i));
            proof {
                lemma_row_defined(*self, i);
                crate::ast::lemma_eval_defined(*self, values@);
            }
            let result = match self.evaluate(&values) {
                Ok(b) => b,
                Err(_) => false,
            };
            table.push((values, result));
            i = i + 1;
        }
        table
    }

    /// Whether some row of the truth table is true.
    pub fn is_satisfiable(&self) -> (r: bool)
        requires
            self.wf(),
        ensures
            r == has_true_row(*self),
    {
        let table = self.truth_table();
        let mut i: usize = 0;
        while i < table.len()
            invariant
                table@.len() == truth_rows(*self).len(),
                forall|k: int|
                    0 <= k < table@.len() ==> (#[trigger] table@[k]).1 == truth_rows(*self)[k].1,
                forall|k: int| 0 <= k < i ==> !(#[trigger] truth_rows(*self)[k]).1,
                i <= table@.len(),
            decreases table@.len() - i,
        {
            if table[i].1 {
                assert(truth_rows(*self)[i as int].1);
                return true;
            }
            i = i + 1;
        }
        false
    }
}

} // verus!
