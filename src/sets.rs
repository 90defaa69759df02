//! Formulas read over finite sets of integers.
use vstd::prelude::*;
use std::collections::HashSet;
use crate::ast::{AstNode, Operator, lookup};

verus! {

broadcast use vstd::std_specs::hash::group_hash_axioms;

/// Why a formula could not be read over sets.
#[derive(Debug, Clone, Copy, PartialEq, Eq, Structural)]
pub enum SetError {
    /// No set was supplied at this variable's position.
    MissingSet(char),
}

/// The position of a variable among the supplied sets: `A` is 0, `B` is 1, ...
pub open spec fn position(c: char) -> int {
    c as int - 'A' as int
}

/// The set meaning of a binary operator, under universe `u`.
pub open spec fn combine(op: Operator, a: Set<i32>, b: Set<i32>, u: Set<i32>) -> Set<i32> {
    match op {
        Operator::And => a.intersect(b),
        Operator::Or => a + b,
        Operator::Xor => (a - b) + (b - a),
        Operator::Implies => (u - a) + b,
        Operator::Iff => u - ((a - b) + (b - a)),
        Operator::Not => u - a,
    }
}

/// The tree read over sets: the variable at position `k` is `sets[k]`,
/// negation is the complement in `u`, conjunction intersection, disjunction
/// union; the constant `1` is `u` and `0` the empty set. The first variable
/// met, left to right, without a set is reported.
pub open spec fn set_eval(t: AstNode, sets: Seq<Set<i32>>, u: Set<i32>) -> Result<Set<i32>, SetError>
    decreases t,
{
    match t {
        AstNode::Variable(c) => if c == '1' {
            Ok(u)
        } else if c == '0' {
            Ok(Set::empty())
        } else if 0 <= position(c) < sets.len() {
            Ok(sets[position(c)])
        } else {
            Err(SetError::MissingSet(c))
        },
        AstNode::UnaryOperator(_, c) => match set_eval(*c, sets, u) {
            Ok(a) => Ok(u - a),
            Err(e) => Err(e),
        },
        AstNode::BinaryOperator(op, l, r) => match set_eval(*l, sets, u) {
            Err(e) => Err(e),
            Ok(a) => match set_eval(*r, sets, u) {
                Err(e) => Err(e),
                Ok(b) => Ok(combine(op, a, b, u)),
            },
        },
    }
}

/// The sets that a list of lists stands for.
pub open spec fn set_views(sets: Seq<Vec<i32>>) -> Seq<Set<i32>> {
    sets.map_values(|v: Vec<i32>| v@.to_set())
}

/// Strictly increasing, hence without repetition.
pub open spec fn increasing(s: Seq<i32>) -> bool {
    forall|i: int, j: int| 0 <= i < j < s.len() ==> s[i] < s[j]
}

/// Sets and truth values agree: an element `x` of the universe is in the
/// set that the tree denotes exactly when the tree is true under the
/// assignment that makes each variable true when `x` is in its set.
pub proof fn set_reading_matches_truth(
    t: AstNode,
    sets: Seq<Set<i32>>,
    u: Set<i32>,
    x: i32,
    env: Seq<(char, bool)>,
)
    requires
        u.contains(x),
        set_eval(t, sets, u) is Ok,
        forall|c: char|
            0 <= #[trigger] position(c) < sets.len() ==> lookup(env, c) == Some(
                sets[position(c)].contains(x),
            ),
    ensures
        set_eval(t, sets, u)->Ok_0.contains(x) == t.holds(env),
    decreases t,
{
    match t {
        AstNode::Variable(c) => {},
        AstNode::UnaryOperator(_, c) => set_reading_matches_truth(*c, sets, u, x, env),
        AstNode::BinaryOperator(_, l, r) => {
            set_reading_matches_truth(*l, sets, u, x, env);
            set_reading_matches_truth(*r, sets, u, x, env);
        },
    }
}

fn contains_i32(v: &Vec<i32>, x: i32) -> (r: bool)
    ensures
        r == v@.contains(x),
{
    let mut i: usize = 0;
    while i < v.len()
        invariant
            i <= v@.len(),
            forall|k: int| 0 <= k < i ==> v@[k] != x,
        decreases v@.len() - i,
    {
        if v[i] == x {
            return true;
        }
        i = i + 1;
    }
    false
}

/// Adds `x` to an increasing list, keeping it increasing.
fn insert_increasing(v: &mut Vec<i32>, x: i32)
    requires
        increasing(old(v)@),
    ensures
        increasing(final(v)@),
        final(v)@.to_set() == old(v)@.to_set().insert(x),
{
    let ghost before = v@;
    let mut i: usize = 0;
    while i < v.len() && v[i] < x
        invariant
            v@ == before,
            i <= v@.len(),
            forall|k: int| 0 <= k < i ==> v@[k] < x,
        decreases v@.len() - i,
    {
        i = i + 1;
    }
    if i < v.len() && v[i] == x {
        assert(v@.to_set() =~= before.to_set().insert(x)) by {
            assert(before[i as int] == x);
        }
        return;
    }
    v.insert(i, x);
    assert(increasing(v@)) by {
        assert forall|a: int, b: int| 0 <= a < b < v@.len() implies v@[a] < v@[b] by {
            if a == i {
                // The element that was at `i` is not below `x`, nor equal to it.
                assert(before[i as int] >= x);
            }
        }
    }
    assert(v@.to_set() =~= before.to_set().insert(x)) by {
        assert forall|y: i32| v@.to_set().contains(y) implies before.to_set().insert(x).contains(y) by {
            let k = choose|k: int| 0 <= k < v@.len() && v@[k] == y;
            if k < i {
                assert(before[k] == y);
            } else if k > i {
                assert(before[k - 1] == y);
            }
        }
        assert forall|y: i32| before.to_set().insert(x).contains(y) implies v@.to_set().contains(y) by {
            if y == x {
                assert(v@[i as int] == x);
            } else {
                let k = choose|k: int| 0 <= k < before.len() && before[k] == y;
                if k < i {
                    assert(v@[k] == y);
                } else {
                    assert(v@[k + 1] == y);
                }
            }
        }
    }
}

/// Adds to `out` the elements of `src` that are in `other` (when `inside`)
/// or that are not (otherwise).
pub(crate) fn add_filtered(out: &mut Vec<i32>, src: &Vec<i32>, other: &Vec<i32>, inside: bool)
    requires
        increasing(old(out)@),
    ensures
        increasing(final(out)@),
        final(out)@.to_set() == old(out)@.to_set() + src@.to_set().filter(
            |x: i32| other@.to_set().contains(x) == inside,
        ),
{
    let ghost start = out@.to_set();
    let ghost keep = |x: i32| other@.to_set().contains(x) == inside;
    let mut i: usize = 0;
    while i < src.len()
        invariant
            i <= src@.len(),
            increasing(out@),
            out@.to_set() == start + src@.take(i as int).to_set().filter(keep),
            keep == (|x: i32| other@.to_set().contains(x) == inside),
        decreases src@.len() - i,
    {
        let x = src[i];
        let ghost prev = src@.take(i as int);
        assert(src@.take(i + 1) =~= prev.push(x));
        proof {
            prev.lemma_push_to_set_commute(x);
        }
        if contains_i32(other, x) == inside {
            insert_increasing(out, x);
            assert(start + prev.to_set().insert(x).filter(keep) =~= (start + prev.to_set().filter(
                keep,
            )).insert(x));
        } else {
            assert(prev.to_set().insert(x).filter(keep) =~= prev.to_set().filter(keep));
        }
        i = i + 1;
    }
    assert(src@.take(src@.len() as int) =~= src@);
}

/// The elements of `src`, increasing.
fn normalized(src: &Vec<i32>) -> (r: Vec<i32>)
    ensures
        increasing(r@),
        r@.to_set() == src@.to_set(),
{
    let mut out: Vec<i32> = Vec::new();
    let none: Vec<i32> = Vec::new();
    add_filtered(&mut out, src, &none, false);
    assert(out@.to_set() =~= src@.to_set());
    out
}

fn combine_exec(op: &Operator, a: &Vec<i32>, b: &Vec<i32>, u: &Vec<i32>) -> (r: Vec<i32>)
    ensures
        increasing(r@),
        r@.to_set() == combine(*op, a@.to_set(), b@.to_set(), u@.to_set()),
{
    let mut out: Vec<i32> = Vec::new();
    let none: Vec<i32> = Vec::new();
    let ghost sa = a@.to_set();
    let ghost sb = b@.to_set();
    let ghost su = u@.to_set();
    match op {
        Operator::And => {
            add_filtered(&mut out, a, b, true);
            assert(out@.to_set() =~= sa.intersect(sb));
        },
        Operator::Or => {
            add_filtered(&mut out, a, &none, false);
            add_filtered(&mut out, b, &none, false);
            assert(out@.to_set() =~= sa + sb);
        },
        Operator::Xor => {
            add_filtered(&mut out, a, b, false);
            add_filtered(&mut out, b, a, false);
            assert(out@.to_set() =~= (sa - sb) + (sb - sa));
        },
        Operator::Implies => {
            add_filtered(&mut out, u, a, false);
            add_filtered(&mut out, b, &none, false);
            assert(out@.to_set() =~= (su - sa) + sb);
        },
        Operator::Iff => {
            let mut differ: Vec<i32> = Vec::new();
            add_filtered(&mut differ, a, b, false);
            add_filtered(&mut differ, b, a, false);
            add_filtered(&mut out, u, &differ, false);
            assert(out@.to_set() =~= su - ((sa - sb) + (sb - sa)));
        },
        Operator::Not => {
            add_filtered(&mut out, u, a, false);
            assert(out@.to_set() =~= su - sa);
        },
    }
    out
}

/// The elements of a hash set, increasing.
fn sorted_elements(s: &HashSet<i32>) -> (r: Vec<i32>)
    ensures
        increasing(r@),
        r@.to_set() == s@,
{
    let mut out: Vec<i32> = Vec::new();
    for x in it: s.iter()
        invariant
            increasing(out@),
            it.seq().unref().to_set() == s@,
            out@.to_set() == it.seq().take(it.index() as int).unref().to_set(),
            it.index() < it.seq().len() || out@.to_set() == s@,
    {
        proof {
            let before = it.seq().take(it.index() as int).unref();
            let after = it.seq().take(it.index() + 1).unref();
            assert(after =~= before.push(*x));
            before.lemma_push_to_set_commute(*x);
            assert(it.index() + 1 == it.seq().len() ==> it.seq().take(it.index() + 1) =~= it.seq());
        }
        insert_increasing(&mut out, *x);
    }
    out
}

impl AstNode {
    /// The formula read over finite sets of integers: the variable at
    /// position `k` (`A` is 0) is `sets[k]`, and complements are taken in
    /// `universal_set`. The result lists the elements once each, increasing.
    pub fn evaluate_set(&self, sets: Vec<Vec<i32>>, universal_set: HashSet<i32>) -> (r: Result<
        Vec<i32>,
        SetError,
    >)
        ensures
            match set_eval(*self, set_views(sets@), universal_set@) {
                Ok(s) => r is Ok && increasing(r->Ok_0@) && r->Ok_0@.to_set() == s,
                Err(e) => r == Err::<Vec<i32>, SetError>(e),
            },
    {
        let universe = sorted_elements(&universal_set);
        self.set_value(&sets, &universe)
    }

    /// `evaluate_set` with the universe given as an increasing list.
    pub(crate) fn set_value(&self, sets: &Vec<Vec<i32>>, universe: &Vec<i32>) -> (r: Result<Vec<i32>, SetError>)
        ensures
            match set_eval(*self, set_views(sets@), universe@.to_set()) {
                Ok(s) => r is Ok && increasing(r->Ok_0@) && r->Ok_0@.to_set() == s,
                Err(e) => r == Err::<Vec<i32>, SetError>(e),
            },
        decreases self,
    {
        match self {
            AstNode::Variable(c) => {
                if *c == '1' {
                    return Ok(normalized(universe));
                } else if *c == '0' {
                    return Ok(Vec::new());
                }
                let code = *c as u32;
                if code >= 65 && ((code - 65) as usize) < sets.len() {
                    let k = (code - 65) as usize;
                    Ok(normalized(&sets[k]))
                } else {
                    Err(SetError::MissingSet(*c))
                }
            },
            AstNode::UnaryOperator(_, child) => {
                let a = child.set_value(sets, universe)?;
                let mut out: Vec<i32> = Vec::new();
                add_filtered(&mut out, universe, &a, false);
                assert(out@.to_set() =~= universe@.to_set() - a@.to_set());
                Ok(out)
            },
            AstNode::BinaryOperator(op, left, right) => {
                let a = left.set_value(sets, universe)?;
                let b = right.set_value(sets, universe)?;
                Ok(combine_exec(op, &a, &b, universe))
            },
        }
    }
}

} // verus!
