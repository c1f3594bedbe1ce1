use std::collections::HashMap;
use vstd::prelude::*;
use crate::bdd::{Bdd, denotes, nodes_distinct, nodes_reduced, nodes_wf};
use crate::bdd_util::{BddVar, TERMINAL_NAME};
use crate::apply::{nodes_ordered, ranks_distinct, vars_ranked};

verus! {

broadcast use vstd::std_specs::hash::group_hash_axioms;

/// A literal-level boolean expression.
#[derive(Debug, Eq, Hash)]
pub enum Expr {
    Const(bool),
    Var(i32),
    Not(Box<Expr>),
}

impl Clone for Expr {
    fn clone(&self) -> (r: Expr)
        ensures
            r == *self,
        decreases self,
    {
        match self {
            Expr::Const(b) => Expr::Const(*b),
            Expr::Var(n) => Expr::Var(*n),
            Expr::Not(inner) => Expr::Not(Box::new((**inner).clone())),
        }
    }
}

impl PartialEq for Expr {
    fn eq(&self, other: &Expr) -> (r: bool)
        decreases self,
    {
        match (self, other) {
            (Expr::Const(a), Expr::Const(b)) => *a == *b,
            (Expr::Var(a), Expr::Var(b)) => *a == *b,
            (Expr::Not(a), Expr::Not(b)) => (**a).eq(&**b),
            _ => false,
        }
    }
}

impl vstd::std_specs::cmp::PartialEqSpecImpl for Expr {
    open spec fn obeys_eq_spec() -> bool {
        true
    }

    open spec fn eq_spec(&self, other: &Expr) -> bool {
        *self == *other
    }
}

/// The truth value of an expression when exactly the variables in `s` are true.
pub open spec fn expr_value(e: Expr, s: Set<i32>) -> bool
    decreases e,
{
    match e {
        Expr::Const(b) => b,
        Expr::Var(n) => s.contains(n),
        Expr::Not(inner) => !expr_value(*inner, s),
    }
}

/// The variable an expression is about; the terminal name for a constant.
pub open spec fn var_name_of(e: Expr) -> i32
    decreases e,
{
    match e {
        Expr::Var(n) => n,
        Expr::Not(inner) => var_name_of(*inner),
        Expr::Const(_) => TERMINAL_NAME,
    }
}

pub open spec fn negation_spec(e: Expr) -> Expr {
    match e {
        Expr::Const(b) => Expr::Const(!b),
        Expr::Var(n) => Expr::Not(Box::new(Expr::Var(n))),
        Expr::Not(inner) => Expr::Var(var_name_of(*inner)),
    }
}

pub open spec fn mentions_var(e: Expr, var: i32) -> bool
    decreases e,
{
    match e {
        Expr::Var(n) => n == var,
        Expr::Not(inner) => mentions_var(*inner, var),
        Expr::Const(_) => false,
    }
}

/// The variable of `e`, if it has one, is ranked.
pub open spec fn expr_ranked(e: Expr, ordering: Map<i32, usize>) -> bool
    decreases e,
{
    match e {
        Expr::Var(n) => ordering.contains_key(n),
        Expr::Not(inner) => expr_ranked(*inner, ordering),
        Expr::Const(_) => true,
    }
}

/// The arena of a single literal on `n`: the terminals and one decision node
/// whose high edge leads to TRUE for the positive literal, to FALSE for the
/// negated one.
pub open spec fn literal_arena(n: i32, negated: bool) -> Seq<crate::bdd_util::BddNode> {
    seq![
        crate::bdd_util::zero_node(BddVar { name: TERMINAL_NAME }),
        crate::bdd_util::one_node(BddVar { name: TERMINAL_NAME }),
        crate::bdd_util::BddNode {
            var: BddVar { name: n },
            low: crate::bdd_util::BddPointer { index: if negated { 1 } else { 0 } },
            high: crate::bdd_util::BddPointer { index: if negated { 0 } else { 1 } },
        },
    ]
}

/// Every variable of `e` is declared in `variables` and is not the terminal name.
pub open spec fn vars_declared(e: Expr, variables: Seq<BddVar>) -> bool
    decreases e,
{
    match e {
        Expr::Var(n) => n != TERMINAL_NAME && exists|i: int|
            0 <= i < variables.len() && #[trigger] variables[i].name == n,
        Expr::Not(inner) => vars_declared(*inner, variables),
        Expr::Const(_) => true,
    }
}

/// The value an assignment map gives a variable: its own entry, else the entry
/// of its negated name.
pub open spec fn lookup_value(assignment: Map<i32, bool>, name: i32) -> Option<bool> {
    if assignment.contains_key(name) {
        Some(assignment[name])
    } else if name != i32::MIN && assignment.contains_key(-name as i32) {
        Some(assignment[-name as i32])
    } else {
        None
    }
}

pub open spec fn set_vars_spec(e: Expr, assignment: Map<i32, bool>) -> Option<bool>
    decreases e,
{
    match e {
        Expr::Const(b) => Some(b),
        Expr::Var(n) => lookup_value(assignment, n),
        Expr::Not(inner) => match set_vars_spec(*inner, assignment) {
            Some(v) => Some(!v),
            None => None,
        },
    }
}

impl Expr {
    /// The variable this expression is about; the terminal name for a constant.
    pub fn get_var_name(&self) -> (r: i32)
        ensures
            r == var_name_of(*self),
        decreases self,
    {
        match self {
            Expr::Var(name) => *name,
            Expr::Not(inner) => inner.get_var_name(),
            _ => TERMINAL_NAME,
        }
    }

    /// Negate a literal.
    pub fn negate(&self) -> (r: Expr)
        ensures
            r == negation_spec(*self),
    {
        match self {
            Expr::Const(value) => Expr::Const(!*value),
            Expr::Var(name) => Expr::Not(Box::new(Expr::Var(*name))),
            Expr::Not(inner) => Expr::Var(inner.get_var_name()),
        }
    }

    pub fn contains_var(&self, var: i32) -> (r: bool)
        ensures
            r == mentions_var(*self, var),
        decreases self,
    {
        match self {
            Expr::Var(name) => *name == var,
            Expr::Not(inner) => inner.contains_var(var),
            _ => false,
        }
    }

    /// True for the literal `!var`.
    pub fn contains_neg_var(&self, var: i32) -> (r: bool)
        ensures
            r == (*self == Expr::Not(Box::new(Expr::Var(var)))),
    {
        match self {
            Expr::Not(inner) => inner.contains_pos_var(var),
            _ => false,
        }
    }

    /// True for the literal `var`.
    pub fn contains_pos_var(&self, var: i32) -> (r: bool)
        ensures
            r == (*self == Expr::Var(var)),
    {
        match self {
            Expr::Var(name) => *name == var,
            _ => false,
        }
    }

    /// Evaluate under a partial assignment; `None` when a variable is unassigned.
    pub fn set_vars(&self, assignment: &HashMap<i32, bool>) -> (r: Option<bool>)
        ensures
            r == set_vars_spec(*self, assignment@),
        decreases self,
    {
        match self {
            Expr::Const(val) => Some(*val),
            Expr::Var(name) => {
                match assignment.get(name) {
                    Some(v) => Some(*v),
                    None => {
                        if *name != i32::MIN {
                            let neg: i32 = -*name;
                            match assignment.get(&neg) {
                                Some(v) => Some(*v),
                                None => None,
                            }
                        } else {
                            None
                        }
                    },
                }
            },
            Expr::Not(inner) => match inner.set_vars(assignment) {
                Some(val) => Some(!val),
                None => None,
            },
        }
    }

    /// The diagram of this expression.
    pub fn to_bdd(&self, variables: &Vec<BddVar>, ordering: &HashMap<i32, usize>) -> (r: Bdd)
        requires
            vars_declared(*self, variables@),
        ensures
            nodes_wf(r.nodes@),
            nodes_reduced(r.nodes@),
            nodes_distinct(r.nodes@),
            forall|o: Map<i32, usize>| expr_ranked(*self, o) ==> nodes_ordered(r.nodes@, o) && vars_ranked(r.nodes@, o),
            forall|s: Set<i32>| #[trigger] denotes(r.nodes@, s) == expr_value(*self, s),
            forall|n: i32| *self == Expr::Var(n) ==> r.nodes@ == literal_arena(n, false),
            forall|n: i32| *self == Expr::Not(Box::new(Expr::Var(n))) ==> r.nodes@ == literal_arena(n, true),
        decreases self,
    {
        match self {
            Expr::Const(value) => {
                let r = Bdd::new_value(BddVar::terminal(), value);
                assert forall|s: Set<i32>| #[trigger] denotes(r.nodes@, s) == expr_value(*self, s) by {
                    assert(expr_value(*self, s) == *value);
                }
                assert forall|o: Map<i32, usize>| expr_ranked(*self, o) implies nodes_ordered(r.nodes@, o) && vars_ranked(r.nodes@, o) by {
                    assert(nodes_ordered(r.nodes@, o) && vars_ranked(r.nodes@, o));
                }
                r
            },
            Expr::Var(name) => {
                assert(*name != TERMINAL_NAME);
                let mut pos: usize = 0;
                while pos < variables.len() && variables[pos].name != *name
                    invariant
                        pos <= variables@.len(),
                        forall|j: int| 0 <= j < pos ==> variables@[j].name != *name,
                    decreases variables@.len() - pos,
                {
                    pos = pos + 1;
                }
                if pos == variables.len() {
                    proof {
                        let i = choose|i: int| 0 <= i < variables@.len() && #[trigger] variables@[i].name == *name;
                        assert(variables@[i].name == *name);
                    }
                    // unreachable: every variable is declared
                    Bdd::new_false()
                } else {
                    let r = Bdd::new_var(variables[pos]);
                    assert forall|s: Set<i32>| #[trigger] denotes(r.nodes@, s) == expr_value(*self, s) by {
                        assert(expr_value(*self, s) == s.contains(*name));
                    }
                    assert forall|o: Map<i32, usize>| expr_ranked(*self, o) implies nodes_ordered(r.nodes@, o) && vars_ranked(r.nodes@, o) by {
                        assert(o.contains_key(variables@[pos as int].name));
                    }
                    assert(variables@[pos as int] == BddVar { name: *name });
                    assert(r.nodes@ =~= literal_arena(*name, false));
                    r
                }
            },
            Expr::Not(inner) => {
                let b = inner.to_bdd(variables, ordering);
                let r = b.negate();
                proof {
                    if let Expr::Var(n) = **inner {
                        assert(b.nodes@ == literal_arena(n, false));
                        assert(r.nodes@ =~= literal_arena(n, true)) by {
                            assert(r.nodes@ == crate::bdd::negated_nodes(b.nodes@));
                        }
                    }
                }
                assert forall|o: Map<i32, usize>| expr_ranked(*self, o) implies nodes_ordered(r.nodes@, o) && vars_ranked(r.nodes@, o) by {
                    assert(expr_ranked(**inner, o));
                    assert(nodes_ordered(b.nodes@, o) && vars_ranked(b.nodes@, o));
                }
                r
            },
        }
    }
}

/// A disjunction of literals. The order of the literals carries no meaning:
/// two clauses are equal when they hold the same literals. `Clause::new`
/// keeps each literal once; the contracts of this crate never rely on that,
/// since every one of them speaks of the set of literals.
#[derive(Debug)]
pub struct Clause {
    pub literals: Vec<Expr>,
}

impl Clone for Clause {
    fn clone(&self) -> (r: Clause)
        ensures
            r.literals@ == self.literals@,
    {
        let mut literals: Vec<Expr> = Vec::new();
        let mut i: usize = 0;
        while i < self.literals.len()
            invariant
                i <= self.literals@.len(),
                literals@ == self.literals@.subrange(0, i as int),
            decreases self.literals@.len() - i,
        {
            literals.push(self.literals[i].clone());
            i = i + 1;
            assert(literals@ =~= self.literals@.subrange(0, i as int));
        }
        assert(self.literals@.subrange(0, self.literals@.len() as int) =~= self.literals@);
        Clause { literals }
    }
}

impl PartialEq for Clause {
    fn eq(&self, other: &Clause) -> (r: bool) {
        let r = includes(&self.literals, &other.literals) && includes(&other.literals, &self.literals);
        proof {
            if r {
                assert forall|e: Expr| self.literals@.contains(e) <==> other.literals@.contains(e) by {
                    if self.literals@.contains(e) {
                        let i = choose|i: int| 0 <= i < self.literals@.len() && self.literals@[i] == e;
                    }
                    if other.literals@.contains(e) {
                        let i = choose|i: int| 0 <= i < other.literals@.len() && other.literals@[i] == e;
                    }
                }
            }
        }
        r
    }
}

impl vstd::std_specs::cmp::PartialEqSpecImpl for Clause {
    open spec fn obeys_eq_spec() -> bool {
        true
    }

    open spec fn eq_spec(&self, other: &Clause) -> bool {
        forall|e: Expr| self.literals@.contains(e) <==> other.literals@.contains(e)
    }
}

/// Some clause of `cs` has exactly the literal sequence of `c`.
pub open spec fn has_clause(cs: Seq<Clause>, c: Clause) -> bool {
    exists|i: int| 0 <= i < cs.len() && cs[i].literals@ == c.literals@
}

/// The clause holds when one of its literals does.
pub open spec fn clause_value(c: Seq<Expr>, s: Set<i32>) -> bool {
    exists|i: int| 0 <= i < c.len() && expr_value(#[trigger] c[i], s)
}

/// The literal after substituting the values of `substitution` for its variable.
pub open spec fn substituted(e: Expr, substitution: Map<i32, bool>) -> Expr {
    match e {
        Expr::Var(v) => if substitution.contains_key(v) {
            Expr::Const(substitution[v])
        } else {
            e
        },
        Expr::Not(inner) => match *inner {
            Expr::Var(v) => if substitution.contains_key(v) {
                Expr::Const(!substitution[v])
            } else {
                e
            },
            _ => e,
        },
        _ => e,
    }
}

/// A positive literal on `var` or on its negated name occurs in `c`.
pub open spec fn has_assignment_spec(c: Seq<Expr>, var: i32) -> bool {
    exists|i: int|
        0 <= i < c.len() && (#[trigger] c[i] == Expr::Var(var) || (var != i32::MIN && c[i]
            == Expr::Var(-var as i32)))
}

/// Position `i` holds a literal of the highest rank (the smallest rank
/// number: rank 0 is nearest the root), and no later literal reaches it.
pub open spec fn last_highest(c: Seq<Expr>, ordering: Map<i32, usize>, i: int) -> bool {
    &&& 0 <= i < c.len()
    &&& forall|j: int| 0 <= j < c.len() ==> ordering[var_name_of(#[trigger] c[j])] >= ordering[var_name_of(c[i])]
    &&& forall|j: int| i < j < c.len() ==> ordering[var_name_of(#[trigger] c[j])] > ordering[var_name_of(c[i])]
}

/// True when `v` holds `e`.
pub fn contains_literal(v: &Vec<Expr>, e: &Expr) -> (r: bool)
    ensures
        r == v@.contains(*e),
{
    let mut i: usize = 0;
    while i < v.len()
        invariant
            i <= v@.len(),
            forall|j: int| 0 <= j < i ==> v@[j] != *e,
        decreases v@.len() - i,
    {
        if v[i].eq(e) {
            return true;
        }
        i = i + 1;
    }
    false
}

/// True when every literal of `small` occurs in `big`.
fn includes(small: &Vec<Expr>, big: &Vec<Expr>) -> (r: bool)
    ensures
        r == (forall|j: int| 0 <= j < small@.len() ==> big@.contains(#[trigger] small@[j])),
{
    let mut i: usize = 0;
    while i < small.len()
        invariant
            i <= small@.len(),
            forall|j: int| 0 <= j < i ==> big@.contains(#[trigger] small@[j]),
        decreases small@.len() - i,
    {
        if !contains_literal(big, &small[i]) {
            return false;
        }
        i = i + 1;
    }
    true
}

/// Append `e` unless an equal literal is already there.
fn push_unique(v: &mut Vec<Expr>, e: Expr)
    ensures
        forall|x: Expr| final(v)@.contains(x) <==> (old(v)@.contains(x) || x == e),
        old(v)@.no_duplicates() ==> final(v)@.no_duplicates(),
{
    if !contains_literal(v, &e) {
        v.push(e);
        proof {
            assert forall|x: Expr| final(v)@.contains(x) <==> (old(v)@.contains(x) || x == e) by {
                if final(v)@.contains(x) {
                    let i = choose|i: int| 0 <= i < final(v)@.len() && final(v)@[i] == x;
                    if i < old(v)@.len() {
                        assert(old(v)@[i] == x);
                    }
                }
                if old(v)@.contains(x) {
                    let i = choose|i: int| 0 <= i < old(v)@.len() && old(v)@[i] == x;
                    assert(final(v)@[i] == x);
                }
                if x == e {
                    assert(final(v)@[old(v)@.len() as int] == x);
                }
            }
        }
    }
}

impl Clause {
    /// A clause over the given literals, each kept once.
    pub fn new(literals: Vec<Expr>) -> (r: Clause)
        ensures
            forall|e: Expr| r.literals@.contains(e) <==> literals@.contains(e),
            r.literals@.no_duplicates(),
    {
        let mut out: Vec<Expr> = Vec::new();
        let mut i: usize = 0;
        while i < literals.len()
            invariant
                i <= literals@.len(),
                out@.no_duplicates(),
                forall|e: Expr| out@.contains(e) <==> exists|j: int| 0 <= j < i && literals@[j] == e,
            decreases literals@.len() - i,
        {
            let ghost before = out@;
            push_unique(&mut out, literals[i].clone());
            proof {
                assert forall|e: Expr| out@.contains(e) <==> exists|j: int| 0 <= j < i + 1 && literals@[j] == e by {
                    if e == literals@[i as int] {
                        assert(literals@[i as int] == e);
                    }
                    if before.contains(e) {
                        let j = choose|j: int| 0 <= j < i && literals@[j] == e;
                    }
                }
            }
            i = i + 1;
        }
        proof {
            assert forall|e: Expr| out@.contains(e) <==> literals@.contains(e) by {
                if literals@.contains(e) {
                    let j = choose|j: int| 0 <= j < literals@.len() && literals@[j] == e;
                }
            }
        }
        Clause { literals: out }
    }

    pub fn is_empty(&self) -> (r: bool)
        ensures
            r == (self.literals@.len() == 0),
    {
        self.literals.len() == 0
    }

    pub fn size(&self) -> (r: usize)
        ensures
            r == self.literals@.len(),
    {
        self.literals.len()
    }

    /// True if the clause holds the literal `expr`.
    pub fn contains_expr(&self, expr: &Expr) -> (r: bool)
        ensures
            r == self.literals@.contains(*expr),
    {
        contains_literal(&self.literals, expr)
    }

    /// Drop every occurrence of `literal`.
    pub fn remove(&mut self, literal: &Expr)
        ensures
            forall|e: Expr| final(self).literals@.contains(e) <==> (old(self).literals@.contains(e)
                && e != *literal),
    {
        let mut kept: Vec<Expr> = Vec::new();
        let mut i: usize = 0;
        while i < self.literals.len()
            invariant
                i <= self.literals@.len(),
                forall|e: Expr| kept@.contains(e) <==> (e != *literal && exists|j: int| 0 <= j < i && self.literals@[j] == e),
            decreases self.literals@.len() - i,
        {
            let e = self.literals[i].clone();
            if !e.eq(literal) {
                let ghost before = kept@;
                kept.push(e);
                proof {
                    assert forall|x: Expr| kept@.contains(x) <==> (x != *literal && exists|j: int| 0 <= j < i + 1 && self.literals@[j] == x) by {
                        if kept@.contains(x) {
                            let k = choose|k: int| 0 <= k < kept@.len() && kept@[k] == x;
                            if k < before.len() {
                                assert(before[k] == x);
                                assert(before.contains(x));
                            } else {
                                assert(x == e);
                                assert(self.literals@[i as int] == x);
                            }
                        }
                        if x != *literal && exists|j: int| 0 <= j < i + 1 && self.literals@[j] == x {
                            let j = choose|j: int| 0 <= j < i + 1 && self.literals@[j] == x;
                            if j < i {
                                assert(exists|jj: int| 0 <= jj < i && self.literals@[jj] == x);
                                assert(before.contains(x));
                                let k = choose|k: int| 0 <= k < before.len() && before[k] == x;
                                assert(kept@[k] == x);
                            } else {
                                assert(kept@[before.len() as int] == x);
                            }
                        }
                    }
                }
            } else {
                proof {
                    assert forall|x: Expr| kept@.contains(x) <==> (x != *literal && exists|j: int| 0 <= j < i + 1 && self.literals@[j] == x) by {
                        if x != *literal && exists|j: int| 0 <= j < i + 1 && self.literals@[j] == x {
                            let j = choose|j: int| 0 <= j < i + 1 && self.literals@[j] == x;
                            assert(j < i);
                        }
                    }
                }
            }
            i = i + 1;
        }
        proof {
            assert forall|e: Expr| kept@.contains(e) <==> (self.literals@.contains(e) && e != *literal) by {
                if self.literals@.contains(e) {
                    let j = choose|j: int| 0 <= j < self.literals@.len() && self.literals@[j] == e;
                }
            }
        }
        self.literals = kept;
    }

    /// True when every positive literal's variable has an assignment literal in the clause.
    pub fn is_determined(&self) -> (r: bool)
        ensures
            r == (forall|i: int|
                0 <= i < self.literals@.len() ==> match #[trigger] self.literals@[i] {
                    Expr::Var(v) => has_assignment_spec(self.literals@, v),
                    _ => true,
                }),
    {
        let mut i: usize = 0;
        while i < self.literals.len()
            invariant
                i <= self.literals@.len(),
                forall|j: int|
                    0 <= j < i ==> match #[trigger] self.literals@[j] {
                        Expr::Var(v) => has_assignment_spec(self.literals@, v),
                        _ => true,
                    },
            decreases self.literals@.len() - i,
        {
            match &self.literals[i] {
                Expr::Var(v) => {
                    if !self.has_assignment(*v) {
                        return false;
                    }
                },
                _ => {},
            }
            i = i + 1;
        }
        true
    }

    /// True when the clause holds the positive literal `var` or that of its negated name.
    pub fn has_assignment(&self, var: i32) -> (r: bool)
        ensures
            r == has_assignment_spec(self.literals@, var),
    {
        let mut i: usize = 0;
        while i < self.literals.len()
            invariant
                i <= self.literals@.len(),
                forall|j: int|
                    0 <= j < i ==> !(#[trigger] self.literals@[j] == Expr::Var(var) || (var != i32::MIN
                        && self.literals@[j] == Expr::Var(-var as i32))),
            decreases self.literals@.len() - i,
        {
            match &self.literals[i] {
                Expr::Var(name) => {
                    if *name == var || (var != i32::MIN && *name == -var) {
                        return true;
                    }
                },
                _ => {},
            }
            i = i + 1;
        }
        false
    }

    /// The highest-ranked variable of the clause (smallest rank number, the
    /// last such literal's), if any.
    pub fn get_highest_scored_var(&self, ordering: &HashMap<i32, usize>) -> (r: Option<i32>)
        requires
            forall|i: int|
                0 <= i < self.literals@.len() ==> ordering@.contains_key(
                    var_name_of(#[trigger] self.literals@[i]),
                ),
        ensures
            r is None <==> self.literals@.len() == 0,
            r matches Some(v) ==> exists|i: int|
                last_highest(self.literals@, ordering@, i) && v == var_name_of(self.literals@[i]),
    {
        if self.literals.len() == 0 {
            return None;
        }
        let mut best: usize = 0;
        let mut best_rank: usize = *ordering.get(&self.literals[0].get_var_name()).unwrap();
        let mut i: usize = 1;
        while i < self.literals.len()
            invariant
                1 <= i <= self.literals@.len(),
                forall|k: int|
                    0 <= k < self.literals@.len() ==> ordering@.contains_key(
                        var_name_of(#[trigger] self.literals@[k]),
                    ),
                best < i,
                best_rank == ordering@[var_name_of(self.literals@[best as int])],
                forall|j: int| 0 <= j < i ==> ordering@[var_name_of(#[trigger] self.literals@[j])] >= best_rank,
                forall|j: int| best < j < i ==> ordering@[var_name_of(#[trigger] self.literals@[j])] > best_rank,
            decreases self.literals@.len() - i,
        {
            let rk = *ordering.get(&self.literals[i].get_var_name()).unwrap();
            if rk <= best_rank {
                best = i;
                best_rank = rk;
            }
            i = i + 1;
        }
        let v = self.literals[best].get_var_name();
        assert(last_highest(self.literals@, ordering@, best as int));
        Some(v)
    }

    /// The diagram of the clause: the disjunction of its literals' diagrams.
    pub fn to_bdd(&self, variables: &Vec<BddVar>, ordering: &HashMap<i32, usize>) -> (r: Bdd)
        requires
            forall|i: int|
                0 <= i < self.literals@.len() ==> vars_declared(#[trigger] self.literals@[i], variables@),
        ensures
            nodes_wf(r.nodes@),
            nodes_reduced(r.nodes@),
            nodes_distinct(r.nodes@),
            ranks_distinct(ordering@) && (forall|i: int| 0 <= i < self.literals@.len() ==> expr_ranked(#[trigger] self.literals@[i], ordering@))
                ==> nodes_ordered(r.nodes@, ordering@) && vars_ranked(r.nodes@, ordering@),
            forall|s: Set<i32>| #[trigger] denotes(r.nodes@, s) == clause_value(self.literals@, s),
    {
        let mut bdd = Bdd::new_false();
        let mut i: usize = 0;
        while i < self.literals.len()
            invariant
                i <= self.literals@.len(),
                forall|k: int|
                    0 <= k < self.literals@.len() ==> vars_declared(#[trigger] self.literals@[k], variables@),
                nodes_wf(bdd.nodes@),
                nodes_reduced(bdd.nodes@),
                nodes_distinct(bdd.nodes@),
                ranks_distinct(ordering@) && (forall|k: int| 0 <= k < self.literals@.len() ==> expr_ranked(#[trigger] self.literals@[k], ordering@))
                    ==> nodes_ordered(bdd.nodes@, ordering@) && vars_ranked(bdd.nodes@, ordering@),
                forall|s: Set<i32>| #[trigger] denotes(bdd.nodes@, s) == clause_value(self.literals@.subrange(0, i as int), s),
            decreases self.literals@.len() - i,
        {
            let lit = self.literals[i].to_bdd(variables, ordering);
            proof {
                if ranks_distinct(ordering@) && (forall|k: int| 0 <= k < self.literals@.len() ==> expr_ranked(#[trigger] self.literals@[k], ordering@)) {
                    assert(expr_ranked(self.literals@[i as int], ordering@));
                }
            }
            let next = if i == 0 {
                lit
            } else {
                bdd.or(&lit, ordering)
            };
            proof {
                assert forall|s: Set<i32>| #[trigger] denotes(next.nodes@, s) == clause_value(self.literals@.subrange(0, i + 1), s) by {
                    let pre = self.literals@.subrange(0, i as int);
                    let cur = self.literals@.subrange(0, i + 1);
                    assert(cur[i as int] == self.literals@[i as int]);
                    if clause_value(cur, s) {
                        let k = choose|k: int| 0 <= k < cur.len() && expr_value(#[trigger] cur[k], s);
                        if k < i {
                            assert(pre[k] == cur[k]);
                        }
                    }
                    if clause_value(pre, s) {
                        let k = choose|k: int| 0 <= k < pre.len() && expr_value(#[trigger] pre[k], s);
                        assert(cur[k] == pre[k]);
                    }
                }
            }
            bdd = next;
            i = i + 1;
        }
        assert(self.literals@.subrange(0, self.literals@.len() as int) =~= self.literals@);
        bdd
    }

    /// Replace every literal on a variable that `substitution` assigns by the constant it takes.
    pub fn substitute_variable(&mut self, substitution: &HashMap<i32, bool>)
        ensures
            forall|e: Expr| final(self).literals@.contains(e) <==> exists|i: int|
                0 <= i < old(self).literals@.len() && e == substituted(#[trigger] old(self).literals@[i], substitution@),
    {
        let mut out: Vec<Expr> = Vec::new();
        let mut i: usize = 0;
        while i < self.literals.len()
            invariant
                i <= self.literals@.len(),
                forall|e: Expr| out@.contains(e) <==> exists|j: int|
                    0 <= j < i && e == substituted(#[trigger] self.literals@[j], substitution@),
            decreases self.literals@.len() - i,
        {
            let lit = &self.literals[i];
            let e = match lit {
                Expr::Var(v) => match substitution.get(v) {
                    Some(val) => Expr::Const(*val),
                    None => lit.clone(),
                },
                Expr::Not(inner) => match &**inner {
                    Expr::Var(v) => match substitution.get(v) {
                        Some(val) => Expr::Const(!*val),
                        None => lit.clone(),
                    },
                    _ => lit.clone(),
                },
                _ => lit.clone(),
            };
            assert(e == substituted(self.literals@[i as int], substitution@));
            let ghost before = out@;
            push_unique(&mut out, e);
            proof {
                assert forall|x: Expr| out@.contains(x) <==> exists|j: int|
                    0 <= j < i + 1 && x == substituted(#[trigger] self.literals@[j], substitution@) by {
                    if before.contains(x) {
                        let j = choose|j: int| 0 <= j < i && x == substituted(#[trigger] self.literals@[j], substitution@);
                    }
                    if exists|j: int| 0 <= j < i + 1 && x == substituted(#[trigger] self.literals@[j], substitution@) {
                        let j = choose|j: int| 0 <= j < i + 1 && x == substituted(#[trigger] self.literals@[j], substitution@);
                        if j < i {
                            assert(before.contains(x));
                        }
                    }
                }
            }
            i = i + 1;
        }
        self.literals = out;
    }

    /// A unit clause holds exactly one literal.
    pub fn is_unit(&self) -> (r: bool)
        ensures
            r == (self.literals@.len() == 1),
    {
        self.literals.len() == 1
    }

    /// True when some literal mentions variable `index`.
    pub fn clause_contains_var(&self, index: i32) -> (r: bool)
        ensures
            r == exists|i: int| 0 <= i < self.literals@.len() && mentions_var(#[trigger] self.literals@[i], index),
    {
        let mut i: usize = 0;
        while i < self.literals.len()
            invariant
                i <= self.literals@.len(),
                forall|j: int| 0 <= j < i ==> !mentions_var(#[trigger] self.literals@[j], index),
            decreases self.literals@.len() - i,
        {
            if self.literals[i].contains_var(index) {
                return true;
            }
            i = i + 1;
        }
        false
    }

    /// True when the clause holds the positive literal `index`.
    pub fn clause_contains_pos_var(&self, index: i32) -> (r: bool)
        ensures
            r == self.literals@.contains(Expr::Var(index)),
    {
        let mut i: usize = 0;
        while i < self.literals.len()
            invariant
                i <= self.literals@.len(),
                forall|j: int| 0 <= j < i ==> self.literals@[j] != Expr::Var(index),
            decreases self.literals@.len() - i,
        {
            if self.literals[i].contains_pos_var(index) {
                return true;
            }
            i = i + 1;
        }
        false
    }

    /// True when some literal evaluates to true under the partial assignment.
    pub fn solve(&self, assignment: &HashMap<i32, bool>) -> (r: bool)
        ensures
            r == exists|i: int|
                0 <= i < self.literals@.len() && set_vars_spec(#[trigger] self.literals@[i], assignment@)
                    == Some(true),
    {
        let mut acc = false;
        let mut i: usize = 0;
        while i < self.literals.len()
            invariant
                i <= self.literals@.len(),
                acc == exists|j: int|
                    0 <= j < i && set_vars_spec(#[trigger] self.literals@[j], assignment@) == Some(true),
            decreases self.literals@.len() - i,
        {
            let v = self.literals[i].set_vars(assignment);
            let hit = match v {
                Some(b) => b,
                None => false,
            };
            proof {
                if !acc && hit {
                    assert(set_vars_spec(self.literals@[i as int], assignment@) == Some(true));
                }
            }
            acc = acc || hit;
            i = i + 1;
        }
        acc
    }

    /// Merge two clauses, dropping every literal whose negation the other
    /// clause holds (all complementary pairs at once). Resolution on one
    /// pivot variable, as bucket elimination uses it, is `resolve_on`.
    pub fn resolve(&self, other: &Clause) -> (r: Clause)
        ensures
            forall|e: Expr| #[trigger] r.literals@.contains(e) <==> ((self.literals@.contains(e)
                && !other.literals@.contains(negation_spec(e))) || (other.literals@.contains(e)
                && !self.literals@.contains(negation_spec(e)))),
    {
        let mut out: Vec<Expr> = Vec::new();
        let mut i: usize = 0;
        while i < self.literals.len()
            invariant
                i <= self.literals@.len(),
                forall|e: Expr| out@.contains(e) <==> (!other.literals@.contains(negation_spec(e))
                    && exists|j: int| 0 <= j < i && self.literals@[j] == e),
            decreases self.literals@.len() - i,
        {
            let lit = self.literals[i].clone();
            let neg = lit.negate();
            if !contains_literal(&other.literals, &neg) {
                push_unique(&mut out, lit);
            }
            proof {
                assert forall|e: Expr| out@.contains(e) <==> (!other.literals@.contains(negation_spec(e))
                    && exists|j: int| 0 <= j < i + 1 && self.literals@[j] == e) by {
                    if exists|j: int| 0 <= j < i + 1 && self.literals@[j] == e {
                        let j = choose|j: int| 0 <= j < i + 1 && self.literals@[j] == e;
                        if j < i {
                        }
                    }
                }
            }
            i = i + 1;
        }
        let mut k: usize = 0;
        while k < other.literals.len()
            invariant
                k <= other.literals@.len(),
                forall|e: Expr| out@.contains(e) <==> ((!other.literals@.contains(negation_spec(e))
                    && self.literals@.contains(e)) || (!self.literals@.contains(negation_spec(e))
                    && exists|j: int| 0 <= j < k && other.literals@[j] == e)),
            decreases other.literals@.len() - k,
        {
            let lit = other.literals[k].clone();
            let neg = lit.negate();
            if !contains_literal(&self.literals, &neg) {
                push_unique(&mut out, lit);
            }
            proof {
                assert forall|e: Expr| out@.contains(e) <==> ((!other.literals@.contains(negation_spec(e))
                    && self.literals@.contains(e)) || (!self.literals@.contains(negation_spec(e))
                    && exists|j: int| 0 <= j < k + 1 && other.literals@[j] == e)) by {
                    if exists|j: int| 0 <= j < k + 1 && other.literals@[j] == e {
                        let j = choose|j: int| 0 <= j < k + 1 && other.literals@[j] == e;
                        if j < k {
                        }
                    }
                }
            }
            k = k + 1;
        }
        proof {
            assert forall|e: Expr| #[trigger] out@.contains(e) <==> ((self.literals@.contains(e)
                && !other.literals@.contains(negation_spec(e))) || (other.literals@.contains(e)
                && !self.literals@.contains(negation_spec(e)))) by {
                if other.literals@.contains(e) {
                    let j = choose|j: int| 0 <= j < other.literals@.len() && other.literals@[j] == e;
                }
            }
        }
        Clause { literals: out }
    }
}

/// Three-valued conjunction: `None` stands for a value not known yet.
pub open spec fn and_spec(l: Option<bool>, r: Option<bool>) -> Option<bool> {
    if l == Some(false) || r == Some(false) {
        Some(false)
    } else if l == Some(true) && r == Some(true) {
        Some(true)
    } else {
        None
    }
}

/// Three-valued disjunction: `None` stands for a value not known yet.
pub open spec fn or_spec(l: Option<bool>, r: Option<bool>) -> Option<bool> {
    if l == Some(true) || r == Some(true) {
        Some(true)
    } else if l == Some(false) && r == Some(false) {
        Some(false)
    } else {
        None
    }
}

/// Partial operator function corresponding to $x \land y$.
pub fn and(l: Option<bool>, r: Option<bool>) -> (res: Option<bool>)
    ensures
        res == and_spec(l, r),
{
    match (l, r) {
        (Some(true), Some(true)) => Some(true),
        (Some(false), _) => Some(false),
        (_, Some(false)) => Some(false),
        _ => None,
    }
}

/// Partial operator function corresponding to $x \lor y$.
pub fn or(l: Option<bool>, r: Option<bool>) -> (res: Option<bool>)
    ensures
        res == or_spec(l, r),
{
    match (l, r) {
        (Some(false), Some(false)) => Some(false),
        (Some(true), _) => Some(true),
        (_, Some(true)) => Some(true),
        _ => None,
    }
}

} // verus!
