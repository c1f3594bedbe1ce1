use std::collections::{HashMap, HashSet};
use vstd::prelude::*;
use crate::bool_expr::{
    Clause, has_clause, Expr, clause_value, contains_literal, expr_value, has_assignment_spec, mentions_var,
    substituted, var_name_of,
};

verus! {

broadcast use vstd::std_specs::hash::group_hash_axioms;

/// A group of clauses keyed by one pivot variable.
#[derive(Clone, Debug)]
pub struct Bucket {
    pub clauses: Vec<Clause>,
    pub index: i32,
}

/// Why elimination on a bucket produced nothing.
#[derive(Clone, Copy, Debug, PartialEq, Eq, Structural)]
pub enum EliminationError {
    /// One polarity of the pivot is absent, so no pair can be resolved.
    NoPairs,
    /// Some pair resolved to the empty clause: these clauses alone are unsatisfiable.
    EmptyClause,
}

/// Two literal sequences hold the same literals.
pub open spec fn same_literals(a: Seq<Expr>, b: Seq<Expr>) -> bool {
    forall|e: Expr| a.contains(e) <==> b.contains(e)
}

/// The resolvent on `pivot`: every literal of either clause but the pivot and its negation.
pub open spec fn in_resolvent(a: Seq<Expr>, b: Seq<Expr>, pivot: i32, e: Expr) -> bool {
    (a.contains(e) || b.contains(e)) && e != Expr::Var(pivot) && e != Expr::Not(
        Box::new(Expr::Var(pivot)),
    )
}

/// `c` holds exactly the resolvent of `x` and `y` on `pivot`.
#[verifier::opaque]
pub open spec fn is_resolvent_of(c: Clause, x: Clause, y: Clause, pivot: i32) -> bool {
    forall|e: Expr| c.literals@.contains(e) <==> in_resolvent(x.literals@, y.literals@, pivot, e)
}

pub open spec fn has_pos(c: Clause, pivot: i32) -> bool {
    c.literals@.contains(Expr::Var(pivot))
}

pub open spec fn has_neg(c: Clause, pivot: i32) -> bool {
    c.literals@.contains(Expr::Not(Box::new(Expr::Var(pivot))))
}

/// Clauses `i` and `j` clash on the pivot: `i` holds it positively, `j` negatively.
pub open spec fn clashing(cs: Seq<Clause>, pivot: i32, i: int, j: int) -> bool {
    0 <= i < cs.len() && 0 <= j < cs.len() && has_pos(cs[i], pivot) && has_neg(cs[j], pivot)
}

/// Number of clauses among the first `n` that mention `v`.
pub open spec fn width(clauses: Seq<Clause>, n: int, v: i32) -> nat
    decreases n,
{
    if n <= 0 {
        0
    } else {
        width(clauses, n - 1, v) + if exists|i: int|
            0 <= i < clauses[n - 1].literals@.len() && mentions_var(
                #[trigger] clauses[n - 1].literals@[i],
                v,
            ) {
            1nat
        } else {
            0nat
        }
    }
}

/// The literals of a bucket in scan order: clause by clause.
pub open spec fn all_literals(clauses: Seq<Clause>) -> Seq<Expr>
    decreases clauses.len(),
{
    if clauses.len() == 0 {
        seq![]
    } else {
        all_literals(clauses.drop_last()) + clauses.last().literals@
    }
}

/// Number of positive occurrences of `v` in a sequence of literals.
pub open spec fn frequency(lits: Seq<Expr>, v: i32) -> nat
    decreases lits.len(),
{
    if lits.len() == 0 {
        0
    } else {
        frequency(lits.drop_last(), v) + if lits.last() == Expr::Var(v) {
            1nat
        } else {
            0nat
        }
    }
}

proof fn lemma_all_literals_push(clauses: Seq<Clause>, c: Clause)
    ensures
        all_literals(clauses.push(c)) == all_literals(clauses) + c.literals@,
{
    assert(clauses.push(c).drop_last() =~= clauses);
}

proof fn lemma_frequency_push(lits: Seq<Expr>, e: Expr, v: i32)
    ensures
        frequency(lits.push(e), v) == frequency(lits, v) + if e == Expr::Var(v) {
            1nat
        } else {
            0nat
        },
{
    assert(lits.push(e).drop_last() =~= lits);
}

/// True when the clause holds a literal equal to `e`.
fn clause_has(c: &Clause, e: &Expr) -> (r: bool)
    ensures
        r == c.literals@.contains(*e),
{
    contains_literal(&c.literals, e)
}

impl Bucket {
    /// The set of variables mentioned in the bucket.
    pub fn vars(&self) -> (r: HashSet<i32>)
        ensures
            forall|v: i32| #[trigger] r@.contains(v) <==> exists|c: int, l: int|
                0 <= c < self.clauses@.len() && 0 <= l < self.clauses@[c].literals@.len()
                    && var_name_of(#[trigger] self.clauses@[c].literals@[l]) == v,
    {
        let mut vars: HashSet<i32> = HashSet::new();
        let mut c: usize = 0;
        while c < self.clauses.len()
            invariant
                c <= self.clauses@.len(),
                forall|v: i32| #[trigger] vars@.contains(v) <==> exists|ci: int, l: int|
                    0 <= ci < c && 0 <= l < self.clauses@[ci].literals@.len()
                        && var_name_of(#[trigger] self.clauses@[ci].literals@[l]) == v,
            decreases self.clauses@.len() - c,
        {
            let clause = &self.clauses[c];
            let mut l: usize = 0;
            while l < clause.literals.len()
                invariant
                    c < self.clauses@.len(),
                    *clause == self.clauses@[c as int],
                    l <= clause.literals@.len(),
                    forall|v: i32| #[trigger] vars@.contains(v) <==> (exists|ci: int, li: int|
                        0 <= ci < c && 0 <= li < self.clauses@[ci].literals@.len()
                            && var_name_of(#[trigger] self.clauses@[ci].literals@[li]) == v) || (exists|li: int|
                        0 <= li < l && var_name_of(#[trigger] clause.literals@[li]) == v),
                decreases clause.literals@.len() - l,
            {
                vars.insert(clause.literals[l].get_var_name());
                l = l + 1;
            }
            proof {
                assert forall|v: i32| #[trigger] vars@.contains(v) <==> exists|ci: int, li: int|
                    0 <= ci < c + 1 && 0 <= li < self.clauses@[ci].literals@.len()
                        && var_name_of(#[trigger] self.clauses@[ci].literals@[li]) == v by {
                    if exists|li: int| 0 <= li < l && var_name_of(#[trigger] clause.literals@[li]) == v {
                        let li = choose|li: int| 0 <= li < l && var_name_of(#[trigger] clause.literals@[li]) == v;
                        assert(var_name_of(self.clauses@[c as int].literals@[li]) == v);
                    }
                    if exists|ci: int, li: int| 0 <= ci < c + 1 && 0 <= li < self.clauses@[ci].literals@.len()
                        && var_name_of(#[trigger] self.clauses@[ci].literals@[li]) == v {
                        let (ci, li) = choose|ci: int, li: int| 0 <= ci < c + 1 && 0 <= li < self.clauses@[ci].literals@.len()
                            && var_name_of(#[trigger] self.clauses@[ci].literals@[li]) == v;
                        if ci == c {
                            assert(var_name_of(clause.literals@[li]) == v);
                        }
                    }
                }
            }
            c = c + 1;
        }
        vars
    }

    /// Number of clauses of the bucket that mention `v`.
    fn count_clauses_with(&self, v: i32) -> (r: usize)
        ensures
            r == width(self.clauses@, self.clauses@.len() as int, v),
    {
        let mut count: usize = 0;
        let mut c: usize = 0;
        while c < self.clauses.len()
            invariant
                c <= self.clauses@.len(),
                count == width(self.clauses@, c as int, v),
                count <= c,
            decreases self.clauses@.len() - c,
        {
            if self.clauses[c].clause_contains_var(v) {
                count = count + 1;
            }
            c = c + 1;
        }
        count
    }

    /// The variable occurring in the fewest clauses (the first such in scan
    /// order); the terminal name when the bucket holds no literal.
    pub fn choose_variable_to_eliminate(&self) -> (r: i32)
        ensures
            all_literals(self.clauses@).len() == 0 ==> r == i32::MAX,
            all_literals(self.clauses@).len() > 0 ==> exists|k: int|
                0 <= k < all_literals(self.clauses@).len() && r == var_name_of(
                    #[trigger] all_literals(self.clauses@)[k],
                ) && (forall|j: int|
                    0 <= j < all_literals(self.clauses@).len() ==> width(
                        self.clauses@,
                        self.clauses@.len() as int,
                        var_name_of(#[trigger] all_literals(self.clauses@)[j]),
                    ) >= width(self.clauses@, self.clauses@.len() as int, r)) && (forall|j: int|
                    0 <= j < k ==> width(
                        self.clauses@,
                        self.clauses@.len() as int,
                        var_name_of(#[trigger] all_literals(self.clauses@)[j]),
                    ) > width(self.clauses@, self.clauses@.len() as int, r)),
    {
        let ghost all = self.clauses@;
        let ghost total = self.clauses@.len() as int;
        let mut min_width: usize = usize::MAX;
        let mut selected: i32 = i32::MAX;
        let mut found = false;
        let ghost mut sel_k: int = 0;
        let mut c: usize = 0;
        while c < self.clauses.len()
            invariant
                all == self.clauses@,
                total == all.len(),
                c <= all.len(),
                found == (all_literals(all.subrange(0, c as int)).len() > 0),
                !found ==> selected == i32::MAX,
                all_literals(all.subrange(0, c as int)).len() > 0 ==> 0 <= sel_k < all_literals(all.subrange(0, c as int)).len()
                    && selected == var_name_of(all_literals(all.subrange(0, c as int))[sel_k])
                    && min_width == width(all, total, selected)
                    && (forall|j: int| 0 <= j < all_literals(all.subrange(0, c as int)).len() ==> width(all, total, var_name_of(#[trigger] all_literals(all.subrange(0, c as int))[j])) >= min_width)
                    && (forall|j: int| 0 <= j < sel_k ==> width(all, total, var_name_of(#[trigger] all_literals(all.subrange(0, c as int))[j])) > min_width),
            decreases all.len() - c,
        {
            let clause = &self.clauses[c];
            let ghost pre = all_literals(all.subrange(0, c as int));
            proof {
                assert(all.subrange(0, c + 1) =~= all.subrange(0, c as int).push(all[c as int]));
                lemma_all_literals_push(all.subrange(0, c as int), all[c as int]);
            }
            let mut l: usize = 0;
            while l < clause.literals.len()
                invariant
                    all == self.clauses@,
                    total == all.len(),
                    c < all.len(),
                    *clause == all[c as int],
                    pre == all_literals(all.subrange(0, c as int)),
                    l <= clause.literals@.len(),
                    found == ((pre + clause.literals@.subrange(0, l as int)).len() > 0),
                    !found ==> selected == i32::MAX,
                    (pre + clause.literals@.subrange(0, l as int)).len() > 0 ==> 0 <= sel_k < (pre + clause.literals@.subrange(0, l as int)).len()
                        && selected == var_name_of((pre + clause.literals@.subrange(0, l as int))[sel_k])
                        && min_width == width(all, total, selected)
                        && (forall|j: int| 0 <= j < (pre + clause.literals@.subrange(0, l as int)).len() ==> width(all, total, var_name_of(#[trigger] (pre + clause.literals@.subrange(0, l as int))[j])) >= min_width)
                        && (forall|j: int| 0 <= j < sel_k ==> width(all, total, var_name_of(#[trigger] (pre + clause.literals@.subrange(0, l as int))[j])) > min_width),
                decreases clause.literals@.len() - l,
            {
                let v = clause.literals[l].get_var_name();
                let w = self.count_clauses_with(v);
                let ghost prev = pre + clause.literals@.subrange(0, l as int);
                let ghost next = pre + clause.literals@.subrange(0, l + 1);
                proof {
                    assert(next =~= prev.push(clause.literals@[l as int]));
                    assert(w <= total) by {
                        lemma_width_bound(all, total, v);
                    }
                }
                if !found || w < min_width {
                    min_width = w;
                    selected = v;
                    found = true;
                    proof {
                        sel_k = prev.len() as int;
                        assert(next[sel_k] == clause.literals@[l as int]);
                        assert forall|j: int| 0 <= j < next.len() implies width(all, total, var_name_of(#[trigger] next[j])) >= min_width by {
                            if j < prev.len() {
                                assert(next[j] == prev[j]);
                            }
                        }
                        assert forall|j: int| 0 <= j < sel_k implies width(all, total, var_name_of(#[trigger] next[j])) > min_width by {
                            assert(next[j] == prev[j]);
                        }
                    }
                } else {
                    proof {
                        assert(next[sel_k] == prev[sel_k]);
                        assert forall|j: int| 0 <= j < next.len() implies width(all, total, var_name_of(#[trigger] next[j])) >= min_width by {
                            if j < prev.len() {
                                assert(next[j] == prev[j]);
                            }
                        }
                        assert forall|j: int| 0 <= j < sel_k implies width(all, total, var_name_of(#[trigger] next[j])) > min_width by {
                            assert(next[j] == prev[j]);
                        }
                    }
                }
                l = l + 1;
            }
            proof {
                assert(clause.literals@.subrange(0, l as int) =~= clause.literals@);
            }
            c = c + 1;
        }
        proof {
            assert(all.subrange(0, all.len() as int) =~= all);
        }
        selected
    }
}

impl Clause {
    /// Propositional resolution on `pivot`: every literal of either clause but
    /// the pivot and its negation, each kept once.
    pub fn resolve_on(&self, other: &Clause, pivot: i32) -> (r: Clause)
        ensures
            forall|e: Expr| #[trigger] r.literals@.contains(e) <==> in_resolvent(self.literals@, other.literals@, pivot, e),
    {
        resolvent(self, other, pivot)
    }
}

/// The resolvent of two clauses on `pivot`, each literal kept once.
fn resolvent(a: &Clause, b: &Clause, pivot: i32) -> (r: Clause)
    ensures
        forall|e: Expr| #[trigger] r.literals@.contains(e) <==> in_resolvent(a.literals@, b.literals@, pivot, e),
{
    let mut lits: Vec<Expr> = Vec::new();
    let pos = Expr::Var(pivot);
    let neg = Expr::Not(Box::new(Expr::Var(pivot)));
    let mut i: usize = 0;
    while i < a.literals.len()
        invariant
            pos == Expr::Var(pivot),
            neg == Expr::Not(Box::new(Expr::Var(pivot))),
            i <= a.literals@.len(),
            forall|e: Expr| lits@.contains(e) <==> (e != pos && e != neg && exists|j: int| 0 <= j < i && a.literals@[j] == e),
        decreases a.literals@.len() - i,
    {
        let e = a.literals[i].clone();
        let ghost before = lits@;
        if !e.eq(&pos) && !e.eq(&neg) && !contains_literal(&lits, &e) {
            lits.push(e);
        }
        proof {
            assert forall|x: Expr| lits@.contains(x) <==> (x != pos && x != neg && exists|j: int| 0 <= j < i + 1 && a.literals@[j] == x) by {
                if lits@.contains(x) && !before.contains(x) {
                    assert(lits@.last() == x || before.contains(x)) by {
                        let k = choose|k: int| 0 <= k < lits@.len() && lits@[k] == x;
                        if k < before.len() {
                            assert(before[k] == x);
                        }
                    }
                }
                if x != pos && x != neg && exists|j: int| 0 <= j < i + 1 && a.literals@[j] == x {
                    let j = choose|j: int| 0 <= j < i + 1 && a.literals@[j] == x;
                    if j < i {
                        assert(before.contains(x));
                        let k = choose|k: int| 0 <= k < before.len() && before[k] == x;
                        assert(lits@[k] == x);
                    } else if !before.contains(x) {
                        assert(lits@[lits@.len() - 1] == x);
                    } else {
                        let k = choose|k: int| 0 <= k < before.len() && before[k] == x;
                        assert(lits@[k] == x);
                    }
                }
            }
        }
        i = i + 1;
    }
    let mut k: usize = 0;
    while k < b.literals.len()
        invariant
            pos == Expr::Var(pivot),
            neg == Expr::Not(Box::new(Expr::Var(pivot))),
            k <= b.literals@.len(),
            forall|e: Expr| lits@.contains(e) <==> (e != pos && e != neg && (a.literals@.contains(e) || exists|j: int| 0 <= j < k && b.literals@[j] == e)),
        decreases b.literals@.len() - k,
    {
        let e = b.literals[k].clone();
        let ghost before = lits@;
        if !e.eq(&pos) && !e.eq(&neg) && !contains_literal(&lits, &e) {
            lits.push(e);
        }
        proof {
            assert forall|x: Expr| lits@.contains(x) <==> (x != pos && x != neg && (a.literals@.contains(x) || exists|j: int| 0 <= j < k + 1 && b.literals@[j] == x)) by {
                if lits@.contains(x) && !before.contains(x) {
                    let kk = choose|kk: int| 0 <= kk < lits@.len() && lits@[kk] == x;
                    if kk < before.len() {
                        assert(before[kk] == x);
                    }
                }
                if x != pos && x != neg && (a.literals@.contains(x) || exists|j: int| 0 <= j < k + 1 && b.literals@[j] == x) {
                    if before.contains(x) {
                        let kk = choose|kk: int| 0 <= kk < before.len() && before[kk] == x;
                        assert(lits@[kk] == x);
                    } else {
                        if !a.literals@.contains(x) {
                            let j = choose|j: int| 0 <= j < k + 1 && b.literals@[j] == x;
                            assert(j == k);
                        }
                        assert(lits@[lits@.len() - 1] == x);
                    }
                }
            }
        }
        k = k + 1;
    }
    proof {
        assert forall|e: Expr| #[trigger] lits@.contains(e) <==> in_resolvent(a.literals@, b.literals@, pivot, e) by {
            if b.literals@.contains(e) {
                let j = choose|j: int| 0 <= j < b.literals@.len() && b.literals@[j] == e;
            }
        }
    }
    Clause { literals: lits }
}

/// Some clause of `r` holds the same literals as `c`.
#[verifier::opaque]
pub open spec fn covered(r: Seq<Clause>, c: Clause) -> bool {
    exists|i: int| 0 <= i < r.len() && same_literals(c.literals@, #[trigger] r[i].literals@)
}

/// Keep the first clause of every group of equal clauses. Written here
/// rather than taken from an iterator adaptor such as `unique`: those rely
/// on `Hash` agreeing with `==`, and clause equality is equality of literal
/// sets, which a hash over the literal sequence does not respect.
pub fn dedup_clauses(clauses: &Vec<Clause>) -> (r: Vec<Clause>)
    ensures
        forall|i: int| 0 <= i < r@.len() ==> has_clause(clauses@, #[trigger] r@[i]),
        forall|j: int| 0 <= j < clauses@.len() ==> covered(r@, #[trigger] clauses@[j]),
        forall|i: int, k: int| 0 <= i < k < r@.len() ==> !same_literals(#[trigger] r@[i].literals@, #[trigger] r@[k].literals@),
{
    proof {
        reveal(covered);
    }
    let mut out: Vec<Clause> = Vec::new();
    let mut j: usize = 0;
    while j < clauses.len()
        invariant
            j <= clauses@.len(),
            forall|i: int| 0 <= i < out@.len() ==> has_clause(clauses@, #[trigger] out@[i]),
            forall|jj: int| 0 <= jj < j ==> covered(out@, #[trigger] clauses@[jj]),
            forall|i: int, k: int| 0 <= i < k < out@.len() ==> !same_literals(#[trigger] out@[i].literals@, #[trigger] out@[k].literals@),
        decreases clauses@.len() - j,
    {
        proof {
            reveal(covered);
        }
        let mut seen = false;
        let mut i: usize = 0;
        while i < out.len()
            invariant
                i <= out@.len(),
                j < clauses@.len(),
                seen ==> covered(out@, clauses@[j as int]),
                !seen ==> forall|k: int| 0 <= k < i ==> !same_literals(clauses@[j as int].literals@, #[trigger] out@[k].literals@),
            decreases out@.len() - i,
        {
            proof {
                reveal(covered);
            }
            if !seen && out[i] == clauses[j] {
                seen = true;
                assert(same_literals(clauses@[j as int].literals@, out@[i as int].literals@));
            }
            i = i + 1;
        }
        let ghost before = out@;
        if !seen {
            out.push(clauses[j].clone());
            proof {
                assert(out@[before.len() as int].literals@ == clauses@[j as int].literals@);
                assert forall|i: int| 0 <= i < out@.len() implies has_clause(clauses@, #[trigger] out@[i]) by {
                    if i < before.len() {
                        assert(out@[i] == before[i]);
                    } else {
                        assert(clauses@[j as int].literals@ == out@[i].literals@);
                    }
                }
                assert forall|a: int, k: int| 0 <= a < k < out@.len() implies !same_literals(#[trigger] out@[a].literals@, #[trigger] out@[k].literals@) by {
                    if k < before.len() {
                        assert(out@[a] == before[a] && out@[k] == before[k]);
                    } else {
                        assert(out@[a] == before[a]);
                        if same_literals(out@[a].literals@, out@[k].literals@) {
                            assert(same_literals(clauses@[j as int].literals@, before[a].literals@));
                        }
                    }
                }
            }
        }
        proof {
            assert forall|jj: int| 0 <= jj < j + 1 implies covered(out@, #[trigger] clauses@[jj]) by {
                if jj < j {
                    assert(covered(before, clauses@[jj]));
                    let i = choose|i: int| 0 <= i < before.len() && same_literals(clauses@[jj].literals@, #[trigger] before[i].literals@);
                    assert(out@[i] == before[i]);
                } else if !seen {
                    assert(same_literals(clauses@[jj].literals@, out@[before.len() as int].literals@));
                }
            }
        }
        j = j + 1;
    }
    out
}

/// `c` is the resolvent of some clashing pair of `cs`.
pub open spec fn from_some_pair(cs: Seq<Clause>, pivot: i32, c: Clause) -> bool {
    exists|i: int, j: int| #[trigger] clashing(cs, pivot, i, j) && is_resolvent_of(c, cs[i], cs[j], pivot)
}

/// Some clause of `v` is the resolvent of `x` and `y`.
#[verifier::opaque]
pub open spec fn has_resolvent(v: Seq<Clause>, x: Clause, y: Clause, pivot: i32) -> bool {
    exists|k: int| 0 <= k < v.len() && is_resolvent_of(#[trigger] v[k], x, y, pivot)
}

/// The resolvent of clauses `i` and `j` on the pivot holds no literal.
pub open spec fn resolvent_empty(cs: Seq<Clause>, pivot: i32, i: int, j: int) -> bool {
    forall|e: Expr| !in_resolvent(cs[i].literals@, cs[j].literals@, pivot, e)
}

/// Some clause holds `lit`.
fn any_clause_has(cs: &Vec<Clause>, lit: &Expr) -> (r: bool)
    ensures
        r == exists|i: int| 0 <= i < cs@.len() && (#[trigger] cs@[i]).literals@.contains(*lit),
{
    let mut i: usize = 0;
    while i < cs.len()
        invariant
            i <= cs@.len(),
            forall|k: int| 0 <= k < i ==> !(#[trigger] cs@[k]).literals@.contains(*lit),
        decreases cs@.len() - i,
    {
        if clause_has(&cs[i], lit) {
            return true;
        }
        i = i + 1;
    }
    false
}

/// The resolvents of every clashing pair, in scan order; `Err` at the first
/// pair whose resolvent is empty.
fn resolve_pairs(cs: &Vec<Clause>, pivot: i32) -> (r: Result<Vec<Clause>, ()>)
    ensures
        r is Err <==> exists|i: int, j: int| #[trigger] clashing(cs@, pivot, i, j) && resolvent_empty(cs@, pivot, i, j),
        r matches Ok(v) ==> (forall|k: int| 0 <= k < v@.len() ==> from_some_pair(cs@, pivot, #[trigger] v@[k])),
        r matches Ok(v) ==> (forall|i: int, j: int| #[trigger] clashing(cs@, pivot, i, j) ==> has_resolvent(v@, cs@[i], cs@[j], pivot)),
{
    let pos = Expr::Var(pivot);
    let neg = Expr::Not(Box::new(Expr::Var(pivot)));
    proof {
        reveal(has_resolvent);
    }
    let mut out: Vec<Clause> = Vec::new();
    let n = cs.len();
    let mut i: usize = 0;
    while i < n
        invariant
            n == cs@.len(),
            pos == Expr::Var(pivot),
            neg == Expr::Not(Box::new(Expr::Var(pivot))),
            i <= n,
            forall|k: int| 0 <= k < out@.len() ==> from_some_pair(cs@, pivot, #[trigger] out@[k]),
            forall|i2: int, j2: int| #[trigger] clashing(cs@, pivot, i2, j2) && i2 < i ==> !resolvent_empty(cs@, pivot, i2, j2) && has_resolvent(out@, cs@[i2], cs@[j2], pivot),
        decreases n - i,
    {
        proof {
            reveal(has_resolvent);
        }
        if clause_has(&cs[i], &pos) {
            let mut j: usize = 0;
            while j < n
                invariant
                    n == cs@.len(),
                    pos == Expr::Var(pivot),
                    neg == Expr::Not(Box::new(Expr::Var(pivot))),
                    i < n,
                    has_pos(cs@[i as int], pivot),
                    j <= n,
                    forall|k: int| 0 <= k < out@.len() ==> from_some_pair(cs@, pivot, #[trigger] out@[k]),
                    forall|i2: int, j2: int| #[trigger] clashing(cs@, pivot, i2, j2) && (i2 < i || (i2 == i && j2 < j)) ==> !resolvent_empty(cs@, pivot, i2, j2) && has_resolvent(out@, cs@[i2], cs@[j2], pivot),
                decreases n - j,
            {
                proof {
                    reveal(has_resolvent);
                }
                if clause_has(&cs[j], &neg) {
                    let rc = cs[i].resolve_on(&cs[j], pivot);
                    proof {
                        assert(clashing(cs@, pivot, i as int, j as int));
                    }
                    if rc.is_empty() {
                        proof {
                            assert forall|e: Expr| !in_resolvent(cs@[i as int].literals@, cs@[j as int].literals@, pivot, e) by {
                                assert(!rc.literals@.contains(e));
                            }
                        }
                        return Err(());
                    }
                    let ghost before = out@;
                    out.push(rc);
                    proof {
                        reveal(is_resolvent_of);
                        assert(out@[before.len() as int] == rc);
                        assert(rc.literals@.contains(rc.literals@[0]));
                        assert(!resolvent_empty(cs@, pivot, i as int, j as int));
                        assert forall|k: int| 0 <= k < out@.len() implies from_some_pair(cs@, pivot, #[trigger] out@[k]) by {
                            if k < before.len() {
                                assert(out@[k] == before[k]);
                            }
                        }
                        assert forall|i2: int, j2: int| #[trigger] clashing(cs@, pivot, i2, j2) && (i2 < i || (i2 == i && j2 < j + 1)) implies !resolvent_empty(cs@, pivot, i2, j2) && has_resolvent(out@, cs@[i2], cs@[j2], pivot) by {
                            if i2 == i && j2 == j {
                                assert(is_resolvent_of(out@[before.len() as int], cs@[i2], cs@[j2], pivot));
                            } else {
                                assert(has_resolvent(before, cs@[i2], cs@[j2], pivot));
                                let k = choose|k: int| 0 <= k < before.len() && is_resolvent_of(#[trigger] before[k], cs@[i2], cs@[j2], pivot);
                                assert(out@[k] == before[k]);
                            }
                        }
                    }
                } else {
                    proof {
                        assert forall|i2: int, j2: int| #[trigger] clashing(cs@, pivot, i2, j2) && (i2 < i || (i2 == i && j2 < j + 1)) implies !resolvent_empty(cs@, pivot, i2, j2) && has_resolvent(out@, cs@[i2], cs@[j2], pivot) by {
                            if i2 == i && j2 == j {
                                assert(false);
                            }
                        }
                    }
                }
                j = j + 1;
            }
        } else {
            proof {
                assert forall|i2: int, j2: int| #[trigger] clashing(cs@, pivot, i2, j2) && i2 < i + 1 implies !resolvent_empty(cs@, pivot, i2, j2) && has_resolvent(out@, cs@[i2], cs@[j2], pivot) by {
                    if i2 == i {
                        assert(false);
                    }
                }
            }
        }
        i = i + 1;
    }
    Ok(out)
}

proof fn lemma_dedup_resolvents(cs: Seq<Clause>, pivot: i32, resolved: Seq<Clause>, deduped: Seq<Clause>)
    requires
        forall|k: int| 0 <= k < resolved.len() ==> from_some_pair(cs, pivot, #[trigger] resolved[k]),
        forall|i: int, j: int| #[trigger] clashing(cs, pivot, i, j) ==> has_resolvent(resolved, cs[i], cs[j], pivot),
        forall|i: int| 0 <= i < deduped.len() ==> has_clause(resolved, #[trigger] deduped[i]),
        forall|j: int| 0 <= j < resolved.len() ==> covered(deduped, #[trigger] resolved[j]),
    ensures
        forall|k: int| 0 <= k < deduped.len() ==> from_some_pair(cs, pivot, #[trigger] deduped[k]),
        forall|i: int, j: int| #[trigger] clashing(cs, pivot, i, j) ==> has_resolvent(deduped, cs[i], cs[j], pivot),
{
    assert forall|i: int, j: int| #[trigger] clashing(cs, pivot, i, j) implies has_resolvent(deduped, cs[i], cs[j], pivot) by {
        lemma_covered_resolvent(cs, pivot, resolved, deduped, i, j);
    }
    assert forall|k: int| 0 <= k < deduped.len() implies from_some_pair(cs, pivot, #[trigger] deduped[k]) by {
        assert(has_clause(resolved, deduped[k]));
        let k2 = choose|k2: int| 0 <= k2 < resolved.len() && resolved[k2].literals@ == deduped[k].literals@;
        assert(from_some_pair(cs, pivot, resolved[k2]));
        let (i, j) = choose|i: int, j: int| #[trigger] clashing(cs, pivot, i, j) && is_resolvent_of(resolved[k2], cs[i], cs[j], pivot);
        lemma_resolvent_same(resolved[k2], deduped[k], cs[i], cs[j], pivot);
    }
}

proof fn lemma_covered_resolvent(cs: Seq<Clause>, pivot: i32, resolved: Seq<Clause>, deduped: Seq<Clause>, i: int, j: int)
    requires
        has_resolvent(resolved, cs[i], cs[j], pivot),
        forall|q: int| 0 <= q < resolved.len() ==> covered(deduped, #[trigger] resolved[q]),
    ensures
        has_resolvent(deduped, cs[i], cs[j], pivot),
{
    reveal(has_resolvent);
    reveal(covered);
    let k = choose|k: int| 0 <= k < resolved.len() && is_resolvent_of(#[trigger] resolved[k], cs[i], cs[j], pivot);
    assert(covered(deduped, resolved[k]));
    let k2 = choose|k2: int| 0 <= k2 < deduped.len() && same_literals(resolved[k].literals@, #[trigger] deduped[k2].literals@);
    lemma_resolvent_same(resolved[k], deduped[k2], cs[i], cs[j], pivot);
    assert(is_resolvent_of(deduped[k2], cs[i], cs[j], pivot));
}

proof fn lemma_resolvent_same(c: Clause, d: Clause, x: Clause, y: Clause, pivot: i32)
    requires
        is_resolvent_of(c, x, y, pivot),
        same_literals(c.literals@, d.literals@),
    ensures
        is_resolvent_of(d, x, y, pivot),
{
    reveal(is_resolvent_of);
    assert forall|e: Expr| d.literals@.contains(e) <==> in_resolvent(x.literals@, y.literals@, pivot, e) by {
        assert(c.literals@.contains(e) <==> d.literals@.contains(e));
    }
}

impl Bucket {
    /// Resolve every clause holding the pivot positively against every clause
    /// holding it negatively; the bucket then holds the distinct resolvents.
    /// Fails with `NoPairs` when one polarity is absent and with `EmptyClause`
    /// when some pair resolves to the empty clause; on failure nothing changes.
    #[verifier::rlimit(40)]
    pub fn bucket_elimination(&mut self) -> (r: Result<(), EliminationError>)
        ensures
            final(self).index == old(self).index,
            r is Err ==> final(self).clauses@ == old(self).clauses@,
            (r == Err::<(), EliminationError>(EliminationError::NoPairs)) <==> (
                (forall|i: int| 0 <= i < old(self).clauses@.len() ==> !has_pos(#[trigger] old(self).clauses@[i], old(self).index))
                || (forall|j: int| 0 <= j < old(self).clauses@.len() ==> !has_neg(#[trigger] old(self).clauses@[j], old(self).index))),
            (r == Err::<(), EliminationError>(EliminationError::EmptyClause)) <==> exists|i: int, j: int|
                #[trigger] clashing(old(self).clauses@, old(self).index, i, j) && resolvent_empty(old(self).clauses@, old(self).index, i, j),
            r is Ok ==> (forall|k: int| 0 <= k < final(self).clauses@.len() ==> from_some_pair(old(self).clauses@, old(self).index, #[trigger] final(self).clauses@[k])),
            r is Ok ==> (forall|i: int, j: int| #[trigger] clashing(old(self).clauses@, old(self).index, i, j) ==> has_resolvent(final(self).clauses@, old(self).clauses@[i], old(self).clauses@[j], old(self).index)),
            r is Ok ==> forall|a: int, b: int| 0 <= a < b < final(self).clauses@.len() ==> !same_literals(#[trigger] final(self).clauses@[a].literals@, #[trigger] final(self).clauses@[b].literals@),
    {
        let pivot = self.index;
        let ghost cs = self.clauses@;
        let pos = Expr::Var(pivot);
        let neg = Expr::Not(Box::new(Expr::Var(pivot)));
        let any_pos = any_clause_has(&self.clauses, &pos);
        let any_neg = any_clause_has(&self.clauses, &neg);
        if !any_pos || !any_neg {
            proof {
                assert forall|i: int, j: int| !clashing(cs, pivot, i, j) by {}
            }
            return Err(EliminationError::NoPairs);
        }
        let ghost ip = choose|i: int| 0 <= i < cs.len() && (#[trigger] cs[i]).literals@.contains(pos);
        let ghost jn = choose|i: int| 0 <= i < cs.len() && (#[trigger] cs[i]).literals@.contains(neg);
        assert(has_pos(cs[ip], pivot) && has_neg(cs[jn], pivot));
        match resolve_pairs(&self.clauses, pivot) {
            Err(()) => Err(EliminationError::EmptyClause),
            Ok(resolved) => {
                let deduped = dedup_clauses(&resolved);
                proof {
                    lemma_dedup_resolvents(cs, pivot, resolved@, deduped@);
                }
                self.clauses = deduped;
                Ok(())
            },
        }
    }
}

/// Every clause passes `is_determined`: each positive literal witnesses its own variable.
proof fn lemma_clause_determined(c: Seq<Expr>)
    ensures
        forall|i: int| 0 <= i < c.len() ==> match #[trigger] c[i] {
            Expr::Var(v) => has_assignment_spec(c, v),
            _ => true,
        },
{
    assert forall|i: int| 0 <= i < c.len() implies match #[trigger] c[i] {
        Expr::Var(v) => has_assignment_spec(c, v),
        _ => true,
    } by {
        match c[i] {
            Expr::Var(v) => {
                assert(c[i] == Expr::Var(v));
            },
            _ => {},
        }
    }
}

impl Bucket {
    /// Eliminate `var_to_eliminate` by substitution: the clauses holding it are
    /// solved in turn to fix its value, that value is substituted into the
    /// other clauses, and the clauses that are then fully determined are
    /// dropped. Every clause counts as determined (each positive literal is
    /// its own witness), so the bucket always ends up empty.
    pub fn eliminate_variable(&mut self, var_to_eliminate: i32)
        ensures
            final(self).index == old(self).index,
            final(self).clauses@.len() == 0,
    {
        let mut substitution: HashMap<i32, bool> = HashMap::new();
        let mut c: usize = 0;
        while c < self.clauses.len()
            invariant
                c <= self.clauses@.len(),
            decreases self.clauses@.len() - c,
        {
            if self.clauses[c].clause_contains_var(var_to_eliminate) {
                let var_value = self.clauses[c].solve(&substitution);
                substitution.insert(var_to_eliminate, var_value);
            }
            c = c + 1;
        }
        let mut substituted_clauses: Vec<Clause> = Vec::new();
        let mut k: usize = 0;
        while k < self.clauses.len()
            invariant
                k <= self.clauses@.len(),
            decreases self.clauses@.len() - k,
        {
            let mut clause = self.clauses[k].clone();
            if !clause.clause_contains_var(var_to_eliminate) {
                clause.substitute_variable(&substitution);
            }
            substituted_clauses.push(clause);
            k = k + 1;
        }
        let mut kept: Vec<Clause> = Vec::new();
        let mut j: usize = 0;
        while j < substituted_clauses.len()
            invariant
                j <= substituted_clauses@.len(),
                kept@.len() == 0,
            decreases substituted_clauses@.len() - j,
        {
            proof {
                lemma_clause_determined(substituted_clauses@[j as int].literals@);
            }
            if !substituted_clauses[j].is_determined() {
                kept.push(substituted_clauses[j].clone());
            }
            j = j + 1;
        }
        self.clauses = kept;
    }

    /// Count of positive occurrences of `v` among all literals of the bucket.
    fn positive_count(&self, v: i32) -> (r: usize)
        requires
            all_literals(self.clauses@).len() <= usize::MAX,
        ensures
            r == frequency(all_literals(self.clauses@), v),
    {
        let mut count: usize = 0;
        let mut c: usize = 0;
        while c < self.clauses.len()
            invariant
                c <= self.clauses@.len(),
                all_literals(self.clauses@).len() <= usize::MAX,
                count == frequency(all_literals(self.clauses@.subrange(0, c as int)), v),
                all_literals(self.clauses@.subrange(0, c as int)).len() <= all_literals(self.clauses@).len(),
            decreases self.clauses@.len() - c,
        {
            let clause = &self.clauses[c];
            let ghost pre = all_literals(self.clauses@.subrange(0, c as int));
            proof {
                assert(self.clauses@.subrange(0, c + 1) =~= self.clauses@.subrange(0, c as int).push(self.clauses@[c as int]));
                lemma_all_literals_push(self.clauses@.subrange(0, c as int), self.clauses@[c as int]);
                lemma_all_literals_prefix(self.clauses@, c + 1);
            }
            let mut l: usize = 0;
            while l < clause.literals.len()
                invariant
                    c < self.clauses@.len(),
                    *clause == self.clauses@[c as int],
                    l <= clause.literals@.len(),
                    pre == all_literals(self.clauses@.subrange(0, c as int)),
                    all_literals(self.clauses@.subrange(0, c + 1)) == pre + clause.literals@,
                    all_literals(self.clauses@.subrange(0, c + 1)).len() <= usize::MAX,
                    count == frequency(pre + clause.literals@.subrange(0, l as int), v),
                decreases clause.literals@.len() - l,
            {
                proof {
                    assert(pre + clause.literals@.subrange(0, l + 1) =~= (pre + clause.literals@.subrange(0, l as int)).push(clause.literals@[l as int]));
                    lemma_frequency_push(pre + clause.literals@.subrange(0, l as int), clause.literals@[l as int], v);
                    lemma_frequency_bound(pre + clause.literals@.subrange(0, l + 1), v);
                }
                if clause.literals[l].contains_pos_var(v) {
                    count = count + 1;
                }
                l = l + 1;
            }
            assert(clause.literals@.subrange(0, l as int) =~= clause.literals@);
            c = c + 1;
        }
        assert(self.clauses@.subrange(0, self.clauses@.len() as int) =~= self.clauses@);
        count
    }

    /// The variable with the most positive occurrences (the first such in
    /// scan order); the terminal name when no literal is positive.
    pub fn choose_variable_to_eliminate_highest_frequency(&self) -> (r: i32)
        requires
            all_literals(self.clauses@).len() <= usize::MAX,
        ensures
            (forall|k: int| 0 <= k < all_literals(self.clauses@).len() ==> !((#[trigger] all_literals(self.clauses@)[k]) is Var)) ==> r == i32::MAX,
            (exists|k: int| 0 <= k < all_literals(self.clauses@).len() && (#[trigger] all_literals(self.clauses@)[k]) is Var) ==> exists|k: int|
                0 <= k < all_literals(self.clauses@).len() && all_literals(self.clauses@)[k] == Expr::Var(r)
                && (forall|j: int| 0 <= j < all_literals(self.clauses@).len() ==> match #[trigger] all_literals(self.clauses@)[j] {
                    Expr::Var(w) => frequency(all_literals(self.clauses@), w) <= frequency(all_literals(self.clauses@), r),
                    _ => true,
                })
                && (forall|j: int| 0 <= j < k ==> match #[trigger] all_literals(self.clauses@)[j] {
                    Expr::Var(w) => frequency(all_literals(self.clauses@), w) < frequency(all_literals(self.clauses@), r),
                    _ => true,
                }),
    {
        let ghost lits = all_literals(self.clauses@);
        let mut flat: Vec<Expr> = Vec::new();
        let mut c: usize = 0;
        while c < self.clauses.len()
            invariant
                c <= self.clauses@.len(),
                flat@ == all_literals(self.clauses@.subrange(0, c as int)),
            decreases self.clauses@.len() - c,
        {
            let clause = &self.clauses[c];
            proof {
                assert(self.clauses@.subrange(0, c + 1) =~= self.clauses@.subrange(0, c as int).push(self.clauses@[c as int]));
                lemma_all_literals_push(self.clauses@.subrange(0, c as int), self.clauses@[c as int]);
            }
            let mut l: usize = 0;
            let ghost pre = flat@;
            while l < clause.literals.len()
                invariant
                    l <= clause.literals@.len(),
                    flat@ == pre + clause.literals@.subrange(0, l as int),
                decreases clause.literals@.len() - l,
            {
                flat.push(clause.literals[l].clone());
                l = l + 1;
                assert(flat@ =~= pre + clause.literals@.subrange(0, l as int));
            }
            assert(clause.literals@.subrange(0, l as int) =~= clause.literals@);
            c = c + 1;
        }
        assert(self.clauses@.subrange(0, self.clauses@.len() as int) =~= self.clauses@);
        assert(flat@ == lits);
        let mut chosen: i32 = i32::MAX;
        let mut best: usize = 0;
        let mut found = false;
        let ghost mut at: int = 0;
        let mut k: usize = 0;
        while k < flat.len()
            invariant
                flat@ == lits,
                lits == all_literals(self.clauses@),
                lits.len() <= usize::MAX,
                k <= lits.len(),
                found == exists|j: int| 0 <= j < k && (#[trigger] lits[j]) is Var,
                !found ==> chosen == i32::MAX,
                found ==> 0 <= at < k && lits[at] == Expr::Var(chosen) && best == frequency(lits, chosen)
                    && (forall|j: int| 0 <= j < k ==> match #[trigger] lits[j] {
                        Expr::Var(w) => frequency(lits, w) <= best,
                        _ => true,
                    })
                    && (forall|j: int| 0 <= j < at ==> match #[trigger] lits[j] {
                        Expr::Var(w) => frequency(lits, w) < best,
                        _ => true,
                    }),
            decreases lits.len() - k,
        {
            match &flat[k] {
                Expr::Var(v) => {
                    let f = self.positive_count(*v);
                    if !found || f > best {
                        proof {
                            at = k as int;
                        }
                        chosen = *v;
                        best = f;
                        found = true;
                    }
                },
                _ => {},
            }
            k = k + 1;
        }
        chosen
    }
}

proof fn lemma_frequency_bound(lits: Seq<Expr>, v: i32)
    ensures
        frequency(lits, v) <= lits.len(),
    decreases lits.len(),
{
    if lits.len() > 0 {
        lemma_frequency_bound(lits.drop_last(), v);
    }
}

proof fn lemma_all_literals_prefix(cs: Seq<Clause>, n: int)
    requires
        0 <= n <= cs.len(),
    ensures
        all_literals(cs.subrange(0, n)).len() <= all_literals(cs).len(),
    decreases cs.len() - n,
{
    if n < cs.len() {
        lemma_all_literals_prefix(cs, n + 1);
        assert(cs.subrange(0, n + 1) =~= cs.subrange(0, n).push(cs[n]));
        lemma_all_literals_push(cs.subrange(0, n), cs[n]);
    } else {
        assert(cs.subrange(0, n) =~= cs);
    }
}

proof fn lemma_width_bound(clauses: Seq<Clause>, n: int, v: i32)
    requires
        0 <= n,
    ensures
        width(clauses, n, v) <= n,
    decreases n,
{
    if n > 0 {
        lemma_width_bound(clauses, n - 1, v);
    }
}

} // verus!
