use std::collections::HashMap;
use vstd::prelude::*;
use crate::bdd_util::TERMINAL_NAME;
use crate::bool_expr::{Clause, Expr};

verus! {

broadcast use vstd::std_specs::hash::group_hash_axioms;

/// Clause statistics of one variable: in how many literal positions it occurs
/// and the sum of the sizes of those clauses (both saturate at `u32::MAX`).
/// Its score is `occurrences / (arity_sum / occurrences)`, that is
/// `occurrences² / arity_sum`.
#[derive(Clone, Copy, Debug, PartialEq, Eq, Structural)]
pub struct VarScore {
    pub occurrences: u32,
    pub arity_sum: u32,
}

/// `a` scores at least as high as `b` (compared without division).
pub open spec fn score_ge(a: VarScore, b: VarScore) -> bool {
    a.occurrences as int * a.occurrences as int * b.arity_sum as int >= b.occurrences as int
        * b.occurrences as int * a.arity_sum as int
}

/// Decide `score_ge` exactly.
pub fn score_at_least(a: VarScore, b: VarScore) -> (r: bool)
    ensures
        r == score_ge(a, b),
{
    let ao = a.occurrences as u128;
    let bo = b.occurrences as u128;
    assert(ao * ao <= 0xffff_ffff_u128 * 0xffff_ffff_u128) by (nonlinear_arith)
        requires
            ao <= 0xffff_ffff,
    ;
    assert(bo * bo <= 0xffff_ffff_u128 * 0xffff_ffff_u128) by (nonlinear_arith)
        requires
            bo <= 0xffff_ffff,
    ;
    let aa = ao * ao;
    let bb = bo * bo;
    assert(aa * (b.arity_sum as u128) <= 0xffff_ffff_u128 * 0xffff_ffff_u128 * 0xffff_ffff_u128) by (nonlinear_arith)
        requires
            aa <= 0xffff_ffff_u128 * 0xffff_ffff_u128,
            b.arity_sum <= 0xffff_ffff,
    ;
    assert(bb * (a.arity_sum as u128) <= 0xffff_ffff_u128 * 0xffff_ffff_u128 * 0xffff_ffff_u128) by (nonlinear_arith)
        requires
            bb <= 0xffff_ffff_u128 * 0xffff_ffff_u128,
            a.arity_sum <= 0xffff_ffff,
    ;
    aa * (b.arity_sum as u128) >= bb * (a.arity_sum as u128)
}

/// The clauses of a CNF problem and the statistics the initial ordering is built from.
#[derive(Clone, Debug)]
pub struct Dimacs {
    pub nb_v: i32,
    pub nb_c: i32,
    /// Every variable, in the order of its first occurrence.
    pub var_names: Vec<i32>,
    /// The statistics of each variable, in the order of `var_names`.
    pub vars_scores: Vec<(i32, VarScore)>,
    pub expressions: Vec<Clause>,
}

/// The literal expression of a signed DIMACS literal.
pub open spec fn literal_expr(lit: i32) -> Expr {
    if lit < 0 {
        Expr::Not(Box::new(Expr::Var(-lit as i32)))
    } else {
        Expr::Var(lit)
    }
}

/// The variable of a signed DIMACS literal.
pub open spec fn lit_var(lit: i32) -> i32 {
    if lit < 0 {
        -lit as i32
    } else {
        lit
    }
}

/// Occurrences of variable `v` among the first `n` literals of `c`.
pub open spec fn occ_in(c: Seq<i32>, n: int, v: i32) -> nat
    decreases n,
{
    if n <= 0 {
        0
    } else {
        occ_in(c, n - 1, v) + if lit_var(c[n - 1]) == v {
            1nat
        } else {
            0nat
        }
    }
}

/// The size of a clause as counted in the statistics (saturating).
pub open spec fn arity_of(c: Seq<i32>) -> nat {
    if c.len() > u32::MAX {
        u32::MAX as nat
    } else {
        c.len()
    }
}

/// Occurrences of `v` in the first `n` clauses.
pub open spec fn occurrences_in(cs: Seq<Seq<i32>>, n: int, v: i32) -> nat
    decreases n,
{
    if n <= 0 {
        0
    } else {
        occurrences_in(cs, n - 1, v) + occ_in(cs[n - 1], cs[n - 1].len() as int, v)
    }
}

/// Sum, over the occurrences of `v` in the first `n` clauses, of the clause size.
pub open spec fn arity_sum_in(cs: Seq<Seq<i32>>, n: int, v: i32) -> nat
    decreases n,
{
    if n <= 0 {
        0
    } else {
        arity_sum_in(cs, n - 1, v) + occ_in(cs[n - 1], cs[n - 1].len() as int, v) * arity_of(cs[n - 1])
    }
}

pub open spec fn sat32(x: nat) -> u32 {
    if x > u32::MAX {
        u32::MAX
    } else {
        x as u32
    }
}

/// The statistics of `v` over the clauses `cs`.
pub open spec fn score_of(cs: Seq<Seq<i32>>, v: i32) -> VarScore {
    VarScore {
        occurrences: sat32(occurrences_in(cs, cs.len() as int, v)),
        arity_sum: sat32(arity_sum_in(cs, cs.len() as int, v)),
    }
}

proof fn lemma_occ_zero(c: Seq<i32>, n: int, v: i32)
    requires
        0 <= n <= c.len(),
        forall|j: int| 0 <= j < n ==> lit_var(#[trigger] c[j]) != v,
    ensures
        occ_in(c, n, v) == 0,
    decreases n,
{
    if n > 0 {
        lemma_occ_zero(c, n - 1, v);
    }
}

proof fn lemma_occurrences_zero(cs: Seq<Seq<i32>>, n: int, v: i32)
    requires
        0 <= n <= cs.len(),
        forall|i: int, j: int| 0 <= i < n && 0 <= j < cs[i].len() ==> lit_var(#[trigger] cs[i][j]) != v,
    ensures
        occurrences_in(cs, n, v) == 0,
        arity_sum_in(cs, n, v) == 0,
    decreases n,
{
    if n > 0 {
        lemma_occurrences_zero(cs, n - 1, v);
        lemma_occ_zero(cs[n - 1], cs[n - 1].len() as int, v);
    }
}

/// Every entry of the variable map is the positive literal of its key.
pub open spec fn var_map_ok(var_map: Map<i32, Expr>) -> bool {
    forall|v: i32| #[trigger] var_map.contains_key(v) ==> var_map[v] == Expr::Var(v)
}

/// The expression of literal `lit`, recording its variable in `var_map`.
pub fn parse_lit(lit: i32, var_map: &mut HashMap<i32, Expr>) -> (r: Expr)
    requires
        lit != i32::MIN,
        var_map_ok(old(var_map)@),
    ensures
        r == literal_expr(lit),
        final(var_map)@ == old(var_map)@.insert(lit_var(lit), Expr::Var(lit_var(lit))),
        var_map_ok(final(var_map)@),
{
    let v: i32 = if lit < 0 {
        -lit
    } else {
        lit
    };
    let var_expr = match var_map.get(&v) {
        Some(e) => e.clone(),
        None => Expr::Var(v),
    };
    var_map.insert(v, var_expr.clone());
    proof {
        assert(final(var_map)@ =~= old(var_map)@.insert(lit_var(lit), Expr::Var(lit_var(lit))));
    }
    if lit < 0 {
        Expr::Not(Box::new(var_expr))
    } else {
        var_expr
    }
}

/// Position of `v` in `names`, if it is there.
fn position_of(names: &Vec<i32>, v: i32) -> (r: Option<usize>)
    ensures
        r is None <==> !names@.contains(v),
        r matches Some(k) ==> k < names@.len() && names@[k as int] == v,
{
    let mut k: usize = 0;
    while k < names.len()
        invariant
            k <= names@.len(),
            forall|j: int| 0 <= j < k ==> names@[j] != v,
        decreases names@.len() - k,
    {
        if names[k] == v {
            return Some(k);
        }
        k = k + 1;
    }
    None
}

/// Build the problem from its clauses given as signed literals (the zero
/// terminators already dropped): one clause per line, the variables in order
/// of first occurrence, and each variable's occurrence statistics.
#[verifier::rlimit(40)]
pub fn dimacs_from_clauses(nb_v: i32, nb_c: i32, clauses: &Vec<Vec<i32>>) -> (r: Dimacs)
    requires
        forall|i: int, j: int|
            0 <= i < clauses@.len() && 0 <= j < clauses@[i]@.len() ==> #[trigger] clauses@[i]@[j]
                != i32::MIN && clauses@[i]@[j] != 0 && clauses@[i]@[j] != TERMINAL_NAME,
    ensures
        r.nb_v == nb_v,
        r.nb_c == nb_c,
        r.expressions@.len() == clauses@.len(),
        forall|i: int, e: Expr|
            0 <= i < clauses@.len() ==> (#[trigger] r.expressions@[i].literals@.contains(e) <==> exists|j: int|
                0 <= j < clauses@[i]@.len() && e == literal_expr(#[trigger] clauses@[i]@[j])),
        r.var_names@.no_duplicates(),
        forall|v: i32| r.var_names@.contains(v) <==> exists|i: int, j: int|
            0 <= i < clauses@.len() && 0 <= j < clauses@[i]@.len() && v == lit_var(#[trigger] clauses@[i]@[j]),
        r.vars_scores@.len() == r.var_names@.len(),
        forall|k: int| 0 <= k < r.vars_scores@.len() ==> (#[trigger] r.vars_scores@[k]).0 == r.var_names@[k],
        forall|k: int| 0 <= k < r.vars_scores@.len() ==> (#[trigger] r.vars_scores@[k]).1 == score_of(
            clauses@.map_values(|c: Vec<i32>| c@),
            r.var_names@[k],
        ),
{
    let ghost cs = clauses@.map_values(|c: Vec<i32>| c@);
    let mut var_map: HashMap<i32, Expr> = HashMap::new();
    let mut var_names: Vec<i32> = Vec::new();
    let mut scores: Vec<(i32, VarScore)> = Vec::new();
    let mut expressions: Vec<Clause> = Vec::new();
    let mut i: usize = 0;
    while i < clauses.len()
        invariant
            i <= clauses@.len(),
            forall|i: int, j: int|
                0 <= i < clauses@.len() && 0 <= j < clauses@[i]@.len() ==> #[trigger] clauses@[i]@[j]
                    != i32::MIN && clauses@[i]@[j] != 0 && clauses@[i]@[j] != TERMINAL_NAME,
            var_map_ok(var_map@),
            expressions@.len() == i,
            forall|a: int, e: Expr|
                0 <= a < i ==> (#[trigger] expressions@[a].literals@.contains(e) <==> exists|j: int|
                    0 <= j < clauses@[a]@.len() && e == literal_expr(#[trigger] clauses@[a]@[j])),
            var_names@.no_duplicates(),
            forall|v: i32| var_names@.contains(v) <==> exists|a: int, j: int|
                0 <= a < i && 0 <= j < clauses@[a]@.len() && v == lit_var(#[trigger] clauses@[a]@[j]),
            scores@.len() == var_names@.len(),
            forall|k: int| 0 <= k < scores@.len() ==> (#[trigger] scores@[k]).0 == var_names@[k],
            cs == clauses@.map_values(|c: Vec<i32>| c@),
            forall|k: int| 0 <= k < scores@.len() ==> (#[trigger] scores@[k]).1 == (VarScore {
                occurrences: sat32(occurrences_in(cs, i as int, var_names@[k])),
                arity_sum: sat32(arity_sum_in(cs, i as int, var_names@[k])),
            }),
        decreases clauses@.len() - i,
    {
        let clause = &clauses[i];
        let arity: u32 = if clause.len() > 0xffff_ffff {
            0xffff_ffff
        } else {
            clause.len() as u32
        };
        proof {
            assert(cs[i as int] == clause@);
            assert forall|k: int| 0 <= k < scores@.len() implies (#[trigger] scores@[k]).1 == (VarScore {
                occurrences: sat32(occurrences_in(cs, i as int, var_names@[k]) + occ_in(clause@, 0, var_names@[k])),
                arity_sum: sat32(arity_sum_in(cs, i as int, var_names@[k]) + occ_in(clause@, 0, var_names@[k]) * arity_of(clause@)),
            }) by {
                assert(occ_in(clause@, 0, var_names@[k]) == 0);
                assert(occ_in(clause@, 0, var_names@[k]) * arity_of(clause@) == 0);
            }
        }
        let mut lits: Vec<Expr> = Vec::new();
        let mut j: usize = 0;
        while j < clause.len()
            invariant
                i < clauses@.len(),
                *clause == clauses@[i as int],
                j <= clause@.len(),
                forall|i: int, j: int|
                    0 <= i < clauses@.len() && 0 <= j < clauses@[i]@.len() ==> #[trigger] clauses@[i]@[j]
                        != i32::MIN && clauses@[i]@[j] != 0 && clauses@[i]@[j] != TERMINAL_NAME,
                var_map_ok(var_map@),
                lits@.len() == j,
                forall|k: int| 0 <= k < j ==> #[trigger] lits@[k] == literal_expr(clause@[k]),
                var_names@.no_duplicates(),
                forall|v: i32| var_names@.contains(v) <==> (exists|a: int, jj: int|
                    0 <= a < i && 0 <= jj < clauses@[a]@.len() && v == lit_var(#[trigger] clauses@[a]@[jj]))
                    || (exists|jj: int| 0 <= jj < j && v == lit_var(#[trigger] clause@[jj])),
                scores@.len() == var_names@.len(),
                forall|k: int| 0 <= k < scores@.len() ==> (#[trigger] scores@[k]).0 == var_names@[k],
                cs == clauses@.map_values(|c: Vec<i32>| c@),
                cs[i as int] == clause@,
                arity as nat == arity_of(clause@),
                forall|k: int| 0 <= k < scores@.len() ==> (#[trigger] scores@[k]).1 == (VarScore {
                    occurrences: sat32(occurrences_in(cs, i as int, var_names@[k]) + occ_in(clause@, j as int, var_names@[k])),
                    arity_sum: sat32(arity_sum_in(cs, i as int, var_names@[k]) + occ_in(clause@, j as int, var_names@[k]) * arity_of(clause@)),
                }),
            decreases clause@.len() - j,
        {
            let lit = clause[j];
            assert(clauses@[i as int]@[j as int] == lit);
            let e = parse_lit(lit, &mut var_map);
            lits.push(e);
            let v: i32 = if lit < 0 {
                -lit
            } else {
                lit
            };
            let ghost names_before = var_names@;
            let ghost scores_before = scores@;
            proof {
                assert(lit_var(clause@[j as int]) == v);
            }
            match position_of(&var_names, v) {
                Some(k) => {
                    let (name, sc) = scores[k];
                    let updated = VarScore {
                        occurrences: sc.occurrences.saturating_add(1),
                        arity_sum: sc.arity_sum.saturating_add(arity),
                    };
                    scores.set(k, (name, updated));
                    proof {
                        let occ0 = occurrences_in(cs, i as int, v) + occ_in(clause@, j as int, v);
                        let ar0 = arity_sum_in(cs, i as int, v) + occ_in(clause@, j as int, v) * arity_of(clause@);
                        assert(sc.occurrences == sat32(occ0));
                        assert(sc.arity_sum == sat32(ar0));
                        assert(occ_in(clause@, j + 1, v) == occ_in(clause@, j as int, v) + 1);
                        assert(occ_in(clause@, j + 1, v) * arity_of(clause@) == occ_in(clause@, j as int, v) * arity_of(clause@) + arity_of(clause@)) by (nonlinear_arith)
                            requires
                                occ_in(clause@, j + 1, v) == occ_in(clause@, j as int, v) + 1,
                        ;
                        assert(updated.occurrences == sat32(occ0 + 1));
                        assert(updated.arity_sum == sat32(ar0 + arity_of(clause@)));
                    }
                },
                None => {
                    var_names.push(v);
                    scores.push((v, VarScore { occurrences: 1, arity_sum: arity }));
                    proof {
                        assert forall|a: int, jj: int| 0 <= a < i && 0 <= jj < cs[a].len() implies lit_var(#[trigger] cs[a][jj]) != v by {
                            assert(cs[a] == clauses@[a]@);
                            if lit_var(cs[a][jj]) == v {
                                assert(lit_var(clauses@[a]@[jj]) == v);
                            }
                        }
                        lemma_occurrences_zero(cs, i as int, v);
                        assert forall|jj: int| 0 <= jj < j implies lit_var(#[trigger] clause@[jj]) != v by {}
                        lemma_occ_zero(clause@, j as int, v);
                        assert(occ_in(clause@, j + 1, v) == 1);
                        assert forall|a: int, b: int| 0 <= a < b < var_names@.len() implies var_names@[a] != var_names@[b] by {
                            if b == var_names@.len() - 1 {
                                assert(names_before.contains(var_names@[a]) || a == b);
                            }
                        }
                    }
                },
            }
            proof {
                assert forall|q: int| 0 <= q < scores@.len() implies (#[trigger] scores@[q]).1 == (VarScore {
                    occurrences: sat32(occurrences_in(cs, i as int, var_names@[q]) + occ_in(clause@, j + 1, var_names@[q])),
                    arity_sum: sat32(arity_sum_in(cs, i as int, var_names@[q]) + occ_in(clause@, j + 1, var_names@[q]) * arity_of(clause@)),
                }) by {
                    let w = var_names@[q];
                    if w != v {
                        assert(occ_in(clause@, j + 1, w) == occ_in(clause@, j as int, w));
                        assert(scores@[q] == scores_before[q]);
                        assert(var_names@[q] == names_before[q]);
                    }
                }
                assert forall|w: i32| var_names@.contains(w) <==> (exists|a: int, jj: int|
                    0 <= a < i && 0 <= jj < clauses@[a]@.len() && w == lit_var(#[trigger] clauses@[a]@[jj]))
                    || (exists|jj: int| 0 <= jj < j + 1 && w == lit_var(#[trigger] clause@[jj])) by {
                    if w == v {
                        assert(lit_var(clause@[j as int]) == v);
                        if !names_before.contains(v) {
                            assert(var_names@[var_names@.len() - 1] == v);
                        }
                    }
                    if var_names@.contains(w) && !names_before.contains(w) {
                        let k = choose|k: int| 0 <= k < var_names@.len() && var_names@[k] == w;
                        if k < names_before.len() {
                            assert(names_before[k] == w);
                        }
                    }
                    if names_before.contains(w) {
                        let k = choose|k: int| 0 <= k < names_before.len() && names_before[k] == w;
                        assert(var_names@[k] == w);
                    }
                    if exists|jj: int| 0 <= jj < j + 1 && w == lit_var(#[trigger] clause@[jj]) {
                        let jj = choose|jj: int| 0 <= jj < j + 1 && w == lit_var(#[trigger] clause@[jj]);
                        if jj == j {
                            assert(w == v);
                        }
                    }
                }
            }
            j = j + 1;
        }
        let c = Clause::new(lits);
        expressions.push(c);
        proof {
            assert forall|k: int| 0 <= k < scores@.len() implies (#[trigger] scores@[k]).1 == (VarScore {
                occurrences: sat32(occurrences_in(cs, i + 1, var_names@[k])),
                arity_sum: sat32(arity_sum_in(cs, i + 1, var_names@[k])),
            }) by {
                assert(clause@.len() == j);
            }
            assert forall|a: int, e: Expr|
                0 <= a < i + 1 implies (#[trigger] expressions@[a].literals@.contains(e) <==> exists|jj: int|
                    0 <= jj < clauses@[a]@.len() && e == literal_expr(#[trigger] clauses@[a]@[jj])) by {
                if a == i {
                    assert(expressions@[a] == c);
                    if lits@.contains(e) {
                        let k = choose|k: int| 0 <= k < lits@.len() && lits@[k] == e;
                        assert(e == literal_expr(clauses@[a]@[k]));
                    }
                    if exists|jj: int| 0 <= jj < clauses@[a]@.len() && e == literal_expr(#[trigger] clauses@[a]@[jj]) {
                        let jj = choose|jj: int| 0 <= jj < clauses@[a]@.len() && e == literal_expr(#[trigger] clauses@[a]@[jj]);
                        assert(lits@[jj] == e);
                    }
                }
            }
            assert forall|w: i32| var_names@.contains(w) <==> exists|a: int, jj: int|
                0 <= a < i + 1 && 0 <= jj < clauses@[a]@.len() && w == lit_var(#[trigger] clauses@[a]@[jj]) by {
                if exists|jj: int| 0 <= jj < j && w == lit_var(#[trigger] clause@[jj]) {
                    let jj = choose|jj: int| 0 <= jj < j && w == lit_var(#[trigger] clause@[jj]);
                    assert(w == lit_var(clauses@[i as int]@[jj]));
                }
                if exists|a: int, jj: int| 0 <= a < i + 1 && 0 <= jj < clauses@[a]@.len() && w == lit_var(#[trigger] clauses@[a]@[jj]) {
                    let (a, jj) = choose|a: int, jj: int| 0 <= a < i + 1 && 0 <= jj < clauses@[a]@.len() && w == lit_var(#[trigger] clauses@[a]@[jj]);
                    if a == i {
                        assert(w == lit_var(clause@[jj]));
                    }
                }
            }
        }
        i = i + 1;
    }
    proof {
        assert forall|k: int| 0 <= k < scores@.len() implies (#[trigger] scores@[k]).1 == score_of(cs, var_names@[k]) by {
            assert(cs.len() == clauses@.len());
        }
    }
    Dimacs { nb_v, nb_c, var_names, vars_scores: scores, expressions }
}

} // verus!
