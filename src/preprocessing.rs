use vstd::prelude::*;
use crate::bool_expr::{Clause, Expr, contains_literal, negation_spec};

verus! {

/// The literal sets of a list of clauses.
pub open spec fn sets_of(cs: Seq<Clause>) -> Seq<Set<Expr>> {
    cs.map_values(|c: Clause| c.literals@.to_set())
}

/// One propagation step over the first `n` clauses, as literal sets: a unit
/// clause stays as it is, any other clause holding `l` is dropped, and any
/// other clause loses the literal `!l`.
pub open spec fn kept_step(before: Seq<Clause>, l: Expr, n: int) -> Seq<Set<Expr>>
    decreases n,
{
    if n <= 0 {
        seq![]
    } else {
        let c = before[n - 1];
        kept_step(before, l, n - 1) + if c.literals@.len() == 1 {
            seq![c.literals@.to_set()]
        } else if c.literals@.contains(l) {
            seq![]
        } else {
            seq![c.literals@.to_set().remove(negation_spec(l))]
        }
    }
}

/// Some unit clause among the first `n` holds the same literal as `unit`.
pub open spec fn unit_present(before: Seq<Clause>, unit: Clause, n: int) -> bool {
    exists|j: int| 0 <= j < n && (#[trigger] before[j]).literals@.len() == 1 && before[j].literals@.to_set() == unit.literals@.to_set()
}

/// `after` is `before` after one step on the literal of `unit`, followed by
/// the unit clause itself when no equal unit clause was there already.
pub open spec fn propagated(before: Seq<Clause>, after: Seq<Clause>, unit: Clause) -> bool {
    let k = kept_step(before, unit.literals@[0], before.len() as int);
    if unit_present(before, unit, before.len() as int) {
        sets_of(after) == k
    } else {
        sets_of(after) == k.push(unit.literals@.to_set())
    }
}

/// Drop every occurrence of `e`.
fn without(v: &Vec<Expr>, e: &Expr) -> (r: Vec<Expr>)
    ensures
        forall|x: Expr| r@.contains(x) <==> (v@.contains(x) && x != *e),
{
    let mut out: Vec<Expr> = Vec::new();
    let mut i: usize = 0;
    while i < v.len()
        invariant
            i <= v@.len(),
            forall|x: Expr| out@.contains(x) <==> (x != *e && exists|j: int| 0 <= j < i && v@[j] == x),
        decreases v@.len() - i,
    {
        let x = v[i].clone();
        let ghost before = out@;
        if !x.eq(e) {
            out.push(x);
        }
        proof {
            assert forall|y: Expr| out@.contains(y) <==> (y != *e && exists|j: int| 0 <= j < i + 1 && v@[j] == y) by {
                if out@.contains(y) && !before.contains(y) {
                    let k = choose|k: int| 0 <= k < out@.len() && out@[k] == y;
                    if k < before.len() {
                        assert(before[k] == y);
                    }
                }
                if before.contains(y) {
                    let k = choose|k: int| 0 <= k < before.len() && before[k] == y;
                    assert(out@[k] == y);
                }
                if y != *e && exists|j: int| 0 <= j < i + 1 && v@[j] == y {
                    let j = choose|j: int| 0 <= j < i + 1 && v@[j] == y;
                    if j == i && !before.contains(y) {
                        assert(out@[out@.len() - 1] == y);
                    }
                }
            }
        }
        i = i + 1;
    }
    proof {
        assert forall|x: Expr| out@.contains(x) <==> (v@.contains(x) && x != *e) by {
            if v@.contains(x) {
                let j = choose|j: int| 0 <= j < v@.len() && v@[j] == x;
            }
        }
    }
    out
}

/// Propagate the literal of `unit` through `expressions`.
fn propagate_unit(expressions: &Vec<Clause>, unit: &Clause) -> (r: Vec<Clause>)
    requires
        unit.literals@.len() == 1,
    ensures
        propagated(expressions@, r@, *unit),
{
    let l = unit.literals[0].clone();
    let nl = l.negate();
    let ghost es = expressions@;
    let mut out: Vec<Clause> = Vec::new();
    let mut present = false;
    let mut i: usize = 0;
    while i < expressions.len()
        invariant
            es == expressions@,
            unit.literals@.len() == 1,
            l == unit.literals@[0],
            nl == negation_spec(l),
            i <= es.len(),
            sets_of(out@) == kept_step(es, l, i as int),
            present == unit_present(es, *unit, i as int),
        decreases es.len() - i,
    {
        let c = &expressions[i];
        let ghost before = out@;
        if c.is_unit() {
            let copy = c.clone();
            let same = copy == *unit;
            proof {
                if same {
                    assert(c.literals@.to_set() =~= unit.literals@.to_set());
                } else if exists|j: int| 0 <= j < i + 1 && (#[trigger] es[j]).literals@.len() == 1 && es[j].literals@.to_set() == unit.literals@.to_set() {
                    let j = choose|j: int| 0 <= j < i + 1 && (#[trigger] es[j]).literals@.len() == 1 && es[j].literals@.to_set() == unit.literals@.to_set();
                    if j == i {
                        assert forall|e: Expr| c.literals@.contains(e) <==> unit.literals@.contains(e) by {
                            assert(c.literals@.to_set().contains(e) == unit.literals@.to_set().contains(e));
                        }
                    }
                }
            }
            if same {
                present = true;
            }
            out.push(copy);
        } else if !contains_literal(&c.literals, &l) {
            let reduced = Clause { literals: without(&c.literals, &nl) };
            proof {
                assert(reduced.literals@.to_set() =~= c.literals@.to_set().remove(nl));
            }
            out.push(reduced);
        }
        proof {
            assert(sets_of(out@) =~= kept_step(es, l, i + 1)) by {
                assert(es[i as int] == *c);
                assert(sets_of(before) == kept_step(es, l, i as int));
                assert(sets_of(out@).len() == kept_step(es, l, i + 1).len());
                assert forall|q: int| 0 <= q < sets_of(out@).len() implies sets_of(out@)[q] == kept_step(es, l, i + 1)[q] by {
                    if q < before.len() {
                        assert(out@[q] == before[q]);
                        assert(sets_of(before)[q] == kept_step(es, l, i as int)[q]);
                    }
                }
            }
            if !(c.literals@.len() == 1) || !(c.literals@.to_set() == unit.literals@.to_set()) {
                assert(unit_present(es, *unit, i + 1) == unit_present(es, *unit, i as int)) by {
                    if unit_present(es, *unit, i + 1) {
                        let j = choose|j: int| 0 <= j < i + 1 && (#[trigger] es[j]).literals@.len() == 1 && es[j].literals@.to_set() == unit.literals@.to_set();
                        assert(j < i);
                    }
                }
            } else {
                assert(unit_present(es, *unit, i + 1));
            }
        }
        i = i + 1;
    }
    if !present {
        let ghost before = out@;
        out.push(unit.clone());
        proof {
            assert(sets_of(out@) =~= sets_of(before).push(unit.literals@.to_set()));
        }
    }
    out
}

/// `states` runs through the unit clauses one step each: state `k + 1` is
/// state `k` after propagating unit clause `k`.
pub open spec fn propagation_trace(states: Seq<Seq<Clause>>, units: Seq<Clause>) -> bool {
    &&& states.len() == units.len() + 1
    &&& forall|k: int| 0 <= k < units.len() ==> #[trigger] propagated(states[k], states[k + 1], units[k])
}

/// Unit propagation: each unit clause in turn fixes its literal `l`; every
/// non-unit clause holding `l` is removed (it is satisfied), `!l` is deleted
/// from every other non-unit clause (it cannot help), and the unit clause is
/// added unless an equal one is there.
pub fn unit_propagation(expressions: &mut Vec<Clause>, unit_clauses: Vec<Clause>)
    requires
        forall|k: int| 0 <= k < unit_clauses@.len() ==> (#[trigger] unit_clauses@[k]).literals@.len() == 1,
    ensures
        exists|states: Seq<Seq<Clause>>|
            #[trigger] propagation_trace(states, unit_clauses@) && states[0] == old(expressions)@
                && states[unit_clauses@.len() as int] == final(expressions)@,
{
    let ghost mut states: Seq<Seq<Clause>> = seq![expressions@];
    let mut k: usize = 0;
    while k < unit_clauses.len()
        invariant
            k <= unit_clauses@.len(),
            forall|j: int| 0 <= j < unit_clauses@.len() ==> (#[trigger] unit_clauses@[j]).literals@.len() == 1,
            states.len() == k + 1,
            states[0] == old(expressions)@,
            states[k as int] == expressions@,
            forall|j: int| 0 <= j < k ==> #[trigger] propagated(states[j], states[j + 1], unit_clauses@[j]),
        decreases unit_clauses@.len() - k,
    {
        let ghost before = expressions@;
        let next = propagate_unit(expressions, &unit_clauses[k]);
        *expressions = next;
        proof {
            let s0 = states;
            states = states.push(expressions@);
            assert forall|j: int| 0 <= j < k + 1 implies #[trigger] propagated(states[j], states[j + 1], unit_clauses@[j]) by {
                if j < k {
                    assert(states[j] == s0[j] && states[j + 1] == s0[j + 1]);
                }
            }
        }
        k = k + 1;
    }
    proof {
        assert(propagation_trace(states, unit_clauses@));
    }
}

} // verus!
