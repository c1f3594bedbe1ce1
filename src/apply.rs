use std::collections::HashMap;
use vstd::prelude::*;
use crate::bdd::{
    Bdd, denotes, lemma_value_prefix, nodes_distinct, lemma_denotes_negation, lemma_value_push, negation_of, nodes_reduced, nodes_wf,
    root_of, value,
};
use crate::bdd_util::{BddNode, BddPointer, BddVar, TERMINAL_NAME, terminal_value};
use crate::bool_expr::{and, and_spec, or, or_spec};

verus! {

broadcast use vstd::std_specs::hash::group_hash_axioms;

/// The binary operators that `apply` can merge two diagrams with.
#[derive(Clone, Copy, Debug, PartialEq, Eq, Structural)]
pub enum BoolOp {
    And,
    Or,
}

/// The operator on possibly unknown truth values.
pub open spec fn op_partial(op: BoolOp, l: Option<bool>, r: Option<bool>) -> Option<bool> {
    match op {
        BoolOp::And => and_spec(l, r),
        BoolOp::Or => or_spec(l, r),
    }
}

/// The operator on truth values.
pub open spec fn op_total(op: BoolOp, l: bool, r: bool) -> bool {
    match op {
        BoolOp::And => l && r,
        BoolOp::Or => l || r,
    }
}

/// Rank of a variable under an ordering; an unknown variable has the lowest priority.
pub open spec fn rank_of(ordering: Map<i32, usize>, name: i32) -> int {
    if ordering.contains_key(name) {
        ordering[name] as int
    } else {
        usize::MAX as int
    }
}

/// Distinct ranked variables have distinct ranks.
pub open spec fn ranks_distinct(ordering: Map<i32, usize>) -> bool {
    forall|a: i32, b: i32|
        ordering.contains_key(a) && ordering.contains_key(b) && #[trigger] ordering[a] == #[trigger] ordering[b] ==> a == b
}

/// Every decision node's variable has a rank.
pub open spec fn vars_ranked(nodes: Seq<BddNode>, ordering: Map<i32, usize>) -> bool {
    forall|i: int| 2 <= i < nodes.len() ==> ordering.contains_key(#[trigger] nodes[i].var.name)
}

/// The rank of the variable tested at `p`; above every rank for a terminal.
pub open spec fn top_rank(nodes: Seq<BddNode>, ordering: Map<i32, usize>, p: int) -> int {
    if p < 2 {
        usize::MAX + 1
    } else {
        rank_of(ordering, nodes[p].var.name)
    }
}

/// Ordered: along every edge between decision nodes the rank strictly grows.
pub open spec fn nodes_ordered(nodes: Seq<BddNode>, ordering: Map<i32, usize>) -> bool {
    forall|i: int|
        2 <= i < nodes.len() ==> top_rank(nodes, ordering, #[trigger] nodes[i].low.index as int) > rank_of(
            ordering,
            nodes[i].var.name,
        ) && top_rank(nodes, ordering, nodes[i].high.index as int) > rank_of(ordering, nodes[i].var.name)
}

/// Both diagrams are ordered under one ordering with distinct ranks.
pub open spec fn ordered_inputs(a: Seq<BddNode>, b: Seq<BddNode>, ordering: Map<i32, usize>) -> bool {
    &&& nodes_ordered(a, ordering)
    &&& nodes_ordered(b, ordering)
    &&& vars_ranked(a, ordering)
    &&& vars_ranked(b, ordering)
    &&& ranks_distinct(ordering)
}

pub open spec fn min_int(x: int, y: int) -> int {
    if x < y {
        x
    } else {
        y
    }
}

/// Which sides of the task `(l, r)` are expanded into their cofactors.
pub open spec fn split_sides(
    a: Seq<BddNode>,
    b: Seq<BddNode>,
    ordering: Map<i32, usize>,
    l: usize,
    r: usize,
) -> (bool, bool) {
    if l < 2 {
        (false, true)
    } else if r < 2 {
        (true, false)
    } else if a[l as int].var.name == b[r as int].var.name {
        (true, true)
    } else if rank_of(ordering, a[l as int].var.name) < rank_of(ordering, b[r as int].var.name) {
        (true, false)
    } else {
        (false, true)
    }
}

/// The variable a task is decided on.
pub open spec fn task_var(
    a: Seq<BddNode>,
    b: Seq<BddNode>,
    ordering: Map<i32, usize>,
    l: usize,
    r: usize,
) -> BddVar {
    if split_sides(a, b, ordering, l, r).0 {
        a[l as int].var
    } else {
        b[r as int].var
    }
}

/// The sub-task for the branch where the task variable is false (`high == false`) or true.
pub open spec fn sub_task(
    a: Seq<BddNode>,
    b: Seq<BddNode>,
    ordering: Map<i32, usize>,
    l: usize,
    r: usize,
    high: bool,
) -> (usize, usize) {
    let (sl, sr) = split_sides(a, b, ordering, l, r);
    let nl = if !sl {
        l
    } else if high {
        a[l as int].high.index
    } else {
        a[l as int].low.index
    };
    let nr = if !sr {
        r
    } else if high {
        b[r as int].high.index
    } else {
        b[r as int].low.index
    };
    (nl, nr)
}

/// Pointer `p` of the output computes `op` of the functions below `l` and `r`.
pub open spec fn task_ok(
    res: Seq<BddNode>,
    a: Seq<BddNode>,
    b: Seq<BddNode>,
    op: BoolOp,
    l: usize,
    r: usize,
    p: usize,
) -> bool {
    forall|s: Set<i32>|
        #[trigger] value(res, p as int, s) == op_total(op, value(a, l as int, s), value(b, r as int, s))
}

/// The key of task `(l, r)` in the table of finished tasks.
pub open spec fn task_key(l: usize, r: usize) -> u128 {
    (l as int * 0x1_0000_0000_0000_0000 + r as int) as u128
}

/// De Morgan over diagrams: the complement of the conjunction of `a` and `b`
/// computes the same function as the disjunction of their complements.
pub proof fn lemma_de_morgan(
    a: Seq<BddNode>,
    b: Seq<BddNode>,
    conj: Seq<BddNode>,
    not_a: Seq<BddNode>,
    not_b: Seq<BddNode>,
    disj: Seq<BddNode>,
)
    requires
        nodes_wf(conj),
        forall|s: Set<i32>| #[trigger] denotes(conj, s) == (denotes(a, s) && denotes(b, s)),
        forall|s: Set<i32>| #[trigger] denotes(not_a, s) == !denotes(a, s),
        forall|s: Set<i32>| #[trigger] denotes(not_b, s) == !denotes(b, s),
        forall|s: Set<i32>| #[trigger] denotes(disj, s) == (denotes(not_a, s) || denotes(not_b, s)),
    ensures
        forall|s: Set<i32>| #[trigger] denotes(negation_of(conj), s) == denotes(disj, s),
{
    assert forall|s: Set<i32>| #[trigger] denotes(negation_of(conj), s) == denotes(disj, s) by {
        assert(denotes(conj, s) == (denotes(a, s) && denotes(b, s)));
        assert(denotes(not_a, s) == !denotes(a, s));
        assert(denotes(not_b, s) == !denotes(b, s));
        assert(denotes(disj, s) == (denotes(not_a, s) || denotes(not_b, s)));
        lemma_denotes_negation(conj, s);
    }
}

proof fn lemma_task_key_injective(l1: usize, r1: usize, l2: usize, r2: usize)
    requires
        task_key(l1, r1) == task_key(l2, r2),
    ensures
        l1 == l2 && r1 == r2,
{
    let m: int = 0x1_0000_0000_0000_0000;
    assert(0 <= l1 as int * m + r1 as int <= u128::MAX) by (nonlinear_arith)
        requires
            m == 0x1_0000_0000_0000_0000,
            0 <= l1 < m,
            0 <= r1 < m,
    ;
    assert(0 <= l2 as int * m + r2 as int <= u128::MAX) by (nonlinear_arith)
        requires
            m == 0x1_0000_0000_0000_0000,
            0 <= l2 < m,
            0 <= r2 < m,
    ;
    assert(l1 == l2 && r1 == r2) by (nonlinear_arith)
        requires
            m > 0,
            0 <= r1 < m,
            0 <= r2 < m,
            0 <= l1,
            0 <= l2,
            l1 as int * m + r1 as int == l2 as int * m + r2 as int,
    ;
}

fn key_of_task(l: usize, r: usize) -> (k: u128)
    ensures
        k == task_key(l, r),
{
    let m: u128 = 0x1_0000_0000_0000_0000;
    assert((l as u128) * m + (r as u128) <= u128::MAX) by (nonlinear_arith)
        requires
            m == 0x1_0000_0000_0000_0000,
            l < m,
            r < m,
    ;
    (l as u128) * m + (r as u128)
}

/// The rank of `name`, the lowest priority when it has none.
pub(crate) fn rank(ordering: &HashMap<i32, usize>, name: i32) -> (r: usize)
    ensures
        r == rank_of(ordering@, name),
{
    match ordering.get(&name) {
        Some(x) => *x,
        None => usize::MAX,
    }
}

fn op_call(op: BoolOp, l: Option<bool>, r: Option<bool>) -> (res: Option<bool>)
    ensures
        res == op_partial(op, l, r),
{
    match op {
        BoolOp::And => and(l, r),
        BoolOp::Or => or(l, r),
    }
}

/// Every pair of pointers into two arenas of the given sizes.
proof fn lemma_task_row(l: usize, nb: nat) -> (s: Set<(usize, usize)>)
    requires
        nb <= usize::MAX + 1,
    ensures
        s.finite(),
        s.len() == nb,
        forall|t: (usize, usize)| s.contains(t) <==> t.0 == l && (t.1 as int) < nb,
    decreases nb,
{
    if nb == 0 {
        Set::empty()
    } else {
        let s0 = lemma_task_row(l, (nb - 1) as nat);
        assert(!s0.contains((l, (nb - 1) as usize)));
        let s = s0.insert((l, (nb - 1) as usize));
        s
    }
}

proof fn lemma_task_set(na: nat, nb: nat) -> (s: Set<(usize, usize)>)
    requires
        na <= usize::MAX + 1,
        nb <= usize::MAX + 1,
    ensures
        s.finite(),
        s.len() == na * nb,
        forall|t: (usize, usize)| s.contains(t) <==> (t.0 as int) < na && (t.1 as int) < nb,
    decreases na,
{
    if na == 0 {
        Set::empty()
    } else {
        let s0 = lemma_task_set((na - 1) as nat, nb);
        let row = lemma_task_row((na - 1) as usize, nb);
        let s = s0.union(row);
        assert(s0.disjoint(row));
        vstd::set_lib::lemma_set_disjoint_lens(s0, row);
        assert(na * nb == (na - 1) * nb + nb) by (nonlinear_arith)
            requires
                na >= 1,
        ;
        s
    }
}

/// A task is settled when the operator decides it from terminals or it is finished.
pub open spec fn settled(op: BoolOp, fin: Map<u128, usize>, t: (usize, usize)) -> bool {
    op_partial(op, terminal_value(t.0 as int), terminal_value(t.1 as int)) is Some
        || fin.contains_key(task_key(t.0, t.1))
}

/// Some entry above position `i` of the stack holds task `t`.
pub open spec fn above(stack: Seq<(usize, usize)>, i: int, t: (usize, usize)) -> bool {
    exists|j: int| i < j < stack.len() && stack[j] == t
}

proof fn lemma_op_sound(op: BoolOp, x: Option<bool>, y: Option<bool>, bx: bool, by: bool)
    requires
        x is Some ==> x == Some(bx),
        y is Some ==> y == Some(by),
        op_partial(op, x, y) is Some,
    ensures
        op_partial(op, x, y) == Some(op_total(op, bx, by)),
{
}

proof fn lemma_terminal_value(nodes: Seq<BddNode>, p: int, s: Set<i32>)
    requires
        terminal_value(p) is Some,
    ensures
        terminal_value(p) == Some(value(nodes, p, s)),
{
}

/// Shannon expansion of one task on its deciding variable.
proof fn lemma_expand(
    a: Seq<BddNode>,
    b: Seq<BddNode>,
    ordering: Map<i32, usize>,
    op: BoolOp,
    l: usize,
    r: usize,
    s: Set<i32>,
)
    requires
        nodes_wf(a),
        nodes_wf(b),
        l < a.len(),
        r < b.len(),
        !(l < 2 && r < 2),
    ensures
        ({
            let x = task_var(a, b, ordering, l, r);
            let lt = sub_task(a, b, ordering, l, r, false);
            let ht = sub_task(a, b, ordering, l, r, true);
            op_total(op, value(a, l as int, s), value(b, r as int, s)) == if s.contains(x.name) {
                op_total(op, value(a, ht.0 as int, s), value(b, ht.1 as int, s))
            } else {
                op_total(op, value(a, lt.0 as int, s), value(b, lt.1 as int, s))
            }
        }),
{
    if l >= 2 {
        assert(2 <= l < a.len());
        assert(a[l as int].low.index < l);
        assert(a[l as int].high.index < l);
    }
    if r >= 2 {
        assert(b[r as int].low.index < r);
        assert(b[r as int].high.index < r);
    }
}

/// Each finished task's result tests a variable no higher than the task's top variables.
pub open spec fn fin_ranked(
    out: Seq<BddNode>,
    fin: Map<u128, usize>,
    a: Seq<BddNode>,
    b: Seq<BddNode>,
    ord: Map<i32, usize>,
) -> bool {
    forall|l: usize, r: usize|
        l < a.len() && r < b.len() && #[trigger] fin.contains_key(task_key(l, r)) ==> top_rank(
            out,
            ord,
            fin[task_key(l, r)] as int,
        ) >= min_int(top_rank(a, ord, l as int), top_rank(b, ord, r as int))
}

/// The output so far is ordered and ranked, and so are finished results.
#[verifier::opaque]
pub open spec fn ranked_state(
    out: Seq<BddNode>,
    fin: Map<u128, usize>,
    a: Seq<BddNode>,
    b: Seq<BddNode>,
    ord: Map<i32, usize>,
) -> bool {
    nodes_ordered(out, ord) && vars_ranked(out, ord) && fin_ranked(out, fin, a, b, ord)
}

proof fn lemma_ranked_state_start(out: Seq<BddNode>, a: Seq<BddNode>, b: Seq<BddNode>, ord: Map<i32, usize>)
    requires
        out.len() == 2,
    ensures
        ranked_state(out, Map::empty(), a, b, ord),
{
    reveal(ranked_state);
}

proof fn lemma_ranked_state_result(
    out: Seq<BddNode>,
    fin: Map<u128, usize>,
    a: Seq<BddNode>,
    b: Seq<BddNode>,
    ord: Map<i32, usize>,
    m: int,
)
    requires
        nodes_wf(out),
        ranked_state(out, fin, a, b, ord),
        2 <= m <= out.len(),
    ensures
        nodes_ordered(out.subrange(0, m), ord),
        vars_ranked(out.subrange(0, m), ord),
{
    reveal(ranked_state);
    let o2 = out.subrange(0, m);
    assert forall|i: int| 2 <= i < o2.len() implies top_rank(o2, ord, #[trigger] o2[i].low.index as int) > rank_of(ord, o2[i].var.name)
        && top_rank(o2, ord, o2[i].high.index as int) > rank_of(ord, o2[i].var.name) by {
        assert(o2[i] == out[i]);
        let lo = out[i].low.index as int;
        let hi = out[i].high.index as int;
        assert(lo < i && hi < i);
        assert(top_rank(out, ord, lo) > rank_of(ord, out[i].var.name));
        if lo >= 2 {
            assert(o2[lo] == out[lo]);
        }
        if hi >= 2 {
            assert(o2[hi] == out[hi]);
        }
    }
    assert forall|i: int| 2 <= i < o2.len() implies ord.contains_key(#[trigger] o2[i].var.name) by {
        assert(o2[i] == out[i]);
    }
}

/// The intern table lists every stored node under the key of its two children.
pub open spec fn uniq_ok(out: Seq<BddNode>, unique: Map<u128, Vec<usize>>) -> bool {
    forall|i: int| #![trigger out[i]] 0 <= i < out.len() ==> unique.contains_key(task_key(out[i].low.index, out[i].high.index))
        && unique[task_key(out[i].low.index, out[i].high.index)]@.contains(i as usize)
}

/// Each finished task maps to a pointer of the output that computes it.
#[verifier::opaque]
pub open spec fn fin_ok(
    out: Seq<BddNode>,
    fin: Map<u128, usize>,
    a: Seq<BddNode>,
    b: Seq<BddNode>,
    op: BoolOp,
) -> bool {
    forall|l: usize, r: usize|
        l < a.len() && r < b.len() && #[trigger] fin.contains_key(task_key(l, r))
            ==> fin[task_key(l, r)] < out.len() && task_ok(out, a, b, op, l, r, fin[task_key(l, r)])
}

/// Weight of a task; every sub-task weighs strictly less.
pub open spec fn weight(t: (usize, usize)) -> int {
    t.0 as int + t.1 as int
}

/// A task that was expanded and is not finished yet.
pub open spec fn pending(
    unexp: Set<(usize, usize)>,
    fin: Map<u128, usize>,
    t: (usize, usize),
) -> bool {
    !unexp.contains(t) && !fin.contains_key(task_key(t.0, t.1))
}

/// No entry above position `i` repeats the task at `i`.
pub open spec fn topmost(stack: Seq<(usize, usize)>, i: int) -> bool {
    !above(stack, i, stack[i])
}

/// The discipline of the task stack: above the topmost entry of an expanded,
/// unfinished task lie only lighter tasks, among them each of its unsettled
/// sub-tasks, and every such task is on the stack.
#[verifier::opaque]
pub open spec fn stack_ok(
    stack: Seq<(usize, usize)>,
    all: Set<(usize, usize)>,
    unexp: Set<(usize, usize)>,
    fin: Map<u128, usize>,
    a: Seq<BddNode>,
    b: Seq<BddNode>,
    ord: Map<i32, usize>,
    op: BoolOp,
) -> bool {
    &&& forall|i: int, h: bool|
        0 <= i < stack.len() && pending(unexp, fin, #[trigger] stack[i]) && topmost(stack, i)
            ==> settled(op, fin, #[trigger] sub_task(a, b, ord, stack[i].0, stack[i].1, h))
            || above(stack, i, sub_task(a, b, ord, stack[i].0, stack[i].1, h))
    &&& forall|i: int, j: int|
        0 <= i < j < stack.len() && pending(unexp, fin, #[trigger] stack[i]) && topmost(stack, i)
            ==> weight(#[trigger] stack[j]) < weight(stack[i])
    &&& forall|t: (usize, usize)|
        all.contains(t) && #[trigger] pending(unexp, fin, t) ==> exists|i: int|
            0 <= i < stack.len() && stack[i] == t
}

proof fn lemma_pop_settled(
    stack: Seq<(usize, usize)>,
    all: Set<(usize, usize)>,
    unexp: Set<(usize, usize)>,
    fin: Map<u128, usize>,
    fin2: Map<u128, usize>,
    a: Seq<BddNode>,
    b: Seq<BddNode>,
    ord: Map<i32, usize>,
    op: BoolOp,
)
    requires
        stack.len() > 0,
        stack_ok(stack, all, unexp, fin, a, b, ord, op),
        fin <= fin2,
        fin2.contains_key(task_key(stack.last().0, stack.last().1)),
    ensures
        stack_ok(stack.drop_last(), all, unexp, fin2, a, b, ord, op),
{
    reveal(stack_ok);
    let st = stack.drop_last();
    let top = stack.len() - 1;
    assert forall|i: int| 0 <= i < st.len() && pending(unexp, fin2, st[i]) && topmost(st, i)
        implies topmost(stack, i) && stack[i] == st[i] && pending(unexp, fin, stack[i]) by {
        assert(stack[i] == st[i]);
        if above(stack, i, stack[i]) {
            let j = choose|j: int| i < j < stack.len() && stack[j] == stack[i];
            if j == top {
                assert(fin2.contains_key(task_key(st[i].0, st[i].1)));
            } else {
                assert(st[j] == st[i]);
            }
        }
    }
    assert forall|i: int, h: bool|
        0 <= i < st.len() && pending(unexp, fin2, #[trigger] st[i]) && topmost(st, i) implies settled(
        op,
        fin2,
        #[trigger] sub_task(a, b, ord, st[i].0, st[i].1, h),
    ) || above(st, i, sub_task(a, b, ord, st[i].0, st[i].1, h)) by {
        let t = sub_task(a, b, ord, st[i].0, st[i].1, h);
        if !settled(op, fin2, t) {
            assert(!settled(op, fin, t));
            assert(above(stack, i, t));
            let j = choose|j: int| i < j < stack.len() && stack[j] == t;
            if j == top {
                assert(fin2.contains_key(task_key(t.0, t.1)));
            }
            assert(st[j] == t);
        }
    }
    assert forall|i: int, j: int|
        0 <= i < j < st.len() && pending(unexp, fin2, #[trigger] st[i]) && topmost(st, i) implies weight(
        #[trigger] st[j],
    ) < weight(st[i]) by {
        assert(stack[j] == st[j]);
    }
    assert forall|t: (usize, usize)|
        all.contains(t) && #[trigger] pending(unexp, fin2, t) implies exists|i: int|
        0 <= i < st.len() && st[i] == t by {
        assert(pending(unexp, fin, t));
        let i = choose|i: int| 0 <= i < stack.len() && stack[i] == t;
        if i == top {
            assert(fin2.contains_key(task_key(t.0, t.1)));
        }
        assert(st[i] == t);
    }
}

proof fn lemma_push_subtasks(
    stack: Seq<(usize, usize)>,
    st: Seq<(usize, usize)>,
    all: Set<(usize, usize)>,
    unexp: Set<(usize, usize)>,
    fin: Map<u128, usize>,
    a: Seq<BddNode>,
    b: Seq<BddNode>,
    ord: Map<i32, usize>,
    op: BoolOp,
)
    requires
        stack.len() > 0,
        stack_ok(stack, all, unexp, fin, a, b, ord, op),
        unexp <= all,
        unexp.contains(stack.last()),
        !fin.contains_key(task_key(stack.last().0, stack.last().1)),
        st.len() >= stack.len(),
        st.subrange(0, stack.len() as int) == stack,
        forall|j: int|
            stack.len() <= j < st.len() ==> weight(#[trigger] st[j]) < weight(stack.last())
                && all.contains(st[j]) && !settled(op, fin, st[j]),
        forall|h: bool|
            settled(op, fin, #[trigger] sub_task(a, b, ord, stack.last().0, stack.last().1, h))
                || above(st, stack.len() - 1, sub_task(a, b, ord, stack.last().0, stack.last().1, h)),
    ensures
        stack_ok(st, all, unexp.remove(stack.last()), fin, a, b, ord, op),
{
    reveal(stack_ok);
    let top = stack.len() - 1;
    let t0 = stack.last();
    let un2 = unexp.remove(t0);
    assert forall|i: int| 0 <= i < stack.len() implies st[i] == #[trigger] stack[i] by {
        assert(st.subrange(0, stack.len() as int)[i] == st[i]);
    }
    assert forall|j: int| stack.len() <= j < st.len() implies unexp.contains(#[trigger] st[j]) by {
        let c = st[j];
        if !unexp.contains(c) {
            assert(all.contains(c));
            assert(pending(unexp, fin, c));
            let i0 = choose|i: int| 0 <= i < stack.len() && stack[i] == c;
            let i1 = choose|i: int| 0 <= i < stack.len() && stack[i] == c && !above(stack, i, c);
            if exists|i: int| 0 <= i < stack.len() && stack[i] == c && !above(stack, i, c) {
                if i1 < top {
                    assert(weight(stack[top]) < weight(stack[i1]));
                }
            } else {
                lemma_topmost_exists(stack, i0);
            }
        }
    }
    assert forall|i: int| 0 <= i < st.len() && pending(un2, fin, st[i]) && topmost(st, i) implies (i
        < stack.len() && topmost(stack, i) && (st[i] == t0 || pending(unexp, fin, stack[i]))) by {
        if i >= stack.len() {
            assert(unexp.contains(st[i]));
        } else if above(stack, i, stack[i]) {
            let j = choose|j: int| i < j < stack.len() && stack[j] == stack[i];
            assert(st[j] == st[i]);
        }
    }
    assert forall|i: int, h: bool|
        0 <= i < st.len() && pending(un2, fin, #[trigger] st[i]) && topmost(st, i) implies settled(
        op,
        fin,
        #[trigger] sub_task(a, b, ord, st[i].0, st[i].1, h),
    ) || above(st, i, sub_task(a, b, ord, st[i].0, st[i].1, h)) by {
        let t = sub_task(a, b, ord, st[i].0, st[i].1, h);
        if !settled(op, fin, t) {
            if st[i] == t0 {
                if i < top {
                    assert(st[top] == t0);
                }
            } else {
                assert(above(stack, i, t));
                let j = choose|j: int| i < j < stack.len() && stack[j] == t;
                assert(st[j] == stack[j]);
            }
        }
    }
    assert forall|i: int, j: int|
        0 <= i < j < st.len() && pending(un2, fin, #[trigger] st[i]) && topmost(st, i) implies weight(
        #[trigger] st[j],
    ) < weight(st[i]) by {
        if st[i] == t0 {
            if i < top {
                assert(st[top] == t0);
            }
        } else if j < stack.len() {
            assert(st[j] == stack[j]);
        } else {
            if i < top {
                assert(weight(stack[top]) < weight(stack[i]));
            } else {
                assert(st[top] == t0);
            }
        }
    }
    assert forall|t: (usize, usize)|
        all.contains(t) && #[trigger] pending(un2, fin, t) implies exists|i: int|
        0 <= i < st.len() && st[i] == t by {
        if t == t0 {
            assert(st[top] == t);
        } else {
            assert(pending(unexp, fin, t));
            let i = choose|i: int| 0 <= i < stack.len() && stack[i] == t;
            assert(st[i] == t);
        }
    }
}

/// Every task on a stack has a topmost entry.
proof fn lemma_topmost_exists(stack: Seq<(usize, usize)>, i: int)
    requires
        0 <= i < stack.len(),
    ensures
        exists|k: int| 0 <= k < stack.len() && stack[k] == stack[i] && !above(stack, k, stack[i]),
    decreases stack.len() - i,
{
    if above(stack, i, stack[i]) {
        let j = choose|j: int| i < j < stack.len() && stack[j] == stack[i];
        lemma_topmost_exists(stack, j);
    }
}

proof fn lemma_fin_insert(
    out: Seq<BddNode>,
    fin: Map<u128, usize>,
    a: Seq<BddNode>,
    b: Seq<BddNode>,
    op: BoolOp,
    l: usize,
    r: usize,
    p: usize,
)
    requires
        fin_ok(out, fin, a, b, op),
        p < out.len(),
        task_ok(out, a, b, op, l, r, p),
    ensures
        fin_ok(out, fin.insert(task_key(l, r), p), a, b, op),
{
    reveal(fin_ok);
    let f2 = fin.insert(task_key(l, r), p);
    assert forall|l2: usize, r2: usize|
        l2 < a.len() && r2 < b.len() && #[trigger] f2.contains_key(task_key(l2, r2)) implies f2[task_key(l2, r2)]
        < out.len() && task_ok(out, a, b, op, l2, r2, f2[task_key(l2, r2)]) by {
        if task_key(l2, r2) == task_key(l, r) {
            lemma_task_key_injective(l2, r2, l, r);
        }
    }
}

proof fn lemma_fin_push(
    out: Seq<BddNode>,
    n: BddNode,
    fin: Map<u128, usize>,
    a: Seq<BddNode>,
    b: Seq<BddNode>,
    op: BoolOp,
)
    requires
        fin_ok(out, fin, a, b, op),
    ensures
        fin_ok(out.push(n), fin, a, b, op),
{
    reveal(fin_ok);
    assert forall|l: usize, r: usize|
        l < a.len() && r < b.len() && #[trigger] fin.contains_key(task_key(l, r)) implies fin[task_key(l, r)]
        < out.push(n).len() && task_ok(out.push(n), a, b, op, l, r, fin[task_key(l, r)]) by {
        let p = fin[task_key(l, r)];
        assert forall|s: Set<i32>| #[trigger]
            value(out.push(n), p as int, s) == op_total(op, value(a, l as int, s), value(b, r as int, s)) by {
            lemma_value_push(out, n, p as int, s);
        }
    }
}

/// The task variable has the smaller of the two top ranks, and both sub-tasks
/// start strictly below it.
proof fn lemma_task_ranks(
    a: Seq<BddNode>,
    b: Seq<BddNode>,
    ord: Map<i32, usize>,
    l: usize,
    r: usize,
)
    requires
        nodes_wf(a),
        nodes_wf(b),
        ordered_inputs(a, b, ord),
        l < a.len(),
        r < b.len(),
        !(l < 2 && r < 2),
    ensures
        rank_of(ord, task_var(a, b, ord, l, r).name) == min_int(top_rank(a, ord, l as int), top_rank(b, ord, r as int)),
        forall|h: bool| min_int(
            top_rank(a, ord, #[trigger] sub_task(a, b, ord, l, r, h).0 as int),
            top_rank(b, ord, sub_task(a, b, ord, l, r, h).1 as int),
        ) > rank_of(ord, task_var(a, b, ord, l, r).name),
{
    if l >= 2 {
        assert(ord.contains_key(a[l as int].var.name));
        assert(top_rank(a, ord, a[l as int].low.index as int) > rank_of(ord, a[l as int].var.name));
        assert(top_rank(a, ord, a[l as int].high.index as int) > rank_of(ord, a[l as int].var.name));
    }
    if r >= 2 {
        assert(ord.contains_key(b[r as int].var.name));
        assert(top_rank(b, ord, b[r as int].low.index as int) > rank_of(ord, b[r as int].var.name));
        assert(top_rank(b, ord, b[r as int].high.index as int) > rank_of(ord, b[r as int].var.name));
    }
    if l >= 2 && r >= 2 {
        let lv = a[l as int].var.name;
        let rv = b[r as int].var.name;
        if lv != rv {
            assert(ord[lv] != ord[rv]);
        }
    }
}

proof fn lemma_settled_rank(
    out: Seq<BddNode>,
    fin: Map<u128, usize>,
    a: Seq<BddNode>,
    b: Seq<BddNode>,
    ord: Map<i32, usize>,
    op: BoolOp,
    l: usize,
    r: usize,
    p: usize,
)
    requires
        ranked_state(out, fin, a, b, ord),
        l < a.len(),
        r < b.len(),
        match op_partial(op, terminal_value(l as int), terminal_value(r as int)) {
            Some(v) => p == (if v { 1usize } else { 0usize }),
            None => fin.contains_key(task_key(l, r)) && p == fin[task_key(l, r)],
        },
    ensures
        top_rank(out, ord, p as int) >= min_int(top_rank(a, ord, l as int), top_rank(b, ord, r as int)),
{
    reveal(ranked_state);
    if op_partial(op, terminal_value(l as int), terminal_value(r as int)) is Some {
        assert(p < 2);
        assert(top_rank(a, ord, l as int) <= usize::MAX + 1);
    }
}

proof fn lemma_fin_ranked_insert(
    out: Seq<BddNode>,
    fin: Map<u128, usize>,
    a: Seq<BddNode>,
    b: Seq<BddNode>,
    ord: Map<i32, usize>,
    l: usize,
    r: usize,
    p: usize,
)
    requires
        ranked_state(out, fin, a, b, ord),
        top_rank(out, ord, p as int) >= min_int(top_rank(a, ord, l as int), top_rank(b, ord, r as int)),
    ensures
        ranked_state(out, fin.insert(task_key(l, r), p), a, b, ord),
{
    reveal(ranked_state);
    let f2 = fin.insert(task_key(l, r), p);
    assert forall|l2: usize, r2: usize| l2 < a.len() && r2 < b.len() && #[trigger] f2.contains_key(task_key(l2, r2))
        implies top_rank(out, ord, f2[task_key(l2, r2)] as int) >= min_int(top_rank(a, ord, l2 as int), top_rank(b, ord, r2 as int)) by {
        if task_key(l2, r2) == task_key(l, r) {
            lemma_task_key_injective(l2, r2, l, r);
        }
    }
}

proof fn lemma_ranked_push(
    out: Seq<BddNode>,
    n: BddNode,
    fin: Map<u128, usize>,
    a: Seq<BddNode>,
    b: Seq<BddNode>,
    ord: Map<i32, usize>,
    op: BoolOp,
)
    requires
        nodes_wf(out),
        ranked_state(out, fin, a, b, ord),
        fin_ok(out, fin, a, b, op),
        n.low.index < out.len(),
        n.high.index < out.len(),
        ord.contains_key(n.var.name),
        top_rank(out, ord, n.low.index as int) > rank_of(ord, n.var.name),
        top_rank(out, ord, n.high.index as int) > rank_of(ord, n.var.name),
    ensures
        ranked_state(out.push(n), fin, a, b, ord),
{
    reveal(ranked_state);
    reveal(fin_ok);
    let o2 = out.push(n);
    assert forall|l: usize, r: usize| l < a.len() && r < b.len() && #[trigger] fin.contains_key(task_key(l, r))
        implies top_rank(o2, ord, fin[task_key(l, r)] as int) >= min_int(top_rank(a, ord, l as int), top_rank(b, ord, r as int)) by {
        let q = fin[task_key(l, r)] as int;
        if q >= 2 {
            assert(o2[q] == out[q]);
        }
    }
    assert forall|i: int| 2 <= i < o2.len() implies top_rank(o2, ord, #[trigger] o2[i].low.index as int) > rank_of(ord, o2[i].var.name)
        && top_rank(o2, ord, o2[i].high.index as int) > rank_of(ord, o2[i].var.name) by {
        if i < out.len() {
            assert(o2[i] == out[i]);
            let lo = out[i].low.index as int;
            let hi = out[i].high.index as int;
            assert(lo < i && hi < i);
            if lo >= 2 {
                assert(o2[lo] == out[lo]);
            }
            if hi >= 2 {
                assert(o2[hi] == out[hi]);
            }
        } else {
            let lo = n.low.index as int;
            let hi = n.high.index as int;
            if lo >= 2 {
                assert(o2[lo] == out[lo]);
            }
            if hi >= 2 {
                assert(o2[hi] == out[hi]);
            }
        }
    }
    assert forall|i: int| 2 <= i < o2.len() implies ord.contains_key(#[trigger] o2[i].var.name) by {
        if i < out.len() {
            assert(o2[i] == out[i]);
        }
    }
}

/// What `lookup` hands back for a settled task computes that task.
proof fn lemma_settled_ok(
    out: Seq<BddNode>,
    fin: Map<u128, usize>,
    a: Seq<BddNode>,
    b: Seq<BddNode>,
    op: BoolOp,
    l: usize,
    r: usize,
    p: usize,
)
    requires
        fin_ok(out, fin, a, b, op),
        out.len() >= 2,
        l < a.len(),
        r < b.len(),
        match op_partial(op, terminal_value(l as int), terminal_value(r as int)) {
            Some(v) => p == (if v { 1usize } else { 0usize }),
            None => fin.contains_key(task_key(l, r)) && p == fin[task_key(l, r)],
        },
    ensures
        p < out.len(),
        task_ok(out, a, b, op, l, r, p),
{
    reveal(fin_ok);
    if let Some(v) = op_partial(op, terminal_value(l as int), terminal_value(r as int)) {
        assert forall|s: Set<i32>| #[trigger]
            value(out, p as int, s) == op_total(op, value(a, l as int, s), value(b, r as int, s)) by {
            let bl = value(a, l as int, s);
            let br = value(b, r as int, s);
            if terminal_value(l as int) is Some {
                lemma_terminal_value(a, l as int, s);
            }
            if terminal_value(r as int) is Some {
                lemma_terminal_value(b, r as int, s);
            }
            lemma_op_sound(op, terminal_value(l as int), terminal_value(r as int), bl, br);
        }
    }
}

/// A node on the task variable over the results of both sub-tasks computes the task.
proof fn lemma_node_ok(
    out: Seq<BddNode>,
    a: Seq<BddNode>,
    b: Seq<BddNode>,
    ord: Map<i32, usize>,
    op: BoolOp,
    l: usize,
    r: usize,
    p: usize,
)
    requires
        nodes_wf(out),
        nodes_wf(a),
        nodes_wf(b),
        l < a.len(),
        r < b.len(),
        !(l < 2 && r < 2),
        2 <= p < out.len(),
        out[p as int].var == task_var(a, b, ord, l, r),
        task_ok(
            out,
            a,
            b,
            op,
            sub_task(a, b, ord, l, r, false).0,
            sub_task(a, b, ord, l, r, false).1,
            out[p as int].low.index,
        ),
        task_ok(
            out,
            a,
            b,
            op,
            sub_task(a, b, ord, l, r, true).0,
            sub_task(a, b, ord, l, r, true).1,
            out[p as int].high.index,
        ),
    ensures
        task_ok(out, a, b, op, l, r, p),
{
    let n = out[p as int];
    assert(n.low.index < p && n.high.index < p);
    assert forall|s: Set<i32>| #[trigger]
        value(out, p as int, s) == op_total(op, value(a, l as int, s), value(b, r as int, s)) by {
        lemma_expand(a, b, ord, op, l, r, s);
        let lt = sub_task(a, b, ord, l, r, false);
        let ht = sub_task(a, b, ord, l, r, true);
        assert(value(out, n.low.index as int, s) == op_total(
            op,
            value(a, lt.0 as int, s),
            value(b, lt.1 as int, s),
        ));
        assert(value(out, n.high.index as int, s) == op_total(
            op,
            value(a, ht.0 as int, s),
            value(b, ht.1 as int, s),
        ));
    }
}

/// Both sub-tasks computing the same pointer make that pointer the task's result.
proof fn lemma_redundant_ok(
    out: Seq<BddNode>,
    a: Seq<BddNode>,
    b: Seq<BddNode>,
    ord: Map<i32, usize>,
    op: BoolOp,
    l: usize,
    r: usize,
    p: usize,
)
    requires
        nodes_wf(a),
        nodes_wf(b),
        l < a.len(),
        r < b.len(),
        !(l < 2 && r < 2),
        task_ok(
            out,
            a,
            b,
            op,
            sub_task(a, b, ord, l, r, false).0,
            sub_task(a, b, ord, l, r, false).1,
            p,
        ),
        task_ok(
            out,
            a,
            b,
            op,
            sub_task(a, b, ord, l, r, true).0,
            sub_task(a, b, ord, l, r, true).1,
            p,
        ),
    ensures
        task_ok(out, a, b, op, l, r, p),
{
    assert forall|s: Set<i32>| #[trigger]
        value(out, p as int, s) == op_total(op, value(a, l as int, s), value(b, r as int, s)) by {
        lemma_expand(a, b, ord, op, l, r, s);
        let lt = sub_task(a, b, ord, l, r, false);
        let ht = sub_task(a, b, ord, l, r, true);
        assert(value(out, p as int, s) == op_total(op, value(a, lt.0 as int, s), value(b, lt.1 as int, s)));
        assert(value(out, p as int, s) == op_total(op, value(a, ht.0 as int, s), value(b, ht.1 as int, s)));
    }
}

proof fn lemma_task_ok_push(
    out: Seq<BddNode>,
    n: BddNode,
    a: Seq<BddNode>,
    b: Seq<BddNode>,
    op: BoolOp,
    l: usize,
    r: usize,
    p: usize,
)
    requires
        p < out.len(),
        task_ok(out, a, b, op, l, r, p),
    ensures
        task_ok(out.push(n), a, b, op, l, r, p),
{
    assert forall|s: Set<i32>| #[trigger]
        value(out.push(n), p as int, s) == op_total(op, value(a, l as int, s), value(b, r as int, s)) by {
        lemma_value_push(out, n, p as int, s);
    }
}

impl Bdd {
    /// The settled result of task `(l, r)`, if there is one yet.
    fn lookup(
        op: BoolOp,
        fin: &HashMap<u128, usize>,
        l: usize,
        r: usize,
    ) -> (res: Option<usize>)
        ensures
            res is Some <==> settled(op, fin@, (l, r)),
            res is Some ==> match op_partial(op, terminal_value(l as int), terminal_value(r as int)) {
                Some(v) => res == Some(if v { 1usize } else { 0usize }),
                None => res == Some(fin@[task_key(l, r)]),
            },
    {
        match op_call(op, BddPointer::new(l).as_bool(), BddPointer::new(r).as_bool()) {
            Some(v) => Some(BddPointer::from_bool(v).to_index()),
            None => {
                let k = key_of_task(l, r);
                match fin.get(&k) {
                    Some(p) => Some(*p),
                    None => None,
                }
            }
        }
    }

    /// The pointer of `node` in `out`, appended if no equal node is there yet.
    fn intern(out: &mut Vec<BddNode>, unique: &mut HashMap<u128, Vec<usize>>, node: BddNode) -> (p: usize)
        requires
            nodes_wf(old(out)@),
            nodes_reduced(old(out)@),
            nodes_distinct(old(out)@),
            uniq_ok(old(out)@, old(unique)@),
            old(out)@.len() >= 2,
            node.low.index < old(out)@.len(),
            node.high.index < old(out)@.len(),
            node.low != node.high,
            node.var.name != TERMINAL_NAME,
        ensures
            final(out)@ == old(out)@ || final(out)@ == old(out)@.push(node),
            2 <= p < final(out)@.len(),
            final(out)@[p as int] == node,
            nodes_wf(final(out)@),
            nodes_reduced(final(out)@),
            nodes_distinct(final(out)@),
            uniq_ok(final(out)@, final(unique)@),
    {
        let k = key_of_task(node.low.index, node.high.index);
        let mut found: Option<usize> = None;
        let mut listed = false;
        match unique.get(&k) {
            Some(list) => {
                listed = true;
                let mut j: usize = 0;
                while j < list.len() && found.is_none()
                    invariant
                        j <= list@.len(),
                        found matches Some(i) ==> i < out@.len() && out@[i as int] == node,
                        found is None ==> forall|jj: int| 0 <= jj < j ==> (#[trigger] list@[jj] as int) >= out@.len() || out@[list@[jj] as int] != node,
                    decreases list@.len() - j, (if found is None { 1int } else { 0int }),
                {
                    let c = list[j];
                    if c < out.len() && out[c] == node {
                        found = Some(c);
                    }
                    j = j + 1;
                }
                proof {
                    if found is None {
                        assert(forall|jj: int| 0 <= jj < list@.len() ==> (#[trigger] list@[jj] as int) >= out@.len() || out@[list@[jj] as int] != node);
                    }
                }
            },
            None => {},
        }
        assert(found is None ==> unique@.contains_key(k) ==> forall|jj: int| 0 <= jj < unique@[k]@.len() ==> (#[trigger] unique@[k]@[jj] as int) >= out@.len() || out@[unique@[k]@[jj] as int] != node);
        match found {
            Some(i) => {
                proof {
                    if i < 2 {
                        assert(out@[i as int].low == out@[i as int].high);
                    }
                }
                i
            },
            None => {
                proof {
                    assert forall|i: int| 0 <= i < out@.len() implies out@[i] != node by {
                        if out@[i] == node {
                            assert(out@.len() <= usize::MAX) by {
                                assert(out@.len() == out.len());
                            }
                            assert(unique@.contains_key(k));
                            assert(unique@[k]@.contains(i as usize));
                            let jj = choose|jj: int| 0 <= jj < unique@[k]@.len() && unique@[k]@[jj] == i as usize;
                            assert(unique@[k]@[jj] as int == i);
                        }
                    }
                }
                let p = out.len();
                let ghost old_out = out@;
                let ghost old_unique = unique@;
                out.push(node);
                let mut list: Vec<usize> = match unique.remove(&k) {
                    Some(l) => l,
                    None => Vec::new(),
                };
                let ghost old_list = list@;
                list.push(p);
                unique.insert(k, list);
                proof {
                    assert(final(out)@[p as int] == node);
                    assert forall|i: int| 2 <= i < final(out)@.len() implies #[trigger] final(out)@[i].low.index
                        < final(out)@.len() && final(out)@[i].high.index < final(out)@.len() by {
                        if i < p {
                            assert(final(out)@[i] == old(out)@[i]);
                        }
                    }
                    assert forall|i: int| 2 <= i < final(out)@.len() implies #[trigger] final(out)@[i].low.index
                        < i && final(out)@[i].high.index < i && final(out)@[i].var.name != TERMINAL_NAME by {
                        if i < p {
                            assert(final(out)@[i] == old(out)@[i]);
                        }
                    }
                    assert forall|i: int| 2 <= i < final(out)@.len() implies #[trigger] final(out)@[i].low
                        != final(out)@[i].high by {
                        if i < p {
                            assert(final(out)@[i] == old(out)@[i]);
                        }
                    }
                    assert forall|i: int, j: int| 0 <= i < j < final(out)@.len() implies #[trigger] final(out)@[i] != #[trigger] final(out)@[j] by {
                        if j < p {
                            assert(final(out)@[i] == old_out[i] && final(out)@[j] == old_out[j]);
                        } else {
                            assert(final(out)@[i] == old_out[i]);
                        }
                    }
                    assert forall|i: int| #![trigger final(out)@[i]] 0 <= i < final(out)@.len() implies unique@.contains_key(task_key(final(out)@[i].low.index, final(out)@[i].high.index))
                        && unique@[task_key(final(out)@[i].low.index, final(out)@[i].high.index)]@.contains(i as usize) by {
                        let ki = task_key(final(out)@[i].low.index, final(out)@[i].high.index);
                        if i < p {
                            assert(final(out)@[i] == old_out[i]);
                            assert(old_unique.contains_key(ki));
                            assert(old_unique[ki]@.contains(i as usize));
                            if ki == k {
                                let q = choose|q: int| 0 <= q < old_unique[ki]@.len() && old_unique[ki]@[q] == i as usize;
                                assert(old_list == old_unique[k]@);
                                assert(list@[q] == i as usize);
                            }
                        } else {
                            assert(list@[list@.len() - 1] == p);
                        }
                    }
                }
                p
            },
        }
    }

    /// Which sides of task `(l, r)` are expanded.
    fn sides(&self, other: &Bdd, ordering: &HashMap<i32, usize>, l: usize, r: usize) -> (res: (
        bool,
        bool,
    ))
        requires
            l < self.nodes@.len(),
            r < other.nodes@.len(),
        ensures
            res == split_sides(self.nodes@, other.nodes@, ordering@, l, r),
    {
        if l < 2 {
            (false, true)
        } else if r < 2 {
            (true, false)
        } else {
            let lv = self.nodes[l].var.name;
            let rv = other.nodes[r].var.name;
            if lv == rv {
                (true, true)
            } else if rank(ordering, lv) < rank(ordering, rv) {
                (true, false)
            } else {
                (false, true)
            }
        }
    }

    /// Merge two diagrams with `op`: the result computes `op` of their functions.
    ///
    /// Works with an explicit stack of tasks (pairs of pointers, one into each
    /// diagram), a table of finished tasks, and a table that interns every node
    /// placed in the output, so the output is reduced and holds no triple twice.
    #[verifier::rlimit(100)]
    #[verifier::spinoff_prover]
    pub fn apply(&mut self, other: &Bdd, op: BoolOp, ordering: &HashMap<i32, usize>) -> (res: Bdd)
        requires
            nodes_wf(old(self).nodes@),
            nodes_wf(other.nodes@),
        ensures
            final(self).nodes@ == old(self).nodes@,
            nodes_wf(res.nodes@),
            nodes_reduced(res.nodes@),
            nodes_distinct(res.nodes@),
            res.nodes@.len() <= 2 + old(self).nodes@.len() * other.nodes@.len(),
            ordered_inputs(old(self).nodes@, other.nodes@, ordering@) ==> nodes_ordered(res.nodes@, ordering@)
                && vars_ranked(res.nodes@, ordering@),
            forall|s: Set<i32>|
                #[trigger] denotes(res.nodes@, s) == op_total(
                    op,
                    denotes(old(self).nodes@, s),
                    denotes(other.nodes@, s),
                ),
    {
        let ghost a = self.nodes@;
        let ghost b = other.nodes@;
        let ghost ord = ordering@;
        let mut out: Vec<BddNode> = Vec::new();
        out.push(BddNode::mk_zero(BddVar::terminal()));
        out.push(BddNode::mk_one(BddVar::terminal()));
        let mut unique: HashMap<u128, Vec<usize>> = HashMap::new();
        let mut zeros: Vec<usize> = Vec::new();
        zeros.push(0);
        let mut ones: Vec<usize> = Vec::new();
        ones.push(1);
        unique.insert(key_of_task(0, 0), zeros);
        unique.insert(key_of_task(1, 1), ones);
        let mut fin: HashMap<u128, usize> = HashMap::new();
        let ra = self.root_pointer().to_index();
        let rb = other.root_pointer().to_index();
        let mut stack: Vec<(usize, usize)> = Vec::new();
        stack.push((ra, rb));
        let ghost all = lemma_task_set(a.len(), b.len());
        let ghost good = ordered_inputs(a, b, ord);
        let ghost mut open_tasks = all;
        let ghost mut unexp = all;
        proof {
            reveal(stack_ok);
            reveal(fin_ok);
            assert(stack_ok(stack@, all, unexp, fin@, a, b, ord, op));
            assert(fin_ok(out@, fin@, a, b, op));
            assert(nodes_wf(out@));
            assert(task_key(0, 0) != task_key(1, 1)) by {
                if task_key(0, 0) == task_key(1, 1) {
                    lemma_task_key_injective(0, 0, 1, 1);
                }
            }
            assert(unique@[task_key(0, 0)]@[0] == 0usize);
            assert(unique@[task_key(1, 1)]@[0] == 1usize);
            assert(uniq_ok(out@, unique@));
            lemma_ranked_state_start(out@, a, b, ord);
        }
        while stack.len() > 0
            invariant
                a == self.nodes@,
                b == other.nodes@,
                ord == ordering@,
                nodes_wf(a),
                nodes_wf(b),
                ra == root_of(a),
                rb == root_of(b),
                nodes_wf(out@),
                nodes_reduced(out@),
                nodes_distinct(out@),
                uniq_ok(out@, unique@),
                good == ordered_inputs(a, b, ord),
                good ==> ranked_state(out@, fin@, a, b, ord),
                out@.len() >= 2,
                all.finite(),
                forall|t: (usize, usize)| #[trigger]
                    all.contains(t) <==> (t.0 < a.len() && t.1 < b.len()),
                open_tasks.finite(),
                all.len() == a.len() * b.len(),
                out@.len() + open_tasks.len() <= all.len() + 2,
                unexp.finite(),
                open_tasks <= all,
                unexp <= all,
                forall|t: (usize, usize)|
                    all.contains(t) ==> (#[trigger] open_tasks.contains(t) <==> !fin@.contains_key(
                        task_key(t.0, t.1),
                    )),
                fin_ok(out@, fin@, a, b, op),
                forall|i: int| 0 <= i < stack@.len() ==> #[trigger] all.contains(stack@[i]),
                stack@.len() > 0 ==> stack@[0] == (ra, rb),
                stack@.len() == 0 ==> fin@.contains_key(task_key(ra, rb)),
                stack_ok(stack@, all, unexp, fin@, a, b, ord, op),
            decreases open_tasks.len(), unexp.len(), stack@.len(),
        {
            let ghost out_len0 = out@.len();
            let top = stack.len() - 1;
            let (l, r) = stack[top];
            let k = key_of_task(l, r);
            let ghost t = (l, r);
            assert(all.contains(stack@[top as int]));
            assert(stack@.drop_last().len() > 0 ==> stack@.drop_last()[0] == stack@[0]);
            if fin.contains_key(&k) {
                proof {
                    lemma_pop_settled(stack@, all, unexp, fin@, fin@, a, b, ord, op);
                }
                stack.pop();
            } else {
                let mut done: Option<usize> = Self::lookup(op, &fin, l, r);
                if done.is_some() {
                    proof {
                        lemma_settled_ok(out@, fin@, a, b, op, l, r, done.unwrap());
                        if good {
                            lemma_settled_rank(out@, fin@, a, b, ord, op, l, r, done.unwrap());
                        }
                    }
                } else {
                    let (sl, sr) = self.sides(other, ordering, l, r);
                    let x = if sl {
                        self.nodes[l].var
                    } else {
                        other.nodes[r].var
                    };
                    let (ll, lh) = if sl {
                        (self.nodes[l].low.index, self.nodes[l].high.index)
                    } else {
                        (l, l)
                    };
                    let (rl, rh) = if sr {
                        (other.nodes[r].low.index, other.nodes[r].high.index)
                    } else {
                        (r, r)
                    };
                    let ghost lt = sub_task(a, b, ord, l, r, false);
                    let ghost ht = sub_task(a, b, ord, l, r, true);
                    assert(lt == (ll, rl) && ht == (lh, rh));
                    assert(!(l < 2 && r < 2));
                    proof {
                        if l >= 2 {
                            assert(a[l as int].low.index < l && a[l as int].high.index < l);
                        }
                        if r >= 2 {
                            assert(b[r as int].low.index < r && b[r as int].high.index < r);
                        }
                        assert(x == task_var(a, b, ord, l, r));
                        assert(x.name != TERMINAL_NAME);
                    }
                    let lo = Self::lookup(op, &fin, ll, rl);
                    let hi = Self::lookup(op, &fin, lh, rh);
                    if lo.is_some() && hi.is_some() {
                        let lo = lo.unwrap();
                        let hi = hi.unwrap();
                        proof {
                            lemma_settled_ok(out@, fin@, a, b, op, ll, rl, lo);
                            lemma_settled_ok(out@, fin@, a, b, op, lh, rh, hi);
                            if good {
                                lemma_settled_rank(out@, fin@, a, b, ord, op, ll, rl, lo);
                                lemma_settled_rank(out@, fin@, a, b, ord, op, lh, rh, hi);
                                lemma_task_ranks(a, b, ord, l, r);
                                assert(min_int(top_rank(a, ord, lt.0 as int), top_rank(b, ord, lt.1 as int)) > rank_of(ord, x.name));
                                assert(min_int(top_rank(a, ord, ht.0 as int), top_rank(b, ord, ht.1 as int)) > rank_of(ord, x.name));
                                if l >= 2 && sl {
                                    assert(ord.contains_key(a[l as int].var.name));
                                }
                                if !sl {
                                    assert(ord.contains_key(b[r as int].var.name));
                                }
                            }
                        }
                        if lo == hi {
                            proof {
                                lemma_redundant_ok(out@, a, b, ord, op, l, r, lo);
                            }
                            done = Some(lo);
                        } else {
                            let ghost out0 = out@;
                            let node = BddNode::mk_node(x, BddPointer::new(lo), BddPointer::new(hi));
                            let p = Self::intern(&mut out, &mut unique, node);
                            proof {
                                if out@ != out0 {
                                    lemma_task_ok_push(out0, node, a, b, op, ll, rl, lo);
                                    lemma_task_ok_push(out0, node, a, b, op, lh, rh, hi);
                                    lemma_fin_push(out0, node, fin@, a, b, op);
                                    if good {
                                        lemma_ranked_push(out0, node, fin@, a, b, ord, op);
                                    }
                                }
                                lemma_node_ok(out@, a, b, ord, op, l, r, p);
                                if good {
                                    assert(out@[p as int] == node);
                                    assert(top_rank(out@, ord, p as int) == rank_of(ord, x.name));
                                }
                            }
                            done = Some(p);
                        }
                    } else {
                        let ghost old_stack = stack@;
                        if lo.is_none() {
                            stack.push((ll, rl));
                        }
                        if hi.is_none() {
                            stack.push((lh, rh));
                        }
                        proof {
                            assert(unexp.contains(t)) by {
                                reveal(stack_ok);
                                if !unexp.contains(t) {
                                    assert(topmost(old_stack, top as int));
                                    let h = lo.is_some();
                                    assert(!settled(op, fin@, sub_task(a, b, ord, l, r, h)));
                                }
                            }
                            assert(stack@.subrange(0, old_stack.len() as int) =~= old_stack);
                            assert forall|h: bool|
                                settled(op, fin@, #[trigger] sub_task(a, b, ord, l, r, h)) || above(
                                    stack@,
                                    old_stack.len() - 1,
                                    sub_task(a, b, ord, l, r, h),
                                ) by {
                                if !h && lo.is_none() {
                                    assert(stack@[old_stack.len() as int] == lt);
                                }
                                if h && hi.is_none() {
                                    assert(stack@[stack@.len() - 1] == ht);
                                }
                            }
                            lemma_push_subtasks(old_stack, stack@, all, unexp, fin@, a, b, ord, op);
                            unexp = unexp.remove(t);
                        }
                    }
                }
                if done.is_some() {
                    let p = done.unwrap();
                    let ghost old_fin = fin@;
                    fin.insert(k, p);
                    proof {
                        lemma_fin_insert(out@, old_fin, a, b, op, l, r, p);
                        if good {
                            lemma_fin_ranked_insert(out@, old_fin, a, b, ord, l, r, p);
                        }
                        lemma_pop_settled(stack@, all, unexp, old_fin, fin@, a, b, ord, op);
                        assert forall|t2: (usize, usize)|
                            all.contains(t2) implies (#[trigger] open_tasks.remove(t).contains(t2)
                            <==> !fin@.contains_key(task_key(t2.0, t2.1))) by {
                            if task_key(t2.0, t2.1) == k {
                                lemma_task_key_injective(t2.0, t2.1, l, r);
                            }
                        }
                        assert(open_tasks.contains(t));
                        assert(out@.len() <= out_len0 + 1);
                        assert(open_tasks.remove(t).len() == open_tasks.len() - 1);
                        open_tasks = open_tasks.remove(t);
                    }
                    stack.pop();
                }
            }
        }
        let root_result = match fin.get(&key_of_task(ra, rb)) {
            Some(p) => *p,
            None => 0,
        };
        proof {
            reveal(fin_ok);
            assert(root_result == fin@[task_key(ra, rb)]);
            assert(task_ok(out@, a, b, op, ra, rb, root_result));
            assert forall|s: Set<i32>| #[trigger] value(out@, root_result as int, s) == op_total(
                op,
                denotes(a, s),
                denotes(b, s),
            ) by {
                assert(value(out@, root_result as int, s) == op_total(
                    op,
                    value(a, ra as int, s),
                    value(b, rb as int, s),
                ));
            }
        }
        if root_result == 0 {
            let res = Bdd::new_false();
            assert forall|s: Set<i32>| #[trigger] denotes(res.nodes@, s) == op_total(
                op,
                denotes(a, s),
                denotes(b, s),
            ) by {
                assert(value(out@, root_result as int, s) == false);
            }
            res
        } else if root_result == 1 {
            let res = Bdd::new_true();
            assert forall|s: Set<i32>| #[trigger] denotes(res.nodes@, s) == op_total(
                op,
                denotes(a, s),
                denotes(b, s),
            ) by {
                assert(value(out@, root_result as int, s) == true);
            }
            res
        } else if root_result == out.len() - 1 {
            let res = Bdd { nodes: out };
            assert forall|s: Set<i32>| #[trigger] denotes(res.nodes@, s) == op_total(
                op,
                denotes(a, s),
                denotes(b, s),
            ) by {
                assert(root_of(res.nodes@) == root_result);
                assert(value(res.nodes@, root_result as int, s) == op_total(op, denotes(a, s), denotes(b, s)));
            }
            proof {
                if good {
                    lemma_ranked_state_result(res.nodes@, fin@, a, b, ord, res.nodes@.len() as int);
                    assert(res.nodes@.subrange(0, res.nodes@.len() as int) =~= res.nodes@);
                }
            }
            res
        } else {
            // Nodes after the root cannot be reached from it: drop them.
            let ghost out0 = out@;
            out.truncate(root_result + 1);
            proof {
                let n = root_result + 1;
                assert(out@ == out0.subrange(0, n as int));
                assert forall|s: Set<i32>| #[trigger] denotes(out@, s) == op_total(
                    op,
                    denotes(a, s),
                    denotes(b, s),
                ) by {
                    assert(root_of(out@) == root_result);
                    lemma_value_prefix(out0, n as int, root_result as int, s);
                    assert(value(out0, root_result as int, s) == op_total(op, denotes(a, s), denotes(b, s)));
                }
                assert forall|i: int| 2 <= i < out@.len() implies #[trigger] out@[i].low.index < i
                    && out@[i].high.index < i && out@[i].var.name != TERMINAL_NAME && out@[i].low.index
                    < out@.len() && out@[i].high.index < out@.len() && out@[i].low != out@[i].high by {
                    assert(out@[i] == out0[i]);
                }
                assert forall|i: int, j: int| 0 <= i < j < out@.len() implies #[trigger] out@[i] != #[trigger] out@[j] by {
                    assert(out@[i] == out0[i] && out@[j] == out0[j]);
                }
                if good {
                    lemma_ranked_state_result(out0, fin@, a, b, ord, n as int);
                }
            }
            Bdd { nodes: out }
        }
    }

    /// The diagram of the conjunction of the two functions.
    pub fn and(&mut self, other: &Bdd, ordering: &HashMap<i32, usize>) -> (res: Bdd)
        requires
            nodes_wf(old(self).nodes@),
            nodes_wf(other.nodes@),
        ensures
            final(self).nodes@ == old(self).nodes@,
            nodes_wf(res.nodes@),
            nodes_reduced(res.nodes@),
            nodes_distinct(res.nodes@),
            res.nodes@.len() <= 2 + old(self).nodes@.len() * other.nodes@.len(),
            ordered_inputs(old(self).nodes@, other.nodes@, ordering@) ==> nodes_ordered(res.nodes@, ordering@)
                && vars_ranked(res.nodes@, ordering@),
            forall|s: Set<i32>|
                #[trigger] denotes(res.nodes@, s) == (denotes(old(self).nodes@, s) && denotes(
                    other.nodes@,
                    s,
                )),
    {
        self.apply(other, BoolOp::And, ordering)
    }

    /// The diagram of the disjunction of the two functions.
    pub fn or(&mut self, other: &Bdd, ordering: &HashMap<i32, usize>) -> (res: Bdd)
        requires
            nodes_wf(old(self).nodes@),
            nodes_wf(other.nodes@),
        ensures
            final(self).nodes@ == old(self).nodes@,
            nodes_wf(res.nodes@),
            nodes_reduced(res.nodes@),
            nodes_distinct(res.nodes@),
            res.nodes@.len() <= 2 + old(self).nodes@.len() * other.nodes@.len(),
            ordered_inputs(old(self).nodes@, other.nodes@, ordering@) ==> nodes_ordered(res.nodes@, ordering@)
                && vars_ranked(res.nodes@, ordering@),
            forall|s: Set<i32>|
                #[trigger] denotes(res.nodes@, s) == (denotes(old(self).nodes@, s) || denotes(
                    other.nodes@,
                    s,
                )),
    {
        self.apply(other, BoolOp::Or, ordering)
    }
}

} // verus!
