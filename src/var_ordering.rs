use std::collections::HashMap;
use rayon::slice::ParallelSliceMut;
use vstd::prelude::*;
use crate::apply::{nodes_ordered, rank, rank_of, ranks_distinct, vars_ranked};
use crate::bdd::{Bdd, denotes, nodes_distinct, nodes_reduced, nodes_wf};
use crate::bdd_util::{BddPointer, BddVar, TERMINAL_NAME};
use crate::bool_expr::{
    Clause, Expr, clause_value, expr_ranked, has_clause, last_highest, var_name_of, vars_declared,
};
use crate::bucket::Bucket;
use crate::clause_database::ClauseDatabase;
use crate::bdd_util::BddNode;
use crate::clause_gen::{is_conflict_path, learned_from, learned_of};
use crate::clause_database::{copy_clause, one_of};
use crate::parser::{Dimacs, score_ge};
use crate::var_ordering_builder::BddVarOrderingBuilder;

verus! {

broadcast use vstd::std_specs::hash::group_hash_axioms;

/// The variables of a problem, its clauses, and the rank of every variable.
pub struct BddVarOrdering {
    pub variables: Vec<BddVar>,
    pub expressions: Vec<Clause>,
    pub ordering: HashMap<i32, usize>,
}

/// Every clause of the list holds.
pub open spec fn all_hold(cs: Seq<Clause>, s: Set<i32>) -> bool {
    forall|i: int| 0 <= i < cs.len() ==> clause_value(#[trigger] cs[i].literals@, s)
}

/// Every literal of every clause names a declared variable.
pub open spec fn clauses_declared(cs: Seq<Clause>, variables: Seq<BddVar>) -> bool {
    forall|i: int, j: int|
        0 <= i < cs.len() && 0 <= j < cs[i].literals@.len() ==> vars_declared(
            #[trigger] cs[i].literals@[j],
            variables,
        )
}

/// Every literal of every clause names a ranked variable (constants aside).
pub open spec fn literals_ranked(cs: Seq<Clause>, ordering: Map<i32, usize>) -> bool {
    forall|i: int, j: int|
        0 <= i < cs.len() && 0 <= j < cs[i].literals@.len() ==> expr_ranked(#[trigger] cs[i].literals@[j], ordering)
}

/// Every literal's variable has a rank.
pub open spec fn clauses_ranked(cs: Seq<Clause>, ordering: Map<i32, usize>) -> bool {
    forall|i: int, j: int|
        0 <= i < cs.len() && 0 <= j < cs[i].literals@.len() ==> ordering.contains_key(
            var_name_of(#[trigger] cs[i].literals@[j]),
        )
}

/// `v` is the highest-ranked variable of clause `c` (smallest rank number; the last such literal).
pub open spec fn highest_var(c: Clause, ordering: Map<i32, usize>, v: i32) -> bool {
    exists|i: int| last_highest(c.literals@, ordering, i) && v == var_name_of(c.literals@[i])
}

/// The variables whose rank changes when ranks become positions in `vars`,
/// among the first `n`, in order.
pub open spec fn moved_upto(vars: Seq<BddVar>, ordering: Map<i32, usize>, n: int) -> Seq<BddVar>
    decreases n,
{
    if n <= 0 {
        seq![]
    } else {
        moved_upto(vars, ordering, n - 1) + if ordering[vars[n - 1].name] != n - 1 {
            seq![vars[n - 1]]
        } else {
            seq![]
        }
    }
}

/// `a` comes before `b` when sorting by decreasing score, ties by position.
pub open spec fn before_in_interaction_order(a: (usize, usize, i32), b: (usize, usize, i32)) -> bool {
    a.0 > b.0 || (a.0 == b.0 && a.1 < b.1)
}

/// Literal `l2` of clause `c` is another literal than `l1`, and they are on `v` and `w`.
pub open spec fn interacts_at(cs: Seq<Clause>, v: i32, w: i32, c: int, l1: int, l2: int) -> bool {
    &&& 0 <= c < cs.len()
    &&& 0 <= l1 < cs[c].literals@.len()
    &&& 0 <= l2 < cs[c].literals@.len()
    &&& var_name_of(cs[c].literals@[l1]) == v
    &&& cs[c].literals@[l2] != cs[c].literals@[l1]
    &&& var_name_of(cs[c].literals@[l2]) == w
}

/// `(c, l1, l2)` comes before `(bc, bl1, bl2)` in scan order.
pub open spec fn lex_before(c: int, l1: int, l2: int, bc: int, bl1: int, bl2: int) -> bool {
    c < bc || (c == bc && (l1 < bl1 || (l1 == bl1 && l2 < bl2)))
}

/// Some clause holds a literal on `v` and a different literal on `w`.
pub open spec fn interacts(cs: Seq<Clause>, v: i32, w: i32) -> bool {
    exists|c: int, l1: int, l2: int| #[trigger] interacts_at(cs, v, w, c, l1, l2)
}

/// Some literal of some clause is on `v`.
pub open spec fn mentioned(cs: Seq<Clause>, v: i32) -> bool {
    exists|c: int, l: int|
        0 <= c < cs.len() && 0 <= l < cs[c].literals@.len() && var_name_of(#[trigger] cs[c].literals@[l]) == v
}

/// The literal sequences of a list of clauses.
pub open spec fn lits_of(cs: Seq<Clause>) -> Seq<Seq<Expr>> {
    cs.map_values(|c: Clause| c.literals@)
}

/// The literal sequences of the first `n` clauses whose variable of greatest
/// rank is `v`, in their order.
pub open spec fn with_pivot(cs: Seq<Clause>, ordering: Map<i32, usize>, v: i32, n: int) -> Seq<Seq<Expr>>
    decreases n,
{
    if n <= 0 {
        seq![]
    } else {
        with_pivot(cs, ordering, v, n - 1) + if highest_var(cs[n - 1], ordering, v) {
            seq![cs[n - 1].literals@]
        } else {
            seq![]
        }
    }
}

/// Some bucket of `bs` is keyed by `v`.
pub open spec fn is_key(bs: Seq<Bucket>, v: i32) -> bool {
    exists|k: int| 0 <= k < bs.len() && #[trigger] bs[k].index == v
}

/// A clause has one highest-ranked variable (the last such literal's).
proof fn lemma_highest_unique(c: Clause, ordering: Map<i32, usize>, v1: i32, v2: i32)
    requires
        highest_var(c, ordering, v1),
        highest_var(c, ordering, v2),
    ensures
        v1 == v2,
{
    let i1 = choose|i: int| last_highest(c.literals@, ordering, i) && v1 == var_name_of(c.literals@[i]);
    let i2 = choose|i: int| last_highest(c.literals@, ordering, i) && v2 == var_name_of(c.literals@[i]);
    if i1 < i2 {
        assert(ordering[var_name_of(c.literals@[i2])] > ordering[var_name_of(c.literals@[i1])]);
        assert(ordering[var_name_of(c.literals@[i1])] >= ordering[var_name_of(c.literals@[i2])]);
    } else if i2 < i1 {
        assert(ordering[var_name_of(c.literals@[i1])] > ordering[var_name_of(c.literals@[i2])]);
        assert(ordering[var_name_of(c.literals@[i2])] >= ordering[var_name_of(c.literals@[i1])]);
    }
}

proof fn lemma_with_pivot_step(cs: Seq<Clause>, ordering: Map<i32, usize>, c: int, v: i32, w: i32)
    requires
        0 <= c < cs.len(),
        highest_var(cs[c], ordering, v),
    ensures
        with_pivot(cs, ordering, w, c + 1) == with_pivot(cs, ordering, w, c) + if w == v {
            seq![cs[c].literals@]
        } else {
            seq![]
        },
{
    if highest_var(cs[c], ordering, w) {
        lemma_highest_unique(cs[c], ordering, v, w);
    }
}

/// Some literal of some clause of `cs` is on `v`.
pub open spec fn clauses_mention(cs: Seq<Clause>, v: i32) -> bool {
    exists|c: int, l: int|
        0 <= c < cs.len() && 0 <= l < cs[c].literals@.len() && var_name_of(#[trigger] cs[c].literals@[l]) == v
}

/// Where the first `n` input clauses went: `origin[k][j]` is the input
/// clause at position `j` of bucket `k` (increasing within a bucket), and
/// `at[i]` is the position of input clause `i`; so each input clause sits at
/// exactly one position and each position holds one input clause.
pub open spec fn placement(es: Seq<Clause>, bs: Seq<Bucket>, origin: Seq<Seq<int>>, at: Seq<(int, int)>, n: int) -> bool {
    &&& origin.len() == bs.len()
    &&& at.len() == n
    &&& forall|k: int| 0 <= k < bs.len() ==> (#[trigger] origin[k]).len() == bs[k].clauses@.len()
    &&& forall|k: int, j: int|
        0 <= k < bs.len() && 0 <= j < bs[k].clauses@.len() ==> 0 <= #[trigger] origin[k][j] < n
            && bs[k].clauses@[j].literals@ == es[origin[k][j]].literals@ && at[origin[k][j]] == (k, j)
    &&& forall|k: int, j1: int, j2: int|
        0 <= k < bs.len() && 0 <= j1 < j2 < bs[k].clauses@.len() ==> #[trigger] origin[k][j1] < #[trigger] origin[k][j2]
    &&& forall|i: int|
        0 <= i < n ==> 0 <= (#[trigger] at[i]).0 < bs.len() && 0 <= at[i].1 < bs[at[i].0].clauses@.len()
            && origin[at[i].0][at[i].1] == i
}

/// Literal `l` of `c` is on a variable every one of whose interaction
/// partners already occurs in `held`.
pub open spec fn fit_at(exprs: Seq<Clause>, c: Clause, held: Seq<Clause>, l: int) -> bool {
    mentioned(exprs, var_name_of(c.literals@[l])) && forall|w: i32|
        interacts(exprs, var_name_of(c.literals@[l]), w) ==> #[trigger] clauses_mention(held, w)
}

proof fn lemma_first_fit_append(
    xs: Seq<Clause>,
    es: Seq<Clause>,
    before: Seq<Bucket>,
    after: Seq<Bucket>,
    o0: Seq<Seq<int>>,
    o1: Seq<Seq<int>>,
    a0: Seq<(int, int)>,
    a1: Seq<(int, int)>,
    c: int,
    k: int,
)
    requires
        0 <= c < es.len(),
        0 <= k < before.len(),
        placement(es, before, o0, a0, c),
        first_fit(xs, es, before, o0, a0, c),
        forall|q: int| 0 <= q < before.len() ==> (#[trigger] before[q]).clauses@.len() > 0,
        forall|q: int| 0 <= q < k ==> !fits(xs, es[c], #[trigger] before[q].clauses@),
        after.len() == before.len(),
        forall|q: int| 0 <= q < before.len() && q != k ==> #[trigger] after[q] == before[q],
        after[k].clauses@ == before[k].clauses@.push(after[k].clauses@.last()),
        o1 == o0.update(k, o0[k].push(c)),
        a1 == a0.push((k, before[k].clauses@.len() as int)),
    ensures
        first_fit(xs, es, after, o1, a1, c + 1),
{
    assert forall|i: int, q: int| 0 <= i < c + 1 && 0 <= q < (#[trigger] a1[i]).0 implies #[trigger] passed_over(xs, es[i], after[q], o1[q], i) by {
        if i < c {
            assert(a1[i] == a0[i]);
            assert(passed_over(xs, es[i], before[q], o0[q], i));
            let m = choose|m: int| 0 < m <= before[q].clauses@.len() && (forall|j: int| 0 <= j < m ==> #[trigger] o0[q][j] < i) && (forall|j: int|
                m <= j < before[q].clauses@.len() ==> #[trigger] o0[q][j] > i) && !fits(xs, es[i], #[trigger] before[q].clauses@.subrange(0, m));
            if q == k {
                assert(after[q].clauses@.subrange(0, m) =~= before[q].clauses@.subrange(0, m));
                assert forall|j: int| 0 <= j < m implies #[trigger] o1[q][j] < i by {
                    assert(o1[q][j] == o0[q][j]);
                }
                assert forall|j: int| m <= j < after[q].clauses@.len() implies #[trigger] o1[q][j] > i by {
                    if j < before[q].clauses@.len() {
                        assert(o1[q][j] == o0[q][j]);
                    } else {
                        assert(o1[q][j] == c);
                    }
                }
            } else {
                assert(after[q] == before[q] && o1[q] == o0[q]);
            }
        } else {
            assert(a1[i] == (k, before[k].clauses@.len() as int));
            assert(after[q] == before[q] && o1[q] == o0[q]);
            let m = before[q].clauses@.len() as int;
            assert(before[q].clauses@.subrange(0, m) =~= before[q].clauses@);
            assert forall|j: int| 0 <= j < m implies #[trigger] o1[q][j] < i by {}
        }
    }
}

proof fn lemma_first_fit_new(
    xs: Seq<Clause>,
    es: Seq<Clause>,
    before: Seq<Bucket>,
    after: Seq<Bucket>,
    o0: Seq<Seq<int>>,
    o1: Seq<Seq<int>>,
    a0: Seq<(int, int)>,
    a1: Seq<(int, int)>,
    c: int,
)
    requires
        0 <= c < es.len(),
        placement(es, before, o0, a0, c),
        first_fit(xs, es, before, o0, a0, c),
        forall|q: int| 0 <= q < before.len() ==> (#[trigger] before[q]).clauses@.len() > 0,
        forall|q: int| 0 <= q < before.len() ==> !fits(xs, es[c], #[trigger] before[q].clauses@),
        after.len() == before.len() + 1,
        forall|q: int| 0 <= q < before.len() ==> #[trigger] after[q] == before[q],
        o1 == o0.push(seq![c]),
        a1 == a0.push((before.len() as int, 0int)),
    ensures
        first_fit(xs, es, after, o1, a1, c + 1),
{
    assert forall|i: int, q: int| 0 <= i < c + 1 && 0 <= q < (#[trigger] a1[i]).0 implies #[trigger] passed_over(xs, es[i], after[q], o1[q], i) by {
        if i < c {
            assert(a1[i] == a0[i]);
            assert(q < before.len());
            assert(after[q] == before[q] && o1[q] == o0[q]);
            assert(passed_over(xs, es[i], before[q], o0[q], i));
        } else {
            assert(after[q] == before[q] && o1[q] == o0[q]);
            let m = before[q].clauses@.len() as int;
            assert(before[q].clauses@.subrange(0, m) =~= before[q].clauses@);
            assert forall|j: int| 0 <= j < m implies #[trigger] o1[q][j] < i by {}
        }
    }
}

/// Clause `c` may join a bucket holding `held`: some literal of `c` fits.
pub open spec fn fits(exprs: Seq<Clause>, c: Clause, held: Seq<Clause>) -> bool {
    exists|l: int| 0 <= l < c.literals@.len() && #[trigger] fit_at(exprs, c, held, l)
}

/// When input clause `i` was placed, bucket `b` (whose clauses come from the
/// inputs `orig`) already existed and held clauses into which `i` did not fit.
pub open spec fn passed_over(exprs: Seq<Clause>, c: Clause, b: Bucket, orig: Seq<int>, i: int) -> bool {
    exists|m: int|
        0 < m <= b.clauses@.len() && (forall|j: int| 0 <= j < m ==> #[trigger] orig[j] < i) && (forall|j: int|
            m <= j < b.clauses@.len() ==> #[trigger] orig[j] > i) && !fits(exprs, c, #[trigger] b.clauses@.subrange(0, m))
}

/// Each of the first `n` inputs went to the first bucket it fitted, or
/// opened a new one: every earlier bucket passed it over.
pub open spec fn first_fit(exprs: Seq<Clause>, es: Seq<Clause>, bs: Seq<Bucket>, origin: Seq<Seq<int>>, at: Seq<(int, int)>, n: int) -> bool {
    forall|i: int, q: int| 0 <= i < n && 0 <= q < (#[trigger] at[i]).0 ==> #[trigger] passed_over(exprs, es[i], bs[q], origin[q], i)
}

/// How many variables `v` interacts with.
pub open spec fn interaction_count(cs: Seq<Clause>, v: i32) -> nat {
    Set::new(|w: i32| interacts(cs, v, w)).len()
}

fn vec_has(v: &Vec<i32>, x: i32) -> (r: bool)
    ensures
        r == v@.contains(x),
{
    let mut i: usize = 0;
    while i < v.len()
        invariant
            i <= v@.len(),
            forall|j: int| 0 <= j < i ==> v@[j] != x,
        decreases v@.len() - i,
    {
        if v[i] == x {
            return true;
        }
        i = i + 1;
    }
    false
}

/// Reindexing a sequence by a bijection of its positions keeps its multiset.
proof fn lemma_permutation_of_positions(old: Seq<BddVar>, new: Seq<BddVar>, keyed: Seq<(usize, usize, i32)>)
    requires
        new.len() == keyed.len(),
        keyed.len() == old.len(),
        forall|j: int| 0 <= j < keyed.len() ==> (#[trigger] keyed[j]).1 < old.len(),
        forall|j: int| 0 <= j < new.len() ==> #[trigger] new[j] == old[keyed[j].1 as int],
        forall|a: int, b: int| 0 <= a < b < keyed.len() ==> (#[trigger] keyed[a]).1 != (#[trigger] keyed[b]).1,
    ensures
        new.to_multiset() == old.to_multiset(),
    decreases new.len(),
{
    if new.len() > 0 {
        let n = new.len() - 1;
        let p = keyed[n].1 as int;
        // drop the last entry of `new` and the entry it came from in `old`
        let old2 = old.remove(p);
        let new2 = new.drop_last();
        let keyed2 = Seq::new(n as nat, |j: int| {
            let t = keyed[j];
            (t.0, if t.1 as int > p { (t.1 - 1) as usize } else { t.1 }, t.2)
        });
        assert forall|j: int| 0 <= j < new2.len() implies #[trigger] new2[j] == old2[keyed2[j].1 as int] by {
            assert(keyed[j].1 != keyed[n].1);
            if (keyed[j].1 as int) < p {
                assert(old2[keyed2[j].1 as int] == old[keyed[j].1 as int]);
            } else {
                assert(old2[keyed2[j].1 as int] == old[keyed[j].1 as int]);
            }
        }
        assert forall|j: int| 0 <= j < keyed2.len() implies (#[trigger] keyed2[j]).1 < old2.len() by {
            assert(keyed[j].1 != keyed[n].1);
        }
        assert forall|a: int, b: int| 0 <= a < b < keyed2.len() implies (#[trigger] keyed2[a]).1 != (#[trigger] keyed2[b]).1 by {
            assert(keyed[a].1 != keyed[n].1);
            assert(keyed[b].1 != keyed[n].1);
        }
        lemma_permutation_of_positions(old2, new2, keyed2);
        assert(new =~= new2.push(new[n]));
        assert(new[n] == old[p]);
        vstd::seq_lib::to_multiset_build(new2, new[n]);
        lemma_remove_multiset(old, p);
        assert(new2.to_multiset() == old2.to_multiset());
        assert(new.to_multiset() == new2.to_multiset().insert(new[n]));
        assert(old.to_multiset() == old2.to_multiset().insert(old[p]));
    } else {
        assert(new =~= old);
    }
}

proof fn lemma_remove_multiset(s: Seq<BddVar>, p: int)
    requires
        0 <= p < s.len(),
    ensures
        s.to_multiset() == s.remove(p).to_multiset().insert(s[p]),
{
    let a = s.subrange(0, p);
    let b = s.subrange(p + 1, s.len() as int);
    assert(s =~= a.push(s[p]) + b);
    assert(s.remove(p) =~= a + b);
    vstd::seq_lib::lemma_multiset_commutative(a.push(s[p]), b);
    vstd::seq_lib::lemma_multiset_commutative(a, b);
    vstd::seq_lib::to_multiset_build(a, s[p]);
    assert(s.to_multiset() =~= s.remove(p).to_multiset().insert(s[p]));
}

/// A positive or negative literal on a declared variable whose name is
/// neither the terminal name nor `i32::MIN`.
pub open spec fn proper_literal(e: Expr, variables: Seq<BddVar>) -> bool {
    let n = var_name_of(e);
    &&& (e == Expr::Var(n) || e == Expr::Not(Box::new(Expr::Var(n))))
    &&& n != TERMINAL_NAME
    &&& n != i32::MIN
    &&& exists|i: int| 0 <= i < variables.len() && #[trigger] variables[i].name == n
}

/// Every clause of every bucket is non-empty and made of proper literals.
pub open spec fn buckets_ok(bs: Seq<Bucket>, variables: Seq<BddVar>) -> bool {
    forall|k: int, j: int|
        0 <= k < bs.len() && 0 <= j < bs[k].clauses@.len() ==> (#[trigger] bs[k].clauses@[j]).literals@.len() > 0
            && forall|l: int| 0 <= l < bs[k].clauses@[j].literals@.len() ==> proper_literal(#[trigger] bs[k].clauses@[j].literals@[l], variables)
}

/// The names of the variables are distinct and all ranked.
pub open spec fn variables_ranked(variables: Seq<BddVar>, ordering: Map<i32, usize>) -> bool {
    &&& forall|k: int| 0 <= k < variables.len() ==> ordering.contains_key(#[trigger] variables[k].name)
    &&& forall|a: int, b: int| 0 <= a < b < variables.len() ==> (#[trigger] variables[a]).name != (#[trigger] variables[b]).name
}

/// `d` is a diagram of the conjunction of the first `m` clauses of `cs` (`m >= 1`).
pub open spec fn folded(cs: Seq<Clause>, d: Seq<BddNode>, m: int) -> bool {
    &&& 1 <= m <= cs.len()
    &&& nodes_wf(d)
    &&& forall|s: Set<i32>| #[trigger] denotes(d, s) == all_hold(cs.subrange(0, m), s)
}

/// `c` has the literals of a clause of one of the buckets `bs`.
pub open spec fn from_buckets(bs: Seq<Bucket>, c: Clause) -> bool {
    exists|k: int, j: int|
        0 <= k < bs.len() && 0 <= j < bs[k].clauses@.len() && #[trigger] bs[k].clauses@[j].literals@ == c.literals@
}

/// `d` is the diagram of a non-empty list `cs` of clauses taken from `bs`.
pub open spec fn mined_with(bs: Seq<Bucket>, cs: Seq<Clause>, d: Seq<BddNode>) -> bool {
    &&& cs.len() > 0
    &&& forall|i: int| 0 <= i < cs.len() ==> from_buckets(bs, #[trigger] cs[i])
    &&& folded(cs, d, cs.len() as int)
}

/// `c` is a learned clause of such a diagram.
pub open spec fn mined_by(bs: Seq<Bucket>, cs: Seq<Clause>, d: Seq<BddNode>, c: Seq<i32>) -> bool {
    mined_with(bs, cs, d) && learned_from(d, c)
}

/// `c` is the learned clause of a path from the root to FALSE of a diagram
/// built from clauses of the buckets `bs`.
pub open spec fn mined(bs: Seq<Bucket>, c: Seq<i32>) -> bool {
    exists|cs: Seq<Clause>, d: Seq<BddNode>| #[trigger] mined_by(bs, cs, d, c)
}

/// `d` folds the first `m` clauses of the first bucket, and either it has
/// no path to FALSE or entry `start` of `out` is one of its learned clauses.
pub open spec fn shared_by(cs: Seq<Clause>, out: Seq<Vec<i32>>, start: int, d: Seq<BddNode>, m: int) -> bool {
    &&& folded(cs, d, m)
    &&& (forall|p: Seq<(bool, BddPointer)>| !#[trigger] is_conflict_path(d, p)) || (out.len() > start
        && learned_from(d, out[start]@))
}

/// When the first bucket holds clauses, some diagram of a prefix of them
/// was mined and, if it has a path to FALSE, one of its learned clauses was
/// forwarded first.
pub open spec fn first_bucket_shared(cs: Seq<Clause>, out: Seq<Vec<i32>>, start: int) -> bool {
    cs.len() > 0 ==> exists|d: Seq<BddNode>, m: int| #[trigger] shared_by(cs, out, start, d, m)
}

/// Node count above which a bucket's diagram is reordered and the bucket split.
pub const BUCKET_THRESHOLD: usize = 30;

proof fn lemma_same_names(a: Seq<BddVar>, b: Seq<BddVar>)
    requires
        a == b || a.to_multiset() == b.to_multiset(),
    ensures
        forall|v: BddVar| a.contains(v) <==> b.contains(v),
{
    a.to_multiset_ensures();
    b.to_multiset_ensures();
    assert forall|v: BddVar| a.contains(v) <==> b.contains(v) by {
        if a != b {
            assert(a.to_multiset().count(v) == b.to_multiset().count(v));
        }
    }
}

proof fn lemma_proper_kept(e: Expr, a: Seq<BddVar>, b: Seq<BddVar>)
    requires
        proper_literal(e, a),
        forall|v: BddVar| a.contains(v) <==> b.contains(v),
    ensures
        proper_literal(e, b),
{
    let n = var_name_of(e);
    let i = choose|i: int| 0 <= i < a.len() && #[trigger] a[i].name == n;
    assert(a.contains(a[i]));
    let j = choose|j: int| 0 <= j < b.len() && b[j] == a[i];
    assert(b[j].name == n);
}


/// How many of the first `n` clauses hold at least one literal.
pub open spec fn count_nonempty(cs: Seq<Clause>, n: int) -> int
    decreases n,
{
    if n <= 0 {
        0
    } else {
        count_nonempty(cs, n - 1) + if cs[n - 1].literals@.len() > 0 {
            1int
        } else {
            0int
        }
    }
}


/// The number of clauses held by all buckets together.
pub open spec fn total_clauses(bs: Seq<Bucket>) -> int
    decreases bs.len(),
{
    if bs.len() == 0 {
        0
    } else {
        total_clauses(bs.drop_last()) + bs.last().clauses@.len()
    }
}

proof fn lemma_total_nonneg(bs: Seq<Bucket>)
    ensures
        total_clauses(bs) >= 0,
    decreases bs.len(),
{
    if bs.len() > 0 {
        lemma_total_nonneg(bs.drop_last());
    }
}

proof fn lemma_total_push(bs: Seq<Bucket>, b: Bucket)
    ensures
        total_clauses(bs.push(b)) == total_clauses(bs) + b.clauses@.len(),
{
    assert(bs.push(b).drop_last() =~= bs);
}

proof fn lemma_total_update(bs: Seq<Bucket>, k: int, b: Bucket)
    requires
        0 <= k < bs.len(),
    ensures
        total_clauses(bs.update(k, b)) == total_clauses(bs) - bs[k].clauses@.len() + b.clauses@.len(),
    decreases bs.len(),
{
    if k < bs.len() - 1 {
        assert(bs.update(k, b).drop_last() =~= bs.drop_last().update(k, b));
        lemma_total_update(bs.drop_last(), k, b);
    } else {
        assert(bs.update(k, b).drop_last() =~= bs.drop_last());
    }
}

proof fn lemma_total_remove_first(bs: Seq<Bucket>)
    requires
        bs.len() > 0,
    ensures
        total_clauses(bs) == bs[0].clauses@.len() + total_clauses(bs.subrange(1, bs.len() as int)),
    decreases bs.len(),
{
    if bs.len() > 1 {
        lemma_total_remove_first(bs.drop_last());
        assert(bs.drop_last().subrange(1, bs.len() - 1) =~= bs.subrange(1, bs.len() as int).drop_last());
    } else {
        assert(bs.subrange(1, 1) =~= Seq::<Bucket>::empty());
        assert(bs.drop_last() =~= Seq::<Bucket>::empty());
    }
}

proof fn lemma_total_append(a: Seq<Bucket>, b: Seq<Bucket>)
    ensures
        total_clauses(a + b) == total_clauses(a) + total_clauses(b),
    decreases b.len(),
{
    if b.len() == 0 {
        assert(a + b =~= a);
    } else {
        lemma_total_append(a, b.drop_last());
        assert((a + b).drop_last() =~= a + b.drop_last());
    }
}

/// Folding two logically equivalent clause lists gives diagrams that compute
/// the same function. (This states equality of functions; equality of the two
/// node sets is not claimed.)
pub proof fn lemma_equivalent_clause_lists(
    c1: Seq<Clause>,
    c2: Seq<Clause>,
    d1: Seq<crate::bdd_util::BddNode>,
    d2: Seq<crate::bdd_util::BddNode>,
)
    requires
        forall|s: Set<i32>| #[trigger] all_hold(c1, s) == all_hold(c2, s),
        forall|s: Set<i32>| #[trigger] denotes(d1, s) == all_hold(c1, s),
        forall|s: Set<i32>| #[trigger] denotes(d2, s) == all_hold(c2, s),
    ensures
        forall|s: Set<i32>| #[trigger] denotes(d1, s) == denotes(d2, s),
{
    assert forall|s: Set<i32>| #[trigger] denotes(d1, s) == denotes(d2, s) by {
        assert(denotes(d1, s) == all_hold(c1, s));
        assert(denotes(d2, s) == all_hold(c2, s));
        assert(all_hold(c1, s) == all_hold(c2, s));
    }
}

/// Relies on rayon's par_sort_by_key with the key `Reverse(score)`: a stable
/// sort, so the entries come out by decreasing score and, among equal scores,
/// in their input order (here the order of the position field).
#[verifier::external_body]
fn sort_by_interactions(v: &mut Vec<(usize, usize, i32)>)
    requires
        forall|a: int, b: int| 0 <= a < b < old(v)@.len() ==> (#[trigger] old(v)@[a]).1 < (#[trigger] old(v)@[b]).1,
    ensures
        final(v)@.to_multiset() == old(v)@.to_multiset(),
        forall|a: int, b: int| 0 <= a < b < final(v)@.len() ==> before_in_interaction_order(#[trigger] final(v)@[a], #[trigger] final(v)@[b]),
{
    v.par_sort_by_key(|x| std::cmp::Reverse(x.0))
}

impl BddVarOrdering {
    /// Build the ordering of a problem from its clause statistics.
    pub fn new(dimacs: Dimacs) -> (r: BddVarOrdering)
        requires
            dimacs.var_names@.no_duplicates(),
            forall|k: int| 0 <= k < dimacs.vars_scores@.len() ==> (#[trigger] dimacs.vars_scores@[k]).1.arity_sum > 0
                && dimacs.vars_scores@[k].0 != TERMINAL_NAME,
            forall|a: int, b: int| 0 <= a < b < dimacs.vars_scores@.len() ==> (#[trigger] dimacs.vars_scores@[a]).0 != (#[trigger] dimacs.vars_scores@[b]).0,
        ensures
            r.variables@.len() == dimacs.var_names@.len(),
            forall|k: int| 0 <= k < r.variables@.len() ==> (#[trigger] r.variables@[k]).name == dimacs.var_names@[k],
            r.expressions@ == dimacs.expressions@,
            r.ordering@.contains_key(TERMINAL_NAME),
            r.ordering@[TERMINAL_NAME] == dimacs.vars_scores@.len(),
            forall|k: int| 0 <= k < dimacs.vars_scores@.len() ==> r.ordering@.contains_key(#[trigger] dimacs.vars_scores@[k].0)
                && r.ordering@[dimacs.vars_scores@[k].0] < dimacs.vars_scores@.len(),
            forall|a: int, b: int| 0 <= a < dimacs.vars_scores@.len() && 0 <= b < dimacs.vars_scores@.len()
                && r.ordering@[(#[trigger] dimacs.vars_scores@[a]).0] < r.ordering@[(#[trigger] dimacs.vars_scores@[b]).0]
                ==> score_ge(dimacs.vars_scores@[a].1, dimacs.vars_scores@[b].1),
            ranks_distinct(r.ordering@),
    {
        let mut builder = BddVarOrderingBuilder::new();
        builder.make(dimacs)
    }

    /// The diagram of all clauses: each clause's diagram folded in with AND,
    /// left to right. No clause gives the constant TRUE.
    pub fn build_bdd(&self) -> (r: Bdd)
        requires
            clauses_declared(self.expressions@, self.variables@),
        ensures
            nodes_wf(r.nodes@),
            nodes_reduced(r.nodes@),
            nodes_distinct(r.nodes@),
            ranks_distinct(self.ordering@) && literals_ranked(self.expressions@, self.ordering@) ==> nodes_ordered(
                r.nodes@,
                self.ordering@,
            ) && vars_ranked(r.nodes@, self.ordering@),
            forall|s: Set<i32>| #[trigger] denotes(r.nodes@, s) == all_hold(self.expressions@, s),
    {
        let mut bdd = Bdd::new_true();
        let mut n: usize = 0;
        while n < self.expressions.len()
            invariant
                n <= self.expressions@.len(),
                clauses_declared(self.expressions@, self.variables@),
                nodes_wf(bdd.nodes@),
                nodes_reduced(bdd.nodes@),
                nodes_distinct(bdd.nodes@),
                ranks_distinct(self.ordering@) && literals_ranked(self.expressions@, self.ordering@) ==> nodes_ordered(
                    bdd.nodes@,
                    self.ordering@,
                ) && vars_ranked(bdd.nodes@, self.ordering@),
                forall|s: Set<i32>| #[trigger] denotes(bdd.nodes@, s) == all_hold(self.expressions@.subrange(0, n as int), s),
            decreases self.expressions@.len() - n,
        {
            let c = &self.expressions[n];
            assert forall|j: int| 0 <= j < c.literals@.len() implies vars_declared(#[trigger] c.literals@[j], self.variables@) by {
                assert(vars_declared(self.expressions@[n as int].literals@[j], self.variables@));
            }
            proof {
                if literals_ranked(self.expressions@, self.ordering@) {
                    assert forall|k: int| 0 <= k < c.literals@.len() implies expr_ranked(#[trigger] c.literals@[k], self.ordering@) by {
                        assert(expr_ranked(self.expressions@[n as int].literals@[k], self.ordering@));
                    }
                }
            }
            let temp_bdd = c.to_bdd(&self.variables, &self.ordering);
            let next = bdd.and(&temp_bdd, &self.ordering);
            proof {
                assert forall|s: Set<i32>| #[trigger] denotes(next.nodes@, s) == all_hold(self.expressions@.subrange(0, n + 1), s) by {
                    let pre = self.expressions@.subrange(0, n as int);
                    let cur = self.expressions@.subrange(0, n + 1);
                    assert(cur[n as int] == self.expressions@[n as int]);
                    if all_hold(cur, s) {
                        assert forall|i: int| 0 <= i < pre.len() implies clause_value(#[trigger] pre[i].literals@, s) by {
                            assert(pre[i] == cur[i]);
                        }
                    }
                    if all_hold(pre, s) && clause_value(c.literals@, s) {
                        assert forall|i: int| 0 <= i < cur.len() implies clause_value(#[trigger] cur[i].literals@, s) by {
                            if i < n {
                                assert(pre[i] == cur[i]);
                            }
                        }
                    }
                }
            }
            bdd = next;
            n = n + 1;
        }
        assert(self.expressions@.subrange(0, self.expressions@.len() as int) =~= self.expressions@);
        bdd
    }

    /// Make the ranks the positions in `variables`; the variables whose rank
    /// changed come back in order.
    pub fn update_ordering(&mut self) -> (r: Vec<BddVar>)
        requires
            forall|k: int| 0 <= k < old(self).variables@.len() ==> old(self).ordering@.contains_key(#[trigger] old(self).variables@[k].name),
            forall|a: int, b: int| 0 <= a < b < old(self).variables@.len() ==> (#[trigger] old(self).variables@[a]).name != (#[trigger] old(self).variables@[b]).name,
        ensures
            final(self).variables@ == old(self).variables@,
            final(self).expressions@ == old(self).expressions@,
            forall|v: i32| #[trigger] final(self).ordering@.contains_key(v) <==> exists|k: int|
                0 <= k < old(self).variables@.len() && old(self).variables@[k].name == v,
            forall|k: int| 0 <= k < old(self).variables@.len() ==> final(self).ordering@[(#[trigger] old(self).variables@[k]).name] == k,
            r@ == moved_upto(old(self).variables@, old(self).ordering@, old(self).variables@.len() as int),
    {
        let mut new_ordering: HashMap<i32, usize> = HashMap::new();
        let mut affected_variables: Vec<BddVar> = Vec::new();
        let mut k: usize = 0;
        while k < self.variables.len()
            invariant
                self.variables@ == old(self).variables@,
                self.ordering@ == old(self).ordering@,
                forall|j: int| 0 <= j < self.variables@.len() ==> self.ordering@.contains_key(#[trigger] self.variables@[j].name),
                forall|a: int, b: int| 0 <= a < b < self.variables@.len() ==> (#[trigger] self.variables@[a]).name != (#[trigger] self.variables@[b]).name,
                k <= self.variables@.len(),
                forall|v: i32| #[trigger] new_ordering@.contains_key(v) <==> exists|j: int| 0 <= j < k && self.variables@[j].name == v,
                forall|j: int| 0 <= j < k ==> new_ordering@[(#[trigger] self.variables@[j]).name] == j,
                affected_variables@ == moved_upto(self.variables@, self.ordering@, k as int),
            decreases self.variables@.len() - k,
        {
            let var = self.variables[k];
            let old_pos = *self.ordering.get(&var.name).unwrap();
            if old_pos != k {
                affected_variables.push(var);
            }
            new_ordering.insert(var.name, k);
            proof {
                assert forall|j: int| 0 <= j < k + 1 implies new_ordering@[(#[trigger] self.variables@[j]).name] == j by {
                    if j < k {
                        assert(self.variables@[j].name != var.name);
                    }
                }
                assert forall|v: i32| #[trigger] new_ordering@.contains_key(v) <==> exists|j: int| 0 <= j < k + 1 && self.variables@[j].name == v by {
                    if v == var.name {
                        assert(self.variables@[k as int].name == v);
                    }
                }
            }
            k = k + 1;
        }
        self.ordering = new_ordering;
        affected_variables
    }

    /// For every variable of the clauses, the variables it shares a clause
    /// with through another literal (each listed once).
    pub fn find_interacting_variables(&self) -> (r: HashMap<i32, Vec<i32>>)
        ensures
            forall|v: i32| #[trigger] r@.contains_key(v) <==> mentioned(self.expressions@, v),
            forall|v: i32, w: i32| #![trigger r@[v]@.contains(w)] #![trigger interacts(self.expressions@, v, w)] r@.contains_key(v) ==> (r@[v]@.contains(w) <==> interacts(self.expressions@, v, w)),
            forall|v: i32| #[trigger] r@.contains_key(v) ==> r@[v]@.no_duplicates(),
    {
        let ghost cs = self.expressions@;
        let mut m: HashMap<i32, Vec<i32>> = HashMap::new();
        let mut c: usize = 0;
        while c < self.expressions.len()
            invariant
                cs == self.expressions@,
                c <= cs.len(),
                forall|v: i32| #[trigger] m@.contains_key(v) <==> exists|cc: int, l: int|
                    0 <= cc < c && 0 <= l < cs[cc].literals@.len() && var_name_of(#[trigger] cs[cc].literals@[l]) == v,
                forall|v: i32, w: i32| m@.contains_key(v) ==> (#[trigger] m@[v]@.contains(w) <==> exists|cc: int, l1: int, l2: int|
                    #[trigger] interacts_at(cs, v, w, cc, l1, l2) && cc < c),
                forall|v: i32| #[trigger] m@.contains_key(v) ==> m@[v]@.no_duplicates(),
            decreases cs.len() - c,
        {
            let clause = &self.expressions[c];
            let mut l1: usize = 0;
            while l1 < clause.literals.len()
                invariant
                    cs == self.expressions@,
                    c < cs.len(),
                    *clause == cs[c as int],
                    l1 <= clause.literals@.len(),
                    forall|v: i32| #[trigger] m@.contains_key(v) <==> exists|cc: int, l: int|
                        0 <= cc < cs.len() && 0 <= l < cs[cc].literals@.len() && var_name_of(#[trigger] cs[cc].literals@[l]) == v
                        && (cc < c || (cc == c && l < l1)),
                    forall|v: i32, w: i32| m@.contains_key(v) ==> (#[trigger] m@[v]@.contains(w) <==> exists|cc: int, a: int, b: int|
                        #[trigger] interacts_at(cs, v, w, cc, a, b) && lex_before(cc, a, b, c as int, l1 as int, 0)),
                    forall|v: i32| #[trigger] m@.contains_key(v) ==> m@[v]@.no_duplicates(),
                decreases clause.literals@.len() - l1,
            {
                let lit = &clause.literals[l1];
                let v = lit.get_var_name();
                let mut set: Vec<i32> = match m.remove(&v) {
                    Some(x) => x,
                    None => Vec::new(),
                };
                let ghost m0 = m@;
                let mut l2: usize = 0;
                while l2 < clause.literals.len()
                    invariant
                        cs == self.expressions@,
                        c < cs.len(),
                        *clause == cs[c as int],
                        l1 < clause.literals@.len(),
                        *lit == clause.literals@[l1 as int],
                        v == var_name_of(*lit),
                        l2 <= clause.literals@.len(),
                        set@.no_duplicates(),
                        forall|w: i32| set@.contains(w) <==> exists|cc: int, a: int, b: int|
                            #[trigger] interacts_at(cs, v, w, cc, a, b) && lex_before(cc, a, b, c as int, l1 as int, l2 as int),
                    decreases clause.literals@.len() - l2,
                {
                    let other = &clause.literals[l2];
                    let ghost before = set@;
                    if !other.eq(lit) {
                        let w = other.get_var_name();
                        if !vec_has(&set, w) {
                            set.push(w);
                        }
                        proof {
                            assert(interacts_at(cs, v, w, c as int, l1 as int, l2 as int));
                        }
                    }
                    proof {
                        assert forall|w: i32| set@.contains(w) <==> exists|cc: int, a: int, b: int|
                            #[trigger] interacts_at(cs, v, w, cc, a, b) && lex_before(cc, a, b, c as int, l1 as int, l2 + 1) by {
                            if set@.contains(w) && !before.contains(w) {
                                let k = choose|k: int| 0 <= k < set@.len() && set@[k] == w;
                                if k < before.len() {
                                    assert(before[k] == w);
                                }
                                assert(interacts_at(cs, v, w, c as int, l1 as int, l2 as int));
                            }
                            if before.contains(w) {
                                let k = choose|k: int| 0 <= k < before.len() && before[k] == w;
                                assert(set@[k] == w);
                            }
                            if exists|cc: int, a: int, b: int| #[trigger] interacts_at(cs, v, w, cc, a, b) && lex_before(cc, a, b, c as int, l1 as int, l2 + 1) {
                                let (cc, a, b) = choose|cc: int, a: int, b: int| #[trigger] interacts_at(cs, v, w, cc, a, b) && lex_before(cc, a, b, c as int, l1 as int, l2 + 1);
                                if !lex_before(cc, a, b, c as int, l1 as int, l2 as int) {
                                    assert(cc == c && a == l1 && b == l2);
                                    if !before.contains(w) {
                                        assert(set@[set@.len() - 1] == w);
                                    }
                                }
                            }
                        }
                        assert(set@.no_duplicates()) by {
                            assert forall|a: int, b: int| 0 <= a < b < set@.len() implies set@[a] != set@[b] by {
                                if b >= before.len() {
                                    assert(before.contains(set@[a]) || a >= before.len());
                                }
                            }
                        }
                    }
                    l2 = l2 + 1;
                }
                m.insert(v, set);
                proof {
                    assert forall|x: i32| #[trigger] m@.contains_key(x) <==> exists|cc: int, l: int|
                        0 <= cc < cs.len() && 0 <= l < cs[cc].literals@.len() && var_name_of(#[trigger] cs[cc].literals@[l]) == x
                        && (cc < c || (cc == c && l < l1 + 1)) by {
                        if x == v {
                            assert(var_name_of(cs[c as int].literals@[l1 as int]) == x);
                        }
                    }
                    assert forall|x: i32, w: i32| m@.contains_key(x) implies (#[trigger] m@[x]@.contains(w) <==> exists|cc: int, a: int, b: int|
                        #[trigger] interacts_at(cs, x, w, cc, a, b) && lex_before(cc, a, b, c as int, l1 + 1, 0)) by {
                        if x == v {
                            if exists|cc: int, a: int, b: int| #[trigger] interacts_at(cs, x, w, cc, a, b) && lex_before(cc, a, b, c as int, l1 + 1, 0) {
                                let (cc, a, b) = choose|cc: int, a: int, b: int| #[trigger] interacts_at(cs, x, w, cc, a, b) && lex_before(cc, a, b, c as int, l1 + 1, 0);
                                if !lex_before(cc, a, b, c as int, l1 as int, clause.literals@.len() as int) {
                                    assert(b < cs[cc].literals@.len());
                                }
                            }
                        } else {
                            assert(m0.contains_key(x));
                            if exists|cc: int, a: int, b: int| #[trigger] interacts_at(cs, x, w, cc, a, b) && lex_before(cc, a, b, c as int, l1 + 1, 0) {
                                let (cc, a, b) = choose|cc: int, a: int, b: int| #[trigger] interacts_at(cs, x, w, cc, a, b) && lex_before(cc, a, b, c as int, l1 + 1, 0);
                                if cc == c && a == l1 {
                                    assert(var_name_of(cs[cc].literals@[a]) == v);
                                }
                            }
                        }
                    }
                }
                l1 = l1 + 1;
            }
            proof {
                assert forall|x: i32| #[trigger] m@.contains_key(x) <==> exists|cc: int, l: int|
                    0 <= cc < c + 1 && 0 <= l < cs[cc].literals@.len() && var_name_of(#[trigger] cs[cc].literals@[l]) == x by {
                    if exists|cc: int, l: int| 0 <= cc < c + 1 && 0 <= l < cs[cc].literals@.len() && var_name_of(#[trigger] cs[cc].literals@[l]) == x {
                        let (cc, l) = choose|cc: int, l: int| 0 <= cc < c + 1 && 0 <= l < cs[cc].literals@.len() && var_name_of(#[trigger] cs[cc].literals@[l]) == x;
                    }
                }
                assert forall|x: i32, w: i32| m@.contains_key(x) implies (#[trigger] m@[x]@.contains(w) <==> exists|cc: int, a: int, b: int|
                    #[trigger] interacts_at(cs, x, w, cc, a, b) && cc < c + 1) by {
                    if exists|cc: int, a: int, b: int| #[trigger] interacts_at(cs, x, w, cc, a, b) && cc < c + 1 {
                        let (cc, a, b) = choose|cc: int, a: int, b: int| #[trigger] interacts_at(cs, x, w, cc, a, b) && cc < c + 1;
                        assert(lex_before(cc, a, b, c as int, l1 as int, 0));
                    }
                    if exists|cc: int, a: int, b: int| #[trigger] interacts_at(cs, x, w, cc, a, b) && lex_before(cc, a, b, c as int, l1 as int, 0) {
                        let (cc, a, b) = choose|cc: int, a: int, b: int| #[trigger] interacts_at(cs, x, w, cc, a, b) && lex_before(cc, a, b, c as int, l1 as int, 0);
                        assert(cc < c + 1);
                    }
                }
            }
            c = c + 1;
        }
        proof {
            assert forall|x: i32, w: i32| m@.contains_key(x) implies (#[trigger] m@[x]@.contains(w) <==> interacts(cs, x, w)) by {
                if interacts(cs, x, w) {
                    let (cc, a, b) = choose|cc: int, a: int, b: int| #[trigger] interacts_at(cs, x, w, cc, a, b);
                    assert(cc < c);
                }
            }
        }
        m
    }

    /// Re-rank the variables by how many other variables each one interacts
    /// with, most first (ties keep their order); the ranks become positions.
    /// The variables whose rank changed come back in order.
    pub fn create_interaction_based_ordering(&mut self) -> (r: Vec<BddVar>)
        requires
            forall|k: int| 0 <= k < old(self).variables@.len() ==> old(self).ordering@.contains_key(#[trigger] old(self).variables@[k].name),
            forall|a: int, b: int| 0 <= a < b < old(self).variables@.len() ==> (#[trigger] old(self).variables@[a]).name != (#[trigger] old(self).variables@[b]).name,
        ensures
            final(self).expressions@ == old(self).expressions@,
            final(self).variables@.to_multiset() == old(self).variables@.to_multiset(),
            forall|a: int, b: int| 0 <= a < b < final(self).variables@.len() ==> interaction_count(old(self).expressions@, (#[trigger] final(self).variables@[a]).name)
                >= interaction_count(old(self).expressions@, (#[trigger] final(self).variables@[b]).name),
            forall|k: int| 0 <= k < final(self).variables@.len() ==> final(self).ordering@[(#[trigger] final(self).variables@[k]).name] == k,
            forall|v: i32| #[trigger] final(self).ordering@.contains_key(v) <==> exists|k: int|
                0 <= k < final(self).variables@.len() && final(self).variables@[k].name == v,
            r@ == moved_upto(final(self).variables@, old(self).ordering@, final(self).variables@.len() as int),
    {
        let interactions = self.find_interacting_variables();
        let ghost cs = self.expressions@;
        let mut keyed: Vec<(usize, usize, i32)> = Vec::new();
        let mut k: usize = 0;
        while k < self.variables.len()
            invariant
                cs == self.expressions@,
                self.variables@ == old(self).variables@,
                k <= self.variables@.len(),
                keyed@.len() == k,
                forall|v: i32| #[trigger] interactions@.contains_key(v) <==> mentioned(cs, v),
                forall|v: i32, w: i32| #![trigger interactions@[v]@.contains(w)] #![trigger interacts(cs, v, w)] interactions@.contains_key(v) ==> (interactions@[v]@.contains(w) <==> interacts(cs, v, w)),
                forall|v: i32| #[trigger] interactions@.contains_key(v) ==> interactions@[v]@.no_duplicates(),
                forall|j: int| 0 <= j < k ==> (#[trigger] keyed@[j]).1 == j && keyed@[j].2 == self.variables@[j].name
                    && keyed@[j].0 == interaction_count(cs, keyed@[j].2),
            decreases self.variables@.len() - k,
        {
            let name = self.variables[k].name;
            let score = match interactions.get(&name) {
                Some(set) => set.len(),
                None => 0,
            };
            proof {
                if interactions@.contains_key(name) {
                    let set = interactions@[name]@;
                    set.unique_seq_to_set();
                    assert(set.to_set() =~= Set::new(|w: i32| interacts(cs, name, w)));
                } else {
                    assert(Set::new(|w: i32| interacts(cs, name, w)) =~= Set::<i32>::empty()) by {
                        assert forall|w: i32| !interacts(cs, name, w) by {
                            if interacts(cs, name, w) {
                                let (c, a, b) = choose|c: int, a: int, b: int| #[trigger] interacts_at(cs, name, w, c, a, b);
                                assert(mentioned(cs, name)) by {
                                    assert(var_name_of(cs[c].literals@[a]) == name);
                                }
                            }
                        }
                    }
                }
            }
            keyed.push((score, k, name));
            k = k + 1;
        }
        let ghost before_sort = keyed@;
        sort_by_interactions(&mut keyed);
        let mut sorted: Vec<BddVar> = Vec::new();
        let mut q: usize = 0;
        while q < keyed.len()
            invariant
                q <= keyed@.len(),
                sorted@.len() == q,
                forall|j: int| 0 <= j < q ==> (#[trigger] sorted@[j]).name == keyed@[j].2,
            decreases keyed@.len() - q,
        {
            sorted.push(BddVar::new(keyed[q].2));
            q = q + 1;
        }
        proof {
            before_sort.to_multiset_ensures();
            keyed@.to_multiset_ensures();
            assert(keyed@.len() == before_sort.len());
            // each sorted entry came from one position of the old list
            assert forall|j: int| 0 <= j < keyed@.len() implies #[trigger] sorted@[j] == old(self).variables@[keyed@[j].1 as int]
                && keyed@[j].0 == interaction_count(cs, keyed@[j].2) && keyed@[j].1 < before_sort.len()
                && keyed@[j] == before_sort[keyed@[j].1 as int] by {
                assert(keyed@.contains(keyed@[j]));
                assert(keyed@.to_multiset().count(keyed@[j]) > 0);
                assert(before_sort.to_multiset().count(keyed@[j]) > 0);
                assert(before_sort.contains(keyed@[j]));
                let i = choose|i: int| 0 <= i < before_sort.len() && before_sort[i] == keyed@[j];
                assert(before_sort[i].1 == i);
            }
            // positions are distinct, so the new list is a permutation of the old one
            assert forall|a: int, b: int| 0 <= a < b < keyed@.len() implies (#[trigger] keyed@[a]).1 != (#[trigger] keyed@[b]).1 by {
                assert(before_in_interaction_order(keyed@[a], keyed@[b]));
                assert(sorted@[a] == old(self).variables@[keyed@[a].1 as int]);
                assert(sorted@[b] == old(self).variables@[keyed@[b].1 as int]);
                assert(keyed@[a] == before_sort[keyed@[a].1 as int]);
                assert(keyed@[b] == before_sort[keyed@[b].1 as int]);
            }
            assert forall|j: int| 0 <= j < keyed@.len() implies (#[trigger] keyed@[j]).1 < old(self).variables@.len() by {
                assert(sorted@[j] == old(self).variables@[keyed@[j].1 as int]);
            }
        }
        proof {
            lemma_permutation_of_positions(old(self).variables@, sorted@, keyed@);
        }
        self.variables = sorted;
        proof {
            assert forall|a: int, b: int| 0 <= a < b < self.variables@.len() implies (#[trigger] self.variables@[a]).name != (#[trigger] self.variables@[b]).name by {
                assert(keyed@[a].1 != keyed@[b].1);
                assert(keyed@[a].1 < old(self).variables@.len());
                assert(keyed@[b].1 < old(self).variables@.len());
                assert(sorted@[a] == old(self).variables@[keyed@[a].1 as int]);
                assert(sorted@[b] == old(self).variables@[keyed@[b].1 as int]);
                let pa = keyed@[a].1 as int;
                let pb = keyed@[b].1 as int;
                if pa < pb {
                    assert(old(self).variables@[pa].name != old(self).variables@[pb].name);
                } else {
                    assert(old(self).variables@[pb].name != old(self).variables@[pa].name);
                }
            }
            assert forall|j: int| 0 <= j < self.variables@.len() implies self.ordering@.contains_key(#[trigger] self.variables@[j].name) by {
                assert(keyed@[j].1 < old(self).variables@.len());
                assert(sorted@[j] == old(self).variables@[keyed@[j].1 as int]);
            }
            assert forall|a: int, b: int| 0 <= a < b < self.variables@.len() implies interaction_count(cs, (#[trigger] self.variables@[a]).name)
                >= interaction_count(cs, (#[trigger] self.variables@[b]).name) by {
                assert(before_in_interaction_order(keyed@[a], keyed@[b]));
            }
        }
        self.update_ordering()
    }

    /// Group the clauses into buckets keyed by each clause's variable of
    /// highest rank (smallest rank number); the buckets come sorted by the rank of their key.
    #[verifier::rlimit(100)]
    #[verifier::spinoff_prover]
    pub fn group_clauses_into_buckets(&mut self) -> (r: Vec<Bucket>)
        requires
            clauses_ranked(old(self).expressions@, old(self).ordering@),
        ensures
            final(self).expressions@ == old(self).expressions@,
            final(self).ordering@ == old(self).ordering@,
            final(self).variables@ == old(self).variables@,
            forall|k: int| 0 <= k < r@.len() ==> old(self).ordering@.contains_key((#[trigger] r@[k]).index),
            forall|a: int, b: int| 0 <= a < b < r@.len() ==> rank_of(old(self).ordering@, (#[trigger] r@[a]).index) <= rank_of(old(self).ordering@, (#[trigger] r@[b]).index),
            forall|a: int, b: int| 0 <= a < b < r@.len() ==> (#[trigger] r@[a]).index != (#[trigger] r@[b]).index,
            forall|k: int, j: int| 0 <= k < r@.len() && 0 <= j < r@[k].clauses@.len() ==> has_clause(old(self).expressions@, #[trigger] r@[k].clauses@[j])
                && highest_var(r@[k].clauses@[j], old(self).ordering@, r@[k].index),
            total_clauses(r@) == count_nonempty(old(self).expressions@, old(self).expressions@.len() as int),
            forall|k: int| 0 <= k < r@.len() ==> lits_of((#[trigger] r@[k]).clauses@) == with_pivot(
                old(self).expressions@,
                old(self).ordering@,
                r@[k].index,
                old(self).expressions@.len() as int,
            ),
            forall|v: i32| !is_key(r@, v) ==> #[trigger] with_pivot(
                old(self).expressions@,
                old(self).ordering@,
                v,
                old(self).expressions@.len() as int,
            ).len() == 0,
    {
        let ghost ord = self.ordering@;
        let ghost cs = self.expressions@;
        let mut buckets: Vec<Bucket> = Vec::new();
        let mut c: usize = 0;
        while c < self.expressions.len()
            invariant
                ord == self.ordering@,
                cs == self.expressions@,
                clauses_ranked(cs, ord),
                c <= cs.len(),
                forall|k: int| 0 <= k < buckets@.len() ==> ord.contains_key((#[trigger] buckets@[k]).index),
                forall|a: int, b: int| 0 <= a < b < buckets@.len() ==> rank_of(ord, (#[trigger] buckets@[a]).index) <= rank_of(ord, (#[trigger] buckets@[b]).index),
                forall|a: int, b: int| 0 <= a < b < buckets@.len() ==> (#[trigger] buckets@[a]).index != (#[trigger] buckets@[b]).index,
                forall|k: int, j: int| 0 <= k < buckets@.len() && 0 <= j < buckets@[k].clauses@.len() ==> has_clause(cs, #[trigger] buckets@[k].clauses@[j])
                    && highest_var(buckets@[k].clauses@[j], ord, buckets@[k].index),
                total_clauses(buckets@) == count_nonempty(cs, c as int),
                forall|k: int| 0 <= k < buckets@.len() ==> lits_of((#[trigger] buckets@[k]).clauses@) == with_pivot(cs, ord, buckets@[k].index, c as int),
                forall|v: i32| !is_key(buckets@, v) ==> #[trigger] with_pivot(cs, ord, v, c as int).len() == 0,
            decreases cs.len() - c,
        {
            let clause = &self.expressions[c];
            let ghost bs_pre = buckets@;
            proof {
                assert forall|i: int| 0 <= i < clause.literals@.len() implies ord.contains_key(var_name_of(#[trigger] clause.literals@[i])) by {
                    assert(ord.contains_key(var_name_of(cs[c as int].literals@[i])));
                }
            }
            let hv = clause.get_highest_scored_var(&self.ordering);
            match hv {
                None => {
                    proof {
                        assert forall|w: i32| #[trigger] with_pivot(cs, ord, w, c + 1) == with_pivot(cs, ord, w, c as int) by {
                            assert(!highest_var(cs[c as int], ord, w));
                            assert(with_pivot(cs, ord, w, c as int) + Seq::<Seq<Expr>>::empty() =~= with_pivot(cs, ord, w, c as int));
                        }
                        assert forall|k: int| 0 <= k < buckets@.len() implies lits_of((#[trigger] buckets@[k]).clauses@) == with_pivot(cs, ord, buckets@[k].index, c + 1) by {
                            assert(with_pivot(cs, ord, buckets@[k].index, c + 1) == with_pivot(cs, ord, buckets@[k].index, c as int));
                        }
                        assert forall|w: i32| !is_key(buckets@, w) implies #[trigger] with_pivot(cs, ord, w, c + 1).len() == 0 by {
                            assert(with_pivot(cs, ord, w, c + 1) == with_pivot(cs, ord, w, c as int));
                        }
                    }
                },
                Some(v) => {
                    proof {
                        assert(highest_var(cs[c as int], ord, v));
                        assert forall|w: i32| #[trigger] with_pivot(cs, ord, w, c + 1) == with_pivot(cs, ord, w, c as int) + if w == v {
                            seq![cs[c as int].literals@]
                        } else {
                            seq![]
                        } by {
                            lemma_with_pivot_step(cs, ord, c as int, v, w);
                        }
                    }
                    proof {
                        let i = choose|i: int| last_highest(clause.literals@, ord, i) && v == var_name_of(clause.literals@[i]);
                        assert(ord.contains_key(var_name_of(clause.literals@[i])));
                    }
                    let mut k: usize = 0;
                    while k < buckets.len() && buckets[k].index != v
                        invariant
                            k <= buckets@.len(),
                            forall|j: int| 0 <= j < k ==> (#[trigger] buckets@[j]).index != v,
                        decreases buckets@.len() - k,
                    {
                        k = k + 1;
                    }
                    let copy = clause.clone();
                    let ghost before = buckets@;
                    if k < buckets.len() {
                        let mut b = buckets.remove(k);
                        b.clauses.push(copy);
                        buckets.insert(k, b);
                        proof {
                            assert(buckets@ =~= before.update(k as int, b));
                            lemma_total_update(before, k as int, b);
                            assert forall|a: int, j: int| 0 <= a < buckets@.len() && 0 <= j < buckets@[a].clauses@.len() implies has_clause(cs, #[trigger] buckets@[a].clauses@[j])
                                && highest_var(buckets@[a].clauses@[j], ord, buckets@[a].index) by {
                                if a == k && j == before[a].clauses@.len() {
                                    assert(buckets@[a].clauses@[j].literals@ == cs[c as int].literals@);
                                } else if a == k {
                                    assert(buckets@[a].clauses@[j] == before[a].clauses@[j]);
                                }
                            }
                            assert forall|a: int| 0 <= a < buckets@.len() implies lits_of((#[trigger] buckets@[a]).clauses@) == with_pivot(cs, ord, buckets@[a].index, c + 1) by {
                                if a == k {
                                    assert(lits_of(b.clauses@) =~= lits_of(before[a].clauses@).push(cs[c as int].literals@));
                                } else {
                                    assert(buckets@[a] == before[a]);
                                    assert(before[a].index != before[k as int].index);
                                    assert(with_pivot(cs, ord, before[a].index, c as int) + Seq::<Seq<Expr>>::empty() =~= with_pivot(cs, ord, before[a].index, c as int));
                                }
                            }
                            assert forall|w: i32| !is_key(buckets@, w) implies #[trigger] with_pivot(cs, ord, w, c + 1).len() == 0 by {
                                assert(buckets@[k as int].index == v);
                                if is_key(before, w) {
                                    let q = choose|q: int| 0 <= q < before.len() && #[trigger] before[q].index == w;
                                    assert(buckets@[q].index == w);
                                }
                            }
                        }
                    } else {
                        let rv = rank(&self.ordering, v);
                        let mut p: usize = 0;
                        while p < buckets.len() && rank(&self.ordering, buckets[p].index) <= rv
                            invariant
                                ord == self.ordering@,
                                rv == rank_of(ord, v),
                                p <= buckets@.len(),
                                forall|j: int| 0 <= j < p ==> rank_of(ord, (#[trigger] buckets@[j]).index) <= rv,
                            decreases buckets@.len() - p,
                        {
                            p = p + 1;
                        }
                        let mut cl: Vec<Clause> = Vec::new();
                        cl.push(copy);
                        let nb = Bucket { clauses: cl, index: v };
                        buckets.insert(p, nb);
                        proof {
                            assert(buckets@ =~= before.subrange(0, p as int).push(nb) + before.subrange(p as int, before.len() as int));
                            assert(before =~= before.subrange(0, p as int) + before.subrange(p as int, before.len() as int));
                            lemma_total_append(before.subrange(0, p as int), before.subrange(p as int, before.len() as int));
                            lemma_total_append(before.subrange(0, p as int).push(nb), before.subrange(p as int, before.len() as int));
                            lemma_total_push(before.subrange(0, p as int), nb);
                            assert forall|a: int, b: int| 0 <= a < b < buckets@.len() implies rank_of(ord, (#[trigger] buckets@[a]).index) <= rank_of(ord, (#[trigger] buckets@[b]).index) by {
                                if a < p && b > p {
                                    assert(buckets@[a] == before[a]);
                                    assert(buckets@[b] == before[b - 1]);
                                } else if a < p && b == p {
                                    assert(buckets@[a] == before[a]);
                                } else if a == p {
                                    assert(buckets@[b] == before[b - 1]);
                                    if p < before.len() {
                                        assert(rank_of(ord, before[p as int].index) > rv);
                                        if b - 1 > p {
                                            assert(rank_of(ord, before[p as int].index) <= rank_of(ord, before[b - 1].index));
                                        }
                                    }
                                } else if b < p {
                                    assert(buckets@[a] == before[a] && buckets@[b] == before[b]);
                                } else {
                                    assert(buckets@[a] == before[a - 1] && buckets@[b] == before[b - 1]);
                                }
                            }
                            assert forall|a: int, b: int| 0 <= a < b < buckets@.len() implies (#[trigger] buckets@[a]).index != (#[trigger] buckets@[b]).index by {
                                if a < p {
                                    assert(buckets@[a] == before[a]);
                                } else if a > p {
                                    assert(buckets@[a] == before[a - 1]);
                                }
                                if b < p {
                                    assert(buckets@[b] == before[b]);
                                } else if b > p {
                                    assert(buckets@[b] == before[b - 1]);
                                }
                            }
                            assert forall|a: int| 0 <= a < buckets@.len() implies ord.contains_key((#[trigger] buckets@[a]).index) by {
                                if a < p {
                                    assert(buckets@[a] == before[a]);
                                } else if a > p {
                                    assert(buckets@[a] == before[a - 1]);
                                }
                            }
                            assert forall|a: int, j: int| 0 <= a < buckets@.len() && 0 <= j < buckets@[a].clauses@.len() implies has_clause(cs, #[trigger] buckets@[a].clauses@[j])
                                && highest_var(buckets@[a].clauses@[j], ord, buckets@[a].index) by {
                                if a < p {
                                    assert(buckets@[a] == before[a]);
                                } else if a > p {
                                    assert(buckets@[a] == before[a - 1]);
                                } else {
                                    assert(buckets@[a].clauses@[j].literals@ == cs[c as int].literals@);
                                }
                            }
                            assert(!is_key(before, v)) by {
                                if is_key(before, v) {
                                    let q = choose|q: int| 0 <= q < before.len() && #[trigger] before[q].index == v;
                                    assert(before[q].index != v);
                                }
                            }
                            assert forall|a: int| 0 <= a < buckets@.len() implies lits_of((#[trigger] buckets@[a]).clauses@) == with_pivot(cs, ord, buckets@[a].index, c + 1) by {
                                if a == p {
                                    assert(with_pivot(cs, ord, v, c as int).len() == 0);
                                    assert(lits_of(nb.clauses@) =~= with_pivot(cs, ord, v, c as int) + seq![cs[c as int].literals@]);
                                } else {
                                    let q = if a < p { a } else { a - 1 };
                                    assert(buckets@[a] == before[q]);
                                    if before[q].index == v {
                                        assert(is_key(before, v));
                                    }
                                    assert(with_pivot(cs, ord, before[q].index, c as int) + Seq::<Seq<Expr>>::empty() =~= with_pivot(cs, ord, before[q].index, c as int));
                                }
                            }
                            assert forall|w: i32| !is_key(buckets@, w) implies #[trigger] with_pivot(cs, ord, w, c + 1).len() == 0 by {
                                assert(buckets@[p as int].index == v);
                                if is_key(before, w) {
                                    let q = choose|q: int| 0 <= q < before.len() && #[trigger] before[q].index == w;
                                    if q < p {
                                        assert(buckets@[q].index == w);
                                    } else {
                                        assert(buckets@[q + 1].index == w);
                                    }
                                }
                            }
                        }
                    }
                },
            }
            proof {
                assert(count_nonempty(cs, c + 1) == count_nonempty(cs, c as int) + if cs[c as int].literals@.len() > 0 { 1int } else { 0int });
            }
            c = c + 1;
        }
        buckets
    }

    /// True when `vars` holds every entry of `needed`.
    fn all_present(needed: &Vec<i32>, vars: &std::collections::HashSet<i32>) -> (r: bool)
        ensures
            r == (forall|k: int| 0 <= k < needed@.len() ==> vars@.contains(#[trigger] needed@[k])),
    {
        let mut k: usize = 0;
        while k < needed.len()
            invariant
                k <= needed@.len(),
                forall|j: int| 0 <= j < k ==> vars@.contains(#[trigger] needed@[j]),
            decreases needed@.len() - k,
        {
            if !vars.contains(&needed[k]) {
                return false;
            }
            k = k + 1;
        }
        true
    }

    /// Group clauses by variable interaction: each clause joins the first
    /// bucket that already holds every variable some literal of the clause
    /// interacts with, or else opens a new bucket keyed by its highest-ranked
    /// variable. Every clause lands at exactly one position.
    #[verifier::spinoff_prover]
    pub fn group_clauses_into_buckets_interactions(&mut self, expressions: &Vec<Clause>) -> (r: Vec<Bucket>)
        requires
            forall|i: int| 0 <= i < expressions@.len() ==> (#[trigger] expressions@[i]).literals@.len() > 0,
            clauses_ranked(expressions@, old(self).ordering@),
        ensures
            final(self).expressions@ == old(self).expressions@,
            final(self).ordering@ == old(self).ordering@,
            final(self).variables@ == old(self).variables@,
            total_clauses(r@) == expressions@.len(),
            forall|k: int, j: int| 0 <= k < r@.len() && 0 <= j < r@[k].clauses@.len() ==> has_clause(expressions@, #[trigger] r@[k].clauses@[j]),
            forall|k: int| 0 <= k < r@.len() ==> (#[trigger] r@[k]).clauses@.len() > 0 && highest_var(
                r@[k].clauses@[0],
                old(self).ordering@,
                r@[k].index,
            ),
            forall|k: int, j: int| 0 <= k < r@.len() && 1 <= j < r@[k].clauses@.len() ==> fits(
                old(self).expressions@,
                #[trigger] r@[k].clauses@[j],
                r@[k].clauses@.subrange(0, j),
            ),
            exists|origin: Seq<Seq<int>>, at: Seq<(int, int)>| #[trigger] placement(expressions@, r@, origin, at, expressions@.len() as int)
                && first_fit(old(self).expressions@, expressions@, r@, origin, at, expressions@.len() as int),
    {
        let variable_interactions = self.find_interacting_variables();
        let ghost xs = self.expressions@;
        let ghost mut origin: Seq<Seq<int>> = Seq::empty();
        let ghost mut at: Seq<(int, int)> = Seq::empty();
        let ghost es = expressions@;
        let mut buckets: Vec<Bucket> = Vec::new();
        let mut c: usize = 0;
        while c < expressions.len()
            invariant
                es == expressions@,
                forall|i: int| 0 <= i < es.len() ==> (#[trigger] es[i]).literals@.len() > 0,
                clauses_ranked(es, self.ordering@),
                c <= es.len(),
                total_clauses(buckets@) == c,
                forall|k: int, j: int| 0 <= k < buckets@.len() && 0 <= j < buckets@[k].clauses@.len() ==> has_clause(es, #[trigger] buckets@[k].clauses@[j]),
                xs == self.expressions@,
                forall|v: i32| #[trigger] variable_interactions@.contains_key(v) <==> mentioned(xs, v),
                forall|v: i32, w: i32| #![trigger variable_interactions@[v]@.contains(w)] #![trigger interacts(xs, v, w)] variable_interactions@.contains_key(v) ==> (variable_interactions@[v]@.contains(w) <==> interacts(xs, v, w)),
                forall|k: int| 0 <= k < buckets@.len() ==> (#[trigger] buckets@[k]).clauses@.len() > 0 && highest_var(buckets@[k].clauses@[0], self.ordering@, buckets@[k].index),
                forall|k: int, j: int| 0 <= k < buckets@.len() && 1 <= j < buckets@[k].clauses@.len() ==> fits(xs, #[trigger] buckets@[k].clauses@[j], buckets@[k].clauses@.subrange(0, j)),
                placement(es, buckets@, origin, at, c as int),
                first_fit(xs, es, buckets@, origin, at, c as int),
            decreases es.len() - c,
        {
            let clause = &expressions[c];
            let mut placed = false;
            let mut k: usize = 0;
            while k < buckets.len() && !placed
                invariant
                    es == expressions@,
                    c < es.len(),
                    *clause == es[c as int],
                    k <= buckets@.len(),
                    !placed ==> total_clauses(buckets@) == c,
                    placed ==> total_clauses(buckets@) == c + 1,
                    forall|a: int, j: int| 0 <= a < buckets@.len() && 0 <= j < buckets@[a].clauses@.len() ==> has_clause(es, #[trigger] buckets@[a].clauses@[j]),
                    xs == self.expressions@,
                    forall|v: i32| #[trigger] variable_interactions@.contains_key(v) <==> mentioned(xs, v),
                    forall|v: i32, w: i32| #![trigger variable_interactions@[v]@.contains(w)] #![trigger interacts(xs, v, w)] variable_interactions@.contains_key(v) ==> (variable_interactions@[v]@.contains(w) <==> interacts(xs, v, w)),
                    forall|a: int| 0 <= a < buckets@.len() ==> (#[trigger] buckets@[a]).clauses@.len() > 0 && highest_var(buckets@[a].clauses@[0], self.ordering@, buckets@[a].index),
                    forall|a: int, j: int| 0 <= a < buckets@.len() && 1 <= j < buckets@[a].clauses@.len() ==> fits(xs, #[trigger] buckets@[a].clauses@[j], buckets@[a].clauses@.subrange(0, j)),
                    !placed ==> placement(es, buckets@, origin, at, c as int),
                    placed ==> placement(es, buckets@, origin, at, c + 1),
                    !placed ==> forall|q: int| 0 <= q < k ==> !fits(xs, *clause, #[trigger] buckets@[q].clauses@),
                    !placed ==> first_fit(xs, es, buckets@, origin, at, c as int),
                    placed ==> first_fit(xs, es, buckets@, origin, at, c + 1),
                decreases buckets@.len() - k, (if placed { 0int } else { 1int }),
            {
                let vars = buckets[k].vars();
                let ghost held = buckets@[k as int].clauses@;
                let mut found_fit = false;
                let mut l: usize = 0;
                while l < clause.literals.len() && !found_fit
                    invariant
                        l <= clause.literals@.len(),
                        held == buckets@[k as int].clauses@,
                        forall|v: i32| #[trigger] vars@.contains(v) <==> exists|c: int, l: int|
                            0 <= c < held.len() && 0 <= l < held[c].literals@.len() && var_name_of(#[trigger] held[c].literals@[l]) == v,
                        forall|v: i32| #[trigger] variable_interactions@.contains_key(v) <==> mentioned(xs, v),
                        forall|v: i32, w: i32| #![trigger variable_interactions@[v]@.contains(w)] #![trigger interacts(xs, v, w)] variable_interactions@.contains_key(v) ==> (variable_interactions@[v]@.contains(w) <==> interacts(xs, v, w)),
                        found_fit ==> fits(xs, *clause, held),
                        !found_fit ==> forall|l2: int| 0 <= l2 < l ==> !#[trigger] fit_at(xs, *clause, held, l2),
                    decreases clause.literals@.len() - l,
                {
                    let v = clause.literals[l].get_var_name();
                    match variable_interactions.get(&v) {
                        Some(needed) => {
                            if Self::all_present(needed, &vars) {
                                found_fit = true;
                                proof {
                                    assert(variable_interactions@.contains_key(v));
                                    assert forall|w: i32| interacts(xs, var_name_of(clause.literals@[l as int]), w) implies #[trigger] clauses_mention(held, w) by {
                                        assert(needed@.contains(w));
                                        let q = choose|q: int| 0 <= q < needed@.len() && needed@[q] == w;
                                        assert(vars@.contains(needed@[q]));
                                    }
                                    assert(fit_at(xs, *clause, held, l as int));
                                    assert(fits(xs, *clause, held));
                                }
                            } else {
                                proof {
                                    let q = choose|q: int| 0 <= q < needed@.len() && !vars@.contains(#[trigger] needed@[q]);
                                    let w = needed@[q];
                                    assert(needed@.contains(w));
                                    assert(interacts(xs, v, w));
                                    assert(!clauses_mention(held, w));
                                    assert(!fit_at(xs, *clause, held, l as int));
                                }
                            }
                        },
                        None => {
                            proof {
                                assert(!mentioned(xs, v));
                                assert(!fit_at(xs, *clause, held, l as int));
                            }
                        },
                    }
                    l = l + 1;
                }
                if found_fit {
                    let ghost before = buckets@;
                    let mut b = buckets.remove(k);
                    b.clauses.push(clause.clone());
                    buckets.insert(k, b);
                    proof {
                        assert(buckets@ =~= before.update(k as int, b));
                        lemma_total_update(before, k as int, b);
                        assert forall|a: int, j: int| 0 <= a < buckets@.len() && 0 <= j < buckets@[a].clauses@.len() implies has_clause(es, #[trigger] buckets@[a].clauses@[j]) by {
                            if a == k && j == before[a].clauses@.len() {
                                assert(buckets@[a].clauses@[j].literals@ == es[c as int].literals@);
                            } else if a == k {
                                assert(buckets@[a].clauses@[j] == before[a].clauses@[j]);
                            }
                        }
                        assert forall|a: int| 0 <= a < buckets@.len() implies (#[trigger] buckets@[a]).clauses@.len() > 0 && highest_var(buckets@[a].clauses@[0], self.ordering@, buckets@[a].index) by {
                            if a == k {
                                assert(buckets@[a].clauses@[0] == before[a].clauses@[0]);
                            }
                        }
                        assert forall|a: int, j: int| 0 <= a < buckets@.len() && 1 <= j < buckets@[a].clauses@.len() implies fits(xs, #[trigger] buckets@[a].clauses@[j], buckets@[a].clauses@.subrange(0, j)) by {
                            if a == k {
                                assert(buckets@[a].clauses@.subrange(0, j) =~= before[a].clauses@.subrange(0, j) || j == before[a].clauses@.len());
                                if j == before[a].clauses@.len() {
                                    assert(buckets@[a].clauses@.subrange(0, j) =~= held);
                                    let cl = buckets@[a].clauses@[j];
                                    assert(cl.literals@ == clause.literals@);
                                    let l0 = choose|l0: int| 0 <= l0 < clause.literals@.len() && #[trigger] fit_at(xs, *clause, held, l0);
                                    assert(cl.literals@[l0] == clause.literals@[l0]);
                                    assert(fit_at(xs, cl, held, l0));
                                } else {
                                    assert(buckets@[a].clauses@[j] == before[a].clauses@[j]);
                                }
                            }
                        }
                    }
                    proof {
                        let o0 = origin;
                        let a0 = at;
                        let m = before[k as int].clauses@.len() as int;
                        origin = origin.update(k as int, origin[k as int].push(c as int));
                        at = at.push((k as int, m));
                        assert forall|q: int| 0 <= q < buckets@.len() implies (#[trigger] origin[q]).len() == buckets@[q].clauses@.len() by {
                            if q != k {
                                assert(buckets@[q] == before[q]);
                            }
                        }
                        assert forall|q: int, j: int| 0 <= q < buckets@.len() && 0 <= j < buckets@[q].clauses@.len() implies 0 <= #[trigger] origin[q][j] < c + 1
                            && buckets@[q].clauses@[j].literals@ == es[origin[q][j]].literals@ && at[origin[q][j]] == (q, j) by {
                            if q != k {
                                assert(buckets@[q] == before[q]);
                                assert(origin[q] == o0[q]);
                            } else if j < m {
                                assert(origin[q][j] == o0[q][j]);
                                assert(buckets@[q].clauses@[j] == before[q].clauses@[j]);
                            } else {
                                assert(origin[q][j] == c);
                                assert(buckets@[q].clauses@[j].literals@ == es[c as int].literals@);
                            }
                        }
                        assert forall|q: int, j1: int, j2: int| 0 <= q < buckets@.len() && 0 <= j1 < j2 < buckets@[q].clauses@.len() implies #[trigger] origin[q][j1] < #[trigger] origin[q][j2] by {
                            if q != k {
                                assert(origin[q] == o0[q]);
                                assert(buckets@[q] == before[q]);
                            } else if j2 < m {
                                assert(origin[q][j1] == o0[q][j1] && origin[q][j2] == o0[q][j2]);
                            } else {
                                assert(origin[q][j1] == o0[q][j1]);
                                assert(o0[q][j1] < c);
                            }
                        }
                        assert forall|i: int| 0 <= i < c + 1 implies 0 <= (#[trigger] at[i]).0 < buckets@.len() && 0 <= at[i].1 < buckets@[at[i].0].clauses@.len()
                            && origin[at[i].0][at[i].1] == i by {
                            if i < c {
                                assert(at[i] == a0[i]);
                                let q = a0[i].0;
                                if q == k {
                                    assert(origin[q][a0[i].1] == o0[q][a0[i].1]);
                                } else {
                                    assert(origin[q] == o0[q]);
                                    assert(buckets@[q] == before[q]);
                                }
                            }
                        }
                        lemma_first_fit_append(xs, es, before, buckets@, o0, origin, a0, at, c as int, k as int);
                    }
                    placed = true;
                } else {
                    proof {
                        assert(!fits(xs, *clause, held)) by {
                            if fits(xs, *clause, held) {
                                let l2 = choose|l2: int| 0 <= l2 < clause.literals@.len() && #[trigger] fit_at(xs, *clause, held, l2);
                            }
                        }
                    }
                    k = k + 1;
                }
            }
            if !placed {
                proof {
                    assert forall|i: int| 0 <= i < clause.literals@.len() implies self.ordering@.contains_key(var_name_of(#[trigger] clause.literals@[i])) by {
                        assert(self.ordering@.contains_key(var_name_of(es[c as int].literals@[i])));
                    }
                }
                let hv = clause.get_highest_scored_var(&self.ordering);
                assert(hv is Some);
                let index = hv.unwrap();
                let mut cl: Vec<Clause> = Vec::new();
                cl.push(clause.clone());
                let nb = Bucket { clauses: cl, index };
                let ghost before = buckets@;
                buckets.push(nb);
                proof {
                    lemma_total_push(before, nb);
                    assert forall|a: int| 0 <= a < buckets@.len() implies (#[trigger] buckets@[a]).clauses@.len() > 0 && highest_var(buckets@[a].clauses@[0], self.ordering@, buckets@[a].index) by {
                        if a < before.len() {
                            assert(buckets@[a] == before[a]);
                        } else {
                            assert(nb.clauses@[0].literals@ == clause.literals@);
                        }
                    }
                    assert forall|a: int, j: int| 0 <= a < buckets@.len() && 1 <= j < buckets@[a].clauses@.len() implies fits(xs, #[trigger] buckets@[a].clauses@[j], buckets@[a].clauses@.subrange(0, j)) by {
                        assert(a < before.len());
                        assert(buckets@[a] == before[a]);
                    }
                    let o0 = origin;
                    let a0 = at;
                    let nbk = before.len() as int;
                    origin = origin.push(seq![c as int]);
                    at = at.push((nbk, 0int));
                    assert forall|q: int| 0 <= q < buckets@.len() implies (#[trigger] origin[q]).len() == buckets@[q].clauses@.len() by {
                        if q < nbk {
                            assert(buckets@[q] == before[q]);
                        }
                    }
                    assert forall|q: int, j: int| 0 <= q < buckets@.len() && 0 <= j < buckets@[q].clauses@.len() implies 0 <= #[trigger] origin[q][j] < c + 1
                        && buckets@[q].clauses@[j].literals@ == es[origin[q][j]].literals@ && at[origin[q][j]] == (q, j) by {
                        if q < nbk {
                            assert(buckets@[q] == before[q]);
                            assert(origin[q] == o0[q]);
                        } else {
                            assert(origin[q][j] == c);
                            assert(buckets@[q].clauses@[j].literals@ == es[c as int].literals@);
                        }
                    }
                    assert forall|q: int, j1: int, j2: int| 0 <= q < buckets@.len() && 0 <= j1 < j2 < buckets@[q].clauses@.len() implies #[trigger] origin[q][j1] < #[trigger] origin[q][j2] by {
                        assert(q < nbk);
                        assert(origin[q] == o0[q]);
                        assert(buckets@[q] == before[q]);
                    }
                    assert forall|i: int| 0 <= i < c + 1 implies 0 <= (#[trigger] at[i]).0 < buckets@.len() && 0 <= at[i].1 < buckets@[at[i].0].clauses@.len()
                        && origin[at[i].0][at[i].1] == i by {
                        if i < c {
                            assert(at[i] == a0[i]);
                            assert(origin[a0[i].0] == o0[a0[i].0]);
                            assert(buckets@[a0[i].0] == before[a0[i].0]);
                        }
                    }
                    lemma_first_fit_new(xs, es, before, buckets@, o0, origin, a0, at, c as int);
                    assert forall|a: int, j: int| 0 <= a < buckets@.len() && 0 <= j < buckets@[a].clauses@.len() implies has_clause(es, #[trigger] buckets@[a].clauses@[j]) by {
                        if a < before.len() {
                            assert(buckets@[a] == before[a]);
                        } else {
                            assert(buckets@[a].clauses@[j].literals@ == es[c as int].literals@);
                        }
                    }
                }
            }
            c = c + 1;
        }
        proof {
            assert(placement(es, buckets@, origin, at, es.len() as int) && first_fit(xs, es, buckets@, origin, at, es.len() as int));
        }
        buckets
    }

    /// Fold a bucket's clauses with AND, left to right; after each fold, stop
    /// when the diagram has outgrown `BUCKET_THRESHOLD` nodes while clauses
    /// remain. Returns the diagram and the number of clauses folded into it.
    #[verifier::spinoff_prover]
    pub fn fold_bucket(&self, bucket: &Bucket) -> (r: (Bdd, usize))
        requires
            bucket.clauses@.len() > 0,
            forall|c: int, l: int| 0 <= c < bucket.clauses@.len() && 0 <= l < bucket.clauses@[c].literals@.len()
                ==> vars_declared(#[trigger] bucket.clauses@[c].literals@[l], self.variables@),
        ensures
            folded(bucket.clauses@, r.0.nodes@, r.1 as int),
            nodes_reduced(r.0.nodes@),
            nodes_distinct(r.0.nodes@),
            r.1 < bucket.clauses@.len() ==> r.0.nodes@.len() > BUCKET_THRESHOLD && r.1 >= 2,
    {
        let ghost cs = bucket.clauses@;
        let c0 = &bucket.clauses[0];
        proof {
            assert forall|j: int| 0 <= j < c0.literals@.len() implies vars_declared(#[trigger] c0.literals@[j], self.variables@) by {
                assert(vars_declared(cs[0].literals@[j], self.variables@));
            }
        }
        let mut bdd = c0.to_bdd(&self.variables, &self.ordering);
        proof {
            assert forall|s: Set<i32>| #[trigger] denotes(bdd.nodes@, s) == all_hold(cs.subrange(0, 1), s) by {
                let one = cs.subrange(0, 1);
                assert(one[0] == cs[0]);
                if all_hold(one, s) {
                    assert(clause_value(one[0].literals@, s));
                }
            }
        }
        let mut n: usize = 1;
        let mut split = false;
        while n < bucket.clauses.len() && !split
            invariant
                cs == bucket.clauses@,
                1 <= n <= cs.len(),
                split ==> n < cs.len() && bdd.nodes@.len() > BUCKET_THRESHOLD && n >= 2,
                forall|c: int, l: int| 0 <= c < cs.len() && 0 <= l < cs[c].literals@.len()
                    ==> vars_declared(#[trigger] cs[c].literals@[l], self.variables@),
                nodes_wf(bdd.nodes@),
                nodes_reduced(bdd.nodes@),
                nodes_distinct(bdd.nodes@),
                forall|s: Set<i32>| #[trigger] denotes(bdd.nodes@, s) == all_hold(cs.subrange(0, n as int), s),
            decreases cs.len() - n, (if split { 0int } else { 1int }),
        {
            let c = &bucket.clauses[n];
            proof {
                assert forall|j: int| 0 <= j < c.literals@.len() implies vars_declared(#[trigger] c.literals@[j], self.variables@) by {
                    assert(vars_declared(cs[n as int].literals@[j], self.variables@));
                }
            }
            let temp_bdd = c.to_bdd(&self.variables, &self.ordering);
            let next = bdd.and(&temp_bdd, &self.ordering);
            proof {
                assert forall|s: Set<i32>| #[trigger] denotes(next.nodes@, s) == all_hold(cs.subrange(0, n + 1), s) by {
                    let pre = cs.subrange(0, n as int);
                    let cur = cs.subrange(0, n + 1);
                    assert(cur[n as int] == cs[n as int]);
                    if all_hold(cur, s) {
                        assert forall|i: int| 0 <= i < pre.len() implies clause_value(#[trigger] pre[i].literals@, s) by {
                            assert(pre[i] == cur[i]);
                        }
                    }
                    if all_hold(pre, s) && clause_value(c.literals@, s) {
                        assert forall|i: int| 0 <= i < cur.len() implies clause_value(#[trigger] cur[i].literals@, s) by {
                            if i < n {
                                assert(pre[i] == cur[i]);
                            } else {
                                assert(cur[i] == cs[n as int]);
                                assert(cs[n as int] == *c);
                            }
                        }
                    }
                }
            }
            bdd = next;
            n = n + 1;
            if bdd.size() > BUCKET_THRESHOLD && n < bucket.clauses.len() {
                split = true;
            }
        }
        (bdd, n)
    }

    /// Process the buckets in order. Each bucket's clauses are folded into one
    /// diagram (`fold_bucket`); the learned clauses of its paths to FALSE
    /// (`learned_clauses`) go through the sharing filters for one round, and
    /// the forwarded ones are appended to `filtered_clauses`. When the fold
    /// stopped early, the variables are re-ranked by interaction (the first
    /// time only), the diagram is partially reordered, and the clauses not
    /// folded yet are regrouped into new buckets, processed after the others.
    #[verifier::spinoff_prover]
    pub fn build(
        &mut self,
        buckets: &mut Vec<Bucket>,
        clause_database: &mut ClauseDatabase,
        filtered_clauses: &mut Vec<Vec<i32>>,
    )
        requires
            variables_ranked(old(self).variables@, old(self).ordering@),
            buckets_ok(old(buckets)@, old(self).variables@),
            old(clause_database).wf(),
        ensures
            final(buckets)@.len() == 0,
            final(clause_database).wf(),
            final(filtered_clauses)@.len() >= old(filtered_clauses)@.len(),
            forall|k: int| 0 <= k < old(filtered_clauses)@.len() ==> #[trigger] final(filtered_clauses)@[k] == old(filtered_clauses)@[k],
            forall|k: int| old(filtered_clauses)@.len() <= k < final(filtered_clauses)@.len() ==> mined(
                old(buckets)@,
                #[trigger] final(filtered_clauses)@[k]@,
            ),
            old(clause_database).global_items() == Set::<i32>::empty() && old(buckets)@.len() > 0 ==> first_bucket_shared(
                old(buckets)@[0].clauses@,
                final(filtered_clauses)@,
                old(filtered_clauses)@.len() as int,
            ),
    {
        let ghost bs0 = buckets@;
        let ghost start = filtered_clauses@.len() as int;
        let ghost g_start = clause_database.global_items();
        let ghost mut started = false;
        let mut reordered = false;
        proof {
            assert forall|k: int, j: int| 0 <= k < buckets@.len() && 0 <= j < buckets@[k].clauses@.len() implies from_buckets(bs0, #[trigger] buckets@[k].clauses@[j]) by {}
        }
        while buckets.len() > 0
            invariant
                variables_ranked(self.variables@, self.ordering@),
                buckets_ok(buckets@, self.variables@),
                clause_database.wf(),
                filtered_clauses@.len() >= old(filtered_clauses)@.len(),
                start == old(filtered_clauses)@.len(),
                forall|k: int| 0 <= k < old(filtered_clauses)@.len() ==> #[trigger] filtered_clauses@[k] == old(filtered_clauses)@[k],
                forall|k: int, j: int| 0 <= k < buckets@.len() && 0 <= j < buckets@[k].clauses@.len() ==> from_buckets(bs0, #[trigger] buckets@[k].clauses@[j]),
                forall|k: int| start <= k < filtered_clauses@.len() ==> mined(bs0, #[trigger] filtered_clauses@[k]@),
                !started ==> buckets@ == bs0 && clause_database.global_items() == g_start && filtered_clauses@.len() == start,
                started && g_start == Set::<i32>::empty() && bs0.len() > 0 ==> first_bucket_shared(bs0[0].clauses@, filtered_clauses@, start),
            decreases total_clauses(buckets@), buckets@.len(),
        {
            let ghost bs = buckets@;
            let ghost filtered_before = filtered_clauses@;
            let bucket = buckets.remove(0);
            proof {
                assert(bs[0] == bucket);
                assert(buckets@ =~= bs.subrange(1, bs.len() as int));
                lemma_total_remove_first(bs);
                assert(buckets_ok(buckets@, self.variables@)) by {
                    assert forall|k: int, j: int| 0 <= k < buckets@.len() && 0 <= j < buckets@[k].clauses@.len() implies (#[trigger] buckets@[k].clauses@[j]).literals@.len() > 0
                        && forall|l: int| 0 <= l < buckets@[k].clauses@[j].literals@.len() ==> proper_literal(#[trigger] buckets@[k].clauses@[j].literals@[l], self.variables@) by {
                        assert(buckets@[k] == bs[k + 1]);
                    }
                }
                assert forall|k: int, j: int| 0 <= k < buckets@.len() && 0 <= j < buckets@[k].clauses@.len() implies from_buckets(bs0, #[trigger] buckets@[k].clauses@[j]) by {
                    assert(buckets@[k] == bs[k + 1]);
                }
            }
            if bucket.clauses.len() > 0 {
                let ghost vars0 = self.variables@;
                proof {
                    assert forall|c: int, l: int| 0 <= c < bucket.clauses@.len() && 0 <= l < bucket.clauses@[c].literals@.len()
                        implies vars_declared(#[trigger] bucket.clauses@[c].literals@[l], self.variables@) && proper_literal(bucket.clauses@[c].literals@[l], self.variables@) by {
                        assert(bucket.clauses@[c] == bs[0].clauses@[c]);
                        let e = bucket.clauses@[c].literals@[l];
                        assert(proper_literal(e, self.variables@));
                        let n = var_name_of(e);
                        let i = choose|i: int| 0 <= i < self.variables@.len() && #[trigger] self.variables@[i].name == n;
                        assert(vars_declared(Expr::Var(n), self.variables@));
                        if e != Expr::Var(n) {
                            assert(e == Expr::Not(Box::new(Expr::Var(n))));
                            assert(vars_declared(e, self.variables@) == vars_declared(Expr::Var(n), self.variables@));
                        }
                    }
                }
                let (mut bdd, n) = self.fold_bucket(&bucket);
                // mine the diagram of this bucket
                let temp_learnts = bdd.learned_clauses();
                let passed = clause_database.get_filtered_clauses(temp_learnts);
                let ghost before = filtered_clauses@;
                let ghost d = bdd.nodes@;
                let ghost cs = bucket.clauses@.subrange(0, n as int);
                proof {
                    assert forall|i: int| 0 <= i < cs.len() implies from_buckets(bs0, #[trigger] cs[i]) by {
                        assert(cs[i] == bucket.clauses@[i]);
                        assert(bs[0].clauses@[i] == bucket.clauses@[i]);
                    }
                    assert(cs.subrange(0, cs.len() as int) =~= cs);
                    assert(mined_with(bs0, cs, d));
                }
                let mut q: usize = 0;
                while q < passed.len()
                    invariant
                        q <= passed@.len(),
                        filtered_clauses@.len() == before.len() + q,
                        forall|k: int| 0 <= k < before.len() ==> #[trigger] filtered_clauses@[k] == before[k],
                        forall|k: int| 0 <= k < q ==> #[trigger] filtered_clauses@[before.len() + k]@ == passed@[k]@,
                    decreases passed@.len() - q,
                {
                    filtered_clauses.push(copy_clause(&passed[q]));
                    q = q + 1;
                }
                proof {
                    assert forall|k: int| start <= k < filtered_clauses@.len() implies mined(bs0, #[trigger] filtered_clauses@[k]@) by {
                        if k < before.len() {
                            assert(filtered_clauses@[k] == before[k]);
                        } else {
                            let j = k - before.len();
                            assert(filtered_clauses@[before.len() + j]@ == passed@[j]@);
                            assert(one_of(temp_learnts@, passed@[j]));
                            let t = choose|t: int| 0 <= t < temp_learnts@.len() && temp_learnts@[t]@ == passed@[j]@;
                            assert(learned_from(d, temp_learnts@[t]@));
                            assert(mined_by(bs0, cs, d, filtered_clauses@[k]@));
                        }
                    }
                    if !started && g_start == Set::<i32>::empty() && bs0.len() > 0 {
                        assert(bucket == bs0[0]);
                        assert(folded(bs0[0].clauses@, d, n as int));
                        if exists|p: Seq<(bool, BddPointer)>| #[trigger] is_conflict_path(d, p) {
                            let p = choose|p: Seq<(bool, BddPointer)>| #[trigger] is_conflict_path(d, p);
                            let t = choose|t: int| 0 <= t < temp_learnts@.len() && temp_learnts@[t]@ == learned_of(d, p);
                            let p0 = choose|p0: Seq<(bool, BddPointer)>| #[trigger] is_conflict_path(d, p0) && temp_learnts@[0]@ == learned_of(d, p0);
                            assert(learned_from(d, temp_learnts@[0]@));
                            assert(temp_learnts@[0]@.len() == p0.len());
                            assert(passed@.len() > 0 && passed@[0]@ == temp_learnts@[0]@);
                            assert(before.len() == start);
                            assert(filtered_clauses@[before.len() + 0int]@ == passed@[0]@);
                            assert(filtered_clauses@[start]@ == passed@[0]@);
                        }
                        assert(shared_by(bs0[0].clauses@, filtered_clauses@, start, d, n as int));
                    }
                    if started && g_start == Set::<i32>::empty() && bs0.len() > 0 && bs0[0].clauses@.len() > 0 {
                        let (d0, m0) = choose|d0: Seq<BddNode>, m0: int| #[trigger] shared_by(bs0[0].clauses@, before, start, d0, m0);
                        if before.len() > start {
                            assert(filtered_clauses@[start] == before[start]);
                        }
                        assert(shared_by(bs0[0].clauses@, filtered_clauses@, start, d0, m0));
                    }
                }
                if n < bucket.clauses.len() {
                    let mut rest: Vec<Clause> = Vec::new();
                    let mut k: usize = n;
                    while k < bucket.clauses.len()
                        invariant
                            n <= k <= bucket.clauses@.len(),
                            rest@.len() == k - n,
                            forall|i: int| 0 <= i < rest@.len() ==> (#[trigger] rest@[i]).literals@ == bucket.clauses@[n + i].literals@,
                        decreases bucket.clauses@.len() - k,
                    {
                        rest.push(bucket.clauses[k].clone());
                        k = k + 1;
                    }
                    if !reordered && bdd.size() >= 2 {
                        let affected_vars = self.create_interaction_based_ordering();
                        bdd.partial_reorder_bdd(&affected_vars, &self.ordering);
                        reordered = true;
                        proof {
                            lemma_same_names(vars0, self.variables@);
                        }
                    }
                    proof {
                        lemma_same_names(vars0, self.variables@);
                        assert forall|i: int, l: int| 0 <= i < rest@.len() && 0 <= l < rest@[i].literals@.len()
                            implies self.ordering@.contains_key(var_name_of(#[trigger] rest@[i].literals@[l])) by {
                            let e = rest@[i].literals@[l];
                            assert(rest@[i].literals@ == bucket.clauses@[n + i].literals@);
                            assert(proper_literal(e, vars0));
                            let j = choose|j: int| 0 <= j < vars0.len() && #[trigger] vars0[j].name == var_name_of(e);
                            assert(vars0.contains(vars0[j]));
                            assert(self.variables@.contains(vars0[j]));
                            let j2 = choose|j2: int| 0 <= j2 < self.variables@.len() && self.variables@[j2] == vars0[j];
                            assert(self.ordering@.contains_key(self.variables@[j2].name));
                        }
                        assert forall|i: int| 0 <= i < rest@.len() implies (#[trigger] rest@[i]).literals@.len() > 0 by {
                            assert(rest@[i].literals@ == bucket.clauses@[n + i].literals@);
                        }
                    }
                    let mut new_buckets = self.group_clauses_into_buckets_interactions(&rest);
                    let ghost before_b = buckets@;
                    let ghost nb = new_buckets@;
                    buckets.append(&mut new_buckets);
                    proof {
                        lemma_total_append(before_b, nb);
                        assert(total_clauses(nb) == rest@.len());
                        assert forall|k: int, j: int| 0 <= k < buckets@.len() && 0 <= j < buckets@[k].clauses@.len() implies (#[trigger] buckets@[k].clauses@[j]).literals@.len() > 0
                            && forall|l: int| 0 <= l < buckets@[k].clauses@[j].literals@.len() ==> proper_literal(#[trigger] buckets@[k].clauses@[j].literals@[l], self.variables@) by {
                            if k < before_b.len() {
                                assert(buckets@[k] == before_b[k]);
                                assert forall|l: int| 0 <= l < buckets@[k].clauses@[j].literals@.len() implies proper_literal(#[trigger] buckets@[k].clauses@[j].literals@[l], self.variables@) by {
                                    lemma_proper_kept(buckets@[k].clauses@[j].literals@[l], vars0, self.variables@);
                                }
                            } else {
                                assert(buckets@[k] == nb[k - before_b.len()]);
                                let cl = buckets@[k].clauses@[j];
                                assert(has_clause(rest@, cl));
                                let i = choose|i: int| 0 <= i < rest@.len() && rest@[i].literals@ == cl.literals@;
                                assert(rest@[i].literals@ == bucket.clauses@[n + i].literals@);
                                assert forall|l: int| 0 <= l < cl.literals@.len() implies proper_literal(#[trigger] cl.literals@[l], self.variables@) by {
                                    assert(proper_literal(bucket.clauses@[n + i].literals@[l], vars0));
                                    lemma_proper_kept(cl.literals@[l], vars0, self.variables@);
                                }
                            }
                        }
                        assert forall|k: int, j: int| 0 <= k < buckets@.len() && 0 <= j < buckets@[k].clauses@.len() implies from_buckets(bs0, #[trigger] buckets@[k].clauses@[j]) by {
                            if k < before_b.len() {
                                assert(buckets@[k] == before_b[k]);
                            } else {
                                assert(buckets@[k] == nb[k - before_b.len()]);
                                let cl = buckets@[k].clauses@[j];
                                assert(has_clause(rest@, cl));
                                let i = choose|i: int| 0 <= i < rest@.len() && rest@[i].literals@ == cl.literals@;
                                assert(from_buckets(bs0, bucket.clauses@[n + i]));
                                assert(bs[0].clauses@[n + i] == bucket.clauses@[n + i]);
                            }
                        }
                    }
                } else {
                    proof {
                        lemma_same_names(vars0, self.variables@);
                    }
                }
            } else {
                proof {
                    if !started && g_start == Set::<i32>::empty() && bs0.len() > 0 {
                        assert(bucket == bs0[0]);
                        assert(bs0[0].clauses@.len() == 0);
                    }
                    if started && g_start == Set::<i32>::empty() && bs0.len() > 0 && bs0[0].clauses@.len() > 0 {
                        let (d0, m0) = choose|d0: Seq<BddNode>, m0: int| #[trigger] shared_by(bs0[0].clauses@, filtered_before, start, d0, m0);
                        assert(shared_by(bs0[0].clauses@, filtered_clauses@, start, d0, m0));
                    }
                }
            }
            proof {
                started = true;
                lemma_total_nonneg(bs);
                lemma_total_nonneg(buckets@);
            }
            assert(total_clauses(buckets@) < total_clauses(bs) || (total_clauses(buckets@) == total_clauses(bs) && buckets@.len() < bs.len()));
        }
    }
}

} // verus!
