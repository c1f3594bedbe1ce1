use std::collections::HashMap;
use vstd::prelude::*;
use crate::bdd::{Bdd, arena_ok, denotes, nodes_distinct, nodes_reduced, nodes_wf};
use crate::apply::{nodes_ordered, ranks_distinct, vars_ranked};
use crate::reorder::{all_reachable, rank_sorted, touches};
use crate::bdd_util::{BddNode, BddVar, TERMINAL_NAME};

verus! {

broadcast use vstd::std_specs::hash::group_hash_axioms;

/// Number of `true` entries.
pub open spec fn count_true(s: Seq<bool>) -> nat
    decreases s.len(),
{
    if s.len() == 0 {
        0
    } else {
        count_true(s.drop_last()) + if s.last() {
            1nat
        } else {
            0nat
        }
    }
}

/// Every entry set in `a` is set in `b`.
pub open spec fn grows(a: Seq<bool>, b: Seq<bool>) -> bool {
    a.len() == b.len() && forall|i: int| 0 <= i < a.len() && #[trigger] a[i] ==> b[i]
}

proof fn lemma_all_false(s: Seq<bool>)
    requires
        forall|i: int| 0 <= i < s.len() ==> !#[trigger] s[i],
    ensures
        count_true(s) == 0,
    decreases s.len(),
{
    if s.len() > 0 {
        lemma_all_false(s.drop_last());
    }
}

proof fn lemma_all_true(s: Seq<bool>)
    requires
        forall|i: int| 0 <= i < s.len() ==> #[trigger] s[i],
    ensures
        count_true(s) == s.len(),
    decreases s.len(),
{
    if s.len() > 0 {
        lemma_all_true(s.drop_last());
    }
}

proof fn lemma_count_bound(s: Seq<bool>)
    ensures
        count_true(s) <= s.len(),
    decreases s.len(),
{
    if s.len() > 0 {
        lemma_count_bound(s.drop_last());
    }
}

proof fn lemma_count_set(s: Seq<bool>, i: int)
    requires
        0 <= i < s.len(),
        !s[i],
    ensures
        count_true(s.update(i, true)) == count_true(s) + 1,
    decreases s.len(),
{
    if i < s.len() - 1 {
        assert(s.update(i, true).drop_last() =~= s.drop_last().update(i, true));
        lemma_count_set(s.drop_last(), i);
    } else {
        assert(s.update(i, true).drop_last() =~= s.drop_last());
    }
}

proof fn lemma_count_grows(a: Seq<bool>, b: Seq<bool>)
    requires
        grows(a, b),
    ensures
        count_true(a) <= count_true(b),
    decreases a.len(),
{
    if a.len() > 0 {
        assert(grows(a.drop_last(), b.drop_last()));
        lemma_count_grows(a.drop_last(), b.drop_last());
    }
}

/// The rank a node contributes: its variable's rank, or nothing when unranked.
pub open spec fn rank_weight(nodes: Seq<BddNode>, ordering: Map<i32, usize>, i: int) -> int {
    if ordering.contains_key(nodes[i].var.name) {
        ordering[nodes[i].var.name] as int
    } else {
        0
    }
}

/// Depth-first visit from `p`: the number of nodes newly marked, and the
/// marks afterwards. `fuel` bounds the depth; the number of unmarked nodes
/// always suffices.
pub open spec fn visit(nodes: Seq<BddNode>, p: int, vis: Seq<bool>, fuel: nat) -> (nat, Seq<bool>)
    decreases fuel,
{
    if fuel == 0 || p < 0 || p >= vis.len() || vis[p] {
        (0, vis)
    } else {
        let v1 = vis.update(p, true);
        let n = nodes[p];
        let (a, v2) = visit(nodes, n.low.index as int, v1, (fuel - 1) as nat);
        let (b, v3) = visit(nodes, n.high.index as int, v2, (fuel - 1) as nat);
        (a + b + 1, v3)
    }
}

/// The NEC sum from node `i` on, with the marks `vis` left by the nodes before it.
pub open spec fn nec_from(nodes: Seq<BddNode>, ordering: Map<i32, usize>, i: int, vis: Seq<bool>) -> int
    decreases nodes.len() - i,
{
    if i >= nodes.len() || i < 0 {
        0
    } else {
        let (c, v2) = visit(nodes, i, vis, nodes.len());
        rank_weight(nodes, ordering, i) * c + nec_from(nodes, ordering, i + 1, v2)
    }
}

/// The NEC score of an arena under an ordering: every node, in array order,
/// contributes its variable's rank times the number of nodes first reached
/// from it by a depth-first walk that never revisits a node.
pub open spec fn nec_score(nodes: Seq<BddNode>, ordering: Map<i32, usize>) -> int {
    nec_from(nodes, ordering, 0, Seq::new(nodes.len(), |i: int| false))
}

/// The ranks of `a` and `b` exchanged.
pub open spec fn swap_ranks(ordering: Map<i32, usize>, a: i32, b: i32) -> Map<i32, usize> {
    ordering.insert(a, ordering[b]).insert(b, ordering[a])
}

/// The names of `vars` that sifting may move: ranked, and not the terminal name.
pub open spec fn sift_keys(vars: Seq<BddVar>, ordering: Map<i32, usize>) -> Seq<i32>
    decreases vars.len(),
{
    if vars.len() == 0 {
        seq![]
    } else {
        let name = vars.last().name;
        sift_keys(vars.drop_last(), ordering) + if name != TERMINAL_NAME && ordering.contains_key(name) {
            seq![name]
        } else {
            seq![]
        }
    }
}

/// Sifting from pair `(i, j)` on: try the swap of `keys[i]` and `keys[j]`,
/// keep it when it lowers the score below `current`, and go on with the next
/// pair. Gives the final ordering and whether any swap was kept.
pub open spec fn sift_run(
    nodes: Seq<BddNode>,
    ordering: Map<i32, usize>,
    keys: Seq<i32>,
    i: int,
    j: int,
    current: int,
    kept: bool,
) -> (Map<i32, usize>, bool)
    decreases keys.len() - i, keys.len() - j,
{
    if i >= keys.len() || i < 0 {
        (ordering, kept)
    } else if j >= keys.len() {
        sift_run(nodes, ordering, keys, i + 1, i + 2, current, kept)
    } else {
        let swapped = swap_ranks(ordering, keys[i], keys[j]);
        let score = saturated(nec_score(nodes, swapped));
        if score < current {
            sift_run(nodes, swapped, keys, i, j + 1, score, true)
        } else {
            sift_run(nodes, ordering, keys, i, j + 1, current, kept)
        }
    }
}

/// `b` ranks the same variables as `a`, with the same set of rank values.
pub open spec fn ranks_permuted(a: Map<i32, usize>, b: Map<i32, usize>) -> bool {
    a.dom() == b.dom() && a.values() == b.values()
}

proof fn lemma_swap_permutes(a: Map<i32, usize>, x: i32, y: i32)
    requires
        a.contains_key(x),
        a.contains_key(y),
    ensures
        ranks_permuted(a, swap_ranks(a, x, y)),
{
    let b = swap_ranks(a, x, y);
    assert(b.dom() =~= a.dom());
    assert forall|v: usize| #[trigger] b.values().contains(v) implies a.values().contains(v) by {
        let k = choose|k: i32| b.contains_key(k) && b[k] == v;
        let w = if k == y { x } else if k == x { y } else { k };
        assert(a.contains_key(w) && a[w] == v);
    }
    assert forall|v: usize| #[trigger] a.values().contains(v) implies b.values().contains(v) by {
        let k = choose|k: i32| a.contains_key(k) && a[k] == v;
        let w = if k == x { y } else if k == y { x } else { k };
        assert(b.contains_key(w) && b[w] == v);
    }
    assert(a.values() =~= b.values());
}

/// What sifting guarantees of its result: the ranks are permuted and the
/// score, on the diagram it was scored against, did not grow.
proof fn lemma_sift_run(
    nodes: Seq<BddNode>,
    ordering: Map<i32, usize>,
    keys: Seq<i32>,
    i: int,
    j: int,
    current: int,
    kept: bool,
)
    requires
        current == saturated(nec_score(nodes, ordering)),
        0 <= i < j,
        forall|q: int| 0 <= q < keys.len() ==> #[trigger] ordering.contains_key(keys[q]),
    ensures
        ranks_permuted(ordering, sift_run(nodes, ordering, keys, i, j, current, kept).0),
        saturated(nec_score(nodes, sift_run(nodes, ordering, keys, i, j, current, kept).0)) <= current,
    decreases keys.len() - i, keys.len() - j,
{
    if i >= keys.len() || i < 0 {
        assert(ranks_permuted(ordering, ordering)) by {

        }
    } else if j >= keys.len() {
        lemma_sift_run(nodes, ordering, keys, i + 1, i + 2, current, kept);
    } else {
        let swapped = swap_ranks(ordering, keys[i], keys[j]);
        let score = saturated(nec_score(nodes, swapped));
        lemma_swap_permutes(ordering, keys[i], keys[j]);
        if score < current {
            assert(swapped.dom() =~= ordering.dom());
            assert forall|q: int| 0 <= q < keys.len() implies #[trigger] swapped.contains_key(keys[q]) by {}
            lemma_sift_run(nodes, swapped, keys, i, j + 1, score, true);

        } else {
            lemma_sift_run(nodes, ordering, keys, i, j + 1, current, kept);
        }
    }
}

pub open spec fn saturated(x: int) -> int {
    if x > u128::MAX {
        u128::MAX as int
    } else {
        x
    }
}

impl Bdd {
    /// Depth-first count of the nodes reachable from `p` that were not visited
    /// yet; each is marked visited and counted once.
    fn count_edges(&self, p: usize, visited: &mut Vec<bool>, Ghost(fuel): Ghost<nat>) -> (r: usize)
        requires
            arena_ok(self.nodes@),
            old(visited)@.len() == self.nodes@.len(),
            p < self.nodes@.len(),
            fuel >= self.nodes@.len() - count_true(old(visited)@),
        ensures
            grows(old(visited)@, final(visited)@),
            r == count_true(final(visited)@) - count_true(old(visited)@),
            final(visited)@[p as int],
            (r as nat, final(visited)@) == visit(self.nodes@, p as int, old(visited)@, fuel),
        decreases self.nodes@.len() - count_true(old(visited)@),
    {
        proof {
            lemma_count_bound(visited@);
        }
        if visited[p] {
            return 0;
        }
        let ghost v0 = visited@;
        visited.set(p, true);
        proof {
            lemma_count_set(v0, p as int);
            lemma_count_bound(visited@);
        }
        let node = self.nodes[p];
        proof {
            if p >= 2 {
                assert(node.low.index < self.nodes@.len() && node.high.index < self.nodes@.len());
            } else {
                assert(node.low.index == p && node.high.index == p);
            }
        }
        let ghost v1 = visited@;
        assert(v1 == v0.update(p as int, true));
        assert(grows(v0, v1));
        let a = self.count_edges(node.low.index, visited, Ghost((fuel - 1) as nat));
        let ghost v2 = visited@;
        proof {
            lemma_count_grows(v1, v2);
            lemma_count_bound(v2);
            assert(v1[p as int]);
            assert(v2[p as int]);
        }
        let b = self.count_edges(node.high.index, visited, Ghost((fuel - 1) as nat));
        proof {
            lemma_count_grows(v2, visited@);
            lemma_count_bound(visited@);
            assert(visited@[p as int]);
            assert forall|i: int| 0 <= i < v0.len() && #[trigger] v0[i] implies visited@[i] by {
                assert(v1[i]);
                assert(v2[i]);
            }
            assert(count_true(visited@) <= self.nodes@.len());
            assert(count_true(v1) == count_true(v0) + 1);
            assert(a as int + b as int + 1 == count_true(visited@) - count_true(v0));
            assert(self.nodes@.len() <= usize::MAX) by {
                assert(self.nodes@.len() == self.nodes.len());
            }
        }
        a + b + 1
    }

    /// Node-weighted score of an ordering (see `nec_score`), saturating at `u128::MAX`.
    pub fn calculate_nec_score(&self, ordering: &HashMap<i32, usize>) -> (r: u128)
        requires
            arena_ok(self.nodes@),
        ensures
            r == saturated(nec_score(self.nodes@, ordering@)),
    {
        let mut score: u128 = 0;
        let mut visited: Vec<bool> = Vec::new();
        let n = self.nodes.len();
        let mut i: usize = 0;
        while i < n
            invariant
                i <= n,
                visited@.len() == i,
                forall|j: int| 0 <= j < i ==> !#[trigger] visited@[j],
            decreases n - i,
        {
            visited.push(false);
            i = i + 1;
        }
        proof {
            assert(visited@ =~= Seq::new(n as nat, |i: int| false));
            assert(count_true(visited@) == 0) by {
                lemma_all_false(visited@);
            }
        }
        let ghost total = nec_score(self.nodes@, ordering@);
        let ghost mut acc: int = 0;
        let mut index: usize = 0;
        while index < n
            invariant
                n == self.nodes@.len(),
                arena_ok(self.nodes@),
                visited@.len() == n,
                index <= n,
                forall|i: int| 0 <= i < index ==> #[trigger] visited@[i],
                acc >= 0,
                acc + nec_from(self.nodes@, ordering@, index as int, visited@) == total,
                score as int == saturated(acc),
            decreases n - index,
        {
            let ghost v0 = visited@;
            proof {
                lemma_count_bound(v0);
            }
            let edges = self.count_edges(index, &mut visited, Ghost(n as nat));
            let w_exec: u128 = match ordering.get(&self.nodes[index].var.name) {
                Some(order) => {
                    let product = (*order as u128).checked_mul(edges as u128);
                    let term = match product {
                        Some(t) => t,
                        None => u128::MAX,
                    };
                    score = score.saturating_add(term);
                    term
                },
                None => 0,
            };
            proof {
                let w = rank_weight(self.nodes@, ordering@, index as int);
                let x = w * (edges as int);
                assert(x >= 0) by (nonlinear_arith)
                    requires
                        w >= 0,
                        edges >= 0,
                        x == w * (edges as int),
                ;
                assert(nec_from(self.nodes@, ordering@, index as int, v0) == x + nec_from(self.nodes@, ordering@, index + 1, visited@));
                assert(saturated(acc + x) == saturated(saturated(acc) + saturated(x)));
                acc = acc + x;
                assert forall|i: int| 0 <= i < index + 1 implies #[trigger] visited@[i] by {
                    if i < index {
                        assert(v0[i]);
                    }
                }
            }
            index = index + 1;
        }
        score
    }

    /// Sifting: try every swap of the ranks of two ranked variables of
    /// `variables` (pairs in order), scoring each against the diagram; a swap
    /// that strictly lowers the best score so far is kept, any other is put
    /// back. When a swap was kept, the diagram is then rewritten for the
    /// final ordering by `partial_reorder_bdd`.
    #[verifier::rlimit(100)]
    #[verifier::spinoff_prover]
    pub fn sift_variables_nec(&mut self, ordering: &mut HashMap<i32, usize>, variables: &Vec<BddVar>)
        requires
            nodes_wf(old(self).nodes@),
        ensures
            final(ordering)@ == sift_run(
                old(self).nodes@,
                old(ordering)@,
                sift_keys(variables@, old(ordering)@),
                0,
                1,
                saturated(nec_score(old(self).nodes@, old(ordering)@)),
                false,
            ).0,
            !sift_run(
                old(self).nodes@,
                old(ordering)@,
                sift_keys(variables@, old(ordering)@),
                0,
                1,
                saturated(nec_score(old(self).nodes@, old(ordering)@)),
                false,
            ).1 ==> final(self).nodes@ == old(self).nodes@,
            nodes_wf(final(self).nodes@),
            forall|s: Set<i32>| #[trigger] denotes(final(self).nodes@, s) == denotes(old(self).nodes@, s),
            ranks_permuted(old(ordering)@, final(ordering)@),
            saturated(nec_score(old(self).nodes@, final(ordering)@)) <= saturated(nec_score(old(self).nodes@, old(ordering)@)),
            final(self).nodes@ != old(self).nodes@ ==> nodes_reduced(final(self).nodes@) && nodes_distinct(final(self).nodes@)
                && all_reachable(final(self).nodes@),
            final(self).nodes@ != old(self).nodes@ && ranks_distinct(final(ordering)@) && vars_ranked(old(self).nodes@, final(ordering)@)
                ==> nodes_ordered(final(self).nodes@, final(ordering)@) && rank_sorted(final(self).nodes@, final(ordering)@),
    {
        let ghost nodes = self.nodes@;
        let ghost ord0 = ordering@;
        let mut current_score = self.calculate_nec_score(ordering);
        let mut keys: Vec<i32> = Vec::new();
        let mut k: usize = 0;
        while k < variables.len()
            invariant
                k <= variables@.len(),
                ordering@ == ord0,
                keys@ == sift_keys(variables@.subrange(0, k as int), ord0),
                forall|q: int| 0 <= q < keys@.len() ==> #[trigger] ord0.contains_key(keys@[q]),
            decreases variables@.len() - k,
        {
            let name = variables[k].name;
            if name != TERMINAL_NAME && ordering.contains_key(&name) {
                keys.push(name);
            }
            proof {
                assert(variables@.subrange(0, k + 1).drop_last() =~= variables@.subrange(0, k as int));
                assert(keys@ =~= sift_keys(variables@.subrange(0, k + 1), ord0));
            }
            k = k + 1;
        }
        proof {
            assert(variables@.subrange(0, variables@.len() as int) =~= variables@);
        }
        let ghost target = sift_run(nodes, ord0, keys@, 0, 1, current_score as int, false);
        proof {
            lemma_sift_run(nodes, ord0, keys@, 0, 1, current_score as int, false);
        }
        let mut kept = false;
        let mut i: usize = 0;
        while i < keys.len()
            invariant
                nodes == self.nodes@,
                nodes_wf(nodes),
                i <= keys@.len(),
                forall|q: int| 0 <= q < keys@.len() ==> #[trigger] ordering@.contains_key(keys@[q]),
                ordering@.dom() == ord0.dom(),
                sift_run(nodes, ordering@, keys@, i as int, i + 1, current_score as int, kept) == target,
            decreases keys@.len() - i,
        {
            let mut j: usize = i + 1;
            while j < keys.len()
                invariant
                    nodes == self.nodes@,
                    nodes_wf(nodes),
                    i < keys@.len(),
                    i + 1 <= j <= keys@.len(),
                    forall|q: int| 0 <= q < keys@.len() ==> #[trigger] ordering@.contains_key(keys@[q]),
                    ordering@.dom() == ord0.dom(),
                    sift_run(nodes, ordering@, keys@, i as int, j as int, current_score as int, kept) == target,
                decreases keys@.len() - j,
            {
                let a = keys[i];
                let b = keys[j];
                assert(ordering@.contains_key(keys@[i as int]) && ordering@.contains_key(keys@[j as int]));
                let ghost before = ordering@;
                let ra = *ordering.get(&a).unwrap();
                let rb = *ordering.get(&b).unwrap();
                ordering.insert(a, rb);
                ordering.insert(b, ra);
                proof {
                    assert(ordering@ == swap_ranks(before, a, b));
                    assert(ordering@.dom() =~= ord0.dom());
                }
                let score = self.calculate_nec_score(ordering);
                if score < current_score {
                    current_score = score;
                    kept = true;
                } else {
                    ordering.insert(a, ra);
                    ordering.insert(b, rb);
                    proof {
                        assert(ordering@ =~= before);
                    }
                }
                j = j + 1;
            }
            proof {
                assert(sift_run(nodes, ordering@, keys@, i as int, j as int, current_score as int, kept)
                    == sift_run(nodes, ordering@, keys@, i + 1, i + 2, current_score as int, kept));
            }
            i = i + 1;
        }
        proof {
            assert(sift_run(nodes, ordering@, keys@, i as int, i + 1, current_score as int, kept) == (ordering@, kept));
        }
        if kept {
            self.partial_reorder_bdd(variables, ordering);
        }
        proof {
            if self.nodes@ != nodes {
                assert(touches(nodes, variables@));
            }
        }
    }
}

} // verus!
