use std::collections::HashMap;
use vstd::prelude::*;
use crate::apply::{nodes_ordered, rank, rank_of, ranks_distinct, top_rank, vars_ranked};
use crate::sift::count_true;
use crate::bdd::{Bdd, denotes, lemma_value_push, nodes_distinct, nodes_reduced, nodes_wf, root_of, value};
use crate::bdd_util::TERMINAL_NAME;
use crate::bdd_util::{BddNode, BddPointer, BddVar};

verus! {

broadcast use vstd::std_specs::hash::group_hash_axioms;

/// `q` can be reached from `p` by following edges (each edge leads to a lower index).
pub open spec fn reachable(nodes: Seq<BddNode>, p: int, q: int) -> bool
    decreases p,
{
    if p == q {
        true
    } else if p < 2 || p >= nodes.len() {
        false
    } else {
        let lo = nodes[p].low.index as int;
        let hi = nodes[p].high.index as int;
        (0 <= lo < p && reachable(nodes, lo, q)) || (0 <= hi < p && reachable(nodes, hi, q))
    }
}

/// Every decision node can be reached from the root.
pub open spec fn all_reachable(nodes: Seq<BddNode>) -> bool {
    forall|k: int| 2 <= k < nodes.len() ==> #[trigger] reachable(nodes, root_of(nodes), k)
}

/// The decision nodes sit in non-increasing rank.
pub open spec fn rank_sorted(nodes: Seq<BddNode>, ordering: Map<i32, usize>) -> bool {
    forall|i: int, j: int|
        2 <= i < j < nodes.len() ==> rank_of(ordering, (#[trigger] nodes[i]).var.name) >= rank_of(
            ordering,
            (#[trigger] nodes[j]).var.name,
        )
}

/// A node with both pointers renamed by `pos`.
pub open spec fn renamed(n: BddNode, pos: Seq<usize>) -> BddNode {
    BddNode {
        var: n.var,
        low: BddPointer { index: pos[n.low.index as int] },
        high: BddPointer { index: pos[n.high.index as int] },
    }
}

/// Following an edge out of a reachable decision node stays reachable.
proof fn lemma_reach_extend(nodes: Seq<BddNode>, p: int, q: int)
    requires
        nodes_wf(nodes),
        reachable(nodes, p, q),
        2 <= q < nodes.len(),
    ensures
        reachable(nodes, p, nodes[q].low.index as int),
        reachable(nodes, p, nodes[q].high.index as int),
    decreases p,
{
    let lo = nodes[q].low.index as int;
    let hi = nodes[q].high.index as int;
    assert(lo < q && hi < q);
    assert(reachable(nodes, lo, lo));
    assert(reachable(nodes, hi, hi));
    if p != q {
        let plo = nodes[p].low.index as int;
        let phi = nodes[p].high.index as int;
        if 0 <= plo < p && reachable(nodes, plo, q) {
            lemma_reach_extend(nodes, plo, q);
        } else {
            lemma_reach_extend(nodes, phi, q);
        }
    }
}

/// A set closed under edges holds everything reachable from its members.
proof fn lemma_reach_closed(nodes: Seq<BddNode>, mark: Seq<bool>, p: int, q: int)
    requires
        nodes_wf(nodes),
        mark.len() == nodes.len(),
        0 <= p < nodes.len(),
        mark[p],
        forall|m: int| 2 <= m < nodes.len() && #[trigger] mark[m] ==> mark[nodes[m].low.index as int] && mark[nodes[m].high.index as int],
        reachable(nodes, p, q),
    ensures
        mark[q],
    decreases p,
{
    if p != q {
        let lo = nodes[p].low.index as int;
        let hi = nodes[p].high.index as int;
        if 0 <= lo < p && reachable(nodes, lo, q) {
            lemma_reach_closed(nodes, mark, lo, q);
        } else {
            lemma_reach_closed(nodes, mark, hi, q);
        }
    }
}

/// Some decision node of the arena tests a variable of `vars`.
pub open spec fn touches(nodes: Seq<BddNode>, vars: Seq<BddVar>) -> bool {
    exists|i: int| 2 <= i < nodes.len() && vars.contains(#[trigger] nodes[i].var)
}

/// Both children of `q` are already placed.
pub open spec fn ready(d: Seq<BddNode>, placed: Seq<bool>, q: int) -> bool {
    placed[d[q].low.index as int] && placed[d[q].high.index as int]
}

/// The layout built so far: every placed node of `d` sits at `pos` of it in
/// `out`, with its pointers renamed by `pos`, after its children; `src`
/// names the node of `d` behind each entry of `out`.
pub open spec fn layout_ok(d: Seq<BddNode>, out: Seq<BddNode>, pos: Seq<usize>, placed: Seq<bool>, src: Seq<int>) -> bool {
    &&& out.len() >= 2
    &&& d.len() >= 2
    &&& out[0] == d[0]
    &&& out[1] == d[1]
    &&& pos.len() == d.len()
    &&& placed.len() == d.len()
    &&& src.len() == out.len()
    &&& placed[0] && placed[1] && pos[0] == 0 && pos[1] == 1
    &&& forall|q: int|
        2 <= q < d.len() && #[trigger] placed[q] ==> 2 <= pos[q] < out.len() && src[pos[q] as int] == q
            && out[pos[q] as int] == renamed(d[q], pos) && pos[d[q].low.index as int] < pos[q]
            && pos[d[q].high.index as int] < pos[q] && ready(d, placed, q)
    &&& forall|k: int| 2 <= k < out.len() ==> 2 <= #[trigger] src[k] < d.len() && placed[src[k]] && pos[src[k]] == k
}

/// Placing `best` next keeps the layout sound.
proof fn lemma_emit_layout(d: Seq<BddNode>, out: Seq<BddNode>, pos: Seq<usize>, placed: Seq<bool>, src: Seq<int>, best: int)
    requires
        nodes_wf(d),
        layout_ok(d, out, pos, placed, src),
        2 <= best < d.len(),
        !placed[best],
        ready(d, placed, best),
        out.len() <= usize::MAX,
    ensures
        layout_ok(
            d,
            out.push(renamed(d[best], pos)),
            pos.update(best, out.len() as usize),
            placed.update(best, true),
            src.push(best),
        ),
        renamed(d[best], pos.update(best, out.len() as usize)) == renamed(d[best], pos),
{
    let k = out.len() as usize;
    let out2 = out.push(renamed(d[best], pos));
    let pos2 = pos.update(best, k);
    let placed2 = placed.update(best, true);
    let src2 = src.push(best);
    let lo = d[best].low.index as int;
    let hi = d[best].high.index as int;
    assert(lo < best && hi < best);
    assert(renamed(d[best], pos2) == renamed(d[best], pos));
    assert forall|q: int| 2 <= q < d.len() && #[trigger] placed2[q] implies 2 <= pos2[q] < out2.len() && src2[pos2[q] as int] == q
        && out2[pos2[q] as int] == renamed(d[q], pos2) && pos2[d[q].low.index as int] < pos2[q]
        && pos2[d[q].high.index as int] < pos2[q] && ready(d, placed2, q) by {
        if q == best {
            if lo >= 2 {
                assert(placed[lo]);
            }
            if hi >= 2 {
                assert(placed[hi]);
            }
            assert(pos2[lo] == pos[lo] && pos2[hi] == pos[hi]);
            assert(pos[lo] < out.len()) by {
                if lo >= 2 {
                    assert(placed[lo]);
                }
            }
            assert(pos[hi] < out.len()) by {
                if hi >= 2 {
                    assert(placed[hi]);
                }
            }
        } else {
            assert(placed[q]);
            let ql = d[q].low.index as int;
            let qh = d[q].high.index as int;
            assert(ql != best && qh != best);
            assert(renamed(d[q], pos2) == renamed(d[q], pos));
        }
    }
    assert forall|j: int| 2 <= j < out2.len() implies 2 <= #[trigger] src2[j] < d.len() && placed2[src2[j]] && pos2[src2[j]] == j by {
        if j < out.len() {
            assert(src2[j] == src[j]);
            assert(src[j] != best);
        }
    }
}

/// A remaining node either is ready or has a remaining child of higher rank;
/// so some remaining node is ready, and under an ordered diagram one whose
/// rank is at least that of `q`.
proof fn lemma_ready_exists(
    d: Seq<BddNode>,
    ord: Map<i32, usize>,
    mark: Seq<bool>,
    placed: Seq<bool>,
    rem: Seq<bool>,
    good: bool,
    q: int,
)
    requires
        nodes_wf(d),
        mark.len() == d.len(),
        placed.len() == d.len(),
        rem.len() == d.len(),
        placed[0] && placed[1],
        forall|m: int| 2 <= m < d.len() && #[trigger] mark[m] ==> mark[d[m].low.index as int] && mark[d[m].high.index as int],
        forall|x: int| 0 <= x < d.len() ==> #[trigger] rem[x] == (x >= 2 && mark[x] && !placed[x]),
        good ==> nodes_ordered(d, ord) && vars_ranked(d, ord),
        0 <= q < d.len(),
        rem[q],
    ensures
        exists|r: int| 0 <= r < d.len() && #[trigger] rem[r] && ready(d, placed, r) && (good ==> rank_of(ord, d[r].var.name) >= rank_of(ord, d[q].var.name)),
    decreases q,
{
    if ready(d, placed, q) {
        assert(rem[q]);
    } else {
        let lo = d[q].low.index as int;
        let hi = d[q].high.index as int;
        let c = if !placed[lo] { lo } else { hi };
        assert(c < q);
        assert(mark[c]);
        assert(c >= 2);
        assert(rem[c]);
        if good {
            assert(top_rank(d, ord, c) > rank_of(ord, d[q].var.name));
        }
        lemma_ready_exists(d, ord, mark, placed, rem, good, c);
    }
}

/// Reachability carries over to the laid-out arena.
proof fn lemma_reach_transfer(d: Seq<BddNode>, out: Seq<BddNode>, pos: Seq<usize>, placed: Seq<bool>, src: Seq<int>, p: int, q: int)
    requires
        nodes_wf(d),
        layout_ok(d, out, pos, placed, src),
        0 <= p < d.len(),
        placed[p],
        forall|a: int, c: int| 0 <= a < d.len() && 0 <= c < d.len() && placed[a] && #[trigger] reachable(d, a, c) ==> placed[c],
        reachable(d, p, q),
        0 <= q < d.len(),
    ensures
        reachable(out, pos[p] as int, pos[q] as int),
    decreases p,
{
    if p != q && pos[p] != pos[q] {
        let lo = d[p].low.index as int;
        let hi = d[p].high.index as int;
        assert(p >= 2);
        assert(out[pos[p] as int] == renamed(d[p], pos));
        if 0 <= lo < p && reachable(d, lo, q) {
            assert(reachable(d, lo, lo));
            assert(placed[lo]);
            lemma_reach_transfer(d, out, pos, placed, src, lo, q);
        } else {
            assert(reachable(d, hi, hi));
            assert(placed[hi]);
            lemma_reach_transfer(d, out, pos, placed, src, hi, q);
        }
    }
}

/// Lay out a diagram again: only the nodes reachable from the root, each
/// placed after its children, choosing each time among the nodes whose
/// children are placed the one of largest rank number. For an ordered diagram the
/// nodes so come in non-increasing rank.
#[verifier::rlimit(100)]
#[verifier::spinoff_prover]
fn lay_out(diagram: &Vec<BddNode>, ordering: &HashMap<i32, usize>) -> (out: Vec<BddNode>)
    requires
        nodes_wf(diagram@),
        nodes_reduced(diagram@),
        nodes_distinct(diagram@),
        diagram@.len() >= 3,
    ensures
        nodes_wf(out@),
        nodes_reduced(out@),
        nodes_distinct(out@),
        all_reachable(out@),
        forall|s: Set<i32>| #[trigger] denotes(out@, s) == denotes(diagram@, s),
        nodes_ordered(diagram@, ordering@) && vars_ranked(diagram@, ordering@) ==> nodes_ordered(out@, ordering@)
            && vars_ranked(out@, ordering@) && rank_sorted(out@, ordering@),
{
    let ghost d = diagram@;
    let ghost ord = ordering@;
    let ghost good = nodes_ordered(d, ord) && vars_ranked(d, ord);
    let n = diagram.len();
    let root = n - 1;
    let mark = mark_reachable(diagram);
    proof {
        assert forall|m: int| 2 <= m < n && #[trigger] mark@[m] implies mark@[d[m].low.index as int] && mark@[d[m].high.index as int] by {
            lemma_reach_extend(d, root as int, m);
        }
    }
    let mut out: Vec<BddNode> = Vec::new();
    out.push(diagram[0]);
    out.push(diagram[1]);
    let mut pos: Vec<usize> = Vec::new();
    let mut placed: Vec<bool> = Vec::new();
    let mut rem: Vec<bool> = Vec::new();
    let mut k: usize = 0;
    while k < n
        invariant
            n == d.len(),
            k <= n,
            pos@.len() == k,
            placed@.len() == k,
            rem@.len() == k,
            mark@.len() == n,
            forall|j: int| 0 <= j < k ==> #[trigger] pos@[j] == (if j < 2 { j as usize } else { 0usize }),
            forall|j: int| 0 <= j < k ==> #[trigger] placed@[j] == (j < 2),
            forall|j: int| 0 <= j < k ==> #[trigger] rem@[j] == (j >= 2 && mark@[j]),
        decreases n - k,
    {
        pos.push(if k < 2 { k } else { 0 });
        placed.push(k < 2);
        rem.push(k >= 2 && mark[k]);
        k = k + 1;
    }
    let ghost mut src: Seq<int> = seq![0int, 1int];
    proof {
        assert(layout_ok(d, out@, pos@, placed@, src));
        assert forall|a: int, c: int| 0 <= a < n && 0 <= c < n && placed@[a] && #[trigger] reachable(d, a, c) implies placed@[c] by {
            assert(placed@[a] == (a < 2));
            assert(a < 2);
            if a != c {
                assert(!reachable(d, a, c));
            } else {
                assert(placed@[c]);
            }
        }
        assert forall|q: int, sv: Set<i32>| 0 <= q < n && placed@[q] implies #[trigger] value(out@, pos@[q] as int, sv) == value(d, q, sv) by {
            assert(q < 2);
        }
        assert(mark@[root as int]);
        if good {
            assert(rank_sorted(out@, ord));
        }
        lemma_count_bound_le(rem@);
    }
    let mut done = false;
    while !done
        invariant
            n == d.len(),
            d == diagram@,
            ord == ordering@,
            nodes_wf(d),
            nodes_reduced(d),
            nodes_distinct(d),
            n >= 3,
            root == n - 1,
            good == (nodes_ordered(d, ord) && vars_ranked(d, ord)),
            mark@.len() == n,
            forall|q: int| 0 <= q < n ==> (#[trigger] mark@[q] <==> reachable(d, root as int, q)),
            forall|m: int| 2 <= m < n && #[trigger] mark@[m] ==> mark@[d[m].low.index as int] && mark@[d[m].high.index as int],
            layout_ok(d, out@, pos@, placed@, src),
            rem@.len() == n,
            forall|x: int| 0 <= x < n ==> #[trigger] rem@[x] == (x >= 2 && mark@[x] && !placed@[x]),
            forall|a: int, c: int| 0 <= a < n && 0 <= c < n && placed@[a] && #[trigger] reachable(d, a, c) ==> placed@[c],
            forall|q: int, sv: Set<i32>| 0 <= q < n && placed@[q] ==> #[trigger] value(out@, pos@[q] as int, sv) == value(d, q, sv),
            placed@[root as int] ==> pos@[root as int] == out@.len() - 1,
            forall|x: int| 2 <= x < n && #[trigger] placed@[x] ==> mark@[x],
            out@.len() <= n,
            good ==> rank_sorted(out@, ord),
            good ==> forall|j: int, x: int| 2 <= j < out@.len() && 0 <= x < n && #[trigger] rem@[x] ==> rank_of(ord, (#[trigger] out@[j]).var.name) >= rank_of(ord, d[x].var.name),
            done ==> forall|x: int| 0 <= x < n ==> !#[trigger] rem@[x],
        decreases count_true(rem@) + (if done { 0int } else { 1int }),
    {
        let mut best: Option<usize> = None;
        let mut best_rank: usize = 0;
        let mut q: usize = 2;
        while q < n
            invariant
                n == d.len(),
                d == diagram@,
                ord == ordering@,
                2 <= q <= n,
                rem@.len() == n,
                placed@.len() == n,
                best matches Some(b) ==> 2 <= b < n && rem@[b as int] && ready(d, placed@, b as int) && best_rank == rank_of(ord, d[b as int].var.name),
                best matches Some(b) ==> forall|x: int| 2 <= x < q && #[trigger] rem@[x] && ready(d, placed@, x) ==> rank_of(ord, d[x].var.name) <= best_rank,
                best is None ==> forall|x: int| 2 <= x < q ==> !(#[trigger] rem@[x] && ready(d, placed@, x)),
                nodes_wf(d),
            decreases n - q,
        {
            if rem[q] {
                let node = diagram[q];
                if placed[node.low.index] && placed[node.high.index] {
                    let r = rank(ordering, node.var.name);
                    match best {
                        None => {
                            best = Some(q);
                            best_rank = r;
                        },
                        Some(_) => {
                            if r > best_rank {
                                best = Some(q);
                                best_rank = r;
                            }
                        },
                    }
                }
            }
            q = q + 1;
        }
        match best {
            None => {
                proof {
                    assert forall|x: int| 0 <= x < n implies !#[trigger] rem@[x] by {
                        if rem@[x] {
                            lemma_ready_exists(d, ord, mark@, placed@, rem@, good, x);
                            let r = choose|r: int| 0 <= r < n && #[trigger] rem@[r] && ready(d, placed@, r) && (good ==> rank_of(ord, d[r].var.name) >= rank_of(ord, d[x].var.name));
                            assert(r >= 2);
                        }
                    }
                }
                done = true;
            },
            Some(b) => {
                let node = diagram[b];
                let new_node = BddNode::mk_node(node.var, BddPointer::new(pos[node.low.index]), BddPointer::new(pos[node.high.index]));
                let ghost out0 = out@;
                let ghost pos0 = pos@;
                let ghost placed0 = placed@;
                let ghost rem0 = rem@;
                let ghost src0 = src;
                let kk = out.len();
                proof {
                    assert(new_node == renamed(d[b as int], pos0));
                    lemma_emit_layout(d, out0, pos0, placed0, src0, b as int);
                    assert(mark@[b as int]);
                }
                out.push(new_node);
                pos.set(b, kk);
                placed.set(b, true);
                rem.set(b, false);
                proof {
                    src = src.push(b as int);
                    lemma_count_clear(rem0, b as int);
                    let lo = d[b as int].low.index as int;
                    let hi = d[b as int].high.index as int;
                    assert(lo < b && hi < b);
                    assert forall|x: int| 0 <= x < n implies #[trigger] rem@[x] == (x >= 2 && mark@[x] && !placed@[x]) by {
                        if x != b {
                            assert(rem0[x] == rem@[x]);
                        }
                    }
                    assert forall|x: int| 2 <= x < n && #[trigger] placed@[x] implies mark@[x] by {
                        if x != b {
                            assert(placed0[x]);
                        }
                    }
                    assert forall|a: int, c: int| 0 <= a < n && 0 <= c < n && placed@[a] && #[trigger] reachable(d, a, c) implies placed@[c] by {
                        if a == b && c != b {
                            if 0 <= lo < b && reachable(d, lo, c) {
                                assert(reachable(d, lo, lo));
                                assert(placed0[lo]);
                                assert(placed0[c]);
                            } else {
                                assert(reachable(d, b as int, c));
                                assert(0 <= hi < b && reachable(d, hi, c));
                                assert(reachable(d, hi, hi));
                                assert(placed0[hi]);
                                assert(placed0[c]);
                            }
                            assert(placed@[c] == placed0[c]);
                        } else if a != b {
                            assert(placed0[a]);
                            assert(placed0[c]);
                            if c != b {
                                assert(placed@[c] == placed0[c]);
                            }
                        }
                    }
                    assert forall|x: int, sv: Set<i32>| 0 <= x < n && placed@[x] implies #[trigger] value(out@, pos@[x] as int, sv) == value(d, x, sv) by {
                        if x == b {
                            let c = if sv.contains(d[x].var.name) { hi } else { lo };
                            assert(placed0[c]);
                            assert(pos0[c] < kk) by {
                                if c >= 2 {
                                    assert(placed0[c]);
                                }
                            }
                            lemma_value_push(out0, new_node, pos0[c] as int, sv);
                            assert(value(out0, pos0[c] as int, sv) == value(d, c, sv));
                            assert(pos@[c] == pos0[c]);
                            assert(out@[kk as int] == new_node);
                        } else {
                            assert(placed0[x]);
                            assert(pos@[x] == pos0[x]);
                            assert(pos0[x] < kk) by {
                                if x >= 2 {
                                    assert(placed0[x]);
                                }
                            }
                            lemma_value_push(out0, new_node, pos0[x] as int, sv);
                        }
                    }
                    if placed@[root as int] {
                        if b != root {
                            assert(placed0[root as int]);
                            assert(reachable(d, root as int, b as int));
                            assert(placed0[b as int]);
                        }
                    }
                    assert(out@.len() <= n) by {
                        // every entry of out beyond the terminals is a distinct placed node
                        lemma_src_bound(d, out@, pos@, placed@, src);
                    }
                    if good {
                        lemma_ready_exists(d, ord, mark@, placed0, rem0, good, b as int);
                        assert forall|x: int| 0 <= x < n && #[trigger] rem0[x] implies rank_of(ord, d[x].var.name) <= best_rank by {
                            lemma_ready_exists(d, ord, mark@, placed0, rem0, good, x);
                            let r = choose|r: int| 0 <= r < n && #[trigger] rem0[r] && ready(d, placed0, r) && (good ==> rank_of(ord, d[r].var.name) >= rank_of(ord, d[x].var.name));
                            assert(r >= 2);
                        }
                        assert forall|i: int, j: int| 2 <= i < j < out@.len() implies rank_of(ord, (#[trigger] out@[i]).var.name) >= rank_of(ord, (#[trigger] out@[j]).var.name) by {
                            if j < kk {
                                assert(out@[i] == out0[i] && out@[j] == out0[j]);
                            } else {
                                assert(out@[i] == out0[i]);
                                assert(rem0[b as int]);
                            }
                        }
                        assert forall|j: int, x: int| 2 <= j < out@.len() && 0 <= x < n && #[trigger] rem@[x] implies rank_of(ord, (#[trigger] out@[j]).var.name) >= rank_of(ord, d[x].var.name) by {
                            assert(rem0[x]);
                            if j < kk {
                                assert(out@[j] == out0[j]);
                            }
                        }
                    }
                }
            },
        }
    }
    proof {
        assert(mark@[root as int]);
        assert(!rem@[root as int]);
        lemma_layout_final(d, ord, out@, pos@, placed@, src, mark@, root as int, good);
    }
    out
}

proof fn lemma_layout_final(
    d: Seq<BddNode>,
    ord: Map<i32, usize>,
    o: Seq<BddNode>,
    pos: Seq<usize>,
    placed: Seq<bool>,
    src: Seq<int>,
    mark: Seq<bool>,
    root: int,
    good: bool,
)
    requires
        nodes_wf(d),
        nodes_reduced(d),
        nodes_distinct(d),
        d.len() >= 3,
        root == d.len() - 1,
        good == (nodes_ordered(d, ord) && vars_ranked(d, ord)),
        mark.len() == d.len(),
        forall|q: int| 0 <= q < d.len() ==> (#[trigger] mark[q] <==> reachable(d, root, q)),
        layout_ok(d, o, pos, placed, src),
        placed[root],
        forall|a: int, c: int| 0 <= a < d.len() && 0 <= c < d.len() && placed[a] && #[trigger] reachable(d, a, c) ==> placed[c],
        forall|q: int, sv: Set<i32>| 0 <= q < d.len() && placed[q] ==> #[trigger] value(o, pos[q] as int, sv) == value(d, q, sv),
        pos[root] == o.len() - 1,
        forall|x: int| 2 <= x < d.len() && #[trigger] placed[x] ==> mark[x],
        good ==> rank_sorted(o, ord),
    ensures
        nodes_wf(o),
        nodes_reduced(o),
        nodes_distinct(o),
        all_reachable(o),
        forall|s: Set<i32>| #[trigger] denotes(o, s) == denotes(d, s),
        good ==> nodes_ordered(o, ord) && vars_ranked(o, ord) && rank_sorted(o, ord),
{
        assert(placed[root]);
        let pr = pos[root] as int;
        assert(pr >= 2 && pr == o.len() - 1);
        assert(root_of(o) == pr);
        // arena shape
        assert forall|i: int| 2 <= i < o.len() implies #[trigger] o[i].low.index < i && o[i].high.index < i
            && o[i].var.name != TERMINAL_NAME && o[i].low.index < o.len() && o[i].high.index < o.len() && o[i].low != o[i].high by {
            let x = src[i];
            assert(placed[x] && pos[x] == i);
            let lo = d[x].low.index as int;
            let hi = d[x].high.index as int;
            if pos[lo] == pos[hi] {
                if lo >= 2 && hi >= 2 {
                    assert(src[pos[lo] as int] == lo);
                    assert(src[pos[hi] as int] == hi);
                } else if lo >= 2 {
                    assert(pos[lo] >= 2);
                } else if hi >= 2 {
                    assert(pos[hi] >= 2);
                }
                assert(lo == hi);
            }
        }
        assert(nodes_wf(o));
        assert forall|i: int| 2 <= i < o.len() implies #[trigger] o[i].low != o[i].high by {
            let x = src[i];
            let lo = d[x].low.index as int;
            let hi = d[x].high.index as int;
            assert(d[x].low != d[x].high);
            assert(lo != hi);
            assert(placed[lo] && placed[hi]);
            if pos[lo] == pos[hi] {
                lemma_pos_injective(d, o, pos, placed, src, lo, hi);
            }
            assert(o[i] == renamed(d[x], pos));
        }
        assert(nodes_reduced(o));
        assert forall|i: int, j: int| 0 <= i < j < o.len() implies #[trigger] o[i] != #[trigger] o[j] by {
            if i >= 2 {
                let x = src[i];
                let y = src[j];
                assert(x != y) by {
                    assert(pos[x] == i && pos[y] == j);
                }
                if o[i] == o[j] {
                    lemma_pos_injective(d, o, pos, placed, src, d[x].low.index as int, d[y].low.index as int);
                    lemma_pos_injective(d, o, pos, placed, src, d[x].high.index as int, d[y].high.index as int);
                    assert(d[x] == d[y]);
                    if x < y {
                        assert(d[x] != d[y]);
                    } else {
                        assert(d[y] != d[x]);
                    }
                }
            } else if j >= 2 {
                assert(o[i].low == o[i].high);
            } else {
                assert(i == 0 && j == 1);
            }
        }
        assert forall|s: Set<i32>| #[trigger] denotes(o, s) == denotes(d, s) by {
            assert(value(o, pos[root] as int, s) == value(d, root, s));
        }
        assert forall|kx: int| 2 <= kx < o.len() implies #[trigger] reachable(o, root_of(o), kx) by {
            let x = src[kx];
            assert(mark[x]);
            lemma_reach_transfer(d, o, pos, placed, src, root, x);
        }
        if good {
            assert forall|i: int| 2 <= i < o.len() implies top_rank(o, ord, #[trigger] o[i].low.index as int) > rank_of(ord, o[i].var.name)
                && top_rank(o, ord, o[i].high.index as int) > rank_of(ord, o[i].var.name) by {
                let x = src[i];
                let lo = d[x].low.index as int;
                let hi = d[x].high.index as int;
                assert(top_rank(d, ord, lo) > rank_of(ord, d[x].var.name));
                assert(top_rank(d, ord, hi) > rank_of(ord, d[x].var.name));
                if lo >= 2 {
                    assert(o[pos[lo] as int] == renamed(d[lo], pos));
                }
                if hi >= 2 {
                    assert(o[pos[hi] as int] == renamed(d[hi], pos));
                }
            }
            assert forall|i: int| 2 <= i < o.len() implies ord.contains_key(#[trigger] o[i].var.name) by {
                let x = src[i];
                assert(ord.contains_key(d[x].var.name));
            }
        }
    }

proof fn lemma_pos_injective(d: Seq<BddNode>, out: Seq<BddNode>, pos: Seq<usize>, placed: Seq<bool>, src: Seq<int>, a: int, b: int)
    requires
        layout_ok(d, out, pos, placed, src),
        0 <= a < d.len(),
        0 <= b < d.len(),
        placed[a],
        placed[b],
        pos[a] == pos[b],
    ensures
        a == b,
{
    if a >= 2 {
        assert(src[pos[a] as int] == a);
        if b >= 2 {
            assert(src[pos[b] as int] == b);
        }
    } else if b >= 2 {
        assert(pos[b] >= 2);
    }
}

proof fn lemma_src_bound(d: Seq<BddNode>, out: Seq<BddNode>, pos: Seq<usize>, placed: Seq<bool>, src: Seq<int>)
    requires
        layout_ok(d, out, pos, placed, src),
    ensures
        out.len() <= d.len(),
{
    // src maps the decision entries of out injectively into 2..d.len()
    let s = Set::new(|k: int| 2 <= k < out.len());
    let t = Set::new(|x: int| 2 <= x < d.len());
    assert(s =~= vstd::set_lib::set_int_range(2, out.len() as int));
    assert(t =~= vstd::set_lib::set_int_range(2, d.len() as int));
    vstd::set_lib::lemma_int_range(2, out.len() as int);
    vstd::set_lib::lemma_int_range(2, d.len() as int);
    let img = s.map(|k: int| src[k]);
    assert forall|x: int| img.contains(x) implies t.contains(x) by {
        let k = choose|k: int| s.contains(k) && src[k] == x;
    }
    assert forall|k1: int, k2: int| s.contains(k1) && s.contains(k2) && src[k1] == src[k2] implies k1 == k2 by {
        assert(pos[src[k1]] == k1 && pos[src[k2]] == k2);
    }
    vstd::set_lib::lemma_map_size(s, img, |k: int| src[k]);
    vstd::set_lib::lemma_len_subset(img, t);
}

/// Which pointers can be reached from the root (the last node).
fn mark_reachable(nodes: &Vec<BddNode>) -> (mark: Vec<bool>)
    requires
        nodes_wf(nodes@),
        nodes@.len() >= 3,
    ensures
        mark@.len() == nodes@.len(),
        forall|q: int| 0 <= q < nodes@.len() ==> (#[trigger] mark@[q] <==> reachable(nodes@, nodes@.len() - 1, q)),
{
    let n = nodes.len();
    let ghost d = nodes@;
    let root = n - 1;
    let mut mark: Vec<bool> = Vec::new();
    let mut k: usize = 0;
    while k < n
        invariant
            k <= n,
            mark@.len() == k,
            forall|j: int| 0 <= j < k ==> !#[trigger] mark@[j],
        decreases n - k,
    {
        mark.push(false);
        k = k + 1;
    }
    mark.set(root, true);
    let mut i: usize = root;
    while i >= 2
        invariant
            n == d.len(),
            d == nodes@,
            nodes_wf(d),
            n >= 3,
            root == n - 1,
            1 <= i <= root,
            mark@.len() == n,
            mark@[root as int],
            forall|q: int| 0 <= q < n && #[trigger] mark@[q] ==> reachable(d, root as int, q),
            forall|m: int| i < m < n && m >= 2 && #[trigger] mark@[m] ==> mark@[d[m].low.index as int] && mark@[d[m].high.index as int],
        decreases i,
    {
        if mark[i] {
            let lo = nodes[i].low.index;
            let hi = nodes[i].high.index;
            proof {
                lemma_reach_extend(d, root as int, i as int);
            }
            mark.set(lo, true);
            mark.set(hi, true);
            proof {
                assert(lo < i && hi < i);
                assert forall|m: int| i - 1 < m < n && m >= 2 && #[trigger] mark@[m] implies mark@[d[m].low.index as int] && mark@[d[m].high.index as int] by {
                    if m != i {
                        assert(m > i);
                    }
                }
            }
        }
        i = i - 1;
    }
    proof {
        assert forall|q: int| 0 <= q < n implies (#[trigger] mark@[q] <==> reachable(d, n - 1, q)) by {
            if reachable(d, n - 1, q) {
                lemma_reach_closed(d, mark@, n - 1, q);
            }
        }
    }
    mark
}

proof fn lemma_count_clear(s: Seq<bool>, i: int)
    requires
        0 <= i < s.len(),
        s[i],
    ensures
        count_true(s.update(i, false)) + 1 == count_true(s),
    decreases s.len(),
{
    if i < s.len() - 1 {
        assert(s.update(i, false).drop_last() =~= s.drop_last().update(i, false));
        lemma_count_clear(s.drop_last(), i);
    } else {
        assert(s.update(i, false).drop_last() =~= s.drop_last());
    }
}

proof fn lemma_count_bound_le(s: Seq<bool>)
    ensures
        count_true(s) <= s.len(),
    decreases s.len(),
{
    if s.len() > 0 {
        lemma_count_bound_le(s.drop_last());
    }
}

fn var_in(vars: &Vec<BddVar>, v: BddVar) -> (r: bool)
    ensures
        r == vars@.contains(v),
{
    let mut i: usize = 0;
    while i < vars.len()
        invariant
            i <= vars@.len(),
            forall|j: int| 0 <= j < i ==> vars@[j] != v,
        decreases vars@.len() - i,
    {
        if vars[i] == v {
            return true;
        }
        i = i + 1;
    }
    false
}

impl Bdd {
    /// Rewrite the diagram for a new ordering. When some decision node tests
    /// a variable of `affected_vars`, the diagram is rebuilt bottom-up under
    /// `new_ordering`: each node `(x, low, high)` becomes
    /// `(x AND high') OR (NOT x AND low')` over the rebuilt children. The
    /// result is then laid out again: only the nodes reachable from the
    /// root, each after its children, by non-increasing new rank, with every
    /// pointer renamed to the new positions. When no node is affected the
    /// diagram stays as it is. Either way the diagram keeps its function.
    pub fn partial_reorder_bdd(&mut self, affected_vars: &Vec<BddVar>, new_ordering: &HashMap<i32, usize>)
        requires
            nodes_wf(old(self).nodes@),
        ensures
            nodes_wf(final(self).nodes@),
            forall|s: Set<i32>| #[trigger] denotes(final(self).nodes@, s) == denotes(old(self).nodes@, s),
            !touches(old(self).nodes@, affected_vars@) ==> final(self).nodes@ == old(self).nodes@,
            touches(old(self).nodes@, affected_vars@) ==> nodes_reduced(final(self).nodes@)
                && nodes_distinct(final(self).nodes@) && all_reachable(final(self).nodes@),
            touches(old(self).nodes@, affected_vars@) && ranks_distinct(new_ordering@) && vars_ranked(
                old(self).nodes@,
                new_ordering@,
            ) ==> nodes_ordered(final(self).nodes@, new_ordering@) && vars_ranked(final(self).nodes@, new_ordering@)
                && rank_sorted(final(self).nodes@, new_ordering@),
    {
        let ghost nodes = self.nodes@;
        let n = self.nodes.len();
        if n < 3 {
            return;
        }
        let mut affected = false;
        let mut i: usize = 2;
        while i < n
            invariant
                n == nodes.len(),
                nodes == self.nodes@,
                2 <= i <= n,
                affected == exists|k: int| 2 <= k < i && affected_vars@.contains(#[trigger] nodes[k].var),
            decreases n - i,
        {
            let hit = var_in(affected_vars, self.nodes[i].var);
            proof {
                assert((affected || hit) <==> exists|k: int| 2 <= k < i + 1 && affected_vars@.contains(#[trigger] nodes[k].var)) by {
                    if hit {
                        assert(affected_vars@.contains(nodes[i as int].var));
                    }
                    if exists|k: int| 2 <= k < i + 1 && affected_vars@.contains(#[trigger] nodes[k].var) {
                        let k = choose|k: int| 2 <= k < i + 1 && affected_vars@.contains(#[trigger] nodes[k].var);
                        if k < i {
                            assert(affected);
                        }
                    }
                }
            }
            affected = affected || hit;
            i = i + 1;
        }
        if !affected {
            return;
        }
        let ghost good = ranks_distinct(new_ordering@) && vars_ranked(nodes, new_ordering@);
        // built[q] is the rebuilt diagram of the function below pointer q
        let mut built: Vec<Bdd> = Vec::new();
        built.push(Bdd::new_false());
        built.push(Bdd::new_true());
        let mut p: usize = 2;
        while p < n
            invariant
                n == nodes.len(),
                nodes == self.nodes@,
                nodes_wf(nodes),
                2 <= p <= n,
                built@.len() == p,
                good == (ranks_distinct(new_ordering@) && vars_ranked(nodes, new_ordering@)),
                forall|q: int| 0 <= q < p ==> nodes_wf(#[trigger] built@[q].nodes@) && nodes_reduced(built@[q].nodes@)
                    && nodes_distinct(built@[q].nodes@),
                forall|q: int| 0 <= q < p && good ==> nodes_ordered(#[trigger] built@[q].nodes@, new_ordering@)
                    && vars_ranked(built@[q].nodes@, new_ordering@),
                forall|q: int, s: Set<i32>| 0 <= q < p ==> #[trigger] denotes(built@[q].nodes@, s) == value(nodes, q, s),
            decreases n - p,
        {
            let node = self.nodes[p];
            let lo = node.low.index;
            let hi = node.high.index;
            assert(lo < p && hi < p);
            let ghost bl = built@[lo as int];
            let ghost bh = built@[hi as int];
            let mut x = Bdd::new_var(node.var);
            let high_part = x.and(&built[hi], new_ordering);
            let mut nx = Bdd::new_not_var(node.var);
            let low_part = nx.and(&built[lo], new_ordering);
            let mut hp = high_part;
            let r = hp.or(&low_part, new_ordering);
            proof {
                if good {
                    assert(new_ordering@.contains_key(nodes[p as int].var.name));
                }
                assert forall|s: Set<i32>| #[trigger] denotes(r.nodes@, s) == value(nodes, p as int, s) by {
                    assert(denotes(bl.nodes@, s) == value(nodes, lo as int, s));
                    assert(denotes(bh.nodes@, s) == value(nodes, hi as int, s));
                }
            }
            built.push(r);
            proof {
                assert forall|q: int, s: Set<i32>| 0 <= q < p + 1 implies #[trigger] denotes(built@[q].nodes@, s) == value(nodes, q, s) by {
                    if q == p {
                        assert(built@[q] == r);
                    }
                }
            }
            p = p + 1;
        }
        let result = built.pop().unwrap();
        proof {
            assert(result == built@.push(result)[n - 1]);
            assert forall|s: Set<i32>| #[trigger] denotes(result.nodes@, s) == denotes(nodes, s) by {
                assert(root_of(nodes) == n - 1);
            }
        }
        if result.nodes.len() >= 3 {
            let laid = lay_out(&result.nodes, new_ordering);
            self.nodes = laid;
        } else {
            self.nodes = result.nodes;
        }
    }
}

} // verus!
