use vstd::prelude::*;
use crate::bdd::{Bdd, nodes_wf, root_of};
use crate::bdd_util::{BddNode, BddPointer};

verus! {

/// Where the edge chosen by `step` (high when its flag is set, else low) leads.
pub open spec fn edge_target(nodes: Seq<BddNode>, step: (bool, BddPointer)) -> int {
    if step.0 {
        nodes[step.1.index as int].high.index as int
    } else {
        nodes[step.1.index as int].low.index as int
    }
}

/// A chain of edges read from the bottom: the first step leads to the FALSE
/// terminal and every later step leads to the node of the step before it.
pub open spec fn is_upward_path(nodes: Seq<BddNode>, path: Seq<(bool, BddPointer)>) -> bool {
    &&& path.len() >= 1
    &&& forall|k: int| 0 <= k < path.len() ==> 2 <= (#[trigger] path[k]).1.index < nodes.len()
    &&& edge_target(nodes, path[0]) == 0
    &&& forall|k: int| 1 <= k < path.len() ==> edge_target(nodes, #[trigger] path[k]) == path[k
        - 1].1.index
}

/// An upward chain that ends at the root: a path from the root to FALSE.
pub open spec fn is_conflict_path(nodes: Seq<BddNode>, path: Seq<(bool, BddPointer)>) -> bool {
    &&& is_upward_path(nodes, path)
    &&& path.last().1.index == root_of(nodes)
}

/// `p` begins with `path`.
pub open spec fn extends(p: Seq<(bool, BddPointer)>, path: Seq<(bool, BddPointer)>) -> bool {
    p.len() >= path.len() && p.subrange(0, path.len() as int) == path
}

/// The paths collected from position `from` on all begin with `prefix`, and
/// no two of them are equal.
pub open spec fn fresh_paths(paths: Seq<Vec<(bool, BddPointer)>>, from: int, prefix: Seq<(bool, BddPointer)>) -> bool {
    &&& forall|j: int| from <= j < paths.len() ==> extends(#[trigger] paths[j]@, prefix)
    &&& forall|a: int, b: int| from <= a < b < paths.len() ==> (#[trigger] paths[a])@ != (#[trigger] paths[b])@
}

/// Some collected path is `p`.
pub open spec fn in_paths(paths: Seq<Vec<(bool, BddPointer)>>, p: Seq<(bool, BddPointer)>) -> bool {
    exists|j: int| 0 <= j < paths.len() && paths[j]@ == p
}

/// `step` is among the first `i` entries of `list`.
pub open spec fn starts_at(list: Seq<(bool, BddPointer)>, i: int, step: (bool, BddPointer)) -> bool {
    exists|k: int| 0 <= k < i && list[k] == step
}

/// The edges into the FALSE terminal among the nodes below index `n`, in array order.
pub open spec fn conflicts_below(nodes: Seq<BddNode>, n: int) -> Seq<(bool, BddPointer)>
    decreases n,
{
    if n <= 2 {
        seq![]
    } else {
        let p = n - 1;
        let lows = if nodes[p].low.index == 0 {
            seq![(false, BddPointer { index: p as usize })]
        } else {
            seq![]
        };
        let highs = if nodes[p].high.index == 0 {
            seq![(true, BddPointer { index: p as usize })]
        } else {
            seq![]
        };
        conflicts_below(nodes, p) + lows + highs
    }
}

/// The literal a step contributes: the variable on a high step, its negation on a low one.
/// (`i32::MIN` has no negation in `i32` and stands for itself.)
pub open spec fn literal_of(nodes: Seq<BddNode>, step: (bool, BddPointer)) -> i32 {
    let name = nodes[step.1.index as int].var.name;
    if step.0 || name == i32::MIN {
        name
    } else {
        -name as i32
    }
}

/// The learned clause of a path: its literals read from the root down.
pub open spec fn learned_of(nodes: Seq<BddNode>, path: Seq<(bool, BddPointer)>) -> Seq<i32> {
    Seq::new(path.len(), |k: int| literal_of(nodes, path[path.len() - 1 - k]))
}

/// `c` is the learned clause of some path from the root to FALSE.
pub open spec fn learned_from(nodes: Seq<BddNode>, c: Seq<i32>) -> bool {
    exists|p: Seq<(bool, BddPointer)>| #[trigger] is_conflict_path(nodes, p) && c == learned_of(nodes, p)
}

/// Every step of the path is a decision node of the arena.
pub open spec fn steps_on_decisions(nodes: Seq<BddNode>, path: Seq<(bool, BddPointer)>) -> bool {
    forall|k: int| 0 <= k < path.len() ==> 2 <= (#[trigger] path[k]).1.index < nodes.len()
}

impl Bdd {
    /// Every edge from a decision node into the FALSE terminal, as (branch, node).
    pub fn find_terminal_nodes_conflicts(&self) -> (r: Vec<(bool, BddPointer)>)
        requires
            nodes_wf(self.nodes@),
        ensures
            r@ == conflicts_below(self.nodes@, self.nodes@.len() as int),
    {
        let mut terminal_nodes: Vec<(bool, BddPointer)> = Vec::new();
        let n = self.nodes.len();
        let mut i: usize = 2;
        if n < 2 {
            return terminal_nodes;
        }
        while i < n
            invariant
                n == self.nodes@.len(),
                2 <= i <= n,
                terminal_nodes@ == conflicts_below(self.nodes@, i as int),
            decreases n - i,
        {
            let ptr = BddPointer::new(i);
            if self.low_node_ptr(ptr).index == 0 {
                terminal_nodes.push((false, ptr));
            }
            if self.high_node_ptr(ptr).index == 0 {
                terminal_nodes.push((true, ptr));
            }
            proof {
                let nodes = self.nodes@;
                let lows = if nodes[i as int].low.index == 0 {
                    seq![(false, BddPointer { index: i })]
                } else {
                    seq![]
                };
                let highs = if nodes[i as int].high.index == 0 {
                    seq![(true, BddPointer { index: i })]
                } else {
                    seq![]
                };
                assert(conflicts_below(nodes, i + 1) == conflicts_below(nodes, i as int) + lows + highs);
                assert(terminal_nodes@ =~= conflicts_below(nodes, i + 1));
            }
            i = i + 1;
        }
        terminal_nodes
    }

    /// Every path from the root to the FALSE terminal, each read from the bottom up.
    pub fn get_conflict_paths(&self) -> (r: Vec<Vec<(bool, BddPointer)>>)
        requires
            nodes_wf(self.nodes@),
        ensures
            forall|i: int| 0 <= i < r@.len() ==> is_conflict_path(self.nodes@, #[trigger] r@[i]@),
            forall|p: Seq<(bool, BddPointer)>| #[trigger] is_conflict_path(self.nodes@, p) ==> in_paths(r@, p),
            forall|a: int, b: int| 0 <= a < b < r@.len() ==> (#[trigger] r@[a])@ != (#[trigger] r@[b])@,
    {
        let mut conflict_paths: Vec<Vec<(bool, BddPointer)>> = Vec::new();
        let terminal_nodes = self.find_terminal_nodes_conflicts();
        proof {
            assert(self.nodes@.len() <= usize::MAX) by {
                assert(self.nodes@.len() == self.nodes.len());
            }
            lemma_conflicts_distinct(self.nodes@, self.nodes@.len() as int);
        }
        let mut i: usize = 0;
        while i < terminal_nodes.len()
            invariant
                nodes_wf(self.nodes@),
                terminal_nodes@ == conflicts_below(self.nodes@, self.nodes@.len() as int),
                forall|j: int| 0 <= j < conflict_paths@.len() ==> is_conflict_path(self.nodes@, #[trigger] conflict_paths@[j]@),
                forall|p: Seq<(bool, BddPointer)>| #[trigger] is_conflict_path(self.nodes@, p) && starts_at(terminal_nodes@, i as int, p[0]) ==> in_paths(conflict_paths@, p),
                i <= terminal_nodes@.len(),
                terminal_nodes@.no_duplicates(),
                forall|a: int, b: int| 0 <= a < b < conflict_paths@.len() ==> (#[trigger] conflict_paths@[a])@ != (#[trigger] conflict_paths@[b])@,
                forall|j: int| 0 <= j < conflict_paths@.len() ==> starts_at(terminal_nodes@, i as int, (#[trigger] conflict_paths@[j])@[0]),
            decreases terminal_nodes@.len() - i,
        {
            let (pol, node) = terminal_nodes[i];
            proof {
                assert(self.nodes@.len() <= usize::MAX) by {
                    assert(self.nodes@.len() == self.nodes.len());
                }
                lemma_conflicts_below(self.nodes@, self.nodes@.len() as int, i as int);
            }
            let mut current_path: Vec<(bool, BddPointer)> = Vec::new();
            current_path.push((pol, node));
            let ghost before = conflict_paths@;
            self.traverse_bottom_up(node, &mut current_path, &mut conflict_paths);
            proof {
                assert forall|p: Seq<(bool, BddPointer)>| #[trigger] is_conflict_path(self.nodes@, p) && starts_at(terminal_nodes@, i + 1, p[0]) implies in_paths(conflict_paths@, p) by {
                    if starts_at(terminal_nodes@, i as int, p[0]) {
                        let j = choose|j: int| 0 <= j < before.len() && before[j]@ == p;
                        assert(conflict_paths@[j] == before[j]);
                    } else {
                        assert(p[0] == terminal_nodes@[i as int]);
                        assert(p.subrange(0, 1) =~= current_path@);
                    }
                }
                let o = before.len() as int;
                assert forall|j: int| 0 <= j < conflict_paths@.len() implies starts_at(terminal_nodes@, i + 1, (#[trigger] conflict_paths@[j])@[0]) by {
                    if j < o {
                        assert(conflict_paths@[j] == before[j]);
                    } else {
                        assert(extends(conflict_paths@[j]@, current_path@));
                        assert(conflict_paths@[j]@.subrange(0, 1)[0] == current_path@[0]);
                    }
                }
                assert forall|a: int, b: int| 0 <= a < b < conflict_paths@.len() implies (#[trigger] conflict_paths@[a])@ != (#[trigger] conflict_paths@[b])@ by {
                    if b < o {
                        assert(conflict_paths@[a] == before[a] && conflict_paths@[b] == before[b]);
                    } else if a < o {
                        assert(conflict_paths@[a] == before[a]);
                        assert(starts_at(terminal_nodes@, i as int, before[a]@[0]));
                        let k = choose|k: int| 0 <= k < i && terminal_nodes@[k] == before[a]@[0];
                        assert(extends(conflict_paths@[b]@, current_path@));
                        assert(conflict_paths@[b]@.subrange(0, 1)[0] == current_path@[0]);
                        assert(terminal_nodes@[k] != terminal_nodes@[i as int]);
                    }
                }
            }
            i = i + 1;
        }
        proof {
            assert(self.nodes@.len() <= usize::MAX) by {
                assert(self.nodes@.len() == self.nodes.len());
            }
            assert forall|p: Seq<(bool, BddPointer)>| #[trigger] is_conflict_path(self.nodes@, p) implies in_paths(conflict_paths@, p) by {
                lemma_conflicts_complete(self.nodes@, self.nodes@.len() as int, p[0]);
                let k = choose|k: int| 0 <= k < terminal_nodes@.len() && terminal_nodes@[k] == p[0];
                assert(starts_at(terminal_nodes@, terminal_nodes@.len() as int, p[0]));
            }
        }
        conflict_paths
    }

    /// Extend `current_path`, which ends at `current_ptr`, by every chain of
    /// parents up to the root; each completed path is added to `conflict_paths`.
    pub fn traverse_bottom_up(
        &self,
        current_ptr: BddPointer,
        current_path: &mut Vec<(bool, BddPointer)>,
        conflict_paths: &mut Vec<Vec<(bool, BddPointer)>>,
    )
        requires
            nodes_wf(self.nodes@),
            is_upward_path(self.nodes@, old(current_path)@),
            old(current_path)@.last().1 == current_ptr,
            forall|j: int| 0 <= j < old(conflict_paths)@.len() ==> is_conflict_path(self.nodes@, #[trigger] old(conflict_paths)@[j]@),
        ensures
            final(current_path)@ == old(current_path)@,
            final(conflict_paths)@.len() >= old(conflict_paths)@.len(),
            forall|j: int| 0 <= j < old(conflict_paths)@.len() ==> #[trigger] final(conflict_paths)@[j] == old(conflict_paths)@[j],
            forall|j: int| 0 <= j < final(conflict_paths)@.len() ==> is_conflict_path(self.nodes@, #[trigger] final(conflict_paths)@[j]@),
            forall|p: Seq<(bool, BddPointer)>| #[trigger] is_conflict_path(self.nodes@, p) && extends(p, old(current_path)@) ==> in_paths(final(conflict_paths)@, p),
            fresh_paths(final(conflict_paths)@, old(conflict_paths)@.len() as int, old(current_path)@),
        decreases self.nodes@.len() - current_ptr.index,
    {
        let n = self.nodes.len();
        if current_ptr.index == n - 1 {
            // the root is the last node
            let copy = copy_path(current_path);
            conflict_paths.push(copy);
            proof {
                assert(root_of(self.nodes@) == n - 1);
                assert forall|j: int| 0 <= j < conflict_paths@.len() implies is_conflict_path(self.nodes@, #[trigger] conflict_paths@[j]@) by {
                    if j < old(conflict_paths)@.len() {
                        assert(conflict_paths@[j] == old(conflict_paths)@[j]);
                    }
                }
                assert forall|p: Seq<(bool, BddPointer)>| #[trigger] is_conflict_path(self.nodes@, p) && extends(p, old(current_path)@) implies in_paths(conflict_paths@, p) by {
                    let m = current_path@.len() as int;
                    if p.len() > m {
                        let s = p[m];
                        assert(edge_target(self.nodes@, s) == p[m - 1].1.index);
                        assert(p.subrange(0, m)[m - 1] == p[m - 1]);
                        assert(2 <= s.1.index < n);
                        assert(self.nodes@[s.1.index as int].low.index < s.1.index);
                        assert(self.nodes@[s.1.index as int].high.index < s.1.index);
                    }
                    assert(p =~= current_path@);
                    assert(conflict_paths@[conflict_paths@.len() - 1]@ == p);
                }
                assert(extends(conflict_paths@[conflict_paths@.len() - 1]@, current_path@)) by {
                    assert(current_path@.subrange(0, current_path@.len() as int) =~= current_path@);
                }
            }
            return;
        }
        let mut i: usize = current_ptr.index + 1;
        proof {
            assert forall|p: Seq<(bool, BddPointer)>| #[trigger] is_conflict_path(self.nodes@, p) && extends(p, current_path@)
                && p.len() > current_path@.len() && p[current_path@.len() as int].1.index < i implies in_paths(conflict_paths@, p) by {
                let m = current_path@.len() as int;
                let st = p[m];
                assert(edge_target(self.nodes@, st) == p[m - 1].1.index);
                assert(p.subrange(0, m)[m - 1] == p[m - 1]);
                assert(2 <= st.1.index < n);
                assert(self.nodes@[st.1.index as int].low.index < st.1.index);
                assert(self.nodes@[st.1.index as int].high.index < st.1.index);
            }
        }
        while i < n
            invariant
                n == self.nodes@.len(),
                nodes_wf(self.nodes@),
                current_ptr.index < i <= n,
                current_ptr.index < n - 1,
                current_path@ == old(current_path)@,
                is_upward_path(self.nodes@, current_path@),
                current_path@.last().1 == current_ptr,
                conflict_paths@.len() >= old(conflict_paths)@.len(),
                forall|j: int| 0 <= j < old(conflict_paths)@.len() ==> #[trigger] conflict_paths@[j] == old(conflict_paths)@[j],
                forall|j: int| 0 <= j < conflict_paths@.len() ==> is_conflict_path(self.nodes@, #[trigger] conflict_paths@[j]@),
                forall|p: Seq<(bool, BddPointer)>| #[trigger] is_conflict_path(self.nodes@, p) && extends(p, current_path@)
                    && p.len() > current_path@.len() && p[current_path@.len() as int].1.index < i ==> in_paths(conflict_paths@, p),
                fresh_paths(conflict_paths@, old(conflict_paths)@.len() as int, current_path@),
                forall|j: int| old(conflict_paths)@.len() <= j < conflict_paths@.len() ==> (#[trigger] conflict_paths@[j])@.len()
                    > current_path@.len() && conflict_paths@[j]@[current_path@.len() as int].1.index < i,
            decreases n - i,
        {
            let ptr = BddPointer::new(i);
            let ghost cp0 = conflict_paths@;
            self.climb(current_ptr, ptr, false, current_path, conflict_paths);
            let ghost cp1 = conflict_paths@;
            self.climb(current_ptr, ptr, true, current_path, conflict_paths);
            proof {
                let m = current_path@.len() as int;
                let o = old(conflict_paths)@.len() as int;
                assert forall|j: int| o <= j < conflict_paths@.len() implies (#[trigger] conflict_paths@[j])@.len()
                    > m && conflict_paths@[j]@[m].1.index < i + 1 && extends(conflict_paths@[j]@, current_path@) by {
                    if j < cp0.len() {
                        assert(cp1[j] == cp0[j]);
                        assert(conflict_paths@[j] == cp1[j]);
                    } else if j < cp1.len() {
                        assert(conflict_paths@[j] == cp1[j]);
                        assert(extends(cp1[j]@, current_path@.push((false, ptr))));
                        assert(cp1[j]@.subrange(0, m + 1)[m] == (false, ptr));
                        assert(cp1[j]@.subrange(0, m) =~= cp1[j]@.subrange(0, m + 1).subrange(0, m));
                        assert(current_path@.push((false, ptr)).subrange(0, m) =~= current_path@);
                    } else {
                        assert(extends(conflict_paths@[j]@, current_path@.push((true, ptr))));
                        assert(conflict_paths@[j]@.subrange(0, m + 1)[m] == (true, ptr));
                        assert(conflict_paths@[j]@.subrange(0, m) =~= conflict_paths@[j]@.subrange(0, m + 1).subrange(0, m));
                        assert(current_path@.push((true, ptr)).subrange(0, m) =~= current_path@);
                    }
                }
                assert forall|a: int, b: int| o <= a < b < conflict_paths@.len() implies (#[trigger] conflict_paths@[a])@ != (#[trigger] conflict_paths@[b])@ by {
                    if b < cp1.len() {
                        assert(conflict_paths@[a] == cp1[a] && conflict_paths@[b] == cp1[b]);
                        if b < cp0.len() {
                            assert(cp1[a] == cp0[a] && cp1[b] == cp0[b]);
                        } else if a < cp0.len() {
                            assert(cp1[a] == cp0[a]);
                            assert(cp0[a]@[m].1.index < i);
                            assert(cp1[b]@.subrange(0, m + 1)[m] == (false, ptr));
                        }
                    } else if a < cp1.len() {
                        assert(conflict_paths@[a] == cp1[a]);
                        assert(conflict_paths@[b]@.subrange(0, m + 1)[m] == (true, ptr));
                        if a < cp0.len() {
                            assert(cp1[a] == cp0[a]);
                            assert(cp0[a]@[m].1.index < i);
                        } else {
                            assert(cp1[a]@.subrange(0, m + 1)[m] == (false, ptr));
                        }
                    }
                }
                assert forall|p: Seq<(bool, BddPointer)>| #[trigger] is_conflict_path(self.nodes@, p) && extends(p, current_path@)
                    && p.len() > current_path@.len() && p[current_path@.len() as int].1.index < i + 1 implies in_paths(conflict_paths@, p) by {
                    let st = p[current_path@.len() as int];
                    if st.1.index == i {
                        assert(st.1 == ptr);
                        if st.0 {
                            assert(st == (true, ptr));
                        } else {
                            assert(st == (false, ptr));
                            assert(in_paths(cp1, p));
                            let j = choose|j: int| 0 <= j < cp1.len() && cp1[j]@ == p;
                            assert(conflict_paths@[j] == cp1[j]);
                        }
                    } else {
                        assert(in_paths(cp0, p));
                        let j = choose|j: int| 0 <= j < cp0.len() && cp0[j]@ == p;
                        assert(cp1[j] == cp0[j]);
                        assert(conflict_paths@[j] == cp1[j]);
                    }
                }
            }
            i = i + 1;
        }
        proof {
            assert forall|p: Seq<(bool, BddPointer)>| #[trigger] is_conflict_path(self.nodes@, p) && extends(p, old(current_path)@) implies in_paths(conflict_paths@, p) by {
                let m = current_path@.len() as int;
                if p.len() == m {
                    assert(p =~= current_path@);
                    assert(p.last().1.index == root_of(self.nodes@));
                }
                assert(p.len() > m);
                assert(p[m].1.index < n);
            }
        }
    }

    /// If the `high`/low edge of `ptr` leads to `current_ptr`, follow it upward.
    fn climb(
        &self,
        current_ptr: BddPointer,
        ptr: BddPointer,
        high: bool,
        current_path: &mut Vec<(bool, BddPointer)>,
        conflict_paths: &mut Vec<Vec<(bool, BddPointer)>>,
    )
        requires
            nodes_wf(self.nodes@),
            current_ptr.index < ptr.index < self.nodes@.len(),
            is_upward_path(self.nodes@, old(current_path)@),
            old(current_path)@.last().1 == current_ptr,
            forall|j: int| 0 <= j < old(conflict_paths)@.len() ==> is_conflict_path(self.nodes@, #[trigger] old(conflict_paths)@[j]@),
        ensures
            final(current_path)@ == old(current_path)@,
            final(conflict_paths)@.len() >= old(conflict_paths)@.len(),
            forall|j: int| 0 <= j < old(conflict_paths)@.len() ==> #[trigger] final(conflict_paths)@[j] == old(conflict_paths)@[j],
            forall|j: int| 0 <= j < final(conflict_paths)@.len() ==> is_conflict_path(self.nodes@, #[trigger] final(conflict_paths)@[j]@),
            forall|p: Seq<(bool, BddPointer)>| #[trigger] is_conflict_path(self.nodes@, p) && extends(p, old(current_path)@)
                && p.len() > old(current_path)@.len() && p[old(current_path)@.len() as int] == (high, ptr) ==> in_paths(final(conflict_paths)@, p),
            fresh_paths(final(conflict_paths)@, old(conflict_paths)@.len() as int, old(current_path)@.push((high, ptr))),
        decreases self.nodes@.len() - current_ptr.index, 0int,
    {
        let child = if high {
            self.high_node_ptr(ptr)
        } else {
            self.low_node_ptr(ptr)
        };
        if child.index == current_ptr.index {
            let ghost before = current_path@;
            let ghost before_paths = conflict_paths@;
            current_path.push((high, ptr));
            proof {
                assert forall|k: int| 1 <= k < current_path@.len() implies edge_target(self.nodes@, #[trigger] current_path@[k]) == current_path@[k - 1].1.index by {
                    if k < before.len() {
                        assert(current_path@[k] == before[k]);
                        assert(current_path@[k - 1] == before[k - 1]);
                    }
                }
                assert(current_path@[0] == before[0]);
            }
            self.traverse_bottom_up(ptr, current_path, conflict_paths);
            let ghost extended = current_path@;
            current_path.pop();
            proof {
                assert(current_path@ =~= before);
                assert(extended =~= before.push((high, ptr)));
                assert forall|p: Seq<(bool, BddPointer)>| #[trigger] is_conflict_path(self.nodes@, p) && extends(p, before)
                    && p.len() > before.len() && p[before.len() as int] == (high, ptr) implies in_paths(conflict_paths@, p) by {
                    assert(p.subrange(0, extended.len() as int) =~= extended);
                }
            }
        } else {
            proof {
                assert forall|p: Seq<(bool, BddPointer)>| #[trigger] is_conflict_path(self.nodes@, p) && extends(p, old(current_path)@)
                    && p.len() > old(current_path)@.len() && p[old(current_path)@.len() as int] == (high, ptr) implies in_paths(conflict_paths@, p) by {
                    let m = old(current_path)@.len() as int;
                    assert(edge_target(self.nodes@, p[m]) == p[m - 1].1.index);
                    assert(p.subrange(0, m)[m - 1] == p[m - 1]);
                }
            }
        }
    }

    /// One learned clause per path: the path's literals from the root down.
    pub fn build_learned_clause(&self, conflict_paths: &Vec<Vec<(bool, BddPointer)>>) -> (r: Vec<Vec<i32>>)
        requires
            forall|i: int| 0 <= i < conflict_paths@.len() ==> steps_on_decisions(self.nodes@, #[trigger] conflict_paths@[i]@),
        ensures
            r@.len() == conflict_paths@.len(),
            forall|i: int| 0 <= i < r@.len() ==> #[trigger] r@[i]@ == learned_of(self.nodes@, conflict_paths@[i]@),
    {
        let mut learned_clauses: Vec<Vec<i32>> = Vec::new();
        let mut i: usize = 0;
        while i < conflict_paths.len()
            invariant
                i <= conflict_paths@.len(),
                learned_clauses@.len() == i,
                forall|i: int| 0 <= i < conflict_paths@.len() ==> steps_on_decisions(self.nodes@, #[trigger] conflict_paths@[i]@),
                forall|j: int| 0 <= j < i ==> #[trigger] learned_clauses@[j]@ == learned_of(self.nodes@, conflict_paths@[j]@),
            decreases conflict_paths@.len() - i,
        {
            let path = &conflict_paths[i];
            assert(steps_on_decisions(self.nodes@, path@));
            let mut learned_clause: Vec<i32> = Vec::new();
            let mut k: usize = path.len();
            while k > 0
                invariant
                    k <= path@.len(),
                    steps_on_decisions(self.nodes@, path@),
                    learned_clause@.len() == path@.len() - k,
                    forall|m: int| 0 <= m < learned_clause@.len() ==> #[trigger] learned_clause@[m] == literal_of(self.nodes@, path@[path@.len() - 1 - m]),
                decreases k,
            {
                k = k - 1;
                let (pol, ptr) = path[k];
                let var = self.var_of_ptr(ptr);
                if pol || var.name == i32::MIN {
                    learned_clause.push(var.name);
                } else {
                    learned_clause.push(-var.name);
                }
            }
            assert(learned_clause@ =~= learned_of(self.nodes@, path@));
            learned_clauses.push(learned_clause);
            i = i + 1;
        }
        learned_clauses
    }

    /// The learned clauses of the diagram: one per path from the root to FALSE.
    pub fn learned_clauses(&self) -> (r: Vec<Vec<i32>>)
        requires
            nodes_wf(self.nodes@),
        ensures
            forall|k: int| 0 <= k < r@.len() ==> learned_from(self.nodes@, #[trigger] r@[k]@),
            forall|p: Seq<(bool, BddPointer)>| #[trigger] is_conflict_path(self.nodes@, p) ==> exists|k: int|
                0 <= k < r@.len() && r@[k]@ == learned_of(self.nodes@, p),
    {
        let paths = self.get_conflict_paths();
        assert forall|i: int| 0 <= i < paths@.len() implies steps_on_decisions(self.nodes@, #[trigger] paths@[i]@) by {
            assert(is_conflict_path(self.nodes@, paths@[i]@));
        }
        let r = self.build_learned_clause(&paths);
        proof {
            assert forall|k: int| 0 <= k < r@.len() implies learned_from(self.nodes@, #[trigger] r@[k]@) by {
                assert(is_conflict_path(self.nodes@, paths@[k]@));
            }
            assert forall|p: Seq<(bool, BddPointer)>| #[trigger] is_conflict_path(self.nodes@, p) implies exists|k: int|
                0 <= k < r@.len() && r@[k]@ == learned_of(self.nodes@, p) by {
                assert(in_paths(paths@, p));
                let j = choose|j: int| 0 <= j < paths@.len() && paths@[j]@ == p;
                assert(r@[j]@ == learned_of(self.nodes@, p));
            }
        }
        r
    }
}

/// The wire form of clauses: each clause's literals followed by a `0`.
pub open spec fn wire_of(clauses: Seq<Seq<i32>>) -> Seq<i32>
    decreases clauses.len(),
{
    if clauses.len() == 0 {
        seq![]
    } else {
        wire_of(clauses.drop_last()) + clauses.last().push(0)
    }
}

/// Lay out learned clauses for a solver: literals of each clause in order,
/// each clause terminated by `0`.
pub fn flatten_learned(learned: &Vec<Vec<i32>>) -> (r: Vec<i32>)
    requires
        wire_of(learned@.map_values(|c: Vec<i32>| c@)).len() <= usize::MAX,
    ensures
        r@ == wire_of(learned@.map_values(|c: Vec<i32>| c@)),
{
    let ghost cs = learned@.map_values(|c: Vec<i32>| c@);
    let mut out: Vec<i32> = Vec::new();
    let mut i: usize = 0;
    while i < learned.len()
        invariant
            cs == learned@.map_values(|c: Vec<i32>| c@),
            i <= learned@.len(),
            out@ == wire_of(cs.subrange(0, i as int)),
        decreases learned@.len() - i,
    {
        let clause = &learned[i];
        let ghost pre = out@;
        let mut k: usize = 0;
        while k < clause.len()
            invariant
                k <= clause@.len(),
                out@ == pre + clause@.subrange(0, k as int),
            decreases clause@.len() - k,
        {
            out.push(clause[k]);
            k = k + 1;
            assert(out@ =~= pre + clause@.subrange(0, k as int));
        }
        out.push(0);
        proof {
            assert(cs.subrange(0, i + 1).drop_last() =~= cs.subrange(0, i as int));
            assert(cs.subrange(0, i + 1).last() == clause@);
            assert(clause@.subrange(0, k as int) =~= clause@);
            assert(out@ =~= wire_of(cs.subrange(0, i + 1)));
        }
        i = i + 1;
    }
    assert(cs.subrange(0, learned@.len() as int) =~= cs);
    out
}

/// Every edge into FALSE from a decision node below `n` is listed.
proof fn lemma_conflicts_complete(nodes: Seq<BddNode>, n: int, step: (bool, BddPointer))
    requires
        n <= nodes.len(),
        n <= usize::MAX,
        2 <= step.1.index < n,
        edge_target(nodes, step) == 0,
    ensures
        conflicts_below(nodes, n).contains(step),
    decreases n,
{
    let p = n - 1;
    let pre = conflicts_below(nodes, p);
    let lows = if nodes[p].low.index == 0 {
        seq![(false, BddPointer { index: p as usize })]
    } else {
        seq![]
    };
    let highs = if nodes[p].high.index == 0 {
        seq![(true, BddPointer { index: p as usize })]
    } else {
        seq![]
    };
    let c = conflicts_below(nodes, n);
    assert(c == pre + lows + highs);
    if step.1.index < p {
        lemma_conflicts_complete(nodes, p, step);
        let k = choose|k: int| 0 <= k < pre.len() && pre[k] == step;
        assert(c[k] == step);
    } else if step.0 {
        assert(c[(pre.len() + lows.len()) as int] == step);
    } else {
        assert(c[pre.len() as int] == step);
    }
}

/// The listed edges into FALSE are distinct.
proof fn lemma_conflicts_distinct(nodes: Seq<BddNode>, n: int)
    requires
        n <= nodes.len(),
        n <= usize::MAX,
    ensures
        conflicts_below(nodes, n).no_duplicates(),
    decreases n,
{
    if n > 2 {
        let p = n - 1;
        lemma_conflicts_distinct(nodes, p);
        let pre = conflicts_below(nodes, p);
        let lows = if nodes[p].low.index == 0 {
            seq![(false, BddPointer { index: p as usize })]
        } else {
            seq![]
        };
        let highs = if nodes[p].high.index == 0 {
            seq![(true, BddPointer { index: p as usize })]
        } else {
            seq![]
        };
        let c = conflicts_below(nodes, n);
        assert(c == pre + lows + highs);
        assert forall|a: int, b: int| 0 <= a < b < c.len() implies c[a] != c[b] by {
            if a < pre.len() {
                lemma_conflicts_below(nodes, p, a);
                if b < pre.len() {
                    assert(c[a] == pre[a] && c[b] == pre[b]);
                } else {
                    assert(c[a] == pre[a]);
                    assert(c[b].1.index == p);
                }
            } else {
                assert(c[a].1.index == p && c[b].1.index == p);
                assert(lows.len() == 1 && a == pre.len() && c[a].0 == false);
                assert(c[b].0 == true);
            }
        }
    }
}

fn copy_path(path: &Vec<(bool, BddPointer)>) -> (r: Vec<(bool, BddPointer)>)
    ensures
        r@ == path@,
{
    let mut r: Vec<(bool, BddPointer)> = Vec::new();
    let mut i: usize = 0;
    while i < path.len()
        invariant
            i <= path@.len(),
            r@ == path@.subrange(0, i as int),
        decreases path@.len() - i,
    {
        r.push(path[i]);
        i = i + 1;
        assert(r@ =~= path@.subrange(0, i as int));
    }
    assert(path@.subrange(0, path@.len() as int) =~= path@);
    r
}

/// Each entry of `conflicts_below` is an edge into FALSE from a decision node.
proof fn lemma_conflicts_below(nodes: Seq<BddNode>, n: int, i: int)
    requires
        n <= nodes.len(),
        n <= usize::MAX,
        0 <= i < conflicts_below(nodes, n).len(),
    ensures
        2 <= conflicts_below(nodes, n)[i].1.index < n,
        edge_target(nodes, conflicts_below(nodes, n)[i]) == 0,
    decreases n,
{
    if n > 2 {
        let p = n - 1;
        let pre = conflicts_below(nodes, p);
        let lows = if nodes[p].low.index == 0 {
            seq![(false, BddPointer { index: p as usize })]
        } else {
            seq![]
        };
        let highs = if nodes[p].high.index == 0 {
            seq![(true, BddPointer { index: p as usize })]
        } else {
            seq![]
        };
        let c = conflicts_below(nodes, n);
        assert(c == pre + lows + highs);
        if i < pre.len() {
            lemma_conflicts_below(nodes, p, i);
            assert(c[i] == pre[i]);
        } else if i < pre.len() + lows.len() {
            assert(c[i] == lows[i - pre.len()]);
        } else {
            assert(c[i] == highs[i - pre.len() - lows.len()]);
        }
    }
}

} // verus!
