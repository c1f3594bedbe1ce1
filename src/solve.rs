use std::collections::HashMap;
use vstd::prelude::*;
use crate::bdd::{Bdd, denotes, nodes_reduced, nodes_wf, root_of, value};
use crate::bdd_util::BddVar;
use crate::apply::{nodes_ordered, rank_of, top_rank, vars_ranked};

verus! {

broadcast use vstd::std_specs::hash::group_hash_axioms;

/// Why no satisfying assignment came out of a diagram.
#[derive(Clone, Copy, Debug, PartialEq, Eq, Structural)]
pub enum SolveError {
    /// The diagram is the constant FALSE.
    Unsatisfiable,
    /// The path followed tests one variable twice (the diagram is not ordered).
    RepeatedVariable,
}

/// `s` gives every variable of `m` the value `m` assigns it.
pub open spec fn agrees(s: Set<i32>, m: Map<i32, bool>) -> bool {
    forall|v: i32| #[trigger] m.contains_key(v) ==> (s.contains(v) == m[v])
}

impl Bdd {
    /// A satisfying assignment: descend from the root, taking the high edge
    /// unless it leads to FALSE. In a reduced diagram every decision node has
    /// an edge that does not lead to FALSE, so the descent ends at TRUE.
    pub fn solve(&self, variables: &Vec<BddVar>) -> (r: Result<HashMap<i32, bool>, SolveError>)
        requires
            nodes_wf(self.nodes@),
            nodes_reduced(self.nodes@),
        ensures
            (r == Err::<HashMap<i32, bool>, SolveError>(SolveError::Unsatisfiable)) <==> self.nodes@.len() == 1,
            self.nodes@.len() == 2 ==> r is Ok,
            self.nodes@.len() >= 2 && (exists|ord: Map<i32, usize>| nodes_ordered(self.nodes@, ord) && vars_ranked(self.nodes@, ord)) ==> r is Ok,
            r matches Ok(m) ==> forall|s: Set<i32>| agrees(s, m@) ==> #[trigger] denotes(self.nodes@, s),
    {
        if self.is_false() {
            return Err(SolveError::Unsatisfiable);
        }
        let ghost nodes = self.nodes@;
        let ghost ordered = exists|ord: Map<i32, usize>| nodes_ordered(nodes, ord) && vars_ranked(nodes, ord);
        let ghost ord = if ordered {
            choose|ord: Map<i32, usize>| nodes_ordered(nodes, ord) && vars_ranked(nodes, ord)
        } else {
            Map::empty()
        };
        let mut assignment: HashMap<i32, bool> = HashMap::with_capacity(variables.len());
        let mut p: usize = self.root_pointer().to_index();
        while p >= 2
            invariant
                nodes == self.nodes@,
                nodes_wf(nodes),
                nodes_reduced(nodes),
                nodes.len() >= 2,
                1 <= p < nodes.len(),
                ordered ==> nodes_ordered(nodes, ord) && vars_ranked(nodes, ord),
                ordered == (exists|o: Map<i32, usize>| nodes_ordered(self.nodes@, o) && vars_ranked(self.nodes@, o)),
                ordered ==> forall|v: i32| #[trigger] assignment@.contains_key(v) ==> ord.contains_key(v) && (ord[v] as int) < top_rank(nodes, ord, p as int),
                forall|s: Set<i32>| agrees(s, assignment@) ==> value(nodes, p as int, s) == value(
                    nodes,
                    root_of(nodes),
                    s,
                ),
            decreases p,
        {
            let node = self.nodes[p];
            if assignment.contains_key(&node.var.name) {
                proof {
                    if ordered {
                        assert(ord.contains_key(node.var.name));
                        assert(top_rank(nodes, ord, p as int) == ord[node.var.name] as int);
                        assert(assignment@.contains_key(node.var.name));
                        assert(false);
                    }
                }
                return Err(SolveError::RepeatedVariable);
            }
            let ghost before = assignment@;
            let take_high = node.high.index != 0;
            assignment.insert(node.var.name, take_high);
            proof {
                assert(node.low.index < p && node.high.index < p);
                assert forall|s: Set<i32>| agrees(s, assignment@) implies value(nodes, (if take_high {
                    node.high.index
                } else {
                    node.low.index
                }) as int, s) == value(nodes, root_of(nodes), s) by {
                    assert(agrees(s, before)) by {
                        assert forall|v: i32| #[trigger] before.contains_key(v) implies (s.contains(v)
                            == before[v]) by {
                            assert(assignment@.contains_key(v));
                        }
                    }
                    assert(assignment@.contains_key(node.var.name));
                    assert(s.contains(node.var.name) == take_high);
                }
                if !take_high {
                    assert(node.low != node.high);
                    assert(node.low.index != 0);
                }
            }
            let next = if take_high {
                node.high.index
            } else {
                node.low.index
            };
            proof {
                if ordered {
                    assert(ord.contains_key(node.var.name));
                    assert(top_rank(nodes, ord, next as int) > rank_of(ord, node.var.name));
                    assert forall|v: i32| #[trigger] assignment@.contains_key(v) implies ord.contains_key(v) && (ord[v] as int) < top_rank(nodes, ord, next as int) by {
                        if v != node.var.name {
                            assert(before.contains_key(v));
                        }
                    }
                }
            }
            p = next;
        }
        proof {
            assert forall|s: Set<i32>| agrees(s, assignment@) implies #[trigger] denotes(self.nodes@, s) by {
                assert(value(nodes, p as int, s));
            }
        }
        Ok(assignment)
    }
}

} // verus!
