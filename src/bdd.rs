use vstd::prelude::*;
use crate::apply::{nodes_ordered, top_rank, vars_ranked};
use crate::bdd_util::{
    BddNode, BddPointer, BddVar, TERMINAL_NAME, flip, one_node, terminal_value, zero_node,
};

verus! {

broadcast use vstd::std_specs::hash::group_hash_axioms;

/// A reduced ordered binary decision diagram stored as an arena of nodes.
///
/// Index 0 holds the FALSE terminal and index 1 the TRUE terminal. An array of
/// length 1 is the constant FALSE diagram, one of length 2 the constant TRUE
/// diagram; otherwise the root is the last node.
#[derive(Clone, Debug)]
pub struct Bdd {
    pub nodes: Vec<BddNode>,
}

/// The terminal entries sit at their fixed places and every pointer stays inside the arena.
pub open spec fn arena_ok(nodes: Seq<BddNode>) -> bool {
    &&& nodes.len() >= 1
    &&& nodes[0] == zero_node(BddVar { name: TERMINAL_NAME })
    &&& nodes.len() >= 2 ==> nodes[1] == one_node(BddVar { name: TERMINAL_NAME })
    &&& nodes.len() >= 3 ==> forall|i: int|
        2 <= i < nodes.len() ==> #[trigger] nodes[i].low.index < nodes.len()
            && nodes[i].high.index < nodes.len()
}

/// Well-formed diagram: the arena is sound, every decision node points only to
/// earlier entries (so the graph is acyclic), and no decision node uses the
/// terminal name.
pub open spec fn nodes_wf(nodes: Seq<BddNode>) -> bool {
    &&& arena_ok(nodes)
    &&& forall|i: int|
        2 <= i < nodes.len() ==> #[trigger] nodes[i].low.index < i && nodes[i].high.index < i
            && nodes[i].var.name != TERMINAL_NAME
}

/// Reduced: no decision node has two equal children.
pub open spec fn nodes_reduced(nodes: Seq<BddNode>) -> bool {
    forall|i: int| 2 <= i < nodes.len() ==> #[trigger] nodes[i].low != nodes[i].high
}

/// No node is stored twice.
pub open spec fn nodes_distinct(nodes: Seq<BddNode>) -> bool {
    forall|i: int, j: int| 0 <= i < j < nodes.len() ==> #[trigger] nodes[i] != #[trigger] nodes[j]
}

/// Where the root of the diagram stored in `nodes` is.
pub open spec fn root_of(nodes: Seq<BddNode>) -> int {
    if nodes.len() <= 1 {
        0
    } else if nodes.len() == 2 {
        1
    } else {
        nodes.len() - 1
    }
}

/// The value of the function below pointer `p` under the assignment that makes
/// exactly the variables in `a` true.
pub open spec fn value(nodes: Seq<BddNode>, p: int, a: Set<i32>) -> bool
    decreases p,
{
    if p <= 0 {
        false
    } else if p == 1 {
        true
    } else if p >= nodes.len() {
        false
    } else {
        let n = nodes[p];
        let c = if a.contains(n.var.name) {
            n.high.index as int
        } else {
            n.low.index as int
        };
        if c < p {
            value(nodes, c, a)
        } else {
            false
        }
    }
}

/// The function a whole diagram stands for.
pub open spec fn denotes(nodes: Seq<BddNode>, a: Set<i32>) -> bool {
    value(nodes, root_of(nodes), a)
}

/// Appending a node leaves the function below every existing pointer unchanged.
pub proof fn lemma_value_push(nodes: Seq<BddNode>, n: BddNode, p: int, a: Set<i32>)
    requires
        p < nodes.len(),
    ensures
        value(nodes.push(n), p, a) == value(nodes, p, a),
    decreases p,
{
    if p > 1 {
        let m = nodes[p];
        let c = if a.contains(m.var.name) {
            m.high.index as int
        } else {
            m.low.index as int
        };
        assert(nodes.push(n)[p] == m);
        if c < p {
            lemma_value_push(nodes, n, c, a);
        }
    }
}

/// The node with both terminal references exchanged.
pub open spec fn flip_node(n: BddNode) -> BddNode {
    BddNode {
        var: n.var,
        low: BddPointer { index: flip(n.low.index) },
        high: BddPointer { index: flip(n.high.index) },
    }
}

/// The arena of the complement: terminals stay, every edge into a terminal is flipped.
pub open spec fn negated_nodes(nodes: Seq<BddNode>) -> Seq<BddNode> {
    Seq::new(nodes.len(), |i: int| if i < 2 { nodes[i] } else { flip_node(nodes[i]) })
}

/// The arena `negate` produces: the other constant for a constant diagram,
/// the flipped arena otherwise.
pub open spec fn negation_of(nodes: Seq<BddNode>) -> Seq<BddNode> {
    if nodes.len() == 2 {
        seq![zero_node(BddVar { name: TERMINAL_NAME })]
    } else if nodes.len() == 1 {
        seq![zero_node(BddVar { name: TERMINAL_NAME }), one_node(BddVar { name: TERMINAL_NAME })]
    } else {
        negated_nodes(nodes)
    }
}

/// Two arenas hold the same nodes, whatever their order.
pub open spec fn same_nodes(x: Seq<BddNode>, y: Seq<BddNode>) -> bool {
    &&& x.len() == y.len()
    &&& forall|n: BddNode| x.contains(n) <==> y.contains(n)
}

/// Negating twice gives back the same set of nodes.
pub proof fn lemma_negate_twice(d: Seq<BddNode>)
    requires
        nodes_wf(d),
    ensures
        negation_of(negation_of(d)) == d,
        same_nodes(negation_of(negation_of(d)), d),
{
    if d.len() >= 3 {
        let n = negated_nodes(d);
        assert(negated_nodes(n) =~= d) by {
            assert forall|i: int| 2 <= i < d.len() implies negated_nodes(n)[i] == d[i] by {
                assert(n[i] == flip_node(d[i]));
            }
        }
    } else if d.len() == 2 {
        assert(negation_of(negation_of(d)) =~= d);
    } else {
        assert(negation_of(negation_of(d)) =~= d);
    }
}

/// A pointer after the node at `d` left the arena: every index at or above
/// `d` moves down by one.
pub open spec fn shifted(p: usize, d: usize) -> usize {
    if p >= d {
        (p - 1) as usize
    } else {
        p
    }
}

/// A pointer with every reference to `d` redirected to `rep`.
pub open spec fn redirected(p: usize, d: usize, rep: usize) -> usize {
    if p == d {
        rep
    } else {
        p
    }
}

/// The arena after removing the node at `d` and renumbering every later pointer.
pub open spec fn removed(nodes: Seq<BddNode>, d: int) -> Seq<BddNode> {
    Seq::new(
        (nodes.len() - 1) as nat,
        |i: int|
            {
                let n = if i < d {
                    nodes[i]
                } else {
                    nodes[i + 1]
                };
                if i < 2 {
                    n
                } else {
                    BddNode {
                        var: n.var,
                        low: BddPointer { index: shifted(n.low.index, d as usize) },
                        high: BddPointer { index: shifted(n.high.index, d as usize) },
                    }
                }
            },
    )
}

/// The arena with every edge into `d` redirected to `rep`.
pub open spec fn redirect_all(nodes: Seq<BddNode>, d: usize, rep: usize) -> Seq<BddNode> {
    Seq::new(
        nodes.len(),
        |i: int|
            if i < 2 {
                nodes[i]
            } else {
                BddNode {
                    var: nodes[i].var,
                    low: BddPointer { index: redirected(nodes[i].low.index, d, rep) },
                    high: BddPointer { index: redirected(nodes[i].high.index, d, rep) },
                }
            },
    )
}

/// Below a decision node, the flipped arena computes the complement.
pub proof fn lemma_value_negated(nodes: Seq<BddNode>, p: int, a: Set<i32>)
    requires
        nodes_wf(nodes),
        2 <= p < nodes.len(),
    ensures
        value(negated_nodes(nodes), p, a) == !value(nodes, p, a),
    decreases p,
{
    let m = nodes[p];
    let neg = negated_nodes(nodes);
    assert(neg[p] == flip_node(m));
    let c = if a.contains(m.var.name) {
        m.high.index as int
    } else {
        m.low.index as int
    };
    assert(neg.len() == nodes.len());
    assert(c < p);
    let fc = if a.contains(m.var.name) {
        neg[p].high.index as int
    } else {
        neg[p].low.index as int
    };
    assert(fc == flip(c as usize));
    if c >= 2 {
        lemma_value_negated(nodes, c, a);
    }
    assert(value(neg, p, a) == value(neg, fc, a));
    assert(value(nodes, p, a) == value(nodes, c, a));
}

/// The arena `negate` produces computes the complement.
pub proof fn lemma_denotes_negation(nodes: Seq<BddNode>, s: Set<i32>)
    requires
        nodes_wf(nodes),
    ensures
        denotes(negation_of(nodes), s) == !denotes(nodes, s),
{
    if nodes.len() >= 3 {
        lemma_value_negated(nodes, nodes.len() - 1, s);
    }
}

fn holds_node(nodes: &Vec<BddNode>, n: BddNode) -> (r: bool)
    ensures
        r == nodes@.contains(n),
{
    let mut i: usize = 0;
    while i < nodes.len()
        invariant
            i <= nodes@.len(),
            forall|j: int| 0 <= j < i ==> nodes@[j] != n,
        decreases nodes@.len() - i,
    {
        if nodes[i] == n {
            return true;
        }
        i = i + 1;
    }
    false
}

fn holds_all(small: &Vec<BddNode>, big: &Vec<BddNode>) -> (r: bool)
    ensures
        r == (forall|j: int| 0 <= j < small@.len() ==> big@.contains(#[trigger] small@[j])),
{
    let mut i: usize = 0;
    while i < small.len()
        invariant
            i <= small@.len(),
            forall|j: int| 0 <= j < i ==> big@.contains(#[trigger] small@[j]),
        decreases small@.len() - i,
    {
        if !holds_node(big, small[i]) {
            return false;
        }
        i = i + 1;
    }
    true
}

/// Two diagrams are equal when their arenas hold the same nodes, in any order.
impl PartialEq for Bdd {
    fn eq(&self, other: &Bdd) -> (r: bool) {
        let r = self.nodes.len() == other.nodes.len() && holds_all(&self.nodes, &other.nodes)
            && holds_all(&other.nodes, &self.nodes);
        proof {
            if r {
                assert forall|n: BddNode| self.nodes@.contains(n) <==> other.nodes@.contains(n) by {
                    if self.nodes@.contains(n) {
                        let i = choose|i: int| 0 <= i < self.nodes@.len() && self.nodes@[i] == n;
                    }
                    if other.nodes@.contains(n) {
                        let i = choose|i: int| 0 <= i < other.nodes@.len() && other.nodes@[i] == n;
                    }
                }
            } else if self.nodes@.len() == other.nodes@.len() {
                if same_nodes(self.nodes@, other.nodes@) {
                    if !holds_all_spec(self.nodes@, other.nodes@) {
                        let j = choose|j: int| 0 <= j < self.nodes@.len() && !other.nodes@.contains(self.nodes@[j]);
                        assert(self.nodes@.contains(self.nodes@[j]));
                    } else {
                        let j = choose|j: int| 0 <= j < other.nodes@.len() && !self.nodes@.contains(other.nodes@[j]);
                        assert(other.nodes@.contains(other.nodes@[j]));
                    }
                }
            }
        }
        r
    }
}

pub open spec fn holds_all_spec(small: Seq<BddNode>, big: Seq<BddNode>) -> bool {
    forall|j: int| 0 <= j < small.len() ==> big.contains(#[trigger] small[j])
}

impl vstd::std_specs::cmp::PartialEqSpecImpl for Bdd {
    open spec fn obeys_eq_spec() -> bool {
        true
    }

    open spec fn eq_spec(&self, other: &Bdd) -> bool {
        same_nodes(self.nodes@, other.nodes@)
    }
}

/// Dropping the nodes after position `m` leaves the function below every kept pointer unchanged.
pub proof fn lemma_value_prefix(nodes: Seq<BddNode>, m: int, p: int, a: Set<i32>)
    requires
        0 <= p < m <= nodes.len(),
    ensures
        value(nodes.subrange(0, m), p, a) == value(nodes, p, a),
    decreases p,
{
    if p > 1 {
        let n = nodes[p];
        assert(nodes.subrange(0, m)[p] == n);
        let c = if a.contains(n.var.name) {
            n.high.index as int
        } else {
            n.low.index as int
        };
        if 0 <= c < p {
            lemma_value_prefix(nodes, m, c, a);
        }
    }
}

impl Bdd {
    /// Create the diagram that holds only the two terminals (the constant TRUE).
    pub fn new() -> (r: Bdd)
        ensures
            r.nodes@ == seq![
                zero_node(BddVar { name: TERMINAL_NAME }),
                one_node(BddVar { name: TERMINAL_NAME }),
            ],
            nodes_wf(r.nodes@),
    {
        let mut nodes: Vec<BddNode> = Vec::new();
        nodes.push(BddNode::mk_zero(BddVar::terminal()));
        nodes.push(BddNode::mk_one(BddVar::terminal()));
        Bdd { nodes }
    }

    /// The number of nodes in the arena, terminals included.
    pub fn size(&self) -> (r: usize)
        ensures
            r == self.nodes@.len(),
    {
        self.nodes.len()
    }

    /// True if the diagram is exactly the constant TRUE.
    pub fn is_true(&self) -> (r: bool)
        ensures
            r == (self.nodes@.len() == 2),
    {
        self.nodes.len() == 2
    }

    /// True if the diagram is exactly the constant FALSE.
    pub fn is_false(&self) -> (r: bool)
        ensures
            r == (self.nodes@.len() == 1),
    {
        self.nodes.len() == 1
    }

    /// True if the diagram holds no decision node and is not FALSE.
    pub fn is_empty(&self) -> (r: bool)
        ensures
            r == (self.nodes@.len() == 2),
    {
        self.size() == 2
    }

    /// The pointer of the root node.
    pub fn root_pointer(&self) -> (r: BddPointer)
        requires
            self.nodes@.len() >= 1,
        ensures
            r.index == root_of(self.nodes@),
    {
        if self.is_false() {
            BddPointer::new_zero()
        } else if self.is_true() {
            BddPointer::new_one()
        } else {
            BddPointer::new(self.nodes.len() - 1)
        }
    }

    /// The variable tested at `ptr`.
    pub fn var_of_ptr(&self, ptr: BddPointer) -> (r: BddVar)
        requires
            ptr.index < self.nodes@.len(),
        ensures
            r == self.nodes@[ptr.index as int].var,
    {
        self.nodes[ptr.to_index()].var
    }

    pub fn low_node_ptr(&self, ptr: BddPointer) -> (r: BddPointer)
        requires
            ptr.index < self.nodes@.len(),
        ensures
            r == self.nodes@[ptr.index as int].low,
    {
        self.nodes[ptr.to_index()].low
    }

    pub fn high_node_ptr(&self, ptr: BddPointer) -> (r: BddPointer)
        requires
            ptr.index < self.nodes@.len(),
        ensures
            r == self.nodes@[ptr.index as int].high,
    {
        self.nodes[ptr.to_index()].high
    }

    /// Redirect the low edge of the node at `ptr`.
    pub fn replace_low(&mut self, ptr: BddPointer, new_ptr: BddPointer)
        requires
            ptr.index < old(self).nodes@.len(),
        ensures
            final(self).nodes@ == old(self).nodes@.update(
                ptr.index as int,
                BddNode { low: new_ptr, ..old(self).nodes@[ptr.index as int] },
            ),
    {
        let i = ptr.to_index();
        let mut node = self.nodes[i];
        node.low = new_ptr;
        self.nodes.set(i, node);
    }

    /// Redirect the high edge of the node at `ptr`.
    pub fn replace_high(&mut self, ptr: BddPointer, new_ptr: BddPointer)
        requires
            ptr.index < old(self).nodes@.len(),
        ensures
            final(self).nodes@ == old(self).nodes@.update(
                ptr.index as int,
                BddNode { high: new_ptr, ..old(self).nodes@[ptr.index as int] },
            ),
    {
        let i = ptr.to_index();
        let mut node = self.nodes[i];
        node.high = new_ptr;
        self.nodes.set(i, node);
    }

    /// Append a node to the arena.
    fn push_node(&mut self, node: BddNode)
        ensures
            final(self).nodes@ == old(self).nodes@.push(node),
    {
        self.nodes.push(node);
    }

    /// The constant FALSE diagram: the FALSE terminal alone.
    pub fn new_false() -> (r: Bdd)
        ensures
            r.nodes@ == seq![zero_node(BddVar { name: TERMINAL_NAME })],
            nodes_wf(r.nodes@),
            nodes_reduced(r.nodes@),
            nodes_distinct(r.nodes@),
            forall|o: Map<i32, usize>| nodes_ordered(r.nodes@, o) && vars_ranked(r.nodes@, o),
            forall|a: Set<i32>| !denotes(r.nodes@, a),
    {
        let mut nodes: Vec<BddNode> = Vec::new();
        nodes.push(BddNode::mk_zero(BddVar::terminal()));
        Bdd { nodes }
    }

    /// The constant TRUE diagram: both terminals and nothing else.
    pub fn new_true() -> (r: Bdd)
        ensures
            r.nodes@ == seq![
                zero_node(BddVar { name: TERMINAL_NAME }),
                one_node(BddVar { name: TERMINAL_NAME }),
            ],
            nodes_wf(r.nodes@),
            nodes_reduced(r.nodes@),
            nodes_distinct(r.nodes@),
            forall|o: Map<i32, usize>| nodes_ordered(r.nodes@, o) && vars_ranked(r.nodes@, o),
            forall|a: Set<i32>| denotes(r.nodes@, a),
    {
        Bdd::new()
    }

    /// The constant diagram for `value`. A constant holds no decision node,
    /// so the variable argument plays no part in it.
    pub fn new_value(_var: BddVar, value: &bool) -> (r: Bdd)
        ensures
            r.nodes@.len() == (if *value { 2int } else { 1int }),
            nodes_wf(r.nodes@),
            nodes_reduced(r.nodes@),
            nodes_distinct(r.nodes@),
            forall|o: Map<i32, usize>| nodes_ordered(r.nodes@, o) && vars_ranked(r.nodes@, o),
            forall|a: Set<i32>| denotes(r.nodes@, a) == *value,
    {
        if *value {
            Bdd::new_true()
        } else {
            Bdd::new_false()
        }
    }

    /// The diagram of the single positive literal `var`.
    pub fn new_var(var: BddVar) -> (r: Bdd)
        requires
            var.name != TERMINAL_NAME,
        ensures
            r.nodes@ == seq![
                zero_node(BddVar { name: TERMINAL_NAME }),
                one_node(BddVar { name: TERMINAL_NAME }),
                BddNode { var, low: BddPointer { index: 0 }, high: BddPointer { index: 1 } },
            ],
            nodes_wf(r.nodes@),
            nodes_reduced(r.nodes@),
            nodes_distinct(r.nodes@),
            forall|o: Map<i32, usize>| o.contains_key(var.name) ==> nodes_ordered(r.nodes@, o) && vars_ranked(r.nodes@, o),
            forall|a: Set<i32>| denotes(r.nodes@, a) == a.contains(var.name),
    {
        let mut bdd = Bdd::new();
        bdd.push_node(BddNode::mk_node(var, BddPointer::new_zero(), BddPointer::new_one()));
        proof {
            assert forall|a: Set<i32>| denotes(bdd.nodes@, a) == a.contains(var.name) by {
                assert(root_of(bdd.nodes@) == 2);
                reveal_with_fuel(value, 2);
            }
        }
        bdd
    }

    /// The diagram of the single negative literal `var`.
    pub fn new_not_var(var: BddVar) -> (r: Bdd)
        requires
            var.name != TERMINAL_NAME,
        ensures
            r.nodes@ == seq![
                zero_node(BddVar { name: TERMINAL_NAME }),
                one_node(BddVar { name: TERMINAL_NAME }),
                BddNode { var, low: BddPointer { index: 1 }, high: BddPointer { index: 0 } },
            ],
            nodes_wf(r.nodes@),
            nodes_reduced(r.nodes@),
            nodes_distinct(r.nodes@),
            forall|o: Map<i32, usize>| o.contains_key(var.name) ==> nodes_ordered(r.nodes@, o) && vars_ranked(r.nodes@, o),
            forall|a: Set<i32>| denotes(r.nodes@, a) == !a.contains(var.name),
    {
        let mut bdd = Bdd::new();
        bdd.push_node(BddNode::mk_node(var, BddPointer::new_one(), BddPointer::new_zero()));
        proof {
            assert forall|a: Set<i32>| denotes(bdd.nodes@, a) == !a.contains(var.name) by {
                assert(root_of(bdd.nodes@) == 2);
                reveal_with_fuel(value, 2);
            }
        }
        bdd
    }

    /// Negate a diagram. A constant becomes the other constant; otherwise every
    /// edge into a terminal is redirected to the other terminal.
    pub fn negate(&self) -> (r: Bdd)
        requires
            nodes_wf(self.nodes@),
        ensures
            nodes_wf(r.nodes@),
            nodes_reduced(self.nodes@) ==> nodes_reduced(r.nodes@),
            nodes_distinct(self.nodes@) ==> nodes_distinct(r.nodes@),
            forall|o: Map<i32, usize>| nodes_ordered(self.nodes@, o) && vars_ranked(self.nodes@, o) ==> nodes_ordered(r.nodes@, o) && vars_ranked(r.nodes@, o),
            r.nodes@ == negation_of(self.nodes@),
            forall|a: Set<i32>| denotes(r.nodes@, a) == !denotes(self.nodes@, a),
    {
        if self.is_true() {
            Bdd::new_false()
        } else if self.is_false() {
            Bdd::new_true()
        } else {
            let mut nodes: Vec<BddNode> = Vec::new();
            let n = self.nodes.len();
            let mut i: usize = 0;
            while i < n
                invariant
                    n == self.nodes@.len(),
                    i <= n,
                    nodes@.len() == i,
                    forall|j: int| 0 <= j < i ==> nodes@[j] == negated_nodes(self.nodes@)[j],
                decreases n - i,
            {
                let mut node = self.nodes[i];
                if i >= 2 {
                    node.high.flip_if_terminal();
                    node.low.flip_if_terminal();
                }
                nodes.push(node);
                i = i + 1;
            }
            proof {
                let neg = negated_nodes(self.nodes@);
                assert(nodes@ =~= neg);
                assert(nodes_wf(neg)) by {
                    assert forall|i: int| 2 <= i < neg.len() implies #[trigger] neg[i].low.index
                        < neg.len() && neg[i].high.index < neg.len() by {
                        assert(self.nodes@[i].low.index < i);
                    }
                }
                assert forall|a: Set<i32>| denotes(neg, a) == !denotes(self.nodes@, a) by {
                    lemma_value_negated(self.nodes@, self.nodes@.len() - 1, a);
                }
                if nodes_reduced(self.nodes@) {
                    assert forall|i: int| 2 <= i < neg.len() implies #[trigger] neg[i].low
                        != neg[i].high by {
                        assert(self.nodes@[i].low != self.nodes@[i].high);
                    }
                }
                assert forall|o: Map<i32, usize>| nodes_ordered(self.nodes@, o) && vars_ranked(self.nodes@, o) implies nodes_ordered(neg, o) && vars_ranked(neg, o) by {
                    assert forall|i: int| 2 <= i < neg.len() implies top_rank(neg, o, #[trigger] neg[i].low.index as int) > crate::apply::rank_of(o, neg[i].var.name)
                        && top_rank(neg, o, neg[i].high.index as int) > crate::apply::rank_of(o, neg[i].var.name) by {
                        let x = self.nodes@[i];
                        assert(neg[i] == flip_node(x));
                        assert(top_rank(self.nodes@, o, x.low.index as int) > crate::apply::rank_of(o, x.var.name));
                        assert(top_rank(self.nodes@, o, x.high.index as int) > crate::apply::rank_of(o, x.var.name));
                        if x.low.index >= 2 {
                            assert(neg[x.low.index as int] == flip_node(self.nodes@[x.low.index as int]));
                        }
                        if x.high.index >= 2 {
                            assert(neg[x.high.index as int] == flip_node(self.nodes@[x.high.index as int]));
                        }
                    }
                    assert forall|i: int| 2 <= i < neg.len() implies o.contains_key(#[trigger] neg[i].var.name) by {
                        assert(neg[i] == flip_node(self.nodes@[i]));
                    }
                }
                if nodes_distinct(self.nodes@) {
                    assert forall|i: int, j: int| 0 <= i < j < neg.len() implies #[trigger] neg[i] != #[trigger] neg[j] by {
                        let x = self.nodes@[i];
                        let y = self.nodes@[j];
                        assert(x != y);
                        if i >= 2 {
                            if flip_node(x) == flip_node(y) {
                                assert(flip(x.low.index) == flip(y.low.index));
                                assert(x.low.index == y.low.index);
                                assert(x.high.index == y.high.index);
                                assert(x == y);
                            }
                        } else if j >= 2 && neg[i] == neg[j] {
                            assert(x.low == x.high);
                            assert(y.low != y.high);
                        }
                    }
                }
            }
            assert(nodes@ == negation_of(self.nodes@));
            Bdd { nodes }
        }
    }

    /// A diagram holding only the terminals, with room for `cap` nodes.
    pub fn new_with_capacity(cap: usize) -> (r: Bdd)
        ensures
            r.nodes@ == seq![
                zero_node(BddVar { name: TERMINAL_NAME }),
                one_node(BddVar { name: TERMINAL_NAME }),
            ],
    {
        let mut nodes: Vec<BddNode> = Vec::with_capacity(cap);
        nodes.push(BddNode::mk_zero(BddVar::terminal()));
        nodes.push(BddNode::mk_one(BddVar::terminal()));
        Bdd { nodes }
    }

    /// Every pointer of the arena, in order.
    pub fn indices(&self) -> (r: Vec<BddPointer>)
        ensures
            r@.len() == self.nodes@.len(),
            forall|i: int| 0 <= i < r@.len() ==> (#[trigger] r@[i]).index == i,
    {
        let mut r: Vec<BddPointer> = Vec::new();
        let mut i: usize = 0;
        while i < self.nodes.len()
            invariant
                i <= self.nodes@.len(),
                r@.len() == i,
                forall|j: int| 0 <= j < i ==> (#[trigger] r@[j]).index == j,
            decreases self.nodes@.len() - i,
        {
            r.push(BddPointer::new(i));
            i = i + 1;
        }
        r
    }

    /// The first pointer whose node tests the variable named `var_name`.
    pub fn ptr_of_node_with_var_name(&self, var_name: i32) -> (r: Option<BddPointer>)
        ensures
            r is None <==> forall|i: int| 0 <= i < self.nodes@.len() ==> (#[trigger] self.nodes@[i]).var.name != var_name,
            r matches Some(p) ==> p.index < self.nodes@.len() && self.nodes@[p.index as int].var.name == var_name
                && forall|i: int| 0 <= i < p.index ==> (#[trigger] self.nodes@[i]).var.name != var_name,
    {
        let mut i: usize = 0;
        while i < self.nodes.len()
            invariant
                i <= self.nodes@.len(),
                forall|j: int| 0 <= j < i ==> (#[trigger] self.nodes@[j]).var.name != var_name,
            decreases self.nodes@.len() - i,
        {
            if self.nodes[i].var.name == var_name {
                return Some(BddPointer::new(i));
            }
            i = i + 1;
        }
        None
    }

    /// Remove the node at `to_delete` and move every pointer at or above it
    /// down by one (a pointer to the removed node then names its predecessor;
    /// `replace_node` redirects such pointers first).
    pub fn delete_node(&mut self, to_delete: BddPointer)
        requires
            2 <= to_delete.index < old(self).nodes@.len(),
        ensures
            final(self).nodes@ == removed(old(self).nodes@, to_delete.index as int),
    {
        let d = to_delete.index;
        let ghost old_nodes = self.nodes@;
        self.nodes.remove(d);
        let mut i: usize = 2;
        while i < self.nodes.len()
            invariant
                old_nodes.len() >= 3,
                self.nodes@.len() == old_nodes.len() - 1,
                2 <= d < old_nodes.len(),
                2 <= i <= self.nodes@.len(),
                forall|j: int| 0 <= j < i ==> #[trigger] self.nodes@[j] == removed(old_nodes, d as int)[j],
                forall|j: int| i <= j < self.nodes@.len() ==> #[trigger] self.nodes@[j] == (if j < d { old_nodes[j] } else { old_nodes[j + 1] }),
            decreases self.nodes@.len() - i,
        {
            let mut node = self.nodes[i];
            if node.low.index >= d {
                node.low.index = node.low.index - 1;
            }
            if node.high.index >= d {
                node.high.index = node.high.index - 1;
            }
            self.nodes.set(i, node);
            i = i + 1;
        }
        proof {
            assert forall|j: int| 0 <= j < 2 implies #[trigger] self.nodes@[j] == removed(old_nodes, d as int)[j] by {}
            assert(self.nodes@ =~= removed(old_nodes, d as int));
        }
    }

    /// Redirect every edge into `to_delete` to `replacement`, then remove the node.
    pub fn replace_node(&mut self, to_delete: BddPointer, replacement: BddPointer)
        requires
            2 <= to_delete.index < old(self).nodes@.len(),
        ensures
            final(self).nodes@ == removed(
                redirect_all(old(self).nodes@, to_delete.index, replacement.index),
                to_delete.index as int,
            ),
    {
        let d = to_delete.index;
        let ghost old_nodes = self.nodes@;
        let mut i: usize = 2;
        while i < self.nodes.len()
            invariant
                self.nodes@.len() == old_nodes.len(),
                2 <= d < old_nodes.len(),
                2 <= i <= self.nodes@.len(),
                forall|j: int| 0 <= j < i ==> #[trigger] self.nodes@[j] == redirect_all(old_nodes, d, replacement.index)[j],
                forall|j: int| i <= j < self.nodes@.len() ==> #[trigger] self.nodes@[j] == old_nodes[j],
            decreases self.nodes@.len() - i,
        {
            let mut node = self.nodes[i];
            if node.low.index == d {
                node.low = replacement;
            }
            if node.high.index == d {
                node.high = replacement;
            }
            self.nodes.set(i, node);
            i = i + 1;
        }
        assert(self.nodes@ =~= redirect_all(old_nodes, d, replacement.index));
        self.delete_node(to_delete);
    }

}

} // verus!
