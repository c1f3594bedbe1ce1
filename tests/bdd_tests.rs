use std::collections::HashMap;

use bdd_sat_solver::bdd::Bdd;
use bdd_sat_solver::bdd_util::{BddNode, BddPointer, BddVar};
use bdd_sat_solver::bool_expr::{and, or, Clause, Expr};
use bdd_sat_solver::solve::SolveError;

fn create_sample_bdd() -> Bdd {
    let mut bdd = Bdd::new();

    let x1 = BddVar::new(1);
    let x2 = BddVar::new(2);
    let x3 = BddVar::new(3);

    let node3: BddNode = BddNode::mk_node(x3.clone(), BddPointer::new_zero(), BddPointer::new_one());
    let node2: BddNode = BddNode::mk_node(x2.clone(), BddPointer::new(2), BddPointer::new_one());
    let node4: BddNode = BddNode::mk_node(x1.clone(), BddPointer::new(3), BddPointer::new_one());

    bdd.nodes.push(node3);
    bdd.nodes.push(node2);
    bdd.nodes.push(node4);

    bdd
}

fn create_sample_bdd_complicated() -> Bdd {
    let mut bdd = Bdd::new();

    let x1 = BddVar::new(1);
    let x2 = BddVar::new(2);
    let x3 = BddVar::new(3);

    let node3: BddNode = BddNode::mk_node(x3.clone(), BddPointer::new_zero(), BddPointer::new_one());
    let node2: BddNode = BddNode::mk_node(x2.clone(), BddPointer::new(2), BddPointer::new_zero());
    let node4: BddNode = BddNode::mk_node(x1.clone(), BddPointer::new(3), BddPointer::new(2));

    bdd.nodes.push(node3);
    bdd.nodes.push(node2);
    bdd.nodes.push(node4);

    bdd
}

/// Follow the diagram from pointer `start` under `assignment` (absent variables are false).
fn eval_from(bdd: &Bdd, start: usize, assignment: &HashMap<i32, bool>) -> bool {
    let mut p = start;
    let mut steps = 0;
    while p >= 2 && steps <= bdd.nodes.len() {
        let node = bdd.nodes[p];
        let v = *assignment.get(&node.var.name).unwrap_or(&false);
        p = if v { node.high.index } else { node.low.index };
        steps += 1;
    }
    p == 1
}

fn eval(bdd: &Bdd, assignment: &HashMap<i32, bool>) -> bool {
    eval_from(bdd, bdd.root_pointer().index, assignment)
}

fn all_assignments(vars: &[i32]) -> Vec<HashMap<i32, bool>> {
    let mut out = Vec::new();
    for bits in 0..(1u32 << vars.len()) {
        let mut m = HashMap::new();
        for (k, v) in vars.iter().enumerate() {
            m.insert(*v, bits & (1 << k) != 0);
        }
        out.push(m);
    }
    out
}

fn ordering_123() -> HashMap<i32, usize> {
    let mut ordering = HashMap::new();
    ordering.insert(1, 0);
    ordering.insert(2, 1);
    ordering.insert(3, 2);
    ordering.insert(i32::MAX, 3);
    ordering
}

fn lit(l: i32) -> Expr {
    if l < 0 {
        Expr::Not(Box::new(Expr::Var(-l)))
    } else {
        Expr::Var(l)
    }
}

fn clause(lits: &[i32]) -> Clause {
    Clause::new(lits.iter().map(|l| lit(*l)).collect())
}

fn clause_holds(lits: &[i32], a: &HashMap<i32, bool>) -> bool {
    lits.iter().any(|l| {
        let v = *a.get(&l.abs()).unwrap_or(&false);
        if *l < 0 {
            !v
        } else {
            v
        }
    })
}

#[test]
fn test_var_of_ptr() {
    let bdd = create_sample_bdd();
    let ptr = BddPointer::new(3);
    let var = bdd.var_of_ptr(ptr);
    assert_eq!(var, BddVar::new(2));
}

#[test]
fn test_reorder_variables() {
    let mut bdd = create_sample_bdd();
    let mut ordering = HashMap::with_capacity(4);
    ordering.insert(2, 0);
    ordering.insert(1, 1);
    ordering.insert(3, 2);
    ordering.insert(i32::MAX, 3);

    let variables = vec![BddVar::new(2), BddVar::new(1), BddVar::new(3)];

    bdd.partial_reorder_bdd(&variables, &mut ordering);

    let var_order = bdd.nodes.iter().map(|node| node.var.name).collect::<Vec<i32>>();
    assert_eq!(var_order, vec![i32::MAX, i32::MAX, 3, 1, 2]);
}

#[test]
fn test_reorder_variables_complicated() {
    let mut bdd = create_sample_bdd_complicated();
    let mut ordering = HashMap::with_capacity(4);
    ordering.insert(2, 0);
    ordering.insert(1, 1);
    ordering.insert(3, 2);
    ordering.insert(i32::MAX, 3);

    let variables = vec![BddVar::new(2), BddVar::new(1), BddVar::new(3)];

    bdd.partial_reorder_bdd(&variables, &mut ordering);

    let var_order = bdd.nodes.iter().map(|node| node.var.name).collect::<Vec<i32>>();
    assert_eq!(var_order, vec![i32::MAX, i32::MAX, 3, 1, 2]);
}

#[test]
fn test_sift_variables_nec() {
    let mut bdd = create_sample_bdd();
    let mut ordering = HashMap::new();
    ordering.insert(2, 0);
    ordering.insert(1, 1);
    ordering.insert(3, 2);
    ordering.insert(i32::MAX, 3);

    let variables = vec![BddVar::new(2), BddVar::new(1), BddVar::new(3)];

    bdd.sift_variables_nec(&mut ordering, &variables);

    let var_order = bdd.nodes.iter().map(|node| node.var.name).collect::<Vec<i32>>();
    assert_eq!(var_order, vec![i32::MAX, i32::MAX, 3, 2, 1]);
}

#[test]
fn test_sift_variables_nec_complicated() {
    let mut bdd = create_sample_bdd_complicated();
    let mut ordering = HashMap::new();
    ordering.insert(2, 0);
    ordering.insert(1, 1);
    ordering.insert(3, 2);
    ordering.insert(i32::MAX, 3);

    let variables = vec![BddVar::new(2), BddVar::new(1), BddVar::new(3)];

    bdd.sift_variables_nec(&mut ordering, &variables);

    let var_order = bdd.nodes.iter().map(|node| node.var.name).collect::<Vec<i32>>();
    assert_eq!(var_order, vec![i32::MAX, i32::MAX, 3, 2, 1]);
}

#[test]
fn test_reorder_variables_detailed() {
    let mut bdd = create_sample_bdd();
    let mut ordering = HashMap::new();
    ordering.insert(i32::MAX, 0);
    ordering.insert(2, 1);
    ordering.insert(1, 2);
    ordering.insert(3, 3);

    let variables = vec![BddVar::new(2), BddVar::new(1), BddVar::new(3)];

    bdd.partial_reorder_bdd(&variables, &mut ordering);

    let var_order = bdd.nodes.iter().map(|node| node.var.name).collect::<Vec<i32>>();
    assert_eq!(var_order, vec![i32::MAX, i32::MAX, 3, 1, 2]);

    assert_eq!(bdd.nodes[0].low.to_index(), 0);
    assert_eq!(bdd.nodes[0].high.to_index(), 0);
    assert_eq!(bdd.nodes[1].low.to_index(), 1);
    assert_eq!(bdd.nodes[1].high.to_index(), 1);
    assert_eq!(bdd.nodes[2].low.to_index(), 0);
    assert_eq!(bdd.nodes[2].high.to_index(), 1);
    assert_eq!(bdd.nodes[3].low.to_index(), 2);
    assert_eq!(bdd.nodes[3].high.to_index(), 1);
    assert_eq!(bdd.nodes[4].low.to_index(), 3);
    assert_eq!(bdd.nodes[4].high.to_index(), 1);
}

#[test]
fn reorder_keeps_the_function() {
    for build in [create_sample_bdd as fn() -> Bdd, create_sample_bdd_complicated] {
        let before = build();
        let mut bdd = build();
        let mut ordering = HashMap::new();
        ordering.insert(i32::MAX, 3);
        ordering.insert(2, 0);
        ordering.insert(1, 1);
        ordering.insert(3, 2);
        let variables = vec![BddVar::new(2), BddVar::new(1), BddVar::new(3)];
        bdd.partial_reorder_bdd(&variables, &ordering);
        for a in all_assignments(&[1, 2, 3]) {
            assert_eq!(eval(&before, &a), eval(&bdd, &a));
        }
        for (i, n) in bdd.nodes.iter().enumerate().skip(2) {
            assert!(n.low.index < i && n.high.index < i);
        }
    }
}

#[test]
fn reorder_without_affected_variables_changes_nothing() {
    let mut bdd = create_sample_bdd();
    let ordering = ordering_123();
    bdd.partial_reorder_bdd(&vec![BddVar::new(9)], &ordering);
    assert_eq!(bdd.nodes, create_sample_bdd().nodes);
}

#[test]
fn test_to_bdd() {
    let var1 = BddVar::new(1);
    let var2 = BddVar::new(2);
    let var3 = BddVar::new(3);

    let variables = vec![var1.clone(), var2.clone(), var3.clone()];

    let mut ordering = std::collections::HashMap::new();
    ordering.insert(1, 0);
    ordering.insert(2, 1);
    ordering.insert(3, 2);

    let expr = Expr::Not(Box::new(Expr::Var(2)));

    let bdd = expr.to_bdd(&variables, &ordering);

    let mut res = Bdd::new();
    res.nodes.push(BddNode::mk_node(BddVar { name: 2 }, BddPointer::new_one(), BddPointer::new_zero()));
    assert_eq!(bdd, res)
}

#[test]
fn partial_operators_truth_tables() {
    assert_eq!(and(Some(true), Some(true)), Some(true));
    assert_eq!(and(Some(false), None), Some(false));
    assert_eq!(and(None, Some(false)), Some(false));
    assert_eq!(and(Some(true), None), None);
    assert_eq!(or(Some(false), Some(false)), Some(false));
    assert_eq!(or(Some(true), None), Some(true));
    assert_eq!(or(None, Some(true)), Some(true));
    assert_eq!(or(Some(false), None), None);
}

#[test]
fn two_clause_fold_gives_consistent_solution() {
    // variables {1,2,3}; clauses [1 v 2], [-2 v 3]; rank(1) < rank(2) < rank(3)
    let variables = vec![BddVar::new(1), BddVar::new(2), BddVar::new(3)];
    let ordering = ordering_123();
    let mut bdd = clause(&[1, 2]).to_bdd(&variables, &ordering);
    let second = clause(&[-2, 3]).to_bdd(&variables, &ordering);
    let folded = bdd.and(&second, &ordering);
    let solution = folded.solve(&variables).unwrap();
    assert!(clause(&[1, 2]).solve(&solution));
    assert!(clause(&[-2, 3]).solve(&solution));
    for a in all_assignments(&[1, 2, 3]) {
        assert_eq!(eval(&folded, &a), clause_holds(&[1, 2], &a) && clause_holds(&[-2, 3], &a));
    }
}

#[test]
fn contradiction_folds_to_false() {
    let variables = vec![BddVar::new(7)];
    let mut ordering = HashMap::new();
    ordering.insert(7, 0);
    let mut x = clause(&[7]).to_bdd(&variables, &ordering);
    let not_x = clause(&[-7]).to_bdd(&variables, &ordering);
    let r = x.and(&not_x, &ordering);
    assert_eq!(r.size(), 1);
    assert!(r.is_false());
    assert_eq!(r.solve(&variables), Err(SolveError::Unsatisfiable));
}

#[test]
fn conflict_paths_give_learned_clauses() {
    // {[1,2,3], [-1,2,3], [-1]} folds to -1 & (2 | 3)
    let variables = vec![BddVar::new(1), BddVar::new(2), BddVar::new(3)];
    let ordering = ordering_123();
    let mut acc = clause(&[1, 2, 3]).to_bdd(&variables, &ordering);
    for c in [vec![-1, 2, 3], vec![-1]] {
        let d = clause(&c).to_bdd(&variables, &ordering);
        acc = acc.and(&d, &ordering);
    }
    let paths = acc.get_conflict_paths();
    let learned = acc.build_learned_clause(&paths);
    assert_eq!(learned, vec![vec![-1, -2, -3], vec![1]]);
    assert_eq!(learned.len(), paths.len());
}

#[test]
fn negating_twice_gives_the_same_nodes() {
    let variables = vec![BddVar::new(1), BddVar::new(2), BddVar::new(3)];
    let ordering = ordering_123();
    let d = clause(&[1, -2, 3]).to_bdd(&variables, &ordering);
    assert_eq!(d.negate().negate(), d);
    assert_eq!(Bdd::new_true().negate().negate(), Bdd::new_true());
    assert!(Bdd::new_true().negate().is_false());
    assert!(Bdd::new_false().negate().is_true());
}

#[test]
fn negated_conjunction_is_disjunction_of_negations() {
    let variables = vec![BddVar::new(1), BddVar::new(2), BddVar::new(3)];
    let ordering = ordering_123();
    let mut a = Bdd::new_var(BddVar::new(1));
    let b = Bdd::new_not_var(BddVar::new(3));
    let left = a.and(&b, &ordering).negate();
    let mut na = a.negate();
    let right = na.or(&b.negate(), &ordering);
    for s in all_assignments(&[1, 2, 3]) {
        assert_eq!(eval(&left, &s), eval(&right, &s));
    }
    assert_eq!(left, right);
    let _ = variables;
}

#[test]
fn merged_diagrams_have_no_redundant_node() {
    let variables = vec![BddVar::new(1), BddVar::new(2), BddVar::new(3)];
    let ordering = ordering_123();
    let mut acc = clause(&[1, 2]).to_bdd(&variables, &ordering);
    for c in [vec![-1, 3], vec![2, -3], vec![1, 3]] {
        let d = clause(&c).to_bdd(&variables, &ordering);
        acc = acc.and(&d, &ordering);
        for n in acc.nodes.iter().skip(2) {
            assert_ne!(n.low, n.high);
        }
    }
}

#[test]
fn equivalent_clause_sets_give_the_same_function() {
    let variables = vec![BddVar::new(1), BddVar::new(2), BddVar::new(3)];
    let ordering = ordering_123();
    let mut first = clause(&[1, 2]).to_bdd(&variables, &ordering);
    first = first.and(&clause(&[3]).to_bdd(&variables, &ordering), &ordering);
    let mut second = clause(&[3]).to_bdd(&variables, &ordering);
    second = second.and(&clause(&[2, 1]).to_bdd(&variables, &ordering), &ordering);
    second = second.and(&clause(&[1, 2, 3]).to_bdd(&variables, &ordering), &ordering);
    for s in all_assignments(&[1, 2, 3]) {
        assert_eq!(eval(&first, &s), eval(&second, &s));
    }
}

#[test]
fn delete_and_replace_renumber_pointers() {
    let mut bdd = create_sample_bdd();
    bdd.replace_node(BddPointer::new(3), BddPointer::new(2));
    assert_eq!(bdd.size(), 4);
    assert_eq!(bdd.nodes[3].var.name, 1);
    assert_eq!(bdd.nodes[3].low.index, 2);
    assert_eq!(bdd.nodes[3].high.index, 1);
}

#[test]
fn finds_node_by_variable_name() {
    let bdd = create_sample_bdd();
    assert_eq!(bdd.ptr_of_node_with_var_name(2), Some(BddPointer::new(3)));
    assert_eq!(bdd.ptr_of_node_with_var_name(9), None);
    assert_eq!(bdd.indices().len(), 5);
}

#[test]
fn terminal_edges_are_listed_in_order() {
    let bdd = create_sample_bdd_complicated();
    let conflicts = bdd.find_terminal_nodes_conflicts();
    assert_eq!(conflicts, vec![(false, BddPointer::new(2)), (true, BddPointer::new(3))]);
}
