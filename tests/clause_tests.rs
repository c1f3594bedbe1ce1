use std::collections::HashMap;

use bdd_sat_solver::bdd_util::BddVar;
use bdd_sat_solver::bool_expr::{Clause, Expr};
use bdd_sat_solver::bucket::{Bucket, EliminationError};
use bdd_sat_solver::clause_database::{ClauseDatabase, FilterError};
use bdd_sat_solver::parser::{self, dimacs_from_clauses, Dimacs, VarScore};
use bdd_sat_solver::preprocessing::unit_propagation;
use bdd_sat_solver::var_ordering::BddVarOrdering;
use bdd_sat_solver::var_ordering_builder::BddVarOrderingBuilder;

fn neg(v: i32) -> Expr {
    Expr::Not(Box::new(Expr::Var(v)))
}

#[test]
fn test_is_unit() {
    let clause = Clause::new(vec![Expr::Var(1)]);
    assert_eq!(clause.is_unit(), true);

    let clause = Clause::new(vec![Expr::Var(1), Expr::Var(2)]);
    assert_eq!(clause.is_unit(), false);
}

#[test]
fn test_solve() {
    let assignment: std::collections::HashMap<i32, bool> =
        [(1, true), (2, false), (3, true)].iter().cloned().collect();

    let clause = Clause::new(vec![Expr::Var(1), Expr::Not(Box::new(Expr::Var(2))), Expr::Var(3)]);

    assert_eq!(clause.solve(&assignment), true);
}

#[test]
fn test_resolve_disjoint_clauses() {
    let clause1 = Clause::new(vec![Expr::Var(1), Expr::Var(2)]);
    let clause2 = Clause::new(vec![Expr::Var(3), Expr::Var(4)]);
    let expected_result = Clause::new(vec![Expr::Var(1), Expr::Var(2), Expr::Var(3), Expr::Var(4)]);

    assert_eq!(clause1.resolve(&clause2), expected_result);
}

#[test]
fn test_resolve_overlap_clauses() {
    let clause1 = Clause::new(vec![Expr::Var(1), Expr::Var(2)]);
    let clause2 = Clause::new(vec![Expr::Var(2), Expr::Var(3)]);
    let expected_result = Clause::new(vec![Expr::Var(1), Expr::Var(2), Expr::Var(3)]);

    assert_eq!(clause1.resolve(&clause2), expected_result);
}

#[test]
fn test_resolve_opposite_literals() {
    let clause1 = Clause::new(vec![Expr::Var(1), Expr::Var(2)]);
    let clause2 = Clause::new(vec![Expr::Not(Box::new(Expr::Var(1))), Expr::Var(3)]);
    let expected_result = Clause::new(vec![Expr::Var(2), Expr::Var(3)]);

    assert_eq!(clause1.resolve(&clause2), expected_result);
}

#[test]
fn test_parse_lit_positive() {
    let mut var_map: std::collections::HashMap<i32, Expr> = std::collections::HashMap::new();
    let expr = parser::parse_lit(1, &mut var_map);
    assert_eq!(expr, Expr::Var(1));
}

#[test]
fn test_parse_lit_negative() {
    let mut var_map: std::collections::HashMap<i32, Expr> = std::collections::HashMap::new();
    let expr = parser::parse_lit(-2, &mut var_map);
    assert_eq!(expr, Expr::Not(Box::new(Expr::Var(2))));
}

#[test]
fn test_choose_variable_to_eliminate() {
    let clause1 = Clause::new(vec![Expr::Var(1), Expr::Var(2)]);
    let clause2 = Clause::new(vec![Expr::Var(2), Expr::Var(3)]);
    let bucket = Bucket { clauses: vec![clause1.clone(), clause2.clone()], index: 2 };

    let chosen_var = bucket.choose_variable_to_eliminate();
    assert_eq!(chosen_var, 1);
}

fn create_sample_bdd_var_ordering() -> BddVarOrdering {
    BddVarOrdering {
        variables: vec![
            BddVar { name: 1 },
            BddVar { name: 2 },
            BddVar { name: 3 },
            BddVar { name: 4 },
            BddVar { name: 5 },
        ],
        expressions: vec![
            Clause::new(vec![Expr::Var(1), Expr::Not(Box::new(Expr::Var(2)))]),
            Clause::new(vec![Expr::Var(1), Expr::Var(4)]),
            Clause::new(vec![Expr::Not(Box::new(Expr::Var(2))), Expr::Var(4), Expr::Var(5)]),
            Clause::new(vec![Expr::Not(Box::new(Expr::Var(1))), Expr::Var(2)]),
            Clause::new(vec![Expr::Var(2), Expr::Not(Box::new(Expr::Var(3)))]),
        ],
        ordering: HashMap::from_iter(vec![(1, 0), (2, 1), (3, 2), (4, 3), (5, 4)]),
    }
}

#[test]
fn test_create_interaction_based_ordering() {
    let mut bdd_var_ordering = create_sample_bdd_var_ordering();
    bdd_var_ordering.create_interaction_based_ordering();
    assert_eq!(*bdd_var_ordering.ordering.get(&2).unwrap(), 0 as usize);
    assert_eq!(*bdd_var_ordering.ordering.get(&4).unwrap(), 1 as usize);
    assert_eq!(*bdd_var_ordering.ordering.get(&3).unwrap(), 4 as usize);
}

#[test]
fn interactions_are_listed_per_variable() {
    let ordering = BddVarOrdering {
        variables: vec![BddVar::new(1), BddVar::new(2), BddVar::new(3)],
        expressions: vec![
            Clause::new(vec![Expr::Var(1), Expr::Var(2)]),
            Clause::new(vec![Expr::Var(2), Expr::Var(3)]),
            Clause::new(vec![Expr::Var(1), Expr::Var(3)]),
        ],
        ordering: HashMap::from_iter(vec![(1, 0), (2, 1), (3, 2)]),
    };
    let interactions = ordering.find_interacting_variables();
    assert_eq!(interactions.len(), 3);
    for (v, expected) in [(1, vec![2, 3]), (2, vec![1, 3]), (3, vec![1, 2])] {
        let mut got = interactions.get(&v).unwrap().clone();
        got.sort();
        assert_eq!(got, expected);
    }
}

#[test]
fn resolution_on_the_pivot() {
    let mut bucket = Bucket {
        clauses: vec![
            Clause::new(vec![Expr::Var(1), Expr::Var(2)]),
            Clause::new(vec![neg(1), Expr::Var(3)]),
            Clause::new(vec![neg(1), Expr::Var(2)]),
        ],
        index: 1,
    };
    assert_eq!(bucket.bucket_elimination(), Ok(()));
    assert_eq!(bucket.clauses.len(), 2);
    assert!(bucket.clauses.contains(&Clause::new(vec![Expr::Var(2), Expr::Var(3)])));
    assert!(bucket.clauses.contains(&Clause::new(vec![Expr::Var(2)])));
}

#[test]
fn elimination_without_both_polarities_has_no_pairs() {
    let mut bucket = Bucket {
        clauses: vec![Clause::new(vec![Expr::Var(1), Expr::Var(2)]), Clause::new(vec![Expr::Var(1)])],
        index: 1,
    };
    assert_eq!(bucket.bucket_elimination(), Err(EliminationError::NoPairs));
    assert_eq!(bucket.clauses.len(), 2);
}

#[test]
fn elimination_reports_the_empty_clause() {
    let mut bucket = Bucket { clauses: vec![Clause::new(vec![Expr::Var(4)]), Clause::new(vec![neg(4)])], index: 4 };
    assert_eq!(bucket.bucket_elimination(), Err(EliminationError::EmptyClause));
}

#[test]
fn bucket_variables() {
    let bucket = Bucket { clauses: vec![Clause::new(vec![Expr::Var(1), neg(5)])], index: 1 };
    let vars = bucket.vars();
    assert!(vars.contains(&1) && vars.contains(&5) && vars.len() == 2);
}

#[test]
fn same_clause_is_forwarded_once_per_round() {
    let mut db = ClauseDatabase::new();
    let learned = vec![vec![1, -2], vec![1, -2]];
    let passed = db.get_filtered_clauses(learned);
    assert_eq!(passed, vec![vec![1, -2]]);
    assert_eq!(db.filter_clause(vec![1, -2]), Err(FilterError::RejectedGlobal));
}

#[test]
fn clause_passes_again_after_both_filters_reset() {
    let mut db = ClauseDatabase::new();
    assert_eq!(db.filter_clause(vec![3, 4]), Ok(vec![3, 4]));
    db.reset_local_filter();
    assert_eq!(db.filter_clause(vec![3, 4]), Err(FilterError::RejectedGlobal));
    db.reset_global_filter();
    db.reset_local_filter();
    assert_eq!(db.filter_clause(vec![3, 4]), Ok(vec![3, 4]));
}

#[test]
fn problem_statistics_and_initial_ranks() {
    // variable 1 occurs in three clauses of size 2: score 3*3/6 = 1.5
    // variable 2 occurs in one clause of size 2:    score 1/2
    // variable 3 occurs in two clauses of size 2:   score 2*2/4 = 1
    let clauses = vec![vec![1, 2], vec![-1, 3], vec![1, -3]];
    let dimacs = dimacs_from_clauses(3, 3, &clauses);
    assert_eq!(dimacs.var_names, vec![1, 2, 3]);
    assert_eq!(dimacs.expressions.len(), 3);
    assert_eq!(dimacs.vars_scores[0].1.occurrences, 3);
    assert_eq!(dimacs.vars_scores[0].1.arity_sum, 6);
    let ordering = BddVarOrdering::new(dimacs);
    assert_eq!(ordering.ordering.get(&1), Some(&0));
    assert_eq!(ordering.ordering.get(&3), Some(&1));
    assert_eq!(ordering.ordering.get(&2), Some(&2));
    assert_eq!(ordering.ordering.get(&i32::MAX), Some(&3));
    assert_eq!(ordering.variables.len(), 3);
}

#[test]
fn builder_hands_out_variables() {
    let mut builder = BddVarOrderingBuilder::new();
    let v = builder.make_variable(5);
    assert_eq!(v, BddVar::new(5));
    let vs = builder.make_variables(&vec![6, 7]);
    assert_eq!(vs, vec![BddVar::new(6), BddVar::new(7)]);
}

#[test]
fn buckets_follow_highest_ranked_variable() {
    let mut ordering = BddVarOrdering {
        variables: vec![BddVar::new(1), BddVar::new(2), BddVar::new(3)],
        expressions: vec![
            Clause::new(vec![Expr::Var(1), Expr::Var(3)]),
            Clause::new(vec![Expr::Var(1), Expr::Var(2)]),
            Clause::new(vec![neg(3), Expr::Var(2)]),
        ],
        ordering: HashMap::from_iter(vec![(1, 0), (2, 1), (3, 2)]),
    };
    let buckets = ordering.group_clauses_into_buckets();
    // keys are the highest-ranked (smallest rank number) variables: 1, 1 and 2
    assert_eq!(buckets.len(), 2);
    assert_eq!(buckets[0].index, 1);
    assert_eq!(buckets[0].clauses.len(), 2);
    assert_eq!(buckets[1].index, 2);
    assert_eq!(buckets[1].clauses.len(), 1);
}

#[test]
fn interaction_buckets_keep_every_clause() {
    let mut ordering = BddVarOrdering {
        variables: vec![BddVar::new(1), BddVar::new(2), BddVar::new(3), BddVar::new(4), BddVar::new(5)],
        expressions: vec![
            Clause::new(vec![Expr::Var(1), Expr::Var(2)]),
            Clause::new(vec![Expr::Var(2), Expr::Var(3)]),
            Clause::new(vec![Expr::Var(4), Expr::Var(5)]),
        ],
        ordering: HashMap::from_iter(vec![(1, 4), (3, 3), (2, 1), (4, 2), (5, 0), (i32::MAX, 5)]),
    };
    let exprs = ordering.expressions.clone();
    let buckets = ordering.group_clauses_into_buckets_interactions(&exprs);
    assert_eq!(buckets.len(), 2);
    assert_eq!(buckets[0].clauses.len(), 2);
    assert_eq!(buckets[1].clauses.len(), 1);
}

#[test]
fn build_processes_every_bucket() {
    let clauses = vec![vec![1, 2], vec![-1, 2], vec![-2, 3], vec![1, -3]];
    let dimacs = dimacs_from_clauses(3, 4, &clauses);
    let mut ordering = BddVarOrdering::new(dimacs);
    let mut buckets = ordering.group_clauses_into_buckets();
    let mut db = ClauseDatabase::new();
    let mut learned: Vec<Vec<i32>> = Vec::new();
    ordering.build(&mut buckets, &mut db, &mut learned);
    assert!(buckets.is_empty());
    for c in &learned {
        assert!(!c.is_empty());
    }
}

#[test]
fn folding_all_clauses_matches_the_formula() {
    let clauses = vec![vec![1, 2], vec![-1, 2], vec![-2, 3]];
    let dimacs = dimacs_from_clauses(3, 3, &clauses);
    let ordering = BddVarOrdering::new(dimacs);
    let bdd = ordering.build_bdd();
    let solution = bdd.solve(&ordering.variables).unwrap();
    assert_eq!(solution.get(&2), Some(&true));
    assert_eq!(solution.get(&3), Some(&true));
}

#[test]
fn elimination_by_substitution_empties_the_bucket() {
    let mut bucket = Bucket {
        clauses: vec![Clause::new(vec![Expr::Var(1), Expr::Var(2)]), Clause::new(vec![neg(2), Expr::Var(3)])],
        index: 2,
    };
    bucket.eliminate_variable(2);
    assert!(bucket.clauses.is_empty());
    assert_eq!(bucket.index, 2);
}

#[test]
fn most_frequent_positive_variable() {
    let bucket = Bucket {
        clauses: vec![
            Clause::new(vec![Expr::Var(1), Expr::Var(2)]),
            Clause::new(vec![Expr::Var(2), neg(1)]),
            Clause::new(vec![Expr::Var(3), Expr::Var(2)]),
        ],
        index: 2,
    };
    assert_eq!(bucket.choose_variable_to_eliminate_highest_frequency(), 2);
    let negative_only = Bucket { clauses: vec![Clause::new(vec![neg(4)])], index: 4 };
    assert_eq!(negative_only.choose_variable_to_eliminate_highest_frequency(), i32::MAX);
}

#[test]
fn unit_literal_propagates() {
    let mut clauses = vec![
        Clause::new(vec![Expr::Var(1), Expr::Var(2)]),
        Clause::new(vec![neg(1), Expr::Var(3)]),
        Clause::new(vec![Expr::Var(2), Expr::Var(3)]),
    ];
    unit_propagation(&mut clauses, vec![Clause::new(vec![Expr::Var(1)])]);
    assert_eq!(
        clauses,
        vec![
            Clause::new(vec![Expr::Var(3)]),
            Clause::new(vec![Expr::Var(2), Expr::Var(3)]),
            Clause::new(vec![Expr::Var(1)]),
        ]
    );
}

#[test]
fn learned_clauses_in_wire_form() {
    let wire = bdd_sat_solver::clause_gen::flatten_learned(&vec![vec![1, -2], vec![], vec![3]]);
    assert_eq!(wire, vec![1, -2, 0, 0, 3, 0]);
}

#[test]
fn test_find_interacting_variables() {
    let clauses = vec![
        Clause::new(vec![Expr::Var(1), Expr::Var(2)]),
        Clause::new(vec![Expr::Var(2), Expr::Var(3)]),
        Clause::new(vec![Expr::Var(1), Expr::Var(3)]),
    ];
    let dimacs = Dimacs { nb_v: 3, nb_c: 3, var_names: Vec::new(), vars_scores: Vec::new(), expressions: clauses };
    let var_ordering = BddVarOrdering::new(dimacs);
    let interactions = var_ordering.find_interacting_variables();

    let sorted = |v: i32| {
        let mut s = interactions.get(&v).unwrap().clone();
        s.sort();
        s
    };
    assert_eq!(interactions.len(), 3);
    assert_eq!(sorted(1), vec![2, 3]);
    assert_eq!(sorted(2), vec![1, 3]);
    assert_eq!(sorted(3), vec![1, 2]);
}

#[test]
fn test_group_clauses_into_buckets_interactions() {
    let clause1 = Clause::new(vec![Expr::Var(1), Expr::Var(2)]);
    let clause2 = Clause::new(vec![Expr::Var(2), Expr::Var(3)]);
    let clause3 = Clause::new(vec![Expr::Var(4), Expr::Var(5)]);

    let expressions = vec![clause1.clone(), clause2.clone(), clause3.clone()];

    // scores 0.0, 0.3, 0.5, 0.5 and 0.7 as occurrences² / arity sum
    let score = |occurrences: u32, arity_sum: u32| VarScore { occurrences, arity_sum };
    let dimacs = Dimacs {
        nb_v: 3,
        nb_c: 3,
        var_names: Vec::new(),
        vars_scores: vec![(1, score(0, 1)), (3, score(3, 30)), (2, score(1, 2)), (4, score(1, 2)), (5, score(7, 70))],
        expressions,
    };
    let mut var_ordering = BddVarOrdering::new(dimacs);
    let exprs = var_ordering.expressions.clone();
    let buckets = var_ordering.group_clauses_into_buckets_interactions(&exprs);

    assert_eq!(buckets.len(), 2);
    assert_eq!(buckets[0].clauses.len(), 2);
    assert_eq!(buckets[1].clauses.len(), 1);
}
