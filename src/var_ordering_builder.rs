use std::collections::{HashMap, HashSet};
use vstd::prelude::*;
use crate::bdd_util::{BddVar, TERMINAL_NAME};
use crate::parser::{Dimacs, VarScore, score_ge};
use crate::var_ordering::BddVarOrdering;
use crate::apply::ranks_distinct;

verus! {

broadcast use vstd::std_specs::hash::group_hash_axioms;

/// Hands out variables, each name at most once.
#[derive(Debug)]
pub struct BddVarOrderingBuilder {
    var_names: Vec<i32>,
    var_names_set: HashSet<i32>,
}

/// Order of two scores for a sort that puts the higher score first.
pub fn var_dec_cmp(x: &VarScore, y: &VarScore) -> (r: std::cmp::Ordering)
    ensures
        r == (if score_ge(*x, *y) && score_ge(*y, *x) {
            std::cmp::Ordering::Equal
        } else if score_ge(*x, *y) {
            std::cmp::Ordering::Less
        } else {
            std::cmp::Ordering::Greater
        }),
{
    let ge = crate::parser::score_at_least(*x, *y);
    let le = crate::parser::score_at_least(*y, *x);
    if ge && le {
        std::cmp::Ordering::Equal
    } else if ge {
        std::cmp::Ordering::Less
    } else {
        std::cmp::Ordering::Greater
    }
}

/// Relies on slice::sort_by: the entries come out as a permutation of the
/// input, ordered by `var_dec_cmp` (highest score first).
#[verifier::external_body]
fn sort_by_score(v: &mut Vec<(i32, VarScore)>)
    requires
        forall|k: int| 0 <= k < old(v)@.len() ==> (#[trigger] old(v)@[k]).1.arity_sum > 0,
    ensures
        final(v)@.to_multiset() == old(v)@.to_multiset(),
        forall|a: int, b: int| 0 <= a < b < final(v)@.len() ==> score_ge(#[trigger] final(v)@[a].1, #[trigger] final(v)@[b].1),
{
    v.sort_by(|x, y| var_dec_cmp(&x.1, &y.1))
}

impl BddVarOrderingBuilder {
    /// The names handed out so far, in order.
    pub closed spec fn names(&self) -> Seq<i32> {
        self.var_names@
    }

    pub closed spec fn wf(&self) -> bool {
        &&& self.var_names_set@ == self.var_names@.to_set()
        &&& self.var_names@.no_duplicates()
    }

    /// Create a new builder without any variables.
    pub fn new() -> (r: BddVarOrderingBuilder)
        ensures
            r.wf(),
            r.names() == Seq::<i32>::empty(),
    {
        let r = BddVarOrderingBuilder { var_names: Vec::new(), var_names_set: HashSet::new() };
        assert(r.var_names@.to_set() =~= Set::<i32>::empty());
        r
    }

    /// Create the variable `name`; each name may be created once.
    pub fn make_variable(&mut self, name: i32) -> (r: BddVar)
        requires
            old(self).wf(),
            !old(self).names().contains(name),
        ensures
            final(self).wf(),
            final(self).names() == old(self).names().push(name),
            r.name == name,
    {
        self.var_names_set.insert(name);
        self.var_names.push(name);
        proof {
            assert(self.var_names@.to_set() =~= old(self).var_names@.to_set().insert(name)) by {
                assert forall|x: i32| self.var_names@.contains(x) <==> (old(self).var_names@.contains(x) || x == name) by {
                    if self.var_names@.contains(x) {
                        let k = choose|k: int| 0 <= k < self.var_names@.len() && self.var_names@[k] == x;
                        if k < old(self).var_names@.len() {
                            assert(old(self).var_names@[k] == x);
                        }
                    }
                    if old(self).var_names@.contains(x) {
                        let k = choose|k: int| 0 <= k < old(self).var_names@.len() && old(self).var_names@[k] == x;
                        assert(self.var_names@[k] == x);
                    }
                    if x == name {
                        assert(self.var_names@[self.var_names@.len() - 1] == x);
                    }
                }
            }
            assert(self.var_names@.no_duplicates()) by {
                assert forall|a: int, b: int| 0 <= a < b < self.var_names@.len() implies self.var_names@[a] != self.var_names@[b] by {
                    if b == self.var_names@.len() - 1 {
                        assert(old(self).var_names@.contains(self.var_names@[a]));
                    }
                }
            }
        }
        BddVar::new(name)
    }

    /// Create a variable for each name, in order.
    pub fn make_variables(&mut self, var_names: &Vec<i32>) -> (r: Vec<BddVar>)
        requires
            old(self).wf(),
            var_names@.no_duplicates(),
            forall|k: int| 0 <= k < var_names@.len() ==> !old(self).names().contains(#[trigger] var_names@[k]),
        ensures
            final(self).wf(),
            final(self).names() == old(self).names() + var_names@,
            r@.len() == var_names@.len(),
            forall|k: int| 0 <= k < r@.len() ==> (#[trigger] r@[k]).name == var_names@[k],
    {
        let mut variables: Vec<BddVar> = Vec::new();
        let mut k: usize = 0;
        while k < var_names.len()
            invariant
                k <= var_names@.len(),
                self.wf(),
                var_names@.no_duplicates(),
                forall|j: int| 0 <= j < var_names@.len() ==> !old(self).names().contains(#[trigger] var_names@[j]),
                self.names() == old(self).names() + var_names@.subrange(0, k as int),
                variables@.len() == k,
                forall|j: int| 0 <= j < k ==> (#[trigger] variables@[j]).name == var_names@[j],
            decreases var_names@.len() - k,
        {
            proof {
                if self.names().contains(var_names@[k as int]) {
                    let j = choose|j: int| 0 <= j < self.names().len() && self.names()[j] == var_names@[k as int];
                    if j >= old(self).names().len() {
                        assert(var_names@[j - old(self).names().len()] == var_names@[k as int]);
                    } else {
                        assert(old(self).names()[j] == var_names@[k as int]);
                    }
                }
            }
            let v = self.make_variable(var_names[k]);
            variables.push(v);
            k = k + 1;
            assert(self.names() =~= old(self).names() + var_names@.subrange(0, k as int));
        }
        assert(var_names@.subrange(0, var_names@.len() as int) =~= var_names@);
        variables
    }

    /// Turn a problem into a variable ordering: the variables sorted by
    /// decreasing score get ranks 0, 1, ...; the terminal name ranks last.
    pub fn make(&mut self, dimacs: Dimacs) -> (r: BddVarOrdering)
        requires
            old(self).wf(),
            dimacs.var_names@.no_duplicates(),
            forall|k: int| 0 <= k < dimacs.var_names@.len() ==> !old(self).names().contains(#[trigger] dimacs.var_names@[k]),
            forall|k: int| 0 <= k < dimacs.vars_scores@.len() ==> (#[trigger] dimacs.vars_scores@[k]).1.arity_sum > 0
                && dimacs.vars_scores@[k].0 != TERMINAL_NAME,
            forall|a: int, b: int| 0 <= a < b < dimacs.vars_scores@.len() ==> (#[trigger] dimacs.vars_scores@[a]).0 != (#[trigger] dimacs.vars_scores@[b]).0,
        ensures
            final(self).wf(),
            r.variables@.len() == dimacs.var_names@.len(),
            forall|k: int| 0 <= k < r.variables@.len() ==> (#[trigger] r.variables@[k]).name == dimacs.var_names@[k],
            r.expressions@ == dimacs.expressions@,
            r.ordering@.contains_key(TERMINAL_NAME),
            r.ordering@[TERMINAL_NAME] == dimacs.vars_scores@.len(),
            forall|k: int| 0 <= k < dimacs.vars_scores@.len() ==> r.ordering@.contains_key(#[trigger] dimacs.vars_scores@[k].0)
                && r.ordering@[dimacs.vars_scores@[k].0] < dimacs.vars_scores@.len(),
            forall|v: i32| #[trigger] r.ordering@.contains_key(v) ==> v == TERMINAL_NAME || exists|k: int|
                0 <= k < dimacs.vars_scores@.len() && dimacs.vars_scores@[k].0 == v,
            forall|a: int, b: int| 0 <= a < dimacs.vars_scores@.len() && 0 <= b < dimacs.vars_scores@.len()
                && r.ordering@[(#[trigger] dimacs.vars_scores@[a]).0] < r.ordering@[(#[trigger] dimacs.vars_scores@[b]).0]
                ==> score_ge(dimacs.vars_scores@[a].1, dimacs.vars_scores@[b].1),
            ranks_distinct(r.ordering@),
    {
        let variables = self.make_variables(&dimacs.var_names);
        let mut v: Vec<(i32, VarScore)> = Vec::new();
        let mut c: usize = 0;
        while c < dimacs.vars_scores.len()
            invariant
                c <= dimacs.vars_scores@.len(),
                v@ == dimacs.vars_scores@.subrange(0, c as int),
            decreases dimacs.vars_scores@.len() - c,
        {
            v.push(dimacs.vars_scores[c]);
            c = c + 1;
            assert(v@ =~= dimacs.vars_scores@.subrange(0, c as int));
        }
        assert(v@ =~= dimacs.vars_scores@);
        sort_by_score(&mut v);
        let ghost orig = dimacs.vars_scores@;
        proof {
            orig.to_multiset_ensures();
            v@.to_multiset_ensures();
            assert forall|k: int| 0 <= k < orig.len() implies v@.contains(#[trigger] orig[k]) by {
                assert(orig.contains(orig[k]));
                assert(orig.to_multiset().count(orig[k]) > 0);
                assert(v@.to_multiset().count(orig[k]) > 0);
            }
            assert forall|k: int| 0 <= k < v@.len() implies orig.contains(#[trigger] v@[k]) by {
                assert(v@.contains(v@[k]));
                assert(v@.to_multiset().count(v@[k]) > 0);
                assert(orig.to_multiset().count(v@[k]) > 0);
            }
        }
        let n = v.len();
        let mut ordering: HashMap<i32, usize> = HashMap::new();
        let mut k: usize = 0;
        while k < n
            invariant
                n == v@.len(),
                k <= n,
                forall|j: int| 0 <= j < orig.len() ==> v@.contains(#[trigger] orig[j]),
                forall|j: int| 0 <= j < v@.len() ==> orig.contains(#[trigger] v@[j]),
                forall|a: int, b: int| 0 <= a < b < orig.len() ==> (#[trigger] orig[a]).0 != (#[trigger] orig[b]).0,
                forall|j: int| 0 <= j < orig.len() ==> (#[trigger] orig[j]).0 != TERMINAL_NAME,
                forall|w: i32| #[trigger] ordering@.contains_key(w) <==> exists|j: int| 0 <= j < k && v@[j].0 == w,
                forall|j: int| 0 <= j < k ==> ordering@.contains_key(#[trigger] v@[j].0),
                forall|w: i32| #[trigger] ordering@.contains_key(w) ==> ordering@[w] < k && v@[ordering@[w] as int].0 == w,
            decreases n - k,
        {
            let name = v[k].0;
            ordering.insert(name, k);
            proof {
                assert forall|w: i32| #[trigger] ordering@.contains_key(w) implies ordering@[w] < k + 1 && v@[ordering@[w] as int].0 == w by {}
                assert forall|w: i32| #[trigger] ordering@.contains_key(w) <==> exists|j: int| 0 <= j < k + 1 && v@[j].0 == w by {
                    if w == name {
                        assert(v@[k as int].0 == w);
                    }
                }
            }
            k = k + 1;
        }
        ordering.insert(TERMINAL_NAME, n);
        proof {
            assert forall|x: i32, y: i32| ordering@.contains_key(x) && ordering@.contains_key(y) && #[trigger] ordering@[x] == #[trigger] ordering@[y] implies x == y by {
                if x != TERMINAL_NAME && y != TERMINAL_NAME {
                    assert(v@[ordering@[x] as int].0 == x);
                    assert(v@[ordering@[y] as int].0 == y);
                }
            }
            assert(orig.len() == v@.len()) by {
                orig.to_multiset_ensures();
                v@.to_multiset_ensures();
            }
            assert forall|j: int| 0 <= j < v@.len() implies (#[trigger] v@[j]).0 != TERMINAL_NAME by {
                assert(orig.contains(v@[j]));
            }
            assert forall|j: int| 0 <= j < orig.len() implies ordering@.contains_key(#[trigger] orig[j].0) && ordering@[orig[j].0] < orig.len() by {
                assert(v@.contains(orig[j]));
                let q = choose|q: int| 0 <= q < v@.len() && v@[q] == orig[j];
                assert(v@[q].0 != TERMINAL_NAME);
            }
            assert forall|w: i32| #[trigger] ordering@.contains_key(w) implies w == TERMINAL_NAME || exists|j: int|
                0 <= j < orig.len() && orig[j].0 == w by {
                if w != TERMINAL_NAME {
                    let q = choose|q: int| 0 <= q < n && v@[q].0 == w;
                    assert(orig.contains(v@[q]));
                }
            }
            assert forall|a: int, b: int| 0 <= a < orig.len() && 0 <= b < orig.len()
                && ordering@[(#[trigger] orig[a]).0] < ordering@[(#[trigger] orig[b]).0]
                implies score_ge(orig[a].1, orig[b].1) by {
                assert(orig[a].0 != TERMINAL_NAME && orig[b].0 != TERMINAL_NAME);
                assert(v@.contains(orig[a]));
                assert(v@.contains(orig[b]));
                let pa = ordering@[orig[a].0] as int;
                let pb = ordering@[orig[b].0] as int;
                assert(v@[pa].0 == orig[a].0);
                assert(v@[pb].0 == orig[b].0);
                assert(orig.contains(v@[pa]));
                assert(orig.contains(v@[pb]));
                let ia = choose|i: int| 0 <= i < orig.len() && orig[i] == v@[pa];
                let ib = choose|i: int| 0 <= i < orig.len() && orig[i] == v@[pb];
                assert(ia == a);
                assert(ib == b);
            }
        }
        BddVarOrdering { variables, expressions: dimacs.expressions, ordering }
    }
}

} // verus!
