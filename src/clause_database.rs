use std::collections::hash_map::RandomState;
use bloom_filters::{BloomFilter, ClassicBloomFilter, DefaultBuildHashKernels};
use vstd::prelude::*;

verus! {

/// A classic bloom filter over literals. Verus refuses a declaration of the
/// filter type (its parameter is bound by a trait of the filter crate), so it
/// is held here, out of Verus's sight.
#[verifier::external_body]
pub struct LiteralFilter {
    inner: ClassicBloomFilter<DefaultBuildHashKernels<RandomState>>,
}

/// Relies on rand::random: a value of the requested type; nothing is known of it.
pub assume_specification<T>[ rand::random::<T> ]() -> (r: T)
    where
        rand::distributions::Standard: rand::distributions::Distribution<T>,
;

/// The items inserted into a filter since it was created or last reset.
pub uninterp spec fn filter_items(f: LiteralFilter) -> Set<i32>;

/// The number of hash positions a filter sets and tests per item.
pub uninterp spec fn filter_hashes(f: LiteralFilter) -> nat;

/// Bytes of bit storage in each filter (768 bits, room for about 100 literals).
pub const FILTER_BYTES: usize = 96;

/// Hash positions per item.
pub const FILTER_HASHES: usize = 6;

/// Relies on ClassicBloomFilter::with_raw_data: a filter whose bits are those
/// of `bytes` zero bytes (so nothing is in it) and that uses `hashes` positions
/// per item; the storage is read in words of eight bytes.
#[verifier::external_body]
fn empty_filter(bytes: usize, hashes: usize, seed: usize) -> (f: LiteralFilter)
    requires
        bytes > 0,
        bytes % 8 == 0,
    ensures
        filter_items(f) == Set::<i32>::empty(),
        filter_hashes(f) == hashes,
{
    LiteralFilter {
        inner: ClassicBloomFilter::with_raw_data(
            &vec![0u8; bytes],
            hashes,
            DefaultBuildHashKernels::new(seed, RandomState::new()),
        ),
    }
}

/// Relies on BloomFilter::insert: sets the item's positions, clearing none.
#[verifier::external_body]
fn filter_insert(f: &mut LiteralFilter, x: i32)
    ensures
        filter_items(*final(f)) == filter_items(*old(f)).insert(x),
        filter_hashes(*final(f)) == filter_hashes(*old(f)),
{
    f.inner.insert(&x)
}

/// Relies on BloomFilter::contains: true when all the item's positions are
/// set, so every inserted item is reported (false positives are possible),
/// and an empty filter with at least one position per item reports nothing.
#[verifier::external_body]
fn filter_contains(f: &LiteralFilter, x: i32) -> (r: bool)
    ensures
        filter_items(*f).contains(x) ==> r,
        filter_hashes(*f) > 0 && filter_items(*f) == Set::<i32>::empty() ==> !r,
{
    f.inner.contains(&x)
}

/// Relies on BloomFilter::reset: clears every position.
#[verifier::external_body]
fn filter_reset(f: &mut LiteralFilter)
    ensures
        filter_items(*final(f)) == Set::<i32>::empty(),
        filter_hashes(*final(f)) == filter_hashes(*old(f)),
{
    f.inner.reset()
}

/// Why a learned clause was not forwarded.
#[derive(Clone, Copy, Debug, PartialEq, Eq, Structural)]
pub enum FilterError {
    /// Probably shared in an earlier round.
    RejectedGlobal,
    /// Probably a duplicate within this round.
    RejectedLocal,
}

/// Two approximate-membership filters over literals: `global` spans rounds,
/// `local` one sharing round. A clause counts as present in a filter when
/// each of its literals is.
pub struct ClauseDatabase {
    global_filter: LiteralFilter,
    local_filter: LiteralFilter,
}

/// Every literal of `c` is in `items`.
pub open spec fn all_in(c: Seq<i32>, items: Set<i32>) -> bool {
    forall|i: int| 0 <= i < c.len() ==> items.contains(#[trigger] c[i])
}

/// The filters could let `c` through: neither holds all of its literals.
pub open spec fn may_forward(global: Set<i32>, local: Set<i32>, c: Seq<i32>) -> bool {
    !all_in(c, global) && !all_in(c, local)
}

impl ClauseDatabase {
    /// Literals inserted into the global filter since its last reset.
    pub closed spec fn global_items(&self) -> Set<i32> {
        filter_items(self.global_filter)
    }

    /// Literals inserted into the local filter since its last reset.
    pub closed spec fn local_items(&self) -> Set<i32> {
        filter_items(self.local_filter)
    }

    pub closed spec fn wf(&self) -> bool {
        filter_hashes(self.global_filter) > 0 && filter_hashes(self.local_filter) > 0
    }

    /// Two empty filters with fresh random seeds.
    pub fn new() -> (r: ClauseDatabase)
        ensures
            r.wf(),
            r.global_items() == Set::<i32>::empty(),
            r.local_items() == Set::<i32>::empty(),
    {
        let g: usize = rand::random();
        let l: usize = rand::random();
        ClauseDatabase {
            global_filter: empty_filter(FILTER_BYTES, FILTER_HASHES, g),
            local_filter: empty_filter(FILTER_BYTES, FILTER_HASHES, l),
        }
    }

    pub fn insert_to_local_filter(&mut self, clause: &Vec<i32>)
        requires
            old(self).wf(),
        ensures
            final(self).wf(),
            final(self).local_items() == old(self).local_items() + clause@.to_set(),
            final(self).global_items() == old(self).global_items(),
    {
        let mut i: usize = 0;
        while i < clause.len()
            invariant
                self.wf(),
                i <= clause@.len(),
                self.local_items() == old(self).local_items() + clause@.subrange(0, i as int).to_set(),
                self.global_items() == old(self).global_items(),
            decreases clause@.len() - i,
        {
            filter_insert(&mut self.local_filter, clause[i]);
            proof {
                assert(clause@.subrange(0, i + 1) =~= clause@.subrange(0, i as int).push(clause@[i as int]));
                lemma_push_to_set(clause@.subrange(0, i as int), clause@[i as int]);
                assert(self.local_items() =~= old(self).local_items() + clause@.subrange(0, i + 1).to_set());
            }
            i = i + 1;
        }
        assert(clause@.subrange(0, clause@.len() as int) =~= clause@);
    }

    pub fn insert_to_global_filter(&mut self, clause: &Vec<i32>)
        requires
            old(self).wf(),
        ensures
            final(self).wf(),
            final(self).global_items() == old(self).global_items() + clause@.to_set(),
            final(self).local_items() == old(self).local_items(),
    {
        let mut i: usize = 0;
        while i < clause.len()
            invariant
                self.wf(),
                i <= clause@.len(),
                self.global_items() == old(self).global_items() + clause@.subrange(0, i as int).to_set(),
                self.local_items() == old(self).local_items(),
            decreases clause@.len() - i,
        {
            filter_insert(&mut self.global_filter, clause[i]);
            proof {
                assert(clause@.subrange(0, i + 1) =~= clause@.subrange(0, i as int).push(clause@[i as int]));
                lemma_push_to_set(clause@.subrange(0, i as int), clause@[i as int]);
                assert(self.global_items() =~= old(self).global_items() + clause@.subrange(0, i + 1).to_set());
            }
            i = i + 1;
        }
        assert(clause@.subrange(0, clause@.len() as int) =~= clause@);
    }

    /// True when the local filter reports every literal of the clause.
    pub fn local_filter_contains(&self, clause: &Vec<i32>) -> (r: bool)
        requires
            self.wf(),
        ensures
            all_in(clause@, self.local_items()) ==> r,
            clause@.len() > 0 && self.local_items() == Set::<i32>::empty() ==> !r,
    {
        let mut i: usize = 0;
        while i < clause.len()
            invariant
                self.wf(),
                i <= clause@.len(),
                clause@.len() > 0 && self.local_items() == Set::<i32>::empty() ==> i == 0,
            decreases clause@.len() - i,
        {
            if !filter_contains(&self.local_filter, clause[i]) {
                return false;
            }
            i = i + 1;
        }
        true
    }

    /// True when the global filter reports every literal of the clause.
    pub fn global_filter_contains(&self, clause: &Vec<i32>) -> (r: bool)
        requires
            self.wf(),
        ensures
            all_in(clause@, self.global_items()) ==> r,
            clause@.len() > 0 && self.global_items() == Set::<i32>::empty() ==> !r,
    {
        let mut i: usize = 0;
        while i < clause.len()
            invariant
                self.wf(),
                i <= clause@.len(),
                clause@.len() > 0 && self.global_items() == Set::<i32>::empty() ==> i == 0,
            decreases clause@.len() - i,
        {
            if !filter_contains(&self.global_filter, clause[i]) {
                return false;
            }
            i = i + 1;
        }
        true
    }

    pub fn reset_global_filter(&mut self)
        requires
            old(self).wf(),
        ensures
            final(self).wf(),
            final(self).global_items() == Set::<i32>::empty(),
            final(self).local_items() == old(self).local_items(),
    {
        filter_reset(&mut self.global_filter);
    }

    pub fn reset_local_filter(&mut self)
        requires
            old(self).wf(),
        ensures
            final(self).wf(),
            final(self).local_items() == Set::<i32>::empty(),
            final(self).global_items() == old(self).global_items(),
    {
        filter_reset(&mut self.local_filter);
    }

    /// Forward `clause` unless the global filter reports it (then it is
    /// dropped untouched) or the local filter does (then only the global
    /// filter records it). A forwarded clause is recorded in both filters.
    pub fn filter_clause(&mut self, clause: Vec<i32>) -> (r: Result<Vec<i32>, FilterError>)
        requires
            old(self).wf(),
        ensures
            final(self).wf(),
            r matches Ok(c) ==> c@ == clause@ && may_forward(old(self).global_items(), old(self).local_items(), clause@)
                && final(self).global_items() == old(self).global_items() + clause@.to_set()
                && final(self).local_items() == old(self).local_items() + clause@.to_set(),
            r == Err::<Vec<i32>, FilterError>(FilterError::RejectedGlobal) ==> final(self).global_items() == old(self).global_items()
                && final(self).local_items() == old(self).local_items(),
            r == Err::<Vec<i32>, FilterError>(FilterError::RejectedLocal) ==> final(self).global_items() == old(self).global_items() + clause@.to_set()
                && final(self).local_items() == old(self).local_items(),
            all_in(clause@, old(self).global_items()) ==> r == Err::<Vec<i32>, FilterError>(FilterError::RejectedGlobal),
            !all_in(clause@, old(self).global_items()) && all_in(clause@, old(self).local_items()) ==> r is Err,
            clause@.len() > 0 && old(self).global_items() == Set::<i32>::empty() && old(self).local_items() == Set::<i32>::empty() ==> r is Ok,
    {
        if !self.global_filter_contains(&clause) {
            self.insert_to_global_filter(&clause);
            if !self.local_filter_contains(&clause) {
                self.insert_to_local_filter(&clause);
                Ok(clause)
            } else {
                Err(FilterError::RejectedLocal)
            }
        } else {
            Err(FilterError::RejectedGlobal)
        }
    }

    /// Start a new round (reset the local filter) and keep the clauses that
    /// pass, in their order. Within the round no clause is forwarded twice;
    /// afterwards the local filter holds exactly the forwarded literals.
    pub fn get_filtered_clauses(&mut self, learned_clauses: Vec<Vec<i32>>) -> (r: Vec<Vec<i32>>)
        requires
            old(self).wf(),
        ensures
            final(self).wf(),
            forall|k: int| 0 <= k < r@.len() ==> one_of(learned_clauses@, #[trigger] r@[k]),
            forall|a: int, b: int| 0 <= a < b < r@.len() ==> (#[trigger] r@[a])@ != (#[trigger] r@[b])@,
            forall|k: int| 0 <= k < r@.len() ==> all_in((#[trigger] r@[k])@, final(self).global_items()),
            final(self).local_items() == items_of(r@),
            exists|idx: Seq<int>| in_order_of(r@, learned_clauses@, idx),
            old(self).global_items() == Set::<i32>::empty() && learned_clauses@.len() > 0 && learned_clauses@[0]@.len() > 0
                ==> r@.len() > 0 && r@[0]@ == learned_clauses@[0]@,
    {
        let mut filtered_clauses: Vec<Vec<i32>> = Vec::new();
        self.reset_local_filter();
        let ghost g_start = old(self).global_items();
        let ghost mut idx: Seq<int> = Seq::empty();
        let mut i: usize = 0;
        while i < learned_clauses.len()
            invariant
                self.wf(),
                i <= learned_clauses@.len(),
                forall|k: int| 0 <= k < filtered_clauses@.len() ==> one_of(learned_clauses@, #[trigger] filtered_clauses@[k]),
                forall|a: int, b: int| 0 <= a < b < filtered_clauses@.len() ==> (#[trigger] filtered_clauses@[a])@ != (#[trigger] filtered_clauses@[b])@,
                forall|k: int| 0 <= k < filtered_clauses@.len() ==> all_in((#[trigger] filtered_clauses@[k])@, self.global_items()),
                self.local_items() == items_of(filtered_clauses@),
                in_order_of(filtered_clauses@, learned_clauses@, idx),
                forall|k: int| 0 <= k < idx.len() ==> #[trigger] idx[k] < i,
                i == 0 ==> self.global_items() == g_start && filtered_clauses@.len() == 0,
                g_start == Set::<i32>::empty() && learned_clauses@.len() > 0 && learned_clauses@[0]@.len() > 0 && i > 0
                    ==> filtered_clauses@.len() > 0 && filtered_clauses@[0]@ == learned_clauses@[0]@,
            decreases learned_clauses@.len() - i,
        {
            let ghost g0 = self.global_items();
            let ghost l0 = self.local_items();
            let c = copy_clause(&learned_clauses[i]);
            match self.filter_clause(c) {
                Ok(fc) => {
                    let ghost before = filtered_clauses@;
                    filtered_clauses.push(fc);
                    proof {
                        let n = before.len() as int;
                        assert(filtered_clauses@.drop_last() =~= before);
                        assert(self.local_items() == l0 + fc@.to_set());
                        let idx0 = idx;
                        idx = idx.push(i as int);
                        assert forall|k: int| 0 <= k < idx.len() implies 0 <= #[trigger] idx[k] < learned_clauses@.len() && filtered_clauses@[k]@ == learned_clauses@[idx[k]]@ by {
                            if k < n {
                                assert(idx[k] == idx0[k]);
                                assert(filtered_clauses@[k] == before[k]);
                            }
                        }
                        assert forall|a: int, b: int| 0 <= a < b < idx.len() implies #[trigger] idx[a] < #[trigger] idx[b] by {
                            if b < n {
                                assert(idx[a] == idx0[a] && idx[b] == idx0[b]);
                            } else {
                                assert(idx[a] == idx0[a]);
                            }
                        }
                        assert forall|k: int| 0 <= k < idx.len() implies #[trigger] idx[k] < i + 1 by {
                            if k < n {
                                assert(idx[k] == idx0[k]);
                            }
                        }
                        if n > 0 {
                            assert(filtered_clauses@[0] == before[0]);
                        } else {
                            assert(filtered_clauses@[0] == fc);
                        }
                        assert forall|k: int| 0 <= k < filtered_clauses@.len() implies all_in((#[trigger] filtered_clauses@[k])@, self.global_items()) by {
                            if k < n {
                                assert(filtered_clauses@[k] == before[k]);
                                assert(all_in(before[k]@, g0));
                            } else {
                                assert forall|q: int| 0 <= q < fc@.len() implies self.global_items().contains(#[trigger] fc@[q]) by {
                                    assert(fc@.to_set().contains(fc@[q]));
                                }
                            }
                        }
                        assert forall|a: int, b: int| 0 <= a < b < filtered_clauses@.len() implies (#[trigger] filtered_clauses@[a])@ != (#[trigger] filtered_clauses@[b])@ by {
                            if b == n {
                                assert(filtered_clauses@[a] == before[a]);
                                assert(all_in(before[a]@, g0));
                                assert(!all_in(fc@, g0));
                            } else {
                                assert(filtered_clauses@[a] == before[a]);
                                assert(filtered_clauses@[b] == before[b]);
                            }
                        }
                        assert forall|k: int| 0 <= k < filtered_clauses@.len() implies one_of(learned_clauses@, #[trigger] filtered_clauses@[k]) by {
                            if k < before.len() {
                                assert(filtered_clauses@[k] == before[k]);
                            } else {
                                assert(filtered_clauses@[k]@ == learned_clauses@[i as int]@);
                                assert(one_of(learned_clauses@, filtered_clauses@[k]));
                            }
                        }
                    }
                },
                Err(e) => {
                    proof {
                        assert(g0.subset_of(self.global_items())) by {
                            if e == FilterError::RejectedLocal {
                                assert(self.global_items() == g0 + learned_clauses@[i as int]@.to_set());
                            }
                        }
                        assert forall|k: int| 0 <= k < filtered_clauses@.len() implies all_in((#[trigger] filtered_clauses@[k])@, self.global_items()) by {
                            let c = filtered_clauses@[k]@;
                            assert(all_in(c, g0));
                            assert forall|q: int| 0 <= q < c.len() implies self.global_items().contains(#[trigger] c[q]) by {
                                assert(g0.contains(c[q]));
                            }
                        }
                        assert forall|k: int| 0 <= k < idx.len() implies #[trigger] idx[k] < i + 1 by {}
                        if g_start == Set::<i32>::empty() && learned_clauses@.len() > 0 && learned_clauses@[0]@.len() > 0 && i == 0 {
                            assert(l0 == Set::<i32>::empty()) by {
                                assert(filtered_clauses@ =~= Seq::<Vec<i32>>::empty());
                            }
                            assert(false);
                        }
                    }
                },
            }
            i = i + 1;
        }
        filtered_clauses
    }
}

proof fn lemma_push_to_set(s: Seq<i32>, x: i32)
    ensures
        s.push(x).to_set() == s.to_set().insert(x),
{
    assert forall|y: i32| s.push(x).to_set().contains(y) <==> s.to_set().insert(x).contains(y) by {
        if s.push(x).contains(y) {
            let k = choose|k: int| 0 <= k < s.push(x).len() && s.push(x)[k] == y;
            if k < s.len() {
                assert(s[k] == y);
            }
        }
        if s.contains(y) {
            let k = choose|k: int| 0 <= k < s.len() && s[k] == y;
            assert(s.push(x)[k] == y);
        }
        if y == x {
            assert(s.push(x)[s.len() as int] == y);
        }
    }
    assert(s.push(x).to_set() =~= s.to_set().insert(x));
}

/// All literals of the clauses in `v`.
pub open spec fn items_of(v: Seq<Vec<i32>>) -> Set<i32>
    decreases v.len(),
{
    if v.len() == 0 {
        Set::empty()
    } else {
        items_of(v.drop_last()) + v.last()@.to_set()
    }
}

/// `r` lists clauses of `v` in their order: `r[k]` is `v[idx[k]]` for increasing `idx`.
pub open spec fn in_order_of(r: Seq<Vec<i32>>, v: Seq<Vec<i32>>, idx: Seq<int>) -> bool {
    &&& idx.len() == r.len()
    &&& forall|k: int| 0 <= k < idx.len() ==> 0 <= #[trigger] idx[k] < v.len() && r[k]@ == v[idx[k]]@
    &&& forall|a: int, b: int| 0 <= a < b < idx.len() ==> #[trigger] idx[a] < #[trigger] idx[b]
}

/// `c` has the literals of one of the clauses in `v`.
pub open spec fn one_of(v: Seq<Vec<i32>>, c: Vec<i32>) -> bool {
    exists|j: int| 0 <= j < v.len() && v[j]@ == c@
}

/// A copy of a clause's literals.
pub(crate) fn copy_clause(c: &Vec<i32>) -> (r: Vec<i32>)
    ensures
        r@ == c@,
{
    let mut r: Vec<i32> = Vec::new();
    let mut i: usize = 0;
    while i < c.len()
        invariant
            i <= c@.len(),
            r@ == c@.subrange(0, i as int),
        decreases c@.len() - i,
    {
        r.push(c[i]);
        i = i + 1;
        assert(r@ =~= c@.subrange(0, i as int));
    }
    assert(c@.subrange(0, c@.len() as int) =~= c@);
    r
}

/// A clause recorded in the global filter cannot pass the filters again: the
/// second submission within a round is never forwarded.
pub proof fn lemma_forwarded_at_most_once(global: Set<i32>, local: Set<i32>, c: Seq<i32>)
    requires
        c.to_set().subset_of(global),
    ensures
        !may_forward(global, local, c),
{
    assert forall|i: int| 0 <= i < c.len() implies global.contains(#[trigger] c[i]) by {
        assert(c.to_set().contains(c[i]));
    }
}

/// Once both filters are reset, a non-empty clause is forwarded again
/// (`filter_clause` promises `Ok` on empty filters).
pub proof fn lemma_forwarded_after_reset(c: Seq<i32>)
    requires
        c.len() > 0,
    ensures
        may_forward(Set::<i32>::empty(), Set::<i32>::empty(), c),
{
    assert(!Set::<i32>::empty().contains(c[0]));
}

} // verus!
