//! The cache engine: configuration, sets, counters and access classification.
use crate::random::{entropy_seed, seeded_generator};
use crate::set_store::{
    after_insert, ages_at_most, has_tag, holds_tag, insert_tag, lemma_after_insert,
    lemma_vacancies_same, needs_draw, register_hit, uninitialized_slots, vacancies,
};
use rand::rngs::StdRng;
use vstd::prelude::*;

verus! {

/// Which way of a full set a miss evicts.
#[derive(Debug, PartialEq, Eq, Structural, Clone, Copy)]
pub enum ReplacementPolicy {
    Lru,
    Fifo,
    Random,
}

/// What the cache holds; descriptive only.
#[derive(Debug, PartialEq, Eq, Structural, Clone, Copy)]
pub enum Kind {
    Data,
    Instruction,
    Both,
}

/// One way of a set.
#[derive(Debug, PartialEq, Eq, Structural, Clone, Copy)]
pub struct Data {
    pub tag: usize,
    pub is_initialized: bool,
    /// Higher means more likely to be replaced.
    pub replaceability: usize,
}

/// Running totals of a simulation.
#[derive(Debug, PartialEq, Eq, Structural, Clone, Copy)]
pub struct Performance {
    /// Ways filled at least once, over the whole cache.
    pub slots_occupied: usize,
    pub accesses: usize,
    pub hits: usize,
    pub misses: usize,
    pub compulsory_misses: usize,
    pub capacity_misses: usize,
    pub conflict_misses: usize,
}

impl Default for Performance {
    fn default() -> (r: Performance)
        ensures
            r == Performance::zero(),
    {
        Performance {
            slots_occupied: 0,
            accesses: 0,
            hits: 0,
            misses: 0,
            compulsory_misses: 0,
            capacity_misses: 0,
            conflict_misses: 0,
        }
    }
}

impl Performance {
    /// All counters at zero.
    pub open spec fn zero() -> Performance {
        Performance {
            slots_occupied: 0,
            accesses: 0,
            hits: 0,
            misses: 0,
            compulsory_misses: 0,
            capacity_misses: 0,
            conflict_misses: 0,
        }
    }

    /// The counters after one more access with outcome `r`.
    pub open spec fn counted(self, r: AccessResult) -> Performance {
        let p = Performance { accesses: (self.accesses + 1) as usize, ..self };
        match r {
            AccessResult::Hit => Performance { hits: (p.hits + 1) as usize, ..p },
            AccessResult::Miss(m) => {
                let q = Performance { misses: (p.misses + 1) as usize, ..p };
                match m {
                    MissTypes::Compulsory => Performance {
                        compulsory_misses: (q.compulsory_misses + 1) as usize,
                        slots_occupied: (q.slots_occupied + 1) as usize,
                        ..q
                    },
                    MissTypes::Capacity => Performance {
                        capacity_misses: (q.capacity_misses + 1) as usize,
                        ..q
                    },
                    _ => Performance { conflict_misses: (q.conflict_misses + 1) as usize, ..q },
                }
            },
        }
    }

    /// Every access is a hit or a miss, and every miss has exactly one cause.
    pub open spec fn balanced(self) -> bool {
        &&& self.hits + self.misses == self.accesses
        &&& self.compulsory_misses + self.capacity_misses + self.conflict_misses == self.misses
    }
}

/// Geometry and policy of a cache, and its generator for random eviction.
#[derive(Debug)]
pub struct Info {
    pub nsets: usize,
    pub bsize: usize,
    pub repl: ReplacementPolicy,
    pub assoc: usize,
    /// Capacity in bytes.
    pub size: usize,
    pub total_slots: usize,
    pub rng: StdRng,
}

/// A set-associative cache: `nsets` sets of `assoc` ways each.
#[derive(Debug)]
pub struct Cache {
    pub kind: Kind,
    pub performance: Performance,
    pub info: Info,
    pub data: Vec<Vec<Data>>,
}

/// Outcome of one access.
#[derive(Debug, PartialEq, Eq, Structural, Clone, Copy)]
pub enum AccessResult {
    Hit,
    Miss(MissTypes),
}

/// Cause of a miss.
#[derive(Debug, PartialEq, Eq, Structural, Clone, Copy)]
pub enum MissTypes {
    Compulsory,
    Capacity,
    Conflict,
    CapacityAndConflict,
}

/// Everything of a cache but its generator.
pub struct CacheModel {
    pub kind: Kind,
    pub nsets: usize,
    pub bsize: usize,
    pub repl: ReplacementPolicy,
    pub assoc: usize,
    pub size: usize,
    pub total_slots: usize,
    pub performance: Performance,
    pub sets: Seq<Seq<Data>>,
}

impl View for Cache {
    type V = CacheModel;

    open spec fn view(&self) -> CacheModel {
        CacheModel {
            kind: self.kind,
            nsets: self.info.nsets,
            bsize: self.info.bsize,
            repl: self.info.repl,
            assoc: self.info.assoc,
            size: self.info.size,
            total_slots: self.info.total_slots,
            performance: self.performance,
            sets: self.data@.map_values(|s: Vec<Data>| s@),
        }
    }
}

/// Number of ways of `sets` that are initialized.
pub open spec fn filled(sets: Seq<Seq<Data>>) -> nat
    decreases sets.len(),
{
    if sets.len() == 0 {
        0
    } else {
        filled(sets.drop_last()) + (sets.last().len() - vacancies(sets.last())) as nat
    }
}

impl CacheModel {
    /// A new cache: every way empty, every counter zero.
    pub open spec fn initial(
        nsets: usize,
        bsize: usize,
        repl: ReplacementPolicy,
        assoc: usize,
        kind: Kind,
    ) -> CacheModel {
        CacheModel {
            kind,
            nsets,
            bsize,
            repl,
            assoc,
            size: (bsize * nsets * assoc) as usize,
            total_slots: (nsets * assoc) as usize,
            performance: Performance::zero(),
            sets: Seq::new(
                nsets as nat,
                |i: int| Seq::new(assoc as nat, |j: int| Data { tag: 0, is_initialized: false, replaceability: 0 }),
            ),
        }
    }

    /// The model of a well-formed cache: its geometry is consistent, the
    /// counters balance, `slots_occupied` counts the initialized ways and equals
    /// the compulsory misses, and no age exceeds the number of accesses.
    pub open spec fn wf(self) -> bool {
        &&& self.assoc >= 1
        &&& self.sets.len() == self.nsets
        &&& forall|i: int| 0 <= i < self.sets.len() ==> #[trigger] self.sets[i].len() == self.assoc
        &&& self.total_slots == self.nsets * self.assoc
        &&& self.size == self.bsize * self.nsets * self.assoc
        &&& self.performance.balanced()
        &&& self.performance.slots_occupied == filled(self.sets)
        &&& self.performance.slots_occupied == self.performance.compulsory_misses
        &&& forall|i: int|
            0 <= i < self.sets.len() ==> ages_at_most(
                #[trigger] self.sets[i],
                self.performance.accesses as nat,
            )
    }

    /// How an access of `tag` in set `index` is classified: a hit if the set
    /// holds the tag; else compulsory if the set has a vacancy; else capacity
    /// if every way of the cache has been filled; else conflict.
    pub open spec fn outcome(self, index: int, tag: usize) -> AccessResult {
        if holds_tag(self.sets[index], tag) {
            AccessResult::Hit
        } else if vacancies(self.sets[index]) > 0 {
            AccessResult::Miss(MissTypes::Compulsory)
        } else if self.performance.slots_occupied == self.total_slots {
            AccessResult::Miss(MissTypes::Capacity)
        } else {
            AccessResult::Miss(MissTypes::Conflict)
        }
    }

    /// The cache after an access of `tag` in set `index`, where `draw` is the
    /// way that a random eviction takes.
    pub open spec fn step(self, index: int, tag: usize, draw: int) -> CacheModel {
        CacheModel {
            performance: self.performance.counted(self.outcome(index, tag)),
            sets: self.sets.update(index, after_insert(self.sets[index], tag, self.repl, draw)),
            ..self
        }
    }

    /// The access needs a random draw: random policy, full set, tag absent.
    pub open spec fn draws(self, index: int, tag: usize) -> bool {
        needs_draw(self.sets[index], tag, self.repl)
    }
}

impl Cache {
    /// A cache seeded from the process's entropy source.
    pub fn create(
        nsets: usize,
        bsize: usize,
        repl: ReplacementPolicy,
        assoc: usize,
        kind: Kind,
    ) -> (r: Cache)
        requires
            assoc >= 1,
            nsets * assoc <= usize::MAX,
            bsize * nsets * assoc <= usize::MAX,
        ensures
            r@.wf(),
            r@ == CacheModel::initial(nsets, bsize, repl, assoc, kind),
            r@.size == bsize * nsets * assoc,
    {
        Cache::create_with_seed(nsets, bsize, repl, assoc, kind, entropy_seed())
    }

    /// A cache whose random evictions draw from a generator seeded with
    /// `random_repl_seed`. Every way starts empty, every counter at zero.
    pub fn create_with_seed(
        nsets: usize,
        bsize: usize,
        repl: ReplacementPolicy,
        assoc: usize,
        kind: Kind,
        random_repl_seed: u64,
    ) -> (r: Cache)
        requires
            assoc >= 1,
            nsets * assoc <= usize::MAX,
            bsize * nsets * assoc <= usize::MAX,
        ensures
            r@.wf(),
            r@ == CacheModel::initial(nsets, bsize, repl, assoc, kind),
            r@.size == bsize * nsets * assoc,
    {
        let empty = Data { tag: 0, is_initialized: false, replaceability: 0 };
        let mut data: Vec<Vec<Data>> = Vec::with_capacity(nsets);
        let mut s: usize = 0;
        while s < nsets
            invariant
                s <= nsets,
                empty == (Data { tag: 0, is_initialized: false, replaceability: 0 }),
                data@.len() == s,
                forall|i: int| 0 <= i < s ==> #[trigger] data@[i]@ == Seq::new(assoc as nat, |j: int| empty),
                filled(data@.map_values(|v: Vec<Data>| v@)) == 0,
            decreases nsets - s,
        {
            let mut conjunto: Vec<Data> = Vec::with_capacity(assoc);
            let mut w: usize = 0;
            while w < assoc
                invariant
                    w <= assoc,
                    empty == (Data { tag: 0, is_initialized: false, replaceability: 0 }),
                    conjunto@ == Seq::new(w as nat, |j: int| empty),
                decreases assoc - w,
            {
                conjunto.push(empty);
                w = w + 1;
                proof {
                    assert(conjunto@ =~= Seq::new(w as nat, |j: int| empty));
                }
            }
            let ghost before = data@.map_values(|v: Vec<Data>| v@);
            proof {
                lemma_all_vacant(conjunto@);
            }
            data.push(conjunto);
            proof {
                assert(data@.map_values(|v: Vec<Data>| v@).drop_last() =~= before);
            }
            s = s + 1;
        }
        let total_slots = nsets * assoc;
        proof {
            assert(bsize * (nsets * assoc) == bsize * nsets * assoc) by (nonlinear_arith);
        }
        let size = bsize * total_slots;
        let r = Cache {
            kind,
            performance: Performance::default(),
            info: Info {
                nsets,
                bsize,
                repl,
                assoc,
                size,
                total_slots,
                rng: seeded_generator(random_repl_seed),
            },
            data,
        };
        proof {
            assert forall|i: int| 0 <= i < r@.sets.len() implies #[trigger] r@.sets[i].len() == assoc
                && ages_at_most(r@.sets[i], 0) by {
                assert(r@.sets[i] == data@[i]@);
            }
            assert(r@.sets =~= CacheModel::initial(nsets, bsize, repl, assoc, kind).sets);
        }
        r
    }
}

/// A set with no initialized way has all its ways vacant.
proof fn lemma_all_vacant(s: Seq<Data>)
    requires
        forall|i: int| 0 <= i < s.len() ==> !s[i].is_initialized,
    ensures
        vacancies(s) == s.len(),
    decreases s.len(),
{
    if s.len() > 0 {
        lemma_all_vacant(s.drop_last());
    }
}

/// Replacing one set changes the count of initialized ways by the
/// difference between the two sets.
pub proof fn lemma_filled_update(sets: Seq<Seq<Data>>, i: int, t: Seq<Data>)
    requires
        0 <= i < sets.len(),
        forall|j: int| 0 <= j < sets.len() ==> vacancies(#[trigger] sets[j]) <= sets[j].len(),
        vacancies(t) <= t.len(),
    ensures
        filled(sets.update(i, t)) + (sets[i].len() - vacancies(sets[i])) == filled(sets) + (t.len()
            - vacancies(t)),
    decreases sets.len(),
{
    let u = sets.update(i, t);
    if i < sets.len() - 1 {
        assert(u.drop_last() =~= sets.drop_last().update(i, t));
        assert forall|j: int| 0 <= j < sets.drop_last().len() implies vacancies(
            #[trigger] sets.drop_last()[j],
        ) <= sets.drop_last()[j].len() by {
            assert(sets.drop_last()[j] == sets[j]);
        }
        lemma_filled_update(sets.drop_last(), i, t);
    } else {
        assert(u.drop_last() =~= sets.drop_last());
    }
}

impl Cache {
    /// Accesses `tag` in set `index` and classifies the access.
    ///
    /// The result is `outcome` of the cache before the call; the counters
    /// count it; only set `index` changes, as `after_insert` says, with the way
    /// of a random eviction drawn from the cache's generator.
    pub fn access_with(&mut self, index: usize, tag: usize, _offset: usize) -> (r: AccessResult)
        requires
            old(self)@.wf(),
            index < old(self)@.nsets,
            old(self)@.performance.accesses < usize::MAX,
        ensures
            final(self)@.wf(),
            r == old(self)@.outcome(index as int, tag),
            exists|w: int|
                0 <= w < old(self)@.assoc && final(self)@ == old(self)@.step(index as int, tag, w),
            !old(self)@.draws(index as int, tag) ==> final(self)@ == old(self)@.step(
                index as int,
                tag,
                0,
            ),
            !old(self)@.draws(index as int, tag) ==> final(self).info.rng == old(self).info.rng,
            final(self).performance.hits + final(self).performance.misses
                == final(self).performance.accesses,
            final(self).performance.compulsory_misses + final(self).performance.capacity_misses
                + final(self).performance.conflict_misses == final(self).performance.misses,
    {
        let ghost m = self@;
        proof {
            assert(m.sets[index as int] == self.data@[index as int]@);
            assert(m.sets[index as int].len() == m.assoc);
            assert(ages_at_most(m.sets[index as int], m.performance.accesses as nat));
        }
        self.performance.accesses = self.performance.accesses + 1;
        let r = if has_tag(&self.data[index], tag) {
            self.performance.hits = self.performance.hits + 1;
            register_hit(&mut self.data[index], tag, self.info.repl);
            AccessResult::Hit
        } else {
            self.performance.misses = self.performance.misses + 1;
            let cause = if uninitialized_slots(&self.data[index]) > 0 {
                self.performance.compulsory_misses = self.performance.compulsory_misses + 1;
                // the way about to be filled was never used before
                self.performance.slots_occupied = self.performance.slots_occupied + 1;
                MissTypes::Compulsory
            } else if self.performance.slots_occupied == self.info.total_slots {
                self.performance.capacity_misses = self.performance.capacity_misses + 1;
                MissTypes::Capacity
            } else {
                self.performance.conflict_misses = self.performance.conflict_misses + 1;
                MissTypes::Conflict
            };
            insert_tag(&mut self.data[index], tag, self.info.repl, &mut self.info.rng);
            AccessResult::Miss(cause)
        };
        proof {
            let ghost s = m.sets[index as int];
            let ghost t = self.data@[index as int]@;
            let ghost w: int = choose|w: int|
                0 <= w < s.len() && t == after_insert(s, tag, m.repl, w);
            assert(0 <= w < s.len() && t == after_insert(s, tag, m.repl, w)) by {
                if holds_tag(s, tag) {
                    assert(t == after_insert(s, tag, m.repl, 0));
                }
            }
            if !m.draws(index as int, tag) {
                assert(t == after_insert(s, tag, m.repl, 0));
            }
            assert(self@.sets =~= m.sets.update(index as int, t));
            lemma_after_insert(s, tag, m.repl, w, m.performance.accesses as nat);
            assert forall|j: int| 0 <= j < m.sets.len() implies vacancies(#[trigger] m.sets[j])
                <= m.sets[j].len() by {
                crate::set_store::lemma_vacancies(m.sets[j]);
            }
            crate::set_store::lemma_vacancies(t);
            lemma_filled_update(m.sets, index as int, t);
            assert forall|i: int| 0 <= i < self@.sets.len() implies ages_at_most(
                #[trigger] self@.sets[i],
                self@.performance.accesses as nat,
            ) by {
                if i != index {
                    assert(self@.sets[i] == m.sets[i]);
                    assert(ages_at_most(m.sets[i], m.performance.accesses as nat));
                }
            }
            assert(self@ == m.step(index as int, tag, w));
        }
        r
    }
}

/// The cache after the accesses of `trace`, in order, where the `k`-th
/// access evicts way `draws[k]` if it needs a random draw.
pub open spec fn run(m: CacheModel, trace: Seq<(int, usize)>, draws: Seq<int>) -> CacheModel
    decreases trace.len(),
{
    if trace.len() == 0 {
        m
    } else {
        run(m, trace.drop_last(), draws.drop_last()).step(
            trace.last().0,
            trace.last().1,
            draws.last(),
        )
    }
}

/// Every access of `trace` names a set of `m`, and every draw a way.
pub open spec fn valid_trace(m: CacheModel, trace: Seq<(int, usize)>, draws: Seq<int>) -> bool {
    &&& draws.len() == trace.len()
    &&& forall|k: int| 0 <= k < trace.len() ==> 0 <= #[trigger] trace[k].0 < m.nsets
    &&& forall|k: int| 0 <= k < draws.len() ==> 0 <= #[trigger] draws[k] < m.assoc
}

/// No way of the cache has been filled yet.
pub open spec fn is_fresh(m: CacheModel) -> bool {
    forall|i: int, j: int|
        0 <= i < m.sets.len() && 0 <= j < m.sets[i].len() ==> !m.sets[i][j].is_initialized
}

/// An access of a tag right after an access of the same tag in the same set
/// is a hit.
pub proof fn lemma_reaccess_hits(m: CacheModel, index: int, tag: usize, draw: int)
    requires
        m.wf(),
        0 <= index < m.nsets,
        0 <= draw < m.assoc,
    ensures
        m.step(index, tag, draw).outcome(index, tag) == AccessResult::Hit,
{
    assert(m.sets[index].len() == m.assoc);
    lemma_after_insert(m.sets[index], tag, m.repl, draw, 0);
}

/// Runs keep every set at `assoc` ways, and a set holds only tags that were
/// accessed in it.
pub proof fn lemma_run_holds(m: CacheModel, trace: Seq<(int, usize)>, draws: Seq<int>)
    requires
        m.wf(),
        valid_trace(m, trace, draws),
    ensures
        run(m, trace, draws).sets.len() == m.nsets,
        forall|i: int|
            0 <= i < m.nsets ==> #[trigger] run(m, trace, draws).sets[i].len() == m.assoc,
        forall|i: int, x: usize|
            0 <= i < m.nsets && #[trigger] holds_tag(run(m, trace, draws).sets[i], x) ==> holds_tag(
                m.sets[i],
                x,
            ) || exists|k: int| 0 <= k < trace.len() && trace[k] == (i, x),
    decreases trace.len(),
{
    if trace.len() > 0 {
        let n = trace.len() - 1;
        let prefix = trace.drop_last();
        assert(valid_trace(m, prefix, draws.drop_last())) by {
            assert forall|k: int| 0 <= k < prefix.len() implies 0 <= #[trigger] prefix[k].0 < m.nsets by {
                assert(prefix[k] == trace[k]);
            }
            assert forall|k: int| 0 <= k < draws.drop_last().len() implies 0 <= #[trigger] draws.drop_last()[k] < m.assoc by {
                assert(draws.drop_last()[k] == draws[k]);
            }
        }
        let before = run(m, prefix, draws.drop_last());
        lemma_run_holds(m, prefix, draws.drop_last());
        lemma_run_keeps_policy(m, prefix, draws.drop_last());
        let index = trace[n].0;
        let tag = trace[n].1;
        assert(0 <= trace[n].0 < m.nsets);
        assert(0 <= draws[n] < m.assoc);
        assert(before.sets[index].len() == m.assoc);
        lemma_after_insert(before.sets[index], tag, m.repl, draws[n], 0);
        let after = run(m, trace, draws);
        assert(after == before.step(index, tag, draws[n]));
        assert forall|i: int, x: usize|
            0 <= i < m.nsets && #[trigger] holds_tag(after.sets[i], x) implies holds_tag(m.sets[i], x)
                || exists|k: int| 0 <= k < trace.len() && trace[k] == (i, x) by {
            if i != index || x != tag {
                if i != index {
                    assert(after.sets[i] == before.sets[i]);
                }
                assert(holds_tag(before.sets[i], x));
                if !holds_tag(m.sets[i], x) {
                    let k = choose|k: int| 0 <= k < prefix.len() && prefix[k] == (i, x);
                    assert(trace[k] == (i, x));
                }
            } else {
                assert(trace[n] == (i, x));
            }
        }
        assert forall|i: int| 0 <= i < m.nsets implies #[trigger] after.sets[i].len() == m.assoc by {
            assert(before.sets[i].len() == m.assoc);
            if i != index {
                assert(after.sets[i] == before.sets[i]);
            }
        }
    }
}

/// The first access of a tag in a set, from a cache with no way filled, is
/// never a hit; it is a compulsory miss when the set still has a vacancy.
pub proof fn lemma_first_touch(
    m: CacheModel,
    trace: Seq<(int, usize)>,
    draws: Seq<int>,
    index: int,
    tag: usize,
)
    requires
        m.wf(),
        is_fresh(m),
        valid_trace(m, trace, draws),
        0 <= index < m.nsets,
        forall|k: int| 0 <= k < trace.len() ==> trace[k] != (index, tag),
    ensures
        run(m, trace, draws).outcome(index, tag) != AccessResult::Hit,
        vacancies(run(m, trace, draws).sets[index]) > 0 ==> run(m, trace, draws).outcome(
            index,
            tag,
        ) == AccessResult::Miss(MissTypes::Compulsory),
{
    lemma_run_holds(m, trace, draws);
    assert(!holds_tag(m.sets[index], tag)) by {
        if holds_tag(m.sets[index], tag) {
            let j = choose|j: int|
                0 <= j < m.sets[index].len() && m.sets[index][j].is_initialized
                    && m.sets[index][j].tag == tag;
            assert(!m.sets[index][j].is_initialized);
        }
    }
}

/// Under LRU and FIFO an access never reads its draw.
pub proof fn lemma_step_ignores_draw(m: CacheModel, index: int, tag: usize, d1: int, d2: int)
    requires
        m.repl != ReplacementPolicy::Random,
    ensures
        m.step(index, tag, d1) == m.step(index, tag, d2),
{
}

/// Under LRU and FIFO a run is determined by the cache it starts from and its
/// trace: the draws do not matter.
pub proof fn lemma_run_ignores_draws(
    m: CacheModel,
    trace: Seq<(int, usize)>,
    d1: Seq<int>,
    d2: Seq<int>,
)
    requires
        m.repl != ReplacementPolicy::Random,
        d1.len() == trace.len(),
        d2.len() == trace.len(),
    ensures
        run(m, trace, d1) == run(m, trace, d2),
    decreases trace.len(),
{
    if trace.len() > 0 {
        lemma_run_ignores_draws(m, trace.drop_last(), d1.drop_last(), d2.drop_last());
        lemma_run_keeps_policy(m, trace.drop_last(), d1.drop_last());
        lemma_step_ignores_draw(
            run(m, trace.drop_last(), d1.drop_last()),
            trace.last().0,
            trace.last().1,
            d1.last(),
            d2.last(),
        );
    }
}

/// A run keeps the replacement policy.
pub proof fn lemma_run_keeps_policy(m: CacheModel, trace: Seq<(int, usize)>, draws: Seq<int>)
    ensures
        run(m, trace, draws).repl == m.repl,
    decreases trace.len(),
{
    if trace.len() > 0 {
        lemma_run_keeps_policy(m, trace.drop_last(), draws.drop_last());
    }
}

/// Number of vacant ways over all of `sets`.
pub open spec fn vacant(sets: Seq<Seq<Data>>) -> nat
    decreases sets.len(),
{
    if sets.len() == 0 {
        0
    } else {
        vacant(sets.drop_last()) + vacancies(sets.last())
    }
}

/// Filled and vacant ways add up to all the ways.
proof fn lemma_filled_vacant(sets: Seq<Seq<Data>>, assoc: nat)
    requires
        forall|i: int| 0 <= i < sets.len() ==> #[trigger] sets[i].len() == assoc,
    ensures
        filled(sets) + vacant(sets) == sets.len() * assoc,
        vacant(sets) == 0 <==> forall|i: int| 0 <= i < sets.len() ==> vacancies(#[trigger] sets[i]) == 0,
    decreases sets.len(),
{
    if sets.len() > 0 {
        let rest = sets.drop_last();
        assert forall|i: int| 0 <= i < rest.len() implies #[trigger] rest[i].len() == assoc by {
            assert(rest[i] == sets[i]);
        }
        lemma_filled_vacant(rest, assoc);
        crate::set_store::lemma_vacancies(sets.last());
        assert(sets.last().len() == assoc);
        assert(sets.len() * assoc == rest.len() * assoc + assoc) by (nonlinear_arith)
            requires
                sets.len() == rest.len() + 1,
        ;
        if vacant(sets) == 0 {
            assert forall|i: int| 0 <= i < sets.len() implies vacancies(#[trigger] sets[i]) == 0 by {
                if i < rest.len() {
                    assert(rest[i] == sets[i]);
                }
            }
        }
        if forall|i: int| 0 <= i < sets.len() ==> vacancies(#[trigger] sets[i]) == 0 {
            assert(vacancies(sets[sets.len() - 1]) == 0);
            assert forall|i: int| 0 <= i < rest.len() implies vacancies(#[trigger] rest[i]) == 0 by {
                assert(rest[i] == sets[i]);
            }
        }
    }
}

/// A capacity miss comes only once every way of the cache has been filled,
/// and a conflict miss only while some set still has a vacancy.
pub proof fn lemma_miss_causes(m: CacheModel, index: int, tag: usize)
    requires
        m.wf(),
        0 <= index < m.nsets,
    ensures
        m.outcome(index, tag) == AccessResult::Miss(MissTypes::Capacity) ==> forall|i: int|
            0 <= i < m.nsets ==> vacancies(#[trigger] m.sets[i]) == 0,
        m.outcome(index, tag) == AccessResult::Miss(MissTypes::Conflict) ==> exists|i: int|
            0 <= i < m.nsets && vacancies(#[trigger] m.sets[i]) > 0,
{
    lemma_filled_vacant(m.sets, m.assoc as nat);
}

} // verus!
