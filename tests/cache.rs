use csimlib::cache::{AccessResult, Cache, Data, Kind, MissTypes, Performance, ReplacementPolicy};

#[test]
fn cache_create_test() {
    let nsets = 32;
    let bsize = 32;
    let repl = ReplacementPolicy::Lru;
    let assoc = 4;
    let cache_type = Kind::Data;

    let cache = Cache::create(nsets, bsize, repl, assoc, cache_type);

    assert_eq!(cache.data.len(), nsets);
    for conj in &cache.data {
        assert_eq!(conj.len(), assoc);
    }
    assert_eq!(cache.kind, cache_type);
    assert_eq!(cache.info.bsize, bsize);
    assert_eq!(cache.info.repl, repl);
}

fn one_set(repl: ReplacementPolicy) -> Cache {
    Cache::create_with_seed(1, 4, repl, 2, Kind::Data, 7)
}

const A: usize = 10;
const B: usize = 20;
const C: usize = 30;

#[test]
fn size_is_sets_times_block_times_ways() {
    let cache = Cache::create_with_seed(64, 16, ReplacementPolicy::Fifo, 8, Kind::Both, 1);
    assert_eq!(cache.info.size, 64 * 16 * 8);
    assert_eq!(cache.info.total_slots, 64 * 8);
    assert_eq!(cache.info.nsets, 64);
    assert_eq!(cache.info.assoc, 8);
    assert_eq!(cache.performance, Performance::default());
    for set in &cache.data {
        for way in set {
            assert!(!way.is_initialized);
        }
    }
}

#[test]
fn counters_balance_after_every_access() {
    let mut cache = Cache::create_with_seed(4, 4, ReplacementPolicy::Lru, 2, Kind::Data, 3);
    let accesses: [(usize, usize); 12] =
        [(0, 1), (0, 2), (1, 1), (0, 3), (0, 1), (2, 9), (3, 9), (1, 4), (1, 5), (1, 1), (0, 2), (3, 9)];
    for (index, tag) in accesses.iter() {
        cache.access_with(*index, *tag, 0);
        let p = &cache.performance;
        assert_eq!(p.hits + p.misses, p.accesses);
        assert_eq!(p.compulsory_misses + p.capacity_misses + p.conflict_misses, p.misses);
    }
    assert_eq!(cache.performance.accesses, 12);
}

#[test]
fn first_touch_is_compulsory() {
    let mut cache = Cache::create_with_seed(2, 4, ReplacementPolicy::Fifo, 2, Kind::Data, 0);
    assert_eq!(cache.access_with(0, 5, 0), AccessResult::Miss(MissTypes::Compulsory));
    assert_eq!(cache.access_with(1, 5, 0), AccessResult::Miss(MissTypes::Compulsory));
    assert_eq!(cache.access_with(0, 6, 0), AccessResult::Miss(MissTypes::Compulsory));
    assert_eq!(cache.performance.compulsory_misses, 3);
    assert_eq!(cache.performance.slots_occupied, 3);
}

#[test]
fn first_touch_in_full_set_is_not_a_hit() {
    let mut cache = Cache::create_with_seed(2, 4, ReplacementPolicy::Lru, 1, Kind::Data, 0);
    cache.access_with(0, 1, 0);
    // set 1 is still empty, so a miss in the full set 0 is a conflict
    assert_eq!(cache.access_with(0, 2, 0), AccessResult::Miss(MissTypes::Conflict));
    cache.access_with(1, 1, 0);
    // now every way of the cache has been filled
    assert_eq!(cache.access_with(0, 3, 0), AccessResult::Miss(MissTypes::Capacity));
}

#[test]
fn reaccess_is_a_hit() {
    for repl in [ReplacementPolicy::Lru, ReplacementPolicy::Fifo, ReplacementPolicy::Random] {
        let mut cache = one_set(repl);
        for tag in [A, B, C, A, B, C, C] {
            cache.access_with(0, tag, 0);
            assert_eq!(cache.access_with(0, tag, 0), AccessResult::Hit);
        }
    }
}

#[test]
fn lru_evicts_least_recently_used() {
    let mut cache = one_set(ReplacementPolicy::Lru);
    assert_eq!(cache.access_with(0, A, 0), AccessResult::Miss(MissTypes::Compulsory));
    assert_eq!(cache.access_with(0, B, 0), AccessResult::Miss(MissTypes::Compulsory));
    assert_eq!(cache.access_with(0, C, 0), AccessResult::Miss(MissTypes::Capacity));
    assert_eq!(cache.access_with(0, A, 0), AccessResult::Miss(MissTypes::Capacity));

    let mut cache = one_set(ReplacementPolicy::Lru);
    cache.access_with(0, A, 0);
    cache.access_with(0, B, 0);
    cache.access_with(0, C, 0);
    assert_eq!(cache.access_with(0, B, 0), AccessResult::Hit);
}

#[test]
fn lru_keeps_recently_used_tag() {
    let mut cache = one_set(ReplacementPolicy::Lru);
    cache.access_with(0, A, 0);
    cache.access_with(0, B, 0);
    assert_eq!(cache.access_with(0, A, 0), AccessResult::Hit);
    // B is now the least recently used
    cache.access_with(0, C, 0);
    assert_eq!(cache.access_with(0, A, 0), AccessResult::Hit);
    assert_eq!(cache.access_with(0, B, 0), AccessResult::Miss(MissTypes::Capacity));
}

#[test]
fn fifo_evicts_first_inserted() {
    let mut cache = one_set(ReplacementPolicy::Fifo);
    cache.access_with(0, A, 0);
    cache.access_with(0, B, 0);
    assert_eq!(cache.access_with(0, A, 0), AccessResult::Hit);
    // re-accessing A does not protect it: it was inserted first
    cache.access_with(0, C, 0);
    assert_eq!(cache.access_with(0, B, 0), AccessResult::Hit);
    assert_eq!(cache.access_with(0, A, 0), AccessResult::Miss(MissTypes::Capacity));
    assert_eq!(cache.performance.hits, 2);
    assert_eq!(cache.performance.capacity_misses, 2);
}

#[test]
fn lru_victim_is_the_first_of_equal_ages() {
    let mut cache = one_set(ReplacementPolicy::Fifo);
    cache.data[0][0] = Data { tag: A, is_initialized: true, replaceability: 5 };
    cache.data[0][1] = Data { tag: B, is_initialized: true, replaceability: 5 };
    cache.performance.accesses = 10;
    cache.performance.misses = 10;
    cache.performance.compulsory_misses = 10;
    cache.access_with(0, C, 0);
    assert_eq!(cache.data[0][0].tag, C);
    assert_eq!(cache.data[0][1].tag, B);
}

#[test]
fn random_eviction_stays_within_the_set() {
    let mut cache = Cache::create_with_seed(1, 4, ReplacementPolicy::Random, 4, Kind::Data, 99);
    for tag in 0..200usize {
        cache.access_with(0, tag, 0);
        assert_eq!(cache.data[0].len(), 4);
        assert!(cache.data[0].iter().any(|d| d.is_initialized && d.tag == tag));
    }
    assert_eq!(cache.performance.compulsory_misses, 4);
    assert_eq!(cache.performance.capacity_misses, 196);
}

#[test]
fn random_with_same_seed_replays() {
    let trace: Vec<(usize, usize)> = (0..500usize).map(|k| (k % 4, (k * 7919) % 23)).collect();
    let mut first = Cache::create_with_seed(4, 8, ReplacementPolicy::Random, 2, Kind::Data, 2024);
    let mut second = Cache::create_with_seed(4, 8, ReplacementPolicy::Random, 2, Kind::Data, 2024);
    for (index, tag) in &trace {
        let a = first.access_with(*index, *tag, 0);
        let b = second.access_with(*index, *tag, 0);
        assert_eq!(a, b);
    }
    assert_eq!(first.performance, second.performance);
    assert_eq!(first.data, second.data);
}

#[test]
fn lru_ages_follow_the_table() {
    let mut cache = one_set(ReplacementPolicy::Lru);
    cache.access_with(0, A, 0);
    assert_eq!(cache.data[0][0].replaceability, 0);
    cache.access_with(0, B, 0);
    assert_eq!(cache.data[0][0].replaceability, 1);
    assert_eq!(cache.data[0][1].replaceability, 0);
    cache.access_with(0, A, 0);
    assert_eq!(cache.data[0][0].replaceability, 0);
    assert_eq!(cache.data[0][1].replaceability, 1);
}
