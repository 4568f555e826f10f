use cachesim::cache::{Cache, MainMemory};
use cachesim::cachemeta::CacheMeta;
use cachesim::direct::DirectCache;
use cachesim::fullassoc::FullAssocCache;
use cachesim::n_way::NWayCache;

fn meta(size: u64, line_size: u64, kind: u8, rp: u8) -> CacheMeta {
    CacheMeta { name: String::from("L1"), size, line_size, kind, rp }
}

fn counts<C: Cache>(c: &C) -> (Vec<u64>, Vec<u64>, u64) {
    (c.get_hits(Vec::new()), c.get_misses(Vec::new()), c.get_main_memory_accesses())
}

#[test]
fn main_memory_counts_every_request() {
    let mut m = MainMemory::new();
    m.access(0, 8);
    m.access_line(3);
    m.access(100, 1000);
    assert_eq!(m.get_main_memory_accesses(), 3);
    assert_eq!(m.get_hits(vec![7]), vec![7]);
    assert_eq!(m.get_misses(Vec::new()), Vec::<u64>::new());
}

#[test]
fn direct_reaccess_hits() {
    let mut c = DirectCache::new(&meta(256, 64, 0, 0), MainMemory::new());
    c.access(0x40, 4);
    c.access(0x40, 4);
    assert_eq!(counts(&c), (vec![1], vec![1], 1));
}

#[test]
fn direct_conflict_evicts_same_slot_only() {
    // 4 slots of 64 bytes: lines 0 and 4 share slot 0, line 1 sits in slot 1
    let mut c = DirectCache::new(&meta(256, 64, 0, 0), MainMemory::new());
    c.access(0, 1);
    c.access(64, 1);
    c.access(256, 1); // evicts line 0
    c.access(64, 1); // line 1 untouched: hit
    c.access(0, 1); // line 0 was evicted: miss
    assert_eq!(counts(&c), (vec![1], vec![4], 4));
}

#[test]
fn direct_access_spanning_lines() {
    let mut c = DirectCache::new(&meta(256, 64, 0, 0), MainMemory::new());
    // bytes 60..68 touch lines 0 and 1
    c.access(60, 8);
    assert_eq!(counts(&c), (vec![0], vec![2], 2));
    // bytes 0..64 lie in line 0 alone
    c.access(0, 64);
    assert_eq!(counts(&c), (vec![1], vec![2], 2));
}

#[test]
fn direct_zero_size_at_line_start_touches_nothing() {
    let mut c = DirectCache::new(&meta(256, 64, 0, 0), MainMemory::new());
    c.access(64, 0);
    assert_eq!(counts(&c), (vec![0], vec![0], 0));
    // inside a line, a zero-size access touches that line
    c.access(65, 0);
    assert_eq!(counts(&c), (vec![0], vec![1], 1));
}

#[test]
fn direct_miss_fetches_whole_line_from_lower_level() {
    // L1 lines of 64 bytes above L2 lines of 32 bytes: one L1 miss is two L2 lines
    let l2 = DirectCache::new(&meta(1024, 32, 0, 0), MainMemory::new());
    let mut l1 = DirectCache::new(&meta(256, 64, 0, 0), l2);
    l1.access(0, 1);
    assert_eq!(counts(&l1), (vec![0, 0], vec![1, 2], 2));
    l1.access(256, 1); // evicts line 0 in L1
    l1.access(0, 1); // misses in L1, hits both L2 lines
    assert_eq!(counts(&l1), (vec![0, 2], vec![3, 4], 4));
}

#[test]
fn two_way_lru_evicts_least_recently_used() {
    // 4 lines of 64 bytes, 2 ways: 2 sets; lines 0, 2, 4 map to set 0
    let mut c: NWayCache<2, MainMemory> = NWayCache::new(&meta(256, 64, 1, 1), MainMemory::new());
    c.access(0, 1); // line 0: miss
    c.access(128, 1); // line 2: miss
    c.access(0, 1); // line 0: hit, now most recently used
    c.access(256, 1); // line 4: miss, evicts line 2
    c.access(0, 1); // hit
    c.access(128, 1); // miss
    assert_eq!(counts(&c), (vec![2], vec![4], 4));
}

#[test]
fn two_way_round_robin_cycles_through_ways() {
    let mut c: NWayCache<2, MainMemory> = NWayCache::new(&meta(256, 64, 1, 0), MainMemory::new());
    c.access(0, 1); // line 0 into way 0
    c.access(128, 1); // line 2 into way 1
    c.access(0, 1); // hit
    c.access(256, 1); // line 4 replaces way 0 (line 0)
    c.access(128, 1); // line 2 still there: hit
    c.access(0, 1); // line 0 replaces way 1 (line 2)
    c.access(128, 1); // miss
    assert_eq!(counts(&c), (vec![2], vec![5], 5));
}

#[test]
fn two_way_lfu_evicts_least_frequently_used() {
    let mut c: NWayCache<2, MainMemory> = NWayCache::new(&meta(256, 64, 1, 2), MainMemory::new());
    c.access(0, 1); // line 0, used once
    c.access(0, 1); // line 0, used twice
    c.access(128, 1); // line 2, used once
    c.access(256, 1); // line 4 evicts line 2, the least used
    c.access(0, 1); // hit
    c.access(128, 1); // miss
    assert_eq!(counts(&c), (vec![2], vec![4], 4));
}

#[test]
fn four_way_fills_empty_ways_before_evicting() {
    // 8 lines, 4 ways: 2 sets; even lines map to set 0
    let mut c: NWayCache<4, MainMemory> = NWayCache::new(&meta(512, 64, 2, 1), MainMemory::new());
    for line in [0u64, 2, 4, 6] {
        c.access(line * 64, 1);
    }
    for line in [0u64, 2, 4, 6] {
        c.access(line * 64, 1);
    }
    assert_eq!(counts(&c), (vec![4], vec![4], 4));
}

#[test]
fn eight_way_reaccess_hits() {
    let mut c: NWayCache<8, MainMemory> = NWayCache::new(&meta(1024, 64, 3, 2), MainMemory::new());
    c.access(4096, 2);
    c.access(4096, 2);
    assert_eq!(counts(&c), (vec![1], vec![1], 1));
}

#[test]
fn full_assoc_has_no_conflict_misses() {
    // 4 slots: lines 0, 4, 8, 12 would share a slot in a direct-mapped cache
    let mut c = FullAssocCache::new(&meta(256, 64, 4, 0), MainMemory::new());
    for line in [0u64, 4, 8, 12] {
        c.access(line * 64, 1);
    }
    for line in [0u64, 4, 8, 12] {
        c.access(line * 64, 1);
    }
    assert_eq!(counts(&c), (vec![4], vec![4], 4));
}

#[test]
fn full_assoc_lru_evicts_least_recently_used() {
    let mut c = FullAssocCache::new(&meta(128, 64, 4, 1), MainMemory::new());
    c.access(0, 1); // line 0
    c.access(64, 1); // line 1
    c.access(0, 1); // hit: line 1 is now least recent
    c.access(128, 1); // line 2 evicts line 1
    c.access(0, 1); // hit
    c.access(64, 1); // miss
    assert_eq!(counts(&c), (vec![2], vec![4], 4));
}

#[test]
fn full_assoc_lfu_evicts_least_frequently_used() {
    let mut c = FullAssocCache::new(&meta(192, 64, 4, 2), MainMemory::new());
    c.access(0, 1); // line 0 once
    c.access(64, 1); // line 1 once
    c.access(128, 1); // line 2 once
    c.access(0, 1); // line 0 twice
    c.access(128, 1); // line 2 twice
    c.access(192, 1); // line 3 evicts line 1, the least used
    c.access(0, 1); // hit
    c.access(128, 1); // hit
    c.access(64, 1); // miss: evicts line 3 (used once, lowest slot among the least)
    c.access(192, 1); // miss
    assert_eq!(counts(&c), (vec![4], vec![6], 6));
}

#[test]
fn full_assoc_lfu_tie_goes_to_lowest_slot() {
    let mut c = FullAssocCache::new(&meta(128, 64, 4, 2), MainMemory::new());
    c.access(0, 1); // slot 0
    c.access(64, 1); // slot 1
    c.access(128, 1); // tie: slot 0 (line 0) is evicted
    c.access(64, 1); // hit
    c.access(0, 1); // miss
    assert_eq!(counts(&c), (vec![1], vec![4], 4));
}

#[test]
fn full_assoc_round_robin() {
    let mut c = FullAssocCache::new(&meta(128, 64, 4, 0), MainMemory::new());
    c.access(0, 1); // slot 0
    c.access(64, 1); // slot 1
    c.access(128, 1); // round robin picks slot 0
    c.access(64, 1); // hit
    c.access(192, 1); // picks slot 1
    c.access(64, 1); // miss
    assert_eq!(counts(&c), (vec![1], vec![5], 5));
}

#[test]
fn three_level_hierarchy_reports_top_first() {
    let l3 = FullAssocCache::new(&meta(1024, 64, 4, 1), MainMemory::new());
    let l2: NWayCache<2, _> = NWayCache::new(&meta(512, 64, 1, 1), l3);
    let mut l1 = DirectCache::new(&meta(128, 64, 0, 0), l2);
    l1.access(0, 1);
    l1.access(128, 1); // L1 conflict with line 0
    l1.access(0, 1); // L1 miss, L2 hit
    assert_eq!(counts(&l1), (vec![0, 1, 0], vec![3, 2, 2], 2));
}

#[test]
fn boxed_level_behaves_as_the_level() {
    let mut c: Box<DirectCache<MainMemory>> = Box::new(DirectCache::new(&meta(256, 64, 0, 0), MainMemory::new()));
    c.access(0, 1);
    c.access_line(0);
    assert_eq!(counts(&c), (vec![1], vec![1], 1));
}

#[test]
fn try_access_agrees_with_access_on_every_kind() {
    for kind in 0u8..=4 {
        for rp in 0u8..=2 {
            let m = meta(512, 64, kind, rp);
            let mut plain = cachesim::hierarchy::AnyCache::new(&m, MainMemory::new());
            let mut tried = cachesim::hierarchy::AnyCache::new(&m, MainMemory::new());
            for &(address, size) in &[(0u64, 4u64), (60, 8), (1024, 64), (0, 1), (4096, 200), (60, 8)] {
                plain.access(address, size);
                assert!(tried.try_access(address, size));
            }
            plain.access_line(7);
            assert!(tried.try_access_line(7));
            assert_eq!(counts(&plain), counts(&tried));
        }
    }
}

#[test]
fn try_access_refuses_an_access_past_the_address_space() {
    let mut c = DirectCache::new(&meta(256, 64, 0, 0), MainMemory::new());
    assert!(!c.try_access(u64::MAX, 2));
    let mut f = FullAssocCache::new(&meta(256, 64, 4, 1), MainMemory::new());
    assert!(!f.try_access(u64::MAX - 1, 3));
    let mut n = NWayCache::<2, MainMemory>::new(&meta(256, 64, 1, 0), MainMemory::new());
    assert!(!n.try_access(0, 0));
}

#[test]
fn main_memory_try_access_stops_at_the_counter_limit() {
    let mut m = MainMemory { accesses: u64::MAX - 1 };
    assert!(m.try_access(0, 1));
    assert_eq!(m.get_main_memory_accesses(), u64::MAX);
    assert!(!m.try_access(0, 1));
    assert!(!m.try_access_line(0));
}

#[test]
fn full_try_access_line_refuses_the_empty_slot_marker() {
    let mut f = FullAssocCache::new(&meta(256, 1, 4, 0), MainMemory::new());
    assert!(!f.try_access_line(u64::MAX));
    assert!(f.try_access_line(5));
}

#[test]
fn direct_hit_history_by_slot() {
    // 4 slots: lines 1, 5 and 9 share slot 1; line 2 has slot 2
    let mut c = DirectCache::new(&meta(256, 64, 0, 0), MainMemory::new());
    for line in [1u64, 2, 5, 9] {
        c.access_line(line);
    }
    // 9 was the last line in slot 1, 2 the last in slot 2: both hit, 5 misses
    c.access_line(9);
    c.access_line(2);
    c.access_line(5);
    assert_eq!(counts(&c), (vec![2], vec![5], 5));
}

#[test]
fn full_distinct_lines_fill_without_eviction() {
    for rp in 0u8..=2 {
        let mut f = FullAssocCache::new(&meta(256, 64, 4, rp), MainMemory::new());
        for line in [10u64, 3, 7, 42] {
            f.access_line(line);
        }
        assert_eq!(counts(&f), (vec![0], vec![4], 4));
        for line in [42u64, 7, 3, 10] {
            f.access_line(line);
        }
        assert_eq!(counts(&f), (vec![4], vec![4], 4));
    }
}

#[test]
fn nway_miss_changes_only_its_set() {
    // 2 ways, 2 sets: even lines go to set 0, odd lines to set 1
    let mut n = NWayCache::<2, MainMemory>::new(&meta(256, 64, 1, 0), MainMemory::new());
    for line in [1u64, 3, 0, 2, 4] {
        n.access_line(line); // 4 evicts from set 0 only
    }
    n.access_line(1);
    n.access_line(3);
    assert_eq!(counts(&n), (vec![2], vec![5], 5));
}

#[test]
fn nway_lru_evicts_the_line_last_used_earliest() {
    // one set of two ways
    let mut n = NWayCache::<2, MainMemory>::new(&meta(128, 64, 1, 1), MainMemory::new());
    for line in [0u64, 1, 0, 2, 0, 1] {
        n.access_line(line); // 2 evicts 1; the second 1 evicts 2
    }
    assert_eq!(counts(&n), (vec![2], vec![4], 4));
}

#[test]
fn nway_lfu_evicts_the_line_least_used_since_it_came_in() {
    let mut n = NWayCache::<2, MainMemory>::new(&meta(128, 64, 1, 2), MainMemory::new());
    for line in [0u64, 0, 0, 1, 1, 2, 0, 1] {
        n.access_line(line); // 2 evicts 1 (two uses against three); the last 1 evicts 2
    }
    assert_eq!(counts(&n), (vec![4], vec![4], 4));
}

#[test]
fn nway_round_robin_evicts_ways_in_turn() {
    let mut n = NWayCache::<2, MainMemory>::new(&meta(128, 64, 1, 0), MainMemory::new());
    for line in [0u64, 1, 2, 3, 0, 3] {
        n.access_line(line); // 2 evicts way 0, 3 way 1, 0 way 0 again; 3 stays
    }
    assert_eq!(counts(&n), (vec![1], vec![5], 5));
}

#[test]
fn full_lru_evicts_the_line_last_used_earliest() {
    let mut f = FullAssocCache::new(&meta(128, 64, 4, 1), MainMemory::new());
    for line in [0u64, 1, 0, 2, 0, 1] {
        f.access_line(line); // 2 evicts 1; the second 1 evicts 2
    }
    assert_eq!(counts(&f), (vec![2], vec![4], 4));
}

#[test]
fn full_lfu_evicts_the_line_least_used_since_it_came_in() {
    let mut f = FullAssocCache::new(&meta(128, 64, 4, 2), MainMemory::new());
    for line in [0u64, 0, 1, 2, 0, 1] {
        f.access_line(line); // 2 evicts 1 (one use against two); the last 1 evicts 2
    }
    assert_eq!(counts(&f), (vec![2], vec![4], 4));
}

#[test]
fn full_round_robin_evicts_slots_in_turn() {
    let mut f = FullAssocCache::new(&meta(128, 64, 4, 0), MainMemory::new());
    for line in [0u64, 1, 2, 3, 0, 3] {
        f.access_line(line); // 2 evicts slot 0, 3 slot 1, 0 slot 0 again; 3 stays
    }
    assert_eq!(counts(&f), (vec![1], vec![5], 5));
}
