use cachesim::cache::{Cache, MainMemory};
use cachesim::cachemeta::CacheMeta;
use cachesim::direct::DirectCache;
use cachesim::fullassoc::FullAssocCache;
use cachesim::hierarchy::{build_dyn_chain, is_buildable, serve_all, AnyCache, Outbox, Request};
use cachesim::n_way::NWayCache;

fn meta(name: &str, size: u64, line_size: u64, kind: u8, rp: u8) -> CacheMeta {
    CacheMeta { name: String::from(name), size, line_size, kind, rp }
}

fn counts<C: Cache>(c: &C) -> (Vec<u64>, Vec<u64>, u64) {
    (c.get_hits(Vec::new()), c.get_misses(Vec::new()), c.get_main_memory_accesses())
}

fn workload() -> Vec<(u64, u64)> {
    let mut accesses = Vec::new();
    let mut x: u64 = 12345;
    for _ in 0..2000 {
        x = x.wrapping_mul(6364136223846793005).wrapping_add(1442695040888963407);
        let address = (x >> 33) % 8192;
        let size = 1 + (x >> 20) % 100;
        accesses.push((address, size));
    }
    accesses
}

#[test]
fn any_cache_matches_the_cache_it_wraps() {
    let configs = [
        meta("a", 1024, 64, 0, 0),
        meta("b", 1024, 64, 1, 1),
        meta("c", 1024, 32, 2, 2),
        meta("d", 2048, 64, 3, 0),
        meta("e", 512, 64, 4, 1),
    ];
    for m in configs.iter() {
        let mut any = AnyCache::new(m, MainMemory::new());
        for &(a, s) in workload().iter() {
            any.access(a, s);
        }
        let expected = match m.kind {
            0 => {
                let mut c = DirectCache::new(m, MainMemory::new());
                for &(a, s) in workload().iter() {
                    c.access(a, s);
                }
                counts(&c)
            }
            1 => {
                let mut c: NWayCache<2, _> = NWayCache::new(m, MainMemory::new());
                for &(a, s) in workload().iter() {
                    c.access(a, s);
                }
                counts(&c)
            }
            2 => {
                let mut c: NWayCache<4, _> = NWayCache::new(m, MainMemory::new());
                for &(a, s) in workload().iter() {
                    c.access(a, s);
                }
                counts(&c)
            }
            3 => {
                let mut c: NWayCache<8, _> = NWayCache::new(m, MainMemory::new());
                for &(a, s) in workload().iter() {
                    c.access(a, s);
                }
                counts(&c)
            }
            _ => {
                let mut c = FullAssocCache::new(m, MainMemory::new());
                for &(a, s) in workload().iter() {
                    c.access(a, s);
                }
                counts(&c)
            }
        };
        assert_eq!(counts(&any), expected);
    }
}

#[test]
fn chain_serves_as_nested_levels() {
    // bottom first, as the chain is built
    let metas = vec![meta("L3", 4096, 64, 4, 2), meta("L2", 1024, 32, 1, 1), meta("L1", 256, 16, 0, 0)];
    let mut chain = build_dyn_chain(&metas, MainMemory::new());
    let l3 = FullAssocCache::new(&metas[0], MainMemory::new());
    let l2: NWayCache<2, _> = NWayCache::new(&metas[1], l3);
    let mut nested = DirectCache::new(&metas[2], l2);
    for &(a, s) in workload().iter() {
        chain.access(a, s);
        nested.access(a, s);
    }
    assert_eq!(counts(&chain), counts(&nested));
    assert_eq!(chain.get_hits(Vec::new()).len(), 3);
}

#[test]
fn chain_below_static_levels() {
    // five levels: the two lowest in a chain under three built above it
    let chain = build_dyn_chain(&[meta("L5", 8192, 64, 4, 0), meta("L4", 4096, 64, 2, 2)], MainMemory::new());
    let l3 = AnyCache::new(&meta("L3", 2048, 64, 3, 1), chain);
    let l2 = AnyCache::new(&meta("L2", 1024, 64, 1, 1), l3);
    let mut l1 = AnyCache::new(&meta("L1", 256, 64, 0, 0), l2);
    for &(a, s) in workload().iter() {
        l1.access(a, s);
    }
    let (hits, misses, memory) = counts(&l1);
    assert_eq!(hits.len(), 5);
    assert_eq!(misses.len(), 5);
    assert_eq!(memory, misses[4]);
}

#[test]
fn empty_chain_is_main_memory() {
    let mut chain = build_dyn_chain(&[], MainMemory::new());
    chain.access(0, 8);
    chain.access_line(5);
    assert_eq!(counts(&chain), (vec![], vec![], 2));
}

#[test]
fn outbox_records_requests_in_order() {
    let mut o = Outbox::new();
    o.access(64, 8);
    o.access_line(3);
    assert_eq!(o.get_main_memory_accesses(), 0);
    let r = o.into_requests();
    assert_eq!(r.len(), 2);
    assert!(matches!(r[0], Request::Bytes(64, 8)));
    assert!(matches!(r[1], Request::Line(3)));
}

#[test]
fn serve_all_forwards_each_request() {
    let mut m = MainMemory::new();
    serve_all(&mut m, &vec![Request::Bytes(0, 1), Request::Line(9), Request::Bytes(4, 4)]);
    assert_eq!(m.get_main_memory_accesses(), 3);
}

#[test]
fn buildable_configurations() {
    assert!(is_buildable(&meta("x", 256, 64, 0, 0)));
    assert!(!is_buildable(&meta("x", 256, 0, 0, 0)));
    assert!(!is_buildable(&meta("x", 32, 64, 0, 0)));
    assert!(is_buildable(&meta("x", 128, 64, 1, 0)));
    assert!(!is_buildable(&meta("x", 64, 64, 1, 0)));
    assert!(is_buildable(&meta("x", 256, 64, 2, 0)));
    assert!(!is_buildable(&meta("x", 192, 64, 2, 0)));
    assert!(is_buildable(&meta("x", 0, 64, 4, 0)));
    assert!(!is_buildable(&meta("x", 256, 64, 5, 0)));
}
