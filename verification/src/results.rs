use vstd::prelude::*;

verus! {

/// The counts of one cache level after a run.
pub struct CacheResult {
    pub hits: u64,
    pub misses: u64,
    pub name: String,
}

/// The outcome of a run: the counts of each cache level, top first, and the number of
/// requests that reached main memory.
pub struct SimulationResults {
    pub caches: Vec<CacheResult>,
    pub main_memory_accesses: u64,
}

/// Pairs each level's name with its hit and miss counts, in order.
pub fn collect_results(cache_names: &Vec<String>, hits: &Vec<u64>, misses: &Vec<u64>) -> (r: Vec<CacheResult>)
    requires
        cache_names@.len() <= hits@.len(),
        cache_names@.len() <= misses@.len(),
    ensures
        r@.len() == cache_names@.len(),
        forall|i: int|
            0 <= i < r@.len() ==> {
                &&& (#[trigger] r@[i]).hits == hits@[i]
                &&& r@[i].misses == misses@[i]
                &&& r@[i].name@ == cache_names@[i]@
            },
{
    let mut r: Vec<CacheResult> = Vec::new();
    let mut i: usize = 0;
    while i < cache_names.len()
        invariant
            i <= cache_names@.len(),
            cache_names@.len() <= hits@.len(),
            cache_names@.len() <= misses@.len(),
            r@.len() == i,
            forall|k: int|
                0 <= k < i ==> {
                    &&& (#[trigger] r@[k]).hits == hits@[k]
                    &&& r@[k].misses == misses@[k]
                    &&& r@[k].name@ == cache_names@[k]@
                },
        decreases cache_names@.len() - i,
    {
        r.push(CacheResult { hits: hits[i], misses: misses[i], name: cache_names[i].clone() });
        i += 1;
    }
    r
}

} // verus!
