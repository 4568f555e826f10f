# cachesim

A trace-driven simulator of multi-level CPU cache hierarchies, verified with Verus.

A hierarchy is a stack of cache levels above main memory. Each level is a
direct-mapped, set associative (2, 4 or 8 ways) or fully associative cache with
round robin, least recently used or least frequently used replacement. A trace
is a file of fixed-width lines, each naming an address (16 hexadecimal digits)
and a size (3 decimal digits); every access is run through the top level, and
each level passes the lines it misses to the level below. The result is the hit
and miss count of every level and the number of requests that reached memory.

## Layout

- `src/cache.rs`: the `Cache` trait. Every level is a deterministic state
  machine over its view; `after_line` and `after_access` give the next state, or
  `None` where the request cannot be served, and `try_access` and
  `try_access_line` serve a request only where it can be served, saying whether
  it was. Also `MainMemory`.
- `src/direct.rs`, `src/n_way.rs`, `src/fullassoc.rs`: the three kinds of
  cache, each with its model, its step function and the laws proved of it
  (residency after an access, counting, eviction only when a set or the cache
  is full, an access as the run of its lines, and which line each replacement
  policy evicts in terms of the accesses that came before).
- `src/min_heap.rs`: the indexed binary min-heap behind least frequently used
  replacement in the fully associative cache.
- `src/tag_map.rs`: the trusted wrappers around the `rustc-hash` hash map.
- `src/hierarchy.rs`: a level of any kind chosen at run time, and a chain of
  levels of any depth.
- `src/trace.rs`: parsing of trace lines and running a trace through a level,
  with a checked run that says whether the hierarchy could serve the whole trace.
- `src/json_config.rs`: reading the JSON hierarchy description into
  configurations, with the reason for refusing one.
- `src/cachemeta.rs`, `src/results.rs`: configurations and results.
- `app/`: the command-line driver: reading the description file, mapping the
  trace file, writing the results as JSON.
