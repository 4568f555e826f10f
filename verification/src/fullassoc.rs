use vstd::prelude::*;
use rustc_hash::FxHashMap;
use crate::cache::{Cache, INVALID_TAG, access_in_range, after_lines, first_line, last_line, lemma_after_lines_cons, likely, line_range};
use crate::cachemeta::CacheMeta;
use crate::min_heap::{IndexedMinHeap, key_le};
use crate::tag_map::{tag_map_get, tag_map_insert, tag_map_remove, tag_map_with_capacity};
use crate::bits::lemma_trailing_zeros_facts;

verus! {

/// The state of a fully associative cache, with `LV` the state of the level below it.
pub struct FullAssocView<LV> {
    /// The tag stored in each line slot, `INVALID_TAG` where the slot is empty.
    pub tags: Seq<u64>,
    /// For least recently used replacement: the clock value of each slot's last use.
    pub timestamps: Seq<u64>,
    /// For least frequently used replacement: the uses of each slot's line.
    pub frequencies: Seq<u64>,
    pub global_clock: u64,
    pub rr_counter: usize,
    pub num_lines: usize,
    pub line_size: u64,
    /// Slots below this are filled, in order of first use.
    pub occupied: usize,
    pub offset_bits: u32,
    pub hits: u64,
    pub misses: u64,
    pub rp: u8,
    pub lower: LV,
}

/// The first slot whose timestamp is the least.
pub open spec fn is_lru_victim(timestamps: Seq<u64>, i: int) -> bool {
    &&& 0 <= i < timestamps.len()
    &&& forall|j: int| 0 <= j < timestamps.len() ==> timestamps[i] <= timestamps[j]
    &&& forall|j: int| 0 <= j < i ==> timestamps[j] > timestamps[i]
}

pub open spec fn lru_victim(timestamps: Seq<u64>) -> int {
    choose|i: int| is_lru_victim(timestamps, i)
}

/// The slot with the fewest uses, the lowest such slot on a tie.
pub open spec fn is_lfu_victim(frequencies: Seq<u64>, i: int) -> bool {
    &&& 0 <= i < frequencies.len()
    &&& forall|j: int| 0 <= j < frequencies.len() ==> key_le((frequencies[i], i as u64), (frequencies[j], j as u64))
}

pub open spec fn lfu_victim(frequencies: Seq<u64>) -> int {
    choose|i: int| is_lfu_victim(frequencies, i)
}

impl<LV> FullAssocView<LV> {
    /// The same state above another level below.
    pub open spec fn rebase<LW>(self, lower: LW) -> FullAssocView<LW> {
        FullAssocView {
            tags: self.tags,
            timestamps: self.timestamps,
            frequencies: self.frequencies,
            global_clock: self.global_clock,
            rr_counter: self.rr_counter,
            num_lines: self.num_lines,
            line_size: self.line_size,
            occupied: self.occupied,
            offset_bits: self.offset_bits,
            hits: self.hits,
            misses: self.misses,
            rp: self.rp,
            lower,
        }
    }

    /// The line with this tag is resident.
    pub open spec fn holds(self, tag: u64) -> bool {
        self.tags.contains(tag)
    }

    /// The slot that holds the line with this tag.
    pub open spec fn slot_of(self, tag: u64) -> int {
        self.tags.index_of(tag)
    }

    /// The shape every reachable state has: the filled slots are the first `occupied`
    /// ones, no tag is stored twice, and no slot's timestamp is later than the clock.
    pub open spec fn inv(self) -> bool {
        &&& self.tags.len() == self.num_lines
        &&& self.timestamps.len() == self.num_lines
        &&& self.frequencies.len() == self.num_lines
        &&& self.occupied <= self.num_lines
        &&& self.offset_bits < 64
        &&& forall|i: int| 0 <= i < self.num_lines ==> #[trigger] self.timestamps[i] <= self.global_clock
        &&& forall|i: int| 0 <= i < self.num_lines ==> ((#[trigger] self.tags[i] != INVALID_TAG) <==> i < self.occupied)
        &&& forall|i: int, j: int|
            0 <= i < self.occupied && 0 <= j < self.occupied && i != j ==> #[trigger] self.tags[i] != #[trigger] self.tags[j]
    }
}

/// A fully associative cache: a line may sit in any slot. Empty slots are filled in
/// order; once all are filled a miss evicts by the replacement policy: round robin
/// (`rp == 0`), least recently used (`rp == 1`) or least frequently used, lowest slot
/// first on a tie (`rp == 2`).
pub struct FullAssocCache<L: Cache> {
    lfu_heap: IndexedMinHeap,
    tags: Vec<u64>,
    tags_map: FxHashMap<u64, usize>,
    lru_timestamps: Vec<u64>,
    global_clock: u64,
    rr_counter: usize,
    num_lines: usize,
    line_size: u64,
    occupied: usize,
    offset_bits: u32,
    hits: u64,
    misses: u64,
    lower: L,
    rp: u8,
}

impl<L: Cache> View for FullAssocCache<L> {
    type V = FullAssocView<L::V>;

    closed spec fn view(&self) -> FullAssocView<L::V> {
        FullAssocView {
            tags: self.tags@,
            timestamps: self.lru_timestamps@,
            frequencies: Seq::new(self.lfu_heap.keys().len(), |i: int| self.lfu_heap.keys()[i].0),
            global_clock: self.global_clock,
            rr_counter: self.rr_counter,
            num_lines: self.num_lines,
            line_size: self.line_size,
            occupied: self.occupied,
            offset_bits: self.offset_bits,
            hits: self.hits,
            misses: self.misses,
            rp: self.rp,
            lower: self.lower@,
        }
    }
}

impl<L: Cache> FullAssocCache<L> {
    /// Everything but the agreement of the tags, the map and the heap.
    closed spec fn shape(&self) -> bool {
        &&& self.tags@.len() == self.num_lines
        &&& self.lru_timestamps@.len() == self.num_lines
        &&& self.lfu_heap.wf()
        &&& self.lfu_heap.capacity() == self.num_lines
        &&& self.num_lines < usize::MAX
        &&& self.occupied <= self.num_lines
        &&& self.offset_bits < 64
        &&& forall|i: int| 0 <= i < self.num_lines ==> #[trigger] self.lru_timestamps@[i] <= self.global_clock
        &&& self.lower.wf()
    }

    /// The first `k` slots are filled, each with a tag the map sends back to it, and
    /// under least frequently used replacement exactly those slots are in the heap,
    /// each keyed by its own index on ties.
    closed spec fn consistent(&self, k: int) -> bool {
        &&& 0 <= k <= self.num_lines
        &&& forall|i: int| 0 <= i < self.num_lines ==> ((#[trigger] self.tags@[i] != INVALID_TAG) <==> i < k)
        &&& forall|i: int| 0 <= i < k ==> {
            &&& self.tags_map@.contains_key(#[trigger] self.tags@[i])
            &&& self.tags_map@[self.tags@[i]] == i
        }
        &&& forall|t: u64| #[trigger] self.tags_map@.contains_key(t) ==> {
            &&& self.tags_map@[t] < k
            &&& self.tags@[self.tags_map@[t] as int] == t
        }
        &&& self.rp == 2 ==> {
            &&& self.lfu_heap.members() == Set::new(|i: usize| i < k)
            &&& self.lfu_heap.size() == k
            &&& forall|i: int| 0 <= i < k ==> (#[trigger] self.lfu_heap.keys()[i]).1 == i
        }
    }
}

impl<L: Cache> FullAssocCache<L> {
    /// The state of a cache just built from `meta` above a level in state `lower`: every
    /// slot empty, no hits or misses counted, every clock and counter at zero.
    pub open spec fn initial(meta: CacheMeta, lower: L::V) -> FullAssocView<L::V> {
        let n = (meta.size / meta.line_size) as usize;
        FullAssocView {
            tags: Seq::new(n as nat, |i: int| INVALID_TAG),
            timestamps: Seq::new(n as nat, |i: int| 0u64),
            frequencies: Seq::new(n as nat, |i: int| 0u64),
            global_clock: 0,
            rr_counter: 0,
            num_lines: n,
            line_size: meta.line_size,
            occupied: 0,
            offset_bits: meta.line_size.trailing_zeros(),
            hits: 0,
            misses: 0,
            rp: meta.rp,
            lower,
        }
    }

    /// Builds an empty cache of `meta.size / meta.line_size` slots above `lower`, with
    /// the replacement policy `meta.rp`. Line boundaries fall at multiples of the
    /// largest power of two that divides the line size.
    pub fn new(meta: &CacheMeta, lower: L) -> (c: Self)
        requires
            lower.wf(),
            meta.line_size > 0,
            meta.size / meta.line_size < usize::MAX,
        ensures
            c.wf(),
            c@ == Self::initial(*meta, lower@),
    {
        // Calculate no of cache lines
        let num_lines = (meta.size / meta.line_size) as usize;
        // Calculate bits for offset, index, and tag
        let offset_bits = meta.line_size.trailing_zeros();
        proof {
            lemma_trailing_zeros_facts(meta.line_size);
        }
        let c = FullAssocCache {
            lfu_heap: IndexedMinHeap::new(num_lines),
            tags: vec![INVALID_TAG; num_lines],
            tags_map: tag_map_with_capacity(num_lines),
            lru_timestamps: vec![0u64; num_lines],
            global_clock: 0,
            rr_counter: 0,
            num_lines,
            line_size: meta.line_size,
            occupied: 0,
            offset_bits,
            hits: 0,
            misses: 0,
            lower,
            rp: meta.rp,
        };
        proof {
            assert(c.lfu_heap.members() =~= Set::new(|i: usize| i < 0));
            assert(c.tags_map@.dom() =~= Set::empty());
            assert(c@.tags =~= Self::initial(*meta, c@.lower).tags);
            assert(c@.timestamps =~= Self::initial(*meta, c@.lower).timestamps);
            assert(c@.frequencies =~= Self::initial(*meta, c@.lower).frequencies);
        }
        c
    }

    /// A well-formed cache has a state of the reachable shape.
    /// The map from each resident tag to its slot.
    pub closed spec fn slot_map(&self) -> Map<u64, usize> {
        self.tags_map@
    }

    /// In a well-formed cache the map and the slots are inverse to each other: the map
    /// holds exactly the resident tags, each sent to the slot that holds it.
    pub proof fn lemma_slot_map_inverse(&self)
        requires
            self.wf(),
        ensures
            forall|i: int| 0 <= i < self@.occupied ==> {
                &&& self.slot_map().contains_key(#[trigger] self@.tags[i])
                &&& self.slot_map()[self@.tags[i]] == i
            },
            forall|t: u64| #[trigger] self.slot_map().contains_key(t) ==> {
                &&& self.slot_map()[t] < self@.occupied
                &&& self@.tags[self.slot_map()[t] as int] == t
            },
    {
    }

    pub proof fn lemma_wf_inv(&self)
        requires
            self.wf(),
        ensures
            self@.inv(),
    {
        assert forall|i: int, j: int|
            0 <= i < self.occupied && 0 <= j < self.occupied && i != j implies #[trigger] self@.tags[i] != #[trigger] self@.tags[j] by {
            assert(self.tags_map@[self.tags@[i]] == i);
            assert(self.tags_map@[self.tags@[j]] == j);
        }
    }

    /// Hands out the level below, leaving `replacement` in its place.
    pub fn take_lower(&mut self, replacement: L) -> (r: L)
        requires
            old(self).wf(),
            replacement.wf(),
        ensures
            final(self).wf(),
            r.wf(),
            r@ == old(self)@.lower,
            final(self)@ == (FullAssocView { lower: replacement@, ..old(self)@ }),
    {
        let mut r = replacement;
        core::mem::swap(&mut self.lower, &mut r);
        r
    }

    /// The bookkeeping of a hit on slot `idx`.
    pub open spec fn touch(v: FullAssocView<L::V>, idx: int) -> Option<FullAssocView<L::V>> {
        if v.rp == 0 {
            Some(v)
        } else if v.rp == 1 {
            if v.global_clock == u64::MAX {
                None
            } else {
                let clock = (v.global_clock + 1) as u64;
                Some(FullAssocView { global_clock: clock, timestamps: v.timestamps.update(idx, clock), ..v })
            }
        } else if v.rp == 2 {
            if v.frequencies[idx] == u64::MAX {
                None
            } else {
                Some(FullAssocView { frequencies: v.frequencies.update(idx, (v.frequencies[idx] + 1) as u64), ..v })
            }
        } else {
            None
        }
    }

    /// The slot a miss fills, with the state after choosing it: the next empty slot
    /// while there is one, else the slot the replacement policy picks.
    pub open spec fn victim(v: FullAssocView<L::V>) -> Option<(int, FullAssocView<L::V>)> {
        if v.occupied < v.num_lines {
            Some((v.occupied as int, FullAssocView { occupied: (v.occupied + 1) as usize, ..v }))
        } else if v.num_lines == 0 {
            None
        } else if v.rp == 0 {
            if v.rr_counter == usize::MAX {
                None
            } else {
                Some(((v.rr_counter % v.num_lines) as int, FullAssocView { rr_counter: (v.rr_counter + 1) as usize, ..v }))
            }
        } else if v.rp == 1 {
            Some((lru_victim(v.timestamps), v))
        } else if v.rp == 2 {
            Some((lfu_victim(v.frequencies), v))
        } else {
            None
        }
    }

    /// Slot `idx` takes the line with this tag, as if just used for the first time.
    pub open spec fn fill(v: FullAssocView<L::V>, idx: int, tag: u64) -> Option<FullAssocView<L::V>> {
        let w = FullAssocView { tags: v.tags.update(idx, tag), ..v };
        if v.rp == 0 {
            Some(w)
        } else if v.rp == 1 {
            if v.global_clock == u64::MAX {
                None
            } else {
                let clock = (v.global_clock + 1) as u64;
                Some(FullAssocView { global_clock: clock, timestamps: v.timestamps.update(idx, clock), ..w })
            }
        } else if v.rp == 2 {
            Some(FullAssocView { frequencies: v.frequencies.update(idx, 1u64), ..w })
        } else {
            None
        }
    }

    /// One line access. The line's index is its tag; the all-ones tag marks an empty
    /// slot, so a line with the all-ones index could not be told from an empty slot
    /// once filled, and is not served. No access of bytes reaches that line: its only
    /// byte would be the last of the 64-bit address space, and an access must end
    /// below that. A hit updates the replacement bookkeeping; a miss fills
    /// a slot and fetches the whole line from the level below.
    pub open spec fn step(v: FullAssocView<L::V>, line_index: u64) -> Option<FullAssocView<L::V>> {
        if line_index == INVALID_TAG {
            None
        } else if v.holds(line_index) {
            if v.hits == u64::MAX {
                None
            } else {
                Self::touch(FullAssocView { hits: (v.hits + 1) as u64, ..v }, v.slot_of(line_index))
            }
        } else if v.misses == u64::MAX {
            None
        } else {
            match Self::victim(FullAssocView { misses: (v.misses + 1) as u64, ..v }) {
                None => None,
                Some((idx, w)) => match Self::fill(w, idx, line_index) {
                    None => None,
                    Some(x) => match L::after_access(x.lower, line_index << x.offset_bits, x.line_size) {
                        Some(lower) => Some(FullAssocView { lower, ..x }),
                        None => None,
                    },
                },
            }
        }
    }

    /// `count` line accesses, from line `line` upwards.
    pub open spec fn steps(v: FullAssocView<L::V>, line: int, count: nat) -> Option<FullAssocView<L::V>>
        decreases count,
    {
        if count == 0 {
            Some(v)
        } else {
            match Self::step(v, line as u64) {
                Some(w) => Self::steps(w, line + 1, (count - 1) as nat),
                None => None,
            }
        }
    }

    /// An access of `size` bytes from `address` on: each line that holds one of the
    /// bytes is accessed once, in ascending order.
    pub open spec fn span(v: FullAssocView<L::V>, address: u64, size: u64) -> Option<FullAssocView<L::V>> {
        if !access_in_range(address, size) {
            None
        } else {
            let first = first_line(address, v.offset_bits);
            let last = last_line(address, size, v.offset_bits);
            if first <= last {
                Self::steps(v, first as int, (last - first + 1) as nat)
            } else {
                Some(v)
            }
        }
    }

    /// Replacement bookkeeping on a hit.
    #[inline(always)]
    fn on_hit(&mut self, idx: usize)
        requires
            old(self).shape(),
            old(self).consistent(old(self).occupied as int),
            idx < old(self).occupied,
            Self::touch(old(self)@, idx as int) is Some,
        ensures
            final(self).shape(),
            final(self).consistent(final(self).occupied as int),
            final(self)@ == Self::touch(old(self)@, idx as int).unwrap(),
    {
        let ghost before = self@;
        if self.rp == 0 {
        } else if self.rp == 1 {
            // LRU: update access order
            self.global_clock += 1;
            self.lru_timestamps.set(idx, self.global_clock);
        } else {
            // LFU: update access frequency
            assert(self.lfu_heap.members().contains(idx));
            let (freq, _) = self.lfu_heap.key(idx);
            assert(freq == before.frequencies[idx as int]);
            self.lfu_heap.update(idx, (freq + 1, idx as u64));
            assert(self@.frequencies =~= before.frequencies.update(idx as int, (freq + 1) as u64));
        }
        assert(self@ =~= Self::touch(before, idx as int).unwrap());
    }

    /// Whether a hit on slot `idx` can be recorded: the clock or the slot's use count
    /// must have room to grow.
    fn can_touch(&self, idx: usize) -> (r: bool)
        requires
            self.shape(),
            idx < self.num_lines,
        ensures
            r == Self::touch(self@, idx as int) is Some,
    {
        if self.rp == 0 {
            true
        } else if self.rp == 1 {
            self.global_clock < u64::MAX
        } else if self.rp == 2 {
            let (freq, _) = self.lfu_heap.key(idx);
            freq < u64::MAX
        } else {
            false
        }
    }

    /// Whether a miss on the line with this tag can fill a slot: a slot must be found,
    /// and the policy's bookkeeping must have room to grow.
    fn can_fill(&self, tag: u64) -> (r: bool)
        requires
            self.shape(),
        ensures
            r == (match Self::victim(FullAssocView { misses: (self@.misses + 1) as u64, ..self@ }) {
                Some((idx, w)) => Self::fill(w, idx, tag) is Some,
                None => false,
            }),
    {
        let found = self.occupied < self.num_lines || (self.num_lines != 0 && (self.rp != 0 || self.rr_counter < usize::MAX));
        found && self.rp <= 2 && (self.rp != 1 || self.global_clock < u64::MAX)
    }

    /// Picks the slot a miss fills.
    #[inline(always)]
    fn find_victim(&mut self) -> (r: usize)
        requires
            old(self).shape(),
            old(self).consistent(old(self).occupied as int),
            Self::victim(old(self)@) is Some,
        ensures
            final(self).shape(),
            final(self).consistent(old(self).occupied as int),
            (r as int, final(self)@) == Self::victim(old(self)@).unwrap(),
            r < final(self).num_lines,
            old(self).occupied < old(self).num_lines ==> r == old(self).occupied && final(self).occupied == r + 1,
            old(self).occupied == old(self).num_lines ==> r < final(self).occupied == old(self).occupied,
    {
        let ghost before = self@;
        // while the cache is not full, use the next empty slot
        if self.occupied < self.num_lines {
            let idx = self.occupied;
            self.occupied += 1;
            return idx;
        }
        if self.rp == 0 {
            // round robin
            let idx = self.rr_counter % self.num_lines;
            self.rr_counter += 1;
            idx
        } else if self.rp == 1 {
            // least recently used: the first slot with the least timestamp
            let mut min_ts = u64::MAX;
            let mut min_idx: usize = 0;
            let mut i: usize = 0;
            while i < self.num_lines
                invariant
                    self.shape(),
                    self@ == before,
                    0 <= i <= self.num_lines,
                    self.num_lines > 0,
                    i == 0 ==> min_idx == 0 && min_ts == u64::MAX,
                    i > 0 ==> min_idx < i && self.lru_timestamps@[min_idx as int] == min_ts,
                    forall|j: int| 0 <= j < i ==> self.lru_timestamps@[j] >= min_ts,
                    forall|j: int| 0 <= j < min_idx ==> self.lru_timestamps@[j] > min_ts,
                decreases self.num_lines - i,
            {
                let ts = self.lru_timestamps[i];
                if ts < min_ts {
                    min_ts = ts;
                    min_idx = i;
                }
                i += 1;
            }
            assert(is_lru_victim(before.timestamps, min_idx as int));
            assert forall|k: int| is_lru_victim(before.timestamps, k) implies k == min_idx by {
                if k < min_idx {
                    assert(before.timestamps[k] > min_ts);
                } else if k > min_idx {
                    assert(before.timestamps[min_idx as int] > before.timestamps[k]);
                }
            }
            min_idx
        } else {
            // least frequently used, lowest slot on a tie
            let idx = self.lfu_heap.peek_min();
            assert(is_lfu_victim(before.frequencies, idx as int)) by {
                assert forall|j: int| 0 <= j < before.frequencies.len() implies key_le(
                    (before.frequencies[idx as int], idx as u64),
                    (before.frequencies[j], j as u64),
                ) by {
                    assert(self.lfu_heap.members().contains(j as usize));
                }
            }
            assert forall|k: int| is_lfu_victim(before.frequencies, k) implies k == idx by {
                assert(self.lfu_heap.members().contains(k as usize));
                assert(key_le((before.frequencies[k], k as u64), (before.frequencies[idx as int], idx as u64)));
                assert(key_le((before.frequencies[idx as int], idx as u64), (before.frequencies[k], k as u64)));
            }
            idx
        }
    }

    /// Slot `idx` takes the line with tag `tag`.
    #[inline(always)]
    fn replace_line(&mut self, idx: usize, tag: u64)
        requires
            old(self).shape(),
            tag != INVALID_TAG,
            !old(self).tags_map@.contains_key(tag),
            idx < old(self).num_lines,
            (idx + 1 == old(self).occupied && old(self).consistent(idx as int))
                || (idx < old(self).occupied && old(self).consistent(old(self).occupied as int)),
            Self::fill(old(self)@, idx as int, tag) is Some,
        ensures
            final(self).shape(),
            final(self).consistent(final(self).occupied as int),
            final(self)@ == Self::fill(old(self)@, idx as int, tag).unwrap(),
    {
        let ghost before = self@;
        let ghost fresh = idx + 1 == self.occupied && self.consistent(idx as int);
        // on eviction, the old tag leaves the map
        let old_tag = self.tags[idx];
        if old_tag != INVALID_TAG {
            tag_map_remove(&mut self.tags_map, old_tag);
        }
        tag_map_insert(&mut self.tags_map, tag, idx);
        self.tags.set(idx, tag);
        if self.rp == 0 {
        } else if self.rp == 1 {
            // LRU: update access order
            self.global_clock += 1;
            self.lru_timestamps.set(idx, self.global_clock);
        } else {
            // LFU: a new line has been used once
            let new_key = (1u64, idx as u64);
            if old_tag == INVALID_TAG {
                assert(!self.lfu_heap.members().contains(idx));
                self.lfu_heap.insert(idx, new_key);
                assert(self.lfu_heap.members() =~= Set::new(|i: usize| i < self.occupied));
            } else {
                assert(self.lfu_heap.members().contains(idx));
                self.lfu_heap.update(idx, new_key);
            }
            assert(self@.frequencies =~= before.frequencies.update(idx as int, 1u64));
        }
        assert(self@ =~= Self::fill(before, idx as int, tag).unwrap());
    }
}

impl<L: Cache> Cache for FullAssocCache<L> {
    closed spec fn wf(&self) -> bool {
        &&& self.shape()
        &&& self.consistent(self.occupied as int)
    }

    open spec fn after_line(v: FullAssocView<L::V>, line_index: u64) -> Option<FullAssocView<L::V>> {
        Self::step(v, line_index)
    }

    open spec fn after_access(v: FullAssocView<L::V>, address: u64, size: u64) -> Option<FullAssocView<L::V>> {
        Self::span(v, address, size)
    }

    open spec fn hit_counts(v: FullAssocView<L::V>) -> Seq<u64> {
        seq![v.hits] + L::hit_counts(v.lower)
    }

    open spec fn miss_counts(v: FullAssocView<L::V>) -> Seq<u64> {
        seq![v.misses] + L::miss_counts(v.lower)
    }

    open spec fn memory_accesses(v: FullAssocView<L::V>) -> u64 {
        L::memory_accesses(v.lower)
    }

    fn access(&mut self, address: u64, size: u64) {
        // the lines that hold the first and the last byte
        let start_line = address >> self.offset_bits;
        let end_line = (address + size - 1) >> self.offset_bits;
        if likely(start_line == end_line) {
            self.access_line(start_line);
            assert(Self::steps(self@, start_line + 1, 0) == Some(self@));
        } else if start_line < end_line {
            let ghost goal = Self::steps(self@, start_line as int, (end_line - start_line + 1) as nat);
            let mut line_index = start_line;
            loop
                invariant_except_break
                    start_line <= line_index <= end_line,
                    self.wf(),
                    Self::steps(self@, line_index as int, (end_line - line_index + 1) as nat) == goal,
                    goal is Some,
                ensures
                    self.wf(),
                    self@ == goal.unwrap(),
                decreases end_line - line_index,
            {
                self.access_line(line_index);
                if line_index == end_line {
                    assert(Self::steps(self@, line_index + 1, 0) == Some(self@));
                    break;
                }
                line_index = line_index + 1;
            }
        }
    }

    fn access_line(&mut self, line_index: u64) {
        let ghost before = self@;
        let tag = line_index;
        // the slot of the line, from the map of tags
        let found = tag_map_get(&self.tags_map, tag);
        match found {
            Some(idx) => {
                assert(before.slot_of(tag) == idx as int) by {
                    assert(before.tags[idx as int] == tag);
                    let k = before.slot_of(tag);
                    assert(self.tags_map@[self.tags@[k]] == k);
                }
                self.hits += 1;
                self.on_hit(idx);
            },
            None => {
                assert(!before.holds(tag)) by {
                    if before.holds(tag) {
                        let k = before.tags.index_of(tag);
                        assert(self.tags@[k] != INVALID_TAG);
                        assert(self.tags_map@.contains_key(self.tags@[k]));
                    }
                }
                self.misses += 1;
                let victim_idx = self.find_victim();
                self.replace_line(victim_idx, tag);
                // fetch the entire line from the level below, from the line's first byte
                self.lower.access(line_index << self.offset_bits, self.line_size);
            },
        }
    }

    fn try_access(&mut self, address: u64, size: u64) -> (ok: bool) {
        let ghost goal = Self::span(self@, address, size);
        let end = match address.checked_add(size) {
            Some(e) => e,
            None => return false,
        };
        if end == 0 {
            return false;
        }
        assert(access_in_range(address, size) && end == address + size);
        // the lines that hold the first and the last byte
        let start_line = address >> self.offset_bits;
        let end_line = (end - 1) >> self.offset_bits;
        if start_line > end_line {
            return true;
        }
        assert(goal == Self::steps(self@, start_line as int, (end_line - start_line + 1) as nat));
        let mut line_index = start_line;
        loop
            invariant
                start_line <= line_index <= end_line,
                self.wf(),
                goal == Self::after_access(old(self)@, address, size),
                Self::steps(self@, line_index as int, (end_line - line_index + 1) as nat) == goal,
            decreases end_line - line_index,
        {
            if !self.try_access_line(line_index) {
                return false;
            }
            if line_index == end_line {
                assert(Self::steps(self@, line_index + 1, 0) == Some(self@));
                return true;
            }
            line_index = line_index + 1;
        }
    }

    fn try_access_line(&mut self, line_index: u64) -> (ok: bool) {
        let ghost before = self@;
        if line_index == INVALID_TAG {
            return false;
        }
        let tag = line_index;
        // the slot of the line, from the map of tags
        let found = tag_map_get(&self.tags_map, tag);
        match found {
            Some(idx) => {
                assert(before.slot_of(tag) == idx as int) by {
                    assert(before.tags[idx as int] == tag);
                    let k = before.slot_of(tag);
                    assert(self.tags_map@[self.tags@[k]] == k);
                }
                if self.hits == u64::MAX || !self.can_touch(idx) {
                    return false;
                }
                self.hits += 1;
                self.on_hit(idx);
            },
            None => {
                assert(!before.holds(tag)) by {
                    if before.holds(tag) {
                        let k = before.tags.index_of(tag);
                        assert(self.tags@[k] != INVALID_TAG);
                        assert(self.tags_map@.contains_key(self.tags@[k]));
                    }
                }
                if self.misses == u64::MAX || !self.can_fill(tag) {
                    return false;
                }
                // the level below serves the whole line first; the slots change only then
                if !self.lower.try_access(line_index << self.offset_bits, self.line_size) {
                    return false;
                }
                self.misses += 1;
                let victim_idx = self.find_victim();
                self.replace_line(victim_idx, tag);
            },
        }
        true
    }

    fn get_hits(&self, hits_vec: Vec<u64>) -> (r: Vec<u64>) {
        let ghost given = hits_vec@;
        let mut hits_vec = hits_vec;
        hits_vec.push(self.hits);
        let r = self.lower.get_hits(hits_vec);
        assert(r@ =~= given + (seq![self.hits] + L::hit_counts(self.lower@)));
        r
    }

    fn get_misses(&self, misses_vec: Vec<u64>) -> (r: Vec<u64>) {
        let ghost given = misses_vec@;
        let mut misses_vec = misses_vec;
        misses_vec.push(self.misses);
        let r = self.lower.get_misses(misses_vec);
        assert(r@ =~= given + (seq![self.misses] + L::miss_counts(self.lower@)));
        r
    }

    fn get_main_memory_accesses(&self) -> (r: u64) {
        self.lower.get_main_memory_accesses()
    }
}

/// A non-empty sequence of timestamps has a first least one.
pub proof fn lemma_lru_victim_exists(timestamps: Seq<u64>)
    requires
        timestamps.len() > 0,
    ensures
        is_lru_victim(timestamps, lru_victim(timestamps)),
{
    let i = first_min_in(timestamps, timestamps.len() as int);
    assert(is_lru_victim(timestamps, i));
}

proof fn first_min_in(timestamps: Seq<u64>, m: int) -> (i: int)
    requires
        0 < m <= timestamps.len(),
    ensures
        0 <= i < m,
        forall|j: int| 0 <= j < m ==> timestamps[i] <= timestamps[j],
        forall|j: int| 0 <= j < i ==> timestamps[j] > timestamps[i],
    decreases m,
{
    if m == 1 {
        0
    } else {
        let k = first_min_in(timestamps, m - 1);
        if timestamps[m - 1] < timestamps[k] {
            m - 1
        } else {
            k
        }
    }
}

/// A non-empty sequence of frequencies has a least frequently used slot.
pub proof fn lemma_lfu_victim_exists(frequencies: Seq<u64>)
    requires
        frequencies.len() > 0,
        frequencies.len() <= u64::MAX,
    ensures
        is_lfu_victim(frequencies, lfu_victim(frequencies)),
{
    let i = least_key_in(frequencies, frequencies.len() as int);
    assert(is_lfu_victim(frequencies, i));
}

proof fn least_key_in(frequencies: Seq<u64>, m: int) -> (i: int)
    requires
        0 < m <= frequencies.len() <= u64::MAX,
    ensures
        0 <= i < m,
        forall|j: int| 0 <= j < m ==> key_le((frequencies[i], i as u64), (frequencies[j], j as u64)),
    decreases m,
{
    if m == 1 {
        0
    } else {
        let k = least_key_in(frequencies, m - 1);
        if frequencies[m - 1] < frequencies[k] {
            m - 1
        } else {
            k
        }
    }
}

/// The slot a miss fills exists: it lies below the number of slots.
proof fn lemma_victim_in_range<L: Cache>(v: FullAssocView<L::V>)
    requires
        v.inv(),
        FullAssocCache::<L>::victim(v) is Some,
    ensures
        0 <= FullAssocCache::<L>::victim(v).unwrap().0 < v.num_lines,
        v.occupied < v.num_lines ==> FullAssocCache::<L>::victim(v).unwrap().0 == v.occupied,
        FullAssocCache::<L>::victim(v).unwrap().1.tags == v.tags,
        FullAssocCache::<L>::victim(v).unwrap().1.occupied == (if v.occupied < v.num_lines { v.occupied + 1 } else { v.occupied as int }),
        FullAssocCache::<L>::victim(v).unwrap().1.num_lines == v.num_lines,
        FullAssocCache::<L>::victim(v).unwrap().1.rp == v.rp,
{
    if v.occupied >= v.num_lines && v.rp == 1 {
        lemma_lru_victim_exists(v.timestamps);
    }
    if v.occupied >= v.num_lines && v.rp == 2 {
        lemma_lfu_victim_exists(v.frequencies);
    }
}

/// Every access keeps the shape of the state: the filled slots are the first
/// `occupied` ones, and no tag is stored twice.
pub proof fn lemma_full_step_keeps_inv<L: Cache>(v: FullAssocView<L::V>, line_index: u64, w: FullAssocView<L::V>)
    requires
        v.inv(),
        FullAssocCache::<L>::step(v, line_index) == Some(w),
    ensures
        w.inv(),
{
    if !v.holds(line_index) {
        let v1 = FullAssocView { misses: (v.misses + 1) as u64, ..v };
        lemma_victim_in_range::<L>(v1);
        let idx = FullAssocCache::<L>::victim(v1).unwrap().0;
        assert forall|i: int| 0 <= i < w.occupied && i != idx implies w.tags[i] != line_index by {
            assert(v.tags[i] != line_index);
        }
    }
}

/// An access leaves the line resident, so that accessing it again at once is a hit that
/// counts one hit and sends nothing below.
pub proof fn lemma_full_reaccess_hits<L: Cache>(v: FullAssocView<L::V>, line_index: u64, w: FullAssocView<L::V>)
    requires
        v.inv(),
        FullAssocCache::<L>::step(v, line_index) == Some(w),
    ensures
        w.holds(line_index),
        FullAssocCache::<L>::step(w, line_index) matches Some(u) ==> {
            &&& u.hits == w.hits + 1
            &&& u.misses == w.misses
            &&& u.lower == w.lower
            &&& u.tags == w.tags
        },
{
    if !v.holds(line_index) {
        let v1 = FullAssocView { misses: (v.misses + 1) as u64, ..v };
        lemma_victim_in_range::<L>(v1);
        let idx = FullAssocCache::<L>::victim(v1).unwrap().0;
        assert(w.tags[idx] == line_index);
    }
}

/// While a slot is empty, a miss fills it and evicts nothing: every resident line stays.
pub proof fn lemma_full_no_eviction_while_free<L: Cache>(
    v: FullAssocView<L::V>,
    line_index: u64,
    w: FullAssocView<L::V>,
    other: u64,
)
    requires
        v.inv(),
        v.occupied < v.num_lines,
        FullAssocCache::<L>::step(v, line_index) == Some(w),
        other != INVALID_TAG,
        v.holds(other),
    ensures
        w.holds(other),
{
    let k = v.tags.index_of(other);
    assert(0 <= k < v.tags.len() && v.tags[k] == other);
    assert(k < v.occupied);
    if !v.holds(line_index) {
        let v1 = FullAssocView { misses: (v.misses + 1) as u64, ..v };
        lemma_victim_in_range::<L>(v1);
        assert(w.tags[k] == other);
    } else {
        assert(w.tags[k] == other);
    }
}

/// Every line access counts exactly one hit or one miss, a hit exactly when the line
/// was resident; a hit sends nothing below, and a miss sends the whole line below as
/// one access.
pub proof fn lemma_full_counts<L: Cache>(v: FullAssocView<L::V>, line_index: u64, w: FullAssocView<L::V>)
    requires
        FullAssocCache::<L>::step(v, line_index) == Some(w),
    ensures
        w.hits == v.hits + 1 <==> v.holds(line_index),
        w.misses == v.misses + 1 <==> !v.holds(line_index),
        w.hits + w.misses == v.hits + v.misses + 1,
        w.hits == v.hits + 1 ==> w.lower == v.lower,
        w.misses == v.misses + 1 ==> Some(w.lower) == L::after_access(v.lower, line_index << v.offset_bits, v.line_size),
{
}

/// Above main memory, main memory receives one request per miss and nothing else.
pub proof fn lemma_full_memory_counts_misses(v: FullAssocView<u64>, line_index: u64, w: FullAssocView<u64>)
    requires
        FullAssocCache::<crate::cache::MainMemory>::step(v, line_index) == Some(w),
    ensures
        w.lower - v.lower == w.misses - v.misses,
{
}

/// The `count` line accesses from line `line` on form a run over those lines.
proof fn lemma_full_steps_are_lines<L: Cache>(v: FullAssocView<L::V>, line: int, count: nat)
    ensures
        FullAssocCache::<L>::steps(v, line, count) == after_lines::<FullAssocCache::<L>>(v, line_range(line, count)),
    decreases count,
{
    if count > 0 {
        assert(line_range(line, count) =~= seq![line as u64] + line_range(line + 1, (count - 1) as nat));
        lemma_after_lines_cons::<FullAssocCache::<L>>(v, line as u64, line_range(line + 1, (count - 1) as nat));
        match FullAssocCache::<L>::step(v, line as u64) {
            Some(w) => lemma_full_steps_are_lines::<L>(w, line + 1, (count - 1) as nat),
            None => {},
        }
    } else {
        assert(line_range(line, count) =~= Seq::<u64>::empty());
    }
}

/// An access of `size` bytes from `address` on is exactly the accesses of the lines
/// from the one that holds its first byte to the one that holds its last, one each,
/// in ascending order.
pub proof fn lemma_full_access_is_lines<L: Cache>(v: FullAssocView<L::V>, address: u64, size: u64)
    requires
        access_in_range(address, size),
    ensures
        FullAssocCache::<L>::after_access(v, address, size) == after_lines::<FullAssocCache::<L>>(
            v,
            line_range(
                first_line(address, v.offset_bits) as int,
                if first_line(address, v.offset_bits) <= last_line(address, size, v.offset_bits) {
                    (last_line(address, size, v.offset_bits) - first_line(address, v.offset_bits) + 1) as nat
                } else {
                    0
                },
            ),
        ),
{
    let first = first_line(address, v.offset_bits);
    let last = last_line(address, size, v.offset_bits);
    if first <= last {
        lemma_full_steps_are_lines::<L>(v, first as int, (last - first + 1) as nat);
    } else {
        assert(line_range(first as int, 0) =~= Seq::<u64>::empty());
    }
}

/// An access of bytes never touches the line with the all-ones index, the empty-slot
/// marker: every line it touches lies at or below the line of its last byte, which
/// lies below the end of the 64-bit address space.
pub proof fn lemma_full_access_avoids_marker(address: u64, size: u64, offset_bits: u32)
    requires
        access_in_range(address, size),
    ensures
        first_line(address, offset_bits) <= last_line(address, size, offset_bits) ==> last_line(
            address,
            size,
            offset_bits,
        ) < INVALID_TAG,
{
    let e = (address + size - 1) as u64;
    assert(e < 0xffff_ffff_ffff_ffffu64 ==> (e >> offset_bits) < 0xffff_ffff_ffff_ffffu64) by (bit_vector);
}

/// Starting with every slot empty, a run of distinct lines, no more of them than there
/// are slots, misses on each line and evicts nothing: the slots fill in order, every
/// line of the run stays resident, and accessing any of them again is a hit.
pub proof fn lemma_full_distinct_fill<L: Cache>(v: FullAssocView<L::V>, lines: Seq<u64>, w: FullAssocView<L::V>)
    requires
        v.inv(),
        v.occupied == 0,
        lines.len() <= v.num_lines,
        forall|i: int| 0 <= i < lines.len() ==> #[trigger] lines[i] != INVALID_TAG,
        lines.no_duplicates(),
        after_lines::<FullAssocCache<L>>(v, lines) == Some(w),
    ensures
        w.inv(),
        w.num_lines == v.num_lines,
        w.occupied == lines.len(),
        w.hits == v.hits,
        w.misses == v.misses + lines.len(),
        forall|j: int| 0 <= j < lines.len() ==> w.tags[j] == #[trigger] lines[j],
        forall|j: int| 0 <= j < lines.len() ==> w.holds(#[trigger] lines[j]),
        forall|j: int|
            0 <= j < lines.len() ==> (FullAssocCache::<L>::step(w, #[trigger] lines[j]) matches Some(u) ==> {
                &&& u.hits == w.hits + 1
                &&& u.misses == w.misses
            }),
    decreases lines.len(),
{
    if lines.len() > 0 {
        let rest = lines.drop_last();
        let l = lines.last();
        let u = after_lines::<FullAssocCache<L>>(v, rest).unwrap();
        assert(rest.no_duplicates());
        lemma_full_distinct_fill::<L>(v, rest, u);
        assert(!u.holds(l)) by {
            if u.holds(l) {
                let k = u.tags.index_of(l);
                assert(u.tags[k] == l);
                if k < u.occupied {
                    assert(rest[k] == l);
                    assert(lines[k] == lines[lines.len() - 1]);
                }
            }
        }
        assert(FullAssocCache::<L>::step(u, l) == Some(w));
        lemma_full_step_keeps_inv::<L>(u, l, w);
        assert(w.tags == u.tags.update(u.occupied as int, l));
        assert forall|j: int| 0 <= j < lines.len() implies w.tags[j] == #[trigger] lines[j] by {
            if j < rest.len() {
                assert(u.tags[j] == rest[j]);
            }
        }
        assert forall|j: int| 0 <= j < lines.len() implies w.holds(#[trigger] lines[j]) by {
            assert(w.tags[j] == lines[j]);
        }
    }
}

/// A hit leaves every slot's line as it was; a miss puts the line in exactly one slot,
/// the next empty one while there is one, and leaves every other slot as it was, so
/// that it evicts at most one line.
pub proof fn lemma_full_step_effect<L: Cache>(v: FullAssocView<L::V>, line_index: u64, w: FullAssocView<L::V>)
    requires
        v.inv(),
        FullAssocCache::<L>::step(v, line_index) == Some(w),
    ensures
        v.holds(line_index) ==> w.tags == v.tags && w.occupied == v.occupied,
        !v.holds(line_index) ==> exists|idx: int| {
            &&& 0 <= idx < v.num_lines
            &&& w.tags == v.tags.update(idx, line_index)
            &&& v.occupied < v.num_lines ==> idx == v.occupied && w.occupied == v.occupied + 1
        },
{
    if !v.holds(line_index) {
        let v1 = FullAssocView { misses: (v.misses + 1) as u64, ..v };
        lemma_victim_in_range::<L>(v1);
        let idx = FullAssocCache::<L>::victim(v1).unwrap().0;
        assert(w.tags == v.tags.update(idx, line_index));
    }
}

/// Under least recently used replacement, an access advances the clock by one and
/// stamps the slot that then holds the line with it, a time later than every other
/// slot's timestamp: on a hit and on a miss alike, the line becomes the most recently
/// used.
pub proof fn lemma_full_lru_recency<L: Cache>(v: FullAssocView<L::V>, line_index: u64, w: FullAssocView<L::V>)
    requires
        v.inv(),
        v.rp == 1,
        FullAssocCache::<L>::step(v, line_index) == Some(w),
    ensures
        w.inv(),
        w.holds(line_index),
        w.global_clock == v.global_clock + 1,
        w.timestamps[w.slot_of(line_index)] == w.global_clock,
        forall|i: int| 0 <= i < w.num_lines && i != w.slot_of(line_index) ==> #[trigger] w.timestamps[i] < w.global_clock,
{
    lemma_full_step_keeps_inv::<L>(v, line_index, w);
    lemma_full_reaccess_hits::<L>(v, line_index, w);
    let k = w.slot_of(line_index);
    assert(0 <= k < w.tags.len() && w.tags[k] == line_index);
    if v.holds(line_index) {
        let j = v.slot_of(line_index);
        assert(v.tags[j] == line_index);
        assert(w.tags == v.tags);
        if j != k {
            assert(w.tags[j] != INVALID_TAG);
        }
    } else {
        let v1 = FullAssocView { misses: (v.misses + 1) as u64, ..v };
        lemma_victim_in_range::<L>(v1);
        let idx = FullAssocCache::<L>::victim(v1).unwrap().0;
        assert(w.tags[idx] == line_index);
        if idx != k {
            assert(w.tags[idx] != INVALID_TAG);
        }
    }
}

/// What one access does to the slots and to each policy's bookkeeping: the line ends in
/// slot `k`, every other filled slot was filled before and holds another line; the
/// accessed slot's timestamp becomes the advanced clock, its use count grows by one on
/// a hit and starts at one on a miss, and the round robin counter counts the misses
/// that evict.
proof fn lemma_full_step_books<L: Cache>(v: FullAssocView<L::V>, line_index: u64, w: FullAssocView<L::V>) -> (k: int)
    requires
        v.inv(),
        FullAssocCache::<L>::step(v, line_index) == Some(w),
    ensures
        w.inv(),
        w.num_lines == v.num_lines,
        w.rp == v.rp,
        k == w.slot_of(line_index),
        0 <= k < w.occupied,
        w.tags == v.tags.update(k, line_index),
        w.occupied == (if !v.holds(line_index) && v.occupied < v.num_lines { v.occupied + 1 } else { v.occupied as int }),
        forall|i: int| 0 <= i < w.occupied && i != k ==> i < v.occupied && #[trigger] w.tags[i] != line_index,
        v.rp == 1 ==> w.global_clock == v.global_clock + 1 && w.timestamps == v.timestamps.update(k, w.global_clock),
        v.rp == 2 ==> w.frequencies == v.frequencies.update(
            k,
            if v.holds(line_index) { (v.frequencies[k] + 1) as u64 } else { 1u64 },
        ),
        v.rp == 0 ==> w.rr_counter == (if !v.holds(line_index) && v.occupied == v.num_lines {
            v.rr_counter + 1
        } else {
            v.rr_counter as int
        }),
{
    lemma_full_step_keeps_inv::<L>(v, line_index, w);
    lemma_full_reaccess_hits::<L>(v, line_index, w);
    let k = w.slot_of(line_index);
    assert(0 <= k < w.tags.len() && w.tags[k] == line_index);
    if v.holds(line_index) {
        let j = v.slot_of(line_index);
        assert(v.tags[j] == line_index);
        if j != k {
            assert(w.tags[j] != INVALID_TAG);
        }
        assert(w.tags =~= v.tags.update(k, line_index));
    } else {
        let v1 = FullAssocView { misses: (v.misses + 1) as u64, ..v };
        lemma_victim_in_range::<L>(v1);
        let idx = FullAssocCache::<L>::victim(v1).unwrap().0;
        assert(w.tags[idx] == line_index);
        if idx != k {
            assert(w.tags[idx] != INVALID_TAG);
        }
    }
    assert forall|i: int| 0 <= i < w.occupied && i != k implies i < v.occupied && #[trigger] w.tags[i] != line_index by {
        assert(w.tags[i] != w.tags[k]);
        assert(w.tags[i] != INVALID_TAG);
    }
    k
}

/// For the line `tag`: the position in a run of line accesses of the last access to it,
/// or -1 where there is none.
pub open spec fn full_last_access(lines: Seq<u64>, tag: u64) -> int
    decreases lines.len(),
{
    if lines.len() == 0 {
        -1
    } else if lines.last() == tag {
        lines.len() - 1
    } else {
        full_last_access(lines.drop_last(), tag)
    }
}

/// Under least recently used replacement, starting with every slot empty: after a run
/// of line accesses the clock has advanced once per access, and each filled slot's
/// timestamp is the clock's value just after the last access to its line. So one slot's
/// timestamp is below another's exactly when its line was last used earlier, and an
/// eviction, which takes the least timestamp, takes the line last used the longest ago.
pub proof fn lemma_full_lru_run<L: Cache>(v: FullAssocView<L::V>, lines: Seq<u64>, w: FullAssocView<L::V>)
    requires
        v.inv(),
        v.rp == 1,
        v.occupied == 0,
        after_lines::<FullAssocCache<L>>(v, lines) == Some(w),
    ensures
        w.inv(),
        w.rp == 1,
        w.global_clock == v.global_clock + lines.len(),
        forall|i: int| 0 <= i < w.occupied ==> {
            &&& 0 <= full_last_access(lines, #[trigger] w.tags[i])
            &&& w.timestamps[i] == v.global_clock + full_last_access(lines, w.tags[i]) + 1
        },
        forall|i: int, j: int| 0 <= i < w.occupied && 0 <= j < w.occupied ==> (#[trigger] w.timestamps[i]
            < #[trigger] w.timestamps[j] <==> full_last_access(lines, w.tags[i]) < full_last_access(lines, w.tags[j])),
    decreases lines.len(),
{
    if lines.len() > 0 {
        let rest = lines.drop_last();
        let l = lines.last();
        let u = after_lines::<FullAssocCache<L>>(v, rest).unwrap();
        lemma_full_lru_run::<L>(v, rest, u);
        let k = lemma_full_step_books::<L>(u, l, w);
        assert forall|i: int| 0 <= i < w.occupied implies {
            &&& 0 <= full_last_access(lines, #[trigger] w.tags[i])
            &&& w.timestamps[i] == v.global_clock + full_last_access(lines, w.tags[i]) + 1
        } by {
            if i != k {
                assert(w.tags[i] == u.tags[i]);
            }
        }
    }
}

/// For the line `tag`: the number of accesses to it in a run of line accesses since the
/// last one that missed, that one included.
pub open spec fn full_uses_since_miss<L: Cache>(v: FullAssocView<L::V>, lines: Seq<u64>, tag: u64) -> nat
    decreases lines.len(),
{
    if lines.len() == 0 {
        0
    } else {
        match after_lines::<FullAssocCache<L>>(v, lines.drop_last()) {
            Some(u) => if lines.last() == tag {
                if u.holds(tag) {
                    full_uses_since_miss::<L>(v, lines.drop_last(), tag) + 1
                } else {
                    1
                }
            } else {
                full_uses_since_miss::<L>(v, lines.drop_last(), tag)
            },
            None => 0,
        }
    }
}

/// Under least frequently used replacement, starting with every slot empty: after a run
/// of line accesses each filled slot's use count is the number of accesses to its line
/// since it last missed, that miss included. An eviction takes the slot with the least
/// such count, the lowest slot on a tie.
pub proof fn lemma_full_lfu_run<L: Cache>(v: FullAssocView<L::V>, lines: Seq<u64>, w: FullAssocView<L::V>)
    requires
        v.inv(),
        v.rp == 2,
        v.occupied == 0,
        after_lines::<FullAssocCache<L>>(v, lines) == Some(w),
    ensures
        w.inv(),
        w.rp == 2,
        forall|i: int| 0 <= i < w.occupied ==> #[trigger] w.frequencies[i] == full_uses_since_miss::<L>(v, lines, w.tags[i]),
    decreases lines.len(),
{
    if lines.len() > 0 {
        let rest = lines.drop_last();
        let l = lines.last();
        let u = after_lines::<FullAssocCache<L>>(v, rest).unwrap();
        lemma_full_lfu_run::<L>(v, rest, u);
        let k = lemma_full_step_books::<L>(u, l, w);
        assert forall|i: int| 0 <= i < w.occupied implies #[trigger] w.frequencies[i] == full_uses_since_miss::<L>(v, lines, w.tags[i]) by {
            if i != k {
                assert(w.tags[i] == u.tags[i]);
            } else if u.holds(l) {
                assert(u.tags[k] == l);
                assert(k < u.occupied) by {
                    if k >= u.occupied {
                        assert(u.tags[k] == INVALID_TAG);
                    }
                }
            }
        }
    }
}

/// The number of accesses of a run of line accesses that miss while every slot is
/// filled, and so evict a line.
pub open spec fn full_evictions<L: Cache>(v: FullAssocView<L::V>, lines: Seq<u64>) -> nat
    decreases lines.len(),
{
    if lines.len() == 0 {
        0
    } else {
        match after_lines::<FullAssocCache<L>>(v, lines.drop_last()) {
            Some(u) => full_evictions::<L>(v, lines.drop_last()) + if !u.holds(lines.last()) && u.occupied
                == u.num_lines {
                1nat
            } else {
                0nat
            },
            None => 0,
        }
    }
}

/// Under round robin replacement, the counter after a run of line accesses is the
/// counter before plus the number of accesses of the run that evicted. An eviction
/// takes slot `rr_counter % num_lines` (see `victim`).
pub proof fn lemma_full_rr_run<L: Cache>(v: FullAssocView<L::V>, lines: Seq<u64>, w: FullAssocView<L::V>)
    requires
        v.inv(),
        v.rp == 0,
        after_lines::<FullAssocCache<L>>(v, lines) == Some(w),
    ensures
        w.inv(),
        w.rp == 0,
        w.rr_counter == v.rr_counter + full_evictions::<L>(v, lines),
    decreases lines.len(),
{
    if lines.len() > 0 {
        let rest = lines.drop_last();
        let u = after_lines::<FullAssocCache<L>>(v, rest).unwrap();
        lemma_full_rr_run::<L>(v, rest, u);
        lemma_full_step_books::<L>(u, lines.last(), w);
    }
}

/// Above main memory, over any run of line accesses, main memory receives one request
/// per miss and nothing else.
pub proof fn lemma_full_memory_run(v: FullAssocView<u64>, lines: Seq<u64>, w: FullAssocView<u64>)
    requires
        after_lines::<FullAssocCache<crate::cache::MainMemory>>(v, lines) == Some(w),
    ensures
        w.lower - v.lower == w.misses - v.misses,
    decreases lines.len(),
{
    if lines.len() > 0 {
        let u = after_lines::<FullAssocCache<crate::cache::MainMemory>>(v, lines.drop_last()).unwrap();
        lemma_full_memory_run(v, lines.drop_last(), u);
        lemma_full_memory_counts_misses(u, lines.last(), w);
    }
}

/// Under round robin replacement, once every slot is filled, a miss puts the line in
/// slot `rr_counter % num_lines`, in place of the line there, advances the counter by
/// one and leaves every other slot's line as it was.
pub proof fn lemma_full_rr_eviction_slot<L: Cache>(v: FullAssocView<L::V>, line_index: u64, w: FullAssocView<L::V>)
    requires
        v.inv(),
        v.rp == 0,
        v.occupied == v.num_lines,
        !v.holds(line_index),
        FullAssocCache::<L>::step(v, line_index) == Some(w),
    ensures
        v.num_lines > 0,
        w.tags == v.tags.update((v.rr_counter % v.num_lines) as int, line_index),
        w.rr_counter == v.rr_counter + 1,
        w.occupied == v.occupied,
{
}

/// Under round robin replacement, `num_lines` evictions in a row from any counter take
/// slots `rr_counter % num_lines`, `(rr_counter + 1) % num_lines`, and so on: every slot
/// exactly once.
pub proof fn lemma_full_rr_slots_cover(num_lines: int, counter: int, slot: int)
    requires
        num_lines > 0,
        counter >= 0,
        0 <= slot < num_lines,
    ensures
        exists|i: int| 0 <= i < num_lines && #[trigger] ((counter + i) % num_lines) == slot,
        forall|i: int, j: int|
            0 <= i < num_lines && 0 <= j < num_lines && i != j ==> #[trigger] ((counter + i) % num_lines) != #[trigger] ((
            counter + j) % num_lines),
{
    let i = (slot - counter % num_lines + num_lines) % num_lines;
    assert((counter + i) % num_lines == slot) by (nonlinear_arith)
        requires
            num_lines > 0,
            counter >= 0,
            0 <= slot < num_lines,
            i == (slot - counter % num_lines + num_lines) % num_lines,
    ;
    assert forall|i: int, j: int|
        0 <= i < num_lines && 0 <= j < num_lines && i != j implies #[trigger] ((counter + i) % num_lines) != #[trigger] ((
        counter + j) % num_lines) by {
        assert((counter + i) % num_lines != (counter + j) % num_lines) by (nonlinear_arith)
            requires
                num_lines > 0,
                counter >= 0,
                0 <= i < num_lines,
                0 <= j < num_lines,
                i != j,
        ;
    }
}

} // verus!
