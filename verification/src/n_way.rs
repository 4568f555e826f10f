use vstd::prelude::*;
use crate::cache::{Cache, INVALID_TAG, access_in_range, after_lines, first_line, last_line, lemma_after_lines_cons, likely, line_range};
use vstd::arithmetic::div_mod::lemma_add_mod_noop;
use crate::cachemeta::CacheMeta;
use crate::min_heap::key_le;
use crate::bits::{lemma_and_le_mask, lemma_low_mask_lt, lemma_trailing_zeros_facts};

verus! {

/// `i` is the first position of `x` in `s`.
pub open spec fn is_first_at(s: Seq<u64>, x: u64, i: int) -> bool {
    &&& 0 <= i < s.len()
    &&& s[i] == x
    &&& forall|j: int| 0 <= j < i ==> s[j] != x
}

/// The first position of `x` in `s`, if it occurs.
pub open spec fn position(s: Seq<u64>, x: u64) -> Option<int> {
    if s.contains(x) {
        Some(choose|i: int| is_first_at(s, x, i))
    } else {
        None
    }
}

/// `s` without the first occurrence of `x`.
pub open spec fn remove_first(s: Seq<u64>, x: u64) -> Seq<u64> {
    match position(s, x) {
        Some(p) => s.remove(p),
        None => s,
    }
}

/// Where `x` occurs in `s`, it has a first position, and `position` gives it.
pub proof fn lemma_position(s: Seq<u64>, x: u64, i: int)
    requires
        0 <= i < s.len(),
        s[i] == x,
    ensures
        position(s, x) is Some,
        is_first_at(s, x, position(s, x).unwrap()),
        position(s, x).unwrap() <= i,
    decreases i,
{
    if exists|j: int| 0 <= j < i && s[j] == x {
        let j = choose|j: int| 0 <= j < i && s[j] == x;
        lemma_position(s, x, j);
    } else {
        assert(is_first_at(s, x, i));
        let p = position(s, x).unwrap();
        assert(is_first_at(s, x, p));
        if p > i {
            assert(s[i] != x);
        }
    }
}

/// Where `x` occurs in `s`, `position` gives its first position.
pub proof fn lemma_position_found(s: Seq<u64>, x: u64)
    requires
        s.contains(x),
    ensures
        position(s, x) is Some,
        is_first_at(s, x, position(s, x).unwrap()),
{
    let i = choose|i: int| 0 <= i < s.len() && s[i] == x;
    lemma_position(s, x, i);
}

/// The first position of `x` among the first `len` items of `v`.
fn find_first(v: &Vec<u64>, len: usize, x: u64) -> (r: Option<usize>)
    requires
        len <= v@.len(),
    ensures
        r == (match position(v@.subrange(0, len as int), x) {
            Some(p) => Some(p as usize),
            None => None,
        }),
        r matches Some(p) ==> is_first_at(v@.subrange(0, len as int), x, p as int),
{
    let ghost s = v@.subrange(0, len as int);
    let mut i: usize = 0;
    while i < len
        invariant
            i <= len <= v@.len(),
            s == v@.subrange(0, len as int),
            forall|j: int| 0 <= j < i ==> s[j] != x,
        decreases len - i,
    {
        if v[i] == x {
            proof {
                lemma_position(s, x, i as int);
            }
            return Some(i);
        }
        i += 1;
    }
    None
}

/// The state of one set: the tags of its ways, and the replacement bookkeeping.
#[verifier::ext_equal]
pub struct SetView {
    /// The tag in each way, `INVALID_TAG` where the way is empty.
    pub tags: Seq<u64>,
    /// For round robin replacement: the number of evictions so far, wrapping.
    pub rr_counter: usize,
    /// For least recently used replacement: tags from least to most recently used.
    pub order: Seq<u64>,
    /// For least frequently used replacement: the uses of each way's line.
    pub frequencies: Seq<u64>,
}

/// The order can take one more tag: it has a free entry, and its length, kept in a
/// byte, can grow.
pub open spec fn can_push(order: Seq<u64>, ways: usize) -> bool {
    order.len() < ways && order.len() < 255
}

/// The least frequently used of the first `asso` ways, lowest way on a tie.
pub open spec fn is_set_lfu_victim(s: SetView, asso: int, i: int) -> bool {
    &&& 0 <= i < asso
    &&& s.tags[i] != INVALID_TAG
    &&& forall|j: int|
        0 <= j < asso && s.tags[j] != INVALID_TAG ==> key_le((s.frequencies[i], i as u64), (#[trigger] s.frequencies[j], j as u64))
}

/// A set of `N` ways, of which the cache uses the first `asso_num` for new lines.
pub struct CacheSet<const N: usize> {
    tags: Vec<u64>,
    rr_counter: usize,
    access_order: Vec<u64>,
    access_order_len: u8,
    access_frequency: Vec<u64>,
}

impl<const N: usize> View for CacheSet<N> {
    type V = SetView;

    closed spec fn view(&self) -> SetView {
        SetView {
            tags: self.tags@,
            rr_counter: self.rr_counter,
            order: self.access_order@.subrange(0, self.access_order_len as int),
            frequencies: self.access_frequency@,
        }
    }
}

impl<const N: usize> CacheSet<N> {
    pub closed spec fn wf(&self) -> bool {
        &&& self.tags@.len() == N
        &&& self.access_order@.len() == N
        &&& self.access_frequency@.len() == N
        &&& self.access_order_len <= N
    }

    /// An empty set.
    fn new() -> (s: Self)
        ensures
            s.wf(),
            s@ == empty_set(N),
    {
        let s = CacheSet {
            tags: vec![INVALID_TAG; N],
            rr_counter: 0,
            access_order: vec![0u64; N],
            access_order_len: 0,
            access_frequency: vec![0u64; N],
        };
        assert(s@ =~= empty_set(N));
        s
    }

    /// Removes the first occurrence of `tag` from the access order, if there is one.
    fn order_remove(&mut self, tag: u64)
        requires
            old(self).wf(),
        ensures
            final(self).wf(),
            final(self)@ == (SetView { order: remove_first(old(self)@.order, tag), ..old(self)@ }),
    {
        let ghost before = self@;
        let len = self.access_order_len as usize;
        let found = find_first(&self.access_order, len, tag);
        if let Some(pos) = found {
            assert(before.order == self.access_order@.subrange(0, len as int));
            // shift the rest left
            let mut i = pos;
            while i < len - 1
                invariant
                    self.wf(),
                    pos <= i <= len - 1,
                    len == self.access_order_len,
                    1 <= len <= N,
                    self.tags@ == before.tags,
                    self.rr_counter == before.rr_counter,
                    self.access_frequency@ == before.frequencies,
                    forall|j: int| 0 <= j < pos ==> self.access_order@[j] == before.order[j],
                    forall|j: int| pos <= j < i ==> self.access_order@[j] == before.order[j + 1],
                    forall|j: int| i <= j < len ==> self.access_order@[j] == before.order[j],
                decreases len - 1 - i,
            {
                let next = self.access_order[i + 1];
                self.access_order.set(i, next);
                i += 1;
            }
            self.access_order_len -= 1;
            assert(self@.order =~= before.order.remove(pos as int));
        }
    }

    /// Appends `tag` to the access order as the most recently used.
    fn order_push(&mut self, tag: u64)
        requires
            old(self).wf(),
            can_push(old(self)@.order, N),
        ensures
            final(self).wf(),
            final(self)@ == (SetView { order: old(self)@.order.push(tag), ..old(self)@ }),
    {
        let ghost before = self@;
        let len = self.access_order_len as usize;
        self.access_order.set(len, tag);
        self.access_order_len += 1;
        assert(self@.order =~= before.order.push(tag));
    }

    /// Removes and returns the least recently used tag.
    fn order_pop_front(&mut self) -> (tag: u64)
        requires
            old(self).wf(),
            old(self)@.order.len() >= 1,
        ensures
            final(self).wf(),
            tag == old(self)@.order[0],
            final(self)@ == (SetView { order: old(self)@.order.drop_first(), ..old(self)@ }),
    {
        let ghost before = self@;
        let tag = self.access_order[0];
        let len = self.access_order_len as usize;
        assert(before.order == self.access_order@.subrange(0, len as int));
        let mut i: usize = 0;
        while i < len - 1
            invariant
                self.wf(),
                i <= len - 1,
                len == self.access_order_len,
                1 <= len <= N,
                self.tags@ == before.tags,
                self.rr_counter == before.rr_counter,
                self.access_frequency@ == before.frequencies,
                forall|j: int| 0 <= j < i ==> self.access_order@[j] == before.order[j + 1],
                forall|j: int| i <= j < len ==> self.access_order@[j] == before.order[j],
            decreases len - 1 - i,
        {
            let next = self.access_order[i + 1];
            self.access_order.set(i, next);
            i += 1;
        }
        self.access_order_len -= 1;
        assert(self@.order =~= before.order.drop_first());
        tag
    }

    /// Moves `tag` to the back of the access order, as the most recently used.
    fn order_move_to_back(&mut self, tag: u64)
        requires
            old(self).wf(),
            can_push(remove_first(old(self)@.order, tag), N),
        ensures
            final(self).wf(),
            final(self)@ == (SetView { order: remove_first(old(self)@.order, tag).push(tag), ..old(self)@ }),
    {
        self.order_remove(tag);
        self.order_push(tag);
    }
}

impl<const N: usize> CacheSet<N> {
    /// The least frequently used of the first `asso` ways that hold a line, lowest way on a tie.
    fn lfu_victim(&self, asso: usize) -> (r: Option<usize>)
        requires
            self.wf(),
            asso <= N,
        ensures
            r matches Some(i) ==> is_set_lfu_victim(self@, asso as int, i as int),
            r is None ==> forall|i: int| 0 <= i < asso ==> self@.tags[i] == INVALID_TAG,
    {
        let mut best: Option<usize> = None;
        let mut i: usize = 0;
        while i < asso
            invariant
                self.wf(),
                i <= asso <= N,
                best matches Some(b) ==> {
                    &&& b < i
                    &&& self@.tags[b as int] != INVALID_TAG
                    &&& forall|j: int| 0 <= j < i && self@.tags[j] != INVALID_TAG ==> key_le(
                        (self@.frequencies[b as int], b as u64),
                        (#[trigger] self@.frequencies[j], j as u64),
                    )
                },
                best is None ==> forall|j: int| 0 <= j < i ==> self@.tags[j] == INVALID_TAG,
            decreases asso - i,
        {
            if self.tags[i] != INVALID_TAG {
                let freq = self.access_frequency[i];
                match best {
                    None => {
                        best = Some(i);
                    },
                    Some(b) => {
                        let best_freq = self.access_frequency[b];
                        if freq < best_freq || (freq == best_freq && (i as u64) < (b as u64)) {
                            best = Some(i);
                        }
                    },
                }
            }
            i += 1;
        }
        best
    }

    /// The bookkeeping of a hit on way `way`.
    fn on_hit(&mut self, way: usize, tag: u64, rp: u8)
        requires
            old(self).wf(),
            way < N,
            set_hit(old(self)@, way as int, tag, rp, N) is Some,
        ensures
            final(self).wf(),
            final(self)@ == set_hit(old(self)@, way as int, tag, rp, N).unwrap(),
    {
        let ghost before = self@;
        if rp == 1 {
            // the line becomes the most recently used
            self.order_move_to_back(tag);
        }
        if rp == 2 {
            // one more use of the line
            let freq = self.access_frequency[way];
            self.access_frequency.set(way, freq + 1);
            assert(self@ =~= set_hit(before, way as int, tag, rp, N).unwrap());
        }
    }

    /// Way `way` takes the line with this tag.
    fn place(&mut self, way: usize, tag: u64, rp: u8)
        requires
            old(self).wf(),
            way < N,
            set_place(old(self)@, way as int, tag, rp, N) is Some,
        ensures
            final(self).wf(),
            final(self)@ == set_place(old(self)@, way as int, tag, rp, N).unwrap(),
    {
        let ghost before = self@;
        self.tags.set(way, tag);
        if rp == 1 {
            // the new line is the most recently used
            self.order_push(tag);
        } else if rp == 2 {
            // the new line has been used once
            self.access_frequency.set(way, 1);
        }
        assert(self@ =~= set_place(before, way as int, tag, rp, N).unwrap());
    }

    /// Whether a hit on way `way` can be recorded: under least recently used
    /// replacement the order must have room for the tag at its back.
    fn can_hit(&self, way: usize, tag: u64, rp: u8) -> (r: bool)
        requires
            self.wf(),
            way < N,
        ensures
            r == set_hit(self@, way as int, tag, rp, N) is Some,
    {
        if rp == 1 {
            let len = self.access_order_len as usize;
            let found = find_first(&self.access_order, len, tag);
            assert(self@.order == self.access_order@.subrange(0, len as int));
            let new_len = match found {
                Some(_) => len - 1,
                None => len,
            };
            assert(remove_first(self@.order, tag).len() == new_len);
            new_len < N && new_len < 255
        } else if rp == 2 {
            self.access_frequency[way] < u64::MAX
        } else {
            true
        }
    }

    /// Whether a miss on the line with this tag can be recorded: the set must find a
    /// way for it, and under least recently used replacement the order must have room.
    fn can_miss(&self, tag: u64, asso: usize, rp: u8) -> (r: bool)
        requires
            self.wf(),
        ensures
            r == set_miss(self@, tag, asso, rp, N) is Some,
    {
        if asso > N {
            return false;
        }
        let len = self.access_order_len as usize;
        assert(self@.order == self.access_order@.subrange(0, len as int));
        let empty_index = find_first(&self.tags, asso, INVALID_TAG);
        match empty_index {
            Some(_) => rp != 1 || (len < N && len < 255),
            None => {
                if rp == 0 || rp == 2 {
                    proof {
                        if asso >= 1 {
                            lemma_set_miss_completes(self@, tag, asso, rp, N);
                        }
                    }
                    asso != 0
                } else if rp == 1 {
                    if len == 0 {
                        false
                    } else {
                        let vtag = self.access_order[0];
                        assert(self@.order[0] == vtag);
                        let found = find_first(&self.tags, asso, vtag);
                        proof {
                            if let Some(victim) = found {
                                let e = SetView { order: self@.order.drop_first(), ..self@ };
                                if e.order.contains(e.tags[victim as int]) {
                                    lemma_position_found(e.order, e.tags[victim as int]);
                                }
                                assert(remove_first(e.order, e.tags[victim as int]).len() <= e.order.len());
                            }
                        }
                        found.is_some()
                    }
                } else {
                    false
                }
            },
        }
    }

    /// A miss on the line with this tag: the first empty way among the first `asso`
    /// takes it, or, with none empty, the victim of the replacement policy.
    fn on_miss(&mut self, tag: u64, asso: usize, rp: u8)
        requires
            old(self).wf(),
            set_miss(old(self)@, tag, asso, rp, N) is Some,
        ensures
            final(self).wf(),
            final(self)@ == set_miss(old(self)@, tag, asso, rp, N).unwrap(),
    {
        let ghost before = self@;
        // find an empty way
        let empty_index = find_first(&self.tags, asso, INVALID_TAG);
        match empty_index {
            Some(free_index) => {
                // set not full: the first empty way takes the line
                self.place(free_index, tag, rp);
            },
            None => {
                // set full: evict a line, chosen by the replacement policy
                let victim_index = if rp == 0 {
                    let idx = self.rr_counter % asso;
                    self.rr_counter = self.rr_counter.wrapping_add(1);
                    idx
                } else if rp == 1 {
                    // the least recently used tag is at the front of the order
                    let vtag = self.order_pop_front();
                    let found = find_first(&self.tags, asso, vtag);
                    match found {
                        Some(idx) => idx,
                        None => {
                            assert(false);
                            0
                        },
                    }
                } else {
                    let found = self.lfu_victim(asso);
                    match found {
                        Some(idx) => {
                            assert forall|k: int| is_set_lfu_victim(before, asso as int, k) implies k == idx by {
                                assert(key_le((before.frequencies[k], k as u64), (before.frequencies[idx as int], idx as u64)));
                                assert(key_le((before.frequencies[idx as int], idx as u64), (before.frequencies[k], k as u64)));
                            }
                            idx
                        },
                        None => {
                            assert(false);
                            0
                        },
                    }
                };
                let victim_tag = self.tags[victim_index];
                // the victim leaves the access order
                if rp == 1 {
                    self.order_remove(victim_tag);
                }
                self.place(victim_index, tag, rp);
            },
        }
    }
}

/// A set with every way empty.
pub open spec fn empty_set(ways: usize) -> SetView {
    SetView {
        tags: Seq::new(ways as nat, |i: int| INVALID_TAG),
        rr_counter: 0,
        order: Seq::empty(),
        frequencies: Seq::new(ways as nat, |i: int| 0u64),
    }
}

/// The state of a set associative cache, with `LV` the state of the level below it.
#[verifier::ext_equal]
pub struct NWayView<LV> {
    pub sets: Seq<SetView>,
    /// The number of ways each set has.
    pub ways: usize,
    pub index_mask: u64,
    pub line_size: u64,
    /// The number of ways that new lines are placed in.
    pub asso_num: usize,
    pub offset_bits: u32,
    pub index_bits: u32,
    pub hits: u64,
    pub misses: u64,
    pub rp: u8,
    pub lower: LV,
}

impl<LV> NWayView<LV> {
    /// The same state above another level below.
    pub open spec fn rebase<LW>(self, lower: LW) -> NWayView<LW> {
        NWayView {
            sets: self.sets,
            ways: self.ways,
            index_mask: self.index_mask,
            line_size: self.line_size,
            asso_num: self.asso_num,
            offset_bits: self.offset_bits,
            index_bits: self.index_bits,
            hits: self.hits,
            misses: self.misses,
            rp: self.rp,
            lower,
        }
    }

    /// The address of the line's first byte, in 64 bits.
    pub open spec fn line_address(self, line_index: u64) -> u64 {
        line_index << self.offset_bits
    }

    /// The set a line maps to: the low bits of its index.
    pub open spec fn set_of(self, line_index: u64) -> int {
        ((self.line_address(line_index) >> self.offset_bits) & self.index_mask) as int
    }

    /// The tag that identifies a line within its set: the bits above the set index.
    pub open spec fn tag_of(self, line_index: u64) -> u64 {
        self.line_address(line_index) >> ((self.offset_bits + self.index_bits) as u32)
    }

    /// The line is resident.
    pub open spec fn holds(self, line_index: u64) -> bool {
        self.sets[self.set_of(line_index)].tags.contains(self.tag_of(line_index))
    }

    /// The shape every reachable state has.
    pub open spec fn inv(self) -> bool {
        &&& self.index_mask < self.sets.len() <= usize::MAX
        &&& self.offset_bits + self.index_bits < 64
        &&& forall|i: int| 0 <= i < self.sets.len() ==> {
            &&& (#[trigger] self.sets[i]).tags.len() == self.ways
            &&& self.sets[i].frequencies.len() == self.ways
            &&& self.sets[i].order.len() <= self.ways
        }
    }
}

/// The bookkeeping of a hit on way `way` of set `s`.
pub open spec fn set_hit(s: SetView, way: int, tag: u64, rp: u8, ways: usize) -> Option<SetView> {
    if rp == 1 {
        let order = remove_first(s.order, tag);
        if can_push(order, ways) {
            Some(SetView { order: order.push(tag), ..s })
        } else {
            None
        }
    } else if rp == 2 {
        if s.frequencies[way] == u64::MAX {
            None
        } else {
            Some(SetView { frequencies: s.frequencies.update(way, (s.frequencies[way] + 1) as u64), ..s })
        }
    } else {
        Some(s)
    }
}

/// The way a miss on a full set evicts, with the set after choosing it: round robin
/// over the first `asso` ways (`rp == 0`), the way of the least recently used tag
/// (`rp == 1`), or the least frequently used way, lowest on a tie (`rp == 2`).
pub open spec fn set_victim(s: SetView, asso: usize, rp: u8) -> Option<(int, SetView)> {
    if rp == 0 {
        if asso == 0 {
            None
        } else {
            Some(((s.rr_counter % asso) as int, SetView { rr_counter: s.rr_counter.wrapping_add(1), ..s }))
        }
    } else if rp == 1 {
        if s.order.len() == 0 {
            None
        } else {
            match position(s.tags.subrange(0, asso as int), s.order[0]) {
                Some(way) => Some((way, SetView { order: s.order.drop_first(), ..s })),
                None => None,
            }
        }
    } else if rp == 2 {
        if exists|i: int| is_set_lfu_victim(s, asso as int, i) {
            Some((choose|i: int| is_set_lfu_victim(s, asso as int, i), s))
        } else {
            None
        }
    } else {
        None
    }
}

/// The set after way `way` takes the line with this tag, as if just used for the first time.
pub open spec fn set_place(s: SetView, way: int, tag: u64, rp: u8, ways: usize) -> Option<SetView> {
    let t = SetView { tags: s.tags.update(way, tag), ..s };
    if rp == 1 {
        if can_push(s.order, ways) {
            Some(SetView { order: s.order.push(tag), ..t })
        } else {
            None
        }
    } else if rp == 2 {
        Some(SetView { frequencies: s.frequencies.update(way, 1u64), ..t })
    } else {
        Some(t)
    }
}

/// The set after a miss on the line with this tag: the first empty way among the first
/// `asso` takes it; with none empty, the victim's tag leaves and the victim way takes it.
pub open spec fn set_miss(s: SetView, tag: u64, asso: usize, rp: u8, ways: usize) -> Option<SetView> {
    if asso > ways {
        None
    } else {
        match position(s.tags.subrange(0, asso as int), INVALID_TAG) {
            Some(free) => set_place(s, free, tag, rp, ways),
            None => match set_victim(s, asso, rp) {
                Some((victim, e)) => {
                    let e2 = if rp == 1 {
                        SetView { order: remove_first(e.order, e.tags[victim]), ..e }
                    } else {
                        e
                    };
                    set_place(e2, victim, tag, rp, ways)
                },
                None => None,
            },
        }
    }
}

/// A set associative cache: a line maps to one set, by the low bits of its index, and
/// may sit in any way of it.
pub struct NWayCache<const N: usize, L: Cache> {
    sets: Vec<CacheSet<N>>,
    index_mask: u64,
    line_size: u64,
    asso_num: usize,
    offset_bits: u32,
    index_bits: u32,
    hits: u64,
    misses: u64,
    lower: L,
    rp: u8,
}

impl<const N: usize, L: Cache> View for NWayCache<N, L> {
    type V = NWayView<L::V>;

    closed spec fn view(&self) -> NWayView<L::V> {
        NWayView {
            sets: self.sets@.map_values(|s: CacheSet<N>| s@),
            ways: N,
            index_mask: self.index_mask,
            line_size: self.line_size,
            asso_num: self.asso_num,
            offset_bits: self.offset_bits,
            index_bits: self.index_bits,
            hits: self.hits,
            misses: self.misses,
            rp: self.rp,
            lower: self.lower@,
        }
    }
}

/// The number of ways that new lines are placed in, for cache kinds 1 to 3.
pub open spec fn associativity(kind: u8) -> usize {
    if kind == 1 {
        2
    } else if kind == 2 {
        4
    } else {
        8
    }
}

impl<const N: usize, L: Cache> NWayCache<N, L> {

    /// A well-formed cache has a state of the reachable shape.
    pub proof fn lemma_wf_inv(&self)
        requires
            self.wf(),
        ensures
            self@.inv(),
    {
    }

    /// Hands out the level below, leaving `replacement` in its place.
    pub fn take_lower(&mut self, replacement: L) -> (r: L)
        requires
            old(self).wf(),
            replacement.wf(),
        ensures
            final(self).wf(),
            r.wf(),
            r@ == old(self)@.lower,
            final(self)@ == (NWayView { lower: replacement@, ..old(self)@ }),
    {
        let mut r = replacement;
        core::mem::swap(&mut self.lower, &mut r);
        r
    }

    /// The state of a cache just built from `meta` above a level in state `lower`: every
    /// way of every set empty, no hits or misses counted.
    pub open spec fn initial(meta: CacheMeta, lower: L::V) -> NWayView<L::V> {
        let ob = meta.line_size.trailing_zeros();
        let num_sets = (meta.size >> ob) / (associativity(meta.kind) as u64);
        let ib = num_sets.trailing_zeros();
        NWayView {
            sets: Seq::new(num_sets as nat, |i: int| empty_set(N)),
            ways: N,
            index_mask: ((1u64 << ib) - 1) as u64,
            line_size: meta.line_size,
            asso_num: associativity(meta.kind),
            offset_bits: ob,
            index_bits: ib,
            hits: 0,
            misses: 0,
            rp: meta.rp,
            lower,
        }
    }

    /// Builds an empty cache of `meta.size` bytes in lines of `meta.line_size` bytes
    /// above `lower`, with 2, 4 or 8 ways per set for kinds 1, 2 and 3, and the
    /// replacement policy `meta.rp`. Line boundaries fall at multiples of the largest
    /// power of two that divides the line size; lines map to sets by the low bits of
    /// their index.
    pub fn new(meta: &CacheMeta, lower: L) -> (c: Self)
        requires
            lower.wf(),
            1 <= meta.kind <= 3,
            meta.line_size > 0,
            meta.size >> meta.line_size.trailing_zeros() <= usize::MAX,
            (meta.size >> meta.line_size.trailing_zeros()) / (associativity(meta.kind) as u64) >= 1,
        ensures
            c.wf(),
            c@ == Self::initial(*meta, lower@),
    {
        let asso_num: usize = if meta.kind == 1 {
            2
        } else if meta.kind == 2 {
            4
        } else {
            8
        };
        let offset_bits = meta.line_size.trailing_zeros();
        proof {
            lemma_trailing_zeros_facts(meta.line_size);
        }
        // Calculate no. of cache lines & no. of sets
        let num_lines = (meta.size >> offset_bits) as usize;
        let num_sets = num_lines / asso_num;
        // Calculate bits for offset, index, and tag
        let index_bits = (num_sets as u64).trailing_zeros();
        proof {
            lemma_trailing_zeros_facts(num_sets as u64);
            lemma_low_mask_lt(num_sets as u64, index_bits);
            lemma_offset_and_index_fit(meta.size, offset_bits, num_sets as u64, index_bits);
        }
        let index_mask = (1u64 << index_bits) - 1;
        // Initialise sets
        let mut sets: Vec<CacheSet<N>> = Vec::new();
        let mut i: usize = 0;
        while i < num_sets
            invariant
                i <= num_sets,
                sets@.len() == i,
                forall|j: int| 0 <= j < i ==> (#[trigger] sets@[j]).wf() && sets@[j]@ == empty_set(N),
            decreases num_sets - i,
        {
            sets.push(CacheSet::new());
            i += 1;
        }
        // Construct cache
        let c = NWayCache {
            sets,
            index_mask,
            line_size: meta.line_size,
            asso_num,
            offset_bits,
            index_bits,
            hits: 0,
            misses: 0,
            lower,
            rp: meta.rp,
        };
        assert(c@.sets =~= Self::initial(*meta, c@.lower).sets);
        c
    }

    /// The set index of the line that holds `address`.
    #[inline(always)]
    fn get_set_index(&self, address: u64) -> (r: usize)
        requires
            self.wf(),
        ensures
            r == ((address >> self.offset_bits) & self.index_mask),
            r < self.sets@.len(),
    {
        proof {
            lemma_and_le_mask(address >> self.offset_bits, self.index_mask);
        }
        ((address >> self.offset_bits) & self.index_mask) as usize
    }

    /// The tag of the line that holds `address`.
    #[inline(always)]
    fn get_tag(&self, address: u64) -> (r: u64)
        requires
            self.wf(),
        ensures
            r == address >> ((self.offset_bits + self.index_bits) as u32),
    {
        address >> (self.offset_bits + self.index_bits)
    }

    /// One line access: a hit when the line's set holds its tag, which updates the
    /// replacement bookkeeping; otherwise the set takes the line and the whole line is
    /// fetched from the level below, as an access of `line_size` bytes from its first byte.
    pub open spec fn step(v: NWayView<L::V>, line_index: u64) -> Option<NWayView<L::V>> {
        let si = v.set_of(line_index);
        let tag = v.tag_of(line_index);
        let s = v.sets[si];
        match position(s.tags, tag) {
            Some(way) => if v.hits == u64::MAX {
                None
            } else {
                match set_hit(s, way, tag, v.rp, v.ways) {
                    Some(s2) => Some(NWayView { hits: (v.hits + 1) as u64, sets: v.sets.update(si, s2), ..v }),
                    None => None,
                }
            },
            None => if v.misses == u64::MAX {
                None
            } else {
                match set_miss(s, tag, v.asso_num, v.rp, v.ways) {
                    Some(s2) => match L::after_access(v.lower, v.line_address(line_index), v.line_size) {
                        Some(lower) => Some(NWayView {
                            misses: (v.misses + 1) as u64,
                            sets: v.sets.update(si, s2),
                            lower,
                            ..v
                        }),
                        None => None,
                    },
                    None => None,
                }
            },
        }
    }

    /// `count` line accesses, from line `line` upwards.
    pub open spec fn steps(v: NWayView<L::V>, line: int, count: nat) -> Option<NWayView<L::V>>
        decreases count,
    {
        if count == 0 {
            Some(v)
        } else {
            match Self::step(v, line as u64) {
                Some(w) => Self::steps(w, line + 1, (count - 1) as nat),
                None => None,
            }
        }
    }

    /// An access of `size` bytes from `address` on: each line that holds one of the
    /// bytes is accessed once, in ascending order.
    pub open spec fn span(v: NWayView<L::V>, address: u64, size: u64) -> Option<NWayView<L::V>> {
        if !access_in_range(address, size) {
            None
        } else {
            let first = first_line(address, v.offset_bits);
            let last = last_line(address, size, v.offset_bits);
            if first <= last {
                Self::steps(v, first as int, (last - first + 1) as nat)
            } else {
                Some(v)
            }
        }
    }
}

/// With lines of `2^offset_bits` bytes, the number of sets of a cache of `size` bytes
/// leaves room for the offset and the index in 64 bits.
proof fn lemma_offset_and_index_fit(size: u64, offset_bits: u32, num_sets: u64, index_bits: u32)
    requires
        offset_bits < 64,
        index_bits < 64,
        1u64 << index_bits <= num_sets,
        num_sets <= size >> offset_bits,
    ensures
        offset_bits + index_bits < 64,
{
    assert(offset_bits < 64 && index_bits < 64 && (1u64 << index_bits) <= (size >> offset_bits)
        ==> offset_bits + index_bits < 64) by (bit_vector);
}

impl<const N: usize, L: Cache> Cache for NWayCache<N, L> {
    closed spec fn wf(&self) -> bool {
        &&& self@.inv()
        &&& forall|i: int| 0 <= i < self.sets@.len() ==> (#[trigger] self.sets@[i]).wf()
        &&& self.lower.wf()
    }

    open spec fn after_line(v: NWayView<L::V>, line_index: u64) -> Option<NWayView<L::V>> {
        Self::step(v, line_index)
    }

    open spec fn after_access(v: NWayView<L::V>, address: u64, size: u64) -> Option<NWayView<L::V>> {
        Self::span(v, address, size)
    }

    open spec fn hit_counts(v: NWayView<L::V>) -> Seq<u64> {
        seq![v.hits] + L::hit_counts(v.lower)
    }

    open spec fn miss_counts(v: NWayView<L::V>) -> Seq<u64> {
        seq![v.misses] + L::miss_counts(v.lower)
    }

    open spec fn memory_accesses(v: NWayView<L::V>) -> u64 {
        L::memory_accesses(v.lower)
    }

    fn access(&mut self, address: u64, size: u64) {
        // the lines that hold the first and the last byte
        let start_line = address >> self.offset_bits;
        let end_line = (address + size - 1) >> self.offset_bits;
        if likely(start_line == end_line) {
            self.access_line(start_line);
            assert(Self::steps(self@, start_line + 1, 0) == Some(self@));
        } else if start_line < end_line {
            let ghost goal = Self::steps(self@, start_line as int, (end_line - start_line + 1) as nat);
            let mut line_index = start_line;
            loop
                invariant_except_break
                    start_line <= line_index <= end_line,
                    self.wf(),
                    Self::steps(self@, line_index as int, (end_line - line_index + 1) as nat) == goal,
                    goal is Some,
                ensures
                    self.wf(),
                    self@ == goal.unwrap(),
                decreases end_line - line_index,
            {
                self.access_line(line_index);
                if line_index == end_line {
                    assert(Self::steps(self@, line_index + 1, 0) == Some(self@));
                    break;
                }
                line_index = line_index + 1;
            }
        }
    }

    fn access_line(&mut self, line_index: u64) {
        let ghost before = self@;
        let line_address = line_index << self.offset_bits;
        let set_index = self.get_set_index(line_address);
        let tag = self.get_tag(line_address);
        let rp = self.rp;
        let asso_num = self.asso_num;
        assert(self.sets@[set_index as int].wf());
        let set = &mut self.sets[set_index];
        // find the tag in the set
        let hit_index = find_first(&set.tags, N, tag);
        proof {
            assert(set.tags@.subrange(0, N as int) =~= set.tags@);
        }
        match hit_index {
            Some(index) => {
                // HIT
                set.on_hit(index, tag, rp);
                self.hits += 1;
            },
            None => {
                // MISS
                set.on_miss(tag, asso_num, rp);
                self.misses += 1;
                // fetch the entire line from the level below, from the line's first byte
                self.lower.access(line_index << self.offset_bits, self.line_size);
            },
        }
        assert(self@.sets =~= before.sets.update(set_index as int, self.sets@[set_index as int]@));
    }

    fn try_access(&mut self, address: u64, size: u64) -> (ok: bool) {
        let ghost goal = Self::span(self@, address, size);
        let end = match address.checked_add(size) {
            Some(e) => e,
            None => return false,
        };
        if end == 0 {
            return false;
        }
        assert(access_in_range(address, size) && end == address + size);
        // the lines that hold the first and the last byte
        let start_line = address >> self.offset_bits;
        let end_line = (end - 1) >> self.offset_bits;
        if start_line > end_line {
            return true;
        }
        assert(goal == Self::steps(self@, start_line as int, (end_line - start_line + 1) as nat));
        let mut line_index = start_line;
        loop
            invariant
                start_line <= line_index <= end_line,
                self.wf(),
                goal == Self::after_access(old(self)@, address, size),
                Self::steps(self@, line_index as int, (end_line - line_index + 1) as nat) == goal,
            decreases end_line - line_index,
        {
            if !self.try_access_line(line_index) {
                return false;
            }
            if line_index == end_line {
                assert(Self::steps(self@, line_index + 1, 0) == Some(self@));
                return true;
            }
            line_index = line_index + 1;
        }
    }

    fn try_access_line(&mut self, line_index: u64) -> (ok: bool) {
        let ghost before = self@;
        let line_address = line_index << self.offset_bits;
        let set_index = self.get_set_index(line_address);
        let tag = self.get_tag(line_address);
        let rp = self.rp;
        let asso_num = self.asso_num;
        assert(self.sets@[set_index as int].wf());
        let hit_index = find_first(&self.sets[set_index].tags, N, tag);
        proof {
            assert(self.sets@[set_index as int].tags@.subrange(0, N as int) =~= self.sets@[set_index as int].tags@);
        }
        match hit_index {
            Some(index) => {
                if self.hits == u64::MAX || !self.sets[set_index].can_hit(index, tag, rp) {
                    return false;
                }
                let set = &mut self.sets[set_index];
                set.on_hit(index, tag, rp);
                self.hits += 1;
            },
            None => {
                if self.misses == u64::MAX || !self.sets[set_index].can_miss(tag, asso_num, rp) {
                    return false;
                }
                // the level below serves the whole line first; the set changes only then
                if !self.lower.try_access(line_index << self.offset_bits, self.line_size) {
                    return false;
                }
                let set = &mut self.sets[set_index];
                set.on_miss(tag, asso_num, rp);
                self.misses += 1;
            },
        }
        assert(self@.sets =~= before.sets.update(set_index as int, self.sets@[set_index as int]@));
        true
    }

    fn get_hits(&self, hits_vec: Vec<u64>) -> (r: Vec<u64>) {
        let ghost given = hits_vec@;
        let mut hits_vec = hits_vec;
        hits_vec.push(self.hits);
        let r = self.lower.get_hits(hits_vec);
        assert(r@ =~= given + (seq![self.hits] + L::hit_counts(self.lower@)));
        r
    }

    fn get_misses(&self, misses_vec: Vec<u64>) -> (r: Vec<u64>) {
        let ghost given = misses_vec@;
        let mut misses_vec = misses_vec;
        misses_vec.push(self.misses);
        let r = self.lower.get_misses(misses_vec);
        assert(r@ =~= given + (seq![self.misses] + L::miss_counts(self.lower@)));
        r
    }

    fn get_main_memory_accesses(&self) -> (r: u64) {
        self.lower.get_main_memory_accesses()
    }
}

/// The way a miss fills lies among the first `asso` ways, and only the tag of that way
/// changes.
proof fn lemma_set_miss_places(s: SetView, tag: u64, asso: usize, rp: u8, ways: usize) -> (way: int)
    requires
        s.tags.len() == ways,
        s.frequencies.len() == ways,
        set_miss(s, tag, asso, rp, ways) is Some,
    ensures
        0 <= way < asso <= ways,
        set_miss(s, tag, asso, rp, ways).unwrap().tags == s.tags.update(way, tag),
        set_miss(s, tag, asso, rp, ways).unwrap().frequencies.len() == ways,
        rp == 2 ==> set_miss(s, tag, asso, rp, ways).unwrap().frequencies == s.frequencies.update(way, 1u64),
        s.tags.subrange(0, asso as int).contains(INVALID_TAG) ==> s.tags[way] == INVALID_TAG,
{
    let sub = s.tags.subrange(0, asso as int);
    match position(sub, INVALID_TAG) {
        Some(free) => {
            lemma_position_found(sub, INVALID_TAG);
            free
        },
        None => {
            let (victim, e) = set_victim(s, asso, rp).unwrap();
            if rp == 1 {
                lemma_position_found(sub, s.order[0]);
            }
            victim
        },
    }
}

/// A set associative access leaves the line resident, so that accessing it again at
/// once is a hit that counts one hit and sends nothing below.
pub proof fn lemma_nway_reaccess_hits<const N: usize, L: Cache>(v: NWayView<L::V>, line_index: u64, w: NWayView<L::V>)
    requires
        v.inv(),
        NWayCache::<N, L>::step(v, line_index) == Some(w),
    ensures
        w.inv(),
        w.holds(line_index),
        NWayCache::<N, L>::step(w, line_index) matches Some(u) ==> {
            &&& u.hits == w.hits + 1
            &&& u.misses == w.misses
            &&& u.lower == w.lower
        },
{
    let si = v.set_of(line_index);
    let tag = v.tag_of(line_index);
    lemma_and_le_mask(v.line_address(line_index) >> v.offset_bits, v.index_mask);
    let s = v.sets[si];
    assert(s.tags.len() == v.ways);
    assert(w.set_of(line_index) == si && w.tag_of(line_index) == tag);
    match position(s.tags, tag) {
        Some(way) => {
            lemma_position_found(s.tags, tag);
            let t = set_hit(s, way, tag, v.rp, v.ways).unwrap();
            assert(t.tags == s.tags);
            assert(w.sets[si] == t);
            assert(t.tags[way] == tag);
        },
        None => {
            let way = lemma_set_miss_places(s, tag, v.asso_num, v.rp, v.ways);
            let t = set_miss(s, tag, v.asso_num, v.rp, v.ways).unwrap();
            assert(w.sets[si] == t);
            assert(t.tags[way] == tag);
        },
    }
    assert forall|i: int| 0 <= i < w.sets.len() implies {
        &&& (#[trigger] w.sets[i]).tags.len() == w.ways
        &&& w.sets[i].frequencies.len() == w.ways
        &&& w.sets[i].order.len() <= w.ways
    } by {
        if i == si {
            let t = w.sets[i];
            if position(s.tags, tag) is None {
                lemma_set_miss_places(s, tag, v.asso_num, v.rp, v.ways);
            }
        }
    }
}

/// While the accessed line's set has an empty way, a miss fills an empty way and
/// evicts nothing: every resident line stays.
pub proof fn lemma_nway_no_eviction_while_free<const N: usize, L: Cache>(
    v: NWayView<L::V>,
    line_index: u64,
    w: NWayView<L::V>,
    si: int,
    other: u64,
)
    requires
        v.inv(),
        NWayCache::<N, L>::step(v, line_index) == Some(w),
        v.sets[v.set_of(line_index)].tags.subrange(0, v.asso_num as int).contains(INVALID_TAG),
        0 <= si < v.sets.len(),
        other != INVALID_TAG,
        v.sets[si].tags.contains(other),
    ensures
        w.sets[si].tags.contains(other),
{
    let set = v.set_of(line_index);
    let tag = v.tag_of(line_index);
    let s = v.sets[set];
    lemma_and_le_mask(v.line_address(line_index) >> v.offset_bits, v.index_mask);
    let k = choose|k: int| 0 <= k < v.sets[si].tags.len() && v.sets[si].tags[k] == other;
    if si == set && position(s.tags, tag) is None {
        let way = lemma_set_miss_places(s, tag, v.asso_num, v.rp, v.ways);
        assert(w.sets[si].tags[k] == other);
    } else if si == set {
        let way = position(s.tags, tag).unwrap();
        assert(w.sets[si].tags[k] == other);
    } else {
        assert(w.sets[si] == v.sets[si]);
        assert(w.sets[si].tags[k] == other);
    }
}

/// Every line access counts exactly one hit or one miss, a hit exactly when the line
/// was resident; a hit sends nothing below, and a miss sends the whole line below as
/// one access.
pub proof fn lemma_nway_counts<const N: usize, L: Cache>(v: NWayView<L::V>, line_index: u64, w: NWayView<L::V>)
    requires
        NWayCache::<N, L>::step(v, line_index) == Some(w),
    ensures
        w.hits == v.hits + 1 <==> v.holds(line_index),
        w.misses == v.misses + 1 <==> !v.holds(line_index),
        w.hits + w.misses == v.hits + v.misses + 1,
        w.hits == v.hits + 1 ==> w.lower == v.lower,
        w.misses == v.misses + 1 ==> Some(w.lower) == L::after_access(v.lower, v.line_address(line_index), v.line_size),
{
}

/// Above main memory, main memory receives one request per miss and nothing else.
pub proof fn lemma_nway_memory_counts_misses<const N: usize>(v: NWayView<u64>, line_index: u64, w: NWayView<u64>)
    requires
        NWayCache::<N, crate::cache::MainMemory>::step(v, line_index) == Some(w),
    ensures
        w.lower - v.lower == w.misses - v.misses,
{
}

/// The number of the first `n` ways that hold a line.
pub open spec fn valid_count(tags: Seq<u64>, n: int) -> nat
    decreases n,
{
    if n <= 0 {
        0
    } else {
        valid_count(tags, n - 1) + (if tags[n - 1] != INVALID_TAG { 1nat } else { 0nat })
    }
}

/// The shape of a set under least recently used replacement: lines are only placed in
/// the first `asso` ways, no line is held twice, and the access order lists each held
/// line exactly once.
pub open spec fn lru_consistent(s: SetView, asso: int) -> bool {
    &&& forall|i: int| asso <= i < s.tags.len() ==> s.tags[i] == INVALID_TAG
    &&& forall|i: int, j: int|
        0 <= i < asso && 0 <= j < asso && i != j && s.tags[i] != INVALID_TAG ==> s.tags[i] != s.tags[j]
    &&& s.order.no_duplicates()
    &&& forall|k: int| 0 <= k < s.order.len() ==> s.order[k] != INVALID_TAG && s.tags.subrange(0, asso).contains(#[trigger] s.order[k])
    &&& forall|i: int| 0 <= i < asso && s.tags[i] != INVALID_TAG ==> s.order.contains(#[trigger] s.tags[i])
    &&& s.order.len() == valid_count(s.tags, asso)
}

proof fn lemma_valid_count_bounds(tags: Seq<u64>, n: int)
    requires
        0 <= n <= tags.len(),
    ensures
        valid_count(tags, n) <= n,
        (exists|i: int| 0 <= i < n && tags[i] == INVALID_TAG) ==> valid_count(tags, n) < n,
        (forall|i: int| 0 <= i < n ==> tags[i] != INVALID_TAG) ==> valid_count(tags, n) == n,
    decreases n,
{
    if n > 0 {
        lemma_valid_count_bounds(tags, n - 1);
        if exists|i: int| 0 <= i < n && tags[i] == INVALID_TAG {
            let i = choose|i: int| 0 <= i < n && tags[i] == INVALID_TAG;
            if i < n - 1 {
                assert(exists|i: int| 0 <= i < n - 1 && tags[i] == INVALID_TAG);
            }
        }
    }
}

proof fn lemma_valid_count_update(tags: Seq<u64>, n: int, i: int, t: u64)
    requires
        0 <= i < n <= tags.len(),
    ensures
        valid_count(tags.update(i, t), n) + (if tags[i] != INVALID_TAG { 1nat } else { 0nat })
            == valid_count(tags, n) + (if t != INVALID_TAG { 1nat } else { 0nat }),
    decreases n,
{
    if n - 1 > i {
        lemma_valid_count_update(tags, n - 1, i, t);
    } else {
        assert forall|k: int| 0 <= k < n - 1 implies tags.update(i, t)[k] == tags[k] by {}
        lemma_valid_count_same(tags, tags.update(i, t), n - 1);
    }
}

proof fn lemma_valid_count_same(a: Seq<u64>, b: Seq<u64>, n: int)
    requires
        0 <= n <= a.len(),
        n <= b.len(),
        forall|k: int| 0 <= k < n ==> a[k] == b[k],
    ensures
        valid_count(a, n) == valid_count(b, n),
    decreases n,
{
    if n > 0 {
        lemma_valid_count_same(a, b, n - 1);
    }
}

/// Under least recently used replacement, with lines placed in at most 254 ways, every
/// access of a line other than the empty-way marker completes: a hit moves the line to
/// the back of the access order, a miss finds an empty way or the way of the least
/// recently used line (the front of the order), and the set keeps its shape.
pub proof fn lemma_lru_set_access(s: SetView, tag: u64, asso: usize, ways: usize)
    requires
        s.tags.len() == ways,
        s.frequencies.len() == ways,
        1 <= asso <= ways,
        asso < 255,
        tag != INVALID_TAG,
        lru_consistent(s, asso as int),
    ensures
        s.tags.contains(tag) ==> {
            let way = position(s.tags, tag).unwrap();
            &&& set_hit(s, way, tag, 1, ways) is Some
            &&& lru_consistent(set_hit(s, way, tag, 1, ways).unwrap(), asso as int)
            &&& set_hit(s, way, tag, 1, ways).unwrap().order.last() == tag
        },
        !s.tags.contains(tag) ==> {
            &&& set_miss(s, tag, asso, 1, ways) is Some
            &&& lru_consistent(set_miss(s, tag, asso, 1, ways).unwrap(), asso as int)
            &&& set_miss(s, tag, asso, 1, ways).unwrap().order.last() == tag
        },
{
    let a = asso as int;
    let sub = s.tags.subrange(0, a);
    lemma_valid_count_bounds(s.tags, a);
    if s.tags.contains(tag) {
        lemma_position_found(s.tags, tag);
        let way = position(s.tags, tag).unwrap();
        assert(way < a);
        assert(s.order.contains(s.tags[way]));
        lemma_position_found(s.order, tag);
        let p = position(s.order, tag).unwrap();
        let removed = s.order.remove(p);
        assert(remove_first(s.order, tag) == removed);
        assert(!removed.contains(tag)) by {
            if removed.contains(tag) {
                let k = choose|k: int| 0 <= k < removed.len() && removed[k] == tag;
                if k < p {
                    assert(s.order[k] == tag);
                } else {
                    assert(s.order[k + 1] == tag);
                }
            }
        }
        let t = set_hit(s, way, tag, 1, ways).unwrap();
        assert(t.order == removed.push(tag));
        assert(t.order.no_duplicates()) by {
            assert forall|i: int, j: int| 0 <= i < t.order.len() && 0 <= j < t.order.len() && i != j implies t.order[i] != t.order[j] by {
                if i < removed.len() && j < removed.len() {
                    let i0 = if i < p { i } else { i + 1 };
                    let j0 = if j < p { j } else { j + 1 };
                    assert(s.order[i0] != s.order[j0]);
                } else if i < removed.len() {
                    assert(removed.contains(removed[i]));
                } else {
                    assert(removed.contains(removed[j]));
                }
            }
        }
        assert forall|k: int| 0 <= k < t.order.len() implies t.order[k] != INVALID_TAG && t.tags.subrange(0, a).contains(#[trigger] t.order[k]) by {
            if k < removed.len() {
                let k0 = if k < p { k } else { k + 1 };
                assert(s.order[k0] == t.order[k]);
            } else {
                assert(sub[way] == tag);
            }
        }
        assert forall|i: int| 0 <= i < a && t.tags[i] != INVALID_TAG implies t.order.contains(#[trigger] t.tags[i]) by {
            let x = t.tags[i];
            assert(s.order.contains(x));
            if x == tag {
                assert(t.order[t.order.len() - 1] == tag);
            } else {
                let k = choose|k: int| 0 <= k < s.order.len() && s.order[k] == x;
                if k < p {
                    assert(t.order[k] == x);
                } else {
                    assert(k != p);
                    assert(t.order[k - 1] == x);
                }
            }
        }
    } else {
        match position(sub, INVALID_TAG) {
            Some(free) => {
                lemma_position_found(sub, INVALID_TAG);
                let t = set_miss(s, tag, asso, 1, ways).unwrap();
                assert(s.order.len() < a);
                assert(t.tags == s.tags.update(free, tag));
                assert(t.order == s.order.push(tag));
                lemma_valid_count_update(s.tags, a, free, tag);
                assert(!s.order.contains(tag)) by {
                    if s.order.contains(tag) {
                        let k = choose|k: int| 0 <= k < s.order.len() && s.order[k] == tag;
                        assert(sub.contains(s.order[k]));
                        let i = choose|i: int| 0 <= i < sub.len() && sub[i] == tag;
                        assert(s.tags[i] == tag);
                    }
                }
                assert(t.order.no_duplicates()) by {
                    assert forall|i: int, j: int| 0 <= i < t.order.len() && 0 <= j < t.order.len() && i != j implies t.order[i] != t.order[j] by {
                        if i < s.order.len() && j < s.order.len() {
                        } else if i < s.order.len() {
                            assert(s.order.contains(s.order[i]));
                        } else {
                            assert(s.order.contains(s.order[j]));
                        }
                    }
                }
                assert forall|k: int| 0 <= k < t.order.len() implies t.order[k] != INVALID_TAG && t.tags.subrange(0, a).contains(#[trigger] t.order[k]) by {
                    if k < s.order.len() {
                        let x = s.order[k];
                        assert(sub.contains(x));
                        let i = choose|i: int| 0 <= i < sub.len() && sub[i] == x;
                        assert(i != free);
                        assert(t.tags.subrange(0, a)[i] == x);
                    } else {
                        assert(t.tags.subrange(0, a)[free] == tag);
                    }
                }
                assert forall|i: int| 0 <= i < a && t.tags[i] != INVALID_TAG implies t.order.contains(#[trigger] t.tags[i]) by {
                    if i == free {
                        assert(t.order[t.order.len() - 1] == tag);
                    } else {
                        let x = s.tags[i];
                        assert(s.order.contains(x));
                        let k = choose|k: int| 0 <= k < s.order.len() && s.order[k] == x;
                        assert(t.order[k] == x);
                    }
                }
                assert forall|i: int, j: int|
                    0 <= i < a && 0 <= j < a && i != j && t.tags[i] != INVALID_TAG implies t.tags[i] != t.tags[j] by {
                    if i == free {
                        assert(s.tags[j] != tag);
                    } else if j == free {
                    } else {
                    }
                }
            },
            None => {
                assert forall|i: int| 0 <= i < a implies s.tags[i] != INVALID_TAG by {
                    if s.tags[i] == INVALID_TAG {
                        assert(sub[i] == INVALID_TAG);
                        assert(sub.contains(INVALID_TAG));
                    }
                }
                assert(s.order.len() == a);
                let vtag = s.order[0];
                assert(sub.contains(vtag));
                lemma_position_found(sub, vtag);
                let victim = position(sub, vtag).unwrap();
                let e = SetView { order: s.order.drop_first(), ..s };
                assert(set_victim(s, asso, 1) == Some((victim, e)));
                assert(s.tags[victim] == vtag);
                assert(!e.order.contains(vtag)) by {
                    if e.order.contains(vtag) {
                        let k = choose|k: int| 0 <= k < e.order.len() && e.order[k] == vtag;
                        assert(s.order[k + 1] == s.order[0]);
                    }
                }
                assert(position(e.order, vtag) is None);
                assert(remove_first(e.order, e.tags[victim]) == e.order);
                let t = set_miss(s, tag, asso, 1, ways).unwrap();
                assert(t.tags == s.tags.update(victim, tag));
                assert(t.order == e.order.push(tag));
                lemma_valid_count_update(s.tags, a, victim, tag);
                assert(!s.order.contains(tag)) by {
                    if s.order.contains(tag) {
                        let k = choose|k: int| 0 <= k < s.order.len() && s.order[k] == tag;
                        assert(sub.contains(s.order[k]));
                        let i = choose|i: int| 0 <= i < sub.len() && sub[i] == tag;
                        assert(s.tags[i] == tag);
                    }
                }
                assert(t.order.no_duplicates()) by {
                    assert forall|i: int, j: int| 0 <= i < t.order.len() && 0 <= j < t.order.len() && i != j implies t.order[i] != t.order[j] by {
                        if i < e.order.len() && j < e.order.len() {
                            assert(s.order[i + 1] != s.order[j + 1]);
                        } else if i < e.order.len() {
                            assert(s.order.contains(s.order[i + 1]));
                        } else {
                            assert(s.order.contains(s.order[j + 1]));
                        }
                    }
                }
                assert forall|k: int| 0 <= k < t.order.len() implies t.order[k] != INVALID_TAG && t.tags.subrange(0, a).contains(#[trigger] t.order[k]) by {
                    if k < e.order.len() {
                        let x = s.order[k + 1];
                        assert(sub.contains(x));
                        let i = choose|i: int| 0 <= i < sub.len() && sub[i] == x;
                        assert(x != vtag);
                        assert(i != victim);
                        assert(t.tags.subrange(0, a)[i] == x);
                    } else {
                        assert(t.tags.subrange(0, a)[victim] == tag);
                    }
                }
                assert forall|i: int| 0 <= i < a && t.tags[i] != INVALID_TAG implies t.order.contains(#[trigger] t.tags[i]) by {
                    if i == victim {
                        assert(t.order[t.order.len() - 1] == tag);
                    } else {
                        let x = s.tags[i];
                        assert(x != vtag);
                        assert(s.order.contains(x));
                        let k = choose|k: int| 0 <= k < s.order.len() && s.order[k] == x;
                        assert(k != 0);
                        assert(t.order[k - 1] == x);
                    }
                }
                assert forall|i: int, j: int|
                    0 <= i < a && 0 <= j < a && i != j && t.tags[i] != INVALID_TAG implies t.tags[i] != t.tags[j] by {
                    if i == victim {
                        assert(s.tags[j] != tag);
                    } else if j == victim {
                    } else {
                    }
                }
            },
        }
    }
}

/// An empty set has the least recently used shape.
pub proof fn lemma_empty_set_lru_consistent(ways: usize, asso: usize)
    requires
        asso <= ways,
    ensures
        lru_consistent(empty_set(ways), asso as int),
{
    let s = empty_set(ways);
    assert forall|n: int| 0 <= n <= asso implies valid_count(s.tags, n) == 0 by {
        lemma_valid_count_zero(s.tags, n);
    }
}

proof fn lemma_valid_count_zero(tags: Seq<u64>, n: int)
    requires
        0 <= n <= tags.len(),
        forall|i: int| 0 <= i < n ==> tags[i] == INVALID_TAG,
    ensures
        valid_count(tags, n) == 0,
    decreases n,
{
    if n > 0 {
        lemma_valid_count_zero(tags, n - 1);
    }
}

/// Every set of the cache has the least recently used shape.
pub open spec fn lru_sets<LV>(v: NWayView<LV>) -> bool {
    forall|i: int| 0 <= i < v.sets.len() ==> lru_consistent(#[trigger] v.sets[i], v.asso_num as int)
}

/// Under least recently used replacement, with lines placed in at most 254 ways, an
/// access of a line whose tag is not the empty-way marker completes whenever its
/// counters have room and the level below can serve the line; every set keeps its
/// shape, so an eviction always finds the least recently used line in the set.
pub proof fn lemma_nway_lru_access<const N: usize, L: Cache>(v: NWayView<L::V>, line_index: u64)
    requires
        v.inv(),
        v.rp == 1,
        1 <= v.asso_num <= v.ways,
        v.asso_num < 255,
        lru_sets(v),
        v.tag_of(line_index) != INVALID_TAG,
        v.hits < u64::MAX,
        v.misses < u64::MAX,
        L::after_access(v.lower, v.line_address(line_index), v.line_size) is Some,
    ensures
        NWayCache::<N, L>::step(v, line_index) is Some,
        lru_sets(NWayCache::<N, L>::step(v, line_index).unwrap()),
        NWayCache::<N, L>::step(v, line_index).unwrap().inv(),
{
    let si = v.set_of(line_index);
    let tag = v.tag_of(line_index);
    lemma_and_le_mask(v.line_address(line_index) >> v.offset_bits, v.index_mask);
    let s = v.sets[si];
    assert(lru_consistent(s, v.asso_num as int));
    lemma_lru_set_access(s, tag, v.asso_num, v.ways);
    let w = NWayCache::<N, L>::step(v, line_index).unwrap();
    lemma_nway_reaccess_hits::<N, L>(v, line_index, w);
    assert forall|i: int| 0 <= i < w.sets.len() implies lru_consistent(#[trigger] w.sets[i], w.asso_num as int) by {
        if i != si {
            assert(w.sets[i] == v.sets[i]);
        }
    }
}

/// A cache just built has every set in the least recently used shape.
pub proof fn lemma_nway_initial_lru<const N: usize, L: Cache>(meta: CacheMeta, lower: L::V)
    requires
        associativity(meta.kind) <= N,
    ensures
        lru_sets(NWayCache::<N, L>::initial(meta, lower)),
{
    lemma_empty_set_lru_consistent(N, associativity(meta.kind));
}

/// Under round robin and least frequently used replacement, a miss always finds a way:
/// an empty one among the first `asso` while there is one, else a victim.
pub proof fn lemma_set_miss_completes(s: SetView, tag: u64, asso: usize, rp: u8, ways: usize)
    requires
        s.tags.len() == ways,
        s.frequencies.len() == ways,
        1 <= asso <= ways,
        asso <= u64::MAX,
        rp == 0 || rp == 2,
    ensures
        set_miss(s, tag, asso, rp, ways) is Some,
{
    let sub = s.tags.subrange(0, asso as int);
    if rp == 2 && position(sub, INVALID_TAG) is None {
        assert forall|i: int| 0 <= i < asso implies s.tags[i] != INVALID_TAG by {
            if s.tags[i] == INVALID_TAG {
                assert(sub[i] == INVALID_TAG);
            }
        }
        let i = least_valid_way(s, asso as int);
        assert(is_set_lfu_victim(s, asso as int, i));
    }
}

proof fn least_valid_way(s: SetView, m: int) -> (i: int)
    requires
        1 <= m <= s.tags.len(),
        m <= s.frequencies.len(),
        m <= u64::MAX,
        forall|j: int| 0 <= j < m ==> s.tags[j] != INVALID_TAG,
    ensures
        0 <= i < m,
        s.tags[i] != INVALID_TAG,
        forall|j: int|
            0 <= j < m && s.tags[j] != INVALID_TAG ==> key_le((s.frequencies[i], i as u64), (#[trigger] s.frequencies[j], j as u64)),
    decreases m,
{
    if m == 1 {
        0
    } else {
        let k = least_valid_way(s, m - 1);
        if s.frequencies[m - 1] < s.frequencies[k] {
            m - 1
        } else {
            k
        }
    }
}

/// The `count` line accesses from line `line` on form a run over those lines.
proof fn lemma_nway_steps_are_lines<const N: usize, L: Cache>(v: NWayView<L::V>, line: int, count: nat)
    ensures
        NWayCache::<N, L>::steps(v, line, count) == after_lines::<NWayCache::<N, L>>(v, line_range(line, count)),
    decreases count,
{
    if count > 0 {
        assert(line_range(line, count) =~= seq![line as u64] + line_range(line + 1, (count - 1) as nat));
        lemma_after_lines_cons::<NWayCache::<N, L>>(v, line as u64, line_range(line + 1, (count - 1) as nat));
        match NWayCache::<N, L>::step(v, line as u64) {
            Some(w) => lemma_nway_steps_are_lines::<N, L>(w, line + 1, (count - 1) as nat),
            None => {},
        }
    } else {
        assert(line_range(line, count) =~= Seq::<u64>::empty());
    }
}

/// An access of `size` bytes from `address` on is exactly the accesses of the lines
/// from the one that holds its first byte to the one that holds its last, one each,
/// in ascending order.
pub proof fn lemma_nway_access_is_lines<const N: usize, L: Cache>(v: NWayView<L::V>, address: u64, size: u64)
    requires
        access_in_range(address, size),
    ensures
        NWayCache::<N, L>::after_access(v, address, size) == after_lines::<NWayCache::<N, L>>(
            v,
            line_range(
                first_line(address, v.offset_bits) as int,
                if first_line(address, v.offset_bits) <= last_line(address, size, v.offset_bits) {
                    (last_line(address, size, v.offset_bits) - first_line(address, v.offset_bits) + 1) as nat
                } else {
                    0
                },
            ),
        ),
{
    let first = first_line(address, v.offset_bits);
    let last = last_line(address, size, v.offset_bits);
    if first <= last {
        lemma_nway_steps_are_lines::<N, L>(v, first as int, (last - first + 1) as nat);
    } else {
        assert(line_range(first as int, 0) =~= Seq::<u64>::empty());
    }
}

/// No set holds a line twice.
pub open spec fn sets_distinct<LV>(v: NWayView<LV>) -> bool {
    forall|i: int, a: int, b: int|
        0 <= i < v.sets.len() && 0 <= a < v.sets[i].tags.len() && 0 <= b < v.sets[i].tags.len() && a != b
            && v.sets[i].tags[a] != INVALID_TAG ==> #[trigger] v.sets[i].tags[a] != #[trigger] v.sets[i].tags[b]
}

/// An access changes no set but the one its line maps to, and leaves the line resident
/// there. Within that set a hit leaves every way's line as it was, while a miss puts
/// the line in exactly one of the first `asso_num` ways, the first empty one where
/// there is one, and leaves the other ways as they were; whatever the policy, no set
/// comes to hold a line twice.
pub proof fn lemma_nway_step_effect<const N: usize, L: Cache>(v: NWayView<L::V>, line_index: u64, w: NWayView<L::V>)
    requires
        v.inv(),
        sets_distinct(v),
        NWayCache::<N, L>::step(v, line_index) == Some(w),
    ensures
        w.sets.len() == v.sets.len(),
        forall|i: int| 0 <= i < v.sets.len() && i != v.set_of(line_index) ==> #[trigger] w.sets[i] == v.sets[i],
        v.holds(line_index) ==> w.sets[v.set_of(line_index)].tags == v.sets[v.set_of(line_index)].tags,
        !v.holds(line_index) ==> exists|way: int| {
            &&& 0 <= way < v.asso_num
            &&& w.sets[v.set_of(line_index)].tags == v.sets[v.set_of(line_index)].tags.update(way, v.tag_of(line_index))
            &&& v.sets[v.set_of(line_index)].tags.subrange(0, v.asso_num as int).contains(INVALID_TAG)
                ==> v.sets[v.set_of(line_index)].tags[way] == INVALID_TAG
        },
        w.holds(line_index),
        sets_distinct(w),
{
    let si = v.set_of(line_index);
    let tag = v.tag_of(line_index);
    lemma_and_le_mask((v.line_address(line_index) >> v.offset_bits), v.index_mask);
    let s = v.sets[si];
    assert(s.tags.len() == v.ways && s.frequencies.len() == v.ways);
    if v.holds(line_index) {
        assert(w.sets == v.sets.update(si, w.sets[si]));
        assert(w.sets[si].tags == s.tags);
    } else {
        let s2 = set_miss(s, tag, v.asso_num, v.rp, v.ways).unwrap();
        let way = lemma_set_miss_places(s, tag, v.asso_num, v.rp, v.ways);
        assert(w.sets == v.sets.update(si, s2));
        assert(s2.tags[way] == tag);
        assert(w.sets[si].tags.contains(tag));
        assert forall|i: int, a: int, b: int|
            0 <= i < w.sets.len() && 0 <= a < w.sets[i].tags.len() && 0 <= b < w.sets[i].tags.len() && a != b
                && w.sets[i].tags[a] != INVALID_TAG implies #[trigger] w.sets[i].tags[a] != #[trigger] w.sets[i].tags[b] by {
            if i == si {
                if a == way {
                    assert(s.tags[b] != tag);
                } else if b == way {
                    assert(s.tags[a] != tag);
                } else {
                    assert(v.sets[i].tags[a] != v.sets[i].tags[b]);
                }
            } else {
                assert(v.sets[i].tags[a] != v.sets[i].tags[b]);
            }
        }
    }
}

/// A cache just built holds no line, so no set holds a line twice.
pub proof fn lemma_nway_initial_distinct<const N: usize, L: Cache>(meta: CacheMeta, lower: L::V)
    ensures
        sets_distinct(NWayCache::<N, L>::initial(meta, lower)),
{
}

/// Accessing the line misses on set `si` while the first `asso_num` ways of that set
/// are all filled, so that the access evicts a line from it.
pub open spec fn evicts_in<LV>(u: NWayView<LV>, line_index: u64, si: int) -> bool {
    &&& u.set_of(line_index) == si
    &&& !u.holds(line_index)
    &&& !u.sets[si].tags.subrange(0, u.asso_num as int).contains(INVALID_TAG)
}

/// The number of accesses of a run of line accesses that evict from set `si`.
pub open spec fn evictions<const N: usize, L: Cache>(v: NWayView<L::V>, lines: Seq<u64>, si: int) -> nat
    decreases lines.len(),
{
    if lines.len() == 0 {
        0
    } else {
        match after_lines::<NWayCache<N, L>>(v, lines.drop_last()) {
            Some(u) => evictions::<N, L>(v, lines.drop_last(), si) + if evicts_in(u, lines.last(), si) {
                1nat
            } else {
                0nat
            },
            None => 0,
        }
    }
}

/// Under round robin replacement, an access that evicts from a set puts the line in
/// way `rr_counter % asso_num` of that set, leaves the other ways as they were, and
/// counts the eviction in that set's counter, which wraps; no other access changes a
/// counter.
pub proof fn lemma_nway_rr_step<const N: usize, L: Cache>(u: NWayView<L::V>, line_index: u64, w: NWayView<L::V>)
    requires
        u.inv(),
        u.rp == 0,
        NWayCache::<N, L>::step(u, line_index) == Some(w),
    ensures
        w.inv(),
        w.rp == 0,
        w.asso_num == u.asso_num,
        w.sets.len() == u.sets.len(),
        forall|si: int| 0 <= si < u.sets.len() ==> #[trigger] w.sets[si].rr_counter == if evicts_in(u, line_index, si) {
            u.sets[si].rr_counter.wrapping_add(1)
        } else {
            u.sets[si].rr_counter
        },
        evicts_in(u, line_index, u.set_of(line_index)) ==> w.sets[u.set_of(line_index)].tags
            == u.sets[u.set_of(line_index)].tags.update(
            (u.sets[u.set_of(line_index)].rr_counter % u.asso_num) as int,
            u.tag_of(line_index),
        ),
{
    lemma_nway_reaccess_hits::<N, L>(u, line_index, w);
    let si = u.set_of(line_index);
    lemma_and_le_mask(u.line_address(line_index) >> u.offset_bits, u.index_mask);
    if u.holds(line_index) {
        assert(w.sets == u.sets.update(si, w.sets[si]));
    } else {
        let s = u.sets[si];
        let s2 = set_miss(s, u.tag_of(line_index), u.asso_num, u.rp, u.ways).unwrap();
        assert(w.sets == u.sets.update(si, s2));
        if position(s.tags.subrange(0, u.asso_num as int), INVALID_TAG) is Some {
            lemma_position_found(s.tags.subrange(0, u.asso_num as int), INVALID_TAG);
        }
    }
}

/// Under round robin replacement, each set's counter after a run of line accesses is
/// its counter before plus the number of accesses of the run that evicted from it,
/// wrapping at the range of `usize`.
pub proof fn lemma_nway_rr_run<const N: usize, L: Cache>(v: NWayView<L::V>, lines: Seq<u64>, w: NWayView<L::V>)
    requires
        v.inv(),
        v.rp == 0,
        after_lines::<NWayCache<N, L>>(v, lines) == Some(w),
    ensures
        w.inv(),
        w.rp == 0,
        w.sets.len() == v.sets.len(),
        forall|si: int| 0 <= si < v.sets.len() ==> #[trigger] w.sets[si].rr_counter == (v.sets[si].rr_counter
            + evictions::<N, L>(v, lines, si)) % (usize::MAX as int + 1),
    decreases lines.len(),
{
    if lines.len() == 0 {
        assert forall|si: int| 0 <= si < v.sets.len() implies #[trigger] w.sets[si].rr_counter == (v.sets[si].rr_counter
            + evictions::<N, L>(v, lines, si)) % (usize::MAX as int + 1) by {
            vstd::arithmetic::div_mod::lemma_small_mod(v.sets[si].rr_counter as nat, (usize::MAX as int + 1) as nat);
        }
    } else {
        let rest = lines.drop_last();
        let u = after_lines::<NWayCache<N, L>>(v, rest).unwrap();
        lemma_nway_rr_run::<N, L>(v, rest, u);
        lemma_nway_rr_step::<N, L>(u, lines.last(), w);
        let m: int = usize::MAX as int + 1;
        assert forall|si: int| 0 <= si < v.sets.len() implies #[trigger] w.sets[si].rr_counter == (v.sets[si].rr_counter
            + evictions::<N, L>(v, lines, si)) % m by {
            let k = evictions::<N, L>(v, rest, si);
            let c = v.sets[si].rr_counter;
            assert(u.sets[si].rr_counter == (c + k) % m);
            if evicts_in(u, lines.last(), si) {
                assert(evictions::<N, L>(v, lines, si) == k + 1);
                lemma_add_mod_noop(c + k, 1, m);
                vstd::arithmetic::div_mod::lemma_small_mod(1, m as nat);
                assert(((c + k) % m + 1) % m == (c + k + 1) % m);
                if u.sets[si].rr_counter + 1 > usize::MAX {
                    assert(u.sets[si].rr_counter + 1 == m);
                    vstd::arithmetic::div_mod::lemma_mod_self_0(m);
                } else {
                    vstd::arithmetic::div_mod::lemma_small_mod((u.sets[si].rr_counter + 1) as nat, m as nat);
                }
            } else {
                assert(evictions::<N, L>(v, lines, si) == k);
            }
        }
    }
}

/// For the line with tag `tag` in set `si`: the number of accesses to it in a run of
/// line accesses since the last one that missed, that one included.
pub open spec fn uses_since_miss<const N: usize, L: Cache>(v: NWayView<L::V>, lines: Seq<u64>, si: int, tag: u64) -> nat
    decreases lines.len(),
{
    if lines.len() == 0 {
        0
    } else {
        match after_lines::<NWayCache<N, L>>(v, lines.drop_last()) {
            Some(u) => if u.set_of(lines.last()) == si && u.tag_of(lines.last()) == tag {
                if u.holds(lines.last()) {
                    uses_since_miss::<N, L>(v, lines.drop_last(), si, tag) + 1
                } else {
                    1
                }
            } else {
                uses_since_miss::<N, L>(v, lines.drop_last(), si, tag)
            },
            None => 0,
        }
    }
}

/// Under least frequently used replacement, starting with every set empty, the use
/// count of every way that holds a line, after a run of line accesses, is the number
/// of accesses to that line since it last missed, that miss included. An eviction
/// takes the way with the least such count, the lowest way on a tie.
pub proof fn lemma_nway_lfu_run<const N: usize, L: Cache>(v: NWayView<L::V>, lines: Seq<u64>, w: NWayView<L::V>)
    requires
        v.inv(),
        v.rp == 2,
        forall|si: int, i: int| 0 <= si < v.sets.len() && 0 <= i < v.sets[si].tags.len() ==> #[trigger] v.sets[si].tags[i] == INVALID_TAG,
        after_lines::<NWayCache<N, L>>(v, lines) == Some(w),
    ensures
        w.inv(),
        w.rp == 2,
        sets_distinct(w),
        w.sets.len() == v.sets.len(),
        w.offset_bits == v.offset_bits,
        w.index_bits == v.index_bits,
        w.index_mask == v.index_mask,
        forall|si: int, i: int|
            0 <= si < w.sets.len() && 0 <= i < w.sets[si].tags.len() && w.sets[si].tags[i] != INVALID_TAG
                ==> #[trigger] w.sets[si].frequencies[i] == uses_since_miss::<N, L>(v, lines, si, w.sets[si].tags[i]),
    decreases lines.len(),
{
    if lines.len() > 0 {
        let rest = lines.drop_last();
        let l = lines.last();
        let u = after_lines::<NWayCache<N, L>>(v, rest).unwrap();
        lemma_nway_lfu_run::<N, L>(v, rest, u);
        lemma_nway_reaccess_hits::<N, L>(u, l, w);
        lemma_nway_step_effect::<N, L>(u, l, w);
        let sl = u.set_of(l);
        let tl = u.tag_of(l);
        lemma_and_le_mask(u.line_address(l) >> u.offset_bits, u.index_mask);
        let s = u.sets[sl];
        assert(s.tags.len() == u.ways && s.frequencies.len() == u.ways);
        if u.holds(l) {
            let p = position(s.tags, tl).unwrap();
            lemma_position_found(s.tags, tl);
            assert(w.sets[sl].frequencies == s.frequencies.update(p, (s.frequencies[p] + 1) as u64));
            assert forall|si: int, i: int|
                0 <= si < w.sets.len() && 0 <= i < w.sets[si].tags.len() && w.sets[si].tags[i] != INVALID_TAG
                    implies #[trigger] w.sets[si].frequencies[i] == uses_since_miss::<N, L>(v, lines, si, w.sets[si].tags[i]) by {
                if si == sl && w.sets[si].tags[i] == tl && i != p {
                    assert(s.tags[i] != s.tags[p]);
                }
            }
        } else {
            let s2 = set_miss(s, tl, u.asso_num, u.rp, u.ways).unwrap();
            let q = lemma_set_miss_places(s, tl, u.asso_num, u.rp, u.ways);
            assert(w.sets[sl] == s2);
            assert forall|si: int, i: int|
                0 <= si < w.sets.len() && 0 <= i < w.sets[si].tags.len() && w.sets[si].tags[i] != INVALID_TAG
                    implies #[trigger] w.sets[si].frequencies[i] == uses_since_miss::<N, L>(v, lines, si, w.sets[si].tags[i]) by {
                if si == sl && i != q {
                    assert(w.sets[si].tags[i] == s.tags[i]);
                    assert(s.tags[i] != tl);
                }
                if si == sl && w.sets[si].tags[i] == tl && i != q {
                    assert(w.sets[si].tags[i] != w.sets[si].tags[q]);
                }
            }
        }
    }
}

/// For the line with tag `tag` in set `si`: the position in a run of line accesses of
/// the last access to it, or -1 where there is none.
pub open spec fn last_access<const N: usize, L: Cache>(v: NWayView<L::V>, lines: Seq<u64>, si: int, tag: u64) -> int
    decreases lines.len(),
{
    if lines.len() == 0 {
        -1
    } else {
        match after_lines::<NWayCache<N, L>>(v, lines.drop_last()) {
            Some(u) => if u.set_of(lines.last()) == si && u.tag_of(lines.last()) == tag {
                lines.len() - 1
            } else {
                last_access::<N, L>(v, lines.drop_last(), si, tag)
            },
            None => -1,
        }
    }
}

proof fn lemma_last_access_bound<const N: usize, L: Cache>(v: NWayView<L::V>, lines: Seq<u64>, si: int, tag: u64)
    ensures
        last_access::<N, L>(v, lines, si, tag) < lines.len(),
    decreases lines.len(),
{
    if lines.len() > 0 {
        lemma_last_access_bound::<N, L>(v, lines.drop_last(), si, tag);
    }
}

/// The tags of `s` come in strictly increasing order of `f`.
pub open spec fn sorted_by(f: spec_fn(u64) -> int, s: Seq<u64>) -> bool {
    forall|a: int, b: int| 0 <= a < b < s.len() ==> f(#[trigger] s[a]) < f(#[trigger] s[b])
}

/// Every tag of `s` has a value of `f` below `n`.
pub open spec fn below(f: spec_fn(u64) -> int, s: Seq<u64>, n: int) -> bool {
    forall|k: int| 0 <= k < s.len() ==> f(#[trigger] s[k]) < n
}

proof fn lemma_sorted_remove(f: spec_fn(u64) -> int, s: Seq<u64>, p: int, n: int)
    requires
        sorted_by(f, s),
        0 <= p < s.len(),
    ensures
        sorted_by(f, s.remove(p)),
        below(f, s, n) ==> below(f, s.remove(p), n),
{
    let r = s.remove(p);
    assert forall|a: int, b: int| 0 <= a < b < r.len() implies f(#[trigger] r[a]) < f(#[trigger] r[b]) by {
        let ia = if a < p { a } else { a + 1 };
        let ib = if b < p { b } else { b + 1 };
        assert(r[a] == s[ia] && r[b] == s[ib]);
    }
    if below(f, s, n) {
        assert forall|k: int| 0 <= k < r.len() implies f(#[trigger] r[k]) < n by {
            let i = if k < p { k } else { k + 1 };
            assert(r[k] == s[i]);
        }
    }
}

proof fn lemma_sorted_remove_first(f: spec_fn(u64) -> int, s: Seq<u64>, x: u64, n: int)
    requires
        sorted_by(f, s),
    ensures
        sorted_by(f, remove_first(s, x)),
        below(f, s, n) ==> below(f, remove_first(s, x), n),
{
    if s.contains(x) {
        lemma_position_found(s, x);
        lemma_sorted_remove(f, s, position(s, x).unwrap(), n);
    }
}

/// A least recently used access of a set in its consistent shape keeps its order sorted
/// by the time of each line's last access, where the accessed line's time becomes a
/// time later than every other.
proof fn lemma_lru_order_step(
    s: SetView,
    tag: u64,
    asso: usize,
    ways: usize,
    f_old: spec_fn(u64) -> int,
    f_new: spec_fn(u64) -> int,
    n: int,
)
    requires
        s.tags.len() == ways,
        s.frequencies.len() == ways,
        1 <= asso <= ways,
        asso < 255,
        tag != INVALID_TAG,
        lru_consistent(s, asso as int),
        sorted_by(f_old, s.order),
        forall|t: u64| t != tag ==> #[trigger] f_new(t) == f_old(t),
        f_new(tag) == n,
        forall|k: int| 0 <= k < s.order.len() ==> f_old(#[trigger] s.order[k]) < n,
    ensures
        s.tags.contains(tag) ==> sorted_by(f_new, set_hit(s, position(s.tags, tag).unwrap(), tag, 1, ways).unwrap().order),
        !s.tags.contains(tag) ==> sorted_by(f_new, set_miss(s, tag, asso, 1, ways).unwrap().order),
{
    lemma_lru_set_access(s, tag, asso, ways);
    let sub = s.tags.subrange(0, asso as int);
    // the order before the accessed tag is pushed at its back
    let x = if s.tags.contains(tag) {
        remove_first(s.order, tag)
    } else if position(sub, INVALID_TAG) is Some {
        s.order
    } else {
        remove_first(s.order.drop_first(), s.tags[set_victim(s, asso, 1).unwrap().0])
    };
    assert(below(f_old, s.order, n));
    if s.tags.contains(tag) {
        lemma_sorted_remove_first(f_old, s.order, tag, n);
    } else if position(sub, INVALID_TAG) is None {
        lemma_sorted_remove(f_old, s.order, 0, n);
        assert(s.order.drop_first() =~= s.order.remove(0));
        lemma_sorted_remove_first(f_old, s.order.drop_first(), s.tags[set_victim(s, asso, 1).unwrap().0], n);
    }
    let o2 = x.push(tag);
    assert(o2 == if s.tags.contains(tag) {
        set_hit(s, position(s.tags, tag).unwrap(), tag, 1, ways).unwrap().order
    } else {
        set_miss(s, tag, asso, 1, ways).unwrap().order
    });
    assert(sorted_by(f_old, x));
    assert(below(f_old, x, n));
    assert forall|a: int, b: int| 0 <= a < b < o2.len() implies f_new(#[trigger] o2[a]) < f_new(#[trigger] o2[b]) by {
        assert(o2[a] != tag) by {
            assert(o2.no_duplicates());
            assert(o2[o2.len() - 1] == tag);
        }
        if b < x.len() {
            assert(o2[b] != tag) by {
                assert(o2[o2.len() - 1] == tag);
            }
        }
    }
}

/// Under least recently used replacement, starting with every set in its consistent
/// shape with an empty order, and with no line of the run whose tag is the empty-way
/// marker: after a run of line accesses every set keeps its shape, and its order lists
/// its lines by the time of their last access, earliest first. An eviction takes the
/// line at the front of the order, the line of the set whose last access is the oldest.
pub proof fn lemma_nway_lru_run<const N: usize, L: Cache>(v: NWayView<L::V>, lines: Seq<u64>, w: NWayView<L::V>)
    requires
        v.inv(),
        v.rp == 1,
        1 <= v.asso_num <= v.ways,
        v.asso_num < 255,
        lru_sets(v),
        forall|si: int| 0 <= si < v.sets.len() ==> (#[trigger] v.sets[si]).order.len() == 0,
        forall|k: int| 0 <= k < lines.len() ==> v.tag_of(#[trigger] lines[k]) != INVALID_TAG,
        after_lines::<NWayCache<N, L>>(v, lines) == Some(w),
    ensures
        w.inv(),
        w.rp == 1,
        w.asso_num == v.asso_num,
        w.ways == v.ways,
        w.offset_bits == v.offset_bits,
        w.index_bits == v.index_bits,
        w.index_mask == v.index_mask,
        w.sets.len() == v.sets.len(),
        lru_sets(w),
        forall|si: int|
            0 <= si < w.sets.len() ==> sorted_by(|t: u64| last_access::<N, L>(v, lines, si, t), (#[trigger] w.sets[si]).order),
    decreases lines.len(),
{
    if lines.len() > 0 {
        let rest = lines.drop_last();
        let l = lines.last();
        let n = rest.len() as int;
        let u = after_lines::<NWayCache<N, L>>(v, rest).unwrap();
        assert forall|k: int| 0 <= k < rest.len() implies v.tag_of(#[trigger] rest[k]) != INVALID_TAG by {
            assert(rest[k] == lines[k]);
        }
        lemma_nway_lru_run::<N, L>(v, rest, u);
        assert(v.tag_of(lines[lines.len() - 1]) != INVALID_TAG);
        lemma_nway_reaccess_hits::<N, L>(u, l, w);
        let sl = u.set_of(l);
        let tl = u.tag_of(l);
        lemma_and_le_mask(u.line_address(l) >> u.offset_bits, u.index_mask);
        let s = u.sets[sl];
        assert(s.tags.len() == u.ways && s.frequencies.len() == u.ways);
        assert(lru_consistent(s, u.asso_num as int));
        let f_old = |t: u64| last_access::<N, L>(v, rest, sl, t);
        let f_new = |t: u64| last_access::<N, L>(v, lines, sl, t);
        assert forall|t: u64| t != tl implies #[trigger] f_new(t) == f_old(t) by {}
        assert(f_new(tl) == n);
        assert forall|k: int| 0 <= k < s.order.len() implies f_old(#[trigger] s.order[k]) < n by {
            lemma_last_access_bound::<N, L>(v, rest, sl, s.order[k]);
        }
        assert(sorted_by(f_old, s.order));
        lemma_lru_order_step(s, tl, u.asso_num, u.ways, f_old, f_new, n);
        lemma_lru_set_access(s, tl, u.asso_num, u.ways);
        assert(w.sets == u.sets.update(sl, w.sets[sl]));
        assert forall|i: int| 0 <= i < w.sets.len() implies lru_consistent(#[trigger] w.sets[i], w.asso_num as int) by {
            if i != sl {
                assert(w.sets[i] == u.sets[i]);
            }
        }
        assert forall|si: int| 0 <= si < w.sets.len() implies sorted_by(
            |t: u64| last_access::<N, L>(v, lines, si, t),
            (#[trigger] w.sets[si]).order,
        ) by {
            if si != sl {
                assert(w.sets[si] == u.sets[si]);
                let g_old = |t: u64| last_access::<N, L>(v, rest, si, t);
                let g_new = |t: u64| last_access::<N, L>(v, lines, si, t);
                assert(sorted_by(g_old, u.sets[si].order));
                assert forall|t: u64| #[trigger] g_new(t) == g_old(t) by {}
                assert(sorted_by(g_new, w.sets[si].order));
            } else {
                assert(sorted_by(f_new, w.sets[sl].order));
            }
        }
    }
}

/// Above main memory, over any run of line accesses, main memory receives one request
/// per miss and nothing else.
pub proof fn lemma_nway_memory_run<const N: usize>(v: NWayView<u64>, lines: Seq<u64>, w: NWayView<u64>)
    requires
        after_lines::<NWayCache<N, crate::cache::MainMemory>>(v, lines) == Some(w),
    ensures
        w.lower - v.lower == w.misses - v.misses,
    decreases lines.len(),
{
    if lines.len() > 0 {
        let u = after_lines::<NWayCache<N, crate::cache::MainMemory>>(v, lines.drop_last()).unwrap();
        lemma_nway_memory_run::<N>(v, lines.drop_last(), u);
        lemma_nway_memory_counts_misses::<N>(u, lines.last(), w);
    }
}

/// A set associative cache built for kind 1, 2 or 3 places lines in 2, 4 or 8 ways
/// of a set respectively, and has that many times fewer sets than the cache has lines:
/// `(size >> offset_bits) / ways` sets, every one of them empty.
pub proof fn lemma_nway_initial_ways<const N: usize, L: Cache>(meta: CacheMeta, lower: L::V)
    ensures
        meta.kind == 1 ==> NWayCache::<N, L>::initial(meta, lower).asso_num == 2
            && NWayCache::<N, L>::initial(meta, lower).sets.len() == (meta.size >> meta.line_size.trailing_zeros()) / 2,
        meta.kind == 2 ==> NWayCache::<N, L>::initial(meta, lower).asso_num == 4
            && NWayCache::<N, L>::initial(meta, lower).sets.len() == (meta.size >> meta.line_size.trailing_zeros()) / 4,
        meta.kind == 3 ==> NWayCache::<N, L>::initial(meta, lower).asso_num == 8
            && NWayCache::<N, L>::initial(meta, lower).sets.len() == (meta.size >> meta.line_size.trailing_zeros()) / 8,
        NWayCache::<N, L>::initial(meta, lower).ways == N,
        forall|i: int| 0 <= i < NWayCache::<N, L>::initial(meta, lower).sets.len()
            ==> #[trigger] NWayCache::<N, L>::initial(meta, lower).sets[i] == empty_set(N),
{
}

} // verus!
