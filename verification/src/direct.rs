use vstd::prelude::*;
use crate::cache::{Cache, INVALID_TAG, access_in_range, after_lines, first_line, last_line, lemma_after_lines_cons, likely, line_range};
use crate::cachemeta::CacheMeta;
use crate::bits::{lemma_and_le_mask, lemma_low_high_determine, lemma_low_mask_is_mod, lemma_low_mask_lt, lemma_pow2_trailing_zeros, lemma_trailing_zeros_facts};

verus! {

/// The state of a direct-mapped cache, with `LV` the state of the level below it.
pub struct DirectView<LV> {
    /// The tag stored in each line slot, `INVALID_TAG` where the slot is empty.
    pub tags: Seq<u64>,
    pub index_mask: u64,
    pub line_size: u64,
    pub offset_bits: u32,
    pub index_bits: u32,
    pub hits: u64,
    pub misses: u64,
    pub lower: LV,
}

impl<LV> DirectView<LV> {
    /// The same state above another level below.
    pub open spec fn rebase<LW>(self, lower: LW) -> DirectView<LW> {
        DirectView {
            tags: self.tags,
            index_mask: self.index_mask,
            line_size: self.line_size,
            offset_bits: self.offset_bits,
            index_bits: self.index_bits,
            hits: self.hits,
            misses: self.misses,
            lower,
        }
    }

    /// The slot that a line maps to.
    pub open spec fn slot(self, line_index: u64) -> int {
        (line_index & self.index_mask) as int
    }

    /// The tag that identifies a line within its slot.
    pub open spec fn tag(self, line_index: u64) -> u64 {
        line_index >> self.index_bits
    }

    /// The line is resident.
    pub open spec fn holds(self, line_index: u64) -> bool {
        self.tags[self.slot(line_index)] == self.tag(line_index)
    }

    /// The shape every reachable state has.
    pub open spec fn inv(self) -> bool {
        &&& self.index_mask < self.tags.len() <= usize::MAX
        &&& self.offset_bits < 64
        &&& self.index_bits < 64
    }
}

/// A direct-mapped cache: every line maps to exactly one slot, chosen by the low
/// bits of its index; a miss overwrites that slot and fetches the line from `lower`.
pub struct DirectCache<L: Cache> {
    tags: Vec<u64>,
    index_mask: u64,
    line_size: u64,
    offset_bits: u32,
    index_bits: u32,
    hits: u64,
    misses: u64,
    lower: L,
}

impl<L: Cache> View for DirectCache<L> {
    type V = DirectView<L::V>;

    closed spec fn view(&self) -> DirectView<L::V> {
        DirectView {
            tags: self.tags@,
            index_mask: self.index_mask,
            line_size: self.line_size,
            offset_bits: self.offset_bits,
            index_bits: self.index_bits,
            hits: self.hits,
            misses: self.misses,
            lower: self.lower@,
        }
    }
}

impl<L: Cache> DirectCache<L> {
    /// A well-formed cache has a state of the reachable shape.
    pub proof fn lemma_wf_inv(&self)
        requires
            self.wf(),
        ensures
            self@.inv(),
    {
    }

    /// Hands out the level below, leaving `replacement` in its place.
    pub fn take_lower(&mut self, replacement: L) -> (r: L)
        requires
            old(self).wf(),
            replacement.wf(),
        ensures
            final(self).wf(),
            r.wf(),
            r@ == old(self)@.lower,
            final(self)@ == (DirectView { lower: replacement@, ..old(self)@ }),
    {
        let mut r = replacement;
        core::mem::swap(&mut self.lower, &mut r);
        r
    }

    /// One line access: a hit when the line's slot holds its tag; otherwise the slot
    /// takes the tag and the whole line is fetched from the level below, as an access
    /// of `line_size` bytes from the line's first byte.
    pub open spec fn step(v: DirectView<L::V>, line_index: u64) -> Option<DirectView<L::V>> {
        if v.holds(line_index) {
            if v.hits < u64::MAX {
                Some(DirectView { hits: (v.hits + 1) as u64, ..v })
            } else {
                None
            }
        } else if v.misses < u64::MAX {
            match L::after_access(v.lower, line_index << v.offset_bits, v.line_size) {
                Some(lower) => Some(DirectView {
                    tags: v.tags.update(v.slot(line_index), v.tag(line_index)),
                    misses: (v.misses + 1) as u64,
                    lower,
                    ..v
                }),
                None => None,
            }
        } else {
            None
        }
    }

    /// `count` line accesses, from line `line` upwards.
    pub open spec fn steps(v: DirectView<L::V>, line: int, count: nat) -> Option<DirectView<L::V>>
        decreases count,
    {
        if count == 0 {
            Some(v)
        } else {
            match Self::step(v, line as u64) {
                Some(w) => Self::steps(w, line + 1, (count - 1) as nat),
                None => None,
            }
        }
    }

    /// An access of `size` bytes from `address` on: each line that holds one of the
    /// bytes is accessed once, in ascending order.
    pub open spec fn span(v: DirectView<L::V>, address: u64, size: u64) -> Option<DirectView<L::V>> {
        if !access_in_range(address, size) {
            None
        } else {
            let first = first_line(address, v.offset_bits);
            let last = last_line(address, size, v.offset_bits);
            if first <= last {
                Self::steps(v, first as int, (last - first + 1) as nat)
            } else {
                Some(v)
            }
        }
    }

    /// The state of a cache just built from `meta` above a level in state `lower`: every
    /// slot empty, no hits or misses counted.
    pub open spec fn initial(meta: CacheMeta, lower: L::V) -> DirectView<L::V> {
        let ob = meta.line_size.trailing_zeros();
        let num_lines = meta.size >> ob;
        let ib = num_lines.trailing_zeros();
        DirectView {
            tags: Seq::new(num_lines as nat, |i: int| INVALID_TAG),
            index_mask: ((1u64 << ib) - 1) as u64,
            line_size: meta.line_size,
            offset_bits: ob,
            index_bits: ib,
            hits: 0,
            misses: 0,
            lower,
        }
    }

    /// Builds an empty cache of `meta.size` bytes in lines of `meta.line_size` bytes
    /// above `lower`. Line boundaries fall at multiples of the largest power of two
    /// that divides the line size; the number of slots is the cache size shifted by
    /// that many bits, and lines are mapped to slots by the low bits of their index.
    pub fn new(meta: &CacheMeta, lower: L) -> (c: Self)
        requires
            lower.wf(),
            meta.line_size > 0,
            meta.size >> meta.line_size.trailing_zeros() >= 1,
            meta.size >> meta.line_size.trailing_zeros() <= usize::MAX,
        ensures
            c.wf(),
            c@ == Self::initial(*meta, lower@),
    {
        // Calculate bits for offset, index, and tag
        let offset_bits = meta.line_size.trailing_zeros();
        proof {
            lemma_trailing_zeros_facts(meta.line_size);
        }
        // Calculate no of cache lines
        let num_lines = meta.size >> offset_bits;
        let line_size = meta.line_size;
        let index_bits = num_lines.trailing_zeros();
        proof {
            lemma_trailing_zeros_facts(num_lines);
            lemma_low_mask_lt(num_lines, index_bits);
        }
        // Mask used to extract index from line address
        let index_mask = (1u64 << index_bits) - 1;
        // Initialise cache with empty lines
        let tags = vec![INVALID_TAG; num_lines as usize];
        let c = DirectCache {
            tags,
            index_mask,
            line_size,
            offset_bits,
            index_bits,
            hits: 0,
            misses: 0,
            lower,
        };
        assert(c@.tags =~= Self::initial(*meta, c@.lower).tags);
        c
    }
}

impl<L: Cache> Cache for DirectCache<L> {
    closed spec fn wf(&self) -> bool {
        &&& self@.inv()
        &&& self.lower.wf()
    }

    open spec fn after_line(v: DirectView<L::V>, line_index: u64) -> Option<DirectView<L::V>> {
        Self::step(v, line_index)
    }

    open spec fn after_access(v: DirectView<L::V>, address: u64, size: u64) -> Option<DirectView<L::V>> {
        Self::span(v, address, size)
    }

    open spec fn hit_counts(v: DirectView<L::V>) -> Seq<u64> {
        seq![v.hits] + L::hit_counts(v.lower)
    }

    open spec fn miss_counts(v: DirectView<L::V>) -> Seq<u64> {
        seq![v.misses] + L::miss_counts(v.lower)
    }

    open spec fn memory_accesses(v: DirectView<L::V>) -> u64 {
        L::memory_accesses(v.lower)
    }

    fn access(&mut self, address: u64, size: u64) {
        // the lines that hold the first and the last byte
        let start_line = address >> self.offset_bits;
        let end_line = (address + size - 1) >> self.offset_bits;
        if likely(start_line == end_line) {
            self.access_line(start_line);
            assert(Self::steps(self@, start_line + 1, 0) == Some(self@));
        } else if start_line < end_line {
            let ghost goal = Self::steps(self@, start_line as int, (end_line - start_line + 1) as nat);
            let mut line_index = start_line;
            loop
                invariant_except_break
                    start_line <= line_index <= end_line,
                    self.wf(),
                    Self::steps(self@, line_index as int, (end_line - line_index + 1) as nat) == goal,
                    goal is Some,
                ensures
                    self.wf(),
                    self@ == goal.unwrap(),
                decreases end_line - line_index,
            {
                self.access_line(line_index);
                if line_index == end_line {
                    assert(Self::steps(self@, line_index + 1, 0) == Some(self@));
                    break;
                }
                line_index = line_index + 1;
            }
        }
    }

    fn access_line(&mut self, line_index: u64) {
        proof {
            lemma_and_le_mask(line_index, self.index_mask);
        }
        let index = (line_index & self.index_mask) as usize;
        let tag = line_index >> self.index_bits;
        // check for hit
        let stored_tag = self.tags[index];
        assert(self@.slot(line_index) == index as int);
        assert(self@.holds(line_index) == (stored_tag == tag));
        if likely(stored_tag == tag) {
            self.hits += 1;
        } else {
            // a miss overwrites the slot: only reads are simulated, so nothing is written back
            self.tags.set(index, tag);
            self.misses += 1;
            // fetch the entire line from the level below, from the line's first byte
            self.lower.access(line_index << self.offset_bits, self.line_size);
        }
    }

    fn try_access(&mut self, address: u64, size: u64) -> (ok: bool) {
        let ghost goal = Self::span(self@, address, size);
        let end = match address.checked_add(size) {
            Some(e) => e,
            None => return false,
        };
        if end == 0 {
            return false;
        }
        assert(access_in_range(address, size) && end == address + size);
        // the lines that hold the first and the last byte
        let start_line = address >> self.offset_bits;
        let end_line = (end - 1) >> self.offset_bits;
        if start_line > end_line {
            return true;
        }
        assert(goal == Self::steps(self@, start_line as int, (end_line - start_line + 1) as nat));
        let mut line_index = start_line;
        loop
            invariant
                start_line <= line_index <= end_line,
                self.wf(),
                goal == Self::after_access(old(self)@, address, size),
                Self::steps(self@, line_index as int, (end_line - line_index + 1) as nat) == goal,
            decreases end_line - line_index,
        {
            if !self.try_access_line(line_index) {
                return false;
            }
            if line_index == end_line {
                assert(Self::steps(self@, line_index + 1, 0) == Some(self@));
                return true;
            }
            line_index = line_index + 1;
        }
    }

    fn try_access_line(&mut self, line_index: u64) -> (ok: bool) {
        proof {
            lemma_and_le_mask(line_index, self.index_mask);
        }
        let index = (line_index & self.index_mask) as usize;
        let tag = line_index >> self.index_bits;
        let stored_tag = self.tags[index];
        assert(self@.slot(line_index) == index as int);
        assert(self@.holds(line_index) == (stored_tag == tag));
        if stored_tag == tag {
            if self.hits == u64::MAX {
                return false;
            }
            self.hits += 1;
        } else {
            if self.misses == u64::MAX {
                return false;
            }
            // the level below serves the whole line first; the slot changes only then
            if !self.lower.try_access(line_index << self.offset_bits, self.line_size) {
                return false;
            }
            self.tags.set(index, tag);
            self.misses += 1;
        }
        true
    }

    fn get_hits(&self, hits_vec: Vec<u64>) -> (r: Vec<u64>) {
        let ghost given = hits_vec@;
        let mut hits_vec = hits_vec;
        hits_vec.push(self.hits);
        let r = self.lower.get_hits(hits_vec);
        assert(r@ =~= given + (seq![self.hits] + L::hit_counts(self.lower@)));
        r
    }

    fn get_misses(&self, misses_vec: Vec<u64>) -> (r: Vec<u64>) {
        let ghost given = misses_vec@;
        let mut misses_vec = misses_vec;
        misses_vec.push(self.misses);
        let r = self.lower.get_misses(misses_vec);
        assert(r@ =~= given + (seq![self.misses] + L::miss_counts(self.lower@)));
        r
    }

    fn get_main_memory_accesses(&self) -> (r: u64) {
        self.lower.get_main_memory_accesses()
    }
}

/// A direct-mapped access leaves the line resident, so that accessing it again at once
/// is a hit that counts one hit and sends nothing below.
pub proof fn lemma_direct_reaccess_hits<L: Cache>(v: DirectView<L::V>, line_index: u64, w: DirectView<L::V>)
    requires
        v.inv(),
        DirectCache::<L>::step(v, line_index) == Some(w),
    ensures
        w.inv(),
        w.holds(line_index),
        DirectCache::<L>::step(w, line_index) matches Some(u) ==> {
            &&& u.hits == w.hits + 1
            &&& u.misses == w.misses
            &&& u.lower == w.lower
            &&& u.tags == w.tags
        },
{
    lemma_and_le_mask(line_index, v.index_mask);
}

/// Every line access counts exactly one hit or one miss, a hit exactly when the line
/// was resident; a hit sends nothing below, and a miss sends the whole line below as
/// one access.
pub proof fn lemma_direct_counts<L: Cache>(v: DirectView<L::V>, line_index: u64, w: DirectView<L::V>)
    requires
        DirectCache::<L>::step(v, line_index) == Some(w),
    ensures
        w.hits == v.hits + 1 <==> v.holds(line_index),
        w.misses == v.misses + 1 <==> !v.holds(line_index),
        w.hits + w.misses == v.hits + v.misses + 1,
        w.hits == v.hits + 1 ==> w.lower == v.lower,
        w.misses == v.misses + 1 ==> Some(w.lower) == L::after_access(v.lower, line_index << v.offset_bits, v.line_size),
{
}

/// An access changes the residency of no line outside the accessed line's slot, and
/// evicts the line that held that slot before.
pub proof fn lemma_direct_only_slot_changes<L: Cache>(
    v: DirectView<L::V>,
    line_index: u64,
    w: DirectView<L::V>,
    other: u64,
)
    requires
        v.inv(),
        DirectCache::<L>::step(v, line_index) == Some(w),
    ensures
        v.slot(other) != v.slot(line_index) ==> (w.holds(other) == v.holds(other)),
        v.slot(other) == v.slot(line_index) && v.tag(other) != v.tag(line_index) ==> !w.holds(other),
{
    lemma_and_le_mask(line_index, v.index_mask);
    lemma_and_le_mask(other, v.index_mask);
}

/// Above main memory, main memory receives one request per miss and nothing else.
pub proof fn lemma_direct_memory_counts_misses(
    v: DirectView<u64>,
    line_index: u64,
    w: DirectView<u64>,
)
    requires
        DirectCache::<crate::cache::MainMemory>::step(v, line_index) == Some(w),
    ensures
        w.lower - v.lower == w.misses - v.misses,
{
}

/// The last of `lines` that maps to slot `s`, if any.
pub open spec fn last_in_slot<LV>(v: DirectView<LV>, lines: Seq<u64>, s: int) -> Option<u64>
    decreases lines.len(),
{
    if lines.len() == 0 {
        None
    } else if v.slot(lines.last()) == s {
        Some(lines.last())
    } else {
        last_in_slot(v, lines.drop_last(), s)
    }
}

/// After a run of line accesses every slot holds the tag of the last line that mapped
/// to it, or what it held before where no line did.
proof fn lemma_direct_run_tags<L: Cache>(v: DirectView<L::V>, lines: Seq<u64>, w: DirectView<L::V>)
    requires
        v.inv(),
        after_lines::<DirectCache<L>>(v, lines) == Some(w),
    ensures
        w.inv(),
        w.index_mask == v.index_mask,
        w.index_bits == v.index_bits,
        w.tags.len() == v.tags.len(),
        forall|s: int| 0 <= s < v.tags.len() ==> #[trigger] w.tags[s] == match last_in_slot(v, lines, s) {
            Some(x) => v.tag(x),
            None => v.tags[s],
        },
    decreases lines.len(),
{
    if lines.len() > 0 {
        let l = lines.last();
        let u = after_lines::<DirectCache<L>>(v, lines.drop_last()).unwrap();
        lemma_direct_run_tags::<L>(v, lines.drop_last(), u);
        lemma_and_le_mask(l, u.index_mask);
        assert(w.tags =~= u.tags.update(u.slot(l), u.tag(l)));
    }
}

/// Starting with every slot empty, a line is resident after a run of line accesses
/// exactly when it is the last line of the run that mapped to its slot; so accessing
/// it next is a hit exactly then, and a miss otherwise.
pub proof fn lemma_direct_hit_history<L: Cache>(
    v: DirectView<L::V>,
    lines: Seq<u64>,
    w: DirectView<L::V>,
    line_index: u64,
)
    requires
        v.inv(),
        v.index_mask == ((1u64 << v.index_bits) - 1) as u64,
        forall|s: int| 0 <= s < v.tags.len() ==> #[trigger] v.tags[s] == INVALID_TAG,
        after_lines::<DirectCache<L>>(v, lines) == Some(w),
        v.tag(line_index) != INVALID_TAG,
    ensures
        w.holds(line_index) <==> last_in_slot(v, lines, v.slot(line_index)) == Some(line_index),
        DirectCache::<L>::step(w, line_index) matches Some(u) ==> {
            &&& u.hits == w.hits + 1 <==> last_in_slot(v, lines, v.slot(line_index)) == Some(line_index)
            &&& u.misses == w.misses + 1 <==> last_in_slot(v, lines, v.slot(line_index)) != Some(line_index)
        },
{
    lemma_direct_run_tags::<L>(v, lines, w);
    let s = v.slot(line_index);
    lemma_and_le_mask(line_index, v.index_mask);
    match last_in_slot(v, lines, s) {
        Some(x) => {
            lemma_last_in_slot_maps(v, lines, s);
            if v.tag(x) == v.tag(line_index) {
                lemma_low_high_determine(x, line_index, v.index_bits);
            }
        },
        None => {},
    }
}

/// The line that `last_in_slot` finds maps to that slot.
proof fn lemma_last_in_slot_maps<LV>(v: DirectView<LV>, lines: Seq<u64>, s: int)
    ensures
        last_in_slot(v, lines, s) matches Some(x) ==> v.slot(x) == s,
    decreases lines.len(),
{
    if lines.len() > 0 {
        lemma_last_in_slot_maps(v, lines.drop_last(), s);
    }
}

/// The `count` line accesses from line `line` on form a run over those lines.
proof fn lemma_direct_steps_are_lines<L: Cache>(v: DirectView<L::V>, line: int, count: nat)
    ensures
        DirectCache::<L>::steps(v, line, count) == after_lines::<DirectCache::<L>>(v, line_range(line, count)),
    decreases count,
{
    if count > 0 {
        assert(line_range(line, count) =~= seq![line as u64] + line_range(line + 1, (count - 1) as nat));
        lemma_after_lines_cons::<DirectCache::<L>>(v, line as u64, line_range(line + 1, (count - 1) as nat));
        match DirectCache::<L>::step(v, line as u64) {
            Some(w) => lemma_direct_steps_are_lines::<L>(w, line + 1, (count - 1) as nat),
            None => {},
        }
    } else {
        assert(line_range(line, count) =~= Seq::<u64>::empty());
    }
}

/// An access of `size` bytes from `address` on is exactly the accesses of the lines
/// from the one that holds its first byte to the one that holds its last, one each,
/// in ascending order.
pub proof fn lemma_direct_access_is_lines<L: Cache>(v: DirectView<L::V>, address: u64, size: u64)
    requires
        access_in_range(address, size),
    ensures
        DirectCache::<L>::after_access(v, address, size) == after_lines::<DirectCache::<L>>(
            v,
            line_range(
                first_line(address, v.offset_bits) as int,
                if first_line(address, v.offset_bits) <= last_line(address, size, v.offset_bits) {
                    (last_line(address, size, v.offset_bits) - first_line(address, v.offset_bits) + 1) as nat
                } else {
                    0
                },
            ),
        ),
{
    let first = first_line(address, v.offset_bits);
    let last = last_line(address, size, v.offset_bits);
    if first <= last {
        lemma_direct_steps_are_lines::<L>(v, first as int, (last - first + 1) as nat);
    } else {
        assert(line_range(first as int, 0) =~= Seq::<u64>::empty());
    }
}

/// Above main memory, over any run of line accesses, main memory receives one request
/// per miss and nothing else.
pub proof fn lemma_direct_memory_run(v: DirectView<u64>, lines: Seq<u64>, w: DirectView<u64>)
    requires
        after_lines::<DirectCache<crate::cache::MainMemory>>(v, lines) == Some(w),
    ensures
        w.lower - v.lower == w.misses - v.misses,
    decreases lines.len(),
{
    if lines.len() > 0 {
        let u = after_lines::<DirectCache<crate::cache::MainMemory>>(v, lines.drop_last()).unwrap();
        lemma_direct_memory_run(v, lines.drop_last(), u);
        lemma_direct_memory_counts_misses(u, lines.last(), w);
    }
}

/// A direct-mapped cache built with a power-of-two number of slots `n` has `n` slots
/// and maps line `line` to slot `line % n`: lines `0..n` take all `n` slots, one each.
pub proof fn lemma_direct_initial_slots<L: Cache>(meta: CacheMeta, lower: L::V, k: u32, line: u64)
    requires
        meta.line_size > 0,
        k < 64,
        meta.size >> meta.line_size.trailing_zeros() == 1u64 << k,
    ensures
        DirectCache::<L>::initial(meta, lower).tags.len() == 1u64 << k,
        DirectCache::<L>::initial(meta, lower).slot(line) == line % (1u64 << k),
{
    lemma_pow2_trailing_zeros(k);
    lemma_low_mask_is_mod(line, k);
}

} // verus!
