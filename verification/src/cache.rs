use vstd::prelude::*;

verus! {

/// A level of a cache hierarchy: a cache or the main memory under the last cache.
///
/// Every level is a deterministic state machine over its view. `after_line` and
/// `after_access` give the view that follows one request, or `None` where the
/// request cannot be served (a 64-bit counter would overflow, or the level is
/// configured in a way that cannot serve it).
pub trait Cache: View + Sized {
    /// The concrete fields agree with the view.
    spec fn wf(&self) -> bool;

    /// The view after accessing the line with the given index.
    spec fn after_line(v: Self::V, line_index: u64) -> Option<Self::V>;

    /// The view after accessing `size` bytes from `address` on.
    spec fn after_access(v: Self::V, address: u64, size: u64) -> Option<Self::V>;

    /// The hit counts of this level and of every level below it, top first.
    spec fn hit_counts(v: Self::V) -> Seq<u64>;

    /// The miss counts of this level and of every level below it, top first.
    spec fn miss_counts(v: Self::V) -> Seq<u64>;

    /// The number of requests that reached main memory.
    spec fn memory_accesses(v: Self::V) -> u64;

    /// Accesses `size` bytes from `address` on.
    fn access(&mut self, address: u64, size: u64)
        requires
            old(self).wf(),
            Self::after_access(old(self)@, address, size) is Some,
        ensures
            final(self).wf(),
            final(self)@ == Self::after_access(old(self)@, address, size).unwrap(),
    ;

    /// Accesses the line with the given index.
    fn access_line(&mut self, line_index: u64)
        requires
            old(self).wf(),
            Self::after_line(old(self)@, line_index) is Some,
        ensures
            final(self).wf(),
            final(self)@ == Self::after_line(old(self)@, line_index).unwrap(),
    ;

    /// Accesses `size` bytes from `address` on where the level can serve the access,
    /// and says whether it could. Where it could not, the state it leaves is unstated.
    fn try_access(&mut self, address: u64, size: u64) -> (ok: bool)
        requires
            old(self).wf(),
        ensures
            ok == Self::after_access(old(self)@, address, size) is Some,
            ok ==> final(self).wf(),
            ok ==> final(self)@ == Self::after_access(old(self)@, address, size).unwrap(),
    ;

    /// Accesses the line with the given index where the level can serve the access,
    /// and says whether it could. Where it could not, the state it leaves is unstated.
    fn try_access_line(&mut self, line_index: u64) -> (ok: bool)
        requires
            old(self).wf(),
        ensures
            ok == Self::after_line(old(self)@, line_index) is Some,
            ok ==> final(self).wf(),
            ok ==> final(self)@ == Self::after_line(old(self)@, line_index).unwrap(),
    ;

    /// Appends the hit counts of this level and of every level below it, top first.
    fn get_hits(&self, hits_vec: Vec<u64>) -> (r: Vec<u64>)
        requires
            self.wf(),
        ensures
            r@ == hits_vec@ + Self::hit_counts(self@),
    ;

    /// Appends the miss counts of this level and of every level below it, top first.
    fn get_misses(&self, misses_vec: Vec<u64>) -> (r: Vec<u64>)
        requires
            self.wf(),
        ensures
            r@ == misses_vec@ + Self::miss_counts(self@),
    ;

    /// The number of requests that reached main memory.
    fn get_main_memory_accesses(&self) -> (r: u64)
        requires
            self.wf(),
        ensures
            r == Self::memory_accesses(self@),
    ;
}

/// The state of a level after the given line accesses, in order, or `None` where one
/// of them cannot be served.
pub open spec fn after_lines<C: Cache>(v: C::V, lines: Seq<u64>) -> Option<C::V>
    decreases lines.len(),
{
    if lines.len() == 0 {
        Some(v)
    } else {
        match after_lines::<C>(v, lines.drop_last()) {
            Some(u) => C::after_line(u, lines.last()),
            None => None,
        }
    }
}

/// The `count` consecutive line indices from `first` on.
pub open spec fn line_range(first: int, count: nat) -> Seq<u64> {
    Seq::new(count, |i: int| (first + i) as u64)
}

/// A run of line accesses is its first access followed by the run of the rest.
pub proof fn lemma_after_lines_cons<C: Cache>(v: C::V, x: u64, rest: Seq<u64>)
    ensures
        after_lines::<C>(v, seq![x] + rest) == match C::after_line(v, x) {
            Some(w) => after_lines::<C>(w, rest),
            None => None,
        },
    decreases rest.len(),
{
    let all = seq![x] + rest;
    if rest.len() == 0 {
        assert(all.drop_last() =~= Seq::<u64>::empty());
        assert(after_lines::<C>(v, all.drop_last()) == Some(v));
        assert(all.last() == x);
    } else {
        assert(all.drop_last() =~= seq![x] + rest.drop_last());
        assert(all.last() == rest.last());
        lemma_after_lines_cons::<C>(v, x, rest.drop_last());
    }
}

/// The marker stored in a tag slot that holds no line.
pub const INVALID_TAG: u64 = 0xffff_ffff_ffff_ffffu64;

/// The end of an access, `address + size`, is computed in 64 bits, and the last
/// byte, one below it, exists: the sum neither overflows nor is zero.
pub open spec fn access_in_range(address: u64, size: u64) -> bool {
    1 <= address + size <= u64::MAX
}

/// The index of the line that holds the first byte of an access.
pub open spec fn first_line(address: u64, offset_bits: u32) -> u64 {
    address >> offset_bits
}

/// The index of the line that holds the last byte of an access.
pub open spec fn last_line(address: u64, size: u64, offset_bits: u32) -> u64 {
    ((address + size - 1) as u64) >> offset_bits
}

/// An empty function that marks the unlikely branch.
#[inline]
pub fn cold() {
}

/// A branch hint: returns its argument unchanged.
#[inline]
pub fn likely(b: bool) -> (r: bool)
    ensures
        r == b,
{
    if !b {
        cold()
    }
    b
}

/// The bottom of every hierarchy: it counts the requests that reach it.
pub struct MainMemory {
    pub accesses: u64,
}

impl View for MainMemory {
    type V = u64;

    open spec fn view(&self) -> u64 {
        self.accesses
    }
}

impl MainMemory {
    /// Main memory that has served no request yet.
    pub fn new() -> (m: Self)
        ensures
            m@ == 0,
    {
        MainMemory { accesses: 0 }
    }
}

impl Cache for MainMemory {
    open spec fn wf(&self) -> bool {
        true
    }

    open spec fn after_line(v: u64, line_index: u64) -> Option<u64> {
        if v < u64::MAX { Some((v + 1) as u64) } else { None }
    }

    open spec fn after_access(v: u64, address: u64, size: u64) -> Option<u64> {
        if v < u64::MAX { Some((v + 1) as u64) } else { None }
    }

    open spec fn hit_counts(v: u64) -> Seq<u64> {
        Seq::empty()
    }

    open spec fn miss_counts(v: u64) -> Seq<u64> {
        Seq::empty()
    }

    open spec fn memory_accesses(v: u64) -> u64 {
        v
    }

    fn access(&mut self, address: u64, size: u64) {
        self.accesses += 1;
    }

    fn access_line(&mut self, line_index: u64) {
        self.accesses += 1;
    }

    fn try_access(&mut self, address: u64, size: u64) -> (ok: bool) {
        if self.accesses < u64::MAX {
            self.accesses += 1;
            true
        } else {
            false
        }
    }

    fn try_access_line(&mut self, line_index: u64) -> (ok: bool) {
        if self.accesses < u64::MAX {
            self.accesses += 1;
            true
        } else {
            false
        }
    }

    fn get_hits(&self, hits_vec: Vec<u64>) -> (r: Vec<u64>) {
        hits_vec
    }

    fn get_misses(&self, misses_vec: Vec<u64>) -> (r: Vec<u64>) {
        misses_vec
    }

    fn get_main_memory_accesses(&self) -> (r: u64) {
        self.accesses
    }
}

} // verus!

verus! {

/// A boxed level behaves as the level in the box.
impl<C: Cache> Cache for Box<C> {
    open spec fn wf(&self) -> bool {
        (**self).wf()
    }

    open spec fn after_line(v: C::V, line_index: u64) -> Option<C::V> {
        C::after_line(v, line_index)
    }

    open spec fn after_access(v: C::V, address: u64, size: u64) -> Option<C::V> {
        C::after_access(v, address, size)
    }

    open spec fn hit_counts(v: C::V) -> Seq<u64> {
        C::hit_counts(v)
    }

    open spec fn miss_counts(v: C::V) -> Seq<u64> {
        C::miss_counts(v)
    }

    open spec fn memory_accesses(v: C::V) -> u64 {
        C::memory_accesses(v)
    }

    fn access(&mut self, address: u64, size: u64) {
        (**self).access(address, size);
    }

    fn access_line(&mut self, line_index: u64) {
        (**self).access_line(line_index);
    }

    fn try_access(&mut self, address: u64, size: u64) -> (ok: bool) {
        (**self).try_access(address, size)
    }

    fn try_access_line(&mut self, line_index: u64) -> (ok: bool) {
        (**self).try_access_line(line_index)
    }

    fn get_hits(&self, hits_vec: Vec<u64>) -> (r: Vec<u64>) {
        (**self).get_hits(hits_vec)
    }

    fn get_misses(&self, misses_vec: Vec<u64>) -> (r: Vec<u64>) {
        (**self).get_misses(misses_vec)
    }

    fn get_main_memory_accesses(&self) -> (r: u64) {
        (**self).get_main_memory_accesses()
    }
}

} // verus!
