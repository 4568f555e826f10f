use vstd::prelude::*;
use crate::cache::{Cache, MainMemory};
use crate::cachemeta::CacheMeta;
use crate::direct::{DirectCache, DirectView};
use crate::fullassoc::{FullAssocCache, FullAssocView};
use crate::n_way::{NWayCache, NWayView, associativity};

verus! {

/// The configuration describes a level that can be built: a known kind, a line size
/// above zero, and at least one line (for set associative caches, one set) that the
/// machine can index.
pub open spec fn buildable(meta: &CacheMeta) -> bool {
    let ob = meta.line_size.trailing_zeros();
    &&& meta.line_size > 0
    &&& meta.kind <= 4
    &&& meta.kind == 0 ==> 1 <= meta.size >> ob <= usize::MAX
    &&& 1 <= meta.kind <= 3 ==> {
        &&& meta.size >> ob <= usize::MAX
        &&& (meta.size >> ob) / (associativity(meta.kind) as u64) >= 1
    }
    &&& meta.kind == 4 ==> meta.size / meta.line_size < usize::MAX
}

/// A level of kind 0 is direct-mapped, of kind 1, 2 or 3 set associative with 2, 4 or
/// 8 ways, placing lines in all of them, and of kind 4 fully associative. A set
/// associative configuration can be built exactly when its line size is above zero and
/// the cache holds at least one set of that many lines, with a line count the machine
/// can index.
pub proof fn lemma_kind_shapes<L: Cache>(meta: CacheMeta, lower: L::V)
    ensures
        meta.kind == 0 ==> AnyCache::<L>::initial(meta, lower) is Direct,
        meta.kind == 1 ==> (AnyCache::<L>::initial(meta, lower) matches AnyView::TwoWay(n) && n.ways == 2
            && n.asso_num == 2),
        meta.kind == 2 ==> (AnyCache::<L>::initial(meta, lower) matches AnyView::FourWay(n) && n.ways == 4
            && n.asso_num == 4),
        meta.kind == 3 ==> (AnyCache::<L>::initial(meta, lower) matches AnyView::EightWay(n) && n.ways == 8
            && n.asso_num == 8),
        meta.kind == 4 ==> AnyCache::<L>::initial(meta, lower) is FullAssoc,
        meta.kind == 1 ==> (buildable(&meta) <==> meta.line_size > 0 && meta.size >> meta.line_size.trailing_zeros()
            <= usize::MAX && (meta.size >> meta.line_size.trailing_zeros()) / 2 >= 1),
        meta.kind == 2 ==> (buildable(&meta) <==> meta.line_size > 0 && meta.size >> meta.line_size.trailing_zeros()
            <= usize::MAX && (meta.size >> meta.line_size.trailing_zeros()) / 4 >= 1),
        meta.kind == 3 ==> (buildable(&meta) <==> meta.line_size > 0 && meta.size >> meta.line_size.trailing_zeros()
            <= usize::MAX && (meta.size >> meta.line_size.trailing_zeros()) / 8 >= 1),
{
}

/// Whether a level can be built from this configuration.
pub fn is_buildable(meta: &CacheMeta) -> (r: bool)
    ensures
        r == buildable(meta),
{
    if meta.line_size == 0 || meta.kind > 4 {
        return false;
    }
    let ob = meta.line_size.trailing_zeros();
    let lines = meta.size >> ob;
    if meta.kind == 0 {
        1 <= lines && lines <= usize::MAX as u64
    } else if meta.kind <= 3 {
        let asso: u64 = if meta.kind == 1 {
            2
        } else if meta.kind == 2 {
            4
        } else {
            8
        };
        lines <= usize::MAX as u64 && lines / asso >= 1
    } else {
        meta.size / meta.line_size < usize::MAX as u64
    }
}

/// The state of a level of any kind.
pub enum AnyView<LV> {
    Direct(DirectView<LV>),
    TwoWay(NWayView<LV>),
    FourWay(NWayView<LV>),
    EightWay(NWayView<LV>),
    FullAssoc(FullAssocView<LV>),
}

/// A cache level of any kind, chosen when it is built from its configuration.
pub enum AnyCache<L: Cache> {
    Direct(DirectCache<L>),
    TwoWay(NWayCache<2, L>),
    FourWay(NWayCache<4, L>),
    EightWay(NWayCache<8, L>),
    FullAssoc(FullAssocCache<L>),
}

impl<L: Cache> View for AnyCache<L> {
    type V = AnyView<L::V>;

    open spec fn view(&self) -> AnyView<L::V> {
        match self {
            AnyCache::Direct(c) => AnyView::Direct(c@),
            AnyCache::TwoWay(c) => AnyView::TwoWay(c@),
            AnyCache::FourWay(c) => AnyView::FourWay(c@),
            AnyCache::EightWay(c) => AnyView::EightWay(c@),
            AnyCache::FullAssoc(c) => AnyView::FullAssoc(c@),
        }
    }
}

impl<LV> AnyView<LV> {
    /// The same state above another level below.
    pub open spec fn rebase<LW>(self, lower: LW) -> AnyView<LW> {
        match self {
            AnyView::Direct(v) => AnyView::Direct(v.rebase(lower)),
            AnyView::TwoWay(v) => AnyView::TwoWay(v.rebase(lower)),
            AnyView::FourWay(v) => AnyView::FourWay(v.rebase(lower)),
            AnyView::EightWay(v) => AnyView::EightWay(v.rebase(lower)),
            AnyView::FullAssoc(v) => AnyView::FullAssoc(v.rebase(lower)),
        }
    }

    /// The state of the level below.
    pub open spec fn lower(self) -> LV {
        match self {
            AnyView::Direct(v) => v.lower,
            AnyView::TwoWay(v) => v.lower,
            AnyView::FourWay(v) => v.lower,
            AnyView::EightWay(v) => v.lower,
            AnyView::FullAssoc(v) => v.lower,
        }
    }

    /// The same state above another level below.
    pub open spec fn with_lower(self, lower: LV) -> AnyView<LV> {
        match self {
            AnyView::Direct(v) => AnyView::Direct(DirectView { lower, ..v }),
            AnyView::TwoWay(v) => AnyView::TwoWay(NWayView { lower, ..v }),
            AnyView::FourWay(v) => AnyView::FourWay(NWayView { lower, ..v }),
            AnyView::EightWay(v) => AnyView::EightWay(NWayView { lower, ..v }),
            AnyView::FullAssoc(v) => AnyView::FullAssoc(FullAssocView { lower, ..v }),
        }
    }
}

impl<L: Cache> AnyCache<L> {
    /// The state of a level just built from `meta` above a level in state `lower`.
    pub open spec fn initial(meta: CacheMeta, lower: L::V) -> AnyView<L::V> {
        if meta.kind == 0 {
            AnyView::Direct(DirectCache::<L>::initial(meta, lower))
        } else if meta.kind == 1 {
            AnyView::TwoWay(NWayCache::<2, L>::initial(meta, lower))
        } else if meta.kind == 2 {
            AnyView::FourWay(NWayCache::<4, L>::initial(meta, lower))
        } else if meta.kind == 3 {
            AnyView::EightWay(NWayCache::<8, L>::initial(meta, lower))
        } else {
            AnyView::FullAssoc(FullAssocCache::<L>::initial(meta, lower))
        }
    }

    /// Builds an empty level of the kind the configuration names, above `lower`:
    /// direct-mapped (kind 0), 2-, 4- or 8-way set associative (kinds 1 to 3), or fully
    /// associative (kind 4).
    pub fn new(meta: &CacheMeta, lower: L) -> (c: Self)
        requires
            lower.wf(),
            buildable(meta),
        ensures
            c.wf(),
            c@ == Self::initial(*meta, lower@),
    {
        if meta.kind == 0 {
            AnyCache::Direct(DirectCache::new(meta, lower))
        } else if meta.kind == 1 {
            AnyCache::TwoWay(NWayCache::new(meta, lower))
        } else if meta.kind == 2 {
            AnyCache::FourWay(NWayCache::new(meta, lower))
        } else if meta.kind == 3 {
            AnyCache::EightWay(NWayCache::new(meta, lower))
        } else {
            AnyCache::FullAssoc(FullAssocCache::new(meta, lower))
        }
    }

    /// Hands out the level below, leaving `replacement` in its place.
    pub fn take_lower(&mut self, replacement: L) -> (r: L)
        requires
            old(self).wf(),
            replacement.wf(),
        ensures
            final(self).wf(),
            r.wf(),
            r@ == old(self)@.lower(),
            final(self)@ == old(self)@.with_lower(replacement@),
    {
        match self {
            AnyCache::Direct(c) => c.take_lower(replacement),
            AnyCache::TwoWay(c) => c.take_lower(replacement),
            AnyCache::FourWay(c) => c.take_lower(replacement),
            AnyCache::EightWay(c) => c.take_lower(replacement),
            AnyCache::FullAssoc(c) => c.take_lower(replacement),
        }
    }
}

impl<L: Cache> Cache for AnyCache<L> {
    open spec fn wf(&self) -> bool {
        match self {
            AnyCache::Direct(c) => c.wf(),
            AnyCache::TwoWay(c) => c.wf(),
            AnyCache::FourWay(c) => c.wf(),
            AnyCache::EightWay(c) => c.wf(),
            AnyCache::FullAssoc(c) => c.wf(),
        }
    }

    open spec fn after_line(v: AnyView<L::V>, line_index: u64) -> Option<AnyView<L::V>> {
        match v {
            AnyView::Direct(d) => match DirectCache::<L>::step(d, line_index) {
                Some(w) => Some(AnyView::Direct(w)),
                None => None,
            },
            AnyView::TwoWay(n) => match NWayCache::<2, L>::step(n, line_index) {
                Some(w) => Some(AnyView::TwoWay(w)),
                None => None,
            },
            AnyView::FourWay(n) => match NWayCache::<4, L>::step(n, line_index) {
                Some(w) => Some(AnyView::FourWay(w)),
                None => None,
            },
            AnyView::EightWay(n) => match NWayCache::<8, L>::step(n, line_index) {
                Some(w) => Some(AnyView::EightWay(w)),
                None => None,
            },
            AnyView::FullAssoc(f) => match FullAssocCache::<L>::step(f, line_index) {
                Some(w) => Some(AnyView::FullAssoc(w)),
                None => None,
            },
        }
    }

    open spec fn after_access(v: AnyView<L::V>, address: u64, size: u64) -> Option<AnyView<L::V>> {
        match v {
            AnyView::Direct(d) => match DirectCache::<L>::span(d, address, size) {
                Some(w) => Some(AnyView::Direct(w)),
                None => None,
            },
            AnyView::TwoWay(n) => match NWayCache::<2, L>::span(n, address, size) {
                Some(w) => Some(AnyView::TwoWay(w)),
                None => None,
            },
            AnyView::FourWay(n) => match NWayCache::<4, L>::span(n, address, size) {
                Some(w) => Some(AnyView::FourWay(w)),
                None => None,
            },
            AnyView::EightWay(n) => match NWayCache::<8, L>::span(n, address, size) {
                Some(w) => Some(AnyView::EightWay(w)),
                None => None,
            },
            AnyView::FullAssoc(f) => match FullAssocCache::<L>::span(f, address, size) {
                Some(w) => Some(AnyView::FullAssoc(w)),
                None => None,
            },
        }
    }

    open spec fn hit_counts(v: AnyView<L::V>) -> Seq<u64> {
        match v {
            AnyView::Direct(d) => seq![d.hits] + L::hit_counts(d.lower),
            AnyView::TwoWay(n) => seq![n.hits] + L::hit_counts(n.lower),
            AnyView::FourWay(n) => seq![n.hits] + L::hit_counts(n.lower),
            AnyView::EightWay(n) => seq![n.hits] + L::hit_counts(n.lower),
            AnyView::FullAssoc(f) => seq![f.hits] + L::hit_counts(f.lower),
        }
    }

    open spec fn miss_counts(v: AnyView<L::V>) -> Seq<u64> {
        match v {
            AnyView::Direct(d) => seq![d.misses] + L::miss_counts(d.lower),
            AnyView::TwoWay(n) => seq![n.misses] + L::miss_counts(n.lower),
            AnyView::FourWay(n) => seq![n.misses] + L::miss_counts(n.lower),
            AnyView::EightWay(n) => seq![n.misses] + L::miss_counts(n.lower),
            AnyView::FullAssoc(f) => seq![f.misses] + L::miss_counts(f.lower),
        }
    }

    open spec fn memory_accesses(v: AnyView<L::V>) -> u64 {
        L::memory_accesses(v.lower())
    }

    fn access(&mut self, address: u64, size: u64) {
        match self {
            AnyCache::Direct(c) => c.access(address, size),
            AnyCache::TwoWay(c) => c.access(address, size),
            AnyCache::FourWay(c) => c.access(address, size),
            AnyCache::EightWay(c) => c.access(address, size),
            AnyCache::FullAssoc(c) => c.access(address, size),
        }
    }

    fn access_line(&mut self, line_index: u64) {
        match self {
            AnyCache::Direct(c) => c.access_line(line_index),
            AnyCache::TwoWay(c) => c.access_line(line_index),
            AnyCache::FourWay(c) => c.access_line(line_index),
            AnyCache::EightWay(c) => c.access_line(line_index),
            AnyCache::FullAssoc(c) => c.access_line(line_index),
        }
    }

    fn try_access(&mut self, address: u64, size: u64) -> (ok: bool) {
        match self {
            AnyCache::Direct(c) => c.try_access(address, size),
            AnyCache::TwoWay(c) => c.try_access(address, size),
            AnyCache::FourWay(c) => c.try_access(address, size),
            AnyCache::EightWay(c) => c.try_access(address, size),
            AnyCache::FullAssoc(c) => c.try_access(address, size),
        }
    }

    fn try_access_line(&mut self, line_index: u64) -> (ok: bool) {
        match self {
            AnyCache::Direct(c) => c.try_access_line(line_index),
            AnyCache::TwoWay(c) => c.try_access_line(line_index),
            AnyCache::FourWay(c) => c.try_access_line(line_index),
            AnyCache::EightWay(c) => c.try_access_line(line_index),
            AnyCache::FullAssoc(c) => c.try_access_line(line_index),
        }
    }

    fn get_hits(&self, hits_vec: Vec<u64>) -> (r: Vec<u64>) {
        match self {
            AnyCache::Direct(c) => c.get_hits(hits_vec),
            AnyCache::TwoWay(c) => c.get_hits(hits_vec),
            AnyCache::FourWay(c) => c.get_hits(hits_vec),
            AnyCache::EightWay(c) => c.get_hits(hits_vec),
            AnyCache::FullAssoc(c) => c.get_hits(hits_vec),
        }
    }

    fn get_misses(&self, misses_vec: Vec<u64>) -> (r: Vec<u64>) {
        match self {
            AnyCache::Direct(c) => c.get_misses(misses_vec),
            AnyCache::TwoWay(c) => c.get_misses(misses_vec),
            AnyCache::FourWay(c) => c.get_misses(misses_vec),
            AnyCache::EightWay(c) => c.get_misses(misses_vec),
            AnyCache::FullAssoc(c) => c.get_misses(misses_vec),
        }
    }

    fn get_main_memory_accesses(&self) -> (r: u64) {
        match self {
            AnyCache::Direct(c) => c.get_main_memory_accesses(),
            AnyCache::TwoWay(c) => c.get_main_memory_accesses(),
            AnyCache::FourWay(c) => c.get_main_memory_accesses(),
            AnyCache::EightWay(c) => c.get_main_memory_accesses(),
            AnyCache::FullAssoc(c) => c.get_main_memory_accesses(),
        }
    }
}

/// A request that a level sends to the level below it.
#[derive(Clone, Copy, Debug)]
pub enum Request {
    /// An access of `size` bytes from `address` on.
    Bytes(u64, u64),
    /// An access of one line, by its index.
    Line(u64),
}

/// The state after serving requests one after another, in order.
pub open spec fn serve<C: Cache>(v: C::V, requests: Seq<Request>) -> Option<C::V>
    decreases requests.len(),
{
    if requests.len() == 0 {
        Some(v)
    } else {
        match serve::<C>(v, requests.drop_last()) {
            Some(w) => match requests.last() {
                Request::Bytes(address, size) => C::after_access(w, address, size),
                Request::Line(line_index) => C::after_line(w, line_index),
            },
            None => None,
        }
    }
}

/// Where serving requests completes, so does serving any prefix of them.
proof fn lemma_serve_prefix<C: Cache>(v: C::V, requests: Seq<Request>, n: nat)
    requires
        n <= requests.len(),
        serve::<C>(v, requests) is Some,
    ensures
        serve::<C>(v, requests.take(n as int)) is Some,
    decreases requests.len(),
{
    if n < requests.len() {
        assert(requests.drop_last().take(n as int) =~= requests.take(n as int));
        lemma_serve_prefix::<C>(v, requests.drop_last(), n);
    } else {
        assert(requests.take(n as int) =~= requests);
    }
}

/// Serves the requests one after another, in order.
pub fn serve_all<C: Cache>(level: &mut C, requests: &Vec<Request>)
    requires
        old(level).wf(),
        serve::<C>(old(level)@, requests@) is Some,
    ensures
        final(level).wf(),
        final(level)@ == serve::<C>(old(level)@, requests@).unwrap(),
{
    let ghost v0 = level@;
    let mut i: usize = 0;
    while i < requests.len()
        invariant
            i <= requests@.len(),
            level.wf(),
            serve::<C>(v0, requests@) is Some,
            serve::<C>(v0, requests@.take(i as int)) == Some(level@),
        decreases requests@.len() - i,
    {
        proof {
            lemma_serve_prefix::<C>(v0, requests@, (i + 1) as nat);
            assert(requests@.take(i + 1).drop_last() =~= requests@.take(i as int));
        }
        match requests[i] {
            Request::Bytes(address, size) => level.access(address, size),
            Request::Line(line_index) => level.access_line(line_index),
        }
        i += 1;
    }
    assert(requests@.take(i as int) =~= requests@);
}

/// Serves the requests one after another, in order, as far as the level can, and says
/// whether it served them all. Where it could not, the state it leaves is unstated.
pub fn try_serve_all<C: Cache>(level: &mut C, requests: &Vec<Request>) -> (ok: bool)
    requires
        old(level).wf(),
    ensures
        ok == serve::<C>(old(level)@, requests@) is Some,
        ok ==> final(level).wf(),
        ok ==> final(level)@ == serve::<C>(old(level)@, requests@).unwrap(),
{
    let ghost v0 = level@;
    let mut i: usize = 0;
    while i < requests.len()
        invariant
            i <= requests@.len(),
            level.wf(),
            v0 == old(level)@,
            serve::<C>(v0, requests@.take(i as int)) == Some(level@),
        decreases requests@.len() - i,
    {
        proof {
            assert(requests@.take(i + 1).drop_last() =~= requests@.take(i as int));
        }
        let served = match requests[i] {
            Request::Bytes(address, size) => level.try_access(address, size),
            Request::Line(line_index) => level.try_access_line(line_index),
        };
        if !served {
            proof {
                assert(requests@.take(i + 1).last() == requests@[i as int]);
                assert(serve::<C>(v0, requests@.take(i + 1)) is None);
                if serve::<C>(v0, requests@) is Some {
                    lemma_serve_prefix::<C>(v0, requests@, (i + 1) as nat);
                }
            }
            return false;
        }
        i += 1;
    }
    assert(requests@.take(i as int) =~= requests@);
    true
}

/// A stand-in for the level below a cache that records the requests it receives.
pub struct Outbox {
    requests: Vec<Request>,
}

impl View for Outbox {
    type V = Seq<Request>;

    closed spec fn view(&self) -> Seq<Request> {
        self.requests@
    }
}

impl Outbox {
    pub fn new() -> (o: Self)
        ensures
            o@ == Seq::<Request>::empty(),
    {
        Outbox { requests: Vec::new() }
    }

    /// The requests received, in order.
    pub fn into_requests(self) -> (r: Vec<Request>)
        ensures
            r@ == self@,
    {
        self.requests
    }
}

impl Cache for Outbox {
    open spec fn wf(&self) -> bool {
        true
    }

    open spec fn after_line(v: Seq<Request>, line_index: u64) -> Option<Seq<Request>> {
        Some(v.push(Request::Line(line_index)))
    }

    open spec fn after_access(v: Seq<Request>, address: u64, size: u64) -> Option<Seq<Request>> {
        Some(v.push(Request::Bytes(address, size)))
    }

    open spec fn hit_counts(v: Seq<Request>) -> Seq<u64> {
        Seq::empty()
    }

    open spec fn miss_counts(v: Seq<Request>) -> Seq<u64> {
        Seq::empty()
    }

    open spec fn memory_accesses(v: Seq<Request>) -> u64 {
        0
    }

    fn access(&mut self, address: u64, size: u64) {
        self.requests.push(Request::Bytes(address, size));
    }

    fn access_line(&mut self, line_index: u64) {
        self.requests.push(Request::Line(line_index));
    }

    fn try_access(&mut self, address: u64, size: u64) -> (ok: bool) {
        self.requests.push(Request::Bytes(address, size));
        true
    }

    fn try_access_line(&mut self, line_index: u64) -> (ok: bool) {
        self.requests.push(Request::Line(line_index));
        true
    }

    fn get_hits(&self, hits_vec: Vec<u64>) -> (r: Vec<u64>) {
        hits_vec
    }

    fn get_misses(&self, misses_vec: Vec<u64>) -> (r: Vec<u64>) {
        misses_vec
    }

    fn get_main_memory_accesses(&self) -> (r: u64) {
        0
    }
}

/// The state of a chain of levels: each level's state with an empty record of requests
/// below it, top first, and the number of requests main memory has served.
pub struct ChainView {
    pub levels: Seq<AnyView<Seq<Request>>>,
    pub memory: u64,
}

/// The chain after level `k` and every level below it serve the given requests: each
/// level serves all the requests it receives, in order, and the requests it sends below
/// go to the next level, in the order it sent them; main memory counts what reaches it.
pub open spec fn deliver(levels: Seq<AnyView<Seq<Request>>>, memory: u64, k: int, requests: Seq<Request>) -> Option<ChainView>
    decreases levels.len() - k,
{
    if k < 0 || k >= levels.len() {
        match serve::<MainMemory>(memory, requests) {
            Some(m) => Some(ChainView { levels, memory: m }),
            None => None,
        }
    } else {
        match serve::<AnyCache<Outbox>>(levels[k], requests) {
            Some(lv) => deliver(levels.update(k, lv.with_lower(Seq::empty())), memory, k + 1, lv.lower()),
            None => None,
        }
    }
}

/// A hierarchy of any depth, built at run time: levels of any kind above main memory,
/// each level passing what it misses on to the next.
pub struct CacheChain {
    levels: Vec<AnyCache<Outbox>>,
    memory: MainMemory,
}

impl View for CacheChain {
    type V = ChainView;

    closed spec fn view(&self) -> ChainView {
        ChainView { levels: self.levels@.map_values(|c: AnyCache<Outbox>| c@), memory: self.memory@ }
    }
}

/// Builds a chain of levels above `bottom` from configurations listed bottom first: the
/// first configuration gives the level just above main memory, the last the top level.
pub fn build_dyn_chain(metas: &[CacheMeta], bottom: MainMemory) -> (chain: CacheChain)
    requires
        forall|i: int| 0 <= i < metas@.len() ==> buildable(&#[trigger] metas@[i]),
    ensures
        chain.wf(),
        chain@.memory == bottom@,
        chain@.levels.len() == metas@.len(),
        forall|i: int|
            0 <= i < metas@.len() ==> chain@.levels[i] == AnyCache::<Outbox>::initial(
                #[trigger] metas@[metas@.len() - 1 - i],
                Seq::empty(),
            ),
{
    let n = metas.len();
    let mut levels: Vec<AnyCache<Outbox>> = Vec::new();
    let mut i: usize = 0;
    while i < n
        invariant
            n == metas@.len(),
            i <= n,
            levels@.len() == i,
            forall|j: int| 0 <= j < metas@.len() ==> buildable(&#[trigger] metas@[j]),
            forall|j: int|
                0 <= j < i ==> {
                    &&& (#[trigger] levels@[j]).wf()
                    &&& levels@[j]@ == AnyCache::<Outbox>::initial(metas@[n - 1 - j], Seq::empty())
                },
        decreases n - i,
    {
        levels.push(AnyCache::new(&metas[n - 1 - i], Outbox::new()));
        i += 1;
    }
    let chain = CacheChain { levels, memory: bottom };
    proof {
        assert forall|j: int| 0 <= j < chain.levels@.len() implies {
            &&& (#[trigger] chain.levels@[j]).wf()
            &&& chain.levels@[j]@.lower() == Seq::<Request>::empty()
        } by {
            assert(chain.levels@[j]@ == AnyCache::<Outbox>::initial(metas@[n - 1 - j], Seq::empty()));
        }
    }
    chain
}

impl CacheChain {
    /// Passes a request down the chain, level by level.
    fn deliver_request(&mut self, request: Request)
        requires
            old(self).wf(),
            deliver(old(self)@.levels, old(self)@.memory, 0, seq![request]) is Some,
        ensures
            final(self).wf(),
            final(self)@ == deliver(old(self)@.levels, old(self)@.memory, 0, seq![request]).unwrap(),
    {
        let ghost goal = deliver(self@.levels, self@.memory, 0, seq![request]);
        let mut requests: Vec<Request> = Vec::new();
        requests.push(request);
        assert(requests@ =~= seq![request]);
        let mut k: usize = 0;
        while k < self.levels.len()
            invariant
                k <= self.levels@.len(),
                self.wf(),
                goal is Some,
                deliver(self@.levels, self@.memory, k as int, requests@) == goal,
            decreases self.levels@.len() - k,
        {
            let ghost before = self@;
            let ghost sent = requests@;
            assert(self.levels@[k as int].wf());
            let level = &mut self.levels[k];
            serve_all(level, &requests);
            let outbox = level.take_lower(Outbox::new());
            requests = outbox.into_requests();
            proof {
                assert(self@.levels =~= before.levels.update(
                    k as int,
                    serve::<AnyCache<Outbox>>(before.levels[k as int], sent).unwrap().with_lower(Seq::empty()),
                ));
            }
            k += 1;
        }
        serve_all(&mut self.memory, &requests);
    }
}

impl CacheChain {
    /// Passes a request down the chain, level by level, as far as the levels can serve
    /// it, and says whether every level could. Where one could not, the state the chain
    /// is left in is unstated.
    fn try_deliver_request(&mut self, request: Request) -> (ok: bool)
        requires
            old(self).wf(),
        ensures
            ok == deliver(old(self)@.levels, old(self)@.memory, 0, seq![request]) is Some,
            ok ==> final(self).wf(),
            ok ==> final(self)@ == deliver(old(self)@.levels, old(self)@.memory, 0, seq![request]).unwrap(),
    {
        let ghost goal = deliver(self@.levels, self@.memory, 0, seq![request]);
        let mut requests: Vec<Request> = Vec::new();
        requests.push(request);
        assert(requests@ =~= seq![request]);
        let mut k: usize = 0;
        while k < self.levels.len()
            invariant
                k <= self.levels@.len(),
                self.wf(),
                goal == deliver(old(self)@.levels, old(self)@.memory, 0, seq![request]),
                deliver(self@.levels, self@.memory, k as int, requests@) == goal,
            decreases self.levels@.len() - k,
        {
            let ghost before = self@;
            let ghost sent = requests@;
            assert(self.levels@[k as int].wf());
            let level = &mut self.levels[k];
            if !try_serve_all(level, &requests) {
                assert(serve::<AnyCache<Outbox>>(before.levels[k as int], sent) is None);
                return false;
            }
            let outbox = level.take_lower(Outbox::new());
            requests = outbox.into_requests();
            proof {
                assert(self@.levels =~= before.levels.update(
                    k as int,
                    serve::<AnyCache<Outbox>>(before.levels[k as int], sent).unwrap().with_lower(Seq::empty()),
                ));
            }
            k += 1;
        }
        try_serve_all(&mut self.memory, &requests)
    }
}

impl Cache for CacheChain {
    closed spec fn wf(&self) -> bool {
        forall|i: int| 0 <= i < self.levels@.len() ==> {
            &&& (#[trigger] self.levels@[i]).wf()
            &&& self.levels@[i]@.lower() == Seq::<Request>::empty()
        }
    }

    open spec fn after_line(v: ChainView, line_index: u64) -> Option<ChainView> {
        deliver(v.levels, v.memory, 0, seq![Request::Line(line_index)])
    }

    open spec fn after_access(v: ChainView, address: u64, size: u64) -> Option<ChainView> {
        deliver(v.levels, v.memory, 0, seq![Request::Bytes(address, size)])
    }

    open spec fn hit_counts(v: ChainView) -> Seq<u64> {
        Seq::new(v.levels.len(), |i: int| AnyCache::<Outbox>::hit_counts(v.levels[i])[0])
    }

    open spec fn miss_counts(v: ChainView) -> Seq<u64> {
        Seq::new(v.levels.len(), |i: int| AnyCache::<Outbox>::miss_counts(v.levels[i])[0])
    }

    open spec fn memory_accesses(v: ChainView) -> u64 {
        v.memory
    }

    fn access(&mut self, address: u64, size: u64) {
        self.deliver_request(Request::Bytes(address, size));
    }

    fn access_line(&mut self, line_index: u64) {
        self.deliver_request(Request::Line(line_index));
    }

    fn try_access(&mut self, address: u64, size: u64) -> (ok: bool) {
        self.try_deliver_request(Request::Bytes(address, size))
    }

    fn try_access_line(&mut self, line_index: u64) -> (ok: bool) {
        self.try_deliver_request(Request::Line(line_index))
    }

    fn get_hits(&self, hits_vec: Vec<u64>) -> (r: Vec<u64>) {
        let ghost given = hits_vec@;
        let mut hits_vec = hits_vec;
        let mut i: usize = 0;
        while i < self.levels.len()
            invariant
                self.wf(),
                i <= self.levels@.len(),
                hits_vec@ == given + Self::hit_counts(self@).take(i as int),
            decreases self.levels@.len() - i,
        {
            assert(self.levels@[i as int].wf());
            hits_vec = self.levels[i].get_hits(hits_vec);
            assert(Self::hit_counts(self@).take(i + 1) =~= Self::hit_counts(self@).take(i as int).push(Self::hit_counts(self@)[i as int]));
            i += 1;
        }
        assert(Self::hit_counts(self@).take(i as int) =~= Self::hit_counts(self@));
        hits_vec
    }

    fn get_misses(&self, misses_vec: Vec<u64>) -> (r: Vec<u64>) {
        let ghost given = misses_vec@;
        let mut misses_vec = misses_vec;
        let mut i: usize = 0;
        while i < self.levels.len()
            invariant
                self.wf(),
                i <= self.levels@.len(),
                misses_vec@ == given + Self::miss_counts(self@).take(i as int),
            decreases self.levels@.len() - i,
        {
            assert(self.levels@[i as int].wf());
            misses_vec = self.levels[i].get_misses(misses_vec);
            assert(Self::miss_counts(self@).take(i + 1) =~= Self::miss_counts(self@).take(i as int).push(Self::miss_counts(self@)[i as int]));
            i += 1;
        }
        assert(Self::miss_counts(self@).take(i as int) =~= Self::miss_counts(self@));
        misses_vec
    }

    fn get_main_memory_accesses(&self) -> (r: u64) {
        self.memory.accesses
    }
}

} // verus!
