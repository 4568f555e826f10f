//! A level's own state evolves independently of the level below it, and the level
//! below receives exactly the requests the level sends: running a level above any
//! level `L` is running it above an `Outbox` and then serving the recorded requests
//! with `L`. This is what lets a chain of levels pass requests on level by level.
use vstd::prelude::*;
use crate::cache::{Cache, access_in_range, first_line, last_line};
use crate::direct::{DirectCache, DirectView};
use crate::n_way::{NWayCache, NWayView};
use crate::fullassoc::{FullAssocCache, FullAssocView};
use crate::cache::MainMemory;
use crate::hierarchy::{AnyCache, AnyView, CacheChain, ChainView, Outbox, Request, deliver, serve};

verus! {

/// Serving two runs of requests one after the other is serving them joined.
pub proof fn lemma_serve_append<C: Cache>(v: C::V, r1: Seq<Request>, r2: Seq<Request>)
    ensures
        serve::<C>(v, r1 + r2) == (match serve::<C>(v, r1) {
            Some(w) => serve::<C>(w, r2),
            None => None,
        }),
    decreases r2.len(),
{
    if r2.len() == 0 {
        assert(r1 + r2 =~= r1);
    } else {
        assert((r1 + r2).drop_last() =~= r1 + r2.drop_last());
        assert((r1 + r2).last() == r2.last());
        lemma_serve_append::<C>(v, r1, r2.drop_last());
    }
}

/// The outcome of running a level above `L` from state `v`, given the outcome `o` of
/// running it from the same state above an outbox that held `r0` before: the recorded
/// requests after `r0` are served by `L` from `v`'s level below.
pub open spec fn direct_joined<L: Cache>(
    v: DirectView<L::V>,
    r0: Seq<Request>,
    o: Option<DirectView<Seq<Request>>>,
) -> Option<DirectView<L::V>> {
    match o {
        None => None,
        Some(w) => match serve::<L>(v.lower, w.lower.skip(r0.len() as int)) {
            Some(l) => Some(w.rebase(l)),
            None => None,
        },
    }
}

/// An outbox only ever grows.
pub open spec fn direct_extends<LV>(o: Option<DirectView<Seq<Request>>>, r0: Seq<Request>) -> bool {
    o matches Some(w) ==> w.lower.len() >= r0.len() && w.lower.take(r0.len() as int) == r0
}

/// Line accesses of a direct-mapped cache split into its own steps and the requests
/// it sends below.
pub proof fn lemma_direct_steps_split<L: Cache>(v: DirectView<L::V>, r0: Seq<Request>, line: int, count: nat)
    ensures
        direct_extends::<L::V>(DirectCache::<Outbox>::steps(v.rebase(r0), line, count), r0),
        DirectCache::<L>::steps(v, line, count) == direct_joined::<L>(
            v,
            r0,
            DirectCache::<Outbox>::steps(v.rebase(r0), line, count),
        ),
    decreases count,
{
    let o = DirectCache::<Outbox>::steps(v.rebase(r0), line, count);
    if count == 0 {
        assert(r0.skip(r0.len() as int) =~= Seq::<Request>::empty());
        assert(r0.take(r0.len() as int) =~= r0);
        assert(v.rebase(r0).rebase(v.lower) == v);
    } else {
        let x = line as u64;
        let o1 = DirectCache::<Outbox>::step(v.rebase(r0), x);
        match o1 {
            None => {},
            Some(w1) => {
                let extra1 = w1.lower.skip(r0.len() as int);
                assert(w1.lower.take(r0.len() as int) =~= r0);
                assert(serve::<L>(v.lower, seq![]) == Some(v.lower));
                if v.rebase(r0).holds(x) {
                    assert(extra1 =~= Seq::<Request>::empty());
                    assert(DirectCache::<L>::step(v, x) == Some(w1.rebase(v.lower)));
                } else {
                    let req = Request::Bytes(x << v.offset_bits, v.line_size);
                    assert(extra1 =~= seq![req]);
                    assert(seq![req].drop_last() =~= Seq::<Request>::empty());
                }
                let l1 = serve::<L>(v.lower, extra1);
                let o_rest = DirectCache::<Outbox>::steps(w1, line + 1, (count - 1) as nat);
                assert(o == o_rest);
                match l1 {
                    None => {
                        assert(DirectCache::<L>::step(v, x) is None);
                        if let Some(w) = o_rest {
                            lemma_direct_steps_split::<L>(w1.rebase(v.lower), w1.lower, line + 1, (count - 1) as nat);
                            assert(w1.rebase(v.lower).rebase(w1.lower) == w1);
                            let extra2 = w.lower.skip(w1.lower.len() as int);
                            assert(w.lower.skip(r0.len() as int) =~= extra1 + extra2);
                            lemma_serve_append::<L>(v.lower, extra1, extra2);
                            assert(w.lower.take(r0.len() as int) =~= w1.lower.take(r0.len() as int));
                        }
                    },
                    Some(l) => {
                        let v1 = w1.rebase(l);
                        assert(DirectCache::<L>::step(v, x) == Some(v1));
                        lemma_direct_steps_split::<L>(v1, w1.lower, line + 1, (count - 1) as nat);
                        assert(v1.rebase(w1.lower) == w1);
                        if let Some(w) = o_rest {
                            let extra2 = w.lower.skip(w1.lower.len() as int);
                            assert(w.lower.skip(r0.len() as int) =~= extra1 + extra2);
                            lemma_serve_append::<L>(v.lower, extra1, extra2);
                            assert(w.lower.take(r0.len() as int) =~= w1.lower.take(r0.len() as int));
                        }
                    },
                }
            },
        }
    }
}

/// The outcome of running a level above `L` from state `v`, given the outcome `o` of
/// running it from the same state above an outbox that held `r0` before: the recorded
/// requests after `r0` are served by `L` from `v`'s level below.
pub open spec fn nway_joined<L: Cache>(
    v: NWayView<L::V>,
    r0: Seq<Request>,
    o: Option<NWayView<Seq<Request>>>,
) -> Option<NWayView<L::V>> {
    match o {
        None => None,
        Some(w) => match serve::<L>(v.lower, w.lower.skip(r0.len() as int)) {
            Some(l) => Some(w.rebase(l)),
            None => None,
        },
    }
}

/// An outbox only ever grows.
pub open spec fn nway_extends<LV>(o: Option<NWayView<Seq<Request>>>, r0: Seq<Request>) -> bool {
    o matches Some(w) ==> w.lower.len() >= r0.len() && w.lower.take(r0.len() as int) == r0
}

/// Line accesses of a set-associative cache split into its own steps and the requests
/// it sends below.
pub proof fn lemma_nway_steps_split<const N: usize, L: Cache>(v: NWayView<L::V>, r0: Seq<Request>, line: int, count: nat)
    ensures
        nway_extends::<L::V>(NWayCache::<N, Outbox>::steps(v.rebase(r0), line, count), r0),
        NWayCache::<N, L>::steps(v, line, count) == nway_joined::<L>(
            v,
            r0,
            NWayCache::<N, Outbox>::steps(v.rebase(r0), line, count),
        ),
    decreases count,
{
    let o = NWayCache::<N, Outbox>::steps(v.rebase(r0), line, count);
    if count == 0 {
        assert(r0.skip(r0.len() as int) =~= Seq::<Request>::empty());
        assert(r0.take(r0.len() as int) =~= r0);
        assert(v.rebase(r0).rebase(v.lower) == v);
    } else {
        let x = line as u64;
        let o1 = NWayCache::<N, Outbox>::step(v.rebase(r0), x);
        match o1 {
            None => {},
            Some(w1) => {
                let extra1 = w1.lower.skip(r0.len() as int);
                assert(w1.lower.take(r0.len() as int) =~= r0);
                assert(serve::<L>(v.lower, seq![]) == Some(v.lower));
                if v.rebase(r0).holds(x) {
                    assert(extra1 =~= Seq::<Request>::empty());
                    assert(NWayCache::<N, L>::step(v, x) == Some(w1.rebase(v.lower)));
                } else {
                    let req = Request::Bytes(v.line_address(x), v.line_size);
                    assert(extra1 =~= seq![req]);
                    assert(seq![req].drop_last() =~= Seq::<Request>::empty());
                }
                let l1 = serve::<L>(v.lower, extra1);
                let o_rest = NWayCache::<N, Outbox>::steps(w1, line + 1, (count - 1) as nat);
                assert(o == o_rest);
                match l1 {
                    None => {
                        assert(NWayCache::<N, L>::step(v, x) is None);
                        if let Some(w) = o_rest {
                            lemma_nway_steps_split::<N, L>(w1.rebase(v.lower), w1.lower, line + 1, (count - 1) as nat);
                            assert(w1.rebase(v.lower).rebase(w1.lower) == w1);
                            let extra2 = w.lower.skip(w1.lower.len() as int);
                            assert(w.lower.skip(r0.len() as int) =~= extra1 + extra2);
                            lemma_serve_append::<L>(v.lower, extra1, extra2);
                            assert(w.lower.take(r0.len() as int) =~= w1.lower.take(r0.len() as int));
                        }
                    },
                    Some(l) => {
                        let v1 = w1.rebase(l);
                        assert(NWayCache::<N, L>::step(v, x) == Some(v1));
                        lemma_nway_steps_split::<N, L>(v1, w1.lower, line + 1, (count - 1) as nat);
                        assert(v1.rebase(w1.lower) == w1);
                        if let Some(w) = o_rest {
                            let extra2 = w.lower.skip(w1.lower.len() as int);
                            assert(w.lower.skip(r0.len() as int) =~= extra1 + extra2);
                            lemma_serve_append::<L>(v.lower, extra1, extra2);
                            assert(w.lower.take(r0.len() as int) =~= w1.lower.take(r0.len() as int));
                        }
                    },
                }
            },
        }
    }
}

/// The outcome of running a level above `L` from state `v`, given the outcome `o` of
/// running it from the same state above an outbox that held `r0` before: the recorded
/// requests after `r0` are served by `L` from `v`'s level below.
pub open spec fn full_joined<L: Cache>(
    v: FullAssocView<L::V>,
    r0: Seq<Request>,
    o: Option<FullAssocView<Seq<Request>>>,
) -> Option<FullAssocView<L::V>> {
    match o {
        None => None,
        Some(w) => match serve::<L>(v.lower, w.lower.skip(r0.len() as int)) {
            Some(l) => Some(w.rebase(l)),
            None => None,
        },
    }
}

/// An outbox only ever grows.
pub open spec fn full_extends<LV>(o: Option<FullAssocView<Seq<Request>>>, r0: Seq<Request>) -> bool {
    o matches Some(w) ==> w.lower.len() >= r0.len() && w.lower.take(r0.len() as int) == r0
}

/// Line accesses of a fully associative cache split into its own steps and the requests
/// it sends below.
pub proof fn lemma_full_steps_split<L: Cache>(v: FullAssocView<L::V>, r0: Seq<Request>, line: int, count: nat)
    ensures
        full_extends::<L::V>(FullAssocCache::<Outbox>::steps(v.rebase(r0), line, count), r0),
        FullAssocCache::<L>::steps(v, line, count) == full_joined::<L>(
            v,
            r0,
            FullAssocCache::<Outbox>::steps(v.rebase(r0), line, count),
        ),
    decreases count,
{
    let o = FullAssocCache::<Outbox>::steps(v.rebase(r0), line, count);
    if count == 0 {
        assert(r0.skip(r0.len() as int) =~= Seq::<Request>::empty());
        assert(r0.take(r0.len() as int) =~= r0);
        assert(v.rebase(r0).rebase(v.lower) == v);
    } else {
        let x = line as u64;
        let o1 = FullAssocCache::<Outbox>::step(v.rebase(r0), x);
        match o1 {
            None => {},
            Some(w1) => {
                let extra1 = w1.lower.skip(r0.len() as int);
                assert(w1.lower.take(r0.len() as int) =~= r0);
                assert(serve::<L>(v.lower, seq![]) == Some(v.lower));
                if v.rebase(r0).holds(x) {
                    assert(extra1 =~= Seq::<Request>::empty());
                    assert(FullAssocCache::<L>::step(v, x) == Some(w1.rebase(v.lower)));
                } else {
                    let req = Request::Bytes(x << v.offset_bits, v.line_size);
                    assert(extra1 =~= seq![req]);
                    assert(seq![req].drop_last() =~= Seq::<Request>::empty());
                }
                let l1 = serve::<L>(v.lower, extra1);
                let o_rest = FullAssocCache::<Outbox>::steps(w1, line + 1, (count - 1) as nat);
                assert(o == o_rest);
                match l1 {
                    None => {
                        assert(FullAssocCache::<L>::step(v, x) is None);
                        if let Some(w) = o_rest {
                            lemma_full_steps_split::<L>(w1.rebase(v.lower), w1.lower, line + 1, (count - 1) as nat);
                            assert(w1.rebase(v.lower).rebase(w1.lower) == w1);
                            let extra2 = w.lower.skip(w1.lower.len() as int);
                            assert(w.lower.skip(r0.len() as int) =~= extra1 + extra2);
                            lemma_serve_append::<L>(v.lower, extra1, extra2);
                            assert(w.lower.take(r0.len() as int) =~= w1.lower.take(r0.len() as int));
                        }
                    },
                    Some(l) => {
                        let v1 = w1.rebase(l);
                        assert(FullAssocCache::<L>::step(v, x) == Some(v1));
                        lemma_full_steps_split::<L>(v1, w1.lower, line + 1, (count - 1) as nat);
                        assert(v1.rebase(w1.lower) == w1);
                        if let Some(w) = o_rest {
                            let extra2 = w.lower.skip(w1.lower.len() as int);
                            assert(w.lower.skip(r0.len() as int) =~= extra1 + extra2);
                            lemma_serve_append::<L>(v.lower, extra1, extra2);
                            assert(w.lower.take(r0.len() as int) =~= w1.lower.take(r0.len() as int));
                        }
                    },
                }
            },
        }
    }
}

/// An access of a number of bytes splits into the cache's own steps and the requests
/// it sends below.
pub proof fn lemma_direct_span_split<L: Cache>(v: DirectView<L::V>, r0: Seq<Request>, address: u64, size: u64)
    ensures
        direct_extends::<L::V>(DirectCache::<Outbox>::span(v.rebase(r0), address, size), r0),
        DirectCache::<L>::span(v, address, size) == direct_joined::<L>(
            v,
            r0,
            DirectCache::<Outbox>::span(v.rebase(r0), address, size),
        ),
{
    if access_in_range(address, size) {
        let first = first_line(address, v.offset_bits);
        let last = last_line(address, size, v.offset_bits);
        if first <= last {
            lemma_direct_steps_split::<L>(v, r0, first as int, (last - first + 1) as nat);
        } else {
            lemma_direct_steps_split::<L>(v, r0, first as int, 0);
        }
    }
}

/// One line access splits into the cache's own step and the requests it sends below.
pub proof fn lemma_direct_line_split<L: Cache>(v: DirectView<L::V>, r0: Seq<Request>, line_index: u64)
    ensures
        direct_extends::<L::V>(DirectCache::<Outbox>::step(v.rebase(r0), line_index), r0),
        DirectCache::<L>::step(v, line_index) == direct_joined::<L>(
            v,
            r0,
            DirectCache::<Outbox>::step(v.rebase(r0), line_index),
        ),
{
    lemma_direct_steps_split::<L>(v, r0, line_index as int, 1);
    let o = DirectCache::<Outbox>::step(v.rebase(r0), line_index);
    if let Some(w) = o {
        assert(DirectCache::<Outbox>::steps(w, line_index + 1, 0) == Some(w));
    }
    if let Some(w) = DirectCache::<L>::step(v, line_index) {
        assert(DirectCache::<L>::steps(w, line_index + 1, 0) == Some(w));
    }
}

/// An access of a number of bytes splits into the cache's own steps and the requests
/// it sends below.
pub proof fn lemma_nway_span_split<const N: usize, L: Cache>(v: NWayView<L::V>, r0: Seq<Request>, address: u64, size: u64)
    ensures
        nway_extends::<L::V>(NWayCache::<N, Outbox>::span(v.rebase(r0), address, size), r0),
        NWayCache::<N, L>::span(v, address, size) == nway_joined::<L>(
            v,
            r0,
            NWayCache::<N, Outbox>::span(v.rebase(r0), address, size),
        ),
{
    if access_in_range(address, size) {
        let first = first_line(address, v.offset_bits);
        let last = last_line(address, size, v.offset_bits);
        if first <= last {
            lemma_nway_steps_split::<N, L>(v, r0, first as int, (last - first + 1) as nat);
        } else {
            lemma_nway_steps_split::<N, L>(v, r0, first as int, 0);
        }
    }
}

/// One line access splits into the cache's own step and the requests it sends below.
pub proof fn lemma_nway_line_split<const N: usize, L: Cache>(v: NWayView<L::V>, r0: Seq<Request>, line_index: u64)
    ensures
        nway_extends::<L::V>(NWayCache::<N, Outbox>::step(v.rebase(r0), line_index), r0),
        NWayCache::<N, L>::step(v, line_index) == nway_joined::<L>(
            v,
            r0,
            NWayCache::<N, Outbox>::step(v.rebase(r0), line_index),
        ),
{
    lemma_nway_steps_split::<N, L>(v, r0, line_index as int, 1);
    let o = NWayCache::<N, Outbox>::step(v.rebase(r0), line_index);
    if let Some(w) = o {
        assert(NWayCache::<N, Outbox>::steps(w, line_index + 1, 0) == Some(w));
    }
    if let Some(w) = NWayCache::<N, L>::step(v, line_index) {
        assert(NWayCache::<N, L>::steps(w, line_index + 1, 0) == Some(w));
    }
}

/// An access of a number of bytes splits into the cache's own steps and the requests
/// it sends below.
pub proof fn lemma_full_span_split<L: Cache>(v: FullAssocView<L::V>, r0: Seq<Request>, address: u64, size: u64)
    ensures
        full_extends::<L::V>(FullAssocCache::<Outbox>::span(v.rebase(r0), address, size), r0),
        FullAssocCache::<L>::span(v, address, size) == full_joined::<L>(
            v,
            r0,
            FullAssocCache::<Outbox>::span(v.rebase(r0), address, size),
        ),
{
    if access_in_range(address, size) {
        let first = first_line(address, v.offset_bits);
        let last = last_line(address, size, v.offset_bits);
        if first <= last {
            lemma_full_steps_split::<L>(v, r0, first as int, (last - first + 1) as nat);
        } else {
            lemma_full_steps_split::<L>(v, r0, first as int, 0);
        }
    }
}

/// One line access splits into the cache's own step and the requests it sends below.
pub proof fn lemma_full_line_split<L: Cache>(v: FullAssocView<L::V>, r0: Seq<Request>, line_index: u64)
    ensures
        full_extends::<L::V>(FullAssocCache::<Outbox>::step(v.rebase(r0), line_index), r0),
        FullAssocCache::<L>::step(v, line_index) == full_joined::<L>(
            v,
            r0,
            FullAssocCache::<Outbox>::step(v.rebase(r0), line_index),
        ),
{
    lemma_full_steps_split::<L>(v, r0, line_index as int, 1);
    let o = FullAssocCache::<Outbox>::step(v.rebase(r0), line_index);
    if let Some(w) = o {
        assert(FullAssocCache::<Outbox>::steps(w, line_index + 1, 0) == Some(w));
    }
    if let Some(w) = FullAssocCache::<L>::step(v, line_index) {
        assert(FullAssocCache::<L>::steps(w, line_index + 1, 0) == Some(w));
    }
}

/// The outcome of running a level of any kind above `L` from state `v`, given the
/// outcome `o` of running it from the same state above an outbox that held `r0`.
pub open spec fn any_joined<L: Cache>(
    v: AnyView<L::V>,
    r0: Seq<Request>,
    o: Option<AnyView<Seq<Request>>>,
) -> Option<AnyView<L::V>> {
    match o {
        None => None,
        Some(w) => match serve::<L>(v.lower(), w.lower().skip(r0.len() as int)) {
            Some(l) => Some(w.rebase(l)),
            None => None,
        },
    }
}

/// An outbox only ever grows.
pub open spec fn any_extends(o: Option<AnyView<Seq<Request>>>, r0: Seq<Request>) -> bool {
    o matches Some(w) ==> w.lower().len() >= r0.len() && w.lower().take(r0.len() as int) == r0
}

/// The state after serving one request.
pub open spec fn request_step<C: Cache>(v: C::V, request: Request) -> Option<C::V> {
    match request {
        Request::Bytes(address, size) => C::after_access(v, address, size),
        Request::Line(line_index) => C::after_line(v, line_index),
    }
}

/// One request to a level of any kind splits into the level's own step and the
/// requests it sends below.
pub proof fn lemma_any_request_split<L: Cache>(v: AnyView<L::V>, r0: Seq<Request>, request: Request)
    ensures
        any_extends(request_step::<AnyCache<Outbox>>(v.rebase(r0), request), r0),
        request_step::<AnyCache<L>>(v, request) == any_joined::<L>(
            v,
            r0,
            request_step::<AnyCache<Outbox>>(v.rebase(r0), request),
        ),
{
    match v {
        AnyView::Direct(d) => match request {
            Request::Bytes(a, s) => lemma_direct_span_split::<L>(d, r0, a, s),
            Request::Line(x) => lemma_direct_line_split::<L>(d, r0, x),
        },
        AnyView::TwoWay(n) => match request {
            Request::Bytes(a, s) => lemma_nway_span_split::<2, L>(n, r0, a, s),
            Request::Line(x) => lemma_nway_line_split::<2, L>(n, r0, x),
        },
        AnyView::FourWay(n) => match request {
            Request::Bytes(a, s) => lemma_nway_span_split::<4, L>(n, r0, a, s),
            Request::Line(x) => lemma_nway_line_split::<4, L>(n, r0, x),
        },
        AnyView::EightWay(n) => match request {
            Request::Bytes(a, s) => lemma_nway_span_split::<8, L>(n, r0, a, s),
            Request::Line(x) => lemma_nway_line_split::<8, L>(n, r0, x),
        },
        AnyView::FullAssoc(f) => match request {
            Request::Bytes(a, s) => lemma_full_span_split::<L>(f, r0, a, s),
            Request::Line(x) => lemma_full_line_split::<L>(f, r0, x),
        },
    }
}

/// Serving requests splits in the same way: a level of any kind serves them above an
/// outbox, and the level below serves what the outbox recorded.
pub proof fn lemma_any_serve_split<L: Cache>(v: AnyView<L::V>, r0: Seq<Request>, requests: Seq<Request>)
    ensures
        any_extends(serve::<AnyCache<Outbox>>(v.rebase(r0), requests), r0),
        serve::<AnyCache<L>>(v, requests) == any_joined::<L>(
            v,
            r0,
            serve::<AnyCache<Outbox>>(v.rebase(r0), requests),
        ),
    decreases requests.len(),
{
    if requests.len() == 0 {
        assert(r0.skip(r0.len() as int) =~= Seq::<Request>::empty());
        assert(r0.take(r0.len() as int) =~= r0);
        assert(v.rebase(r0).lower() == r0);
        assert(v.rebase(r0).rebase(v.lower()) == v);
    } else {
        let front = requests.drop_last();
        let request = requests.last();
        lemma_any_serve_split::<L>(v, r0, front);
        let o1 = serve::<AnyCache<Outbox>>(v.rebase(r0), front);
        match o1 {
            None => {},
            Some(w1) => {
                let extra1 = w1.lower().skip(r0.len() as int);
                let l1 = serve::<L>(v.lower(), extra1);
                let o = request_step::<AnyCache<Outbox>>(w1, request);
                assert(serve::<AnyCache<Outbox>>(v.rebase(r0), requests) == o);
                match l1 {
                    None => {
                        lemma_any_request_split::<L>(w1.rebase(v.lower()), w1.lower(), request);
                        assert(w1.rebase(v.lower()).rebase(w1.lower()) == w1);
                        if let Some(w) = o {
                            let extra2 = w.lower().skip(w1.lower().len() as int);
                            assert(w.lower().skip(r0.len() as int) =~= extra1 + extra2);
                            lemma_serve_append::<L>(v.lower(), extra1, extra2);
                            assert(w.lower().take(r0.len() as int) =~= w1.lower().take(r0.len() as int));
                        }
                    },
                    Some(l) => {
                        let v1 = w1.rebase(l);
                        lemma_any_request_split::<L>(v1, w1.lower(), request);
                        assert(v1.rebase(w1.lower()) == w1);
                        assert(v1.lower() == l);
                        if let Some(w) = o {
                            let extra2 = w.lower().skip(w1.lower().len() as int);
                            assert(w.lower().skip(r0.len() as int) =~= extra1 + extra2);
                            lemma_serve_append::<L>(v.lower(), extra1, extra2);
                            assert(w.lower().take(r0.len() as int) =~= w1.lower().take(r0.len() as int));
                        }
                    },
                }
            },
        }
    }
}

/// An outbox serving requests appends them to what it holds.
proof fn lemma_outbox_serve(r0: Seq<Request>, requests: Seq<Request>)
    ensures
        serve::<Outbox>(r0, requests) == Some(r0 + requests),
    decreases requests.len(),
{
    if requests.len() == 0 {
        assert(r0 + requests =~= r0);
    } else {
        lemma_outbox_serve(r0, requests.drop_last());
        assert(r0 + requests =~= (r0 + requests.drop_last()).push(requests.last()));
    }
}

/// Every level of the chain has handed on what it sent below.
pub open spec fn cleared(levels: Seq<AnyView<Seq<Request>>>) -> bool {
    forall|i: int| 0 <= i < levels.len() ==> (#[trigger] levels[i]).lower() == Seq::<Request>::empty()
}

/// The chain below the top level.
pub open spec fn tail(c: ChainView) -> ChainView {
    ChainView { levels: c.levels.drop_first(), memory: c.memory }
}

/// The chain with `top` put above the levels of `o`.
pub open spec fn put_above(top: AnyView<Seq<Request>>, o: Option<ChainView>) -> Option<ChainView> {
    match o {
        Some(c) => Some(ChainView { levels: seq![top] + c.levels, memory: c.memory }),
        None => None,
    }
}

/// Delivering below a level that does not take part leaves that level as it is.
proof fn lemma_deliver_shift(top: AnyView<Seq<Request>>, levels: Seq<AnyView<Seq<Request>>>, memory: u64, k: int, requests: Seq<Request>)
    requires
        0 <= k,
    ensures
        deliver(seq![top] + levels, memory, k + 1, requests) == put_above(top, deliver(levels, memory, k, requests)),
    decreases levels.len() - k,
{
    let all = seq![top] + levels;
    if k >= levels.len() {
    } else {
        assert(all[k + 1] == levels[k]);
        match serve::<AnyCache<Outbox>>(levels[k], requests) {
            Some(lv) => {
                let cl = lv.with_lower(Seq::empty());
                assert(all.update(k + 1, cl) =~= seq![top] + levels.update(k, cl));
                lemma_deliver_shift(top, levels.update(k, cl), memory, k + 1, lv.lower());
            },
            None => {},
        }
    }
}

/// Delivering a run of requests leaves every level having handed on what it sent below.
proof fn lemma_deliver_clears(levels: Seq<AnyView<Seq<Request>>>, memory: u64, k: int, requests: Seq<Request>)
    requires
        0 <= k,
        cleared(levels),
    ensures
        deliver(levels, memory, k, requests) matches Some(c) ==> cleared(c.levels) && c.levels.len() == levels.len(),
    decreases levels.len() - k,
{
    if k < levels.len() {
        match serve::<AnyCache<Outbox>>(levels[k], requests) {
            Some(lv) => {
                let cl = lv.with_lower(Seq::empty());
                assert(cl.lower() == Seq::<Request>::empty());
                lemma_deliver_clears(levels.update(k, cl), memory, k + 1, lv.lower());
            },
            None => {},
        }
    }
}

/// A chain serves a run of requests passed down level by level as it serves them one
/// request at a time.
pub proof fn lemma_deliver_is_serve(c: ChainView, requests: Seq<Request>)
    requires
        cleared(c.levels),
    ensures
        deliver(c.levels, c.memory, 0, requests) == serve::<CacheChain>(c, requests),
    decreases c.levels.len(), requests.len(),
{
    if requests.len() == 0 {
        lemma_deliver_empty(c.levels, c.memory, 0);
    } else {
        let front = requests.drop_last();
        let request = requests.last();
        lemma_deliver_is_serve(c, front);
        lemma_deliver_step(c, front, request);
        assert(front.push(request) =~= requests);
    }
}

/// Delivering no requests changes nothing.
proof fn lemma_deliver_empty(levels: Seq<AnyView<Seq<Request>>>, memory: u64, k: int)
    requires
        0 <= k,
        cleared(levels),
    ensures
        deliver(levels, memory, k, Seq::empty()) == Some(ChainView { levels, memory }),
    decreases levels.len() - k,
{
    if k < levels.len() {
        let lv = levels[k];
        assert(serve::<AnyCache<Outbox>>(lv, Seq::empty()) == Some(lv));
        assert(lv.with_lower(Seq::empty()) == lv) by {
            assert(lv.lower() == Seq::<Request>::empty());
        }
        assert(levels.update(k, lv) =~= levels);
        lemma_deliver_empty(levels, memory, k + 1);
    }
}

proof fn lemma_deliver_step(c: ChainView, front: Seq<Request>, request: Request)
    requires
        cleared(c.levels),
        deliver(c.levels, c.memory, 0, front) == serve::<CacheChain>(c, front),
    ensures
        deliver(c.levels, c.memory, 0, front.push(request)) == serve::<CacheChain>(c, front.push(request)),
    decreases c.levels.len(), 0nat,
{
    let requests = front.push(request);
    assert(requests.drop_last() =~= front);
    assert(requests.last() == request);
    lemma_deliver_clears(c.levels, c.memory, 0, front);
    if c.levels.len() == 0 {
        lemma_serve_append::<MainMemory>(c.memory, front, seq![request]);
        assert(front + seq![request] =~= requests);
        match serve::<MainMemory>(c.memory, front) {
            Some(m) => {
                assert(seq![request].drop_last() =~= Seq::<Request>::empty());
                let cf = ChainView { levels: c.levels, memory: m };
                assert(serve::<CacheChain>(c, front) == Some(cf));
                assert(request_step::<CacheChain>(cf, request) == deliver(c.levels, m, 0, seq![request]));
            },
            None => {},
        }
    } else {
        let top = c.levels[0];
        let t = tail(c);
        assert(cleared(t.levels));
        assert(seq![top] + t.levels =~= c.levels);
        // the top level serves the requests above an outbox
        let o_front = serve::<AnyCache<Outbox>>(top, front);
        lemma_serve_append::<AnyCache<Outbox>>(top, front, seq![request]);
        assert(front + seq![request] =~= requests);
        assert(seq![request].drop_last() =~= Seq::<Request>::empty());
        match o_front {
            None => {
                assert(serve::<AnyCache<Outbox>>(top, requests) is None);
            },
            Some(lv_front) => {
                let out_front = lv_front.lower();
                let top_front = lv_front.with_lower(Seq::empty());
                // batch: the front, passed below level by level
                lemma_deliver_shift(top_front, t.levels, t.memory, 0, out_front);
                assert(c.levels.update(0, top_front) =~= seq![top_front] + t.levels);
                lemma_deliver_is_serve(t, out_front);
                // the next request to the top level, from an empty outbox
                lemma_any_request_split::<Outbox>(lv_front, Seq::empty(), request);
                assert(lv_front.rebase(Seq::<Request>::empty()) == top_front);
                let o2 = request_step::<AnyCache<Outbox>>(top_front, request);
                assert(Seq::<Request>::empty().len() == 0);
                match o2 {
                    None => {
                        assert(serve::<AnyCache<Outbox>>(top, requests) is None);
                        match serve::<CacheChain>(t, out_front) {
                            Some(t2) => {
                                let c2 = ChainView { levels: seq![top_front] + t2.levels, memory: t2.memory };
                                assert(serve::<CacheChain>(c, front) == Some(c2));
                                assert(c2.levels[0] == top_front);
                                lemma_deliver_clears(t.levels, t.memory, 0, out_front);
                                lemma_chain_request_none(c2, request);
                            },
                            None => {},
                        }
                    },
                    Some(lv2) => {
                        let out2 = lv2.lower();
                        lemma_outbox_serve(out_front, out2);
                        assert(out2.skip(0) =~= out2);
                        let lv_all = lv2.rebase(out_front + out2);
                        assert(serve::<AnyCache<Outbox>>(top, requests) == Some(lv_all));
                        let top2 = lv2.with_lower(Seq::empty());
                        assert(lv_all.with_lower(Seq::empty()) == top2);
                        assert(lv_all.lower() == out_front + out2);
                        // batch on all requests
                        lemma_deliver_shift(top2, t.levels, t.memory, 0, out_front + out2);
                        assert(c.levels.update(0, top2) =~= seq![top2] + t.levels);
                        lemma_deliver_is_serve(t, out_front + out2);
                        lemma_serve_append::<CacheChain>(t, out_front, out2);
                        match serve::<CacheChain>(t, out_front) {
                            Some(t2) => {
                                let c2 = ChainView { levels: seq![top_front] + t2.levels, memory: t2.memory };
                                assert(serve::<CacheChain>(c, front) == Some(c2));
                                lemma_deliver_clears(t.levels, t.memory, 0, out_front);
                                lemma_deliver_is_serve(t, out_front);
                                lemma_chain_request_some(c2, t2, request, lv2);
                                lemma_deliver_is_serve(t2, out2);
                            },
                            None => {},
                        }
                    },
                }
            },
        }
    }
}

/// Where the top level cannot serve a request, neither can the chain.
proof fn lemma_chain_request_none(c: ChainView, request: Request)
    requires
        c.levels.len() >= 1,
        request_step::<AnyCache<Outbox>>(c.levels[0], request) is None,
    ensures
        request_step::<CacheChain>(c, request) is None,
{
    lemma_serve_one::<AnyCache<Outbox>>(c.levels[0], request);
}

/// A request to a chain is served by the top level, whose requests are then delivered
/// to the levels below it.
proof fn lemma_chain_request_some(c: ChainView, t: ChainView, request: Request, lv: AnyView<Seq<Request>>)
    requires
        c.levels == seq![c.levels[0]] + t.levels,
        c.memory == t.memory,
        c.levels[0].lower() == Seq::<Request>::empty(),
        request_step::<AnyCache<Outbox>>(c.levels[0], request) == Some(lv),
    ensures
        request_step::<CacheChain>(c, request) == put_above(
            lv.with_lower(Seq::empty()),
            deliver(t.levels, t.memory, 0, lv.lower()),
        ),
{
    lemma_serve_one::<AnyCache<Outbox>>(c.levels[0], request);
    let top2 = lv.with_lower(Seq::empty());
    assert(c.levels.update(0, top2) =~= seq![top2] + t.levels);
    lemma_deliver_shift(top2, t.levels, t.memory, 0, lv.lower());
}

/// Serving one request is one step.
proof fn lemma_serve_one<C: Cache>(v: C::V, request: Request)
    ensures
        serve::<C>(v, seq![request]) == request_step::<C>(v, request),
{
    assert(seq![request].drop_last() =~= Seq::<Request>::empty());
    assert(serve::<C>(v, Seq::empty()) == Some(v));
}

/// A chain is its top level above the chain of the levels below it: a request to the
/// chain is served exactly as the top level, built directly above the rest of the
/// chain, serves it. By induction, a chain serves requests as the same levels nested
/// one above the other do.
pub proof fn lemma_chain_top_above_rest(c: ChainView, request: Request)
    requires
        c.levels.len() >= 1,
        cleared(c.levels),
    ensures
        request_step::<CacheChain>(c, request) == (match request_step::<AnyCache<CacheChain>>(
            c.levels[0].rebase(tail(c)),
            request,
        ) {
            Some(w) => Some(ChainView { levels: seq![w.rebase(Seq::<Request>::empty())] + w.lower().levels, memory: w.lower().memory }),
            None => None,
        }),
{
    let top = c.levels[0];
    let t = tail(c);
    assert(cleared(t.levels));
    assert(c.levels == seq![top] + t.levels);
    lemma_any_request_split::<CacheChain>(top.rebase(t), Seq::empty(), request);
    assert(top.rebase(t).rebase(Seq::<Request>::empty()) == top);
    assert(top.rebase(t).lower() == t);
    match request_step::<AnyCache<Outbox>>(top, request) {
        None => {
            lemma_chain_request_none(c, request);
        },
        Some(lv) => {
            lemma_chain_request_some(c, t, request, lv);
            lemma_deliver_is_serve(t, lv.lower());
            assert(lv.lower().skip(0) =~= lv.lower());
            if let Some(l) = serve::<CacheChain>(t, lv.lower()) {
                let w = lv.rebase(l);
                assert(w.rebase(Seq::<Request>::empty()) == lv.with_lower(Seq::empty()));
                assert(w.lower() == l);
            }
        },
    }
}

} // verus!
