use vstd::prelude::*;
use crate::cache::{Cache, MainMemory};

verus! {

/// One memory access of a trace.
#[derive(Debug, Clone, Copy)]
pub struct TraceEntry {
    pub address: u64,
    pub size: u64,
}

/// Every line of a trace file takes this many bytes, its newline included.
pub const LINE_WIDTH: usize = 40;

/// The address is written as 16 hexadecimal digits from this byte of a line on.
pub const ADDRESS_OFFSET: usize = 17;

/// The size is written as 3 decimal digits from this byte of a line on.
pub const SIZE_OFFSET: usize = 36;

/// The value of a hexadecimal digit: its low nibble, plus 9 for the letters `a`-`f`
/// and `A`-`F`, which lie above `9` in ASCII. Any byte gives a value below 16.
pub open spec fn hex_digit(b: u8) -> u64 {
    let offset: u64 = if 0x39 < b && b < 0x80 { 9 } else { 0 };
    ((((b & 0x0f) as u64) + offset) % 16) as u64
}

/// The number that the first `n` of the digits from `at` on spell, most significant first.
pub open spec fn hex_prefix(bytes: Seq<u8>, at: int, n: nat) -> nat
    decreases n,
{
    if n == 0 {
        0
    } else {
        hex_prefix(bytes, at, (n - 1) as nat) * 16 + hex_digit(bytes[at + n - 1]) as nat
    }
}

/// The value of a decimal digit: its low nibble.
pub open spec fn decimal_digit(b: u8) -> u64 {
    (b & 0x0f) as u64
}

/// The number that the 3 decimal digits from `at` on spell.
pub open spec fn decimal3(bytes: Seq<u8>, at: int) -> nat {
    (decimal_digit(bytes[at]) * 100 + decimal_digit(bytes[at + 1]) * 10 + decimal_digit(bytes[at + 2])) as nat
}

/// The number of whole lines in a trace of `len` bytes.
pub open spec fn trace_len(len: nat) -> nat {
    len / LINE_WIDTH as nat
}

/// The access that line `j` of a trace describes.
pub open spec fn entry_at(bytes: Seq<u8>, j: int) -> TraceEntry {
    let line = j * LINE_WIDTH;
    TraceEntry {
        address: hex_prefix(bytes, line + ADDRESS_OFFSET, 16) as u64,
        size: decimal3(bytes, line + SIZE_OFFSET) as u64,
    }
}

/// The accesses a trace describes, one per whole line, in order.
pub open spec fn trace_entries(bytes: Seq<u8>) -> Seq<TraceEntry> {
    Seq::new(trace_len(bytes.len()), |j: int| entry_at(bytes, j))
}

/// The state of a cache hierarchy after the given accesses, in order.
pub open spec fn after_entries<C: Cache>(v: C::V, entries: Seq<TraceEntry>) -> Option<C::V>
    decreases entries.len(),
{
    if entries.len() == 0 {
        Some(v)
    } else {
        match after_entries::<C>(v, entries.drop_last()) {
            Some(w) => C::after_access(w, entries.last().address, entries.last().size),
            None => None,
        }
    }
}

/// The largest number that `n` hexadecimal digits spell.
spec fn hex_max(n: nat) -> nat
    decreases n,
{
    if n == 0 {
        0
    } else {
        hex_max((n - 1) as nat) * 16 + 15
    }
}

proof fn lemma_hex_prefix_bound(bytes: Seq<u8>, at: int, n: nat, m: nat)
    requires
        n <= m,
    ensures
        hex_prefix(bytes, at, n) <= hex_max(n) <= hex_max(m),
    decreases m,
{
    if n < m {
        lemma_hex_prefix_bound(bytes, at, n, (m - 1) as nat);
    } else if n > 0 {
        lemma_hex_prefix_bound(bytes, at, (n - 1) as nat, (n - 1) as nat);
    }
}

/// The number that 16 hexadecimal digits spell, from byte `at` of `bytes` on.
pub fn parse_hex_u64(bytes: &[u8], at: usize) -> (r: u64)
    requires
        at + 16 <= bytes@.len(),
    ensures
        r == hex_prefix(bytes@, at as int, 16),
{
    let n = bytes.len();
    let mut value: u64 = 0;
    let mut i: usize = 0;
    proof {
        reveal_with_fuel(hex_max, 17);
        assert(hex_max(16) == 0xffff_ffff_ffff_ffff);
    }
    while i < 16
        invariant
            at + 16 <= bytes@.len() == n,
            i <= 16,
            value == hex_prefix(bytes@, at as int, i as nat),
            hex_max(16) == 0xffff_ffff_ffff_ffff,
        decreases 16 - i,
    {
        let b = bytes[at + i];
        let offset: u64 = if 0x39 < b && b < 0x80 { 9 } else { 0 };
        let digit = (((b & 0x0f) as u64) + offset) % 16;
        proof {
            lemma_hex_prefix_bound(bytes@, at as int, (i + 1) as nat, 16);
        }
        value = value * 16 + digit;
        i += 1;
    }
    value
}

/// The number that 3 decimal digits spell, from byte `at` of `bytes` on.
pub fn parse_decimal_u64(bytes: &[u8], at: usize) -> (r: u64)
    requires
        at + 3 <= bytes@.len(),
    ensures
        r == decimal3(bytes@, at as int),
{
    let _ = bytes.len();
    let b0 = bytes[at];
    let b1 = bytes[at + 1];
    let b2 = bytes[at + 2];
    proof {
        assert(b0 & 0x0f <= 0x0f) by (bit_vector);
        assert(b1 & 0x0f <= 0x0f) by (bit_vector);
        assert(b2 & 0x0f <= 0x0f) by (bit_vector);
    }
    let d0 = (b0 & 0x0f) as u64;
    let d1 = (b1 & 0x0f) as u64;
    let d2 = (b2 & 0x0f) as u64;
    d0 * 100 + d1 * 10 + d2
}

/// The number of whole lines in a trace of `len` bytes.
pub fn line_count(len: usize) -> (r: u64)
    ensures
        r == trace_len(len as nat),
{
    (len / LINE_WIDTH) as u64
}

/// The access that line `j` of a trace describes.
pub fn trace_entry_at(bytes: &[u8], j: usize) -> (e: TraceEntry)
    requires
        j < trace_len(bytes@.len()),
    ensures
        e == entry_at(bytes@, j as int),
{
    let n = bytes.len();
    proof {
        assert(j * 40 + 40 <= n) by (nonlinear_arith)
            requires
                j < n / 40,
        ;
    }
    let line_offset = j * LINE_WIDTH;
    TraceEntry {
        address: parse_hex_u64(bytes, line_offset + ADDRESS_OFFSET),
        size: parse_decimal_u64(bytes, line_offset + SIZE_OFFSET),
    }
}

/// Runs every access of a trace through a cache hierarchy, in order, one whole line of
/// the trace at a time.
pub fn run_trace<C: Cache>(top_cache: &mut C, trace: &[u8])
    requires
        old(top_cache).wf(),
        after_entries::<C>(old(top_cache)@, trace_entries(trace@)) is Some,
    ensures
        final(top_cache).wf(),
        final(top_cache)@ == after_entries::<C>(old(top_cache)@, trace_entries(trace@)).unwrap(),
{
    let ghost v0 = top_cache@;
    let ghost entries = trace_entries(trace@);
    let total_lines = trace.len() / LINE_WIDTH;
    let mut j: usize = 0;
    while j < total_lines
        invariant
            total_lines == trace_len(trace@.len()),
            j <= total_lines,
            entries == trace_entries(trace@),
            top_cache.wf(),
            after_entries::<C>(v0, entries) is Some,
            after_entries::<C>(v0, entries.take(j as int)) == Some(top_cache@),
        decreases total_lines - j,
    {
        proof {
            lemma_after_entries_prefix::<C>(v0, entries, (j + 1) as nat);
            assert(entries.take(j + 1).drop_last() =~= entries.take(j as int));
        }
        let entry = trace_entry_at(trace, j);
        top_cache.access(entry.address, entry.size);
        j += 1;
    }
    assert(entries.take(j as int) =~= entries);
}

/// Runs the accesses of a trace through a cache hierarchy, in order, one whole line of
/// the trace at a time, as far as the hierarchy can serve them, and says whether it
/// served them all. Where it could not, the state it leaves is unstated.
pub fn run_trace_checked<C: Cache>(top_cache: &mut C, trace: &[u8]) -> (ok: bool)
    requires
        old(top_cache).wf(),
    ensures
        ok == after_entries::<C>(old(top_cache)@, trace_entries(trace@)) is Some,
        ok ==> final(top_cache).wf(),
        ok ==> final(top_cache)@ == after_entries::<C>(old(top_cache)@, trace_entries(trace@)).unwrap(),
{
    let ghost v0 = top_cache@;
    let ghost entries = trace_entries(trace@);
    let total_lines = trace.len() / LINE_WIDTH;
    let mut j: usize = 0;
    while j < total_lines
        invariant
            total_lines == trace_len(trace@.len()),
            j <= total_lines,
            entries == trace_entries(trace@),
            v0 == old(top_cache)@,
            top_cache.wf(),
            after_entries::<C>(v0, entries.take(j as int)) == Some(top_cache@),
        decreases total_lines - j,
    {
        proof {
            assert(entries.take(j + 1).drop_last() =~= entries.take(j as int));
            assert(entries.take(j + 1).last() == entries[j as int]);
        }
        let entry = trace_entry_at(trace, j);
        if !top_cache.try_access(entry.address, entry.size) {
            proof {
                assert(after_entries::<C>(v0, entries.take(j + 1)) is None);
                if after_entries::<C>(v0, entries) is Some {
                    lemma_after_entries_prefix::<C>(v0, entries, (j + 1) as nat);
                }
            }
            return false;
        }
        j += 1;
    }
    assert(entries.take(j as int) =~= entries);
    true
}

/// Where a run of accesses completes, so does every run of a prefix of them.
proof fn lemma_after_entries_prefix<C: Cache>(v: C::V, entries: Seq<TraceEntry>, n: nat)
    requires
        n <= entries.len(),
        after_entries::<C>(v, entries) is Some,
    ensures
        after_entries::<C>(v, entries.take(n as int)) is Some,
    decreases entries.len(),
{
    if n < entries.len() {
        assert(entries.drop_last().take(n as int) =~= entries.take(n as int));
        lemma_after_entries_prefix::<C>(v, entries.drop_last(), n);
    } else {
        assert(entries.take(n as int) =~= entries);
    }
}

/// The digits `0`-`9`, `a`-`f` and `A`-`F` have their hexadecimal values, and the
/// low nibble of `0`-`9` is the decimal digit.
pub proof fn lemma_digit_values(b: u8)
    ensures
        0x30 <= b <= 0x39 ==> hex_digit(b) == b - 0x30 && decimal_digit(b) == b - 0x30,
        0x61 <= b <= 0x66 ==> hex_digit(b) == b - 0x61 + 10,
        0x41 <= b <= 0x46 ==> hex_digit(b) == b - 0x41 + 10,
{
    assert(0x30 <= b <= 0x39 ==> (b & 0x0f) == b - 0x30) by (bit_vector);
    assert(0x61 <= b <= 0x66 ==> (b & 0x0f) == b - 0x60) by (bit_vector);
    assert(0x41 <= b <= 0x46 ==> (b & 0x0f) == b - 0x40) by (bit_vector);
}

/// With no cache, every access of a trace reaches main memory once: running a trace
/// through main memory counts its lines.
pub proof fn lemma_memory_counts_lines(v: u64, entries: Seq<TraceEntry>)
    requires
        v + entries.len() <= u64::MAX,
    ensures
        after_entries::<MainMemory>(v, entries) == Some((v + entries.len()) as u64),
    decreases entries.len(),
{
    if entries.len() > 0 {
        lemma_memory_counts_lines(v, entries.drop_last());
    }
}

/// A trace is run in file order: entry `j` of the run is the access written on whole
/// line `j` of the trace, its address the 16 hexadecimal digits from byte 17 of that
/// line and its size the 3 decimal digits from byte 36; there is one entry per whole
/// line of 40 bytes.
pub proof fn lemma_trace_entries_in_order(bytes: Seq<u8>, j: int)
    requires
        0 <= j < bytes.len() / 40,
    ensures
        trace_entries(bytes).len() == bytes.len() / 40,
        trace_entries(bytes)[j].address == hex_prefix(bytes, 40 * j + 17, 16),
        trace_entries(bytes)[j].size == decimal3(bytes, 40 * j + 36),
{
    lemma_hex_prefix_bound(bytes, 40 * j + 17, 16, 16);
    reveal_with_fuel(hex_max, 17);
}

/// The digits a trace spells depend only on the bytes they are written in.
proof fn lemma_hex_prefix_concat(a: Seq<u8>, b: Seq<u8>, at: int, n: nat)
    requires
        0 <= at,
    ensures
        at + n <= a.len() ==> hex_prefix(a + b, at, n) == hex_prefix(a, at, n),
        at >= a.len() && at + n <= a.len() + b.len() ==> hex_prefix(a + b, at, n) == hex_prefix(
            b,
            at - a.len(),
            n,
        ),
    decreases n,
{
    if n > 0 {
        lemma_hex_prefix_concat(a, b, at, (n - 1) as nat);
        if at >= a.len() && at + n <= a.len() + b.len() {
            assert((a + b)[at + n - 1] == b[at - a.len() + n - 1]);
        }
    }
}

/// Two traces written one after the other, the first of whole lines only, run as the
/// first trace's accesses followed by the second's.
pub proof fn lemma_trace_entries_concat(a: Seq<u8>, b: Seq<u8>)
    requires
        a.len() % 40 == 0,
    ensures
        trace_entries(a + b) == trace_entries(a) + trace_entries(b),
{
    let na = a.len() / 40;
    let nb = b.len() / 40;
    assert((a.len() + b.len()) / 40 == na + nb) by (nonlinear_arith)
        requires
            a.len() % 40 == 0,
            na == a.len() / 40,
            nb == b.len() / 40,
    ;
    let s = trace_entries(a + b);
    let t = trace_entries(a) + trace_entries(b);
    assert forall|j: int| 0 <= j < s.len() implies s[j] == t[j] by {
        if j < na {
            assert(40 * j + 40 <= a.len()) by (nonlinear_arith)
                requires
                    0 <= j < na,
                    na == a.len() / 40,
            ;
            lemma_hex_prefix_concat(a, b, 40 * j + 17, 16);
        } else {
            let jb = j - na;
            assert(40 * j == a.len() + 40 * jb && 40 * jb + 40 <= b.len()) by (nonlinear_arith)
                requires
                    a.len() % 40 == 0,
                    na == a.len() / 40,
                    nb == b.len() / 40,
                    jb == j - na,
                    0 <= jb < nb,
            ;
            lemma_hex_prefix_concat(a, b, 40 * j + 17, 16);
        }
    }
    assert(s =~= t);
}

} // verus!
