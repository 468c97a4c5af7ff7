//! Address-space layout: region, page and chunk geometry, and the alignment
//! arithmetic the rest of the space is specified against.
//!
//! Addresses are modelled as plain `u64` values. The address 0 is the null
//! address; the model heap hands out addresses in
//! `[HEAP_BASE, HEAP_LIMIT)` only.

use vstd::prelude::*;

verus! {

/// Smallest object granularity: one alloc/mark bit covers this many bytes.
pub const BYTES_IN_REGION: u64 = 16;

/// `BYTES_IN_REGION == 1 << LOG_BYTES_IN_REGION`.
pub const LOG_BYTES_IN_REGION: u64 = 4;

/// A page, the unit of page-mark tracking.
pub const BYTES_IN_PAGE: u64 = 4096;

/// A chunk, the unit of sweep parallelism; naturally aligned.
pub const BYTES_IN_CHUNK: u64 = 4 * 1024 * 1024;

/// One bulk stride of the side-mark sweep covers 128 regions.
pub const BYTES_IN_BULK: u64 = 128 * BYTES_IN_REGION;

/// First address the model allocator ever returns (one whole chunk in, so
/// every block address is nonzero and chunk arithmetic never underflows).
pub const HEAP_BASE: u64 = BYTES_IN_CHUNK;

/// All blocks live strictly below this address; requests past it fail.
pub const HEAP_LIMIT: u64 = 0x4000_0000_0000;

/// Largest single request the allocation adapter accepts.
pub const MAX_REQUEST: u64 = 0x100_0000_0000;

/// Largest alignment the allocation adapter accepts.
pub const MAX_ALIGN: u64 = 0x1_0000_0000;

/// `a` rounded down to a multiple of `k`.
pub open spec fn align_down(a: int, k: int) -> int {
    a - a % k
}

/// `a` rounded up to a multiple of `k`.
pub open spec fn align_up(a: int, k: int) -> int {
    align_down(a + k - 1, k)
}

/// Start of the chunk containing `a`.
pub open spec fn chunk_of(a: int) -> int {
    align_down(a, BYTES_IN_CHUNK as int)
}

/// Start of the page containing `a`.
pub open spec fn page_of(a: int) -> int {
    align_down(a, BYTES_IN_PAGE as int)
}

/// The addresses of the chunk that starts at `cs`.
pub open spec fn chunk_addrs(cs: int) -> Set<u64> {
    Set::new(|a: u64| cs <= a < cs + BYTES_IN_CHUNK)
}

/// A region-aligned address in the half-open window `[lo, hi)`.
pub open spec fn is_region_start_in(a: u64, lo: int, hi: int) -> bool {
    lo <= a < hi && a % BYTES_IN_REGION == 0
}

/// Region-aligned addresses in the half-open window `[lo, hi)`.
pub open spec fn regions_in(lo: int, hi: int) -> Set<u64> {
    Set::new(|a: u64| is_region_start_in(a, lo, hi))
}

/// A page-aligned address in the half-open window `[lo, hi)`.
pub open spec fn is_page_start_in(a: u64, lo: int, hi: int) -> bool {
    lo <= a < hi && a % BYTES_IN_PAGE == 0
}

/// Page-aligned addresses in the half-open window `[lo, hi)`.
pub open spec fn pages_in(lo: int, hi: int) -> Set<u64> {
    Set::new(|a: u64| is_page_start_in(a, lo, hi))
}

/// A chunk start in the closed window `[lo, hi]`.
pub open spec fn is_chunk_start_in(c: u64, lo: int, hi: int) -> bool {
    lo <= c <= hi && c % BYTES_IN_CHUNK == 0
}

/// Chunk starts in the closed window `[lo, hi]`.
pub open spec fn chunks_between(lo: int, hi: int) -> Set<u64> {
    Set::new(|c: u64| is_chunk_start_in(c, lo, hi))
}

proof fn lemma_align_down_props(a: int, k: int)
    requires
        a >= 0,
        k >= 1,
    ensures
        align_down(a, k) % k == 0,
        align_down(a, k) <= a < align_down(a, k) + k,
        align_down(a, k) >= 0,
        a / k * k == align_down(a, k),
{
    assert(align_down(a, k) % k == 0 && align_down(a, k) <= a < align_down(a, k) + k
        && align_down(a, k) >= 0 && a / k * k == align_down(a, k)) by (nonlinear_arith)
        requires
            a >= 0,
            k >= 1,
    ;
}

/// Rounding down lands on an aligned value at or below the argument.
pub proof fn lemma_align_down_bounds(a: int, k: int)
    requires
        a >= 0,
        k >= 1,
    ensures
        align_down(a, k) % k == 0,
        align_down(a, k) <= a < align_down(a, k) + k,
        align_down(a, k) >= 0,
{
    lemma_align_down_props(a, k);
}

/// Rounding down respects the ordering of addresses.
pub proof fn lemma_align_down_monotone(a: int, b: int, k: int)
    requires
        0 <= a <= b,
        k >= 1,
    ensures
        align_down(a, k) <= align_down(b, k),
{
    assert(align_down(a, k) <= align_down(b, k)) by (nonlinear_arith)
        requires
            0 <= a <= b,
            k >= 1,
    ;
}

/// A multiple of a multiple: alignment to `m * k` implies alignment to `k`.
pub proof fn lemma_aligned_weaken(a: int, k: int, m: int)
    requires
        a >= 0,
        k >= 1,
        m >= 1,
        a % (m * k) == 0,
    ensures
        a % k == 0,
{
    let q = a / (m * k);
    assert(a == q * (m * k)) by (nonlinear_arith)
        requires
            a >= 0,
            k >= 1,
            m >= 1,
            a % (m * k) == 0,
            q == a / (m * k),
    ;
    assert((q * m) * k % k == 0) by (nonlinear_arith)
        requires
            k >= 1,
    ;
    assert(q * (m * k) == (q * m) * k) by (nonlinear_arith);
}

/// An aligned value inside a window one alignment unit wide is the window's
/// start.
pub proof fn lemma_unique_aligned_in_window(a: int, x: int, k: int)
    requires
        k >= 1,
        a % k == 0,
        x % k == 0,
        a <= x < a + k,
    ensures
        x == a,
{
    assert(x == a) by (nonlinear_arith)
        requires
            k >= 1,
            a % k == 0,
            x % k == 0,
            a <= x < a + k,
    ;
}

/// Stepping an aligned value by the alignment keeps it aligned.
pub proof fn lemma_aligned_step(c: int, k: int)
    requires
        k >= 1,
        c >= 0,
        c % k == 0,
    ensures
        (c + k) % k == 0,
{
    assert((c + k) % k == 0) by (nonlinear_arith)
        requires
            k >= 1,
            c >= 0,
            c % k == 0,
    ;
}

/// Alignment to `m` implies alignment to any divisor of `m`.
pub proof fn lemma_mod_divides(a: int, m: int, k: int)
    requires
        a >= 0,
        m >= 1,
        k >= 1,
        a % m == 0,
        m % k == 0,
    ensures
        a % k == 0,
{
    let p = a / m;
    let q = m / k;
    assert(a == p * m && m == q * k) by (nonlinear_arith)
        requires
            a >= 0,
            m >= 1,
            k >= 1,
            a % m == 0,
            m % k == 0,
            p == a / m,
            q == m / k,
    ;
    assert(p * (q * k) == (p * q) * k) by (nonlinear_arith);
    assert(((p * q) * k) % k == 0) by (nonlinear_arith)
        requires
            k >= 1,
    ;
}

/// Two distinct aligned values are at least one alignment unit apart.
pub proof fn lemma_aligned_gap(x: int, h: int, k: int)
    requires
        k >= 1,
        x % k == 0,
        h % k == 0,
        x > h,
    ensures
        x >= h + k,
{
    assert(x >= h + k) by (nonlinear_arith)
        requires
            k >= 1,
            x % k == 0,
            h % k == 0,
            x > h,
    ;
}

/// Executable chunk rounding.
pub fn chunk_align_down(a: u64) -> (r: u64)
    ensures
        r == chunk_of(a as int),
        r % BYTES_IN_CHUNK == 0,
        r <= a < r + BYTES_IN_CHUNK,
{
    proof {
        lemma_align_down_props(a as int, BYTES_IN_CHUNK as int);
    }
    a / BYTES_IN_CHUNK * BYTES_IN_CHUNK
}

/// Executable page rounding (down).
pub fn page_align_down(a: u64) -> (r: u64)
    ensures
        r == page_of(a as int),
        r % BYTES_IN_PAGE == 0,
        r <= a < r + BYTES_IN_PAGE,
{
    proof {
        lemma_align_down_props(a as int, BYTES_IN_PAGE as int);
    }
    a / BYTES_IN_PAGE * BYTES_IN_PAGE
}

/// Executable page rounding (up).
pub fn page_align_up(a: u64) -> (r: u64)
    requires
        a <= HEAP_LIMIT,
    ensures
        r == align_up(a as int, BYTES_IN_PAGE as int),
        r % BYTES_IN_PAGE == 0,
        a <= r < a + BYTES_IN_PAGE,
{
    proof {
        lemma_align_down_props(a as int + BYTES_IN_PAGE as int - 1, BYTES_IN_PAGE as int);
    }
    (a + BYTES_IN_PAGE - 1) / BYTES_IN_PAGE * BYTES_IN_PAGE
}

/// Executable rounding up to the region granularity.
pub fn region_align_up(a: u64) -> (r: u64)
    requires
        a <= HEAP_LIMIT + MAX_REQUEST + MAX_ALIGN,
    ensures
        r == align_up(a as int, BYTES_IN_REGION as int),
        r % BYTES_IN_REGION == 0,
        a <= r < a + BYTES_IN_REGION,
{
    proof {
        lemma_align_down_props(a as int + BYTES_IN_REGION as int - 1, BYTES_IN_REGION as int);
    }
    (a + BYTES_IN_REGION - 1) / BYTES_IN_REGION * BYTES_IN_REGION
}

/// Number of whole pages needed to hold `bytes` bytes (ceiling division).
pub fn bytes_to_pages_up(bytes: u64) -> (r: u64)
    requires
        bytes <= HEAP_LIMIT,
    ensures
        r == (bytes as int + BYTES_IN_PAGE - 1) / (BYTES_IN_PAGE as int),
        r * BYTES_IN_PAGE >= bytes,
        bytes == 0 ==> r == 0,
{
    proof {
        let p = BYTES_IN_PAGE as int;
        let b = bytes as int;
        assert(((b + p - 1) / p) * p >= b && (b == 0 ==> (b + p - 1) / p == 0))
            by (nonlinear_arith)
            requires
                p == 4096,
                0 <= b,
        ;
    }
    (bytes + BYTES_IN_PAGE - 1) / BYTES_IN_PAGE
}

} // verus!
