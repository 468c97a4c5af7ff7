//! Side-metadata facade.
//!
//! Every per-object, per-page and per-chunk predicate of the space goes
//! through this table: the alloc bit and mark bit of an object, the page
//! mark, the chunk mark, the offset-malloc bit of a block start, and the
//! lazily grown set of chunks whose metadata backing is mapped.
//!
//! Bitmaps are modelled as sets of addresses. A bit keyed by an object
//! covers one region of `BYTES_IN_REGION` bytes, so every member of the
//! alloc and mark tables is region aligned; page and chunk tables hold page
//! and chunk starts.

use vstd::prelude::*;
use std::collections::HashSet;
use crate::layout::{
    BYTES_IN_REGION, BYTES_IN_PAGE, BYTES_IN_CHUNK, BYTES_IN_BULK, HEAP_LIMIT, chunk_of,
    is_chunk_start_in, is_region_start_in, chunk_align_down,
};

verus! {

broadcast use vstd::std_specs::hash::group_hash_axioms;

/// `i`-th bit of a bulk-loaded metadata word.
pub open spec fn bit128(x: u128, i: u128) -> bool {
    (x >> i) & 1 == 1
}

/// Address of the `i`-th region after `start`.
pub open spec fn region_index_addr(start: u64, i: u128) -> u64 {
    (start + i * BYTES_IN_REGION) as u64
}

/// Declarative description of one side-metadata bitmap: how many bytes of
/// data one bit of it covers.
#[derive(Clone, Copy, PartialEq, Eq, Structural)]
pub struct SideMetadataSpec {
    pub log_bytes_in_region: u64,
}

/// The full set of side-metadata bitmaps a space consumes, split into the
/// globally shared ones and the space-local ones.
pub struct SideMetadataContext {
    pub global: Vec<SideMetadataSpec>,
    pub local: Vec<SideMetadataSpec>,
}

/// All side-metadata bit tables of one space.
pub struct Metadata {
    alloc: HashSet<u64>,
    mark: HashSet<u64>,
    page: HashSet<u64>,
    chunk: HashSet<u64>,
    offset: HashSet<u64>,
    mapped: HashSet<u64>,
}

impl Metadata {
    pub closed spec fn alloc_set(self) -> Set<u64> {
        self.alloc@
    }

    pub closed spec fn mark_set(self) -> Set<u64> {
        self.mark@
    }

    pub closed spec fn page_set(self) -> Set<u64> {
        self.page@
    }

    pub closed spec fn chunk_set(self) -> Set<u64> {
        self.chunk@
    }

    pub closed spec fn offset_set(self) -> Set<u64> {
        self.offset@
    }

    pub closed spec fn mapped_set(self) -> Set<u64> {
        self.mapped@
    }

    /// Alignment discipline of the tables: object bits sit on region
    /// starts, page marks on page starts, chunk marks and mappings on chunk
    /// starts.
    pub open spec fn inv(self) -> bool {
        &&& forall|a: u64| #[trigger] self.alloc_set().contains(a) ==> a % BYTES_IN_REGION == 0
        &&& forall|a: u64| #[trigger] self.mark_set().contains(a) ==> a % BYTES_IN_REGION == 0
        &&& forall|p: u64| #[trigger] self.page_set().contains(p) ==> p % BYTES_IN_PAGE == 0
        &&& forall|c: u64| #[trigger] self.chunk_set().contains(c) ==> c % BYTES_IN_CHUNK == 0
        &&& forall|c: u64| #[trigger] self.mapped_set().contains(c) ==> c % BYTES_IN_CHUNK == 0
    }

    pub fn new() -> (r: Metadata)
        ensures
            r.inv(),
            r.alloc_set() == Set::<u64>::empty(),
            r.mark_set() == Set::<u64>::empty(),
            r.page_set() == Set::<u64>::empty(),
            r.chunk_set() == Set::<u64>::empty(),
            r.offset_set() == Set::<u64>::empty(),
            r.mapped_set() == Set::<u64>::empty(),
    {
        Metadata {
            alloc: HashSet::new(),
            mark: HashSet::new(),
            page: HashSet::new(),
            chunk: HashSet::new(),
            offset: HashSet::new(),
            mapped: HashSet::new(),
        }
    }

    /// True iff an object currently begins at `a`.
    pub fn is_alloced(&self, a: u64) -> (r: bool)
        ensures
            r == self.alloc_set().contains(a),
    {
        self.alloc.contains(&a)
    }

    /// The cheapest check that some object begins at `a`; sound even for
    /// addresses the space has never touched.
    pub fn has_object_alloced(&self, a: u64) -> (r: bool)
        ensures
            r == self.alloc_set().contains(a),
    {
        self.alloc.contains(&a)
    }

    pub fn set_alloc_bit(&mut self, o: u64)
        requires
            old(self).inv(),
            o % BYTES_IN_REGION == 0,
        ensures
            final(self).inv(),
            final(self).alloc_set() == old(self).alloc_set().insert(o),
            final(self).mark_set() == old(self).mark_set(),
            final(self).page_set() == old(self).page_set(),
            final(self).chunk_set() == old(self).chunk_set(),
            final(self).offset_set() == old(self).offset_set(),
            final(self).mapped_set() == old(self).mapped_set(),
    {
        self.alloc.insert(o);
        proof {
            assert(self.mark_set() == old(self).mark_set());
            assert(self.page_set() == old(self).page_set());
            assert(self.chunk_set() == old(self).chunk_set());
            assert(self.offset_set() == old(self).offset_set());
            assert(self.mapped_set() == old(self).mapped_set());
            assert forall|a: u64| #[trigger] self.alloc_set().contains(a)
                implies a % BYTES_IN_REGION == 0 by {
                if a != o {
                    assert(old(self).alloc_set().contains(a));
                }
            }
        }
    }

    pub fn unset_alloc_bit(&mut self, o: u64)
        requires
            old(self).inv(),
        ensures
            final(self).inv(),
            final(self).alloc_set() == old(self).alloc_set().remove(o),
            final(self).mark_set() == old(self).mark_set(),
            final(self).page_set() == old(self).page_set(),
            final(self).chunk_set() == old(self).chunk_set(),
            final(self).offset_set() == old(self).offset_set(),
            final(self).mapped_set() == old(self).mapped_set(),
    {
        self.alloc.remove(&o);
        proof {
            assert(self.mark_set() == old(self).mark_set());
            assert(self.page_set() == old(self).page_set());
            assert(self.chunk_set() == old(self).chunk_set());
            assert(self.offset_set() == old(self).offset_set());
            assert(self.mapped_set() == old(self).mapped_set());
            assert forall|a: u64| #[trigger] self.alloc_set().contains(a)
                implies a % BYTES_IN_REGION == 0 by {
                assert(old(self).alloc_set().contains(a));
            }
        }
    }

    pub fn is_marked(&self, o: u64) -> (r: bool)
        ensures
            r == self.mark_set().contains(o),
    {
        self.mark.contains(&o)
    }

    pub fn set_mark_bit(&mut self, o: u64)
        requires
            old(self).inv(),
            o % BYTES_IN_REGION == 0,
        ensures
            final(self).inv(),
            final(self).mark_set() == old(self).mark_set().insert(o),
            final(self).alloc_set() == old(self).alloc_set(),
            final(self).page_set() == old(self).page_set(),
            final(self).chunk_set() == old(self).chunk_set(),
            final(self).offset_set() == old(self).offset_set(),
            final(self).mapped_set() == old(self).mapped_set(),
    {
        self.mark.insert(o);
        proof {
            assert(self.alloc_set() == old(self).alloc_set());
            assert(self.page_set() == old(self).page_set());
            assert(self.chunk_set() == old(self).chunk_set());
            assert(self.offset_set() == old(self).offset_set());
            assert(self.mapped_set() == old(self).mapped_set());
            assert forall|a: u64| #[trigger] self.mark_set().contains(a)
                implies a % BYTES_IN_REGION == 0 by {
                if a != o {
                    assert(old(self).mark_set().contains(a));
                }
            }
        }
    }

    pub fn unset_mark_bit(&mut self, o: u64)
        requires
            old(self).inv(),
        ensures
            final(self).inv(),
            final(self).mark_set() == old(self).mark_set().remove(o),
            final(self).alloc_set() == old(self).alloc_set(),
            final(self).page_set() == old(self).page_set(),
            final(self).chunk_set() == old(self).chunk_set(),
            final(self).offset_set() == old(self).offset_set(),
            final(self).mapped_set() == old(self).mapped_set(),
    {
        self.mark.remove(&o);
        proof {
            assert(self.alloc_set() == old(self).alloc_set());
            assert(self.page_set() == old(self).page_set());
            assert(self.chunk_set() == old(self).chunk_set());
            assert(self.offset_set() == old(self).offset_set());
            assert(self.mapped_set() == old(self).mapped_set());
            assert forall|a: u64| #[trigger] self.mark_set().contains(a)
                implies a % BYTES_IN_REGION == 0 by {
                assert(old(self).mark_set().contains(a));
            }
        }
    }

    /// True iff the page starting at `p` carries the page mark.
    pub fn is_page_marked(&self, p: u64) -> (r: bool)
        ensures
            r == self.page_set().contains(p),
    {
        self.page.contains(&p)
    }

    pub fn set_page_mark(&mut self, p: u64)
        requires
            old(self).inv(),
            p % BYTES_IN_PAGE == 0,
        ensures
            final(self).inv(),
            final(self).page_set() == old(self).page_set().insert(p),
            final(self).alloc_set() == old(self).alloc_set(),
            final(self).mark_set() == old(self).mark_set(),
            final(self).chunk_set() == old(self).chunk_set(),
            final(self).offset_set() == old(self).offset_set(),
            final(self).mapped_set() == old(self).mapped_set(),
    {
        self.page.insert(p);
        proof {
            assert(self.alloc_set() == old(self).alloc_set());
            assert(self.mark_set() == old(self).mark_set());
            assert(self.chunk_set() == old(self).chunk_set());
            assert(self.offset_set() == old(self).offset_set());
            assert(self.mapped_set() == old(self).mapped_set());
            assert forall|a: u64| #[trigger] self.page_set().contains(a)
                implies a % BYTES_IN_PAGE == 0 by {
                if a != p {
                    assert(old(self).page_set().contains(a));
                }
            }
        }
    }

    pub fn unset_page_mark(&mut self, p: u64)
        requires
            old(self).inv(),
        ensures
            final(self).inv(),
            final(self).page_set() == old(self).page_set().remove(p),
            final(self).alloc_set() == old(self).alloc_set(),
            final(self).mark_set() == old(self).mark_set(),
            final(self).chunk_set() == old(self).chunk_set(),
            final(self).offset_set() == old(self).offset_set(),
            final(self).mapped_set() == old(self).mapped_set(),
    {
        self.page.remove(&p);
        proof {
            assert(self.alloc_set() == old(self).alloc_set());
            assert(self.mark_set() == old(self).mark_set());
            assert(self.chunk_set() == old(self).chunk_set());
            assert(self.offset_set() == old(self).offset_set());
            assert(self.mapped_set() == old(self).mapped_set());
            assert forall|a: u64| #[trigger] self.page_set().contains(a)
                implies a % BYTES_IN_PAGE == 0 by {
                assert(old(self).page_set().contains(a));
            }
        }
    }

    pub fn set_chunk_mark(&mut self, c: u64)
        requires
            old(self).inv(),
            c % BYTES_IN_CHUNK == 0,
        ensures
            final(self).inv(),
            final(self).chunk_set() == old(self).chunk_set().insert(c),
            final(self).alloc_set() == old(self).alloc_set(),
            final(self).mark_set() == old(self).mark_set(),
            final(self).page_set() == old(self).page_set(),
            final(self).offset_set() == old(self).offset_set(),
            final(self).mapped_set() == old(self).mapped_set(),
    {
        self.chunk.insert(c);
        proof {
            assert(self.alloc_set() == old(self).alloc_set());
            assert(self.mark_set() == old(self).mark_set());
            assert(self.page_set() == old(self).page_set());
            assert(self.offset_set() == old(self).offset_set());
            assert(self.mapped_set() == old(self).mapped_set());
            assert forall|a: u64| #[trigger] self.chunk_set().contains(a)
                implies a % BYTES_IN_CHUNK == 0 by {
                if a != c {
                    assert(old(self).chunk_set().contains(a));
                }
            }
        }
    }

    pub fn unset_chunk_mark(&mut self, c: u64)
        requires
            old(self).inv(),
        ensures
            final(self).inv(),
            final(self).chunk_set() == old(self).chunk_set().remove(c),
            final(self).alloc_set() == old(self).alloc_set(),
            final(self).mark_set() == old(self).mark_set(),
            final(self).page_set() == old(self).page_set(),
            final(self).offset_set() == old(self).offset_set(),
            final(self).mapped_set() == old(self).mapped_set(),
    {
        self.chunk.remove(&c);
        proof {
            assert(self.alloc_set() == old(self).alloc_set());
            assert(self.mark_set() == old(self).mark_set());
            assert(self.page_set() == old(self).page_set());
            assert(self.offset_set() == old(self).offset_set());
            assert(self.mapped_set() == old(self).mapped_set());
            assert forall|a: u64| #[trigger] self.chunk_set().contains(a)
                implies a % BYTES_IN_CHUNK == 0 by {
                assert(old(self).chunk_set().contains(a));
            }
        }
    }

    pub fn is_offset_malloc(&self, a: u64) -> (r: bool)
        ensures
            r == self.offset_set().contains(a),
    {
        self.offset.contains(&a)
    }

    pub fn set_offset_malloc_bit(&mut self, a: u64)
        requires
            old(self).inv(),
        ensures
            final(self).inv(),
            final(self).offset_set() == old(self).offset_set().insert(a),
            final(self).alloc_set() == old(self).alloc_set(),
            final(self).mark_set() == old(self).mark_set(),
            final(self).page_set() == old(self).page_set(),
            final(self).chunk_set() == old(self).chunk_set(),
            final(self).mapped_set() == old(self).mapped_set(),
    {
        self.offset.insert(a);
        proof {
            assert(self.alloc_set() == old(self).alloc_set());
            assert(self.mark_set() == old(self).mark_set());
            assert(self.page_set() == old(self).page_set());
            assert(self.chunk_set() == old(self).chunk_set());
            assert(self.mapped_set() == old(self).mapped_set());
        }
    }

    pub fn unset_offset_malloc_bit(&mut self, a: u64)
        requires
            old(self).inv(),
        ensures
            final(self).inv(),
            final(self).offset_set() == old(self).offset_set().remove(a),
            final(self).alloc_set() == old(self).alloc_set(),
            final(self).mark_set() == old(self).mark_set(),
            final(self).page_set() == old(self).page_set(),
            final(self).chunk_set() == old(self).chunk_set(),
            final(self).mapped_set() == old(self).mapped_set(),
    {
        self.offset.remove(&a);
        proof {
            assert(self.alloc_set() == old(self).alloc_set());
            assert(self.mark_set() == old(self).mark_set());
            assert(self.page_set() == old(self).page_set());
            assert(self.chunk_set() == old(self).chunk_set());
            assert(self.mapped_set() == old(self).mapped_set());
        }
    }

    /// True iff backing metadata exists for every chunk that the block
    /// `[a, a + size]` touches.
    pub fn is_meta_space_mapped(&self, a: u64, size: u64) -> (r: bool)
        requires
            self.inv(),
            a + size <= HEAP_LIMIT,
        ensures
            r == (forall|x: u64|
                is_chunk_start_in(x, chunk_of(a as int), chunk_of(a as int + size))
                    ==> #[trigger] self.mapped_set().contains(x)),
    {
        let lo = chunk_align_down(a);
        let hi = chunk_align_down(a + size);
        let mut c = lo;
        loop
            invariant
                self.inv(),
                lo == chunk_of(a as int),
                hi == chunk_of(a as int + size),
                lo <= c <= hi + BYTES_IN_CHUNK,
                c % BYTES_IN_CHUNK == 0,
                lo % BYTES_IN_CHUNK == 0,
                hi % BYTES_IN_CHUNK == 0,
                hi + BYTES_IN_CHUNK <= u64::MAX,
                forall|x: u64|
                    is_chunk_start_in(x, lo as int, c as int - 1)
                        ==> #[trigger] self.mapped_set().contains(x),
            decreases hi + BYTES_IN_CHUNK - c,
        {
            if c > hi {
                proof {
                    assert forall|x: u64| is_chunk_start_in(x, lo as int, hi as int)
                        implies #[trigger] self.mapped_set().contains(x) by {
                        assert(is_chunk_start_in(x, lo as int, c as int - 1));
                    }
                }
                return true;
            }
            if !self.mapped.contains(&c) {
                proof {
                    assert(is_chunk_start_in(c, lo as int, hi as int));
                    assert(!self.mapped_set().contains(c));
                }
                return false;
            }
            proof {
                assert(self.mapped_set().contains(c));
                assert forall|x: u64| is_chunk_start_in(x, lo as int, c as int + BYTES_IN_CHUNK - 1)
                    implies #[trigger] self.mapped_set().contains(x) by {
                    if x > c - 1 {
                        crate::layout::lemma_unique_aligned_in_window(
                            c as int,
                            x as int,
                            BYTES_IN_CHUNK as int,
                        );
                    } else {
                        assert(is_chunk_start_in(x, lo as int, c as int - 1));
                    }
                }
                crate::layout::lemma_aligned_step(c as int, BYTES_IN_CHUNK as int);
            }
            c = c + BYTES_IN_CHUNK;
        }
    }

    /// Lay down backing metadata for every chunk that the block
    /// `[a, a + size]` touches.
    pub fn map_meta_space(&mut self, a: u64, size: u64)
        requires
            old(self).inv(),
            a + size <= HEAP_LIMIT,
        ensures
            final(self).inv(),
            forall|x: u64|
                #[trigger] final(self).mapped_set().contains(x)
                    <==> (old(self).mapped_set().contains(x) || is_chunk_start_in(
                    x,
                    chunk_of(a as int),
                    chunk_of(a as int + size),
                )),
            final(self).alloc_set() == old(self).alloc_set(),
            final(self).mark_set() == old(self).mark_set(),
            final(self).page_set() == old(self).page_set(),
            final(self).chunk_set() == old(self).chunk_set(),
            final(self).offset_set() == old(self).offset_set(),
    {
        let lo = chunk_align_down(a);
        let hi = chunk_align_down(a + size);
        let mut c = lo;
        loop
            invariant
                self.inv(),
                lo == chunk_of(a as int),
                hi == chunk_of(a as int + size),
                lo <= c <= hi + BYTES_IN_CHUNK,
                c % BYTES_IN_CHUNK == 0,
                lo % BYTES_IN_CHUNK == 0,
                hi % BYTES_IN_CHUNK == 0,
                hi + BYTES_IN_CHUNK <= u64::MAX,
                forall|x: u64|
                    #[trigger] self.mapped_set().contains(x)
                        <==> (old(self).mapped_set().contains(x) || is_chunk_start_in(
                        x,
                        lo as int,
                        c as int - 1,
                    )),
                self.alloc_set() == old(self).alloc_set(),
                self.mark_set() == old(self).mark_set(),
                self.page_set() == old(self).page_set(),
                self.chunk_set() == old(self).chunk_set(),
                self.offset_set() == old(self).offset_set(),
            decreases hi + BYTES_IN_CHUNK - c,
        {
            if c > hi {
                proof {
                    assert forall|x: u64|
                        #[trigger] self.mapped_set().contains(x)
                            <==> (old(self).mapped_set().contains(x) || is_chunk_start_in(
                            x,
                            lo as int,
                            hi as int,
                        )) by {
                        if is_chunk_start_in(x, lo as int, hi as int) {
                            assert(is_chunk_start_in(x, lo as int, c as int - 1));
                        }
                        if self.mapped_set().contains(x)
                            && !old(self).mapped_set().contains(x) {
                            assert(is_chunk_start_in(x, lo as int, c as int - 1));
                            if x as int > hi as int {
                                crate::layout::lemma_aligned_gap(
                                    x as int,
                                    hi as int,
                                    BYTES_IN_CHUNK as int,
                                );
                            }
                            assert(is_chunk_start_in(x, lo as int, hi as int));
                        }
                    }
                }
                return ;
            }
            let ghost prev = self.mapped_set();
            self.mapped.insert(c);
            proof {
                assert(self.mapped_set() == prev.insert(c));
                assert(self.alloc_set() == old(self).alloc_set());
                assert(self.mark_set() == old(self).mark_set());
                assert(self.page_set() == old(self).page_set());
                assert(self.chunk_set() == old(self).chunk_set());
                assert(self.offset_set() == old(self).offset_set());
                assert forall|x: u64| #[trigger] self.mapped_set().contains(x)
                    implies x % BYTES_IN_CHUNK == 0 by {
                    if x != c {
                        assert(prev.contains(x));
                    }
                }
                assert forall|x: u64|
                    #[trigger] self.mapped_set().contains(x)
                        <==> (old(self).mapped_set().contains(x) || is_chunk_start_in(
                        x,
                        lo as int,
                        c as int + BYTES_IN_CHUNK - 1,
                    )) by {
                    if x == c {
                        assert(is_chunk_start_in(x, lo as int, c as int + BYTES_IN_CHUNK - 1));
                    } else {
                        assert(self.mapped_set().contains(x) == prev.contains(x));
                        if is_chunk_start_in(x, lo as int, c as int + BYTES_IN_CHUNK - 1)
                            && !is_chunk_start_in(x, lo as int, c as int - 1) {
                            crate::layout::lemma_unique_aligned_in_window(
                                c as int,
                                x as int,
                                BYTES_IN_CHUNK as int,
                            );
                        }
                    }
                }
                crate::layout::lemma_aligned_step(c as int, BYTES_IN_CHUNK as int);
            }
            c = c + BYTES_IN_CHUNK;
        }
    }

    /// Bulk-load 128 alloc bits, one per region, starting at `start`.
    pub fn load_alloc_128(&self, start: u64) -> (r: u128)
        requires
            start + BYTES_IN_BULK <= HEAP_LIMIT,
        ensures
            forall|i: u128|
                i < 128 ==> (bit128(r, i) <==> self.alloc_set().contains(
                    #[trigger] region_index_addr(start, i),
                )),
            (r == 0) <==> (forall|i: u128|
                i < 128 ==> !self.alloc_set().contains(#[trigger] region_index_addr(start, i))),
    {
        load_bits(&self.alloc, start)
    }

    /// Bulk-load 128 mark bits, one per region, starting at `start`.
    pub fn load_mark_128(&self, start: u64) -> (r: u128)
        requires
            start + BYTES_IN_BULK <= HEAP_LIMIT,
        ensures
            forall|i: u128|
                i < 128 ==> (bit128(r, i) <==> self.mark_set().contains(
                    #[trigger] region_index_addr(start, i),
                )),
            (r == 0) <==> (forall|i: u128|
                i < 128 ==> !self.mark_set().contains(#[trigger] region_index_addr(start, i))),
    {
        load_bits(&self.mark, start)
    }

    /// Bulk-zero the mark bitmap over `[start, start + bytes)`.
    pub fn bzero_mark_bits(&mut self, start: u64, bytes: u64)
        requires
            old(self).inv(),
            start % BYTES_IN_REGION == 0,
            start + bytes <= HEAP_LIMIT,
        ensures
            final(self).inv(),
            forall|x: u64|
                #[trigger] final(self).mark_set().contains(x)
                    <==> (old(self).mark_set().contains(x) && !is_region_start_in(
                    x,
                    start as int,
                    start as int + bytes,
                )),
            final(self).alloc_set() == old(self).alloc_set(),
            final(self).page_set() == old(self).page_set(),
            final(self).chunk_set() == old(self).chunk_set(),
            final(self).offset_set() == old(self).offset_set(),
            final(self).mapped_set() == old(self).mapped_set(),
    {
        let end = start + bytes;
        let mut a = start;
        while a < end
            invariant
                self.inv(),
                start <= a,
                a % BYTES_IN_REGION == 0,
                end <= HEAP_LIMIT,
                a < end + BYTES_IN_REGION,
                forall|x: u64|
                    #[trigger] self.mark_set().contains(x)
                        <==> (old(self).mark_set().contains(x) && !is_region_start_in(
                        x,
                        start as int,
                        a as int,
                    )),
                self.alloc_set() == old(self).alloc_set(),
                self.page_set() == old(self).page_set(),
                self.chunk_set() == old(self).chunk_set(),
                self.offset_set() == old(self).offset_set(),
                self.mapped_set() == old(self).mapped_set(),
            decreases end + BYTES_IN_REGION - a,
        {
            let ghost prev = self.mark_set();
            self.mark.remove(&a);
            proof {
                assert(self.mark_set() == prev.remove(a));
                assert(self.alloc_set() == old(self).alloc_set());
                assert(self.page_set() == old(self).page_set());
                assert(self.chunk_set() == old(self).chunk_set());
                assert(self.offset_set() == old(self).offset_set());
                assert(self.mapped_set() == old(self).mapped_set());
                assert forall|x: u64| #[trigger] self.mark_set().contains(x)
                    implies x % BYTES_IN_REGION == 0 by {
                    assert(prev.contains(x));
                }
                assert forall|x: u64|
                    #[trigger] self.mark_set().contains(x)
                        <==> (old(self).mark_set().contains(x) && !is_region_start_in(
                        x,
                        start as int,
                        a as int + BYTES_IN_REGION,
                    )) by {
                    if x != a && old(self).mark_set().contains(x) && !is_region_start_in(
                        x,
                        start as int,
                        a as int,
                    ) && is_region_start_in(x, start as int, a as int + BYTES_IN_REGION) {
                        assert(old(self).mark_set().contains(x));
                        crate::layout::lemma_unique_aligned_in_window(
                            a as int,
                            x as int,
                            BYTES_IN_REGION as int,
                        );
                    }
                }
                crate::layout::lemma_aligned_step(a as int, BYTES_IN_REGION as int);
            }
            a = a + BYTES_IN_REGION;
        }
        proof {
            assert forall|x: u64|
                #[trigger] self.mark_set().contains(x)
                    <==> (old(self).mark_set().contains(x) && !is_region_start_in(
                    x,
                    start as int,
                    start as int + bytes,
                )) by {
                if old(self).mark_set().contains(x) {
                    if is_region_start_in(x, start as int, a as int) && !is_region_start_in(
                        x,
                        start as int,
                        start as int + bytes,
                    ) {
                        crate::layout::lemma_aligned_gap(
                            a as int,
                            x as int,
                            BYTES_IN_REGION as int,
                        );
                    }
                }
            }
        }
    }
}

/// One bulk metadata load: bit `i` of the result is the table bit of the
/// `i`-th region after `start`.
fn load_bits(s: &HashSet<u64>, start: u64) -> (r: u128)
    requires
        start + BYTES_IN_BULK <= HEAP_LIMIT,
    ensures
        forall|i: u128|
            i < 128 ==> (bit128(r, i) <==> s@.contains(#[trigger] region_index_addr(start, i))),
        (r == 0) <==> (forall|i: u128|
            i < 128 ==> !s@.contains(#[trigger] region_index_addr(start, i))),
{
    let mut r: u128 = 0;
    let mut i: u64 = 0;
    proof {
        assert forall|j: u128| j < 128 implies !bit128(0u128, j) by {
            assert((0u128 >> j) & 1 == 0) by (bit_vector);
        }
    }
    while i < 128
        invariant
            i <= 128,
            start + BYTES_IN_BULK <= HEAP_LIMIT,
            forall|j: u128|
                j < i ==> (bit128(r, j) <==> s@.contains(#[trigger] region_index_addr(start, j))),
            forall|j: u128| i <= j < 128 ==> !bit128(r, j),
            (r == 0) <==> (forall|j: u128|
                j < i ==> !s@.contains(#[trigger] region_index_addr(start, j))),
        decreases 128 - i,
    {
        let addr = start + i * BYTES_IN_REGION;
        proof {
            assert(addr == region_index_addr(start, i as u128));
        }
        if s.contains(&addr) {
            let mask: u128 = 1u128 << (i as u128);
            let ghost rr = r;
            r = r | mask;
            proof {
                let ii = i as u128;
                assert(r == (rr | mask));
                assert forall|j: u128| j < 128 && j != ii implies (bit128(r, j) == bit128(
                    rr,
                    j,
                )) by {
                    assert(((rr | mask) >> j) & 1 == (rr >> j) & 1) by (bit_vector)
                        requires
                            mask == 1u128 << ii,
                            ii < 128,
                            j < 128,
                            ii != j,
                    ;
                }
                assert(bit128(r, ii)) by {
                    assert(((rr | mask) >> ii) & 1 == 1) by (bit_vector)
                        requires
                            mask == 1u128 << ii,
                            ii < 128,
                    ;
                }
                assert(r != 0) by {
                    assert(rr | mask != 0) by (bit_vector)
                        requires
                            mask == 1u128 << ii,
                            ii < 128,
                    ;
                }
                assert forall|j: u128| ii + 1 <= j < 128 implies !bit128(r, j) by {
                    assert(!bit128(rr, j));
                }
                assert forall|j: u128|
                    j < ii + 1 implies (bit128(r, j) <==> s@.contains(
                    #[trigger] region_index_addr(start, j),
                )) by {
                    if j == ii {
                        assert(s@.contains(region_index_addr(start, ii)));
                    } else {
                        assert(bit128(rr, j) <==> s@.contains(region_index_addr(start, j)));
                    }
                }
            }
        } else {
            proof {
                let ii = i as u128;
                assert(!s@.contains(region_index_addr(start, ii)));
                assert forall|j: u128|
                    j < ii + 1 implies (bit128(r, j) <==> s@.contains(
                    #[trigger] region_index_addr(start, j),
                )) by {
                    if j == ii {
                        assert(!bit128(r, j));
                    }
                }
                if r == 0 {
                    assert forall|j: u128| j < ii + 1 implies !s@.contains(
                        #[trigger] region_index_addr(start, j),
                    ) by {}
                }
            }
        }
        i = i + 1;
    }
    r
}

} // verus!
