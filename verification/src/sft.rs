//! The global address-to-space map, seen through a narrow facade: which
//! chunks this space currently owns. Ownership is published chunk by chunk
//! when a fresh block's metadata is mapped, and revoked when a sweep finds
//! a chunk empty.

use vstd::prelude::*;
use std::collections::HashSet;
use crate::layout::{BYTES_IN_CHUNK, HEAP_LIMIT, chunk_of, is_chunk_start_in, chunk_align_down};

verus! {

broadcast use vstd::std_specs::hash::group_hash_axioms;

/// The chunks published as belonging to this space.
pub struct SftMap {
    owned: HashSet<u64>,
}

impl SftMap {
    pub closed spec fn owned_set(self) -> Set<u64> {
        self.owned@
    }

    pub open spec fn inv(self) -> bool {
        forall|c: u64| #[trigger] self.owned_set().contains(c) ==> c % BYTES_IN_CHUNK == 0
    }

    pub fn new() -> (r: SftMap)
        ensures
            r.inv(),
            r.owned_set() == Set::<u64>::empty(),
    {
        SftMap { owned: HashSet::new() }
    }

    /// True iff this space owns the chunk that starts at `c`.
    pub fn is_owned(&self, c: u64) -> (r: bool)
        ensures
            r == self.owned_set().contains(c),
    {
        self.owned.contains(&c)
    }

    /// Publish this space over every chunk the block `[a, a + size]`
    /// touches.
    pub fn update(&mut self, a: u64, size: u64)
        requires
            old(self).inv(),
            a + size <= HEAP_LIMIT,
        ensures
            final(self).inv(),
            forall|x: u64|
                #[trigger] final(self).owned_set().contains(x) <==> (old(
                    self,
                ).owned_set().contains(x) || is_chunk_start_in(
                    x,
                    chunk_of(a as int),
                    chunk_of(a as int + size),
                )),
    {
        let lo = chunk_align_down(a);
        let hi = chunk_align_down(a + size);
        let mut c = lo;
        loop
            invariant
                self.inv(),
                lo == chunk_of(a as int),
                hi == chunk_of(a as int + size),
                lo <= c <= hi + BYTES_IN_CHUNK,
                c % BYTES_IN_CHUNK == 0,
                lo % BYTES_IN_CHUNK == 0,
                hi % BYTES_IN_CHUNK == 0,
                hi + BYTES_IN_CHUNK <= u64::MAX,
                forall|x: u64|
                    #[trigger] self.owned_set().contains(x) <==> (old(
                        self,
                    ).owned_set().contains(x) || is_chunk_start_in(x, lo as int, c as int - 1)),
            decreases hi + BYTES_IN_CHUNK - c,
        {
            if c > hi {
                proof {
                    assert forall|x: u64|
                        #[trigger] self.owned_set().contains(x) <==> (old(
                            self,
                        ).owned_set().contains(x) || is_chunk_start_in(x, lo as int, hi as int))
                    by {
                        if is_chunk_start_in(x, lo as int, hi as int) {
                            assert(is_chunk_start_in(x, lo as int, c as int - 1));
                        }
                        if self.owned_set().contains(x) && !old(self).owned_set().contains(x) {
                            assert(is_chunk_start_in(x, lo as int, c as int - 1));
                            if x as int > hi as int {
                                crate::layout::lemma_aligned_gap(
                                    x as int,
                                    hi as int,
                                    BYTES_IN_CHUNK as int,
                                );
                            }
                            assert(is_chunk_start_in(x, lo as int, hi as int));
                        }
                    }
                }
                return ;
            }
            let ghost prev = self.owned_set();
            self.owned.insert(c);
            proof {
                assert(self.owned_set() == prev.insert(c));
                assert forall|x: u64| #[trigger] self.owned_set().contains(x)
                    implies x % BYTES_IN_CHUNK == 0 by {
                    if x != c {
                        assert(prev.contains(x));
                    }
                }
                assert forall|x: u64|
                    #[trigger] self.owned_set().contains(x) <==> (old(
                        self,
                    ).owned_set().contains(x) || is_chunk_start_in(
                        x,
                        lo as int,
                        c as int + BYTES_IN_CHUNK - 1,
                    )) by {
                    if x == c {
                        assert(is_chunk_start_in(x, lo as int, c as int + BYTES_IN_CHUNK - 1));
                    } else {
                        assert(self.owned_set().contains(x) == prev.contains(x));
                        if is_chunk_start_in(x, lo as int, c as int + BYTES_IN_CHUNK - 1)
                            && !is_chunk_start_in(x, lo as int, c as int - 1) {
                            crate::layout::lemma_unique_aligned_in_window(
                                c as int,
                                x as int,
                                BYTES_IN_CHUNK as int,
                            );
                        }
                    }
                }
                crate::layout::lemma_aligned_step(c as int, BYTES_IN_CHUNK as int);
            }
            c = c + BYTES_IN_CHUNK;
        }
    }

    /// Revoke ownership of one chunk.
    pub fn clear(&mut self, c: u64)
        requires
            old(self).inv(),
        ensures
            final(self).inv(),
            final(self).owned_set() == old(self).owned_set().remove(c),
    {
        self.owned.remove(&c);
        proof {
            assert forall|x: u64| #[trigger] self.owned_set().contains(x)
                implies x % BYTES_IN_CHUNK == 0 by {
                assert(old(self).owned_set().contains(x));
            }
        }
    }
}

} // verus!
