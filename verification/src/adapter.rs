//! Allocation adapter: aligned and offset allocation over a raw allocator.
//!
//! `SysAlloc` models the process allocator: an opaque source of fresh,
//! disjoint blocks whose usable size may exceed the request. The adapter
//! layers the over-allocation strategy on top: when the caller asks for an
//! alignment (plus in-object offset) the raw granularity cannot give, it
//! over-allocates by one alignment unit and returns an interior address;
//! the raw block start stays recoverable from the returned address (the
//! model keeps it in a side table standing for the word stashed just below
//! the returned address).

use vstd::prelude::*;
use std::collections::HashMap;
use crate::layout::{
    BYTES_IN_REGION, HEAP_BASE, HEAP_LIMIT, MAX_REQUEST, MAX_ALIGN, align_up, region_align_up,
};

verus! {

broadcast use vstd::std_specs::hash::group_hash_axioms;

/// Model of the process's general-purpose allocator: a bump source of
/// fresh region-aligned blocks, each rounded up to the region granularity.
pub struct SysAlloc {
    next: u64,
    blocks: HashMap<u64, u64>,
}

impl SysAlloc {
    /// First address the allocator has not handed out yet.
    pub closed spec fn next_free(self) -> u64 {
        self.next
    }

    /// The live raw blocks: block start to usable size.
    pub closed spec fn blocks_map(self) -> Map<u64, u64> {
        self.blocks@
    }

    pub open spec fn inv(self) -> bool {
        &&& HEAP_BASE <= self.next_free() <= HEAP_LIMIT
        &&& self.next_free() % BYTES_IN_REGION == 0
        &&& forall|b: u64|
            #[trigger] self.blocks_map().contains_key(b) ==> HEAP_BASE <= b && b
                % BYTES_IN_REGION == 0 && 1 <= self.blocks_map()[b] && b + self.blocks_map()[b]
                <= self.next_free()
    }

    pub fn new() -> (r: SysAlloc)
        ensures
            r.inv(),
            r.next_free() == HEAP_BASE,
            r.blocks_map() == Map::<u64, u64>::empty(),
    {
        SysAlloc { next: HEAP_BASE, blocks: HashMap::new() }
    }

    /// One raw allocation. A null return models the allocator running out
    /// of memory; it happens exactly when the rounded request would push
    /// past `HEAP_LIMIT`.
    pub fn sys_malloc(&mut self, req: u64) -> (addr: u64)
        requires
            old(self).inv(),
            1 <= req <= MAX_REQUEST + MAX_ALIGN,
        ensures
            final(self).inv(),
            (addr == 0) <==> (old(self).next_free() + align_up(req as int, BYTES_IN_REGION as int)
                > HEAP_LIMIT),
            addr == 0 ==> *final(self) == *old(self),
            addr != 0 ==> {
                &&& addr == old(self).next_free()
                &&& !old(self).blocks_map().contains_key(addr)
                &&& final(self).blocks_map() == old(self).blocks_map().insert(
                    addr,
                    (align_up(req as int, BYTES_IN_REGION as int)) as u64,
                )
                &&& final(self).next_free() == old(self).next_free() + align_up(
                    req as int,
                    BYTES_IN_REGION as int,
                )
            },
    {
        let rounded = region_align_up(req);
        if rounded > HEAP_LIMIT - self.next {
            return 0;
        }
        let addr = self.next;
        proof {
            if self.blocks_map().contains_key(addr) {
                assert(addr + self.blocks_map()[addr] <= self.next);
            }
        }
        self.blocks.insert(addr, rounded);
        self.next = self.next + rounded;
        proof {
            assert forall|b: u64| #[trigger] self.blocks_map().contains_key(b)
                implies HEAP_BASE <= b && b % BYTES_IN_REGION == 0 && 1 <= self.blocks_map()[b]
                && b + self.blocks_map()[b] <= self.next_free() by {
                if b != addr {
                    assert(old(self).blocks_map().contains_key(b));
                }
            }
        }
        addr
    }

    /// The allocator's reported usable size of a live raw block.
    pub fn usable_size(&self, b: u64) -> (r: u64)
        requires
            self.inv(),
            self.blocks_map().contains_key(b),
        ensures
            r == self.blocks_map()[b],
    {
        match self.blocks.get(&b) {
            Some(s) => *s,
            None => {
                proof {
                    assert(false);
                }
                0
            },
        }
    }

    /// Return one raw block to the allocator.
    pub fn sys_free(&mut self, b: u64)
        requires
            old(self).inv(),
            old(self).blocks_map().contains_key(b),
        ensures
            final(self).inv(),
            final(self).blocks_map() == old(self).blocks_map().remove(b),
            final(self).next_free() == old(self).next_free(),
    {
        self.blocks.remove(&b);
        proof {
            assert forall|x: u64| #[trigger] self.blocks_map().contains_key(x)
                implies HEAP_BASE <= x && x % BYTES_IN_REGION == 0 && 1 <= self.blocks_map()[x]
                && x + self.blocks_map()[x] <= self.next_free() by {
                assert(old(self).blocks_map().contains_key(x));
                assert(old(self).blocks_map()[x] == self.blocks_map()[x]);
            }
        }
    }
}

/// The request the adapter places with the raw allocator for a given
/// allocation: the plain size when the granularity already satisfies the
/// alignment, one extra alignment unit otherwise.
pub open spec fn request_of(size: u64, align: u64, offset: u64) -> int {
    if offset == 0 && BYTES_IN_REGION % align == 0 {
        size as int
    } else {
        size as int + align as int
    }
}

/// Aligned/offset allocation over the raw allocator, plus the usable-size
/// query and the two free paths.
pub struct MallocUtil {
    sys: SysAlloc,
    offset_starts: HashMap<u64, u64>,
}

impl MallocUtil {
    pub closed spec fn sys_alloc(self) -> SysAlloc {
        self.sys
    }

    /// For every offset allocation still live, the raw block start it came
    /// from.
    pub closed spec fn offset_map(self) -> Map<u64, u64> {
        self.offset_starts@
    }

    pub open spec fn inv(self) -> bool {
        &&& self.sys_alloc().inv()
        &&& forall|a: u64|
            #[trigger] self.offset_map().contains_key(a) ==> self.offset_map()[a] < a && a
                < self.sys_alloc().next_free()
    }

    /// The raw block behind a returned address.
    pub open spec fn block_of(self, a: u64, is_off: bool) -> u64 {
        if is_off {
            self.offset_map()[a]
        } else {
            a
        }
    }

    /// The raw block behind `a` is live and contains `a`.
    pub open spec fn backs(self, a: u64, is_off: bool) -> bool {
        if is_off {
            &&& self.offset_map().contains_key(a)
            &&& self.sys_alloc().blocks_map().contains_key(self.offset_map()[a])
            &&& self.offset_map()[a] < a
            &&& a < self.offset_map()[a] + self.sys_alloc().blocks_map()[self.offset_map()[a]]
        } else {
            self.sys_alloc().blocks_map().contains_key(a)
        }
    }

    /// Usable bytes at `a`: the raw block's usable size, less the padding
    /// in front of an offset allocation.
    pub open spec fn usable(self, a: u64, is_off: bool) -> int {
        if is_off {
            self.sys_alloc().blocks_map()[self.offset_map()[a]] - (a - self.offset_map()[a])
        } else {
            self.sys_alloc().blocks_map()[a] as int
        }
    }

    pub fn new() -> (r: MallocUtil)
        ensures
            r.inv(),
            r.sys_alloc().next_free() == HEAP_BASE,
            r.sys_alloc().blocks_map() == Map::<u64, u64>::empty(),
            r.offset_map() == Map::<u64, u64>::empty(),
    {
        MallocUtil { sys: SysAlloc::new(), offset_starts: HashMap::new() }
    }

    /// Allocate `size` bytes such that the returned address plus `offset`
    /// is a multiple of `align`. The second component tells whether the
    /// block must go back through the offset-free path.
    pub fn allocate_block(&mut self, size: u64, align: u64, offset: u64) -> (r: (u64, bool))
        requires
            old(self).inv(),
            1 <= size <= MAX_REQUEST,
            1 <= align <= MAX_ALIGN,
            offset < align,
        ensures
            final(self).inv(),
            (r.0 == 0) <==> (old(self).sys_alloc().next_free() + align_up(
                request_of(size, align, offset),
                BYTES_IN_REGION as int,
            ) > HEAP_LIMIT),
            r.0 == 0 ==> *final(self) == *old(self) && !r.1,
            r.0 != 0 ==> {
                &&& HEAP_BASE <= r.0
                &&& old(self).sys_alloc().next_free() <= r.0
                &&& (r.0 as int + offset as int) % (align as int) == 0
                &&& final(self).backs(r.0, r.1)
                &&& size <= final(self).usable(r.0, r.1)
                &&& final(self).usable(r.0, r.1) <= final(self).sys_alloc().next_free() - old(self).sys_alloc().next_free()
                &&& !r.1 ==> r.0 % BYTES_IN_REGION == 0
                &&& !old(self).sys_alloc().blocks_map().contains_key(
                    final(self).block_of(r.0, r.1),
                )
                &&& forall|b: u64|
                    #[trigger] old(self).sys_alloc().blocks_map().contains_key(b) ==> final(self).sys_alloc().blocks_map().contains_key(b) && final(self).sys_alloc().blocks_map()[b] == old(self).sys_alloc().blocks_map()[b]
                &&& forall|x: u64|
                    #[trigger] old(self).offset_map().contains_key(x) ==> final(self).offset_map().contains_key(x) && final(self).offset_map()[x] == old(self).offset_map()[x]
                &&& forall|x: u64|
                    #[trigger] final(self).offset_map().contains_key(x) ==> old(self).offset_map().contains_key(x) || x == r.0
                &&& r.1 == final(self).offset_map().contains_key(r.0)
            },
    {
        if offset == 0 && BYTES_IN_REGION % align == 0 {
            let raw = self.sys.sys_malloc(size);
            proof {
                assert(self.offset_map() == old(self).offset_map());
                if raw != 0 {
                    crate::layout::lemma_mod_divides(
                        raw as int,
                        BYTES_IN_REGION as int,
                        align as int,
                    );
                    assert forall|x: u64| #[trigger] self.offset_map().contains_key(x)
                        implies self.offset_map()[x] < x && x < self.sys_alloc().next_free() by {
                        assert(old(self).offset_map().contains_key(x));
                    }
                }
            }
            (raw, false)
        } else {
            let request = size + align;
            let raw = self.sys.sys_malloc(request);
            proof {
                assert(self.offset_map() == old(self).offset_map());
            }
            if raw == 0 {
                return (0, false);
            }
            let q = (raw + offset + align - 1) / align;
            proof {
                let rr = raw as int;
                let oo = offset as int;
                let aa = align as int;
                let qq = q as int;
                assert(qq * aa >= rr + oo && qq * aa <= rr + oo + aa - 1 && (qq * aa) % aa == 0)
                    by (nonlinear_arith)
                    requires
                        aa >= 1,
                        rr >= 0,
                        oo >= 0,
                        qq == (rr + oo + aa - 1) / aa,
                ;
            }
            let aligned_at = q * align;
            let addr = aligned_at - offset;
            proof {
                let rr = raw as int;
                let oo = offset as int;
                let aa = align as int;
                assert((addr as int + oo) % aa == 0) by (nonlinear_arith)
                    requires
                        aa >= 1,
                        addr as int + oo == (q as int) * aa,
                        ((q as int) * aa) % aa == 0,
                ;
            }
            if addr == raw {
                proof {
                    assert forall|x: u64| #[trigger] self.offset_map().contains_key(x)
                        implies self.offset_map()[x] < x && x < self.sys_alloc().next_free() by {
                        assert(old(self).offset_map().contains_key(x));
                    }
                }
                (raw, false)
            } else {
                proof {
                    assert(self.offset_map() == old(self).offset_map());
                    if old(self).offset_map().contains_key(addr) {
                        assert(addr < old(self).sys_alloc().next_free());
                        assert(false);
                    }
                }
                self.offset_starts.insert(addr, raw);
                proof {
                    assert forall|x: u64| #[trigger] self.offset_map().contains_key(x)
                        implies self.offset_map()[x] < x && x < self.sys_alloc().next_free() by {
                        if x != addr {
                            assert(old(self).offset_map().contains_key(x));
                        }
                    }
                }
                (addr, true)
            }
        }
    }

    /// The allocator's reported usable size for the block backing `a`.
    pub fn get_malloc_usable_size(&self, a: u64, is_off: bool) -> (r: u64)
        requires
            self.inv(),
            self.backs(a, is_off),
        ensures
            r as int == self.usable(a, is_off),
    {
        if is_off {
            let raw = match self.offset_starts.get(&a) {
                Some(rr) => *rr,
                None => {
                    proof {
                        assert(false);
                    }
                    0
                },
            };
            let s = self.sys.usable_size(raw);
            s - (a - raw)
        } else {
            self.sys.usable_size(a)
        }
    }

    /// Free a plain block through the raw allocator.
    pub fn free(&mut self, raw: u64)
        requires
            old(self).inv(),
            old(self).sys_alloc().blocks_map().contains_key(raw),
        ensures
            final(self).inv(),
            final(self).sys_alloc().blocks_map() == old(self).sys_alloc().blocks_map().remove(raw),
            final(self).sys_alloc().next_free() == old(self).sys_alloc().next_free(),
            final(self).offset_map() == old(self).offset_map(),
    {
        self.sys.sys_free(raw);
        proof {
            assert forall|x: u64| #[trigger] self.offset_map().contains_key(x)
                implies self.offset_map()[x] < x && x < self.sys_alloc().next_free() by {
                assert(old(self).offset_map().contains_key(x));
            }
        }
    }

    /// Free an offset block: recover the raw start, then free that.
    pub fn offset_free(&mut self, a: u64)
        requires
            old(self).inv(),
            old(self).backs(a, true),
        ensures
            final(self).inv(),
            final(self).sys_alloc().blocks_map() == old(self).sys_alloc().blocks_map().remove(
                old(self).offset_map()[a],
            ),
            final(self).sys_alloc().next_free() == old(self).sys_alloc().next_free(),
            final(self).offset_map() == old(self).offset_map().remove(a),
    {
        let raw = match self.offset_starts.get(&a) {
            Some(rr) => *rr,
            None => {
                proof {
                    assert(false);
                }
                0
            },
        };
        self.sys.sys_free(raw);
        self.offset_starts.remove(&a);
        proof {
            assert forall|x: u64| #[trigger] self.offset_map().contains_key(x)
                implies self.offset_map()[x] < x && x < self.sys_alloc().next_free() by {
                assert(old(self).offset_map().contains_key(x));
            }
        }
    }
}

} // verus!
