//! The malloc-backed space: a non-moving, mark-sweep collected space whose
//! storage is the process allocator.
//!
//! The space owns its side metadata, its slice of the global
//! address-to-space map, the allocation adapter, and a byte counter
//! `active_bytes` that its well-formedness invariant pins to the exact sum
//! of the usable sizes of all live blocks. Objects are identified by their
//! block start address; the null reference is the address 0.

use vstd::prelude::*;
use std::collections::HashMap;
use crate::layout::{
    BYTES_IN_REGION, LOG_BYTES_IN_REGION, BYTES_IN_PAGE, BYTES_IN_CHUNK, BYTES_IN_BULK, HEAP_BASE,
    HEAP_LIMIT, MAX_REQUEST, MAX_ALIGN, align_up, chunk_of, page_of, is_chunk_start_in,
    is_region_start_in, chunk_align_down, page_align_down, page_align_up, bytes_to_pages_up,
};
use crate::meta::{Metadata, SideMetadataSpec, SideMetadataContext, bit128, region_index_addr};
use crate::adapter::{MallocUtil, request_of};
use crate::sft::SftMap;
use crate::queue::ObjectQueue;
use crate::acct::{sum_over, lemma_sum_insert, lemma_sum_remove, lemma_sum_nonneg};

verus! {

broadcast use vstd::std_specs::hash::group_hash_axioms;

/// An opaque descriptor of the calling thread, as the runtime hands it in.
#[derive(Clone, Copy, PartialEq, Eq, Structural)]
pub struct VmThread {
    pub id: u64,
    pub mutator: bool,
}

/// Where the runtime's object model keeps the mark bit.
pub enum MetadataSpecChoice {
    OnSide(SideMetadataSpec),
    InHeader,
}

/// A mark-sweep space backed by the process allocator.
pub struct MallocSpace {
    pub active_bytes: u64,
    pub chunk_addr_min: u64,
    pub chunk_addr_max: u64,
    pub metadata: SideMetadataContext,
    pub mark_spec: MetadataSpecChoice,
    pub meta: Metadata,
    pub alloc_util: MallocUtil,
    pub sft: SftMap,
    pub active_mem: HashMap<u64, u64>,
    pub total_work_packets: u64,
    pub completed_work_packets: u64,
    pub work_live_bytes: u64,
    pub collection_required: bool,
}

impl MallocSpace {
    pub open spec fn alloc_set(self) -> Set<u64> {
        self.meta.alloc_set()
    }

    pub open spec fn marked_set(self) -> Set<u64> {
        self.meta.mark_set()
    }

    pub open spec fn page_set(self) -> Set<u64> {
        self.meta.page_set()
    }

    pub open spec fn chunkmark_set(self) -> Set<u64> {
        self.meta.chunk_set()
    }

    pub open spec fn offset_set(self) -> Set<u64> {
        self.meta.offset_set()
    }

    pub open spec fn mapped_set(self) -> Set<u64> {
        self.meta.mapped_set()
    }

    pub open spec fn sft_set(self) -> Set<u64> {
        self.sft.owned_set()
    }

    /// The live blocks: every address returned by `allocate` and not yet
    /// freed, with its usable size. An entry of the debug ledger with size
    /// 0 records a block already freed.
    pub open spec fn live_map(self) -> Map<u64, u64> {
        live_of(self.active_mem@)
    }

    /// The raw block behind a live address.
    pub open spec fn block_of(self, a: u64) -> u64 {
        block_of_state(self.meta, self.alloc_util, a)
    }

    /// One live ledger entry is consistent: its block is live in the raw
    /// allocator, its recorded size is the allocator's reported usable
    /// size, and it lies inside the model heap.
    pub open spec fn live_entry_ok(self, a: u64) -> bool {
        live_entry_ok_state(self.meta, self.alloc_util, self.active_mem@, a)
    }

    /// Well-formedness of the whole space.
    pub open spec fn wf(self) -> bool {
        wf_state(
            self.meta,
            self.alloc_util,
            self.sft,
            self.active_mem@,
            self.active_bytes,
            self.chunk_addr_min,
            self.chunk_addr_max,
            self.metadata.global@,
            self.metadata.local@,
            self.mark_spec,
        )
    }

    /// Every live block has had its object metadata initialized.
    pub open spec fn fully_initialized(self) -> bool {
        forall|a: u64|
            #[trigger] self.live_map().dom().contains(a) ==> self.alloc_set().contains(a)
    }

    /// The live ledger's domain is a subset of the (finite) debug ledger.
    proof fn lemma_live_map_finite(self)
        ensures
            self.live_map().dom().finite(),
    {
        assert(self.live_map().dom().subset_of(self.active_mem@.dom()));
        vstd::set_lib::lemma_set_subset_finite(self.active_mem@.dom(), self.live_map().dom());
    }

    /// A marked object is alloced.
    pub proof fn lemma_marked_implies_alloced(self, o: u64)
        requires
            self.wf(),
            self.marked_set().contains(o),
        ensures
            self.alloc_set().contains(o),
    {
    }

    /// At any well-formed state, `active_bytes` is exactly the sum of the
    /// usable sizes of the live blocks; once every live block's object
    /// metadata is initialized, those are exactly the objects whose
    /// alloc bit is set.
    pub proof fn lemma_active_bytes_accounting(self)
        requires
            self.wf(),
        ensures
            self.active_bytes as int == sum_over(self.live_map()),
            self.fully_initialized() ==> self.live_map().dom() =~= self.alloc_set(),
    {
        if self.fully_initialized() {
            assert forall|a: u64| self.live_map().dom().contains(a) <==> self.alloc_set().contains(
                a,
            ) by {
                if self.live_map().dom().contains(a) {
                    assert(self.alloc_set().contains(a));
                }
                if self.alloc_set().contains(a) {
                    assert(self.live_map().dom().contains(a));
                }
            }
        }
    }

    /// The chunk range bounds the chunks of every address `allocate` has
    /// returned and not yet freed.
    pub proof fn lemma_chunk_range_covers(self, a: u64)
        requires
            self.wf(),
            self.live_map().dom().contains(a),
        ensures
            self.chunk_addr_min <= chunk_of(a as int),
            chunk_of(a as int + self.live_map()[a]) <= self.chunk_addr_max,
    {
        let s = self.live_map()[a];
        assert(self.live_entry_ok(a));
        crate::layout::lemma_align_down_bounds(a as int, BYTES_IN_CHUNK as int);
        crate::layout::lemma_align_down_bounds(a as int + s, BYTES_IN_CHUNK as int);
        crate::layout::lemma_align_down_monotone(a as int, a as int + s, BYTES_IN_CHUNK as int);
        assert(is_chunk_start_in(
            (chunk_of(a as int)) as u64,
            chunk_of(a as int),
            chunk_of(a as int + s),
        ));
        assert(self.mapped_set().contains((chunk_of(a as int)) as u64));
        assert(is_chunk_start_in(
            (chunk_of(a as int + s)) as u64,
            chunk_of(a as int),
            chunk_of(a as int + s),
        ));
        assert(self.mapped_set().contains((chunk_of(a as int + s)) as u64));
    }

    /// Build a space from the runtime's metadata declaration.
    pub fn new(global_specs: Vec<SideMetadataSpec>, mark_spec: MetadataSpecChoice) -> (r:
        MallocSpace)
        requires
            global_specs.len() <= 1000,
            forall|i: int|
                0 <= i < global_specs.len() ==> (#[trigger] global_specs[i].log_bytes_in_region)
                    <= 56,
            match mark_spec {
                MetadataSpecChoice::OnSide(s) => s.log_bytes_in_region == LOG_BYTES_IN_REGION,
                MetadataSpecChoice::InHeader => true,
            },
        ensures
            r.wf(),
            r.active_bytes == 0,
            r.chunk_addr_min == u64::MAX,
            r.chunk_addr_max == 0,
            r.alloc_set() == Set::<u64>::empty(),
            r.marked_set() == Set::<u64>::empty(),
            r.live_map().dom() =~= Set::<u64>::empty(),
            r.sft_set() == Set::<u64>::empty(),
            r.metadata.global@ == global_specs@,
            r.metadata.local@ == local_metadata_specs(mark_spec),
            r.mark_spec == mark_spec,
            r.page_set() == Set::<u64>::empty(),
            r.chunkmark_set() == Set::<u64>::empty(),
            r.offset_set() == Set::<u64>::empty(),
            r.mapped_set() == Set::<u64>::empty(),
            !r.collection_required,
            r.total_work_packets == 0,
            r.completed_work_packets == 0,
            r.work_live_bytes == 0,
    {
        let mut local: Vec<SideMetadataSpec> = Vec::new();
        // the page-mark bitmap: one bit per page
        local.push(SideMetadataSpec { log_bytes_in_region: 12 });
        // the offset-malloc bitmap: one bit per region
        local.push(SideMetadataSpec { log_bytes_in_region: LOG_BYTES_IN_REGION });
        match &mark_spec {
            MetadataSpecChoice::OnSide(s) => {
                let side = *s;
                local.push(side);
            },
            MetadataSpecChoice::InHeader => {},
        }
        let r = MallocSpace {
            active_bytes: 0,
            chunk_addr_min: u64::MAX,
            chunk_addr_max: 0,
            metadata: SideMetadataContext { global: global_specs, local },
            mark_spec,
            meta: Metadata::new(),
            alloc_util: MallocUtil::new(),
            sft: SftMap::new(),
            active_mem: HashMap::new(),
            total_work_packets: 0,
            completed_work_packets: 0,
            work_live_bytes: 0,
            collection_required: false,
        };
        proof {
            assert(r.live_map().dom() =~= Set::<u64>::empty());
            assert(sum_over(r.live_map()) == 0);
            assert(r.metadata.local@ =~= local_metadata_specs(r.mark_spec));
        }
        r
    }

    /// True iff the object's start address has its alloc bit set.
    pub fn in_space(&self, object: u64) -> (r: bool)
        ensures
            r == self.alloc_set().contains(object),
    {
        self.meta.is_alloced(object)
    }

    /// True iff the object is marked in the current cycle.
    pub fn is_live(&self, object: u64) -> (r: bool)
        ensures
            r == self.marked_set().contains(object),
    {
        self.meta.is_marked(object)
    }

    /// This space never moves objects.
    pub fn is_movable(&self) -> (r: bool)
        ensures
            !r,
    {
        false
    }

    /// This space never moves objects, whatever the kind of trace.
    pub fn may_move_objects() -> (r: bool)
        ensures
            !r,
    {
        false
    }

    pub fn is_sane(&self) -> (r: bool)
        ensures
            r,
    {
        true
    }

    /// True iff some object of this space begins at `addr`.
    pub fn is_mmtk_object(&self, addr: u64) -> (r: bool)
        requires
            addr != 0,
        ensures
            r == self.alloc_set().contains(addr),
    {
        self.meta.has_object_alloced(addr)
    }

    pub fn get_name(&self) -> &'static str {
        "MallocSpace"
    }

    /// Model of the GC trigger: the active plan reports whether a
    /// collection should start before the next allocation.
    pub fn set_collection_required(&mut self, v: bool)
        requires
            old(self).wf(),
        ensures
            final(self).wf(),
            *final(self) == (MallocSpace { collection_required: v, ..*old(self) }),
    {
        self.collection_required = v;
    }

    /// Model of the sweep scheduler: how many sweep work packets the
    /// current collection was divided into.
    pub fn set_total_work_packets(&mut self, n: u64)
        requires
            old(self).wf(),
        ensures
            final(self).wf(),
            *final(self) == (MallocSpace { total_work_packets: n, ..*old(self) }),
    {
        self.total_work_packets = n;
    }

    /// Set page mark and alloc bit at an object's birth.
    ///
    /// The object reference must sit on the region granularity: the alloc
    /// and mark bitmaps carry one bit per `BYTES_IN_REGION` bytes, so the
    /// runtime's object model may only place object references on region
    /// starts (its minimum object alignment). This model identifies an
    /// object with its block start, so a block from the offset-malloc path
    /// whose start is not region-aligned cannot itself be born as an
    /// object here; the runtime would place the object reference at the
    /// next region boundary inside the block, a mapping
    /// (`object_start_ref`) that belongs to the object model this space
    /// consumes and that the model does not carry.
    pub fn initialize_object_metadata(&mut self, object: u64)
        requires
            old(self).wf(),
            old(self).live_map().dom().contains(object),
            object % BYTES_IN_REGION == 0,
        ensures
            final(self).wf(),
            final(self).alloc_set() == old(self).alloc_set().insert(object),
            final(self).page_set() == old(self).page_set().insert(
                (page_of(object as int)) as u64,
            ),
            final(self).marked_set() == old(self).marked_set(),
            final(self).live_map() == old(self).live_map(),
            final(self).active_bytes == old(self).active_bytes,
            final(self).offset_set() == old(self).offset_set(),
            final(self).chunkmark_set() == old(self).chunkmark_set(),
            final(self).mapped_set() == old(self).mapped_set(),
            final(self).sft_set() == old(self).sft_set(),
            final(self).chunk_addr_min == old(self).chunk_addr_min,
            final(self).chunk_addr_max == old(self).chunk_addr_max,
    {
        let page_addr = page_align_down(object);
        self.meta.set_page_mark(page_addr);
        self.meta.set_alloc_bit(object);
        proof {
            assert(self.live_map() =~= old(self).live_map());
            assert forall|a: u64| #[trigger] self.offset_set().contains(a)
                implies a < self.alloc_util.sys_alloc().next_free() by {
                assert(old(self).offset_set().contains(a));
            }
            assert forall|o: u64| #[trigger] self.alloc_set().contains(o)
                implies self.live_map().dom().contains(o) by {
                if o != object {
                    assert(old(self).alloc_set().contains(o));
                }
            }
            assert forall|o: u64| #[trigger] self.marked_set().contains(o)
                implies self.alloc_set().contains(o) by {
                assert(old(self).marked_set().contains(o));
                assert(old(self).alloc_set().contains(o));
            }
            assert forall|a: u64| #[trigger] self.live_map().dom().contains(a)
                implies self.live_entry_ok(a) by {
                assert(old(self).live_map().dom().contains(a));
                assert(old(self).live_entry_ok(a));
            }
        }
    }

    /// Mark an object during tracing. A null reference passes through; an
    /// unmarked object is marked, its chunk is marked, and it is enqueued
    /// exactly once — a later trace of the same object enqueues nothing.
    pub fn trace_object<Q: ObjectQueue>(&mut self, queue: &mut Q, object: u64) -> (r: u64)
        requires
            old(self).wf(),
            object != 0 ==> old(self).alloc_set().contains(object),
        ensures
            final(self).wf(),
            r == object,
            object == 0 ==> *final(self) == *old(self) && final(queue).contents() == old(
                queue,
            ).contents(),
            object != 0 && old(self).marked_set().contains(object) ==> *final(self) == *old(self)
                && final(queue).contents() == old(queue).contents(),
            object != 0 && !old(self).marked_set().contains(object) ==> {
                &&& final(self).marked_set() == old(self).marked_set().insert(object)
                &&& final(self).chunkmark_set() == old(self).chunkmark_set().insert(
                    (chunk_of(object as int)) as u64,
                )
                &&& final(queue).contents() == old(queue).contents().push(object)
                &&& final(self).alloc_set() == old(self).alloc_set()
                &&& final(self).live_map() == old(self).live_map()
                &&& final(self).active_bytes == old(self).active_bytes
                &&& final(self).page_set() == old(self).page_set()
                &&& final(self).offset_set() == old(self).offset_set()
                &&& final(self).mapped_set() == old(self).mapped_set()
                &&& final(self).sft_set() == old(self).sft_set()
            },
    {
        if object == 0 {
            return object;
        }
        if !self.meta.is_marked(object) {
            let chunk_start = chunk_align_down(object);
            self.meta.set_mark_bit(object);
            self.meta.set_chunk_mark(chunk_start);
            queue.enqueue(object);
            proof {
                assert(self.live_map() =~= old(self).live_map());
                assert forall|o: u64| #[trigger] self.marked_set().contains(o)
                    implies self.alloc_set().contains(o) by {
                    if o != object {
                        assert(old(self).marked_set().contains(o));
                    }
                }
                assert forall|a: u64| #[trigger] self.offset_set().contains(a)
                    implies a < self.alloc_util.sys_alloc().next_free() by {
                    assert(old(self).offset_set().contains(a));
                }
                assert forall|o: u64| #[trigger] self.alloc_set().contains(o)
                    implies self.live_map().dom().contains(o) by {
                    assert(old(self).alloc_set().contains(o));
                }
                assert forall|a: u64| #[trigger] self.live_map().dom().contains(a)
                    implies self.live_entry_ok(a) by {
                    assert(old(self).live_map().dom().contains(a));
                    assert(old(self).live_entry_ok(a));
                }
            }
        }
        object
    }

    /// Map side metadata for `[addr, addr + size]` and widen the global
    /// chunk range to cover it. The lock-free compare-and-swap loops of a
    /// concurrent implementation collapse to plain monotone updates here.
    pub fn map_metadata_and_update_bound(&mut self, addr: u64, size: u64)
        requires
            old(self).meta.inv(),
            addr + size <= HEAP_LIMIT,
        ensures
            final(self).meta.inv(),
            forall|x: u64|
                #[trigger] final(self).mapped_set().contains(x) <==> (old(self).mapped_set().contains(x) || is_chunk_start_in(
                    x,
                    chunk_of(addr as int),
                    chunk_of(addr as int + size),
                )),
            final(self).chunk_addr_min == (if chunk_of(addr as int) < old(self).chunk_addr_min {
                (chunk_of(addr as int)) as u64
            } else {
                old(self).chunk_addr_min
            }),
            final(self).chunk_addr_max == (if chunk_of(addr as int + size) > old(self).chunk_addr_max {
                (chunk_of(addr as int + size)) as u64
            } else {
                old(self).chunk_addr_max
            }),
            final(self).alloc_set() == old(self).alloc_set(),
            final(self).marked_set() == old(self).marked_set(),
            final(self).page_set() == old(self).page_set(),
            final(self).chunkmark_set() == old(self).chunkmark_set(),
            final(self).offset_set() == old(self).offset_set(),
            final(self).active_mem == old(self).active_mem,
            final(self).active_bytes == old(self).active_bytes,
            final(self).alloc_util == old(self).alloc_util,
            final(self).sft == old(self).sft,
            final(self).metadata == old(self).metadata,
            final(self).mark_spec == old(self).mark_spec,
            final(self).total_work_packets == old(self).total_work_packets,
            final(self).completed_work_packets == old(self).completed_work_packets,
            final(self).work_live_bytes == old(self).work_live_bytes,
            final(self).collection_required == old(self).collection_required,
    {
        self.meta.map_meta_space(addr, size);
        let min_chunk = chunk_align_down(addr);
        if min_chunk < self.chunk_addr_min {
            self.chunk_addr_min = min_chunk;
        }
        let max_chunk = chunk_align_down(addr + size);
        if max_chunk > self.chunk_addr_max {
            self.chunk_addr_max = max_chunk;
        }
    }

    /// An object's block start, offset-malloc flag and usable size.
    pub fn get_malloc_addr_size(&self, object: u64) -> (r: (u64, bool, u64))
        requires
            self.wf(),
            self.live_map().dom().contains(object),
        ensures
            r.0 == object,
            r.1 == self.offset_set().contains(object),
            r.2 == self.live_map()[object],
    {
        proof {
            assert(self.live_entry_ok(object));
        }
        let offset_malloc_bit = self.meta.is_offset_malloc(object);
        let bytes = self.alloc_util.get_malloc_usable_size(object, offset_malloc_bit);
        (object, offset_malloc_bit, bytes)
    }

    /// The internal free path: return the block to the allocator, clear
    /// the offset-malloc bit if it was set, and subtract the usable size
    /// from `active_bytes`. The alloc bit must already be clear.
    fn free_internal(&mut self, addr: u64, bytes: u64, offset_malloc_bit: bool)
        requires
            old(self).wf(),
            old(self).live_map().dom().contains(addr),
            bytes == old(self).live_map()[addr],
            offset_malloc_bit == old(self).offset_set().contains(addr),
            !old(self).alloc_set().contains(addr),
        ensures
            final(self).wf(),
            final(self).live_map() =~= old(self).live_map().remove(addr),
            final(self).active_bytes == old(self).active_bytes - bytes,
            final(self).alloc_set() == old(self).alloc_set(),
            final(self).marked_set() == old(self).marked_set(),
            final(self).page_set() == old(self).page_set(),
            final(self).chunkmark_set() == old(self).chunkmark_set(),
            final(self).mapped_set() == old(self).mapped_set(),
            final(self).sft_set() == old(self).sft_set(),
            final(self).offset_set() == old(self).offset_set().remove(addr),
            final(self).chunk_addr_min == old(self).chunk_addr_min,
            final(self).chunk_addr_max == old(self).chunk_addr_max,
            final(self).total_work_packets == old(self).total_work_packets,
            final(self).completed_work_packets == old(self).completed_work_packets,
            final(self).work_live_bytes == old(self).work_live_bytes,
            final(self).collection_required == old(self).collection_required,
    {
        proof {
            assert(old(self).live_entry_ok(addr));
            lemma_sum_remove(old(self).live_map(), addr);
            lemma_sum_nonneg(old(self).live_map().remove(addr));
        }
        if offset_malloc_bit {
            self.alloc_util.offset_free(addr);
            self.meta.unset_offset_malloc_bit(addr);
        } else {
            self.alloc_util.free(addr);
        }
        self.active_bytes = self.active_bytes - bytes;
        self.active_mem.insert(addr, 0);
        proof {
            let m0 = *old(self);
            assert(self.live_map() =~= m0.live_map().remove(addr));
            assert(self.live_map().dom().subset_of(m0.live_map().dom()));
            vstd::set_lib::lemma_set_subset_finite(m0.live_map().dom(), self.live_map().dom());
            if !offset_malloc_bit {
                assert(self.offset_set() =~= m0.offset_set().remove(addr));
            }
            assert forall|o: u64| #[trigger] self.marked_set().contains(o)
                implies self.alloc_set().contains(o) by {
                assert(m0.marked_set().contains(o));
            }
            assert forall|o: u64| #[trigger] self.alloc_set().contains(o)
                implies self.live_map().dom().contains(o) by {
                assert(m0.alloc_set().contains(o));
                assert(m0.live_map().dom().contains(o));
                assert(o != addr);
            }
            assert forall|x: u64| #[trigger] self.offset_set().contains(x)
                implies x < self.alloc_util.sys_alloc().next_free() by {
                assert(m0.offset_set().contains(x));
            }
            assert forall|a: u64| #[trigger] self.live_map().dom().contains(a)
                implies self.live_entry_ok(a) by {
                assert(m0.live_map().dom().contains(a));
                assert(m0.live_entry_ok(a));
                assert(a != addr);
                assert(m0.block_of(a) != m0.block_of(addr));
                assert(self.offset_set().contains(a) == m0.offset_set().contains(a));
                if m0.offset_set().contains(a) {
                    assert(self.alloc_util.offset_map()[a] == m0.alloc_util.offset_map()[a]);
                }
            }
            assert forall|a1: u64, a2: u64|
                #[trigger] self.live_map().dom().contains(a1) && #[trigger] self.live_map(
                ).dom().contains(a2) && a1 != a2 implies self.block_of(a1) != self.block_of(
                a2,
            ) by {
                assert(m0.live_map().dom().contains(a1));
                assert(m0.live_map().dom().contains(a2));
                assert(m0.block_of(a1) != m0.block_of(a2));
                assert(self.offset_set().contains(a1) == m0.offset_set().contains(a1));
                assert(self.offset_set().contains(a2) == m0.offset_set().contains(a2));
            }
            assert forall|a: u64, c: u64|
                #[trigger] self.live_map().dom().contains(a) && is_chunk_start_in(
                    c,
                    chunk_of(a as int),
                    chunk_of(a as int + self.live_map()[a]),
                ) implies #[trigger] self.mapped_set().contains(c) by {
                assert(m0.live_map().dom().contains(a));
                assert(m0.mapped_set().contains(c));
            }
            assert forall|c: u64| #[trigger] self.mapped_set().contains(c)
                implies self.chunk_addr_min <= c && c <= self.chunk_addr_max by {
                assert(m0.mapped_set().contains(c));
            }
        }
    }

    /// Free a block by its address, as handed out by `allocate`. The
    /// object must not be marked (freeing a reachable object is a caller
    /// error); a set alloc bit is cleared, so the address no longer counts
    /// as an object afterwards.
    pub fn free(&mut self, addr: u64)
        requires
            old(self).wf(),
            old(self).live_map().dom().contains(addr),
            !old(self).marked_set().contains(addr),
        ensures
            final(self).wf(),
            final(self).live_map() =~= old(self).live_map().remove(addr),
            final(self).active_bytes == old(self).active_bytes - old(self).live_map()[addr],
            final(self).alloc_set() == old(self).alloc_set().remove(addr),
            final(self).marked_set() == old(self).marked_set(),
            final(self).page_set() == old(self).page_set(),
            final(self).chunkmark_set() == old(self).chunkmark_set(),
            final(self).mapped_set() == old(self).mapped_set(),
            final(self).sft_set() == old(self).sft_set(),
            final(self).offset_set() == old(self).offset_set().remove(addr),
            final(self).chunk_addr_min == old(self).chunk_addr_min,
            final(self).chunk_addr_max == old(self).chunk_addr_max,
    {
        proof {
            assert(old(self).live_entry_ok(addr));
        }
        let offset_malloc_bit = self.meta.is_offset_malloc(addr);
        let bytes = self.alloc_util.get_malloc_usable_size(addr, offset_malloc_bit);
        self.meta.unset_alloc_bit(addr);
        proof {
            let m0 = *old(self);
            assert(self.live_map() =~= m0.live_map());
            assert forall|o: u64| #[trigger] self.marked_set().contains(o)
                implies self.alloc_set().contains(o) by {
                assert(m0.marked_set().contains(o));
                assert(o != addr);
            }
            assert forall|o: u64| #[trigger] self.alloc_set().contains(o)
                implies self.live_map().dom().contains(o) by {
                assert(m0.alloc_set().contains(o));
            }
            assert forall|x: u64| #[trigger] self.offset_set().contains(x)
                implies x < self.alloc_util.sys_alloc().next_free() by {
                assert(m0.offset_set().contains(x));
            }
            assert forall|a: u64| #[trigger] self.live_map().dom().contains(a)
                implies self.live_entry_ok(a) by {
                assert(m0.live_map().dom().contains(a));
                assert(m0.live_entry_ok(a));
            }
        }
        self.free_internal(addr, bytes, offset_malloc_bit);
    }


    /// Allocate `size` bytes such that the returned address plus `offset`
    /// is aligned to `align`.
    ///
    /// If the GC trigger has requested a collection, a mutator parks for
    /// it and retries; the null address is the signal (the model has no
    /// threads to park, so only the null return is visible). Otherwise a
    /// null return means the allocator is out of memory. On success the
    /// block's side metadata is mapped, the space is published over its
    /// chunks, the usable size is added to `active_bytes`, and the
    /// offset-malloc bit is set when the adapter padded the block.
    pub fn allocate(&mut self, tls: VmThread, size: u64, align: u64, offset: u64) -> (addr: u64)
        requires
            old(self).wf(),
            1 <= size <= MAX_REQUEST,
            1 <= align <= MAX_ALIGN,
            offset < align,
            old(self).collection_required ==> tls.mutator,
        ensures
            final(self).wf(),
            old(self).collection_required ==> addr == 0 && *final(self) == *old(self),
            !old(self).collection_required ==> {
                &&& ((addr == 0) <==> (old(self).alloc_util.sys_alloc().next_free() + align_up(
                    request_of(size, align, offset),
                    BYTES_IN_REGION as int,
                ) > HEAP_LIMIT))
                &&& (addr == 0 ==> *final(self) == *old(self))
                &&& (addr != 0 ==> {
                    &&& HEAP_BASE <= addr
                    &&& !old(self).live_map().dom().contains(addr)
                    &&& final(self).live_map().dom().contains(addr)
                    &&& final(self).live_map() =~= old(self).live_map().insert(
                        addr,
                        final(self).live_map()[addr],
                    )
                    &&& size <= final(self).live_map()[addr]
                    &&& final(self).active_bytes == old(self).active_bytes + final(self).live_map()[addr]
                    &&& (addr as int + offset as int) % (align as int) == 0
                    &&& final(self).alloc_set() == old(self).alloc_set()
                    &&& final(self).marked_set() == old(self).marked_set()
                    &&& final(self).page_set() == old(self).page_set()
                    &&& final(self).chunkmark_set() == old(self).chunkmark_set()
                    &&& (forall|x: u64|
                        x != addr ==> (#[trigger] final(self).offset_set().contains(x) == old(self).offset_set().contains(x)))
                    &&& (align % BYTES_IN_REGION == 0 && offset % BYTES_IN_REGION != 0 ==> final(self).offset_set().contains(addr))
                    &&& (forall|x: u64|
                        #[trigger] old(self).sft_set().contains(x) ==> final(self).sft_set().contains(x))
                    &&& final(self).chunk_addr_min <= old(self).chunk_addr_min
                    &&& final(self).chunk_addr_max >= old(self).chunk_addr_max
                    &&& (forall|c: u64|
                        is_chunk_start_in(
                            c,
                            chunk_of(addr as int),
                            chunk_of(addr as int + final(self).live_map()[addr]),
                        ) ==> #[trigger] final(self).mapped_set().contains(c))
                    &&& (!(forall|c: u64|
                        is_chunk_start_in(
                            c,
                            chunk_of(addr as int),
                            chunk_of(addr as int + final(self).live_map()[addr]),
                        ) ==> #[trigger] old(self).mapped_set().contains(c)) ==> (forall|c: u64|
                        is_chunk_start_in(
                            c,
                            chunk_of(addr as int),
                            chunk_of(addr as int + final(self).live_map()[addr]),
                        ) ==> #[trigger] final(self).sft_set().contains(c)))
                })
            },
    {
        if self.collection_required {
            return 0;
        }
        let (addr, is_offset_malloc) = self.alloc_util.allocate_block(size, align, offset);
        if addr == 0 {
            return 0;
        }
        let actual_size = self.alloc_util.get_malloc_usable_size(addr, is_offset_malloc);
        proof {
            let u1 = self.alloc_util;
            let b = u1.block_of(addr, is_offset_malloc);
            assert(u1.sys_alloc().blocks_map().contains_key(b));
            assert(b + u1.sys_alloc().blocks_map()[b] <= u1.sys_alloc().next_free());
            assert(addr as int + actual_size as int <= u1.sys_alloc().next_free());
            assert(addr < u1.sys_alloc().next_free());
        }
        let mapped_already = self.meta.is_meta_space_mapped(addr, actual_size);
        let ghost premapped = self.mapped_set();
        if !mapped_already {
            self.map_metadata_and_update_bound(addr, actual_size);
            let ghost mm_after_map = self.mapped_set();
            self.sft.update(addr, actual_size);
            proof {
                assert(self.mapped_set() == mm_after_map);
                assert forall|c: u64|
                    is_chunk_start_in(
                        c,
                        chunk_of(addr as int),
                        chunk_of(addr as int + actual_size as int),
                    ) implies #[trigger] self.sft_set().contains(c) by {}
            }
        }
        proof {
            assert(premapped == old(self).mapped_set());
            assert forall|c: u64|
                is_chunk_start_in(
                    c,
                    chunk_of(addr as int),
                    chunk_of(addr as int + actual_size as int),
                ) implies #[trigger] self.mapped_set().contains(c) by {}
            assert forall|c: u64| #[trigger] self.mapped_set().contains(c)
                implies self.chunk_addr_min <= c && c <= self.chunk_addr_max by {
                if self.mapped_set().contains(c) && !old(self).mapped_set().contains(c) {
                    crate::layout::lemma_align_down_bounds(addr as int, BYTES_IN_CHUNK as int);
                    crate::layout::lemma_align_down_bounds(
                        addr as int + actual_size as int,
                        BYTES_IN_CHUNK as int,
                    );
                } else {
                    if self.mapped_set().contains(c) {
                        assert(old(self).mapped_set().contains(c));
                    }
                }
            }
            if self.chunk_addr_min != old(self).chunk_addr_min {
                crate::layout::lemma_align_down_bounds(addr as int, BYTES_IN_CHUNK as int);
            }
            if self.chunk_addr_max != old(self).chunk_addr_max {
                crate::layout::lemma_align_down_bounds(
                    addr as int + actual_size as int,
                    BYTES_IN_CHUNK as int,
                );
            }
            assert forall|x: u64| #[trigger] old(self).sft_set().contains(x)
                implies self.sft_set().contains(x) by {}
        }
        let ghost mapped_mid = self.mapped_set();
        let ghost sft_mid = self.sft_set();
        let ghost cmin_mid = self.chunk_addr_min;
        let ghost cmax_mid = self.chunk_addr_max;
        proof {
            assert(self.active_bytes as int + actual_size as int <= HEAP_LIMIT);
        }
        self.active_bytes = self.active_bytes + actual_size;
        if is_offset_malloc {
            self.meta.set_offset_malloc_bit(addr);
        }
        self.active_mem.insert(addr, actual_size);
        proof {
            let m0 = *old(self);
            let live0 = m0.live_map();
            // the address is fresh: every earlier live block sits below it
            assert forall|a: u64| live0.dom().contains(a) implies a < addr by {
                assert(m0.live_entry_ok(a));
            }
            assert(!live0.dom().contains(addr));
            assert(self.live_map() =~= live0.insert(addr, actual_size));
            lemma_sum_insert(live0, addr, actual_size);
            assert(self.live_map().dom().subset_of(self.active_mem@.dom()));
            vstd::set_lib::lemma_set_subset_finite(
                self.active_mem@.dom(),
                self.live_map().dom(),
            );
            // the offset bit of every other address is unchanged
            assert forall|x: u64|
                x != addr implies (#[trigger] self.offset_set().contains(x) == m0.offset_set(
            ).contains(x)) by {}
            assert(self.offset_set().contains(addr) == is_offset_malloc);
            if align % BYTES_IN_REGION == 0 && offset % BYTES_IN_REGION != 0 {
                // the padded start cannot sit on the region granularity,
                // so the adapter must have taken the offset path
                crate::layout::lemma_mod_divides(
                    addr as int + offset as int,
                    align as int,
                    BYTES_IN_REGION as int,
                );
                assert(addr % BYTES_IN_REGION != 0) by (nonlinear_arith)
                    requires
                        (addr as int + offset as int) % (BYTES_IN_REGION as int) == 0,
                        offset as int % (BYTES_IN_REGION as int) != 0,
                        addr >= 0,
                        offset >= 0,
                        BYTES_IN_REGION == 16,
                ;
                assert(is_offset_malloc);
            }
            assert forall|x: u64| #[trigger] self.offset_set().contains(x)
                implies x < self.alloc_util.sys_alloc().next_free() by {
                if x != addr {
                    assert(m0.offset_set().contains(x));
                }
            }
            assert forall|o: u64| #[trigger] self.marked_set().contains(o)
                implies self.alloc_set().contains(o) by {
                assert(m0.marked_set().contains(o));
            }
            assert forall|o: u64| #[trigger] self.alloc_set().contains(o)
                implies self.live_map().dom().contains(o) by {
                assert(m0.alloc_set().contains(o));
                assert(live0.dom().contains(o));
            }
            // every live ledger entry stays (or becomes) consistent
            assert forall|a: u64| #[trigger] self.live_map().dom().contains(a)
                implies self.live_entry_ok(a) by {
                if a == addr {
                    assert(self.alloc_util.backs(addr, is_offset_malloc));
                } else {
                    assert(live0.dom().contains(a));
                    assert(m0.live_entry_ok(a));
                    assert(self.offset_set().contains(a) == m0.offset_set().contains(a));
                    if m0.offset_set().contains(a) {
                        assert(m0.alloc_util.offset_map().contains_key(a));
                        assert(self.alloc_util.offset_map().contains_key(a)
                            && self.alloc_util.offset_map()[a] == m0.alloc_util.offset_map()[a]);
                        assert(m0.alloc_util.sys_alloc().blocks_map().contains_key(
                            m0.alloc_util.offset_map()[a],
                        ));
                    } else {
                        assert(m0.alloc_util.sys_alloc().blocks_map().contains_key(a));
                    }
                }
            }
            assert forall|a1: u64, a2: u64|
                #[trigger] self.live_map().dom().contains(a1) && #[trigger] self.live_map(
                ).dom().contains(a2) && a1 != a2 implies self.block_of(a1) != self.block_of(
                a2,
            ) by {
                if a1 != addr && a2 != addr {
                    assert(live0.dom().contains(a1));
                    assert(live0.dom().contains(a2));
                    assert(m0.block_of(a1) != m0.block_of(a2));
                    assert(self.offset_set().contains(a1) == m0.offset_set().contains(a1));
                    assert(self.offset_set().contains(a2) == m0.offset_set().contains(a2));
                } else {
                    let other = if a1 == addr { a2 } else { a1 };
                    assert(live0.dom().contains(other));
                    assert(m0.live_entry_ok(other));
                    assert(m0.alloc_util.sys_alloc().blocks_map().contains_key(
                        m0.block_of(other),
                    ));
                    assert(self.block_of(other) == m0.block_of(other));
                    assert(!m0.alloc_util.sys_alloc().blocks_map().contains_key(
                        self.block_of(addr),
                    ));
                }
            }
            // the tables settled at the mapping step are untouched since
            assert(self.mapped_set() == mapped_mid);
            assert(self.sft_set() == sft_mid);
            assert(self.chunk_addr_min == cmin_mid);
            assert(self.chunk_addr_max == cmax_mid);
            // metadata mapping covers every live block's chunks
            assert forall|a: u64, c: u64|
                #[trigger] self.live_map().dom().contains(a) && is_chunk_start_in(
                    c,
                    chunk_of(a as int),
                    chunk_of(a as int + self.live_map()[a]),
                ) implies #[trigger] self.mapped_set().contains(c) by {
                if a == addr {
                    assert(self.live_map()[addr] == actual_size);
                    assert(mapped_mid.contains(c));
                } else {
                    assert(live0.dom().contains(a));
                    assert(m0.mapped_set().contains(c));
                    assert(mapped_mid.contains(c));
                }
            }
            assert forall|c: u64| #[trigger] self.mapped_set().contains(c)
                implies self.chunk_addr_min <= c && c <= self.chunk_addr_max by {
                assert(mapped_mid.contains(c));
            }
            assert forall|x: u64| #[trigger] m0.sft_set().contains(x)
                implies self.sft_set().contains(x) by {
                assert(sft_mid.contains(x));
            }
            assert(mapped_already == (forall|c: u64|
                is_chunk_start_in(
                    c,
                    chunk_of(addr as int),
                    chunk_of(addr as int + actual_size as int),
                ) ==> #[trigger] m0.mapped_set().contains(c)));
            if !mapped_already {
                assert forall|c: u64|
                    is_chunk_start_in(
                        c,
                        chunk_of(addr as int),
                        chunk_of(addr as int + self.live_map()[addr]),
                    ) implies #[trigger] self.sft_set().contains(c) by {
                    assert(self.live_map()[addr] == actual_size);
                    assert(sft_mid.contains(c));
                }
            }
        }
        addr
    }


    /// Sweep one object if it is dead, and unset page marks for the empty
    /// span before it when it is live. Returns true iff the object was
    /// swept.
    ///
    /// `empty_page_start` walks the chunk: it is null until the first
    /// surviving object and afterwards points just past the last one, so
    /// a fully dead prefix leaves it null.
    fn sweep_object(&mut self, object: u64, empty_page_start: &mut u64) -> (dead: bool)
        requires
            old(self).wf(),
            old(self).alloc_set().contains(object),
            *old(empty_page_start) <= HEAP_LIMIT,
        ensures
            final(self).wf(),
            dead == !old(self).marked_set().contains(object),
            dead ==> {
                &&& final(self).alloc_set() == old(self).alloc_set().remove(object)
                &&& final(self).live_map() =~= old(self).live_map().remove(object)
                &&& final(self).marked_set() == old(self).marked_set()
                &&& final(self).page_set() == old(self).page_set()
                &&& final(self).active_bytes == old(self).active_bytes - old(self).live_map()[object]
                &&& (forall|x: u64|
                    #[trigger] final(self).offset_set().contains(x) == (old(
                        self,
                    ).offset_set().contains(x) && x != object))
                &&& *final(empty_page_start) == *old(empty_page_start)
            },
            !dead ==> {
                &&& final(self).alloc_set() == old(self).alloc_set()
                &&& final(self).live_map() =~= old(self).live_map()
                &&& final(self).marked_set() == old(self).marked_set()
                &&& final(self).active_bytes == old(self).active_bytes
                &&& final(self).offset_set() == old(self).offset_set()
                &&& (forall|p: u64|
                    #[trigger] final(self).page_set().contains(p) ==> old(
                        self,
                    ).page_set().contains(p))
                &&& (forall|p: u64|
                    (*old(empty_page_start) == 0 || p < *old(empty_page_start) || p >= page_of(
                        object as int,
                    )) ==> (#[trigger] final(self).page_set().contains(p) == old(
                        self,
                    ).page_set().contains(p)))
                &&& ((*old(empty_page_start) != 0 && *old(empty_page_start) % BYTES_IN_PAGE == 0)
                    ==> (forall|p: u64|
                    #[trigger] final(self).page_set().contains(p) <==> (old(
                        self,
                    ).page_set().contains(p) && !(*old(empty_page_start) <= p < page_of(
                        object as int,
                    )))))
                &&& (*old(empty_page_start) % BYTES_IN_PAGE != 0 ==> final(self).page_set()
                    == old(self).page_set())
                &&& *final(empty_page_start) == align_up(
                    object as int + old(self).live_map()[object],
                    BYTES_IN_PAGE as int,
                )
                &&& *final(empty_page_start) <= HEAP_LIMIT
                &&& object < *final(empty_page_start)
            },
            final(self).chunkmark_set() == old(self).chunkmark_set(),
            final(self).sft_set() == old(self).sft_set(),
            final(self).mapped_set() == old(self).mapped_set(),
            final(self).chunk_addr_min == old(self).chunk_addr_min,
            final(self).chunk_addr_max == old(self).chunk_addr_max,
            final(self).collection_required == old(self).collection_required,
            final(self).total_work_packets == old(self).total_work_packets,
            final(self).completed_work_packets == old(self).completed_work_packets,
            final(self).work_live_bytes == old(self).work_live_bytes,
    {
        proof {
            assert(old(self).live_map().dom().contains(object));
            assert(old(self).live_entry_ok(object));
        }
        let (obj_start, offset_malloc, bytes) = self.get_malloc_addr_size(object);
        if !self.meta.is_marked(object) {
            // dead object: free the block and clear its alloc bit
            self.meta.unset_alloc_bit(object);
            proof {
                let m0 = *old(self);
                assert(self.live_map() =~= m0.live_map());
                assert forall|o: u64| #[trigger] self.marked_set().contains(o)
                    implies self.alloc_set().contains(o) by {
                    assert(m0.marked_set().contains(o));
                    assert(o != object);
                }
                assert forall|o: u64| #[trigger] self.alloc_set().contains(o)
                    implies self.live_map().dom().contains(o) by {
                    assert(m0.alloc_set().contains(o));
                }
                assert forall|x: u64| #[trigger] self.offset_set().contains(x)
                    implies x < self.alloc_util.sys_alloc().next_free() by {
                    assert(m0.offset_set().contains(x));
                }
                assert forall|a: u64| #[trigger] self.live_map().dom().contains(a)
                    implies self.live_entry_ok(a) by {
                    assert(m0.live_map().dom().contains(a));
                    assert(m0.live_entry_ok(a));
                }
            }
            self.free_internal(obj_start, bytes, offset_malloc);
            true
        } else {
            // live object: clear page marks over the empty span before it
            if *empty_page_start != 0 {
                let current_page = page_align_down(object);
                let mut page = *empty_page_start;
                let ghost eps0 = *empty_page_start;
                while page < current_page
                    invariant
                        self.wf(),
                        eps0 <= page,
                        page <= HEAP_LIMIT + BYTES_IN_PAGE,
                        current_page <= HEAP_LIMIT,
                        self.meta.alloc_set() == old(self).meta.alloc_set(),
                        self.meta.mark_set() == old(self).meta.mark_set(),
                        self.meta.offset_set() == old(self).meta.offset_set(),
                        self.meta.chunk_set() == old(self).meta.chunk_set(),
                        self.meta.mapped_set() == old(self).meta.mapped_set(),
                        self.alloc_util == old(self).alloc_util,
                        self.sft == old(self).sft,
                        self.active_mem == old(self).active_mem,
                        self.active_bytes == old(self).active_bytes,
                        self.chunk_addr_min == old(self).chunk_addr_min,
                        self.chunk_addr_max == old(self).chunk_addr_max,
                        self.metadata == old(self).metadata,
                        self.mark_spec == old(self).mark_spec,
                        self.collection_required == old(self).collection_required,
                        self.total_work_packets == old(self).total_work_packets,
                        self.completed_work_packets == old(self).completed_work_packets,
                        self.work_live_bytes == old(self).work_live_bytes,
                        forall|p: u64|
                            #[trigger] self.page_set().contains(p) ==> old(
                                self,
                            ).page_set().contains(p),
                        forall|p: u64|
                            (p < eps0 || p >= current_page) ==> (#[trigger] self.page_set(
                            ).contains(p) == old(self).page_set().contains(p)),
                        page % BYTES_IN_PAGE == eps0 % BYTES_IN_PAGE,
                        eps0 % BYTES_IN_PAGE == 0 ==> (forall|p: u64|
                            #[trigger] self.page_set().contains(p) <==> (old(
                                self,
                            ).page_set().contains(p) && !(eps0 <= p < page && p < current_page))),
                        eps0 % BYTES_IN_PAGE != 0 ==> self.page_set() == old(self).page_set(),
                    decreases current_page + BYTES_IN_PAGE - page,
                {
                    let ghost prev = *self;
                    self.meta.unset_page_mark(page);
                    proof {
                        assert(self.live_map() =~= prev.live_map());
                        assert forall|p: u64| #[trigger] self.page_set().contains(p)
                            implies old(self).page_set().contains(p) by {
                            assert(prev.page_set().contains(p));
                        }
                        assert forall|p: u64|
                            (p < eps0 || p >= current_page) implies (
                        #[trigger] self.page_set().contains(p) == old(self).page_set().contains(
                            p,
                        )) by {
                            assert(self.page_set().contains(p) == prev.page_set().contains(p));
                        }
                        assert forall|a: u64| #[trigger] self.live_map().dom().contains(a)
                            implies self.live_entry_ok(a) by {
                            assert(prev.live_map().dom().contains(a));
                            assert(prev.live_entry_ok(a));
                        }
                        assert forall|o: u64| #[trigger] self.marked_set().contains(o)
                            implies self.alloc_set().contains(o) by {
                            assert(prev.marked_set().contains(o));
                        }
                        assert forall|o: u64| #[trigger] self.alloc_set().contains(o)
                            implies self.live_map().dom().contains(o) by {
                            assert(prev.alloc_set().contains(o));
                            assert(prev.live_map().dom().contains(o));
                        }
                        assert forall|x: u64| #[trigger] self.offset_set().contains(x)
                            implies x < self.alloc_util.sys_alloc().next_free() by {
                            assert(prev.offset_set().contains(x));
                        }
                        assert((page as int + BYTES_IN_PAGE) % (BYTES_IN_PAGE as int) == page as int
                            % (BYTES_IN_PAGE as int)) by (nonlinear_arith);
                        if eps0 % BYTES_IN_PAGE == 0 {
                            assert(page % BYTES_IN_PAGE == 0);
                            assert forall|p: u64|
                                #[trigger] self.page_set().contains(p) <==> (old(
                                    self,
                                ).page_set().contains(p) && !(eps0 <= p < page + BYTES_IN_PAGE
                                    && p < current_page)) by {
                                assert(self.page_set() == prev.page_set().remove(page));
                                if p == page {
                                    assert(!self.page_set().contains(p));
                                } else {
                                    assert(self.page_set().contains(p) == prev.page_set(
                                    ).contains(p));
                                    if page <= p < page + BYTES_IN_PAGE && old(
                                        self,
                                    ).page_set().contains(p) {
                                        assert(p % BYTES_IN_PAGE == 0);
                                        crate::layout::lemma_unique_aligned_in_window(
                                            page as int,
                                            p as int,
                                            BYTES_IN_PAGE as int,
                                        );
                                    }
                                }
                            }
                        } else {
                            assert forall|p: u64| prev.page_set().contains(p)
                                implies self.page_set().contains(p) by {
                                assert(p % BYTES_IN_PAGE == 0);
                                assert(p != page);
                            }
                            assert(self.page_set() =~= prev.page_set());
                        }
                    }
                    page = page + BYTES_IN_PAGE;
                }
            }
            let new_eps = page_align_up(obj_start + bytes);
            proof {
                crate::layout::lemma_align_down_monotone(
                    obj_start as int + bytes + BYTES_IN_PAGE - 1,
                    HEAP_LIMIT as int + BYTES_IN_PAGE - 1,
                    BYTES_IN_PAGE as int,
                );
                assert(align_up(HEAP_LIMIT as int, BYTES_IN_PAGE as int) == HEAP_LIMIT);
            }
            *empty_page_start = new_eps;
            false
        }
    }

    /// Tear down an empty chunk: clear its chunk mark and revoke this
    /// space's entry in the global address-to-space map.
    fn clean_up_empty_chunk(&mut self, chunk_start: u64)
        requires
            old(self).wf(),
        ensures
            final(self).wf(),
            final(self).chunkmark_set() == old(self).chunkmark_set().remove(chunk_start),
            final(self).sft_set() == old(self).sft_set().remove(chunk_start),
            final(self).alloc_set() == old(self).alloc_set(),
            final(self).marked_set() == old(self).marked_set(),
            final(self).page_set() == old(self).page_set(),
            final(self).offset_set() == old(self).offset_set(),
            final(self).mapped_set() == old(self).mapped_set(),
            final(self).live_map() =~= old(self).live_map(),
            final(self).active_bytes == old(self).active_bytes,
            final(self).chunk_addr_min == old(self).chunk_addr_min,
            final(self).chunk_addr_max == old(self).chunk_addr_max,
            final(self).collection_required == old(self).collection_required,
            final(self).total_work_packets == old(self).total_work_packets,
            final(self).completed_work_packets == old(self).completed_work_packets,
            final(self).work_live_bytes == old(self).work_live_bytes,
    {
        self.meta.unset_chunk_mark(chunk_start);
        self.sft.clear(chunk_start);
        proof {
            let m0 = *old(self);
            assert(self.live_map() =~= m0.live_map());
            assert forall|o: u64| #[trigger] self.marked_set().contains(o)
                implies self.alloc_set().contains(o) by {
                assert(m0.marked_set().contains(o));
            }
            assert forall|o: u64| #[trigger] self.alloc_set().contains(o)
                implies self.live_map().dom().contains(o) by {
                assert(m0.alloc_set().contains(o));
            }
            assert forall|x: u64| #[trigger] self.offset_set().contains(x)
                implies x < self.alloc_util.sys_alloc().next_free() by {
                assert(m0.offset_set().contains(x));
            }
            assert forall|a: u64| #[trigger] self.live_map().dom().contains(a)
                implies self.live_entry_ok(a) by {
                assert(m0.live_map().dom().contains(a));
                assert(m0.live_entry_ok(a));
            }
        }
    }

    /// Record one finished sweep work packet: bump the completed count,
    /// add the packet's live bytes, and — once every packet is in — check
    /// the cross-sweep accounting: the live bytes of all packets must be
    /// exactly `active_bytes`. Returns the outcome of that check (true as
    /// long as it is not yet due).
    pub fn debug_sweep_chunk_done(&mut self, live_bytes_in_the_chunk: u64) -> (ok: bool)
        requires
            old(self).wf(),
            old(self).completed_work_packets < u64::MAX,
            old(self).work_live_bytes + live_bytes_in_the_chunk <= u64::MAX,
        ensures
            final(self).wf(),
            final(self).completed_work_packets == old(self).completed_work_packets + 1,
            final(self).work_live_bytes == old(self).work_live_bytes + live_bytes_in_the_chunk,
            ok == (final(self).completed_work_packets == final(self).total_work_packets
                ==> final(self).work_live_bytes == final(self).active_bytes),
            *final(self) == (MallocSpace {
                completed_work_packets: final(self).completed_work_packets,
                work_live_bytes: final(self).work_live_bytes,
                ..*old(self)
            }),
    {
        self.completed_work_packets = self.completed_work_packets + 1;
        self.work_live_bytes = self.work_live_bytes + live_bytes_in_the_chunk;
        if self.completed_work_packets == self.total_work_packets {
            self.work_live_bytes == self.active_bytes
        } else {
            true
        }
    }


    /// Sweep one chunk when the mark bit lives in the object header:
    /// a plain linear scan, sweeping every object and clearing the mark of
    /// each survivor.
    fn sweep_chunk_mark_in_header(&mut self, chunk_start: u64)
        requires
            old(self).wf(),
            chunk_start % BYTES_IN_CHUNK == 0,
            chunk_start + BYTES_IN_CHUNK <= HEAP_LIMIT,
        ensures
            final(self).wf(),
            sweep_frame(*old(self), *final(self), chunk_start),
    {
        let ghost m0 = *old(self);
        let chunk_end = chunk_start + BYTES_IN_CHUNK;
        let mut empty_page_start: u64 = 0;
        let mut address = chunk_start;
        proof {
            crate::layout::lemma_mod_divides(
                chunk_start as int,
                BYTES_IN_CHUNK as int,
                BYTES_IN_REGION as int,
            );
            assert((chunk_start as int + BYTES_IN_CHUNK) % (BYTES_IN_REGION as int) == 0)
                by (nonlinear_arith)
                requires
                    chunk_start as int % (BYTES_IN_REGION as int) == 0,
                    BYTES_IN_CHUNK as int % (BYTES_IN_REGION as int) == 0,
            ;
            crate::layout::lemma_mod_divides(
                chunk_start as int,
                BYTES_IN_CHUNK as int,
                BYTES_IN_BULK as int,
            );
            assert((chunk_start as int + BYTES_IN_CHUNK) % (BYTES_IN_BULK as int) == 0)
                by (nonlinear_arith)
                requires
                    chunk_start as int % (BYTES_IN_BULK as int) == 0,
                    BYTES_IN_CHUNK as int % (BYTES_IN_BULK as int) == 0,
            ;
        }
        while address < chunk_end
            invariant
                self.wf(),
                m0.wf(),
                m0 == *old(self),
                chunk_start % BYTES_IN_CHUNK == 0,
                chunk_start <= address <= chunk_end,
                address % BYTES_IN_REGION == 0,
                chunk_end == chunk_start + BYTES_IN_CHUNK,
                chunk_end % BYTES_IN_REGION == 0,
                chunk_end <= HEAP_LIMIT,
                empty_page_start <= HEAP_LIMIT,
                empty_page_start == 0 || chunk_start <= empty_page_start,
                sweep_scan_inv(m0, *self, chunk_start, address),
                (empty_page_start == 0) <==> (forall|a: u64|
                    !(chunk_start <= a < address && m0.alloc_set().contains(a)
                        && #[trigger] m0.marked_set().contains(a))),
                self.marked_set() == marks_cleared(m0.marked_set(), chunk_start, address as int),
                self.chunkmark_set() == m0.chunkmark_set(),
                self.sft_set() == m0.sft_set(),
                self.mapped_set() == m0.mapped_set(),
                self.chunk_addr_min == m0.chunk_addr_min,
                self.chunk_addr_max == m0.chunk_addr_max,
                self.collection_required == m0.collection_required,
                self.total_work_packets == m0.total_work_packets,
                self.completed_work_packets == m0.completed_work_packets,
                self.work_live_bytes == m0.work_live_bytes,
            decreases chunk_end - address,
        {
            let ghost pre = *self;
            let ghost eps_pre = empty_page_start;
            if self.meta.is_alloced(address) {
                let live = !self.sweep_object(address, &mut empty_page_start);
                if live {
                    // the survivor's mark is cleared non-atomically: this
                    // worker owns the chunk
                    let ghost mid = *self;
                    self.meta.unset_mark_bit(address);
                    proof {
                        assert(self.live_map() =~= mid.live_map());
                        assert forall|o: u64| #[trigger] self.marked_set().contains(o)
                            implies self.alloc_set().contains(o) by {
                            assert(mid.marked_set().contains(o));
                        }
                        assert forall|o: u64| #[trigger] self.alloc_set().contains(o)
                            implies self.live_map().dom().contains(o) by {
                            assert(mid.alloc_set().contains(o));
                            assert(mid.live_map().dom().contains(o));
                        }
                        assert forall|x: u64| #[trigger] self.offset_set().contains(x)
                            implies x < self.alloc_util.sys_alloc().next_free() by {
                            assert(mid.offset_set().contains(x));
                        }
                        assert forall|a: u64| #[trigger] self.live_map().dom().contains(a)
                            implies self.live_entry_ok(a) by {
                            assert(mid.live_map().dom().contains(a));
                            assert(mid.live_entry_ok(a));
                        }
                        assert forall|p: u64| !(chunk_start <= p < chunk_start + BYTES_IN_CHUNK)
                            implies (#[trigger] self.page_set().contains(p)
                            == pre.page_set().contains(p)) by {
                            crate::layout::lemma_align_down_bounds(
                                address as int,
                                BYTES_IN_PAGE as int,
                            );
                            assert(self.page_set() == mid.page_set());
                            assert(eps_pre == 0 || p < eps_pre || p >= page_of(address as int));
                            assert(mid.page_set().contains(p) == pre.page_set().contains(p));
                        }
                        assert forall|p: u64| #[trigger] self.page_set().contains(p)
                            implies pre.page_set().contains(p) by {
                            assert(mid.page_set().contains(p));
                        }
                    }
                }
            }
            proof {
                crate::layout::lemma_aligned_gap(
                    chunk_end as int,
                    address as int,
                    BYTES_IN_REGION as int,
                );
                lemma_sweep_scan_step(m0, pre, *self, chunk_start, address);
                assert forall|a: u64|
                    #[trigger] self.marked_set().contains(a) <==> (marks_cleared(
                        m0.marked_set(),
                        chunk_start,
                        address as int + BYTES_IN_REGION,
                    )).contains(a) by {
                    if address < a < address + BYTES_IN_REGION && m0.marked_set().contains(a) {
                        crate::layout::lemma_unique_aligned_in_window(
                            address as int,
                            a as int,
                            BYTES_IN_REGION as int,
                        );
                    }
                }
                assert(self.marked_set() =~= marks_cleared(
                    m0.marked_set(),
                    chunk_start,
                    address as int + BYTES_IN_REGION,
                ));
                assert forall|a: u64|
                    (address < a < address + BYTES_IN_REGION && m0.alloc_set().contains(a)
                        && #[trigger] m0.marked_set().contains(a)) implies false
                by {
                    crate::layout::lemma_unique_aligned_in_window(
                        address as int,
                        a as int,
                        BYTES_IN_REGION as int,
                    );
                }
            }
            address = address + BYTES_IN_REGION;
        }
        let ghost pre_teardown = *self;
        if empty_page_start == 0 {
            proof {
                assert forall|a: u64| chunk_start <= a < chunk_start + BYTES_IN_CHUNK
                    implies !(#[trigger] self.alloc_set().contains(a)) by {
                    if self.alloc_set().contains(a) {
                        assert(m0.alloc_set().contains(a) && m0.marked_set().contains(a));
                    }
                }
            }
            self.clean_up_empty_chunk(chunk_start);
        } else {
            proof {
                let wa = choose|a: u64|
                    chunk_start <= a < address && m0.alloc_set().contains(a)
                        && #[trigger] m0.marked_set().contains(a);
                assert(self.alloc_set().contains(wa));
                assert(!(forall|a: u64|
                    chunk_start <= a < chunk_start + BYTES_IN_CHUNK ==> !(
                    #[trigger] self.alloc_set().contains(a))));
            }
        }
        proof {
            assert(self.offset_set() == pre_teardown.offset_set());
            assert forall|x: u64| !(chunk_start <= x < chunk_start + BYTES_IN_CHUNK) implies (
            #[trigger] self.offset_set().contains(x) == m0.offset_set().contains(x)) by {
                assert(pre_teardown.offset_set().contains(x) == m0.offset_set().contains(x));
            }
        }
    }


    /// Sweep one chunk when the mark bit lives in side metadata: scan the
    /// chunk in strides of 128 regions, bulk-loading an alloc word and a
    /// mark word per stride. A stride whose words agree holds no dead
    /// object and is skipped whole; the rest are scanned linearly. All
    /// mark bits of the chunk are bulk-zeroed at the end.
    fn sweep_chunk_mark_on_side(&mut self, chunk_start: u64)
        requires
            old(self).wf(),
            chunk_start % BYTES_IN_CHUNK == 0,
            chunk_start + BYTES_IN_CHUNK <= HEAP_LIMIT,
        ensures
            final(self).wf(),
            sweep_frame(*old(self), *final(self), chunk_start),
    {
        let ghost m0 = *old(self);
        let chunk_end = chunk_start + BYTES_IN_CHUNK;
        let mut empty_page_start: u64 = 0;
        let mut address = chunk_start;
        proof {
            crate::layout::lemma_mod_divides(
                chunk_start as int,
                BYTES_IN_CHUNK as int,
                BYTES_IN_REGION as int,
            );
            assert((chunk_start as int + BYTES_IN_CHUNK) % (BYTES_IN_REGION as int) == 0)
                by (nonlinear_arith)
                requires
                    chunk_start as int % (BYTES_IN_REGION as int) == 0,
                    BYTES_IN_CHUNK as int % (BYTES_IN_REGION as int) == 0,
            ;
            crate::layout::lemma_mod_divides(
                chunk_start as int,
                BYTES_IN_CHUNK as int,
                BYTES_IN_BULK as int,
            );
            assert((chunk_start as int + BYTES_IN_CHUNK) % (BYTES_IN_BULK as int) == 0)
                by (nonlinear_arith)
                requires
                    chunk_start as int % (BYTES_IN_BULK as int) == 0,
                    BYTES_IN_CHUNK as int % (BYTES_IN_BULK as int) == 0,
            ;
        }
        while address < chunk_end
            invariant
                self.wf(),
                m0.wf(),
                m0 == *old(self),
                chunk_start % BYTES_IN_CHUNK == 0,
                chunk_start <= address <= chunk_end,
                address % BYTES_IN_REGION == 0,
                address % BYTES_IN_BULK == 0,
                chunk_end == chunk_start + BYTES_IN_CHUNK,
                chunk_end % BYTES_IN_REGION == 0,
                chunk_end % BYTES_IN_BULK == 0,
                chunk_end <= HEAP_LIMIT,
                empty_page_start <= HEAP_LIMIT,
                empty_page_start == 0 || chunk_start <= empty_page_start,
                sweep_scan_inv(m0, *self, chunk_start, address),
                (empty_page_start == 0) <==> (forall|a: u64|
                    !(chunk_start <= a < address && m0.alloc_set().contains(a)
                        && #[trigger] m0.marked_set().contains(a))),
                self.marked_set() == m0.marked_set(),
                self.chunkmark_set() == m0.chunkmark_set(),
                self.sft_set() == m0.sft_set(),
                self.mapped_set() == m0.mapped_set(),
                self.chunk_addr_min == m0.chunk_addr_min,
                self.chunk_addr_max == m0.chunk_addr_max,
                self.collection_required == m0.collection_required,
                self.total_work_packets == m0.total_work_packets,
                self.completed_work_packets == m0.completed_work_packets,
                self.work_live_bytes == m0.work_live_bytes,
            decreases chunk_end - address,
        {
            proof {
                crate::layout::lemma_aligned_gap(
                    chunk_end as int,
                    address as int,
                    BYTES_IN_BULK as int,
                );
                assert((address as int + BYTES_IN_BULK) % (BYTES_IN_BULK as int) == 0)
                    by (nonlinear_arith)
                    requires
                        address as int % (BYTES_IN_BULK as int) == 0,
                ;
                assert((address as int + BYTES_IN_BULK) % (BYTES_IN_REGION as int) == 0)
                    by (nonlinear_arith)
                    requires
                        address as int % (BYTES_IN_REGION as int) == 0,
                        BYTES_IN_BULK as int % (BYTES_IN_REGION as int) == 0,
                ;
            }
            let alloc_128 = self.meta.load_alloc_128(address);
            let mark_128 = self.meta.load_mark_128(address);
            if alloc_128 ^ mark_128 != 0 {
                // the stride may hold dead objects: scan it linearly
                let stride_end = address + BYTES_IN_BULK;
                let mut cursor = address;
                while cursor < stride_end
                    invariant
                        self.wf(),
                        m0.wf(),
                        m0 == *old(self),
                        chunk_start % BYTES_IN_CHUNK == 0,
                        chunk_start <= address <= cursor <= stride_end,
                        cursor % BYTES_IN_REGION == 0,
                        stride_end as int == address as int + BYTES_IN_BULK,
                        stride_end % BYTES_IN_REGION == 0,
                        stride_end <= chunk_end,
                        chunk_end == chunk_start + BYTES_IN_CHUNK,
                        chunk_end <= HEAP_LIMIT,
                        empty_page_start <= HEAP_LIMIT,
                        empty_page_start == 0 || chunk_start <= empty_page_start,
                        sweep_scan_inv(m0, *self, chunk_start, cursor),
                        (empty_page_start == 0) <==> (forall|a: u64|
                            !(chunk_start <= a < cursor && m0.alloc_set().contains(a)
                                && #[trigger] m0.marked_set().contains(a))),
                        self.marked_set() == m0.marked_set(),
                        self.chunkmark_set() == m0.chunkmark_set(),
                        self.sft_set() == m0.sft_set(),
                        self.mapped_set() == m0.mapped_set(),
                        self.chunk_addr_min == m0.chunk_addr_min,
                        self.chunk_addr_max == m0.chunk_addr_max,
                        self.collection_required == m0.collection_required,
                        self.total_work_packets == m0.total_work_packets,
                        self.completed_work_packets == m0.completed_work_packets,
                        self.work_live_bytes == m0.work_live_bytes,
                    decreases stride_end - cursor,
                {
                    let ghost pre = *self;
                    let ghost eps_pre = empty_page_start;
                    if self.meta.is_alloced(cursor) {
                        let dead = self.sweep_object(cursor, &mut empty_page_start);
                        proof {
                            if !dead {
                                assert forall|p: u64|
                                    !(chunk_start <= p < chunk_start + BYTES_IN_CHUNK) implies (
                                #[trigger] self.page_set().contains(p) == pre.page_set().contains(
                                    p,
                                )) by {
                                    crate::layout::lemma_align_down_bounds(
                                        cursor as int,
                                        BYTES_IN_PAGE as int,
                                    );
                                    assert(eps_pre == 0 || p < eps_pre || p >= page_of(
                                        cursor as int,
                                    ));
                                }
                            }
                        }
                    }
                    proof {
                        crate::layout::lemma_aligned_gap(
                            stride_end as int,
                            cursor as int,
                            BYTES_IN_REGION as int,
                        );
                        lemma_sweep_scan_step(m0, pre, *self, chunk_start, cursor);
                        assert forall|a: u64|
                            (cursor < a < cursor + BYTES_IN_REGION && m0.alloc_set().contains(a)
                                && #[trigger] m0.marked_set().contains(a)) implies false by {
                            crate::layout::lemma_unique_aligned_in_window(
                                cursor as int,
                                a as int,
                                BYTES_IN_REGION as int,
                            );
                        }
                    }
                    cursor = cursor + BYTES_IN_REGION;
                }
            } else {
                proof {
                    let a128 = alloc_128;
                    let k128 = mark_128;
                    assert(a128 == k128) by (bit_vector)
                        requires
                            a128 ^ k128 == 0,
                    ;
                    // the words agree: every alloced region of the stride
                    // is marked, so nothing here is dead
                    assert forall|a: u64|
                        (address <= a < address + BYTES_IN_BULK && #[trigger] self.alloc_set(
                        ).contains(a)) implies self.marked_set().contains(a) by {
                        lemma_region_index(address, a);
                        let i = choose|i: u128|
                            i < 128 && a == #[trigger] region_index_addr(address, i);
                        assert(bit128(alloc_128, i) == bit128(mark_128, i));
                        assert(self.alloc_set().contains(region_index_addr(address, i)));
                    }
                    assert forall|a: u64|
                        #[trigger] self.alloc_set().contains(a) <==> (m0.alloc_set().contains(a)
                            && !(chunk_start <= a < address + BYTES_IN_BULK
                            && !m0.marked_set().contains(a))) by {
                        if address <= a < address + BYTES_IN_BULK {
                            if m0.alloc_set().contains(a) && !m0.marked_set().contains(a) {
                                assert(self.alloc_set().contains(a));
                                assert(self.marked_set().contains(a));
                            }
                        }
                    }
                    assert forall|a: u64|
                        #[trigger] self.live_map().dom().contains(a) <==> (m0.live_map(
                        ).dom().contains(a) && !(m0.alloc_set().contains(a) && chunk_start <= a
                            < address + BYTES_IN_BULK && !m0.marked_set().contains(a))) by {
                        if address <= a < address + BYTES_IN_BULK && m0.alloc_set().contains(a)
                            && !m0.marked_set().contains(a) {
                            assert(self.alloc_set().contains(a));
                            assert(self.marked_set().contains(a));
                        }
                    }
                }
                if alloc_128 != 0 {
                    // live presence and no dead: step the empty-page walk
                    // past this stride
                    empty_page_start = address + BYTES_IN_BULK;
                    proof {
                        assert(exists|i: u128|
                            i < 128 && self.alloc_set().contains(
                                #[trigger] region_index_addr(address, i),
                            ));
                        let wi = choose|i: u128|
                            i < 128 && self.alloc_set().contains(
                                #[trigger] region_index_addr(address, i),
                            );
                        let wa = region_index_addr(address, wi);
                        assert((wi as int) * (BYTES_IN_REGION as int) < BYTES_IN_BULK)
                            by (nonlinear_arith)
                            requires
                                wi < 128,
                        ;
                        assert(address <= wa < address + BYTES_IN_BULK);
                        assert(self.alloc_set().contains(wa));
                        assert(self.marked_set().contains(wa));
                        assert(m0.alloc_set().contains(wa));
                        assert(m0.marked_set().contains(wa));
                    }
                } else {
                    proof {
                        assert forall|a: u64|
                            (address <= a < address + BYTES_IN_BULK && m0.alloc_set().contains(a)
                                && #[trigger] m0.marked_set().contains(a)) implies false by {
                            assert(self.alloc_set().contains(a));
                            lemma_region_index(address, a);
                            let i = choose|i: u128|
                                i < 128 && a == #[trigger] region_index_addr(address, i);
                            assert(!self.alloc_set().contains(region_index_addr(address, i)));
                        }
                    }
                }
            }
            address = address + BYTES_IN_BULK;
        }
        // clear every mark bit of the chunk in bulk
        let ghost pre_zero = *self;
        self.meta.bzero_mark_bits(chunk_start, BYTES_IN_CHUNK);
        proof {
            assert(self.live_map() =~= pre_zero.live_map());
            assert forall|o: u64| #[trigger] self.marked_set().contains(o)
                implies self.alloc_set().contains(o) by {
                assert(pre_zero.marked_set().contains(o));
            }
            assert forall|o: u64| #[trigger] self.alloc_set().contains(o)
                implies self.live_map().dom().contains(o) by {
                assert(pre_zero.alloc_set().contains(o));
                assert(pre_zero.live_map().dom().contains(o));
            }
            assert forall|x: u64| #[trigger] self.offset_set().contains(x)
                implies x < self.alloc_util.sys_alloc().next_free() by {
                assert(pre_zero.offset_set().contains(x));
            }
            assert forall|a: u64| #[trigger] self.live_map().dom().contains(a)
                implies self.live_entry_ok(a) by {
                assert(pre_zero.live_map().dom().contains(a));
                assert(pre_zero.live_entry_ok(a));
            }
            assert forall|a: u64|
                #[trigger] self.marked_set().contains(a) <==> (m0.marked_set().contains(a) && !(
                chunk_start <= a < chunk_start + BYTES_IN_CHUNK)) by {
                assert(self.marked_set().contains(a) == (pre_zero.marked_set().contains(a)
                    && !is_region_start_in(
                    a,
                    chunk_start as int,
                    chunk_start as int + BYTES_IN_CHUNK,
                )));
                if m0.marked_set().contains(a) {
                    assert(a % BYTES_IN_REGION == 0);
                    assert(is_region_start_in(
                        a,
                        chunk_start as int,
                        chunk_start as int + BYTES_IN_CHUNK,
                    ) == (chunk_start <= a < chunk_start + BYTES_IN_CHUNK));
                }
            }
            assert forall|a: u64|
                #[trigger] self.alloc_set().contains(a) <==> (m0.alloc_set().contains(a) && !(
                chunk_start <= a < chunk_start + BYTES_IN_CHUNK && !m0.marked_set().contains(a)))
            by {
                assert(self.alloc_set().contains(a) == pre_zero.alloc_set().contains(a));
            }
            assert forall|a: u64|
                #[trigger] self.live_map().dom().contains(a) <==> (m0.live_map().dom().contains(
                a,
            ) && !(m0.alloc_set().contains(a) && chunk_start <= a < chunk_start + BYTES_IN_CHUNK
                && !m0.marked_set().contains(a))) by {
                assert(self.live_map().dom().contains(a) == pre_zero.live_map().dom().contains(
                    a,
                ));
                assert(pre_zero.live_map().dom().contains(a)
                    ==> self.live_map()[a] == pre_zero.live_map()[a]);
            }
            assert forall|p: u64| #[trigger] self.page_set().contains(p)
                implies m0.page_set().contains(p) by {
                assert(pre_zero.page_set().contains(p));
            }
            assert forall|x: u64| #[trigger] self.offset_set().contains(x)
                implies m0.offset_set().contains(x) by {
                assert(pre_zero.offset_set().contains(x));
            }
        }
        if empty_page_start == 0 {
            proof {
                assert forall|a: u64| chunk_start <= a < chunk_start + BYTES_IN_CHUNK
                    implies !(#[trigger] self.alloc_set().contains(a)) by {
                    if self.alloc_set().contains(a) {
                        assert(m0.alloc_set().contains(a) && m0.marked_set().contains(a));
                    }
                }
            }
            self.clean_up_empty_chunk(chunk_start);
        } else {
            proof {
                let wa = choose|a: u64|
                    chunk_start <= a < address && m0.alloc_set().contains(a)
                        && #[trigger] m0.marked_set().contains(a);
                assert(self.alloc_set().contains(wa));
                assert(!(forall|a: u64|
                    chunk_start <= a < chunk_start + BYTES_IN_CHUNK ==> !(
                    #[trigger] self.alloc_set().contains(a))));
            }
        }
        proof {
            assert(self.page_set() == pre_zero.page_set());
            assert forall|p: u64| !(chunk_start <= p < chunk_start + BYTES_IN_CHUNK) implies (
            #[trigger] self.page_set().contains(p) == m0.page_set().contains(p)) by {
                assert(pre_zero.page_set().contains(p) == m0.page_set().contains(p));
            }
            assert(self.offset_set() == pre_zero.offset_set());
            assert forall|x: u64| !(chunk_start <= x < chunk_start + BYTES_IN_CHUNK) implies (
            #[trigger] self.offset_set().contains(x) == m0.offset_set().contains(x)) by {
                assert(pre_zero.offset_set().contains(x) == m0.offset_set().contains(x));
            }
        }
    }

    /// Sweep one chunk, dispatching on where the runtime keeps the mark
    /// bit.
    pub fn sweep_chunk(&mut self, chunk_start: u64)
        requires
            old(self).wf(),
            chunk_start % BYTES_IN_CHUNK == 0,
            chunk_start + BYTES_IN_CHUNK <= HEAP_LIMIT,
        ensures
            final(self).wf(),
            sweep_frame(*old(self), *final(self), chunk_start),
    {
        let on_side = match &self.mark_spec {
            MetadataSpecChoice::OnSide(_) => true,
            MetadataSpecChoice::InHeader => false,
        };
        if on_side {
            self.sweep_chunk_mark_on_side(chunk_start);
        } else {
            self.sweep_chunk_mark_in_header(chunk_start);
        }
    }


    /// Pages held by this space: the pages its live bytes fill, plus the
    /// pages its side-metadata bitmaps reserve for them.
    pub fn reserved_pages(&self) -> (r: u64)
        requires
            self.wf(),
        ensures
            r as int == (self.active_bytes as int + BYTES_IN_PAGE - 1) / (BYTES_IN_PAGE as int)
                + meta_pages_sum(
                self.metadata.global@,
                ((self.active_bytes as int + BYTES_IN_PAGE - 1) / (BYTES_IN_PAGE as int)) as u64,
            ) + meta_pages_sum(
                self.metadata.local@,
                ((self.active_bytes as int + BYTES_IN_PAGE - 1) / (BYTES_IN_PAGE as int)) as u64,
            ),
    {
        proof {
            assert(self.active_bytes <= HEAP_LIMIT);
        }
        let data_pages = bytes_to_pages_up(self.active_bytes);
        proof {
            assert(data_pages <= 0x10_0000_0000u64) by (nonlinear_arith)
                requires
                    data_pages as int == (self.active_bytes as int + 4095) / 4096,
                    self.active_bytes <= 0x4000_0000_0000,
            ;
        }
        let meta_global = meta_pages_for(&self.metadata.global, data_pages);
        let meta_local = meta_pages_for(&self.metadata.local, data_pages);
        proof {
            lemma_meta_pages_sum_bound(self.metadata.global@, data_pages);
            lemma_meta_pages_sum_bound(self.metadata.local@, data_pages);
            assert(self.metadata.global@.len() * (data_pages as int) <= 1024 * (
            data_pages as int) && self.metadata.local@.len() * (data_pages as int) <= 1024 * (
            data_pages as int) && 1024 * (data_pages as int) <= 0x4000_0000_0000)
                by (nonlinear_arith)
                requires
                    data_pages <= 0x10_0000_0000u64,
                    self.metadata.global@.len() <= 1024,
                    self.metadata.local@.len() <= 1024,
            ;
        }
        data_pages + meta_global + meta_local
    }

}


/// Every region-aligned address of a stride is the address of one of its
/// 128 region indices.
proof fn lemma_region_index(start: u64, a: u64)
    requires
        start % BYTES_IN_REGION == 0,
        a % BYTES_IN_REGION == 0,
        start <= a,
        a < start + BYTES_IN_BULK,
    ensures
        exists|i: u128| i < 128 && a == #[trigger] region_index_addr(start, i),
{
    let d = a as int - start as int;
    let q = d / (BYTES_IN_REGION as int);
    assert(d % (BYTES_IN_REGION as int) == 0 && d == q * (BYTES_IN_REGION as int) && q < 128
        && q >= 0) by (nonlinear_arith)
        requires
            start as int % (BYTES_IN_REGION as int) == 0,
            a as int % (BYTES_IN_REGION as int) == 0,
            0 <= d < BYTES_IN_BULK,
            d == a as int - start as int,
            q == d / (BYTES_IN_REGION as int),
            BYTES_IN_BULK == 128 * BYTES_IN_REGION,
    ;
    let i = q as u128;
    assert(a == region_index_addr(start, i));
}

/// The space-local side-metadata bitmaps for a given mark-bit location:
/// the page-mark bitmap (one bit per page), the offset-malloc bitmap (one
/// bit per region), and the mark bitmap itself when the runtime keeps it
/// on the side.
pub open spec fn local_metadata_specs(ms: MetadataSpecChoice) -> Seq<SideMetadataSpec> {
    match ms {
        MetadataSpecChoice::OnSide(s) => seq![
            SideMetadataSpec { log_bytes_in_region: 12 },
            SideMetadataSpec { log_bytes_in_region: LOG_BYTES_IN_REGION },
            s,
        ],
        MetadataSpecChoice::InHeader => seq![
            SideMetadataSpec { log_bytes_in_region: 12 },
            SideMetadataSpec { log_bytes_in_region: LOG_BYTES_IN_REGION },
        ],
    }
}

/// What one sweep of the chunk at `cs` does to a space: dead objects of
/// the chunk are freed, survivors stay, no mark survives in the chunk, and
/// the chunk's mark and address-to-space entry are dropped exactly when no
/// object is left in it. Page marks are only ever cleared, and only inside
/// the chunk.
pub open spec fn sweep_frame(m0: MallocSpace, m1: MallocSpace, cs: u64) -> bool {
    &&& forall|a: u64|
        #[trigger] m1.alloc_set().contains(a) <==> (m0.alloc_set().contains(a) && !(cs <= a < cs
            + BYTES_IN_CHUNK && !m0.marked_set().contains(a)))
    &&& forall|a: u64|
        #[trigger] m1.marked_set().contains(a) <==> (m0.marked_set().contains(a) && !(cs <= a < cs
            + BYTES_IN_CHUNK))
    &&& forall|a: u64|
        #[trigger] m1.live_map().dom().contains(a) <==> (m0.live_map().dom().contains(a) && !(
        m0.alloc_set().contains(a) && cs <= a < cs + BYTES_IN_CHUNK && !m0.marked_set().contains(
            a,
        )))
    &&& forall|a: u64|
        #[trigger] m1.live_map().dom().contains(a) ==> m1.live_map()[a] == m0.live_map()[a]
    &&& forall|p: u64| #[trigger] m1.page_set().contains(p) ==> m0.page_set().contains(p)
    &&& forall|p: u64|
        !(cs <= p < cs + BYTES_IN_CHUNK) ==> (#[trigger] m1.page_set().contains(p)
            == m0.page_set().contains(p))
    &&& forall|x: u64| #[trigger] m1.offset_set().contains(x) ==> m0.offset_set().contains(x)
    &&& forall|x: u64|
        !(cs <= x < cs + BYTES_IN_CHUNK) ==> (#[trigger] m1.offset_set().contains(x)
            == m0.offset_set().contains(x))
    &&& ((forall|a: u64|
        cs <= a < cs + BYTES_IN_CHUNK ==> !(#[trigger] m1.alloc_set().contains(a))) ==> (
    m1.chunkmark_set() == m0.chunkmark_set().remove(cs) && m1.sft_set() == m0.sft_set().remove(
        cs,
    )))
    &&& (!(forall|a: u64|
        cs <= a < cs + BYTES_IN_CHUNK ==> !(#[trigger] m1.alloc_set().contains(a))) ==> (
    m1.chunkmark_set() == m0.chunkmark_set() && m1.sft_set() == m0.sft_set()))
    &&& m1.mapped_set() == m0.mapped_set()
    &&& m1.chunk_addr_min == m0.chunk_addr_min
    &&& m1.chunk_addr_max == m0.chunk_addr_max
    &&& m1.collection_required == m0.collection_required
    &&& m1.total_work_packets == m0.total_work_packets
    &&& m1.completed_work_packets == m0.completed_work_packets
    &&& m1.work_live_bytes == m0.work_live_bytes
}

/// Mid-scan relation: the window `[cs, bound)` of the chunk has been
/// processed, so its dead objects are gone; everything else is untouched.
pub open spec fn sweep_scan_inv(m0: MallocSpace, m1: MallocSpace, cs: u64, bound: u64) -> bool {
    &&& forall|a: u64|
        #[trigger] m1.alloc_set().contains(a) <==> (m0.alloc_set().contains(a) && !(cs <= a
            < bound && !m0.marked_set().contains(a)))
    &&& forall|a: u64|
        #[trigger] m1.live_map().dom().contains(a) <==> (m0.live_map().dom().contains(a) && !(
        m0.alloc_set().contains(a) && cs <= a < bound && !m0.marked_set().contains(a)))
    &&& forall|a: u64|
        #[trigger] m1.live_map().dom().contains(a) ==> m1.live_map()[a] == m0.live_map()[a]
    &&& forall|p: u64| #[trigger] m1.page_set().contains(p) ==> m0.page_set().contains(p)
    &&& forall|p: u64|
        !(cs <= p < cs + BYTES_IN_CHUNK) ==> (#[trigger] m1.page_set().contains(p)
            == m0.page_set().contains(p))
    &&& forall|x: u64| #[trigger] m1.offset_set().contains(x) ==> m0.offset_set().contains(x)
    &&& forall|x: u64|
        !(cs <= x < bound) ==> (#[trigger] m1.offset_set().contains(x) == m0.offset_set(
        ).contains(x))
}

/// The mark set after the scan has cleared every mark below `bound` inside
/// the chunk at `cs`.
pub open spec fn marks_cleared(marks: Set<u64>, cs: u64, bound: int) -> Set<u64> {
    Set::new(|a: u64| marks.contains(a) && !(cs <= a < bound))
}

/// One scan step extends the processed window from `bound` to
/// `bound + BYTES_IN_REGION`: the sets can only have changed at `bound`
/// itself, the one region-aligned address of the step.
proof fn lemma_sweep_scan_step(m0: MallocSpace, pre: MallocSpace, cur: MallocSpace, cs: u64, bound: u64)
    requires
        m0.wf(),
        sweep_scan_inv(m0, pre, cs, bound),
        bound % BYTES_IN_REGION == 0,
        cs <= bound,
        bound + BYTES_IN_REGION <= cs + BYTES_IN_CHUNK,
        // what the step did at `bound`
        m0.alloc_set().contains(bound) && !m0.marked_set().contains(bound) ==> {
            &&& cur.alloc_set() == pre.alloc_set().remove(bound)
            &&& cur.live_map() =~= pre.live_map().remove(bound)
            &&& cur.page_set() == pre.page_set()
            &&& (forall|x: u64|
                #[trigger] cur.offset_set().contains(x) == (pre.offset_set().contains(x) && x
                    != bound))
        },
        m0.alloc_set().contains(bound) && m0.marked_set().contains(bound) ==> {
            &&& cur.alloc_set() == pre.alloc_set()
            &&& cur.live_map() =~= pre.live_map()
            &&& (forall|p: u64|
                #[trigger] cur.page_set().contains(p) ==> pre.page_set().contains(p))
            &&& (forall|p: u64|
                !(cs <= p < cs + BYTES_IN_CHUNK) ==> (#[trigger] cur.page_set().contains(p)
                    == pre.page_set().contains(p)))
            &&& cur.offset_set() == pre.offset_set()
        },
        !m0.alloc_set().contains(bound) ==> {
            &&& cur.alloc_set() == pre.alloc_set()
            &&& cur.live_map() =~= pre.live_map()
            &&& cur.page_set() == pre.page_set()
            &&& cur.offset_set() == pre.offset_set()
        },
    ensures
        sweep_scan_inv(m0, cur, cs, (bound + BYTES_IN_REGION) as u64),
{
    let newb = (bound + BYTES_IN_REGION) as u64;
    assert forall|a: u64|
        #[trigger] cur.alloc_set().contains(a) <==> (m0.alloc_set().contains(a) && !(cs <= a
            < newb && !m0.marked_set().contains(a))) by {
        if a != bound && bound <= a < newb {
            if m0.alloc_set().contains(a) {
                crate::layout::lemma_unique_aligned_in_window(
                    bound as int,
                    a as int,
                    BYTES_IN_REGION as int,
                );
            }
            if cur.alloc_set().contains(a) {
                assert(pre.alloc_set().contains(a) || a == bound);
                assert(m0.alloc_set().contains(a));
            }
        }
    }
    assert forall|a: u64|
        #[trigger] cur.live_map().dom().contains(a) <==> (m0.live_map().dom().contains(a) && !(
        m0.alloc_set().contains(a) && cs <= a < newb && !m0.marked_set().contains(a))) by {
        if a != bound && bound <= a < newb {
            if m0.alloc_set().contains(a) {
                crate::layout::lemma_unique_aligned_in_window(
                    bound as int,
                    a as int,
                    BYTES_IN_REGION as int,
                );
            }
        }
    }
}

/// The live blocks recorded in a debug ledger: the entries with a nonzero
/// size.
pub open spec fn live_of(mem: Map<u64, u64>) -> Map<u64, u64> {
    Map::new(|a: u64| mem.contains_key(a) && mem[a] != 0, |a: u64| mem[a])
}

/// The raw block behind address `a`, by the offset-malloc bit.
pub open spec fn block_of_state(m: Metadata, u: MallocUtil, a: u64) -> u64 {
    u.block_of(a, m.offset_set().contains(a))
}

/// One live ledger entry is consistent with the allocator's state.
pub open spec fn live_entry_ok_state(m: Metadata, u: MallocUtil, mem: Map<u64, u64>, a: u64) -> bool {
    &&& HEAP_BASE <= a
    &&& a < u.sys_alloc().next_free()
    &&& u.backs(a, m.offset_set().contains(a))
    &&& live_of(mem)[a] as int == u.usable(a, m.offset_set().contains(a))
    &&& 1 <= live_of(mem)[a]
    &&& a + live_of(mem)[a] <= HEAP_LIMIT
}

/// Well-formedness of a space, over its component values.
pub open spec fn wf_state(
    m: Metadata,
    u: MallocUtil,
    f: SftMap,
    mem: Map<u64, u64>,
    active: u64,
    cmin: u64,
    cmax: u64,
    global: Seq<SideMetadataSpec>,
    local: Seq<SideMetadataSpec>,
    ms: MetadataSpecChoice,
) -> bool {
    &&& m.inv()
    &&& u.inv()
    &&& f.inv()
    &&& live_of(mem).dom().finite()
    // the mark bit implies the alloc bit
    &&& forall|o: u64| #[trigger] m.mark_set().contains(o) ==> m.alloc_set().contains(o)
    // the alloc bit implies a live block
    &&& forall|o: u64| #[trigger] m.alloc_set().contains(o) ==> live_of(mem).dom().contains(o)
    // every live ledger entry is consistent
    &&& forall|a: u64|
        #[trigger] live_of(mem).dom().contains(a) ==> live_entry_ok_state(m, u, mem, a)
    // distinct live addresses use distinct raw blocks
    &&& forall|a1: u64, a2: u64|
        #[trigger] live_of(mem).dom().contains(a1) && #[trigger] live_of(mem).dom().contains(a2)
            && a1 != a2 ==> block_of_state(m, u, a1) != block_of_state(m, u, a2)
    // metadata is mapped over every chunk a live block touches
    &&& forall|a: u64, c: u64|
        #[trigger] live_of(mem).dom().contains(a) && is_chunk_start_in(
            c,
            chunk_of(a as int),
            chunk_of(a as int + live_of(mem)[a]),
        ) ==> #[trigger] m.mapped_set().contains(c)
    // offset-malloc bits sit only on addresses the allocator has returned
    &&& forall|a: u64|
        #[trigger] m.offset_set().contains(a) ==> a < u.sys_alloc().next_free()
    // the chunk range bounds every mapped chunk
    &&& forall|c: u64| #[trigger] m.mapped_set().contains(c) ==> cmin <= c && c <= cmax
    &&& cmin == u64::MAX || cmin % BYTES_IN_CHUNK == 0
    &&& cmax % BYTES_IN_CHUNK == 0
    // exact accounting
    &&& active as int == sum_over(live_of(mem))
    &&& active <= u.sys_alloc().next_free() - HEAP_BASE
    // a side mark bit shares the alloc bitmap's granularity
    &&& match ms {
        MetadataSpecChoice::OnSide(s) => s.log_bytes_in_region == LOG_BYTES_IN_REGION,
        MetadataSpecChoice::InHeader => true,
    }
    &&& global.len() + local.len() <= 1024
    &&& forall|i: int|
        0 <= i < global.len() ==> (#[trigger] global[i].log_bytes_in_region) <= 56
    &&& forall|i: int| 0 <= i < local.len() ==> (#[trigger] local[i].log_bytes_in_region) <= 56
}


/// Pages one set of side-metadata bitmaps reserves to cover `data_pages`
/// pages of data: each bitmap holds one bit per region of
/// `2^log_bytes_in_region` bytes, so an eighth of that many bytes per
/// region — `data_pages >> (log_bytes_in_region + 3)` pages, rounded down.
pub open spec fn meta_pages_sum(specs: Seq<SideMetadataSpec>, data_pages: u64) -> int
    decreases specs.len(),
{
    if specs.len() <= 0 {
        0
    } else {
        meta_pages_sum(specs.drop_last(), data_pages) + (data_pages as int) / ((8u64
            << specs.last().log_bytes_in_region) as int)
    }
}

proof fn lemma_meta_pages_sum_bound(specs: Seq<SideMetadataSpec>, data_pages: u64)
    requires
        forall|i: int| 0 <= i < specs.len() ==> (#[trigger] specs[i].log_bytes_in_region) <= 56,
    ensures
        0 <= meta_pages_sum(specs, data_pages) <= specs.len() * data_pages,
    decreases specs.len(),
{
    if specs.len() > 0 {
        lemma_meta_pages_sum_bound(specs.drop_last(), data_pages);
        let l = specs.last().log_bytes_in_region;
        assert(specs[specs.len() - 1].log_bytes_in_region <= 56);
        assert(8u64 << l >= 1) by (bit_vector)
            requires
                l <= 56,
        ;
        assert((data_pages as int) / ((8u64 << l) as int) <= data_pages as int)
            by (nonlinear_arith)
            requires
                (8u64 << l) as int >= 1,
                data_pages >= 0,
        ;
        assert(specs.len() * data_pages == (specs.len() - 1) * data_pages + data_pages)
            by (nonlinear_arith);
        assert(0 <= (data_pages as int) / ((8u64 << l) as int)) by (nonlinear_arith)
            requires
                (8u64 << l) as int >= 1,
                data_pages >= 0,
        ;
    }
}

/// Executable sum of the per-bitmap reserved pages.
fn meta_pages_for(specs: &Vec<SideMetadataSpec>, data_pages: u64) -> (r: u64)
    requires
        specs.len() <= 1024,
        data_pages <= 0x10_0000_0000,
        forall|i: int| 0 <= i < specs.len() ==> (#[trigger] specs[i].log_bytes_in_region) <= 56,
    ensures
        r as int == meta_pages_sum(specs@, data_pages),
{
    let mut acc: u64 = 0;
    let mut i: usize = 0;
    while i < specs.len()
        invariant
            i <= specs.len(),
            specs.len() <= 1024,
            data_pages <= 0x10_0000_0000,
            forall|j: int|
                0 <= j < specs.len() ==> (#[trigger] specs[j].log_bytes_in_region) <= 56,
            acc as int == meta_pages_sum(specs@.take(i as int), data_pages),
            acc <= i * data_pages,
        decreases specs.len() - i,
    {
        let log = specs[i].log_bytes_in_region;
        proof {
            assert(8u64 << log >= 1) by (bit_vector)
                requires
                    log <= 56,
            ;
        }
        let denom = 8u64 << log;
        let term = data_pages / denom;
        proof {
            assert(term <= data_pages);
            assert((i as int + 1) * data_pages == (i as int) * data_pages + data_pages)
                by (nonlinear_arith);
            assert((i as int + 1) * data_pages <= 0x4000_0000_0000) by (nonlinear_arith)
                requires
                    i as int + 1 <= 1024,
                    data_pages <= 0x10_0000_0000u64,
            ;
            assert(specs@.take(i as int + 1).drop_last() =~= specs@.take(i as int));
            assert(specs@.take(i as int + 1).last() == specs@[i as int]);
        }
        acc = acc + term;
        i = i + 1;
    }
    proof {
        assert(specs@.take(specs.len() as int) =~= specs@);
    }
    acc
}

} // verus!
