use malloc_space::layout::{BYTES_IN_CHUNK, BYTES_IN_PAGE, HEAP_BASE};
use malloc_space::meta::SideMetadataSpec;
use malloc_space::queue::VectorObjectQueue;
use malloc_space::space::{MallocSpace, MetadataSpecChoice, VmThread};

fn side_space() -> MallocSpace {
    MallocSpace::new(
        Vec::new(),
        MetadataSpecChoice::OnSide(SideMetadataSpec { log_bytes_in_region: 4 }),
    )
}

fn header_space() -> MallocSpace {
    MallocSpace::new(Vec::new(), MetadataSpecChoice::InHeader)
}

fn mutator() -> VmThread {
    VmThread { id: 1, mutator: true }
}

#[test]
fn fresh_space_state() {
    let s = side_space();
    assert_eq!(s.active_bytes, 0);
    assert_eq!(s.chunk_addr_min, u64::MAX);
    assert_eq!(s.chunk_addr_max, 0);
    assert!(!s.is_movable());
    assert!(s.is_sane());
    assert_eq!(s.get_name(), "MallocSpace");
    assert!(!MallocSpace::may_move_objects());
}

#[test]
fn allocate_free_reallocate_many() {
    let mut s = side_space();
    let before = s.active_bytes;
    for _ in 0..10000 {
        let a = s.allocate(mutator(), 100, 16, 0);
        assert_ne!(a, 0);
        // usable size covers the request and is tracked exactly
        assert!(s.active_bytes >= 100);
        assert_eq!(s.active_bytes, 112);
        s.free(a);
        assert_eq!(s.active_bytes, before);
    }
    assert_eq!(s.active_bytes, 0);
}

#[test]
fn offset_allocation() {
    let mut s = side_space();
    let a = s.allocate(mutator(), 64, 4096, 8);
    assert_ne!(a, 0);
    assert_eq!((a + 8) % 4096, 0);
    assert!(s.meta.is_offset_malloc(a));
    assert!(s.active_bytes >= 64);
    s.free(a);
    assert_eq!(s.active_bytes, 0);
    assert!(!s.meta.is_offset_malloc(a));
}

#[test]
fn allocation_is_in_space_until_freed() {
    let mut s = side_space();
    let a = s.allocate(mutator(), 32, 16, 0);
    assert_ne!(a, 0);
    assert!(!s.in_space(a));
    s.initialize_object_metadata(a);
    assert!(s.in_space(a));
    assert!(s.is_mmtk_object(a));
    s.free(a);
    assert!(!s.in_space(a));
    assert!(!s.is_mmtk_object(a));
}

#[test]
fn trace_marks_and_enqueues_once() {
    let mut s = side_space();
    let mut q = VectorObjectQueue::new();
    let a = s.allocate(mutator(), 64, 16, 0);
    s.initialize_object_metadata(a);
    assert!(!s.is_live(a));
    let r = s.trace_object(&mut q, a);
    assert_eq!(r, a);
    assert!(s.is_live(a));
    assert_eq!(q.len(), 1);
    assert_eq!(q.get(0), a);
    // a second trace of the same object enqueues nothing
    let r2 = s.trace_object(&mut q, a);
    assert_eq!(r2, a);
    assert_eq!(q.len(), 1);
}

#[test]
fn trace_null_passes_through() {
    let mut s = side_space();
    let mut q = VectorObjectQueue::new();
    assert_eq!(s.trace_object(&mut q, 0), 0);
    assert_eq!(q.len(), 0);
}

#[test]
fn concurrent_trace_race_model() {
    // eight workers each tracing the same live object many times cause
    // exactly one enqueue in total
    let mut s = side_space();
    let a = s.allocate(mutator(), 64, 16, 0);
    s.initialize_object_metadata(a);
    let mut q = VectorObjectQueue::new();
    for _worker in 0..8 {
        for _ in 0..10000 {
            s.trace_object(&mut q, a);
        }
    }
    assert_eq!(q.len(), 1);
    assert!(s.is_live(a));
}

#[test]
fn marked_implies_alloced() {
    let mut s = side_space();
    let mut q = VectorObjectQueue::new();
    let a = s.allocate(mutator(), 64, 16, 0);
    s.initialize_object_metadata(a);
    s.trace_object(&mut q, a);
    assert!(s.is_live(a));
    assert!(s.in_space(a));
}

#[test]
fn single_chunk_mark_sweep() {
    let mut s = side_space();
    let mut q = VectorObjectQueue::new();
    let mut objs: Vec<u64> = Vec::new();
    for _ in 0..1000 {
        let a = s.allocate(mutator(), 64, 16, 0);
        assert_ne!(a, 0);
        s.initialize_object_metadata(a);
        objs.push(a);
    }
    let chunk = objs[0] / BYTES_IN_CHUNK * BYTES_IN_CHUNK;
    assert_eq!(objs[999] / BYTES_IN_CHUNK * BYTES_IN_CHUNK, chunk);
    for i in (0..1000).step_by(2) {
        s.trace_object(&mut q, objs[i]);
    }
    s.sweep_chunk(chunk);
    for (i, a) in objs.iter().enumerate() {
        if i % 2 == 0 {
            assert!(s.in_space(*a), "even-indexed object swept");
        } else {
            assert!(!s.in_space(*a), "odd-indexed object kept");
        }
        assert!(!s.is_live(*a), "mark bit survived the sweep");
    }
    assert_eq!(s.active_bytes, 500 * 64);
}

#[test]
fn single_chunk_mark_sweep_header_marks() {
    let mut s = header_space();
    let mut q = VectorObjectQueue::new();
    let mut objs: Vec<u64> = Vec::new();
    for _ in 0..100 {
        let a = s.allocate(mutator(), 64, 16, 0);
        s.initialize_object_metadata(a);
        objs.push(a);
    }
    let chunk = objs[0] / BYTES_IN_CHUNK * BYTES_IN_CHUNK;
    for i in (0..100).step_by(2) {
        s.trace_object(&mut q, objs[i]);
    }
    s.sweep_chunk(chunk);
    for (i, a) in objs.iter().enumerate() {
        assert_eq!(s.in_space(*a), i % 2 == 0);
        assert!(!s.is_live(*a));
    }
    assert_eq!(s.active_bytes, 50 * 64);
}

#[test]
fn empty_chunk_teardown() {
    let mut s = side_space();
    let mut objs: Vec<u64> = Vec::new();
    for _ in 0..50 {
        let a = s.allocate(mutator(), 64, 16, 0);
        s.initialize_object_metadata(a);
        objs.push(a);
    }
    let chunk = objs[0] / BYTES_IN_CHUNK * BYTES_IN_CHUNK;
    assert!(s.sft.is_owned(chunk));
    for a in &objs {
        s.free(*a);
    }
    assert_eq!(s.active_bytes, 0);
    s.sweep_chunk(chunk);
    assert!(!s.sft.is_owned(chunk), "empty chunk still owned");
    assert_eq!(s.active_bytes, 0);
}

#[test]
fn sweep_without_marks_frees_everything() {
    let mut s = side_space();
    let mut objs: Vec<u64> = Vec::new();
    for _ in 0..10 {
        let a = s.allocate(mutator(), 256, 16, 0);
        s.initialize_object_metadata(a);
        objs.push(a);
    }
    let chunk = objs[0] / BYTES_IN_CHUNK * BYTES_IN_CHUNK;
    s.sweep_chunk(chunk);
    for a in &objs {
        assert!(!s.in_space(*a));
    }
    assert_eq!(s.active_bytes, 0);
    assert!(!s.sft.is_owned(chunk));
}

#[test]
fn chunk_range_tracking() {
    let mut s = side_space();
    let a = s.allocate(mutator(), 64, 16, 0);
    let min1 = s.chunk_addr_min;
    let max1 = s.chunk_addr_max;
    assert_eq!(min1, a / BYTES_IN_CHUNK * BYTES_IN_CHUNK);
    assert!(max1 >= min1);
    // push the heap across several chunks; the range only widens
    for _ in 0..3 {
        let b = s.allocate(mutator(), 3 * 1024 * 1024, 16, 0);
        assert_ne!(b, 0);
        assert!(s.chunk_addr_min <= min1);
        assert!(s.chunk_addr_max >= max1);
        assert!(s.chunk_addr_max >= b / BYTES_IN_CHUNK * BYTES_IN_CHUNK);
    }
    assert_eq!(s.chunk_addr_min, min1);
    assert!(s.chunk_addr_max > max1);
}

#[test]
fn gc_trigger_parks_and_returns_null() {
    let mut s = side_space();
    s.set_collection_required(true);
    let a = s.allocate(mutator(), 64, 16, 0);
    assert_eq!(a, 0);
    assert_eq!(s.active_bytes, 0);
    s.set_collection_required(false);
    let b = s.allocate(mutator(), 64, 16, 0);
    assert_ne!(b, 0);
}

#[test]
fn work_packet_accounting() {
    let mut s = side_space();
    let mut q = VectorObjectQueue::new();
    let a = s.allocate(mutator(), 64, 16, 0);
    s.initialize_object_metadata(a);
    s.trace_object(&mut q, a);
    let chunk = a / BYTES_IN_CHUNK * BYTES_IN_CHUNK;
    s.set_total_work_packets(1);
    s.sweep_chunk(chunk);
    // the one surviving object is this chunk's whole live set
    let ok = s.debug_sweep_chunk_done(s.active_bytes);
    assert!(ok);
    assert_eq!(s.completed_work_packets, 1);
    assert_eq!(s.work_live_bytes, 64);
}

#[test]
fn reserved_pages_counts_data_and_metadata() {
    let mut s = side_space();
    assert_eq!(s.reserved_pages(), 0);
    let a = s.allocate(mutator(), 100, 16, 0);
    assert_ne!(a, 0);
    // 112 live bytes round up to one data page; the bitmaps reserve no
    // whole page for it
    assert_eq!(s.reserved_pages(), 1);
    let big = s.allocate(mutator(), 4 * 1024 * 1024, 16, 0);
    assert_ne!(big, 0);
    // 4 MiB + 112 bytes of data; the two region bitmaps (one bit per 16
    // bytes) reserve 1025 / 128 = 8 pages each
    assert_eq!(s.reserved_pages(), 1025 + 8 + 8);
}

#[test]
fn page_marks_set_at_birth() {
    let mut s = side_space();
    let a = s.allocate(mutator(), 64, 16, 0);
    s.initialize_object_metadata(a);
    let page = a / BYTES_IN_PAGE * BYTES_IN_PAGE;
    assert!(s.meta.is_page_marked(page));
}

#[test]
fn first_allocation_starts_at_heap_base() {
    let mut s = side_space();
    let a = s.allocate(mutator(), 16, 16, 0);
    assert_eq!(a, HEAP_BASE);
}

#[test]
fn sweep_clears_page_marks_of_empty_spans() {
    // the header-mark sweep scans every object, so the empty span between
    // two survivors has its page marks cleared deterministically (the
    // side-mark sweep may skip an all-live stride without clearing)
    let mut s = header_space();
    let mut q = VectorObjectQueue::new();
    // one live object per page boundary, with a dead page-spanning object
    // in between: its page mark must be gone after the sweep
    let live1 = s.allocate(mutator(), 64, 16, 0);
    let dead1 = s.allocate(mutator(), 4032, 16, 0);
    let dead2 = s.allocate(mutator(), 4096, 16, 0);
    let live2 = s.allocate(mutator(), 64, 16, 0);
    assert_eq!(dead2, HEAP_BASE + 4096);
    assert_eq!(live2, HEAP_BASE + 8192);
    s.initialize_object_metadata(live1);
    s.initialize_object_metadata(dead1);
    s.initialize_object_metadata(dead2);
    s.initialize_object_metadata(live2);
    assert!(s.meta.is_page_marked(HEAP_BASE));
    assert!(s.meta.is_page_marked(HEAP_BASE + 4096));
    assert!(s.meta.is_page_marked(HEAP_BASE + 8192));
    s.trace_object(&mut q, live1);
    s.trace_object(&mut q, live2);
    s.sweep_chunk(HEAP_BASE);
    // the page that held only dead objects lost its mark; the pages of the
    // survivors kept theirs
    assert!(s.meta.is_page_marked(HEAP_BASE));
    assert!(!s.meta.is_page_marked(HEAP_BASE + 4096));
    assert!(s.meta.is_page_marked(HEAP_BASE + 8192));
    assert_eq!(s.active_bytes, 128);
}
