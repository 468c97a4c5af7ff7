//! Tracing queues. During a collection each worker owns a queue of object
//! references it has newly marked; the space only ever appends to it.

use vstd::prelude::*;

verus! {

/// A sink for newly marked objects.
pub trait ObjectQueue {
    /// The objects enqueued so far, oldest first.
    spec fn contents(&self) -> Seq<u64>;

    fn enqueue(&mut self, object: u64)
        ensures
            final(self).contents() == old(self).contents().push(object),
    ;
}

/// The plain vector-backed tracing queue.
pub struct VectorObjectQueue {
    buffer: Vec<u64>,
}

impl VectorObjectQueue {
    pub fn new() -> (r: VectorObjectQueue)
        ensures
            r.contents() == Seq::<u64>::empty(),
    {
        VectorObjectQueue { buffer: Vec::new() }
    }

    /// How many objects have been enqueued.
    pub fn len(&self) -> (r: usize)
        ensures
            r == self.contents().len(),
    {
        self.buffer.len()
    }

    /// The `i`-th enqueued object.
    pub fn get(&self, i: usize) -> (r: u64)
        requires
            i < self.contents().len(),
        ensures
            r == self.contents()[i as int],
    {
        self.buffer[i]
    }
}

impl ObjectQueue for VectorObjectQueue {
    closed spec fn contents(&self) -> Seq<u64> {
        self.buffer@
    }

    fn enqueue(&mut self, object: u64) {
        self.buffer.push(object);
    }
}

} // verus!
