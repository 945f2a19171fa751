use vstd::prelude::*;

use crate::slab::{run_slab, Request, SlabAllocator, SlabModel};

verus! {

/// Abstract state of a [`GlobalSlabAllocator`]: whether it has been
/// given its region yet, and the state of the slab allocator inside.
pub struct GlobalModel {
    pub initialized: bool,
    pub slabs: SlabModel,
}

impl GlobalModel {
    /// State after `init` gives the region of `size` bytes at `start`:
    /// a first call installs a fresh slab allocator over it, a later one
    /// changes nothing.
    pub open spec fn init_step(self, start: int, size: int) -> GlobalModel {
        if self.initialized {
            self
        } else {
            GlobalModel { initialized: true, slabs: SlabModel::empty(start, start + size) }
        }
    }

    /// New state and result of an allocation: refused before `init`, the
    /// slab allocator's step after.
    pub open spec fn alloc_step(self, size: int, align: int) -> (GlobalModel, Option<usize>) {
        if !self.initialized {
            (self, None)
        } else {
            let (s, r) = self.slabs.alloc_step(size, align);
            (GlobalModel { initialized: true, slabs: s }, r)
        }
    }

    /// New state after a block is given back: ignored before `init`, the
    /// slab allocator's step after.
    pub open spec fn dealloc_step(self, ptr: usize, size: int, align: int) -> GlobalModel {
        if !self.initialized {
            self
        } else {
            GlobalModel { initialized: true, slabs: self.slabs.dealloc_step(ptr, size, align) }
        }
    }
}

/// State and results after the requests `reqs`, in order, starting from
/// `g`; a block given back yields `None`.
pub open spec fn run_global(g: GlobalModel, reqs: Seq<Request>) -> (GlobalModel, Seq<Option<usize>>)
    decreases reqs.len(),
{
    if reqs.len() == 0 {
        (g, Seq::empty())
    } else {
        let (t, rs) = run_global(g, reqs.drop_last());
        match reqs.last() {
            Request::Allocate { size, align } => {
                let (u, r) = t.alloc_step(size, align);
                (u, rs.push(r))
            },
            Request::Dealloc { ptr, size, align } => (t.dealloc_step(ptr, size, align), rs.push(None)),
        }
    }
}

/// Once initialised, the global allocator answers every sequence of
/// requests as its slab allocator does.
pub proof fn lemma_initialized_global_runs_as_slab(g: GlobalModel, reqs: Seq<Request>)
    requires
        g.initialized,
    ensures
        run_global(g, reqs) == (GlobalModel {
            initialized: true,
            slabs: run_slab(g.slabs, reqs).0,
        }, run_slab(g.slabs, reqs).1),
    decreases reqs.len(),
{
    if reqs.len() > 0 {
        lemma_initialized_global_runs_as_slab(g, reqs.drop_last());
    }
}

/// After a first `init` with the region of `size` bytes at `start`, the
/// global allocator answers every sequence of requests as a slab allocator
/// made by `SlabAllocator::new(start, size)` does.
pub proof fn lemma_first_init_runs_as_new(g: GlobalModel, start: int, size: int, reqs: Seq<Request>)
    requires
        !g.initialized,
    ensures
        run_global(g.init_step(start, size), reqs) == (GlobalModel {
            initialized: true,
            slabs: run_slab(SlabModel::empty(start, start + size), reqs).0,
        }, run_slab(SlabModel::empty(start, start + size), reqs).1),
{
    lemma_initialized_global_runs_as_slab(g.init_step(start, size), reqs);
}

/// A slab allocator created before its region is known: it refuses every
/// request until `init` gives it its region, which happens at most once.
///
/// The free lists are vectors on the process heap, so this type computes
/// the addresses a global allocator would hand out but cannot itself be
/// installed as the program's `#[global_allocator]`.
pub struct GlobalSlabAllocator {
    inner: SlabAllocator,
    initialized: bool,
}

impl View for GlobalSlabAllocator {
    type V = GlobalModel;

    closed spec fn view(&self) -> GlobalModel {
        GlobalModel { initialized: self.initialized, slabs: self.inner@ }
    }
}

impl GlobalSlabAllocator {
    /// The slab allocator inside is well formed.
    pub open spec fn wf(&self) -> bool {
        self@.slabs.wf()
    }

    /// An allocator with no region yet (address 0, size 0).
    pub fn new() -> (r: Self)
        ensures
            r.wf(),
            !r@.initialized,
            r@.slabs == SlabModel::empty(0, 0),
    {
        GlobalSlabAllocator { inner: SlabAllocator::new(0, 0), initialized: false }
    }

    /// Gives the allocator the `size` bytes that start at `start`, unless it
    /// already has a region, in which case nothing changes.
    pub fn init(&mut self, start: usize, size: usize)
        requires
            old(self).wf(),
            !old(self)@.initialized ==> start + size <= usize::MAX,
        ensures
            final(self).wf(),
            final(self)@ == old(self)@.init_step(start as int, size as int),
    {
        if !self.initialized {
            self.inner = SlabAllocator::new(start, size);
            self.inner.init();
            self.initialized = true;
        }
    }

    /// Allocates a block for `size` bytes aligned to `align`, as
    /// [`SlabAllocator::allocate`] does; `None` before `init`.
    pub fn allocate(&mut self, size: usize, align: usize) -> (r: Option<usize>)
        requires
            old(self).wf(),
            align > 0,
        ensures
            final(self).wf(),
            (final(self)@, r) == old(self)@.alloc_step(size as int, align as int),
    {
        if !self.initialized {
            return None;
        }
        self.inner.allocate(size, align)
    }

    /// Gives back the block at `ptr`, as [`SlabAllocator::dealloc`] does;
    /// ignored before `init`.
    pub fn dealloc(&mut self, ptr: usize, size: usize, align: usize)
        requires
            old(self).wf(),
        ensures
            final(self).wf(),
            final(self)@ == old(self)@.dealloc_step(ptr, size as int, align as int),
    {
        if self.initialized {
            self.inner.dealloc(ptr, size, align);
        }
    }

    /// Whether `init` has given the allocator its region.
    pub fn is_initialized(&self) -> (b: bool)
        ensures
            b == self@.initialized,
    {
        self.initialized
    }
}

} // verus!
