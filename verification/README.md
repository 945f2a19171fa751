# slab_allocator

A slab allocator with four block sizes (16, 32, 64 and 128 bytes), verified
with Verus.

- `src/size_class.rs`: the size classes, how a request picks its class, and
  the rounding of block addresses to the machine word's alignment.
- `src/slab.rs`: `SlabAllocator` and its abstract state `SlabModel`; every
  operation is specified as a step on that state.
- `src/global.rs`: `GlobalSlabAllocator`, which refuses requests until it is
  given its region, once, and afterwards answers every sequence of requests
  as a fresh `SlabAllocator` over that region would.
- `src/laws.rs`: properties that relate several operations (reuse of a
  freed block, layout of refilled blocks and the order they are handed
  out in, what every operation keeps).
- `src/ownership.rs`: the ownership invariant over the allocator's state
  and the blocks in use: every block, free or in use, lies in the carved
  part of the region and no two overlap; allocation and deallocation keep
  it, so blocks in use never overlap.
- `app/main.rs`: wraps the allocators in `GlobalAlloc` and reserves a region.

The allocator computes addresses only; it keeps its free lists in vectors
on the process heap and never touches the memory it hands out, so it
cannot itself be installed as a `#[global_allocator]`.
