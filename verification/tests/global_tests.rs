use slab_allocator::GlobalSlabAllocator;

const BASE: usize = 0x20_0000;

#[test]
fn global_refuses_requests_before_init() {
    let mut g = GlobalSlabAllocator::new();
    assert_eq!(g.allocate(8, 8), None);
    g.dealloc(BASE, 8, 8);
    assert_eq!(g.allocate(8, 8), None);
    assert!(!g.is_initialized());
}

#[test]
fn global_serves_requests_after_init() {
    let mut g = GlobalSlabAllocator::new();
    g.init(BASE, 1024 * 1024);
    assert!(g.is_initialized());
    let p = g.allocate(4, 4);
    assert_eq!(p, Some(BASE + 144));
    g.dealloc(BASE + 144, 4, 4);
    assert_eq!(g.allocate(4, 4), Some(BASE + 144));
}

#[test]
fn global_init_happens_once() {
    let mut g = GlobalSlabAllocator::new();
    g.init(BASE, 4096);
    assert_eq!(g.allocate(16, 8), Some(BASE + 144));
    // a second init changes nothing: the same region and lists stay
    g.init(BASE + 0x10_0000, 4096);
    assert_eq!(g.allocate(16, 8), Some(BASE + 128));
}

#[test]
fn global_region_of_size_zero_serves_nothing() {
    let mut g = GlobalSlabAllocator::new();
    g.init(BASE, 0);
    assert_eq!(g.allocate(1, 1), None);
}

#[test]
fn global_after_init_answers_as_a_new_slab_allocator() {
    let mut g = GlobalSlabAllocator::new();
    g.init(BASE, 2048);
    let mut s = slab_allocator::SlabAllocator::new(BASE, 2048);
    let requests = [(8usize, 8usize), (40, 8), (8, 8), (128, 64), (200, 8), (16, 16)];
    let mut handed = Vec::new();
    for round in 0..4 {
        for &(size, align) in requests.iter() {
            let a = g.allocate(size, align);
            let b = s.allocate(size, align);
            assert_eq!(a, b);
            if let Some(p) = a {
                handed.push((p, size, align));
            }
        }
        if round % 2 == 1 {
            while let Some((p, size, align)) = handed.pop() {
                g.dealloc(p, size, align);
                s.dealloc(p, size, align);
            }
        }
    }
}
