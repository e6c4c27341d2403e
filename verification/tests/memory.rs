use support_crates::memory::Memory;

#[derive(Copy, Clone, Debug, PartialEq, Eq)]
struct Point {
    x: usize,
    y: usize,
}

type Page = [u8; 4096];

#[test]
fn lib_can_create_memory() {
    const ITEMS: usize = 20;
    let points = vec![Point { x: 0, y: 0 }; ITEMS];
    let mut mem = Memory::from_contigious_blocks(points, 0x1000);
    mem.init_freelist();
}

#[test]
fn lib_can_alloc_memory() {
    const ITEMS: usize = 20;
    let points = vec![Point { x: 0, y: 0 }; ITEMS];
    let mut mem = Memory::new(points);

    for i in 0..ITEMS {
        assert!(mem.alloc_one().is_some(), "failed to alloc {i}");
    }
    assert!(mem.alloc_one().is_none());
}

#[test]
fn lib_can_alloc_page() {
    const ITEMS: usize = 200;
    let mut pages = Vec::with_capacity(ITEMS);
    for _ in 0..ITEMS {
        let page: Page = [0; 4096];
        pages.push(page);
    }
    assert!(pages.len() == pages.capacity());
    let mut mem = Memory::new(pages);
    for i in 0..ITEMS {
        assert!(mem.alloc_one().is_some(), "could not alloc {i}");
    }
    assert!(mem.alloc_one().is_none());
}

#[test]
fn lib_can_alloc_pages() {
    const ITEMS: usize = 200;
    let mut pages = Vec::with_capacity(ITEMS);
    for _ in 0..ITEMS {
        let page: Page = [0; 4096];
        pages.push(page);
    }
    assert!(pages.len() == pages.capacity());
    let mut mem = Memory::new(pages);
    assert!(mem.alloc_many_raw(20).is_some());
}

#[test]
fn lib_allocs_dont_alias() {
    const ITEMS: usize = 20;
    let points = vec![Point { x: 0, y: 0 }; ITEMS];
    let mut mem = Memory::new(points);

    let mut alloc_points = [None; ITEMS];
    for i in 0..ITEMS {
        let point_raw = mem.alloc_one_raw().unwrap();
        mem.set(point_raw, Point { x: i, y: i });
        alloc_points[i] = Some(point_raw);
    }
    for i in 0..ITEMS {
        assert!(alloc_points[i].is_some());
        assert_eq!(mem.get(alloc_points[i].unwrap()).x, i);
        assert_eq!(mem.get(alloc_points[i].unwrap()).y, i);
    }
}

#[test]
fn lib_can_free_one() {
    const ITEMS: usize = 20;
    let points = vec![Point { x: 0, y: 0 }; ITEMS];
    let mut mem = Memory::new(points);

    for _ in 0..ITEMS * 2 {
        let ptr = mem.alloc_one().unwrap();
        mem.free_one(ptr);
    }
}

#[test]
fn lib_can_use_allocs() {
    const ITEMS: usize = 20;
    let points = vec![Point { x: 0, y: 0 }; ITEMS];
    let mut mem = Memory::new(points);
    let block = mem.alloc_one().unwrap();
    mem.set(block, Point { x: 1, y: 1 });
    assert_eq!(*mem.get(block), Point { x: 1, y: 1 });
}

#[test]
fn lib_can_alloc_memory_by_ones() {
    const ITEMS: usize = 20;
    let points = vec![Point { x: 0, y: 0 }; ITEMS];
    let mut mem = Memory::new(points);

    for i in 0..ITEMS {
        assert!(mem.alloc_many(1).is_some(), "failed to alloc {i}");
    }
    assert!(mem.alloc_one().is_none());
}

#[test]
fn lib_can_alloc_many() {
    const BLOCKS: usize = 5;
    const SIZE: usize = 2;
    const ITEMS: usize = BLOCKS * SIZE;
    let points = vec![Point { x: 0, y: 0 }; ITEMS];
    let mut mem = Memory::new(points);
    for _ in 0..BLOCKS {
        let _ = mem.alloc_many(2).unwrap();
    }
    assert!(mem.alloc_one().is_none());
}

#[test]
fn lib_alloc_many_dont_alias() {
    const BLOCKS: usize = 5;
    const SIZE: usize = 2;
    const ITEMS: usize = BLOCKS * SIZE;
    let points = vec![Point { x: 0, y: 0 }; ITEMS];
    let mut mem = Memory::new(points);
    let size = std::mem::size_of::<Point>();

    let mut alloced: [Option<usize>; BLOCKS] = [None, None, None, None, None];
    for i in 0..BLOCKS {
        alloced[i] = mem.alloc_many(SIZE);
        assert!(alloced[i].is_some());
        let first = alloced[i].unwrap();
        mem.set(first, Point { x: i, y: i });
        mem.set(first + size, Point { x: i, y: i });
    }
    assert!(mem.alloc_one().is_none());

    for i in 0..BLOCKS {
        let first = alloced[i].unwrap();
        assert!(mem.get(first).x == i);
        assert!(mem.get(first).y == i);
        assert!(mem.get(first + size).x == i);
        assert!(mem.get(first + size).y == i);
    }
}

#[test]
fn lib_can_free_many() {
    const BLOCKS: usize = 5;
    const SIZE: usize = 2;
    const ITEMS: usize = BLOCKS * SIZE;
    let points = vec![Point { x: 0, y: 0 }; ITEMS];
    let mut mem = Memory::new(points);

    let mut alloced: [Option<usize>; BLOCKS] = [None, None, None, None, None];
    for i in 0..BLOCKS {
        alloced[i] = mem.alloc_many_raw(SIZE);
        assert!(alloced[i].is_some());
    }
    assert!(mem.alloc_one().is_none());

    for i in 0..BLOCKS {
        mem.free_many(alloced[i].unwrap(), SIZE);
    }

    for i in 0..ITEMS {
        assert!(mem.alloc_one().is_some(), "failed to alloc {i}");
    }
    assert!(mem.alloc_one().is_none());
}

#[test]
fn alloc_many_keeps_the_blocks_it_skips() {
    let points = vec![Point { x: 0, y: 0 }; 4];
    let mut mem = Memory::new(points);
    let size = std::mem::size_of::<Point>();
    let a = mem.alloc_one().unwrap();
    let b = mem.alloc_one().unwrap();
    mem.free_one(a);
    mem.free_one(b);
    // the free list is now block 1, block 0, block 2, block 3: the first run of two is 2 and 3
    let run = mem.alloc_many(2).unwrap();
    assert_eq!(run, a + 2 * size);
    // blocks 1 and 0, which the search passed over, are still free
    assert_eq!(mem.alloc_one(), Some(b));
    assert_eq!(mem.alloc_one(), Some(a));
    assert_eq!(mem.alloc_one(), None);
}
