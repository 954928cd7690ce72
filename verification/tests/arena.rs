use chunk_arena::Arena;
use std::cell::Cell;
use std::rc::Rc;

#[test]
fn it_works() {
    let mut arena = Arena::<i32, 8>::new();
    for i in 0..100 {
        let idx = arena.allocate(i);
        assert_eq!(*arena.get(idx), i);
    }
}

#[test]
fn empty_arena() {
    let arena = Arena::<u32, 4>::new();
    assert_eq!(arena.len(), 0);
    assert_eq!(arena.num_chunks(), 0);
    assert_eq!(arena.current_chunk_len(), 0);
}

#[test]
fn new_in_matches_new() {
    let mut arena = Arena::<u32, 4>::new_in();
    assert_eq!(arena.len(), 0);
    assert_eq!(arena.num_chunks(), 0);
    let idx = arena.allocate(7);
    assert_eq!(idx, 0);
    assert_eq!(*arena.get(0), 7);
}

#[test]
fn value_fidelity() {
    let mut arena = Arena::<i32, 8>::new();
    for i in 0..100 {
        let idx = arena.allocate(i);
        assert_eq!(idx as i32, i);
    }
    for i in 0..100usize {
        assert_eq!(*arena.get(i), i as i32);
    }
}

#[test]
fn stability_under_growth() {
    let mut arena = Arena::<u64, 4>::new();
    for v in [10, 20, 30, 40] {
        arena.allocate(v);
    }
    assert_eq!(*arena.get(2), 30);
    // These allocations force new chunks to be created.
    for v in 100..150 {
        arena.allocate(v);
    }
    assert_eq!(*arena.get(2), 30);
    assert_eq!(*arena.get(0), 10);
    assert_eq!(*arena.get(3), 40);
}

#[test]
fn chunk_boundaries() {
    let mut arena = Arena::<u8, 4>::new();
    for v in 0..4 {
        arena.allocate(v);
    }
    // Exactly N values: one chunk, completely full.
    assert_eq!(arena.num_chunks(), 1);
    assert_eq!(arena.current_chunk_len(), 4);

    // N + 1 values: a second chunk holding one value.
    arena.allocate(4);
    assert_eq!(arena.num_chunks(), 2);
    assert_eq!(arena.current_chunk_len(), 1);

    // 2N values: exactly two full chunks.
    for v in 5..8 {
        arena.allocate(v);
    }
    assert_eq!(arena.num_chunks(), 2);
    assert_eq!(arena.current_chunk_len(), 4);
}

#[test]
fn capacity_one_makes_a_chunk_per_value() {
    let mut arena = Arena::<u16, 1>::new();
    for v in 0..5 {
        arena.allocate(v);
    }
    assert_eq!(arena.num_chunks(), 5);
    assert_eq!(arena.current_chunk_len(), 1);
    for i in 0..5usize {
        assert_eq!(*arena.get(i), i as u16);
    }
}

struct Counted {
    hits: Rc<Cell<u64>>,
}

impl Drop for Counted {
    fn drop(&mut self) {
        self.hits.set(self.hits.get() + 1);
    }
}

#[test]
fn teardown_drops_each_value_once() {
    let hits = Rc::new(Cell::new(0));
    {
        let mut arena = Arena::<Counted, 3>::new();
        for _ in 0..10 {
            arena.allocate(Counted { hits: Rc::clone(&hits) });
        }
        // Nothing is dropped while the arena lives.
        assert_eq!(hits.get(), 0);
        assert_eq!(arena.num_chunks(), 4);
    }
    // Dropping the arena drops every stored value exactly once,
    // across all four chunks.
    assert_eq!(hits.get(), 10);
}

#[test]
fn alloc_pinned_matches_allocate() {
    let mut arena = Arena::<i64, 2>::new();
    let a = arena.allocate(-5);
    let b = arena.alloc_pinned(17);
    let c = arena.alloc_pinned(99);
    assert_eq!((a, b, c), (0, 1, 2));
    assert_eq!(*arena.get(1), 17);
    assert_eq!(*arena.get(2), 99);
    assert_eq!(arena.len(), 3);
}

#[test]
fn hundred_values_capacity_eight() {
    let mut arena = Arena::<i32, 8>::new();
    for i in 0..100 {
        arena.allocate(i);
    }
    assert_eq!(arena.len(), 100);
    // 12 full chunks of 8 values, plus one partial chunk of 4.
    assert_eq!(arena.num_chunks(), 13);
    assert_eq!(arena.current_chunk_len(), 4);
    assert_eq!(*arena.get(57), 57);
    for i in 0..100usize {
        assert_eq!(*arena.get(i), i as i32);
    }
    // The 58th value is still intact after every other slot was read.
    assert_eq!(*arena.get(57), 57);
}
