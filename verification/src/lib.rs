//! An append-only, chunked arena.
//!
//! The arena stores values of a single type in a chain of fixed-capacity
//! storage blocks ("chunks"). Each allocation appends one value and hands
//! back a handle (the value's position in allocation order); the value is
//! never moved, overwritten or dropped until the whole arena is dropped.
//! When the newest chunk is full, a fresh chunk is linked in front of it,
//! so growth never disturbs values already stored.

use vstd::prelude::*;

verus! {

/// One fixed-capacity storage block. `data` holds the values placed in this
/// block, oldest first; `prev` links to the block that was current before
/// this one, forming a chain from newest to oldest.
struct Chunk<T, const N: usize> {
    prev: Option<Box<Chunk<T, N>>>,
    data: Vec<T>,
}

impl<T, const N: usize> Chunk<T, N> {
    /// All values stored in the chain ending at `opt`, in allocation order
    /// (oldest chunk first, and within a chunk oldest slot first).
    spec fn seq_of(opt: Option<Box<Chunk<T, N>>>) -> Seq<T>
        decreases opt,
    {
        match opt {
            None => Seq::empty(),
            Some(chunk) => chunk.chain_seq(),
        }
    }

    spec fn chain_seq(self) -> Seq<T>
        decreases self,
    {
        Chunk::seq_of(self.prev) + self.data@
    }

    /// Number of blocks in the chain ending at `opt`.
    spec fn count_of(opt: Option<Box<Chunk<T, N>>>) -> nat
        decreases opt,
    {
        match opt {
            None => 0,
            Some(chunk) => chunk.chain_count(),
        }
    }

    spec fn chain_count(self) -> nat
        decreases self,
    {
        1 + Chunk::count_of(self.prev)
    }

    spec fn wf_of(opt: Option<Box<Chunk<T, N>>>) -> bool
        decreases opt,
    {
        match opt {
            None => true,
            Some(chunk) => chunk.chain_wf(),
        }
    }

    /// Every block in the chain holds between 1 and `N` values, and every
    /// block behind the newest one is completely full.
    spec fn chain_wf(self) -> bool
        decreases self,
    {
        &&& 1 <= self.data@.len() <= N
        &&& Chunk::wf_of(self.prev)
        &&& match self.prev {
            None => true,
            Some(prev) => prev.data@.len() == N,
        }
    }

    /// Borrow the value at position `i` of the chain ending at this block,
    /// where `end` is the total number of values in that chain. Walks from
    /// the newest block towards the oldest until the block covering `i` is
    /// reached.
    fn chain_get(&self, i: usize, end: usize) -> (r: &T)
        requires
            self.chain_wf(),
            end == self.chain_seq().len(),
            i < end,
        ensures
            *r == self.chain_seq()[i as int],
        decreases self,
    {
        let start = end - self.data.len();
        if i < start {
            match &self.prev {
                Some(prev) => prev.chain_get(i, start),
                None => unreached(),
            }
        } else {
            &self.data[i - start]
        }
    }
}

/// An append-only arena with per-chunk capacity `N`.
///
/// `allocate` accepts one value and returns its index in allocation order;
/// `get` reads a stored value back. Values are only dropped when the arena
/// itself is dropped, at which point ownership of the chunk chain drops
/// every chunk, and every value in it, exactly once.
pub struct Arena<T, const N: usize> {
    root: Option<Box<Chunk<T, N>>>,
    count: usize,
    chunks: usize,
}

impl<T, const N: usize> Arena<T, N> {
    /// All values stored in the arena, in allocation order.
    pub closed spec fn as_seq(self) -> Seq<T> {
        Chunk::seq_of(self.root)
    }

    /// Internal consistency: the chunk chain is well formed and the cached
    /// counters agree with it.
    pub closed spec fn wf(self) -> bool {
        &&& 0 < N
        &&& Chunk::wf_of(self.root)
        &&& self.count == self.as_seq().len()
        &&& self.chunks == Chunk::count_of(self.root)
    }

    /// Number of storage blocks currently in the chain.
    pub closed spec fn chunk_count(self) -> nat {
        Chunk::count_of(self.root)
    }

    /// Number of values in the newest block (0 when the arena is empty).
    pub closed spec fn current_len(self) -> nat {
        match self.root {
            None => 0,
            Some(chunk) => chunk.data@.len(),
        }
    }

    /// Create an empty arena. A zero per-chunk capacity is rejected
    /// statically: no verified caller can construct such an arena.
    pub fn new() -> (arena: Self)
        requires
            0 < N,
        ensures
            arena.wf(),
            arena@ == Seq::<T>::empty(),
            arena.chunk_count() == 0,
    {
        Arena { root: None, count: 0, chunks: 0 }
    }

    /// Create an empty arena, naming the backing memory source explicitly.
    /// The only backing source available is the global heap, so this
    /// coincides with `new`.
    pub fn new_in() -> (arena: Self)
        requires
            0 < N,
        ensures
            arena.wf(),
            arena@ == Seq::<T>::empty(),
            arena.chunk_count() == 0,
    {
        Arena::new()
    }
}

/// A well-formed chain has at least as many values as blocks: every block
/// holds at least one value.
proof fn lemma_chain_count_le_len<T, const N: usize>(opt: Option<Box<Chunk<T, N>>>)
    requires
        Chunk::wf_of(opt),
    ensures
        Chunk::count_of(opt) <= Chunk::seq_of(opt).len(),
    decreases opt,
{
    match opt {
        None => {}
        Some(chunk) => {
            lemma_chain_count_le_len(chunk.prev);
        }
    }
}

/// A chain whose newest block is full consists of full blocks only, so it
/// holds exactly `count * N` values.
proof fn lemma_full_chain_len<T, const N: usize>(opt: Option<Box<Chunk<T, N>>>)
    requires
        Chunk::wf_of(opt),
        match opt {
            None => true,
            Some(chunk) => chunk.data@.len() == N,
        },
    ensures
        Chunk::seq_of(opt).len() == Chunk::count_of(opt) * N,
    decreases opt,
{
    match opt {
        None => {
            assert(Chunk::<T, N>::count_of(opt) * N == 0) by (nonlinear_arith)
                requires Chunk::<T, N>::count_of(opt) == 0;
        }
        Some(chunk) => {
            lemma_full_chain_len(chunk.prev);
            let k = Chunk::count_of(chunk.prev) as int;
            assert((k + 1) * (N as int) == k * (N as int) + N) by (nonlinear_arith);
        }
    }
}

impl<T, const N: usize> Arena<T, N> {
    /// Store `value` in the arena and return its index in allocation order.
    /// Every value stored earlier keeps its index and its value; the new
    /// value goes into the newest chunk if it has room, and into a fresh
    /// chunk (linked in front of the old one) otherwise.
    pub fn allocate(&mut self, value: T) -> (i: usize)
        requires
            old(self).wf(),
            old(self)@.len() < usize::MAX,
        ensures
            final(self).wf(),
            final(self)@ == old(self)@.push(value),
            i == old(self)@.len(),
            final(self)@[i as int] == value,
            forall|j: int| 0 <= j < old(self)@.len() ==> final(self)@[j] == old(self)@[j],
            (old(self).current_len() == 0 || old(self).current_len() == N) ==> (
                final(self).chunk_count() == old(self).chunk_count() + 1
                && final(self).current_len() == 1
            ),
            (0 < old(self).current_len() < N) ==> (
                final(self).chunk_count() == old(self).chunk_count()
                && final(self).current_len() == old(self).current_len() + 1
            ),
    {
        proof {
            lemma_chain_count_le_len(old(self).root);
        }
        let i = self.count;
        let root = self.root.take();
        match root {
            Some(mut chunk) => {
                if chunk.data.len() < N {
                    chunk.data.push(value);
                    self.root = Some(chunk);
                } else {
                    let mut data: Vec<T> = Vec::new();
                    data.push(value);
                    self.root = Some(Box::new(Chunk { prev: Some(chunk), data }));
                    self.chunks = self.chunks + 1;
                }
            }
            None => {
                let mut data: Vec<T> = Vec::new();
                data.push(value);
                self.root = Some(Box::new(Chunk { prev: None, data }));
                self.chunks = self.chunks + 1;
            }
        }
        self.count = self.count + 1;
        proof {
            assert(self@ =~= old(self)@.push(value));
        }
        i
    }

    /// Borrow the value stored at index `i` (as returned by `allocate`).
    /// The arena is append-only, so the value read back is exactly the one
    /// placed there, however many allocations happened since.
    pub fn get(&self, i: usize) -> (r: &T)
        requires
            self.wf(),
            i < self@.len(),
        ensures
            *r == self@[i as int],
    {
        match &self.root {
            Some(chunk) => chunk.chain_get(i, self.count),
            None => unreached(),
        }
    }

    /// Number of values stored so far.
    pub fn len(&self) -> (n: usize)
        requires
            self.wf(),
        ensures
            n == self@.len(),
    {
        self.count
    }

    /// Number of storage blocks allocated so far.
    pub fn num_chunks(&self) -> (n: usize)
        requires
            self.wf(),
        ensures
            n == self.chunk_count(),
    {
        self.chunks
    }

    /// Number of values in the newest storage block (0 while the arena is
    /// empty, otherwise between 1 and `N`).
    pub fn current_chunk_len(&self) -> (n: usize)
        requires
            self.wf(),
        ensures
            n == self.current_len(),
    {
        match &self.root {
            None => 0,
            Some(chunk) => chunk.data.len(),
        }
    }

    /// Chunk boundary law: the chain always consists of some number of full
    /// blocks behind one newest block holding the remainder. So storing a
    /// multiple of `N` values leaves every block (including the newest) full,
    /// and the first value past a multiple of `N` opens a fresh block of one:
    /// the block count is exactly the number of stored values divided by `N`,
    /// rounded up.
    pub proof fn lemma_chunk_shape(self)
        requires
            self.wf(),
        ensures
            (self@.len() == 0) <==> (self.chunk_count() == 0),
            self@.len() > 0 ==> self.chunk_count() == (self@.len() - 1) / (N as int) + 1,
            self@.len() > 0 ==> self.current_len()
                == self@.len() - (self.chunk_count() - 1) * (N as int),
            self@.len() > 0 ==> 1 <= self.current_len() <= N,
    {
        match self.root {
            None => {}
            Some(chunk) => {
                lemma_full_chain_len(chunk.prev);
                let k = Chunk::count_of(chunk.prev) as int;
                let cur = chunk.data@.len() as int;
                let n = N as int;
                assert(self@.len() == k * n + cur);
                vstd::arithmetic::div_mod::lemma_fundamental_div_mod_converse(
                    self@.len() - 1,
                    n,
                    k,
                    cur - 1,
                );
            }
        }
    }

    /// Stability under growth: if arena state `b` was reached from state
    /// `a` by later allocations — each `allocate` call extends the stored
    /// contents by one value at the end, so `b`'s contents extend `a`'s —
    /// then every value stored in `a` is still present in `b`, unchanged
    /// and at the same index, no matter how many chunks were added in
    /// between.
    pub proof fn lemma_stability_under_growth(a: Self, b: Self, j: int)
        requires
            a@.len() <= b@.len(),
            b@.subrange(0, a@.len() as int) == a@,
            0 <= j < a@.len(),
        ensures
            b@[j] == a@[j],
    {
        assert(b@.subrange(0, a@.len() as int)[j] == b@[j]);
    }

    /// Store `value` with an explicit promise that it will never move,
    /// for callers building self-referential structures inside the arena.
    /// That stability is already part of `allocate`'s contract — an index
    /// stays bound to the same, unmoved value for the arena's whole life —
    /// so this performs no extra work and the two operations coincide.
    pub fn alloc_pinned(&mut self, value: T) -> (i: usize)
        requires
            old(self).wf(),
            old(self)@.len() < usize::MAX,
        ensures
            final(self).wf(),
            final(self)@ == old(self)@.push(value),
            i == old(self)@.len(),
            final(self)@[i as int] == value,
            forall|j: int| 0 <= j < old(self)@.len() ==> final(self)@[j] == old(self)@[j],
    {
        self.allocate(value)
    }
}

impl<T, const N: usize> Drop for Arena<T, N> {
    /// Teardown walks the chain iteratively from the newest chunk to the
    /// oldest. Each pass detaches one chunk from the chain and releases it,
    /// dropping the values it holds; detaching first keeps the release of a
    /// chunk from recursing into the rest of the chain, so the walk visits
    /// every chunk exactly once and uses constant stack space however long
    /// the chain has grown.
    fn drop(&mut self)
        opens_invariants none
        no_unwind
    {
        let mut curr: Option<Box<Chunk<T, N>>> = None;
        core::mem::swap(&mut curr, &mut self.root);
        loop
            decreases Chunk::count_of(curr),
        {
            match curr {
                None => {
                    break;
                }
                Some(mut chunk) => {
                    let mut prev: Option<Box<Chunk<T, N>>> = None;
                    core::mem::swap(&mut prev, &mut chunk.prev);
                    curr = prev;
                    // `chunk` goes out of scope here: this chunk's storage
                    // and its values are released, and nothing else still
                    // owns them.
                }
            }
        }
    }
}

impl<T, const N: usize> View for Arena<T, N> {
    type V = Seq<T>;

    open spec fn view(&self) -> Seq<T> {
        self.as_seq()
    }
}

} // verus!
