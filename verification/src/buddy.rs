//! The buddy arena: bookkeeping tree, allocation engine and free engine.
//!
//! Pointers are byte offsets into the arena. `malloc` returns the offset
//! just past the block's embedded header; `free` takes that offset back,
//! recovers the tree node from the header, and coalesces the freed block
//! with its buddy as long as both halves of a parent are free.

use vstd::prelude::*;
use vstd::arithmetic::power2::{pow2, lemma_pow2_pos, lemma_pow2_unfold, lemma2_to64};
use crate::math::{lg, lemma_pow2_le, pow2_usize};
use crate::tree::{
    MIN_SIZE, HEADER_SIZE, node_count, size_of_order, order_of, offset_of, level_of, parent_of,
    sibling_of, in_subtree, lemma_size_of_order_pos, lemma_level_of_children,
    lemma_level_of_parent, lemma_level_range, lemma_level_le_max, lemma_children_in_tree,
    lemma_offset_bounds, lemma_in_subtree_trans, lemma_regions_disjoint,
};

verus! {

/// Bookkeeping state of one node of the implicit tree.
///
/// Exactly one of these holds of a node that takes part in the
/// bookkeeping: it is free (`free`, usable as-is), it is divided in two
/// (`split`, its children describe its bytes), or it is handed out to a
/// caller (neither). A node with `initialized` false is dormant: its
/// bytes belong to some block higher up the tree.
#[derive(Debug, Clone, Copy, PartialEq, Eq, Structural)]
pub struct Data {
    /// The node is a whole free block, usable as-is.
    pub free: bool,
    /// The node has been divided; its two children describe its bytes.
    pub split: bool,
    /// The node currently takes part in the bookkeeping.
    pub initialized: bool,
}

/// Why an allocation or a free was refused.
#[derive(Debug, Clone, Copy, PartialEq, Eq, Structural)]
pub enum AllocError {
    /// The request can never fit the arena, regardless of fragmentation.
    ArenaTooSmall,
    /// No single free block large enough exists right now.
    OutOfMemory,
    /// The pointer handed to `free` does not name an allocated block.
    InvalidPointer,
}

/// Number of free nodes recorded in `s` at indices `lo <= i < hi`.
pub open spec fn count_free_range(s: Seq<Data>, lo: int, hi: int) -> int
    decreases hi - lo,
{
    if lo >= hi {
        0
    } else {
        count_free_range(s, lo, hi - 1) + if s[hi - 1].free {
            1int
        } else {
            0int
        }
    }
}

/// Number of free nodes on tree level `l` (the nodes of one order).
pub open spec fn count_free_at_level(s: Seq<Data>, l: nat) -> int {
    count_free_range(s, pow2(l) - 1, 2 * pow2(l) - 1)
}

/// Largest arena a caller may request: one gibibyte. Keeps every byte
/// offset, node index and intermediate product within a 32-bit machine
/// word, whatever the platform's word size.
pub const MAX_ARENA_SIZE: usize = 0x4000_0000;

/// A fixed-capacity buddy allocator over one contiguous byte arena.
pub struct BuddyAllocator {
    /// Total arena size in bytes; `MIN_SIZE` times a power of two.
    pub size: usize,
    /// Smallest allocatable block, in bytes.
    pub min_size: usize,
    /// Order of the whole arena taken as one block.
    pub max_order: usize,
    /// The backing bytes; block headers live inside it.
    pub memory: Vec<u8>,
    /// One bookkeeping node per possible block, heap-ordered.
    pub data: Vec<Data>,
    /// How many nodes of each order are currently free.
    pub num_free_at_order: Vec<usize>,
}

impl BuddyAllocator {
    /// Number of tree nodes.
    pub open spec fn n_nodes(&self) -> int {
        node_count(self.max_order as nat)
    }

    /// Order of the block node `i` stands for.
    pub open spec fn node_order(&self, i: int) -> nat {
        order_of(self.max_order as nat, i)
    }

    /// Byte size of the block node `i` stands for.
    pub open spec fn node_size(&self, i: int) -> int {
        size_of_order(self.node_order(i))
    }

    /// Byte offset of the block node `i` stands for.
    pub open spec fn node_offset(&self, i: int) -> int {
        offset_of(self.max_order as nat, i)
    }

    /// Node `i` is currently handed out to a caller.
    pub open spec fn is_allocated(&self, i: int) -> bool {
        &&& self.data@[i].initialized
        &&& !self.data@[i].split
        &&& !self.data@[i].free
    }

    /// Structural sizes of the arena and its bookkeeping.
    pub open spec fn wf_shape(&self) -> bool {
        &&& self.min_size == MIN_SIZE
        &&& self.max_order <= 24
        &&& self.size == size_of_order(self.max_order as nat)
        &&& self.memory@.len() == self.size
        &&& self.data@.len() == self.n_nodes()
        &&& self.num_free_at_order@.len() == self.max_order + 1
    }

    /// The node flags form a tree: a node takes part in the bookkeeping
    /// exactly when its parent is split, a split node is neither free nor
    /// childless, and a free node is a leaf of the live tree.
    pub open spec fn wf_flags(&self) -> bool {
        &&& self.data@[0].initialized
        &&& forall|i: int|
            1 <= i < self.n_nodes() ==> ((#[trigger] self.data@[i]).initialized
                <==> self.data@[parent_of(i)].split)
        &&& forall|i: int|
            0 <= i < self.n_nodes() && (#[trigger] self.data@[i]).split ==> {
                &&& self.data@[i].initialized
                &&& !self.data@[i].free
                &&& 2 * i + 2 < self.n_nodes()
            }
        &&& forall|i: int|
            0 <= i < self.n_nodes() && (#[trigger] self.data@[i]).free ==> {
                &&& self.data@[i].initialized
                &&& !self.data@[i].split
            }
    }

    /// Each per-order counter equals the number of free nodes of that order.
    pub open spec fn wf_counters(&self) -> bool {
        forall|o: int|
            0 <= o <= self.max_order ==> #[trigger] self.num_free_at_order@[o]
                == count_free_at_level(self.data@, (self.max_order - o) as nat)
    }

    /// No two sibling blocks are simultaneously free: coalescing is
    /// always maximal.
    pub open spec fn wf_buddies(&self) -> bool {
        forall|k: int|
            0 <= k && 2 * k + 2 < self.n_nodes() ==> !((#[trigger] self.data@[2 * k + 1]).free
                && self.data@[2 * k + 2].free)
    }

    /// The header of block `i` as written in the arena agrees with the
    /// bookkeeping: marked allocated, carrying the node's order.
    pub open spec fn header_matches(&self, i: int) -> bool {
        &&& self.memory@[self.node_offset(i)] == 0u8
        &&& self.memory@[self.node_offset(i) + 1] == self.node_order(i) as u8
    }

    /// Every allocated block's embedded header agrees with the tree.
    pub open spec fn wf_headers(&self) -> bool {
        forall|i: int|
            0 <= i < self.n_nodes() && #[trigger] self.is_allocated(i) ==> self.header_matches(i)
    }

    /// Well-formed allocator state, established by `new` and preserved by
    /// every operation.
    pub open spec fn wf(&self) -> bool {
        &&& self.wf_shape()
        &&& self.wf_flags()
        &&& self.wf_counters()
        &&& self.wf_buddies()
        &&& self.wf_headers()
    }

    /// The byte count a request must fit in, alignment included.
    pub open spec fn required_of(size: usize, alignment: Option<usize>) -> int {
        match alignment {
            Some(a) => if a > size {
                a as int
            } else {
                size as int
            },
            None => size as int,
        }
    }

    /// Some free block of at least `required + HEADER_SIZE` bytes exists.
    pub open spec fn has_free_fit(&self, required: int) -> bool {
        exists|i: int|
            0 <= i < self.n_nodes() && (#[trigger] self.data@[i]).free && self.node_size(i)
                >= required + HEADER_SIZE
    }

    /// The block start encoded by a user pointer: just before the header.
    pub open spec fn pointer_block_start(addr: int) -> int {
        addr - HEADER_SIZE
    }

    /// The order its embedded header records for that block.
    pub open spec fn pointer_order(&self, addr: int) -> nat {
        self.memory@[Self::pointer_block_start(addr) + 1] as nat
    }

    /// The tree node a user pointer leads back to.
    pub open spec fn pointer_index(&self, addr: int) -> int {
        pow2((self.max_order - self.pointer_order(addr)) as nat) - 1 + Self::pointer_block_start(
            addr,
        ) / size_of_order(self.pointer_order(addr))
    }

    /// A pointer `free` accepts: in range, aligned, its header marked
    /// allocated with a plausible order, and leading back to a tree node
    /// that is currently handed out.
    pub open spec fn valid_pointer(&self, addr: int) -> bool {
        &&& addr >= HEADER_SIZE
        &&& Self::pointer_block_start(addr) < self.size
        &&& Self::pointer_block_start(addr) % (MIN_SIZE as int) == 0
        &&& self.memory@[Self::pointer_block_start(addr)] == 0u8
        &&& self.pointer_order(addr) <= self.max_order
        &&& Self::pointer_block_start(addr) % size_of_order(self.pointer_order(addr)) == 0
        &&& self.is_allocated(self.pointer_index(addr))
    }

    /// The state a freshly created arena is in: the root free, everything
    /// below dormant, one free block of the top order on the books.
    pub open spec fn is_fresh(&self) -> bool {
        &&& self.data@[0] == (Data { free: true, split: false, initialized: true })
        &&& forall|i: int|
            1 <= i < self.n_nodes() ==> #[trigger] self.data@[i] == (Data {
                free: false,
                split: false,
                initialized: false,
            })
        &&& self.num_free_at_order@[self.max_order as int] == 1
        &&& forall|o: int| 0 <= o < self.max_order ==> #[trigger] self.num_free_at_order@[o] == 0
    }
}

/// Updating one node changes a range's free count only if the node lies
/// in the range, and then by the difference of the two flags.
proof fn lemma_count_update(s: Seq<Data>, k: int, v: Data, lo: int, hi: int)
    requires
        0 <= lo <= hi <= s.len(),
        0 <= k < s.len(),
    ensures
        count_free_range(s.update(k, v), lo, hi) == count_free_range(s, lo, hi) + if lo <= k < hi {
            (if v.free {
                1int
            } else {
                0int
            }) - (if s[k].free {
                1int
            } else {
                0int
            })
        } else {
            0int
        },
    decreases hi - lo,
{
    if lo < hi {
        lemma_count_update(s, k, v, lo, hi - 1);
    }
}

/// A free node in the range puts the count at one or more.
proof fn lemma_count_ge_one(s: Seq<Data>, lo: int, hi: int, k: int)
    requires
        0 <= lo <= k < hi <= s.len(),
        s[k].free,
    ensures
        count_free_range(s, lo, hi) >= 1,
    decreases hi - lo,
{
    lemma_count_nonneg(s, lo, hi - 1);
    if k < hi - 1 {
        lemma_count_ge_one(s, lo, hi - 1, k);
    }
}

/// Two distinct free nodes in the range put the count at two or more.
proof fn lemma_count_ge_two(s: Seq<Data>, lo: int, hi: int, k1: int, k2: int)
    requires
        0 <= lo <= k1 < hi <= s.len(),
        lo <= k2 < hi,
        k1 != k2,
        s[k1].free,
        s[k2].free,
    ensures
        count_free_range(s, lo, hi) >= 2,
    decreases hi - lo,
{
    if k1 < hi - 1 && k2 < hi - 1 {
        lemma_count_ge_two(s, lo, hi - 1, k1, k2);
    } else if k1 < hi - 1 {
        lemma_count_ge_one(s, lo, hi - 1, k1);
    } else {
        lemma_count_ge_one(s, lo, hi - 1, k2);
    }
}

/// The count of a range is between zero and the range's width.
proof fn lemma_count_nonneg(s: Seq<Data>, lo: int, hi: int)
    requires
        0 <= lo <= hi <= s.len(),
    ensures
        0 <= count_free_range(s, lo, hi) <= hi - lo,
    decreases hi - lo,
{
    if lo < hi {
        lemma_count_nonneg(s, lo, hi - 1);
    }
}

/// A range without free nodes counts zero.
proof fn lemma_count_none(s: Seq<Data>, lo: int, hi: int)
    requires
        0 <= lo <= hi <= s.len(),
        forall|k: int| lo <= k < hi ==> !(#[trigger] s[k]).free,
    ensures
        count_free_range(s, lo, hi) == 0,
    decreases hi - lo,
{
    if lo < hi {
        lemma_count_none(s, lo, hi - 1);
    }
}

/// Both states have the same shape and the same contents.
pub open spec fn same_state(a: &BuddyAllocator, b: &BuddyAllocator) -> bool {
    &&& a.size == b.size
    &&& a.min_size == b.min_size
    &&& a.max_order == b.max_order
    &&& a.memory@ == b.memory@
    &&& a.data@ == b.data@
    &&& a.num_free_at_order@ == b.num_free_at_order@
}

impl BuddyAllocator {
    /// Creates an arena of `next_power_of_two(max(requested_size, MIN_SIZE))`
    /// bytes: one free block of the top order, everything below dormant,
    /// the root's header written at the arena's start.
    pub fn new(requested_size: usize) -> (r: Self)
        requires
            requested_size <= MAX_ARENA_SIZE,
        ensures
            r.wf(),
            r.is_fresh(),
            r.min_size == MIN_SIZE,
            requested_size <= r.size,
            r.max_order == 0 || size_of_order((r.max_order - 1) as nat) < requested_size,
            r.memory@[0] == 1u8,
            r.memory@[1] == r.max_order as u8,
            forall|b: int| 2 <= b < r.size ==> r.memory@[b] == 0u8,
    {
        proof {
            lemma2_to64();
        }
        let mut size: usize = MIN_SIZE;
        let mut max_order: usize = 0;
        while size < requested_size
            invariant
                size == size_of_order(max_order as nat),
                size >= MIN_SIZE,
                max_order <= 24,
                size <= MAX_ARENA_SIZE,
                requested_size <= MAX_ARENA_SIZE,
                max_order == 0 || size_of_order((max_order - 1) as nat) < requested_size,
            decreases 24 - max_order,
        {
            proof {
                lemma2_to64();
                assert(pow2(max_order as nat) < pow2(24)) by {
                    if pow2(max_order as nat) >= pow2(24) {
                        assert(size >= MAX_ARENA_SIZE);
                    }
                }
                crate::math::lemma_pow2_lt_inverse(max_order as nat, 24);
                lemma_pow2_unfold(max_order as nat + 1);
                lemma_pow2_le(max_order as nat + 1, 24);
            }
            size = size * 2;
            max_order = max_order + 1;
        }
        let n_nodes = 2 * pow2_usize(max_order) - 1;
        proof {
            lemma_pow2_pos(max_order as nat);
        }
        let mut data: Vec<Data> = Vec::new();
        while data.len() < n_nodes
            invariant
                data@.len() <= n_nodes,
                forall|k: int|
                    0 <= k < data@.len() ==> #[trigger] data@[k] == (Data {
                        free: false,
                        split: false,
                        initialized: false,
                    }),
            decreases n_nodes - data.len(),
        {
            data.push(Data { free: false, split: false, initialized: false });
        }
        data.set(0, Data { free: true, split: false, initialized: true });
        let mut memory: Vec<u8> = Vec::new();
        while memory.len() < size
            invariant
                memory@.len() <= size,
                forall|b: int| 0 <= b < memory@.len() ==> #[trigger] memory@[b] == 0u8,
            decreases size - memory.len(),
        {
            memory.push(0u8);
        }
        memory.set(0, 1u8);
        memory.set(1, max_order as u8);
        let mut num_free_at_order: Vec<usize> = Vec::new();
        while num_free_at_order.len() < max_order + 1
            invariant
                max_order <= 24,
                num_free_at_order@.len() <= max_order + 1,
                forall|o: int|
                    0 <= o < num_free_at_order@.len() ==> #[trigger] num_free_at_order@[o] == 0,
            decreases max_order + 1 - num_free_at_order.len(),
        {
            num_free_at_order.push(0);
        }
        num_free_at_order.set(max_order, 1);
        let r = BuddyAllocator {
            size,
            min_size: MIN_SIZE,
            max_order,
            memory,
            data,
            num_free_at_order,
        };
        proof {
            r.lemma_fresh_wf();
        }
        r
    }

    /// A state whose tree is fresh and whose shape is sound is well formed.
    proof fn lemma_fresh_wf(&self)
        requires
            self.wf_shape(),
            self.is_fresh(),
        ensures
            self.wf(),
    {
        lemma2_to64();
        let m = self.max_order as nat;
        let s = self.data@;
        assert forall|i: int| 1 <= i < self.n_nodes() implies ((#[trigger] s[i]).initialized
            <==> s[parent_of(i)].split) by {
            assert(0 <= parent_of(i) < i);
        }
        assert forall|o: int|
            0 <= o <= self.max_order implies #[trigger] self.num_free_at_order@[o]
            == count_free_at_level(s, (self.max_order - o) as nat) by {
            let l = (self.max_order - o) as nat;
            lemma_pow2_pos(l);
            lemma_pow2_le(l, m);
            if o == self.max_order {
                assert(count_free_range(s, 0, 0) == 0);
                assert(count_free_range(s, 0, 1) == 1);
            } else {
                assert(pow2(l) >= 2) by {
                    lemma_pow2_le(1, l);
                }
                lemma_count_none(s, pow2(l) - 1, 2 * pow2(l) - 1);
            }
        }
        assert(self.wf_headers()) by {
            assert forall|i: int|
                0 <= i < self.n_nodes() && #[trigger] self.is_allocated(i) implies
                self.header_matches(i) by {
                assert(!self.is_allocated(0));
            }
        }
    }

    /// Order of the block a tree index stands for: the maximum order at
    /// the root, strictly smaller further down.
    pub fn index_to_order(&self, idx: usize) -> (r: usize)
        requires
            self.wf_shape(),
            (idx as int) < self.n_nodes(),
        ensures
            r == self.node_order(idx as int),
    {
        proof {
            lemma2_to64();
            lemma_pow2_le(self.max_order as nat, 24);
            lemma_level_le_max(self.max_order as nat, idx as int);
        }
        let mut level: usize = 0;
        let mut n: usize = idx + 1;
        while n >= 2
            invariant
                1 <= n,
                level + lg(n as nat) == level_of(idx as int),
                level <= level_of(idx as int),
                level_of(idx as int) <= 24,
            decreases n,
        {
            n = n / 2;
            level = level + 1;
        }
        self.max_order - level
    }

    /// Byte size of a block of the given order.
    pub fn order_to_size(&self, order: usize) -> (r: usize)
        requires
            self.wf_shape(),
            order <= self.max_order,
        ensures
            r == size_of_order(order as nat),
    {
        proof {
            lemma2_to64();
            lemma_pow2_le(order as nat, 24);
        }
        self.min_size * pow2_usize(order)
    }

    /// Byte size of the block a tree index stands for.
    pub fn index_to_size(&self, idx: usize) -> (r: usize)
        requires
            self.wf_shape(),
            (idx as int) < self.n_nodes(),
        ensures
            r == self.node_size(idx as int),
    {
        proof {
            lemma_level_le_max(self.max_order as nat, idx as int);
        }
        let order = self.index_to_order(idx);
        self.order_to_size(order)
    }

    /// Byte offset in the arena of the block a tree index stands for.
    pub fn index_to_address(&self, idx: usize) -> (r: usize)
        requires
            self.wf_shape(),
            (idx as int) < self.n_nodes(),
        ensures
            r == self.node_offset(idx as int),
            r + self.node_size(idx as int) <= self.size,
            r as int % self.node_size(idx as int) == 0,
    {
        proof {
            lemma2_to64();
            lemma_level_le_max(self.max_order as nat, idx as int);
            lemma_level_range(idx as int, level_of(idx as int));
            lemma_pow2_le(level_of(idx as int), 24);
            lemma_offset_bounds(self.max_order as nat, idx as int);
            lemma_size_of_order_pos(self.node_order(idx as int));
            vstd::arithmetic::div_mod::lemma_mod_multiples_basic(
                idx + 1 - pow2(level_of(idx as int)),
                self.node_size(idx as int),
            );
        }
        let order = self.index_to_order(idx);
        let level = self.max_order - order;
        let start = pow2_usize(level) - 1;
        let bs = self.order_to_size(order);
        (idx - start) * bs
    }

    /// Recovers the tree node behind a pointer returned by `malloc`, by
    /// reading the order from the embedded header just before it and
    /// inverting the index-to-address formula. Reports `InvalidPointer`
    /// for anything that does not lead back to an allocated block.
    pub fn address_to_index(&self, address: usize) -> (r: Result<usize, AllocError>)
        requires
            self.wf(),
        ensures
            r is Ok <==> self.valid_pointer(address as int),
            r is Err ==> r == Err::<usize, AllocError>(AllocError::InvalidPointer),
            r matches Ok(i) ==> {
                &&& i as int == self.pointer_index(address as int)
                &&& (i as int) < self.n_nodes()
                &&& self.is_allocated(i as int)
                &&& self.node_order(i as int) == self.pointer_order(address as int)
                &&& self.node_offset(i as int) == address - HEADER_SIZE
            },
    {
        if address < HEADER_SIZE {
            return Err(AllocError::InvalidPointer);
        }
        let block_start = address - HEADER_SIZE;
        if block_start >= self.size {
            return Err(AllocError::InvalidPointer);
        }
        if block_start % self.min_size != 0 {
            return Err(AllocError::InvalidPointer);
        }
        proof {
            lemma_size_of_order_pos(self.max_order as nat);
        }
        if self.memory[block_start] != 0 {
            return Err(AllocError::InvalidPointer);
        }
        let order = self.memory[block_start + 1] as usize;
        if order > self.max_order {
            return Err(AllocError::InvalidPointer);
        }
        let bs = self.order_to_size(order);
        proof {
            lemma_size_of_order_pos(order as nat);
        }
        if block_start % bs != 0 {
            return Err(AllocError::InvalidPointer);
        }
        let level = self.max_order - order;
        proof {
            lemma2_to64();
            lemma_pow2_le(level as nat, 24);
        }
        let start = pow2_usize(level) - 1;
        let q = block_start / bs;
        let idx = start + q;
        proof {
            lemma_size_of_order_pos(order as nat);
            vstd::arithmetic::div_mod::lemma_fundamental_div_mod(block_start as int, bs as int);
            vstd::arithmetic::power2::lemma_pow2_adds(order as nat, level as nat);
            assert(bs * pow2(level as nat) == self.size) by (nonlinear_arith)
                requires
                    bs == MIN_SIZE * pow2(order as nat),
                    self.size == MIN_SIZE * pow2((order + level) as nat),
                    pow2((order + level) as nat) == pow2(order as nat) * pow2(level as nat),
            ;
            assert((q as int) < pow2(level as nat)) by (nonlinear_arith)
                requires
                    bs * q + 0 == block_start,
                    (block_start as int) < bs * pow2(level as nat),
                    bs >= 1,
            ;
            lemma_level_range(idx as int, level as nat);
            assert(level_of(idx as int) == level);
            assert(self.node_order(idx as int) == order);
            lemma_pow2_le(level as nat, self.max_order as nat);
            lemma_pow2_unfold(self.max_order as nat + 1);
            assert((idx as int) < self.n_nodes());
            assert(self.node_offset(idx as int) == q * bs);
            assert(q * bs == block_start) by (nonlinear_arith)
                requires
                    bs * q + 0 == block_start,
            ;
        }
        let d = self.data[idx];
        if d.free || d.split || !d.initialized {
            return Err(AllocError::InvalidPointer);
        }
        Ok(idx)
    }

    /// No free node of an order below `order` offers `target` bytes.
    spec fn no_free_fit_below(&self, order: int, target: int) -> bool {
        forall|i: int|
            0 <= i < self.n_nodes() && self.node_order(i) < order && self.node_size(i) >= target
                ==> !(#[trigger] self.data@[i]).free
    }

    /// No node of one whole order is free.
    spec fn order_has_no_free(&self, order: int) -> bool {
        forall|i: int|
            0 <= i < self.n_nodes() && self.node_order(i) == order ==> !(
            #[trigger] self.data@[i]).free
    }

    /// A zero counter means its whole order has no free node.
    proof fn lemma_counter_zero_order_empty(&self, order: int)
        requires
            self.wf_shape(),
            self.wf_counters(),
            0 <= order <= self.max_order,
            self.num_free_at_order@[order] == 0,
        ensures
            self.order_has_no_free(order),
    {
        let l = (self.max_order - order) as nat;
        lemma_pow2_pos(l);
        lemma_pow2_le(l, self.max_order as nat);
        lemma_pow2_unfold(self.max_order as nat + 1);
        assert forall|i: int|
            0 <= i < self.n_nodes() && self.node_order(i) == order implies !(
        #[trigger] self.data@[i]).free by {
            lemma_level_le_max(self.max_order as nat, i);
            lemma_level_range(i, l);
            if self.data@[i].free {
                lemma_count_ge_one(self.data@, pow2(l) - 1, 2 * pow2(l) - 1, i);
            }
        }
    }

    /// An order scanned end to end without a free node has none.
    proof fn lemma_scan_order_empty(&self, order: int)
        requires
            self.wf_shape(),
            0 <= order <= self.max_order,
            forall|j: int|
                pow2((self.max_order - order) as nat) - 1 <= j < 2 * pow2(
                    (self.max_order - order) as nat,
                ) - 1 ==> !(#[trigger] self.data@[j]).free,
        ensures
            self.order_has_no_free(order),
    {
        let l = (self.max_order - order) as nat;
        assert forall|i: int|
            0 <= i < self.n_nodes() && self.node_order(i) == order implies !(
        #[trigger] self.data@[i]).free by {
            lemma_level_le_max(self.max_order as nat, i);
            lemma_level_range(i, l);
        }
    }

    /// Extends the no-fit bound one order upward.
    proof fn lemma_no_fit_step(&self, order: int, target: int)
        requires
            self.wf_shape(),
            0 <= order <= self.max_order,
            self.no_free_fit_below(order, target),
            size_of_order(order as nat) < target || self.order_has_no_free(order),
        ensures
            self.no_free_fit_below(order + 1, target),
    {
        assert forall|i: int|
            0 <= i < self.n_nodes() && self.node_order(i) < order + 1 && self.node_size(i)
                >= target implies !(#[trigger] self.data@[i]).free by {
            if self.node_order(i) == order {
                assert(self.node_size(i) == size_of_order(order as nat));
            }
        }
    }

    /// A full no-fit bound refutes any free fit.
    proof fn lemma_no_fit_all(&self, target: int)
        requires
            self.wf_shape(),
            self.no_free_fit_below(self.max_order + 1, target),
        ensures
            !self.has_free_fit(target - HEADER_SIZE),
    {
        assert forall|i: int|
            0 <= i < self.n_nodes() && (#[trigger] self.data@[i]).free implies self.node_size(i)
            < target by {
            lemma_level_le_max(self.max_order as nat, i);
            assert(self.node_order(i) <= self.max_order);
        }
    }

    /// Finds the smallest-order free block of at least
    /// `required + HEADER_SIZE` bytes: the per-order counters say whether
    /// an order has a free node at all, a scan of the order's index range
    /// then picks one.
    fn get_index(&self, required: usize) -> (r: Option<usize>)
        requires
            self.wf(),
            required + HEADER_SIZE <= self.size,
        ensures
            r is None <==> !self.has_free_fit(required as int),
            r matches Some(i) ==> {
                &&& (i as int) < self.n_nodes()
                &&& self.data@[i as int].free
                &&& self.node_size(i as int) >= required + HEADER_SIZE
            },
    {
        let target = required + HEADER_SIZE;
        let mut order: usize = 0;
        while order <= self.max_order
            invariant
                self.wf(),
                target == required + HEADER_SIZE,
                target <= self.size,
                order <= self.max_order + 1,
                self.no_free_fit_below(order as int, target as int),
            decreases self.max_order + 1 - order,
        {
            let bs = self.order_to_size(order);
            let level = self.max_order - order;
            if self.num_free_at_order[order] != 0 && bs >= target {
                proof {
                    lemma2_to64();
                    lemma_pow2_le(level as nat, 24);
                    lemma_pow2_le(level as nat, self.max_order as nat);
                    lemma_pow2_unfold(self.max_order as nat + 1);
                    lemma_pow2_pos(level as nat);
                }
                let cnt = pow2_usize(level);
                let start = cnt - 1;
                let end = 2 * cnt - 1;
                let mut idx = start;
                while idx < end
                    invariant
                        self.wf_shape(),
                        order <= self.max_order,
                        level == self.max_order - order,
                        bs == size_of_order(order as nat),
                        target == required + HEADER_SIZE,
                        bs >= target,
                        cnt == pow2(level as nat),
                        start == cnt - 1,
                        end == 2 * cnt - 1,
                        end <= self.n_nodes(),
                        start <= idx <= end,
                        forall|j: int| start <= j < idx ==> !(#[trigger] self.data@[j]).free,
                    decreases end - idx,
                {
                    if self.data[idx].free {
                        proof {
                            lemma_level_range(idx as int, level as nat);
                            assert(self.node_order(idx as int) == order);
                            assert(self.has_free_fit(required as int));
                        }
                        return Some(idx);
                    }
                    idx = idx + 1;
                }
                proof {
                    self.lemma_scan_order_empty(order as int);
                    self.lemma_no_fit_step(order as int, target as int);
                }
            } else if bs >= target {
                proof {
                    self.lemma_counter_zero_order_empty(order as int);
                    self.lemma_no_fit_step(order as int, target as int);
                }
            } else {
                proof {
                    self.lemma_no_fit_step(order as int, target as int);
                }
            }
            order = order + 1;
        }
        proof {
            self.lemma_no_fit_all(target as int);
        }
        None
    }

    /// Allocates a block of at least `size` bytes, aligned to
    /// `alignment` when one is given, by taking the smallest sufficient
    /// free block and splitting it down to the tightest order that still
    /// fits the request and its header. Returns the byte offset just past
    /// the header; the block's start is aligned to its own size.
    ///
    /// Fails with `ArenaTooSmall` exactly when the request can never fit
    /// the arena, and with `OutOfMemory` exactly when no free block large
    /// enough exists; either failure leaves the state untouched.
    pub fn malloc(&mut self, size: usize, alignment: Option<usize>) -> (r: Result<
        usize,
        AllocError,
    >)
        requires
            old(self).wf(),
        ensures
            final(self).wf(),
            final(self).size == old(self).size,
            final(self).min_size == old(self).min_size,
            final(self).max_order == old(self).max_order,
            (r == Err::<usize, AllocError>(AllocError::ArenaTooSmall)) <==> Self::required_of(
                size,
                alignment,
            ) + HEADER_SIZE > old(self).size,
            (r == Err::<usize, AllocError>(AllocError::OutOfMemory)) <==> (Self::required_of(
                size,
                alignment,
            ) + HEADER_SIZE <= old(self).size && !old(self).has_free_fit(
                Self::required_of(size, alignment),
            )),
            r is Err ==> same_state(old(self), final(self)),
            r is Ok <==> (Self::required_of(size, alignment) + HEADER_SIZE <= old(self).size
                && old(self).has_free_fit(Self::required_of(size, alignment))),
            r matches Ok(addr) ==> ({
                let i = final(self).pointer_index(addr as int);
                &&& final(self).valid_pointer(addr as int)
                &&& 0 <= i < final(self).n_nodes()
                &&& final(self).is_allocated(i)
                &&& !old(self).is_allocated(i)
                &&& addr == final(self).node_offset(i) + HEADER_SIZE
                &&& final(self).node_size(i) >= Self::required_of(size, alignment) + HEADER_SIZE
                &&& (final(self).node_order(i) == 0 || size_of_order(
                    (final(self).node_order(i) - 1) as nat,
                ) < Self::required_of(size, alignment) + HEADER_SIZE)
                &&& forall|j: int|
                    0 <= j < final(self).n_nodes() && j != i ==> (final(self).is_allocated(j)
                        <==> old(self).is_allocated(j))
                &&& final(self).memory@ == old(self).memory@.update(
                    final(self).node_offset(i),
                    0u8,
                ).update(final(self).node_offset(i) + 1, final(self).node_order(i) as u8)
            }),
    {
        let required: usize = match alignment {
            Some(a) => if a > size {
                a
            } else {
                size
            },
            None => size,
        };
        if required > self.size - HEADER_SIZE {
            return Err(AllocError::ArenaTooSmall);
        }
        let found = self.get_index(required);
        let idx0 = match found {
            None => {
                return Err(AllocError::OutOfMemory);
            },
            Some(i) => i,
        };
        let target = required + HEADER_SIZE;
        let mut idx = idx0;
        let mut order = self.index_to_order(idx);
        proof {
            lemma_level_le_max(self.max_order as nat, idx as int);
        }
        let ghost pre0 = *self;
        let c = self.num_free_at_order[order];
        proof {
            let m = self.max_order as nat;
            let l = (m - order) as nat;
            lemma_pow2_pos(l);
            lemma_pow2_le(l, m);
            lemma_pow2_unfold(m + 1);
            lemma_level_range(idx as int, l);
            lemma_count_ge_one(self.data@, pow2(l) - 1, 2 * pow2(l) - 1, idx as int);
        }
        self.data.set(idx, Data { free: false, split: false, initialized: true });
        self.num_free_at_order.set(order, c - 1);
        proof {
            Self::lemma_claim_step(pre0, *self, idx as int, order as int);
        }
        while order > 0 && self.order_to_size(order - 1) >= target
            invariant
                old(self).wf(),
                self.wf_shape(),
                self.wf_flags(),
                self.wf_counters(),
                self.wf_buddies(),
                self.size == old(self).size,
                self.min_size == old(self).min_size,
                self.max_order == old(self).max_order,
                self.memory@ == old(self).memory@,
                (idx as int) < self.n_nodes(),
                self.node_order(idx as int) == order,
                order <= self.max_order,
                self.is_allocated(idx as int),
                !old(self).is_allocated(idx as int),
                forall|j: int|
                    0 <= j < self.n_nodes() && j != idx ==> (self.is_allocated(j) <==> old(
                        self,
                    ).is_allocated(j)),
                size_of_order(order as nat) >= target,
                target == required + HEADER_SIZE,
                target <= self.size,
            decreases order,
        {
            let ghost pre = *self;
            let left = 2 * idx + 1;
            let right = 2 * idx + 2;
            proof {
                lemma2_to64();
                lemma_pow2_le(self.max_order as nat, 24);
                lemma_level_le_max(self.max_order as nat, idx as int);
                lemma_children_in_tree(self.max_order as nat, idx as int);
            }
            let c2 = self.num_free_at_order[order - 1];
            proof {
                let m = self.max_order as nat;
                let l2 = (m - (order - 1)) as nat;
                lemma_pow2_pos(l2);
                lemma_pow2_le(l2, m);
                lemma_pow2_le(l2, 24);
                lemma_pow2_unfold(m + 1);
                lemma_count_nonneg(self.data@, pow2(l2) - 1, 2 * pow2(l2) - 1);
            }
            self.data.set(idx, Data { free: false, split: true, initialized: true });
            self.data.set(left, Data { free: false, split: false, initialized: true });
            self.data.set(right, Data { free: true, split: false, initialized: true });
            self.num_free_at_order.set(order - 1, c2 + 1);
            proof {
                Self::lemma_split_step(pre, *self, idx as int, order as int);
            }
            idx = left;
            order = order - 1;
        }
        let block_start = self.index_to_address(idx);
        proof {
            lemma_size_of_order_pos(self.node_order(idx as int));
        }
        self.memory.set(block_start, 0u8);
        self.memory.set(block_start + 1, order as u8);
        proof {
            self.lemma_malloc_post(*old(self), idx as int, order as int, block_start as int);
        }
        Ok(block_start + HEADER_SIZE)
    }

    /// After the final header write, the new state is well formed and the
    /// returned pointer is valid and leads back to the allocated node.
    proof fn lemma_malloc_post(&self, orig: Self, idx: int, order: int, block_start: int)
        requires
            orig.wf(),
            self.wf_shape(),
            self.wf_flags(),
            self.wf_counters(),
            self.wf_buddies(),
            self.size == orig.size,
            self.min_size == orig.min_size,
            self.max_order == orig.max_order,
            0 <= idx < self.n_nodes(),
            self.node_order(idx) == order,
            self.is_allocated(idx),
            !orig.is_allocated(idx),
            forall|j: int|
                0 <= j < self.n_nodes() && j != idx ==> (self.is_allocated(j)
                    <==> orig.is_allocated(j)),
            block_start == self.node_offset(idx),
            block_start + self.node_size(idx) <= self.size,
            self.memory@ == orig.memory@.update(block_start, 0u8).update(
                block_start + 1,
                order as u8,
            ),
        ensures
            self.wf(),
            self.valid_pointer(block_start + HEADER_SIZE),
            self.pointer_index(block_start + HEADER_SIZE) == idx,
            self.pointer_order(block_start + HEADER_SIZE) == order,
    {
        let m = self.max_order as nat;
        let l = level_of(idx);
        let so = size_of_order(order as nat);
        let pos = idx + 1 - pow2(l);
        lemma_level_le_max(m, idx);
        lemma_level_range(idx, l);
        lemma_size_of_order_pos(order as nat);
        assert(0 <= pos < pow2(l));
        assert(block_start == pos * so);
        assert(so == pow2(order as nat) * MIN_SIZE) by (nonlinear_arith)
            requires
                so == MIN_SIZE * pow2(order as nat),
        ;
        assert(block_start == (pos * pow2(order as nat)) * MIN_SIZE) by (nonlinear_arith)
            requires
                block_start == pos * so,
                so == pow2(order as nat) * MIN_SIZE,
        ;
        vstd::arithmetic::div_mod::lemma_mod_multiples_basic(
            pos * pow2(order as nat),
            MIN_SIZE as int,
        );
        vstd::arithmetic::div_mod::lemma_mod_multiples_basic(pos, so);
        assert(block_start == pos * so) by (nonlinear_arith)
            requires
                block_start == (pos * pow2(order as nat)) * MIN_SIZE,
                so == MIN_SIZE * pow2(order as nat),
        ;
        assert(so * pos == block_start) by (nonlinear_arith)
            requires
                block_start == pos * so,
        ;
        vstd::arithmetic::div_mod::lemma_div_multiples_vanish(pos, so);
        assert(block_start / so == pos);
        assert(self.pointer_order(block_start + HEADER_SIZE) == order);
        assert(self.pointer_index(block_start + HEADER_SIZE) == pow2((m - order) as nat) - 1
            + pos);
        assert(self.pointer_index(block_start + HEADER_SIZE) == idx);
        assert(self.wf_headers()) by {
            assert forall|j: int|
                0 <= j < self.n_nodes() && #[trigger] self.is_allocated(j) implies
                self.header_matches(j) by {
                if j == idx {
                    assert(self.memory@[block_start] == 0u8);
                    assert(self.memory@[block_start + 1] == order as u8);
                } else {
                    assert(orig.is_allocated(j));
                    assert(orig.header_matches(j));
                    self.lemma_allocated_disjoint_core(idx, j);
                    lemma_size_of_order_pos(self.node_order(j));
                    lemma_offset_bounds(m, j);
                    assert(self.node_offset(j) != block_start);
                    assert(self.node_offset(j) != block_start + 1);
                    assert(self.node_offset(j) + 1 != block_start);
                    assert(self.node_offset(j) + 1 != block_start + 1);
                    assert(self.memory@[self.node_offset(j)] == orig.memory@[self.node_offset(j)]);
                }
            }
        }
    }

    /// Coalescing may only be pending at one pair of siblings: every
    /// other pair obeys the no-two-free-buddies rule. The pending pair is
    /// named by its parent.
    spec fn wf_buddies_except(&self, e: int) -> bool {
        forall|k: int|
            0 <= k && 2 * k + 2 < self.n_nodes() && k != e ==> !((
            #[trigger] self.data@[2 * k + 1]).free && self.data@[2 * k + 2].free)
    }

    /// Marking an allocated block free (tree node, counter and header
    /// byte together) preserves the tree invariants, except that the
    /// freed node's own sibling pair may now await coalescing.
    proof fn lemma_release_step(pre: Self, post: Self, idx: int, order: int)
        requires
            pre.wf(),
            0 <= idx < pre.n_nodes(),
            pre.node_order(idx) == order,
            0 <= order <= pre.max_order,
            pre.is_allocated(idx),
            pre.num_free_at_order@[order] + 1 <= usize::MAX,
            post.size == pre.size,
            post.min_size == pre.min_size,
            post.max_order == pre.max_order,
            post.memory@ == pre.memory@.update(pre.node_offset(idx), 1u8),
            post.data@ == pre.data@.update(
                idx,
                Data { free: true, split: false, initialized: true },
            ),
            post.num_free_at_order@ == pre.num_free_at_order@.update(
                order,
                (pre.num_free_at_order@[order] + 1) as usize,
            ),
        ensures
            post.wf_shape(),
            post.wf_flags(),
            post.wf_counters(),
            post.wf_headers(),
            post.wf_buddies_except(parent_of(idx)),
            post.data@[idx] == (Data { free: true, split: false, initialized: true }),
            !post.is_allocated(idx),
            forall|j: int|
                0 <= j < post.n_nodes() ==> (post.is_allocated(j) <==> (pre.is_allocated(j) && j
                    != idx)),
    {
        let m = pre.max_order as nat;
        lemma_level_le_max(m, idx);
        lemma_offset_bounds(m, idx);
        lemma_size_of_order_pos(pre.node_order(idx));
        let l = level_of(idx);
        assert forall|o: int|
            0 <= o <= post.max_order implies #[trigger] post.num_free_at_order@[o]
            == count_free_at_level(post.data@, (post.max_order - o) as nat) by {
            Self::lemma_count_level_update(
                pre.data@,
                idx,
                Data { free: true, split: false, initialized: true },
                m,
                (m - o) as nat,
            );
        }
        assert(post.wf_buddies_except(parent_of(idx))) by {
            assert forall|k: int|
                0 <= k && 2 * k + 2 < post.n_nodes() && k != parent_of(idx) implies !((
            #[trigger] post.data@[2 * k + 1]).free && post.data@[2 * k + 2].free) by {
                assert(parent_of(2 * k + 1) == k && parent_of(2 * k + 2) == k);
                assert(2 * k + 1 != idx && 2 * k + 2 != idx);
                assert(post.data@[2 * k + 1] == pre.data@[2 * k + 1]);
                assert(post.data@[2 * k + 2] == pre.data@[2 * k + 2]);
            }
        }
        assert(post.wf_headers()) by {
            assert forall|j: int|
                0 <= j < post.n_nodes() && #[trigger] post.is_allocated(j) implies
                post.header_matches(j) by {
                assert(j != idx);
                assert(pre.is_allocated(j));
                assert(pre.header_matches(j));
                pre.lemma_allocated_disjoint_core(idx, j);
                lemma_size_of_order_pos(pre.node_order(j));
                lemma_size_of_order_pos(pre.node_order(idx));
                lemma_offset_bounds(m, j);
                lemma_offset_bounds(m, idx);
                assert(post.node_offset(j) != pre.node_offset(idx));
                assert(post.node_offset(j) + 1 != pre.node_offset(idx));
            }
        }
    }

    /// Merging a freed block with its free buddy back into their parent
    /// preserves the tree invariants; the pending pair moves one level
    /// up, to the parent's own sibling pair, and no allocated block is
    /// touched.
    proof fn lemma_coalesce_step(pre: Self, post: Self, idx: int, order: int)
        requires
            pre.wf_shape(),
            pre.wf_flags(),
            pre.wf_counters(),
            pre.wf_headers(),
            pre.wf_buddies_except(parent_of(idx)),
            1 <= idx < pre.n_nodes(),
            pre.node_order(idx) == order,
            pre.data@[idx] == (Data { free: true, split: false, initialized: true }),
            pre.data@[sibling_of(idx)].free,
            pre.num_free_at_order@[order] >= 2,
            pre.num_free_at_order@[order + 1] + 1 <= usize::MAX,
            post.size == pre.size,
            post.min_size == pre.min_size,
            post.max_order == pre.max_order,
            post.memory@ == pre.memory@,
            post.data@ == pre.data@.update(
                idx,
                Data { free: false, split: false, initialized: false },
            ).update(sibling_of(idx), Data { free: false, split: false, initialized: false }).update(
                parent_of(idx),
                Data { free: true, split: false, initialized: true },
            ),
            post.num_free_at_order@ == pre.num_free_at_order@.update(
                order,
                (pre.num_free_at_order@[order] - 2) as usize,
            ).update(order + 1, (pre.num_free_at_order@[order + 1] + 1) as usize),
        ensures
            post.wf_shape(),
            post.wf_flags(),
            post.wf_counters(),
            post.wf_headers(),
            post.wf_buddies_except(parent_of(parent_of(idx))),
            0 <= parent_of(idx) < post.n_nodes(),
            post.node_order(parent_of(idx)) == order + 1,
            post.data@[parent_of(idx)] == (Data { free: true, split: false, initialized: true }),
            forall|j: int|
                0 <= j < post.n_nodes() ==> (post.is_allocated(j) <==> pre.is_allocated(j)),
    {
        let m = pre.max_order as nat;
        let p = parent_of(idx);
        let s = sibling_of(idx);
        lemma_level_of_parent(idx);
        lemma_level_le_max(m, idx);
        let l = level_of(idx);
        assert(idx == 2 * p + 1 || idx == 2 * p + 2);
        assert(s == 2 * p + 1 || s == 2 * p + 2);
        assert(s != idx && parent_of(s) == p);
        assert(level_of(s) == l) by {
            lemma_level_of_children(p);
        }
        assert(2 * p + 2 < pre.n_nodes());
        assert(pre.data@[p].split);
        assert(!pre.data@[s].split && pre.data@[s].initialized);
        assert(pre.node_order(p) == order + 1);
        let cv = Data { free: false, split: false, initialized: false };
        let pv = Data { free: true, split: false, initialized: true };
        let s0 = pre.data@;
        let s1 = s0.update(idx, cv);
        let s2 = s1.update(s, cv);
        let s3 = s2.update(p, pv);
        assert(post.data@ == s3);
        assert(post.wf_flags()) by {
            assert forall|i: int| 1 <= i < post.n_nodes() implies ((#[trigger] s3[i]).initialized
                <==> s3[parent_of(i)].split) by {
                let q = parent_of(i);
                assert(i == 2 * q + 1 || i == 2 * q + 2);
                if i == idx || i == s {
                } else if q == idx || q == s {
                    assert(!s0[i].initialized);
                } else if i == p {
                } else {
                }
            }
            assert forall|i: int|
                0 <= i < post.n_nodes() && (#[trigger] s3[i]).split implies {
                &&& s3[i].initialized
                &&& !s3[i].free
                &&& 2 * i + 2 < post.n_nodes()
            } by {
                if i != idx && i != s && i != p {
                    assert(s3[i] == s0[i]);
                }
            }
        }
        assert(post.wf_counters()) by {
            assert forall|o: int|
                0 <= o <= post.max_order implies #[trigger] post.num_free_at_order@[o]
                == count_free_at_level(post.data@, (post.max_order - o) as nat) by {
                let lo = (m - o) as nat;
                Self::lemma_count_level_update(s0, idx, cv, m, lo);
                Self::lemma_count_level_update(s1, s, cv, m, lo);
                Self::lemma_count_level_update(s2, p, pv, m, lo);
                assert(s1[s] == s0[s]);
                assert(s2[p] == s0[p]);
            }
        }
        assert(post.wf_buddies_except(parent_of(p))) by {
            assert forall|k: int|
                0 <= k && 2 * k + 2 < post.n_nodes() && k != parent_of(p) implies !((
            #[trigger] s3[2 * k + 1]).free && s3[2 * k + 2].free) by {
                assert(parent_of(2 * k + 1) == k && parent_of(2 * k + 2) == k);
                if k == p {
                } else {
                    assert(2 * k + 1 != idx && 2 * k + 2 != idx);
                    assert(2 * k + 1 != s && 2 * k + 2 != s);
                    if 2 * k + 1 != p {
                        assert(s3[2 * k + 1] == s0[2 * k + 1]);
                    }
                    if 2 * k + 2 != p {
                        assert(s3[2 * k + 2] == s0[2 * k + 2]);
                    }
                    if 2 * k + 1 == p || 2 * k + 2 == p {
                        assert(k == parent_of(p));
                    }
                }
            }
        }
        assert(post.wf_headers()) by {
            assert forall|j: int|
                0 <= j < post.n_nodes() && #[trigger] post.is_allocated(j) implies
                post.header_matches(j) by {
                assert(j != idx && j != s && j != p);
                assert(pre.is_allocated(j));
            }
        }
        assert forall|j: int| 0 <= j < post.n_nodes() implies (post.is_allocated(j)
            <==> pre.is_allocated(j)) by {
            if j != idx && j != s && j != p {
                assert(s3[j] == s0[j]);
            }
        }
    }

    /// Reads whether the sibling sharing this node's parent is free.
    fn sibling_free(&self, idx: usize) -> (r: bool)
        requires
            self.wf_shape(),
            1 <= idx,
            (idx as int) < self.n_nodes(),
        ensures
            r == self.data@[sibling_of(idx as int)].free,
    {
        proof {
            lemma_pow2_pos(self.max_order as nat);
        }
        if idx % 2 == 1 {
            proof {
                vstd::arithmetic::div_mod::lemma_mod_multiples_basic(
                    pow2(self.max_order as nat) as int - 1,
                    2,
                );
                assert(idx + 1 < self.data@.len()) by {
                    if idx as int == self.n_nodes() - 1 {
                        assert((idx as int) % 2 == 0);
                    }
                }
            }
            self.data[idx + 1].free
        } else {
            self.data[idx - 1].free
        }
    }

    /// Returns the block behind `ptr` to the arena and coalesces it with
    /// its buddy, repeatedly, while both halves of a parent are free.
    /// Fails with `InvalidPointer`, leaving the state untouched, exactly
    /// when `ptr` does not name a currently allocated block: out of
    /// range, misaligned, its header already free or inconsistent with
    /// the bookkeeping.
    pub fn free(&mut self, ptr: usize) -> (r: Result<(), AllocError>)
        requires
            old(self).wf(),
        ensures
            final(self).wf(),
            final(self).size == old(self).size,
            final(self).min_size == old(self).min_size,
            final(self).max_order == old(self).max_order,
            (r is Ok) <==> old(self).valid_pointer(ptr as int),
            r is Err ==> r == Err::<(), AllocError>(AllocError::InvalidPointer) && same_state(
                old(self),
                final(self),
            ),
            r is Ok ==> ({
                let i = old(self).pointer_index(ptr as int);
                &&& old(self).is_allocated(i)
                &&& !final(self).is_allocated(i)
                &&& forall|j: int|
                    0 <= j < final(self).n_nodes() && j != i ==> (final(self).is_allocated(j)
                        <==> old(self).is_allocated(j))
                &&& final(self).memory@ == old(self).memory@.update(ptr - HEADER_SIZE, 1u8)
            }),
    {
        let idx0 = match self.address_to_index(ptr) {
            Err(_) => {
                return Err(AllocError::InvalidPointer);
            },
            Ok(i) => i,
        };
        let mut idx = idx0;
        let mut order = self.index_to_order(idx);
        let block_start = ptr - HEADER_SIZE;
        let ghost orig = *self;
        let c = self.num_free_at_order[order];
        proof {
            let m = self.max_order as nat;
            lemma_level_le_max(m, idx as int);
            let l = (m - order) as nat;
            lemma2_to64();
            lemma_pow2_pos(l);
            lemma_pow2_le(l, m);
            lemma_pow2_le(l, 24);
            lemma_pow2_unfold(m + 1);
            lemma_count_nonneg(self.data@, pow2(l) - 1, 2 * pow2(l) - 1);
        }
        self.memory.set(block_start, 1u8);
        self.data.set(idx, Data { free: true, split: false, initialized: true });
        self.num_free_at_order.set(order, c + 1);
        proof {
            Self::lemma_release_step(orig, *self, idx as int, order as int);
        }
        while idx > 0 && self.sibling_free(idx)
            invariant
                old(self).wf(),
                self.wf_shape(),
                self.wf_flags(),
                self.wf_counters(),
                self.wf_headers(),
                self.wf_buddies_except(parent_of(idx as int)),
                self.size == old(self).size,
                self.min_size == old(self).min_size,
                self.max_order == old(self).max_order,
                (idx as int) < self.n_nodes(),
                self.node_order(idx as int) == order,
                order <= self.max_order,
                self.data@[idx as int] == (Data { free: true, split: false, initialized: true }),
                old(self).valid_pointer(ptr as int),
                idx0 as int == old(self).pointer_index(ptr as int),
                old(self).is_allocated(idx0 as int),
                self.memory@ == old(self).memory@.update(ptr - HEADER_SIZE, 1u8),
                forall|j: int|
                    0 <= j < self.n_nodes() ==> (self.is_allocated(j) <==> (old(
                        self,
                    ).is_allocated(j) && j != idx0)),
            decreases idx,
        {
            let parent = (idx - 1) / 2;
            let buddy = if idx % 2 == 1 {
                idx + 1
            } else {
                idx - 1
            };
            proof {
                assert(buddy as int == sibling_of(idx as int));
                assert(parent as int == parent_of(idx as int));
                lemma_level_of_parent(idx as int);
                lemma_level_le_max(self.max_order as nat, idx as int);
                assert(level_of(idx as int) >= 1);
                assert(order < self.max_order);
            }
            let ghost pre = *self;
            let c_o = self.num_free_at_order[order];
            let c_o1 = self.num_free_at_order[order + 1];
            proof {
                let m = self.max_order as nat;
                let l = (m - order) as nat;
                let l1 = (l - 1) as nat;
                lemma2_to64();
                lemma_pow2_pos(l);
                lemma_pow2_pos(l1);
                lemma_pow2_le(l, m);
                lemma_pow2_le(l1, m);
                lemma_pow2_le(l1, 24);
                lemma_pow2_unfold(m + 1);
                lemma_level_range(idx as int, l);
                lemma_level_of_children(parent as int);
                lemma_level_range(buddy as int, l);
                lemma_count_ge_two(
                    self.data@,
                    pow2(l) - 1,
                    2 * pow2(l) - 1,
                    idx as int,
                    buddy as int,
                );
                lemma_count_nonneg(self.data@, pow2(l1) - 1, 2 * pow2(l1) - 1);
            }
            self.data.set(idx, Data { free: false, split: false, initialized: false });
            self.data.set(buddy, Data { free: false, split: false, initialized: false });
            self.data.set(parent, Data { free: true, split: false, initialized: true });
            self.num_free_at_order.set(order, c_o - 2);
            self.num_free_at_order.set(order + 1, c_o1 + 1);
            proof {
                Self::lemma_coalesce_step(pre, *self, idx as int, order as int);
            }
            idx = parent;
            order = order + 1;
        }
        proof {
            assert(self.wf_buddies()) by {
                if idx == 0 {
                    assert(parent_of(0) == -1);
                    assert forall|k: int|
                        0 <= k && 2 * k + 2 < self.n_nodes() implies !((
                    #[trigger] self.data@[2 * k + 1]).free && self.data@[2 * k + 2].free) by {
                        assert(k != parent_of(0));
                    }
                } else {
                    let p = parent_of(idx as int);
                    let s = sibling_of(idx as int);
                    assert(!self.data@[s].free);
                    assert forall|k: int|
                        0 <= k && 2 * k + 2 < self.n_nodes() implies !((
                    #[trigger] self.data@[2 * k + 1]).free && self.data@[2 * k + 2].free) by {
                        if k == p {
                            assert(2 * k + 1 == idx || 2 * k + 1 == s);
                            assert(2 * k + 2 == idx || 2 * k + 2 == s);
                        }
                    }
                }
            }
        }
        Ok(())
    }

    /// Every proper ancestor of a node that takes part in the bookkeeping
    /// is split (and itself on the books).
    proof fn lemma_live_ancestors_split(&self, a: int, d: int)
        requires
            self.wf_shape(),
            self.wf_flags(),
            in_subtree(a, d),
            a != d,
            0 <= a,
            d < self.n_nodes(),
            self.data@[d].initialized,
        ensures
            self.data@[a].split,
            self.data@[a].initialized,
        decreases d,
    {
        assert(d >= 1) by {
            if d <= 0 {
                assert(!in_subtree(a, d));
            }
        }
        let p = parent_of(d);
        assert(0 <= p < d);
        assert(self.data@[p].split);
        if p != a {
            assert(in_subtree(a, p));
            self.lemma_live_ancestors_split(a, p);
        }
    }

    /// Two distinct allocated blocks cover disjoint byte ranges; it is
    /// enough that the flags form a tree.
    proof fn lemma_allocated_disjoint_core(&self, i: int, j: int)
        requires
            self.wf_shape(),
            self.wf_flags(),
            0 <= i < self.n_nodes(),
            0 <= j < self.n_nodes(),
            i != j,
            self.is_allocated(i),
            self.is_allocated(j),
        ensures
            self.node_offset(i) + self.node_size(i) <= self.node_offset(j) || self.node_offset(j)
                + self.node_size(j) <= self.node_offset(i),
    {
        if in_subtree(i, j) {
            self.lemma_live_ancestors_split(i, j);
        }
        if in_subtree(j, i) {
            self.lemma_live_ancestors_split(j, i);
        }
        lemma_regions_disjoint(self.max_order as nat, i, j);
    }

    /// Updating one node moves one level's free count by the difference
    /// of the two free flags and leaves every other level's count alone.
    proof fn lemma_count_level_update(s: Seq<Data>, k: int, v: Data, m: nat, l: nat)
        requires
            s.len() == node_count(m),
            0 <= k < s.len(),
            l <= m,
        ensures
            count_free_at_level(s.update(k, v), l) == count_free_at_level(s, l) + if level_of(k)
                == l {
                (if v.free {
                    1int
                } else {
                    0int
                }) - (if s[k].free {
                    1int
                } else {
                    0int
                })
            } else {
                0int
            },
    {
        lemma_pow2_pos(l);
        lemma_pow2_le(l, m);
        lemma_pow2_unfold(m + 1);
        lemma_level_range(k, l);
        lemma_count_update(s, k, v, pow2(l) - 1, 2 * pow2(l) - 1);
    }

    /// Taking a free leaf off the books (marking it allocated) preserves
    /// the tree invariants; only its own order's counter moves, down by
    /// one.
    proof fn lemma_claim_step(pre: Self, post: Self, idx: int, order: int)
        requires
            pre.wf_shape(),
            pre.wf_flags(),
            pre.wf_counters(),
            pre.wf_buddies(),
            0 <= idx < pre.n_nodes(),
            pre.node_order(idx) == order,
            pre.data@[idx].free,
            post.size == pre.size,
            post.min_size == pre.min_size,
            post.max_order == pre.max_order,
            post.memory@ == pre.memory@,
            post.data@ == pre.data@.update(
                idx,
                Data { free: false, split: false, initialized: true },
            ),
            post.num_free_at_order@ == pre.num_free_at_order@.update(
                order,
                (pre.num_free_at_order@[order] - 1) as usize,
            ),
        ensures
            post.wf_shape(),
            post.wf_flags(),
            post.wf_counters(),
            post.wf_buddies(),
            post.is_allocated(idx),
            !pre.is_allocated(idx),
            forall|j: int|
                0 <= j < post.n_nodes() && j != idx ==> (post.is_allocated(j)
                    <==> pre.is_allocated(j)),
    {
        let m = pre.max_order as nat;
        let l = (m - order) as nat;
        lemma_level_le_max(m, idx);
        assert(level_of(idx) == l);
        Self::lemma_count_level_update(
            pre.data@,
            idx,
            Data { free: false, split: false, initialized: true },
            m,
            l,
        );
        lemma_pow2_pos(l);
        lemma_pow2_le(l, m);
        lemma_pow2_unfold(m + 1);
        lemma_level_range(idx, l);
        lemma_count_ge_one(pre.data@, pow2(l) - 1, 2 * pow2(l) - 1, idx);
        assert forall|o: int|
            0 <= o <= post.max_order implies #[trigger] post.num_free_at_order@[o]
            == count_free_at_level(post.data@, (post.max_order - o) as nat) by {
            Self::lemma_count_level_update(
                pre.data@,
                idx,
                Data { free: false, split: false, initialized: true },
                m,
                (m - o) as nat,
            );
        }
    }

    /// Splitting the current block in two — the parent marked split, the
    /// left child taken as the new current block, the right child put on
    /// the books as free — preserves the tree invariants; the allocated
    /// set merely trades the parent for the left child.
    proof fn lemma_split_step(pre: Self, post: Self, idx: int, order: int)
        requires
            pre.wf_shape(),
            pre.wf_flags(),
            pre.wf_counters(),
            pre.wf_buddies(),
            0 <= idx < pre.n_nodes(),
            pre.node_order(idx) == order,
            0 < order,
            pre.is_allocated(idx),
            post.size == pre.size,
            post.min_size == pre.min_size,
            post.max_order == pre.max_order,
            post.memory@ == pre.memory@,
            post.data@ == pre.data@.update(
                idx,
                Data { free: false, split: true, initialized: true },
            ).update(2 * idx + 1, Data { free: false, split: false, initialized: true }).update(
                2 * idx + 2,
                Data { free: true, split: false, initialized: true },
            ),
            post.num_free_at_order@ == pre.num_free_at_order@.update(
                order - 1,
                (pre.num_free_at_order@[order - 1] + 1) as usize,
            ),
            pre.num_free_at_order@[order - 1] + 1 <= usize::MAX,
        ensures
            post.wf_shape(),
            post.wf_flags(),
            post.wf_counters(),
            post.wf_buddies(),
            post.is_allocated(2 * idx + 1),
            post.node_order(2 * idx + 1) == order - 1,
            2 * idx + 1 < post.n_nodes(),
            !pre.is_allocated(2 * idx + 1),
            forall|j: int|
                0 <= j < post.n_nodes() && j != 2 * idx + 1 ==> (post.is_allocated(j) <==> (
                pre.is_allocated(j) && j != idx)),
    {
        let m = pre.max_order as nat;
        let left = 2 * idx + 1;
        let right = 2 * idx + 2;
        lemma_level_le_max(m, idx);
        let l = level_of(idx);
        assert(l == m - order);
        lemma_children_in_tree(m, idx);
        lemma_level_of_children(idx);
        assert(parent_of(left) == idx);
        assert(parent_of(right) == idx);
        assert(!pre.data@[left].initialized);
        assert(!pre.data@[right].initialized);
        assert(!pre.data@[left].free && !pre.data@[left].split);
        assert(!pre.data@[right].free && !pre.data@[right].split);
        let pv = Data { free: false, split: true, initialized: true };
        let lv = Data { free: false, split: false, initialized: true };
        let rv = Data { free: true, split: false, initialized: true };
        let s0 = pre.data@;
        let s1 = s0.update(idx, pv);
        let s2 = s1.update(left, lv);
        let s3 = s2.update(right, rv);
        assert(post.data@ == s3);
        assert(post.wf_flags()) by {
            assert forall|i: int| 1 <= i < post.n_nodes() implies ((#[trigger] s3[i]).initialized
                <==> s3[parent_of(i)].split) by {
                let p = parent_of(i);
                assert(i == 2 * p + 1 || i == 2 * p + 2);
                if i == left || i == right {
                } else if p == left || p == right {
                    assert(!s0[i].initialized);
                } else if i == idx {
                } else {
                }
            }
            assert forall|i: int|
                0 <= i < post.n_nodes() && (#[trigger] s3[i]).split implies {
                &&& s3[i].initialized
                &&& !s3[i].free
                &&& 2 * i + 2 < post.n_nodes()
            } by {
                if i != idx && i != left && i != right {
                    assert(s3[i] == s0[i]);
                }
            }
        }
        assert(post.wf_counters()) by {
            assert forall|o: int|
                0 <= o <= post.max_order implies #[trigger] post.num_free_at_order@[o]
                == count_free_at_level(post.data@, (post.max_order - o) as nat) by {
                let lo = (m - o) as nat;
                Self::lemma_count_level_update(s0, idx, pv, m, lo);
                Self::lemma_count_level_update(s1, left, lv, m, lo);
                Self::lemma_count_level_update(s2, right, rv, m, lo);
                assert(s1[left] == s0[left]);
                assert(s2[right] == s0[right]);
                assert(level_of(left) == l + 1);
                assert(level_of(right) == l + 1);
            }
        }
        assert(post.wf_buddies()) by {
            assert forall|k: int|
                0 <= k && 2 * k + 2 < post.n_nodes() implies !((
            #[trigger] s3[2 * k + 1]).free && s3[2 * k + 2].free) by {
                if k == idx {
                } else {
                    if 2 * k + 1 != idx && 2 * k + 1 != left && 2 * k + 1 != right {
                        assert(s3[2 * k + 1] == s0[2 * k + 1]);
                    }
                    if 2 * k + 2 != idx && 2 * k + 2 != left && 2 * k + 2 != right {
                        assert(s3[2 * k + 2] == s0[2 * k + 2]);
                    }
                    assert(!s3[2 * k + 1].free || !s3[2 * k + 2].free);
                }
            }
        }
    }

    /// Order correctness: at any node's level, the block size of that
    /// order times the number of nodes of that order (`pow2(level)`, all
    /// of which lie inside the tree) equals the arena's total size — the
    /// tree tiles the arena completely at every level.
    pub proof fn lemma_order_tiles_arena(&self, i: int)
        requires
            self.wf_shape(),
            0 <= i < self.n_nodes(),
        ensures
            self.node_size(i) * pow2(level_of(i)) == self.size,
            pow2(level_of(i)) - 1 + pow2(level_of(i)) <= self.n_nodes(),
    {
        let m = self.max_order as nat;
        lemma_level_le_max(m, i);
        let l = level_of(i);
        let o = self.node_order(i);
        vstd::arithmetic::power2::lemma_pow2_adds(o, l);
        lemma_pow2_le(l, m);
        assert((MIN_SIZE * pow2(o)) * pow2(l) == MIN_SIZE * pow2((o + l) as nat))
            by (nonlinear_arith)
            requires
                pow2((o + l) as nat) == pow2(o) * pow2(l),
        ;
    }

    /// With no block handed out, every node on the books is a free leaf.
    proof fn lemma_no_alloc_live_is_free(&self, i: int)
        requires
            self.wf_shape(),
            self.wf_flags(),
            self.wf_buddies(),
            forall|j: int| 0 <= j < self.n_nodes() ==> !self.is_allocated(j),
            0 <= i < self.n_nodes(),
            self.data@[i].initialized,
        ensures
            self.data@[i].free,
            !self.data@[i].split,
        decreases self.node_order(i),
    {
        lemma_level_le_max(self.max_order as nat, i);
        if self.data@[i].split {
            let left = 2 * i + 1;
            let right = 2 * i + 2;
            lemma_level_of_children(i);
            lemma_level_le_max(self.max_order as nat, right);
            assert(self.data@[left].initialized && self.data@[right].initialized);
            assert(self.node_order(left) == self.node_order(i) - 1);
            assert(self.node_order(right) == self.node_order(i) - 1);
            self.lemma_no_alloc_live_is_free(left);
            self.lemma_no_alloc_live_is_free(right);
            assert(!self.is_allocated(i));
        }
        assert(!self.is_allocated(i));
    }

    /// With no block handed out, nothing below the root is on the books.
    proof fn lemma_no_alloc_stale(&self, i: int)
        requires
            self.wf_shape(),
            self.wf_flags(),
            self.wf_buddies(),
            forall|j: int| 0 <= j < self.n_nodes() ==> !self.is_allocated(j),
            1 <= i < self.n_nodes(),
        ensures
            !self.data@[i].initialized,
        decreases i,
    {
        if self.data@[i].initialized {
            let p = parent_of(i);
            assert(0 <= p < i);
            assert(self.data@[p].split);
            if p == 0 {
                self.lemma_no_alloc_live_is_free(0);
            } else {
                self.lemma_no_alloc_stale(p);
            }
        }
    }

    /// Maximal coalescing: a well-formed arena with no outstanding
    /// allocation is exactly the freshly created one — the root free and
    /// whole, every other node off the books, one free block of the top
    /// order on the counters and nothing else.
    pub proof fn lemma_quiescent_is_fresh(&self)
        requires
            self.wf(),
            forall|j: int| 0 <= j < self.n_nodes() ==> !self.is_allocated(j),
        ensures
            self.is_fresh(),
    {
        let m = self.max_order as nat;
        lemma_pow2_pos(m);
        self.lemma_no_alloc_live_is_free(0);
        assert(self.data@[0] == (Data { free: true, split: false, initialized: true }));
        assert forall|i: int| 1 <= i < self.n_nodes() implies #[trigger] self.data@[i] == (Data {
            free: false,
            split: false,
            initialized: false,
        }) by {
            self.lemma_no_alloc_stale(i);
        }
        assert(count_free_range(self.data@, 0, 0) == 0);
        assert(count_free_range(self.data@, 0, 1) == 1);
        assert(pow2(0) == 1) by {
            lemma2_to64();
        }
        assert(count_free_at_level(self.data@, (m - self.max_order) as nat) == 1);
        assert(self.num_free_at_order@[self.max_order as int] == 1);
        assert forall|o: int| 0 <= o < self.max_order implies #[trigger] self.num_free_at_order@[o]
            == 0 by {
            let l = (m - o) as nat;
            lemma_pow2_le(l, m);
            lemma_pow2_le(1, l);
            lemma_pow2_unfold(m + 1);
            lemma2_to64();
            lemma_count_none(self.data@, pow2(l) - 1, 2 * pow2(l) - 1);
        }
    }

    /// A node none of whose descendants (itself included) is handed out
    /// is a whole free block: were it split, a pair of free buddies
    /// would have to exist somewhere below it.
    proof fn lemma_subtree_no_alloc_is_free(&self, i: int)
        requires
            self.wf_shape(),
            self.wf_flags(),
            self.wf_buddies(),
            0 <= i < self.n_nodes(),
            self.data@[i].initialized,
            forall|j: int| 0 <= j < self.n_nodes() && in_subtree(i, j) ==> !self.is_allocated(j),
        ensures
            self.data@[i].free,
            !self.data@[i].split,
        decreases self.node_order(i),
    {
        lemma_level_le_max(self.max_order as nat, i);
        if self.data@[i].split {
            let left = 2 * i + 1;
            let right = 2 * i + 2;
            lemma_level_of_children(i);
            lemma_level_le_max(self.max_order as nat, right);
            assert(in_subtree(i, i));
            assert(in_subtree(i, left)) by {
                assert(parent_of(left) == i);
            }
            assert(in_subtree(i, right)) by {
                assert(parent_of(right) == i);
            }
            assert forall|j: int|
                0 <= j < self.n_nodes() && in_subtree(left, j) implies !self.is_allocated(j) by {
                lemma_in_subtree_trans(i, left, j);
            }
            assert forall|j: int|
                0 <= j < self.n_nodes() && in_subtree(right, j) implies !self.is_allocated(j) by {
                lemma_in_subtree_trans(i, right, j);
            }
            self.lemma_subtree_no_alloc_is_free(left);
            self.lemma_subtree_no_alloc_is_free(right);
        }
        assert(in_subtree(i, i));
        assert(!self.is_allocated(i));
    }

    /// A block that is a whole free leaf in one snapshot is not split in
    /// any snapshot with the same allocated blocks.
    proof fn lemma_leaf_stays_leaf(a: &Self, b: &Self, i: int)
        requires
            a.wf_shape(),
            a.wf_flags(),
            a.wf_buddies(),
            b.wf_shape(),
            b.wf_flags(),
            b.wf_buddies(),
            a.max_order == b.max_order,
            forall|j: int| 0 <= j < a.n_nodes() ==> (a.is_allocated(j) <==> b.is_allocated(j)),
            0 <= i < a.n_nodes(),
            b.data@[i].initialized,
            !b.data@[i].split,
        ensures
            !a.data@[i].split,
    {
        if a.data@[i].split {
            assert forall|j: int|
                0 <= j < a.n_nodes() && in_subtree(i, j) implies !a.is_allocated(j) by {
                if j != i {
                    if b.data@[j].initialized {
                        b.lemma_live_ancestors_split(i, j);
                    }
                    assert(!b.is_allocated(j));
                }
            }
            a.lemma_subtree_no_alloc_is_free(i);
        }
    }

    /// Node by node, two snapshots of the same shape with the same
    /// allocated blocks carry the same flags.
    proof fn lemma_node_determined(a: &Self, b: &Self, i: int)
        requires
            a.wf_shape(),
            a.wf_flags(),
            a.wf_buddies(),
            b.wf_shape(),
            b.wf_flags(),
            b.wf_buddies(),
            a.max_order == b.max_order,
            forall|j: int| 0 <= j < a.n_nodes() ==> (a.is_allocated(j) <==> b.is_allocated(j)),
            0 <= i < a.n_nodes(),
        ensures
            a.data@[i] == b.data@[i],
        decreases i,
    {
        if i > 0 {
            Self::lemma_node_determined(a, b, parent_of(i));
            assert(0 <= parent_of(i) < i);
        }
        assert(a.data@[i].initialized == b.data@[i].initialized);
        if a.data@[i].initialized {
            if !a.is_allocated(i) && !b.is_allocated(i) {
                if !b.data@[i].split {
                    Self::lemma_leaf_stays_leaf(a, b, i);
                }
                if !a.data@[i].split {
                    Self::lemma_leaf_stays_leaf(b, a, i);
                }
            }
        }
        assert(a.data@[i].split == b.data@[i].split);
        assert(a.data@[i].free == b.data@[i].free);
    }

    /// Round-trip: the bookkeeping is fully determined by what is
    /// allocated. Two well-formed arenas of the same shape whose
    /// allocated blocks coincide have identical trees and identical free
    /// counters — so deallocating the block a successful allocation
    /// returned, which takes exactly that block out of the allocated set
    /// again, restores every node flag and every counter exactly.
    pub proof fn lemma_tree_determined_by_allocations(a: &Self, b: &Self)
        requires
            a.wf(),
            b.wf(),
            a.max_order == b.max_order,
            forall|j: int| 0 <= j < a.n_nodes() ==> (a.is_allocated(j) <==> b.is_allocated(j)),
        ensures
            a.data@ == b.data@,
            a.num_free_at_order@ == b.num_free_at_order@,
    {
        assert forall|i: int| 0 <= i < a.n_nodes() implies a.data@[i] == b.data@[i] by {
            Self::lemma_node_determined(a, b, i);
        }
        assert(a.data@ =~= b.data@);
        assert forall|o: int|
            0 <= o < a.num_free_at_order@.len() implies a.num_free_at_order@[o]
            == b.num_free_at_order@[o] by {
            assert(a.num_free_at_order@[o] == count_free_at_level(
                a.data@,
                (a.max_order - o) as nat,
            ));
            assert(b.num_free_at_order@[o] == count_free_at_level(
                b.data@,
                (b.max_order - o) as nat,
            ));
        }
        assert(a.num_free_at_order@ =~= b.num_free_at_order@);
    }

    /// No overlap: the byte ranges of any two distinct allocated blocks
    /// are disjoint, so the regions successful allocations hand out never
    /// overlap while both stay allocated.
    pub proof fn lemma_allocated_blocks_disjoint(&self, i: int, j: int)
        requires
            self.wf(),
            0 <= i < self.n_nodes(),
            0 <= j < self.n_nodes(),
            i != j,
            self.is_allocated(i),
            self.is_allocated(j),
        ensures
            self.node_offset(i) + self.node_size(i) <= self.node_offset(j) || self.node_offset(j)
                + self.node_size(j) <= self.node_offset(i),
    {
        self.lemma_allocated_disjoint_core(i, j);
    }
}

} // verus!

