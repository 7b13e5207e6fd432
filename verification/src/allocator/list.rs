//! A free-list allocator: the unused parts of the heap are kept as a list of
//! blocks, the block freed last in front. A request takes the first block
//! that can hold it and gives the unused tail back to the list. Neighbouring
//! free blocks are never merged.

use vstd::prelude::*;
use vstd::arithmetic::power2::is_pow2;
use super::{align_up_spec, checked_align_up, is_aligned, lemma_align_up_is_least_multiple};
use super::layout::Layout;
use super::list_laws::lemma_alloc_preserves_wf;

verus! {

/// The least size of a free block: the room that the bookkeeping of one
/// block takes, two machine words of eight bytes.
pub const MIN_NODE_SIZE: usize = 16;

/// The alignment of every free block: that of a machine word of eight bytes.
pub const NODE_ALIGN: usize = 8;

/// A free block as plain numbers: the bytes `[start, start + size)`.
pub struct Block {
    /// First address of the block.
    pub start: int,
    /// Length of the block in bytes.
    pub size: int,
}

impl Block {
    /// First address past the block.
    pub open spec fn end(self) -> int {
        self.start + self.size
    }

    /// The block can carry its own bookkeeping: it starts at a multiple of
    /// `NODE_ALIGN` and has at least `MIN_NODE_SIZE` bytes.
    pub open spec fn can_hold_node(self) -> bool {
        &&& 0 <= self.start
        &&& is_aligned(self.start, NODE_ALIGN as int)
        &&& MIN_NODE_SIZE <= self.size
    }

    /// The two blocks share no byte.
    pub open spec fn disjoint_from(self, other: Block) -> bool {
        self.end() <= other.start || other.end() <= self.start
    }

    /// Where `size` bytes aligned to `align` would start in this block: at
    /// its start rounded up to `align`, provided that the bytes end within
    /// the block and that what is left behind them is nothing or enough for
    /// a free block of its own.
    pub open spec fn alloc_start(self, size: int, align: int) -> Option<int> {
        let start = align_up_spec(self.start, align);
        let excess = self.end() - (start + size);
        if excess == 0 || excess >= MIN_NODE_SIZE {
            Some(start)
        } else {
            None
        }
    }
}

/// The size and alignment that are in fact taken for a request: the
/// alignment raised to `NODE_ALIGN`, the size padded to that alignment and
/// raised to `MIN_NODE_SIZE`, so that the block can join the free list when
/// it comes back. `None` if the padded size would exceed `isize::MAX`.
pub open spec fn size_align_spec(size: int, align: int) -> Option<(int, int)> {
    let align = if align > NODE_ALIGN {
        align
    } else {
        NODE_ALIGN as int
    };
    let padded = align_up_spec(size, align);
    if padded > isize::MAX {
        None
    } else if padded > MIN_NODE_SIZE {
        Some((padded, align))
    } else {
        Some((MIN_NODE_SIZE as int, align))
    }
}

/// The size that is in fact taken for a request, where there is one.
pub open spec fn adjusted_size(size: int, align: int) -> int {
    match size_align_spec(size, align) {
        Some((size, _)) => size,
        None => 0,
    }
}

/// The alignment that is in fact taken for a request, where there is one.
pub open spec fn adjusted_align(size: int, align: int) -> int {
    match size_align_spec(size, align) {
        Some((_, align)) => align,
        None => 0,
    }
}

/// A power of two that is at least eight is a multiple of eight.
proof fn lemma_pow2_multiple_of_node_align(n: int)
    requires
        is_pow2(n),
        n >= NODE_ALIGN,
    ensures
        n % (NODE_ALIGN as int) == 0,
{
    reveal_with_fuel(is_pow2, 4);
}

/// A multiple of a multiple of eight is a multiple of eight.
proof fn lemma_aligned_to_node_align(x: int, align: int)
    requires
        align > 0,
        align % (NODE_ALIGN as int) == 0,
        x % align == 0,
    ensures
        x % (NODE_ALIGN as int) == 0,
{
    let k = x / align;
    let j = align / 8;
    assert(x == align * k) by {
        vstd::arithmetic::div_mod::lemma_fundamental_div_mod(x, align);
    }
    assert(x == (j * k) * 8) by (nonlinear_arith)
        requires
            x == align * k,
            align == 8 * j,
    ;
    vstd::arithmetic::div_mod::lemma_mod_multiples_basic(j * k, 8);
}

/// The size and alignment taken for a valid request: the size is a multiple
/// of eight and at least `MIN_NODE_SIZE`, the alignment a power of two and at
/// least `NODE_ALIGN`, and neither is below what was asked for.
pub proof fn lemma_size_align_bounds(size: int, align: int)
    requires
        0 <= size,
        is_pow2(align),
    ensures
        size_align_spec(size, align) matches Some((s, a)) ==> {
            &&& size <= s <= isize::MAX
            &&& MIN_NODE_SIZE <= s
            &&& is_aligned(s, NODE_ALIGN as int)
            &&& align <= a
            &&& NODE_ALIGN <= a
            &&& is_pow2(a)
            &&& a == align || a == NODE_ALIGN
        },
{
    let a = if align > NODE_ALIGN {
        align
    } else {
        NODE_ALIGN as int
    };
    assert(is_pow2(8)) by {
        reveal_with_fuel(is_pow2, 4);
    }
    lemma_pow2_multiple_of_node_align(a);
    lemma_align_up_is_least_multiple(size, a);
    lemma_aligned_to_node_align(align_up_spec(size, a), a);
}

/// One free block of the list.
#[derive(Clone, Copy, Debug, PartialEq, Eq, Structural)]
pub struct ListNode {
    start: usize,
    size: usize,
}

impl View for ListNode {
    type V = Block;

    closed spec fn view(&self) -> Block {
        Block { start: self.start as int, size: self.size as int }
    }
}

impl ListNode {
    /// The end of the block is an address.
    #[verifier::type_invariant]
    pub open spec fn wf(self) -> bool {
        0 <= self@.start && 0 <= self@.size && self@.end() <= usize::MAX
    }

    /// The block of `size` bytes at `start`.
    pub fn new(start: usize, size: usize) -> (r: Self)
        requires
            start + size <= usize::MAX,
        ensures
            r@ == (Block { start: start as int, size: size as int }),
    {
        ListNode { start, size }
    }

    /// First address of the block.
    pub fn start_addr(&self) -> (r: usize)
        ensures
            r == self@.start,
    {
        self.start
    }

    /// Length of the block in bytes.
    pub fn size(&self) -> (r: usize)
        ensures
            r == self@.size,
    {
        self.size
    }

    /// First address past the block.
    pub fn end_addr(&self) -> (r: usize)
        ensures
            r == self@.end(),
    {
        proof {
            use_type_invariant(self);
        }
        self.start + self.size
    }
}

/// The index of the first block that can hold `size` bytes aligned to
/// `align`, if there is one.
pub open spec fn first_fit(blocks: Seq<Block>, size: int, align: int) -> Option<int>
    decreases blocks.len(),
{
    if blocks.len() == 0 {
        None
    } else if blocks[0].alloc_start(size, align) is Some {
        Some(0)
    } else {
        match first_fit(blocks.skip(1), size, align) {
            Some(i) => Some(i + 1),
            None => None,
        }
    }
}

/// `first_fit` names a block that fits and has no fitting block in front of
/// it, and names none only where no block fits.
pub proof fn lemma_first_fit_is_first(blocks: Seq<Block>, size: int, align: int)
    ensures
        match first_fit(blocks, size, align) {
            Some(i) => {
                &&& 0 <= i < blocks.len()
                &&& blocks[i].alloc_start(size, align) is Some
                &&& forall|j: int| 0 <= j < i ==> (#[trigger] blocks[j]).alloc_start(size, align) is None
            },
            None => forall|j: int|
                0 <= j < blocks.len() ==> (#[trigger] blocks[j]).alloc_start(size, align) is None,
        },
    decreases blocks.len(),
{
    if blocks.len() > 0 && blocks[0].alloc_start(size, align) is None {
        let rest = blocks.skip(1);
        lemma_first_fit_is_first(rest, size, align);
        match first_fit(rest, size, align) {
            Some(i) => {
                assert forall|j: int| 0 <= j < i + 1 implies (#[trigger] blocks[j]).alloc_start(
                    size,
                    align,
                ) is None by {
                    if j > 0 {
                        assert(blocks[j] == rest[j - 1]);
                    }
                }
            },
            None => {
                assert forall|j: int| 0 <= j < blocks.len() implies (#[trigger] blocks[j]).alloc_start(
                    size,
                    align,
                ) is None by {
                    if j > 0 {
                        assert(blocks[j] == rest[j - 1]);
                    }
                }
            },
        }
    }
}

/// What a free-list allocator holds, as plain values.
pub struct FreeListState {
    /// The free blocks, the one that is tried first in front.
    pub blocks: Seq<Block>,
    /// First address of the heap.
    pub heap_start: int,
    /// First address past the heap.
    pub heap_end: int,
}

impl FreeListState {
    /// Every free block can carry its bookkeeping and lies within the heap,
    /// and no two free blocks overlap.
    pub open spec fn wf(self) -> bool {
        &&& 0 <= self.heap_start <= self.heap_end
        &&& forall|i: int|
            0 <= i < self.blocks.len() ==> {
                &&& (#[trigger] self.blocks[i]).can_hold_node()
                &&& self.heap_start <= self.blocks[i].start
                &&& self.blocks[i].end() <= self.heap_end
            }
        &&& forall|i: int, j: int|
            0 <= i < j < self.blocks.len() ==> (#[trigger] self.blocks[i]).disjoint_from(
                #[trigger] self.blocks[j],
            )
    }

    /// No heap was handed to the allocator yet.
    pub open spec fn is_uninitialized(self) -> bool {
        self.blocks.len() == 0 && self.heap_start == 0 && self.heap_end == 0
    }

    /// `block` lies within the heap, can carry its bookkeeping and overlaps
    /// no free block: it may join the free list.
    pub open spec fn can_add(self, block: Block) -> bool {
        &&& block.can_hold_node()
        &&& self.heap_start <= block.start
        &&& block.end() <= self.heap_end
        &&& forall|i: int|
            0 <= i < self.blocks.len() ==> (#[trigger] self.blocks[i]).disjoint_from(block)
    }

    /// The state with `block` in front of the free list.
    pub open spec fn with_block(self, block: Block) -> FreeListState {
        FreeListState { blocks: seq![block] + self.blocks, ..self }
    }

    /// The state without the first block that can hold `size` bytes aligned
    /// to `align`; unchanged if no block can.
    pub open spec fn without_first_fit(self, size: int, align: int) -> FreeListState {
        match first_fit(self.blocks, size, align) {
            Some(i) => FreeListState { blocks: self.blocks.remove(i), ..self },
            None => self,
        }
    }

    /// The block that a request of `size` bytes aligned to `align` is cut
    /// from: the first that can hold the adjusted request.
    pub open spec fn chosen_block(self, size: int, align: int) -> Option<Block> {
        match size_align_spec(size, align) {
            Some((size, align)) => match first_fit(self.blocks, size, align) {
                Some(i) => Some(self.blocks[i]),
                None => None,
            },
            None => None,
        }
    }

    /// What a request of `size` bytes aligned to `align` returns: the start
    /// of the chosen block, or `None` where the adjusted size is out of range
    /// or no block can hold the adjusted request.
    pub open spec fn alloc_result(self, size: int, align: int) -> Option<int> {
        match self.chosen_block(size, align) {
            Some(block) => Some(block.start),
            None => None,
        }
    }

    /// The tail of the chosen block behind the adjusted size is empty or can
    /// be a free block of its own.
    pub open spec fn splits_cleanly(self, size: int, align: int) -> bool {
        match self.chosen_block(size, align) {
            Some(block) => {
                let rest = block.size - adjusted_size(size, align);
                rest == 0 || rest >= MIN_NODE_SIZE
            },
            None => true,
        }
    }

    /// The state after a request of `size` bytes aligned to `align`: the
    /// chosen block has left the list, and its tail behind the adjusted size,
    /// if it is not empty, stands in front of the list. Unchanged if the
    /// request fails.
    pub open spec fn after_alloc(self, size: int, align: int) -> FreeListState {
        match size_align_spec(size, align) {
            Some((size, align)) => match first_fit(self.blocks, size, align) {
                Some(i) => {
                    let block = self.blocks[i];
                    let rest = self.without_first_fit(size, align);
                    if size < block.size {
                        rest.with_block(Block { start: block.start + size, size: block.size - size })
                    } else {
                        rest
                    }
                },
                None => self,
            },
            None => self,
        }
    }

    /// The block that comes back when `ptr` is freed with the request of
    /// `size` bytes aligned to `align` that it was allocated with.
    pub open spec fn freed_block(ptr: int, size: int, align: int) -> Block {
        Block { start: ptr, size: adjusted_size(size, align) }
    }

    /// `ptr` with its request names a block that may join the free list.
    pub open spec fn can_dealloc(self, ptr: int, size: int, align: int) -> bool {
        &&& size_align_spec(size, align) is Some
        &&& self.can_add(Self::freed_block(ptr, size, align))
    }

    /// The state after `ptr` was freed: its block stands in front of the list.
    pub open spec fn after_dealloc(self, ptr: int, size: int, align: int) -> FreeListState {
        self.with_block(Self::freed_block(ptr, size, align))
    }
}

/// Adding a block that may join the list keeps the state well formed.
pub proof fn lemma_with_block_wf(s: FreeListState, block: Block)
    requires
        s.wf(),
        s.can_add(block),
    ensures
        s.with_block(block).wf(),
{
    let t = s.with_block(block);
    assert forall|i: int| 0 <= i < t.blocks.len() implies {
        &&& (#[trigger] t.blocks[i]).can_hold_node()
        &&& s.heap_start <= t.blocks[i].start
        &&& t.blocks[i].end() <= s.heap_end
    } by {
        if i > 0 {
            assert(t.blocks[i] == s.blocks[i - 1]);
        }
    }
    assert forall|i: int, j: int| 0 <= i < j < t.blocks.len() implies (#[trigger] t.blocks[i]).disjoint_from(
        #[trigger] t.blocks[j],
    ) by {
        assert(t.blocks[j] == s.blocks[j - 1]);
        if i > 0 {
            assert(t.blocks[i] == s.blocks[i - 1]);
        }
    }
}

/// Taking the first fitting block out keeps the state well formed, and the
/// block taken out overlaps none that stays.
pub proof fn lemma_without_first_fit_wf(s: FreeListState, size: int, align: int)
    requires
        s.wf(),
    ensures
        s.without_first_fit(size, align).wf(),
        first_fit(s.blocks, size, align) matches Some(i) ==> {
            &&& 0 <= i < s.blocks.len()
            &&& forall|j: int|
                0 <= j < s.without_first_fit(size, align).blocks.len() ==> (
                #[trigger] s.without_first_fit(size, align).blocks[j]).disjoint_from(s.blocks[i])
        },
{
    lemma_first_fit_is_first(s.blocks, size, align);
    match first_fit(s.blocks, size, align) {
        Some(i) => {
            let t = s.without_first_fit(size, align);
            assert forall|j: int| 0 <= j < t.blocks.len() implies {
                &&& (#[trigger] t.blocks[j]).can_hold_node()
                &&& s.heap_start <= t.blocks[j].start
                &&& t.blocks[j].end() <= s.heap_end
                &&& t.blocks[j].disjoint_from(s.blocks[i])
            } by {
                let k = if j < i {
                    j
                } else {
                    j + 1
                };
                assert(t.blocks[j] == s.blocks[k]);
                if k < i {
                    assert(s.blocks[k].disjoint_from(s.blocks[i]));
                } else {
                    assert(s.blocks[i].disjoint_from(s.blocks[k]));
                }
            }
            assert forall|j: int, k: int| 0 <= j < k < t.blocks.len() implies (#[trigger] t.blocks[j]).disjoint_from(
                #[trigger] t.blocks[k],
            ) by {
                let j0 = if j < i {
                    j
                } else {
                    j + 1
                };
                let k0 = if k < i {
                    k
                } else {
                    k + 1
                };
                assert(t.blocks[j] == s.blocks[j0]);
                assert(t.blocks[k] == s.blocks[k0]);
                assert(s.blocks[j0].disjoint_from(s.blocks[k0]));
            }
        },
        None => {},
    }
}

/// The heap bounds and the free blocks of a free-list allocator, as
/// `dump_free_list` reports them.
pub struct FreeListReport {
    pub heap_start: usize,
    pub heap_end: usize,
    /// The free blocks in the order in which requests try them.
    pub blocks: Vec<ListNode>,
}

/// The blocks of a list of nodes.
pub open spec fn blocks_of(nodes: Seq<ListNode>) -> Seq<Block> {
    nodes.map_values(|n: ListNode| n@)
}

/// Serves requests from a list of free blocks, first fit.
pub struct LinkedListAllocator {
    blocks: Vec<ListNode>,
    heap_start: usize,
    heap_end: usize,
}

impl View for LinkedListAllocator {
    type V = FreeListState;

    closed spec fn view(&self) -> FreeListState {
        FreeListState {
            blocks: blocks_of(self.blocks@),
            heap_start: self.heap_start as int,
            heap_end: self.heap_end as int,
        }
    }
}

impl LinkedListAllocator {
    /// An allocator without a heap: every request fails.
    pub fn new() -> (r: Self)
        ensures
            r@.wf(),
            r@.is_uninitialized(),
    {
        LinkedListAllocator { blocks: Vec::new(), heap_start: 0, heap_end: 0 }
    }

    /// Takes over the heap `[heap_start, heap_start + heap_size)` as one free
    /// block. The caller sees to it that nothing else uses that memory, and
    /// calls this once.
    pub fn init(&mut self, heap_start: usize, heap_size: usize)
        requires
            old(self)@.is_uninitialized(),
            heap_start + heap_size <= usize::MAX,
            is_aligned(heap_start as int, NODE_ALIGN as int),
            heap_size >= MIN_NODE_SIZE,
        ensures
            final(self)@ == (FreeListState {
                blocks: seq![Block { start: heap_start as int, size: heap_size as int }],
                heap_start: heap_start as int,
                heap_end: heap_start + heap_size,
            }),
            final(self)@.wf(),
    {
        self.heap_start = heap_start;
        self.heap_end = heap_start + heap_size;
        self.add_free_block(heap_start, heap_size);
        assert(self@.blocks =~= seq![Block { start: heap_start as int, size: heap_size as int }]);
    }

    /// Puts the block of `size` bytes at `addr` in front of the free list.
    fn add_free_block(&mut self, addr: usize, size: usize)
        requires
            old(self)@.wf(),
            old(self)@.can_add(Block { start: addr as int, size: size as int }),
        ensures
            final(self)@ == old(self)@.with_block(Block { start: addr as int, size: size as int }),
            final(self)@.wf(),
    {
        let node = ListNode::new(addr, size);
        self.blocks.insert(0, node);
        proof {
            assert(self@.blocks =~= old(self)@.with_block(node@).blocks);
            lemma_with_block_wf(old(self)@, node@);
        }
    }

    /// The index of the first free block that can hold `size` bytes aligned
    /// to `align`.
    fn first_fit_index(&self, size: usize, align: usize) -> (r: Option<usize>)
        requires
            align > 0,
        ensures
            match r {
                Some(i) => first_fit(self@.blocks, size as int, align as int) == Some(i as int) && i
                    < self@.blocks.len(),
                None => first_fit(self@.blocks, size as int, align as int) is None,
            },
    {
        let mut i: usize = 0;
        while i < self.blocks.len()
            invariant
                align > 0,
                i <= self.blocks.len(),
                forall|j: int|
                    0 <= j < i ==> (#[trigger] self@.blocks[j]).alloc_start(size as int, align as int)
                        is None,
            decreases self.blocks.len() - i,
        {
            if Self::check_block_for_alloc(&self.blocks[i], size, align).is_ok() {
                proof {
                    assert(self@.blocks[i as int].alloc_start(size as int, align as int) is Some);
                    lemma_first_fit_is_first(self@.blocks, size as int, align as int);
                }
                return Some(i);
            }
            assert(self@.blocks[i as int].alloc_start(size as int, align as int) is None);
            i += 1;
        }
        proof {
            lemma_first_fit_is_first(self@.blocks, size as int, align as int);
        }
        None
    }

    /// Takes the first free block that can hold `size` bytes aligned to
    /// `align` out of the list and returns it, or returns `None` and leaves
    /// the list as it is if no block can.
    pub fn find_free_block(&mut self, size: usize, align: usize) -> (r: Option<ListNode>)
        requires
            old(self)@.wf(),
            align > 0,
        ensures
            final(self)@ == old(self)@.without_first_fit(size as int, align as int),
            match first_fit(old(self)@.blocks, size as int, align as int) {
                Some(i) => r matches Some(node) && node@ == old(self)@.blocks[i],
                None => r is None,
            },
            final(self)@.wf(),
    {
        proof {
            lemma_without_first_fit_wf(self@, size as int, align as int);
        }
        match self.first_fit_index(size, align) {
            Some(i) => {
                let node = self.blocks.remove(i);
                proof {
                    assert(node@ == old(self)@.blocks[i as int]);
                    assert(self@.blocks =~= old(self)@.blocks.remove(i as int));
                }
                Some(node)
            },
            None => None,
        }
    }

    /// Tells where `size` bytes aligned to `align` would start in `block`:
    /// at its start rounded up to `align`. It is an error if the bytes would
    /// end past the block, or would leave a tail that is too short for a free
    /// block of its own.
    pub fn check_block_for_alloc(block: &ListNode, size: usize, align: usize) -> (r: Result<
        usize,
        (),
    >)
        requires
            align > 0,
        ensures
            match block@.alloc_start(size as int, align as int) {
                Some(start) => r == Ok::<usize, ()>(start as usize) && start <= usize::MAX,
                None => r is Err,
            },
    {
        proof {
            lemma_align_up_is_least_multiple(block@.start, align as int);
        }
        let block_end = block.end_addr();
        let alloc_start: usize = match checked_align_up(block.start_addr(), align) {
            Some(start) => start,
            None => {
                return Err(());
            },
        };
        let alloc_end: usize = match alloc_start.checked_add(size) {
            Some(end) => end,
            None => {
                return Err(());
            },
        };
        if alloc_end > block_end {
            return Err(());
        }
        let excess_size: usize = block_end - alloc_end;
        if excess_size > 0 && excess_size < MIN_NODE_SIZE {
            return Err(());
        }
        Ok(alloc_start)
    }

    /// The heap bounds and the free blocks, the block that is tried first in
    /// front.
    pub fn dump_free_list(&self) -> (r: FreeListReport)
        ensures
            r.heap_start == self@.heap_start,
            r.heap_end == self@.heap_end,
            blocks_of(r.blocks@) == self@.blocks,
    {
        let mut blocks: Vec<ListNode> = Vec::new();
        let mut i: usize = 0;
        while i < self.blocks.len()
            invariant
                i <= self.blocks.len(),
                blocks@ == self.blocks@.take(i as int),
            decreases self.blocks.len() - i,
        {
            blocks.push(self.blocks[i]);
            assert(blocks@ =~= self.blocks@.take(i + 1));
            i += 1;
        }
        assert(blocks@ =~= self.blocks@);
        FreeListReport { heap_start: self.heap_start, heap_end: self.heap_end, blocks }
    }

    /// The size and alignment that are taken for `layout`, so that the block
    /// can join the free list when it comes back: the alignment raised to
    /// `NODE_ALIGN`, the size padded to that alignment and raised to
    /// `MIN_NODE_SIZE`. `None` if the padded size would exceed `isize::MAX`.
    pub fn size_align(layout: Layout) -> (r: Option<(usize, usize)>)
        ensures
            match size_align_spec(layout.size() as int, layout.align() as int) {
                Some((size, align)) => r == Some((size as usize, align as usize)) && size
                    <= usize::MAX && 0 < align <= usize::MAX,
                None => r is None,
            },
    {
        proof {
            use_type_invariant(&layout);
            lemma_size_align_bounds(layout.size() as int, layout.align() as int);
        }
        let align: usize = if layout.align() > NODE_ALIGN {
            layout.align()
        } else {
            NODE_ALIGN
        };
        let padded: usize = match checked_align_up(layout.size(), align) {
            Some(padded) => padded,
            None => {
                return None;
            },
        };
        if padded > isize::MAX as usize {
            None
        } else if padded > MIN_NODE_SIZE {
            Some((padded, align))
        } else {
            Some((MIN_NODE_SIZE, align))
        }
    }
}

impl LinkedListAllocator {
    /// Serves a request: takes the first free block that can hold the
    /// adjusted size at the adjusted alignment out of the list, puts its tail
    /// behind the adjusted size, if there is one, in front of the list, and
    /// returns the start of the block. Returns `None` and changes nothing if
    /// the adjusted size is out of range or no block can hold the request.
    pub fn allocate(&mut self, layout: Layout) -> (r: Option<usize>)
        requires
            old(self)@.wf(),
            old(self)@.splits_cleanly(layout.size() as int, layout.align() as int),
        ensures
            final(self)@ == old(self)@.after_alloc(layout.size() as int, layout.align() as int),
            match old(self)@.alloc_result(layout.size() as int, layout.align() as int) {
                Some(start) => r == Some(start as usize) && start <= usize::MAX,
                None => r is None,
            },
            final(self)@.wf(),
            r matches Some(ptr) ==> final(self)@.can_dealloc(
                ptr as int,
                layout.size() as int,
                layout.align() as int,
            ),
    {
        proof {
            use_type_invariant(&layout);
            lemma_alloc_preserves_wf(self@, layout.size() as int, layout.align() as int);
        }
        let (size, align) = match Self::size_align(layout) {
            Some(adjusted) => adjusted,
            None => {
                return None;
            },
        };
        proof {
            use_type_invariant(&layout);
            lemma_size_align_bounds(layout.size() as int, layout.align() as int);
            lemma_first_fit_is_first(self@.blocks, size as int, align as int);
            lemma_without_first_fit_wf(self@, size as int, align as int);
        }
        match self.find_free_block(size, align) {
            Some(block) => {
                proof {
                    lemma_align_up_is_least_multiple(block@.start, align as int);
                }
                let alloc_end: usize = block.start_addr() + size;
                let remaining_block_size: usize = block.end_addr() - alloc_end;
                if remaining_block_size > 0 {
                    self.add_free_block(alloc_end, remaining_block_size);
                }
                Some(block.start_addr())
            },
            None => None,
        }
    }

    /// Takes the block at `ptr` back: puts it, with the adjusted size of
    /// `layout`, in front of the free list. `layout` is the one that `ptr`
    /// was allocated with.
    pub fn dealloc(&mut self, ptr: usize, layout: Layout)
        requires
            old(self)@.wf(),
            old(self)@.can_dealloc(ptr as int, layout.size() as int, layout.align() as int),
        ensures
            final(self)@ == old(self)@.after_dealloc(
                ptr as int,
                layout.size() as int,
                layout.align() as int,
            ),
            final(self)@.wf(),
    {
        match Self::size_align(layout) {
            Some((size, _)) => {
                self.add_free_block(ptr, size);
            },
            None => {},
        }
    }

    /// Tells whether `allocate` may be called with `layout`: whether the
    /// block that it would take leaves a tail that is empty or can be a free
    /// block of its own.
    pub fn splits_cleanly(&self, layout: Layout) -> (b: bool)
        ensures
            b == self@.splits_cleanly(layout.size() as int, layout.align() as int),
    {
        let (size, align) = match Self::size_align(layout) {
            Some(adjusted) => adjusted,
            None => {
                return true;
            },
        };
        match self.first_fit_index(size, align) {
            Some(i) => {
                proof {
                    lemma_first_fit_is_first(self@.blocks, size as int, align as int);
                    lemma_align_up_is_least_multiple(self@.blocks[i as int].start, align as int);
                }
                let rest: usize = self.blocks[i].size() - size;
                rest == 0 || rest >= MIN_NODE_SIZE
            },
            None => true,
        }
    }

    /// Tells whether `dealloc` may be called with `ptr` and `layout`: whether
    /// the block that they name starts at a multiple of `NODE_ALIGN`, lies
    /// within the heap and overlaps no free block.
    pub fn can_dealloc(&self, ptr: usize, layout: Layout) -> (b: bool)
        ensures
            b == self@.can_dealloc(ptr as int, layout.size() as int, layout.align() as int),
    {
        proof {
            use_type_invariant(&layout);
            lemma_size_align_bounds(layout.size() as int, layout.align() as int);
        }
        let size: usize = match Self::size_align(layout) {
            Some((size, _)) => size,
            None => {
                return false;
            },
        };
        if ptr % NODE_ALIGN != 0 || ptr < self.heap_start {
            return false;
        }
        let end: usize = match ptr.checked_add(size) {
            Some(end) => end,
            None => {
                return false;
            },
        };
        if end > self.heap_end {
            return false;
        }
        let ghost block = Block { start: ptr as int, size: size as int };
        let mut i: usize = 0;
        while i < self.blocks.len()
            invariant
                i <= self.blocks.len(),
                block == FreeListState::freed_block(
                    ptr as int,
                    layout.size() as int,
                    layout.align() as int,
                ),
                block == (Block { start: ptr as int, size: size as int }),
                end == ptr + size,
                forall|j: int| 0 <= j < i ==> (#[trigger] self@.blocks[j]).disjoint_from(block),
            decreases self.blocks.len() - i,
        {
            let node = &self.blocks[i];
            if !(node.end_addr() <= ptr || end <= node.start_addr()) {
                assert(!self@.blocks[i as int].disjoint_from(block));
                return false;
            }
            assert(self@.blocks[i as int].disjoint_from(block));
            i += 1;
        }
        true
    }
}

} // verus!
