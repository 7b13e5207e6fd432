//! What holds of the free-list allocator over single requests and over
//! whole runs of requests.

use vstd::prelude::*;
use vstd::arithmetic::power2::is_pow2;
use super::{is_aligned, lemma_align_up_is_least_multiple};
use super::list::{
    adjusted_align, adjusted_size, first_fit, lemma_first_fit_is_first, lemma_size_align_bounds,
    lemma_with_block_wf, lemma_without_first_fit_wf, size_align_spec, Block, FreeListState,
    MIN_NODE_SIZE, NODE_ALIGN,
};

verus! {

/// The chosen block holds the adjusted request: it is a free block of the
/// list, and the adjusted size fits between its start and its end.
pub proof fn lemma_chosen_block_holds_request(s: FreeListState, size: int, align: int)
    requires
        0 <= size,
        is_pow2(align),
    ensures
        s.chosen_block(size, align) matches Some(block) ==> {
            &&& size_align_spec(size, align) is Some
            &&& first_fit(s.blocks, adjusted_size(size, align), adjusted_align(size, align))
                matches Some(i)
            &&& 0 <= i < s.blocks.len()
            &&& s.blocks[i] == block
            &&& block.alloc_start(adjusted_size(size, align), adjusted_align(size, align)) is Some
            &&& size <= adjusted_size(size, align) <= block.size
        },
{
    lemma_size_align_bounds(size, align);
    if let Some((sz, al)) = size_align_spec(size, align) {
        lemma_first_fit_is_first(s.blocks, sz, al);
        if let Some(i) = first_fit(s.blocks, sz, al) {
            lemma_align_up_is_least_multiple(s.blocks[i].start, al);
        }
    }
}

/// A power of two up to eight is one, two, four or eight.
proof fn lemma_small_pow2(align: int)
    requires
        is_pow2(align),
        align <= 8,
    ensures
        align == 1 || align == 2 || align == 4 || align == 8,
{
    reveal_with_fuel(is_pow2, 5);
}

/// A multiple of eight is a multiple of every power of two up to eight.
proof fn lemma_node_aligned_is_small_aligned(x: int, align: int)
    requires
        x % 8 == 0,
        is_pow2(align),
        align <= 8,
    ensures
        x % align == 0,
{
    lemma_small_pow2(align);
    if align == 1 {
        assert(x % 1 == 0);
    } else if align == 2 {
        assert(x % 2 == 0);
    } else if align == 4 {
        assert(x % 4 == 0);
    }
}

/// With an alignment of at most `NODE_ALIGN` every request splits cleanly,
/// and the address it returns is a multiple of the alignment asked for.
pub proof fn lemma_small_align_splits_cleanly(s: FreeListState, size: int, align: int)
    requires
        s.wf(),
        0 <= size,
        is_pow2(align),
        align <= NODE_ALIGN,
    ensures
        s.splits_cleanly(size, align),
        s.alloc_result(size, align) matches Some(start) ==> is_aligned(start, align),
{
    lemma_chosen_block_holds_request(s, size, align);
    if let Some(block) = s.chosen_block(size, align) {
        assert(block.can_hold_node());
        lemma_node_aligned_is_small_aligned(block.start, align);
    }
}

/// A request keeps the state well formed and the heap bounds as they were.
/// The block it returns starts at a multiple of `NODE_ALIGN`, lies within the
/// heap and overlaps no block that is free afterwards: it can be freed with
/// the same request.
pub proof fn lemma_alloc_preserves_wf(s: FreeListState, size: int, align: int)
    requires
        s.wf(),
        0 <= size,
        is_pow2(align),
        s.splits_cleanly(size, align),
    ensures
        s.after_alloc(size, align).wf(),
        s.after_alloc(size, align).heap_start == s.heap_start,
        s.after_alloc(size, align).heap_end == s.heap_end,
        s.alloc_result(size, align) matches Some(start) ==> s.after_alloc(size, align).can_dealloc(
            start,
            size,
            align,
        ),
{
    lemma_chosen_block_holds_request(s, size, align);
    lemma_size_align_bounds(size, align);
    if let Some(block) = s.chosen_block(size, align) {
        let sz = adjusted_size(size, align);
        let al = adjusted_align(size, align);
        let rest = s.without_first_fit(sz, al);
        let after = s.after_alloc(size, align);
        let taken = Block { start: block.start, size: sz };
        lemma_without_first_fit_wf(s, sz, al);
        if sz < block.size {
            let tail = Block { start: block.start + sz, size: block.size - sz };
            assert(rest.can_add(tail)) by {
                assert forall|j: int| 0 <= j < rest.blocks.len() implies (#[trigger] rest.blocks[j]).disjoint_from(
                    tail,
                ) by {
                    assert(rest.blocks[j].disjoint_from(block));
                }
            }
            lemma_with_block_wf(rest, tail);
            assert forall|j: int| 0 <= j < after.blocks.len() implies (#[trigger] after.blocks[j]).disjoint_from(
                taken,
            ) by {
                if j > 0 {
                    assert(after.blocks[j] == rest.blocks[j - 1]);
                    assert(rest.blocks[j - 1].disjoint_from(block));
                }
            }
        } else {
            assert forall|j: int| 0 <= j < after.blocks.len() implies (#[trigger] after.blocks[j]).disjoint_from(
                taken,
            ) by {
                assert(rest.blocks[j].disjoint_from(block));
            }
        }
    }
}

/// Freeing a block that may join the list keeps the state well formed and
/// the heap bounds as they were.
pub proof fn lemma_dealloc_preserves_wf(s: FreeListState, ptr: int, size: int, align: int)
    requires
        s.wf(),
        s.can_dealloc(ptr, size, align),
    ensures
        s.after_dealloc(ptr, size, align).wf(),
        s.after_dealloc(ptr, size, align).heap_start == s.heap_start,
        s.after_dealloc(ptr, size, align).heap_end == s.heap_end,
{
    lemma_with_block_wf(s, FreeListState::freed_block(ptr, size, align));
}

/// A request that fails leaves the state as it was, so the request that
/// follows is answered as if the failed one had never been made.
pub proof fn lemma_failed_alloc_changes_nothing(
    s: FreeListState,
    size: int,
    align: int,
    next_size: int,
    next_align: int,
)
    requires
        s.alloc_result(size, align) is None,
    ensures
        s.after_alloc(size, align) == s,
        s.after_alloc(size, align).alloc_result(next_size, next_align) == s.alloc_result(
            next_size,
            next_align,
        ),
        s.after_alloc(size, align).after_alloc(next_size, next_align) == s.after_alloc(
            next_size,
            next_align,
        ),
{
}

/// Where the chosen block is larger than the adjusted size, the request
/// leaves exactly its unused tail in front of the list, and behind it the
/// other blocks in their order. Where it is not larger, only the other
/// blocks stay.
pub proof fn lemma_split_leaves_tail(s: FreeListState, size: int, align: int)
    requires
        0 <= size,
        is_pow2(align),
        s.chosen_block(size, align) is Some,
    ensures
        ({
            let block = s.chosen_block(size, align)->0;
            let taken = adjusted_size(size, align);
            let others = s.without_first_fit(taken, adjusted_align(size, align)).blocks;
            let after = s.after_alloc(size, align).blocks;
            if taken < block.size {
                &&& after.len() == others.len() + 1
                &&& after[0].start == block.start + taken
                &&& after[0].end() == block.end()
                &&& after.skip(1) == others
            } else {
                after == others
            }
        }),
{
    lemma_chosen_block_holds_request(s, size, align);
    let block = s.chosen_block(size, align)->0;
    let taken = adjusted_size(size, align);
    let others = s.without_first_fit(taken, adjusted_align(size, align)).blocks;
    let after = s.after_alloc(size, align).blocks;
    if taken < block.size {
        assert(after.skip(1) =~= others);
    }
}

/// Allocate, free, allocate again: where the first request returned an
/// address that is a multiple of its adjusted alignment, and the block is
/// freed with the same request, the same request made again returns the same
/// address and leaves the list as the first request left it.
pub proof fn lemma_alloc_dealloc_alloc_returns_same_address(
    s: FreeListState,
    size: int,
    align: int,
)
    requires
        s.wf(),
        0 <= size,
        is_pow2(align),
        s.splits_cleanly(size, align),
        s.alloc_result(size, align) is Some,
        is_aligned(s.alloc_result(size, align)->0, adjusted_align(size, align)),
    ensures
        ({
            let ptr = s.alloc_result(size, align)->0;
            let allocated = s.after_alloc(size, align);
            let freed = allocated.after_dealloc(ptr, size, align);
            &&& allocated.can_dealloc(ptr, size, align)
            &&& freed.wf()
            &&& freed.splits_cleanly(size, align)
            &&& freed.alloc_result(size, align) == Some(ptr)
            &&& freed.after_alloc(size, align) == allocated
        }),
{
    let ptr = s.alloc_result(size, align)->0;
    let allocated = s.after_alloc(size, align);
    let freed = allocated.after_dealloc(ptr, size, align);
    let sz = adjusted_size(size, align);
    let al = adjusted_align(size, align);
    lemma_alloc_preserves_wf(s, size, align);
    lemma_dealloc_preserves_wf(allocated, ptr, size, align);
    lemma_size_align_bounds(size, align);
    let block = Block { start: ptr, size: sz };
    assert(freed.blocks[0] == block);
    assert(block.alloc_start(sz, al) == Some(ptr));
    assert(first_fit(freed.blocks, sz, al) == Some(0int));
    assert(freed.blocks.remove(0) =~= allocated.blocks);
}

/// The bytes in the blocks, all together.
pub open spec fn total_size(blocks: Seq<Block>) -> int
    decreases blocks.len(),
{
    if blocks.len() == 0 {
        0
    } else {
        blocks[0].size + total_size(blocks.skip(1))
    }
}

/// A block put in front adds its size to the total.
pub proof fn lemma_total_size_with_front(block: Block, blocks: Seq<Block>)
    ensures
        total_size(seq![block] + blocks) == block.size + total_size(blocks),
{
    assert((seq![block] + blocks).skip(1) =~= blocks);
}

/// A block taken out takes its size off the total.
pub proof fn lemma_total_size_without(blocks: Seq<Block>, i: int)
    requires
        0 <= i < blocks.len(),
    ensures
        total_size(blocks.remove(i)) == total_size(blocks) - blocks[i].size,
    decreases blocks.len(),
{
    if i == 0 {
        assert(blocks.remove(0) =~= blocks.skip(1));
    } else {
        lemma_total_size_without(blocks.skip(1), i - 1);
        assert(blocks.remove(i).skip(1) =~= blocks.skip(1).remove(i - 1));
    }
}

/// One call in a run of calls.
pub enum Step {
    /// A request for `size` bytes aligned to `align`.
    Alloc { size: int, align: int },
    /// The block at `ptr` comes back, with the request it was allocated with.
    Dealloc { ptr: int, size: int, align: int },
}

impl FreeListState {
    /// The bytes in the free blocks, all together.
    pub open spec fn free_bytes(self) -> int {
        total_size(self.blocks)
    }

    /// The call may be made in this state: its request has a size that is
    /// not negative and a power of two as alignment, and the state meets
    /// what the call asks of it.
    pub open spec fn allows(self, step: Step) -> bool {
        match step {
            Step::Alloc { size, align } => 0 <= size && is_pow2(align) && self.splits_cleanly(
                size,
                align,
            ),
            Step::Dealloc { ptr, size, align } => 0 <= size && is_pow2(align) && self.can_dealloc(
                ptr,
                size,
                align,
            ),
        }
    }

    /// The state after the call.
    pub open spec fn after_step(self, step: Step) -> FreeListState {
        match step {
            Step::Alloc { size, align } => self.after_alloc(size, align),
            Step::Dealloc { ptr, size, align } => self.after_dealloc(ptr, size, align),
        }
    }

    /// The bytes that the call takes from the free list: the adjusted size of
    /// a request that is granted, and nothing otherwise.
    pub open spec fn granted(self, step: Step) -> int {
        match step {
            Step::Alloc { size, align } => if self.alloc_result(size, align) is Some {
                adjusted_size(size, align)
            } else {
                0
            },
            Step::Dealloc { .. } => 0,
        }
    }

    /// The bytes that the call gives to the free list: the adjusted size of a
    /// block that comes back, and nothing otherwise.
    pub open spec fn released(self, step: Step) -> int {
        match step {
            Step::Alloc { .. } => 0,
            Step::Dealloc { ptr, size, align } => adjusted_size(size, align),
        }
    }

    /// The state after the calls were made one after another.
    pub open spec fn after_steps(self, steps: Seq<Step>) -> FreeListState
        decreases steps.len(),
    {
        if steps.len() == 0 {
            self
        } else {
            self.after_steps(steps.drop_last()).after_step(steps.last())
        }
    }

    /// Each of the calls may be made in the state that the calls before it
    /// have left.
    pub open spec fn allows_all(self, steps: Seq<Step>) -> bool
        decreases steps.len(),
    {
        if steps.len() == 0 {
            true
        } else {
            self.allows_all(steps.drop_last()) && self.after_steps(steps.drop_last()).allows(
                steps.last(),
            )
        }
    }

    /// The bytes that the calls took from the free list, all together.
    pub open spec fn granted_in(self, steps: Seq<Step>) -> int
        decreases steps.len(),
    {
        if steps.len() == 0 {
            0
        } else {
            self.granted_in(steps.drop_last()) + self.after_steps(steps.drop_last()).granted(
                steps.last(),
            )
        }
    }

    /// The bytes that the calls gave to the free list, all together.
    pub open spec fn released_in(self, steps: Seq<Step>) -> int
        decreases steps.len(),
    {
        if steps.len() == 0 {
            0
        } else {
            self.released_in(steps.drop_last()) + self.after_steps(steps.drop_last()).released(
                steps.last(),
            )
        }
    }
}

/// A request that is granted takes exactly its adjusted size from the free
/// bytes; one that fails takes nothing.
pub proof fn lemma_alloc_takes_adjusted_size(s: FreeListState, size: int, align: int)
    requires
        0 <= size,
        is_pow2(align),
    ensures
        s.after_alloc(size, align).free_bytes() == s.free_bytes() - s.granted(
            Step::Alloc { size, align },
        ),
{
    lemma_chosen_block_holds_request(s, size, align);
    if let Some(block) = s.chosen_block(size, align) {
        let sz = adjusted_size(size, align);
        let al = adjusted_align(size, align);
        let i = first_fit(s.blocks, sz, al)->0;
        let rest = s.blocks.remove(i);
        lemma_total_size_without(s.blocks, i);
        if sz < block.size {
            lemma_total_size_with_front(
                Block { start: block.start + sz, size: block.size - sz },
                rest,
            );
        }
    }
}

/// A block that comes back adds exactly its adjusted size to the free bytes.
pub proof fn lemma_dealloc_gives_adjusted_size(s: FreeListState, ptr: int, size: int, align: int)
    ensures
        s.after_dealloc(ptr, size, align).free_bytes() == s.free_bytes() + adjusted_size(
            size,
            align,
        ),
{
    lemma_total_size_with_front(FreeListState::freed_block(ptr, size, align), s.blocks);
}

/// Whatever calls are made, each allowed where it is made: the state stays
/// well formed, so no free block is ever shorter than `MIN_NODE_SIZE`, none
/// leaves the heap, and no two overlap; and the heap bounds stay as they were.
pub proof fn lemma_steps_preserve_wf(s: FreeListState, steps: Seq<Step>)
    requires
        s.wf(),
        s.allows_all(steps),
    ensures
        s.after_steps(steps).wf(),
        s.after_steps(steps).heap_start == s.heap_start,
        s.after_steps(steps).heap_end == s.heap_end,
    decreases steps.len(),
{
    if steps.len() > 0 {
        lemma_steps_preserve_wf(s, steps.drop_last());
        let before = s.after_steps(steps.drop_last());
        match steps.last() {
            Step::Alloc { size, align } => {
                lemma_alloc_preserves_wf(before, size, align);
            },
            Step::Dealloc { ptr, size, align } => {
                lemma_dealloc_preserves_wf(before, ptr, size, align);
            },
        }
    }
}

/// Over a run of calls the free bytes change by what was given to the list
/// less what was taken from it.
pub proof fn lemma_steps_account_for_bytes(s: FreeListState, steps: Seq<Step>)
    requires
        s.allows_all(steps),
    ensures
        s.after_steps(steps).free_bytes() == s.free_bytes() - s.granted_in(steps) + s.released_in(
            steps,
        ),
    decreases steps.len(),
{
    if steps.len() > 0 {
        lemma_steps_account_for_bytes(s, steps.drop_last());
        let before = s.after_steps(steps.drop_last());
        match steps.last() {
            Step::Alloc { size, align } => {
                lemma_alloc_takes_adjusted_size(before, size, align);
            },
            Step::Dealloc { ptr, size, align } => {
                lemma_dealloc_gives_adjusted_size(before, ptr, size, align);
            },
        }
    }
}

/// The index of a block that ends last.
spec fn last_ending(blocks: Seq<Block>) -> int
    decreases blocks.len(),
{
    if blocks.len() <= 1 {
        0
    } else {
        let k = last_ending(blocks.drop_last());
        if blocks.last().end() > blocks[k].end() {
            blocks.len() - 1
        } else {
            k
        }
    }
}

/// No block ends behind the one that `last_ending` names.
proof fn lemma_last_ending(blocks: Seq<Block>)
    requires
        blocks.len() > 0,
    ensures
        0 <= last_ending(blocks) < blocks.len(),
        forall|j: int|
            0 <= j < blocks.len() ==> (#[trigger] blocks[j]).end() <= blocks[last_ending(
                blocks,
            )].end(),
    decreases blocks.len(),
{
    if blocks.len() > 1 {
        let front = blocks.drop_last();
        lemma_last_ending(front);
        assert forall|j: int| 0 <= j < blocks.len() implies (#[trigger] blocks[j]).end()
            <= blocks[last_ending(blocks)].end() by {
            if j < front.len() {
                assert(blocks[j] == front[j]);
            }
        }
    }
}

/// Blocks that do not overlap and lie between `lo` and `hi` hold no more
/// bytes than there are between `lo` and `hi`.
proof fn lemma_disjoint_blocks_fit(blocks: Seq<Block>, lo: int, hi: int)
    requires
        lo <= hi,
        forall|i: int|
            0 <= i < blocks.len() ==> {
                &&& 0 < (#[trigger] blocks[i]).size
                &&& lo <= blocks[i].start
                &&& blocks[i].end() <= hi
            },
        forall|i: int, j: int|
            0 <= i < j < blocks.len() ==> (#[trigger] blocks[i]).disjoint_from(#[trigger] blocks[j]),
    ensures
        0 <= total_size(blocks) <= hi - lo,
    decreases blocks.len(),
{
    if blocks.len() > 0 {
        lemma_last_ending(blocks);
        let k = last_ending(blocks);
        let last = blocks[k];
        let rest = blocks.remove(k);
        assert forall|j: int| 0 <= j < rest.len() implies {
            &&& 0 < (#[trigger] rest[j]).size
            &&& lo <= rest[j].start
            &&& rest[j].end() <= last.start
        } by {
            let j0 = if j < k {
                j
            } else {
                j + 1
            };
            assert(rest[j] == blocks[j0]);
            assert(blocks[j0].end() <= last.end());
            if j0 < k {
                assert(blocks[j0].disjoint_from(blocks[k]));
            } else {
                assert(blocks[k].disjoint_from(blocks[j0]));
            }
        }
        assert forall|i: int, j: int| 0 <= i < j < rest.len() implies (#[trigger] rest[i]).disjoint_from(
            #[trigger] rest[j],
        ) by {
            let i0 = if i < k {
                i
            } else {
                i + 1
            };
            let j0 = if j < k {
                j
            } else {
                j + 1
            };
            assert(rest[i] == blocks[i0]);
            assert(rest[j] == blocks[j0]);
            assert(blocks[i0].disjoint_from(blocks[j0]));
        }
        lemma_disjoint_blocks_fit(rest, lo, last.start);
        lemma_total_size_without(blocks, k);
    }
}

/// The free bytes of a well-formed state never exceed the heap's capacity.
pub proof fn lemma_free_bytes_within_heap(s: FreeListState)
    requires
        s.wf(),
    ensures
        0 <= s.free_bytes() <= s.heap_end - s.heap_start,
{
    assert forall|i: int| 0 <= i < s.blocks.len() implies {
        &&& 0 < (#[trigger] s.blocks[i]).size
        &&& s.heap_start <= s.blocks[i].start
        &&& s.blocks[i].end() <= s.heap_end
    } by {
        assert(s.blocks[i].can_hold_node());
    }
    lemma_disjoint_blocks_fit(s.blocks, s.heap_start, s.heap_end);
}

/// Whatever calls are made, each allowed where it is made: the bytes taken
/// from the free list and not given back never exceed the bytes that were
/// free at the start, nor the heap's capacity.
pub proof fn lemma_grants_within_capacity(s: FreeListState, steps: Seq<Step>)
    requires
        s.wf(),
        s.allows_all(steps),
    ensures
        s.granted_in(steps) - s.released_in(steps) <= s.free_bytes() <= s.heap_end - s.heap_start,
        s.granted_in(steps) - s.released_in(steps) == s.free_bytes() - s.after_steps(
            steps,
        ).free_bytes(),
{
    lemma_steps_preserve_wf(s, steps);
    lemma_steps_account_for_bytes(s, steps);
    lemma_free_bytes_within_heap(s);
    lemma_free_bytes_within_heap(s.after_steps(steps));
}

} // verus!
