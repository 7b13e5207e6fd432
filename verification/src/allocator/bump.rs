//! A bump allocator: a cursor that only moves forward through the heap.
//! Single blocks are never reclaimed.

use vstd::prelude::*;
use vstd::arithmetic::power2::is_pow2;
use super::{align_up_spec, checked_align_up, lemma_align_up_is_least_multiple};
use super::layout::Layout;

verus! {

/// What a bump allocator holds, as plain numbers.
pub struct BumpState {
    /// First address of the heap.
    pub heap_start: int,
    /// First address past the heap.
    pub heap_end: int,
    /// The cursor: everything below it is handed out, everything from it on is unused.
    pub next: int,
    /// How many requests were granted so far.
    pub allocations: int,
}

impl BumpState {
    /// The cursor lies within the heap.
    pub open spec fn wf(self) -> bool {
        &&& 0 <= self.heap_start <= self.next <= self.heap_end
        &&& 0 <= self.allocations
    }

    /// No heap was handed to the allocator yet.
    pub open spec fn is_uninitialized(self) -> bool {
        self.heap_start == 0 && self.heap_end == 0 && self.next == 0
    }

    /// The bytes that are still unused.
    pub open spec fn remaining(self) -> int {
        self.heap_end - self.next
    }

    /// Where a request of `size` bytes aligned to `align` is placed: at the
    /// cursor rounded up to `align`, if the block then ends within the heap.
    pub open spec fn placement(self, size: int, align: int) -> Option<int> {
        let start = align_up_spec(self.next, align);
        if start + size <= self.heap_end {
            Some(start)
        } else {
            None
        }
    }

    /// The state after a request: the cursor behind the granted block and one
    /// more allocation counted, or nothing changed if the request does not fit.
    pub open spec fn after_alloc(self, size: int, align: int) -> BumpState {
        match self.placement(size, align) {
            Some(start) => BumpState {
                next: start + size,
                allocations: self.allocations + 1,
                ..self
            },
            None => self,
        }
    }

    /// The bytes that a request takes from the heap: the padding in front of
    /// the block and the block itself, or nothing if the request does not fit.
    pub open spec fn granted(self, size: int, align: int) -> int {
        match self.placement(size, align) {
            Some(start) => start - self.next + size,
            None => 0,
        }
    }
}

/// The cursor and counters of a bump allocator, as `dump_free_list` reports them.
#[derive(Clone, Copy, Debug, PartialEq, Eq, Structural)]
pub struct BumpReport {
    pub heap_start: usize,
    pub heap_end: usize,
    pub next: usize,
    pub allocations: usize,
}

/// Hands out consecutive blocks of one heap region.
pub struct BumpAllocator {
    heap_start: usize,
    heap_end: usize,
    next: usize,
    allocations: usize,
}

impl View for BumpAllocator {
    type V = BumpState;

    closed spec fn view(&self) -> BumpState {
        BumpState {
            heap_start: self.heap_start as int,
            heap_end: self.heap_end as int,
            next: self.next as int,
            allocations: self.allocations as int,
        }
    }
}

impl BumpAllocator {
    /// An allocator without a heap: every request for at least one byte fails.
    pub fn new() -> (r: Self)
        ensures
            r@.wf(),
            r@.is_uninitialized(),
            r@.allocations == 0,
    {
        BumpAllocator { heap_start: 0, heap_end: 0, next: 0, allocations: 0 }
    }

    /// Takes over the heap `[heap_start, heap_start + heap_size)`. The caller
    /// sees to it that nothing else uses that memory, and calls this once.
    pub fn init(&mut self, heap_start: usize, heap_size: usize)
        requires
            old(self)@.is_uninitialized(),
            heap_start + heap_size <= usize::MAX,
        ensures
            final(self)@ == (BumpState {
                heap_start: heap_start as int,
                heap_end: heap_start + heap_size,
                next: heap_start as int,
                allocations: old(self)@.allocations,
            }),
            final(self)@.wf(),
    {
        self.heap_start = heap_start;
        self.heap_end = heap_start + heap_size;
        self.next = heap_start;
    }

    /// The heap bounds, the cursor and the number of granted requests.
    pub fn dump_free_list(&self) -> (r: BumpReport)
        ensures
            r.heap_start == self@.heap_start,
            r.heap_end == self@.heap_end,
            r.next == self@.next,
            r.allocations == self@.allocations,
    {
        BumpReport {
            heap_start: self.heap_start,
            heap_end: self.heap_end,
            next: self.next,
            allocations: self.allocations,
        }
    }

    /// Grants `layout.size()` bytes at the cursor rounded up to
    /// `layout.align()`, or returns `None` and changes nothing if the block
    /// would end past the heap.
    pub fn allocate(&mut self, layout: Layout) -> (r: Option<usize>)
        requires
            old(self)@.wf(),
            old(self)@.allocations < usize::MAX,
        ensures
            final(self)@ == old(self)@.after_alloc(layout.size() as int, layout.align() as int),
            match old(self)@.placement(layout.size() as int, layout.align() as int) {
                Some(start) => r == Some(start as usize) && start <= usize::MAX,
                None => r is None,
            },
            final(self)@.wf(),
    {
        proof {
            use_type_invariant(&layout);
            reveal(is_pow2);
            lemma_align_up_is_least_multiple(self.next as int, layout.align() as int);
        }
        let alloc_start: usize = match checked_align_up(self.next, layout.align()) {
            Some(start) => start,
            None => {
                return None;
            },
        };
        let alloc_end: usize = match alloc_start.checked_add(layout.size()) {
            Some(end) => end,
            None => {
                return None;
            },
        };
        if alloc_end > self.heap_end {
            None
        } else {
            self.next = alloc_end;
            self.allocations += 1;
            Some(alloc_start)
        }
    }

    /// Does nothing: a bump allocator never takes a block back.
    pub fn dealloc(&mut self, _ptr: usize, _layout: Layout)
        ensures
            final(self)@ == old(self)@,
    {
    }
}

/// One request in a run of requests.
pub struct Request {
    /// Bytes asked for.
    pub size: int,
    /// Alignment asked for.
    pub align: int,
}

impl Request {
    /// The size is not negative and the alignment is positive.
    pub open spec fn wf(self) -> bool {
        0 <= self.size && 0 < self.align
    }
}

impl BumpState {
    /// The state after the requests were made one after another.
    pub open spec fn after_all(self, requests: Seq<Request>) -> BumpState
        decreases requests.len(),
    {
        if requests.len() == 0 {
            self
        } else {
            self.after_all(requests.drop_last()).after_alloc(
                requests.last().size,
                requests.last().align,
            )
        }
    }

    /// The bytes that the requests took from the heap, padding included.
    pub open spec fn granted_by(self, requests: Seq<Request>) -> int
        decreases requests.len(),
    {
        if requests.len() == 0 {
            0
        } else {
            self.granted_by(requests.drop_last()) + self.after_all(requests.drop_last()).granted(
                requests.last().size,
                requests.last().align,
            )
        }
    }

    /// How many of the requests were granted.
    pub open spec fn successes_in(self, requests: Seq<Request>) -> int
        decreases requests.len(),
    {
        if requests.len() == 0 {
            0
        } else {
            self.successes_in(requests.drop_last()) + if self.after_all(
                requests.drop_last(),
            ).placement(requests.last().size, requests.last().align) is Some {
                1int
            } else {
                0int
            }
        }
    }
}

/// A granted block lies within the heap, at or behind the cursor, and the
/// cursor ends up right behind it; the state stays well formed either way.
pub proof fn lemma_alloc_stays_within_heap(s: BumpState, size: int, align: int)
    requires
        s.wf(),
        0 <= size,
        0 < align,
    ensures
        s.after_alloc(size, align).wf(),
        s.after_alloc(size, align).heap_start == s.heap_start,
        s.after_alloc(size, align).heap_end == s.heap_end,
        s.after_alloc(size, align).next == s.next + s.granted(size, align),
        s.placement(size, align) matches Some(start) ==> s.next <= start && start + size
            == s.after_alloc(size, align).next,
{
    lemma_align_up_is_least_multiple(s.next, align);
}

/// Whatever requests are made, the cursor never leaves the heap, and the
/// bytes granted in all, padding included, are exactly the distance the cursor
/// moved: never more than the heap's capacity.
pub proof fn lemma_grants_within_capacity(s: BumpState, requests: Seq<Request>)
    requires
        s.wf(),
        forall|i: int| 0 <= i < requests.len() ==> (#[trigger] requests[i]).wf(),
    ensures
        s.after_all(requests).wf(),
        s.after_all(requests).heap_start == s.heap_start,
        s.after_all(requests).heap_end == s.heap_end,
        s.granted_by(requests) == s.after_all(requests).next - s.next,
        0 <= s.granted_by(requests) <= s.remaining() <= s.heap_end - s.heap_start,
    decreases requests.len(),
{
    if requests.len() > 0 {
        lemma_grants_within_capacity(s, requests.drop_last());
        let last = requests.last();
        lemma_alloc_stays_within_heap(s.after_all(requests.drop_last()), last.size, last.align);
    }
}

/// The counter grows by one with every granted request and with nothing
/// else: after the requests it has grown by the number of those granted.
pub proof fn lemma_allocations_count_successes(s: BumpState, requests: Seq<Request>)
    ensures
        s.after_all(requests).allocations == s.allocations + s.successes_in(requests),
    decreases requests.len(),
{
    if requests.len() > 0 {
        lemma_allocations_count_successes(s, requests.drop_last());
    }
}

/// Two requests granted one after the other, the first for at least one
/// byte: the second block starts behind the end of the first.
pub proof fn lemma_successive_addresses_increase(
    s: BumpState,
    first: Request,
    second: Request,
)
    requires
        s.wf(),
        first.wf(),
        second.wf(),
        first.size > 0,
        s.placement(first.size, first.align) is Some,
        s.after_alloc(first.size, first.align).placement(second.size, second.align) is Some,
    ensures
        ({
            let a = s.placement(first.size, first.align)->0;
            let b = s.after_alloc(first.size, first.align).placement(second.size, second.align)->0;
            a < a + first.size <= b
        }),
{
    lemma_align_up_is_least_multiple(s.next, first.align);
    lemma_align_up_is_least_multiple(s.after_alloc(first.size, first.align).next, second.align);
}

/// A request that does not fit leaves the state as it was, so the request
/// that follows is answered as if the failed one had never been made.
pub proof fn lemma_failed_alloc_changes_nothing(s: BumpState, failed: Request, next: Request)
    requires
        s.placement(failed.size, failed.align) is None,
    ensures
        s.after_alloc(failed.size, failed.align) == s,
        s.after_alloc(failed.size, failed.align).placement(next.size, next.align) == s.placement(
            next.size,
            next.align,
        ),
        s.after_alloc(failed.size, failed.align).after_alloc(next.size, next.align)
            == s.after_alloc(next.size, next.align),
{
}

} // verus!
