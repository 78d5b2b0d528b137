use vstd::prelude::*;
use vstd::arithmetic::div_mod::{lemma_div_is_ordered, lemma_fundamental_div_mod_converse};

verus! {

/// Size in bytes of one physical frame.
pub const PAGE_SIZE: u64 = 4096;

/// Every frame that lies in a region is below this number: a region ends
/// before address 2^65, so its frames are below 2^65 / 4096.
pub const FRAME_LIMIT: u64 = 0x20_0000_0000_0000;

/// One 4 KiB physical frame, named by its index (address / 4096).
#[derive(Clone, Copy, Debug, PartialEq, Eq, PartialOrd, Ord, Structural)]
pub struct Frame {
    pub number: u64,
}

impl Frame {
    /// The frame whose address range holds `address`.
    pub fn containing_address(address: u64) -> (r: Frame)
        ensures
            r.number == address / 4096,
    {
        Frame { number: address / PAGE_SIZE }
    }

    /// The address of the frame's first byte.
    pub fn start_address(&self) -> (r: u64)
        requires
            self.number <= u64::MAX / 4096,
        ensures
            r == self.number * 4096,
    {
        self.number * PAGE_SIZE
    }
}

/// A span of usable physical memory as firmware reports it.
#[derive(Clone, Copy, Debug, PartialEq, Eq, Structural)]
pub struct MemoryRegion {
    pub base_addr: u64,
    pub length: u64,
}

/// The first frame that a region touches.
pub open spec fn region_start_frame(r: MemoryRegion) -> int {
    r.base_addr as int / 4096
}

/// The first address past the region.
pub open spec fn region_end(r: MemoryRegion) -> int {
    r.base_addr as int + r.length as int
}

/// The region's end lies past the start of frame `n`.
pub open spec fn reaches_frame(r: MemoryRegion, n: int) -> bool {
    n * 4096 < region_end(r)
}

/// Frame `n` lies in region `r`.
pub open spec fn in_region(r: MemoryRegion, n: int) -> bool {
    region_start_frame(r) <= n && reaches_frame(r, n)
}

/// Frame `n` lies in one of the regions.
pub open spec fn in_some_region(areas: Seq<MemoryRegion>, n: int) -> bool {
    exists|i: int| 0 <= i < areas.len() && #[trigger] in_region(areas[i], n)
}

/// Frame `n` lies in the inclusive span of frames `start ..= end`.
pub open spec fn in_span(start: int, end: int, n: int) -> bool {
    start <= n <= end
}

/// Abstract state of a frame allocator: the next candidate frame, the
/// regions, and the reserved spans of the kernel image and the boot
/// information, as inclusive frame numbers.
pub struct AllocatorState {
    pub next_frame: nat,
    pub areas: Seq<MemoryRegion>,
    pub kernel_start: nat,
    pub kernel_end: nat,
    pub multiboot_start: nat,
    pub multiboot_end: nat,
}

/// Frame `n` lies in some region and in neither reserved span.
pub open spec fn is_free(a: AllocatorState, n: int) -> bool {
    &&& in_some_region(a.areas, n)
    &&& !in_span(a.kernel_start as int, a.kernel_end as int, n)
    &&& !in_span(a.multiboot_start as int, a.multiboot_end as int, n)
}

/// No free frame is left at or after the next candidate.
pub open spec fn exhausted(a: AllocatorState) -> bool {
    forall|n: int| n >= a.next_frame ==> !#[trigger] is_free(a, n)
}

/// The two states share their regions and reserved spans.
pub open spec fn same_layout(a: AllocatorState, b: AllocatorState) -> bool {
    &&& a.areas == b.areas
    &&& a.kernel_start == b.kernel_start
    &&& a.kernel_end == b.kernel_end
    &&& a.multiboot_start == b.multiboot_start
    &&& a.multiboot_end == b.multiboot_end
}

/// One call of `allocate_frame` from `pre` to `post` with result `r`: it
/// hands out the lowest free frame at or after the next candidate and moves
/// past it, or, when there is none, hands out nothing.
pub open spec fn allocation_step(pre: AllocatorState, post: AllocatorState, r: Option<Frame>) -> bool {
    &&& same_layout(pre, post)
    &&& match r {
        Some(f) => {
            &&& pre.next_frame <= f.number
            &&& is_free(pre, f.number as int)
            &&& forall|n: int| pre.next_frame <= n < f.number ==> !#[trigger] is_free(pre, n)
            &&& post.next_frame == f.number + 1
        },
        None => {
            &&& exhausted(pre)
            &&& pre.next_frame <= post.next_frame
        },
    }
}

/// Hands out the free physical frames of a list of regions one at a time,
/// in increasing order, skipping the kernel image and the boot information.
pub struct AreaFrameAllocator {
    next_free_frame: Frame,
    current_area: Option<MemoryRegion>,
    areas: Vec<MemoryRegion>,
    kernel_start: Frame,
    kernel_end: Frame,
    multiboot_start: Frame,
    multiboot_end: Frame,
}

impl View for AreaFrameAllocator {
    type V = AllocatorState;

    closed spec fn view(&self) -> AllocatorState {
        AllocatorState {
            next_frame: self.next_free_frame.number as nat,
            areas: self.areas@,
            kernel_start: self.kernel_start.number as nat,
            kernel_end: self.kernel_end.number as nat,
            multiboot_start: self.multiboot_start.number as nat,
            multiboot_end: self.multiboot_end.number as nat,
        }
    }
}

/// Whether region `r` reaches past the start of frame `n`.
fn reaches(r: &MemoryRegion, n: u64) -> (b: bool)
    requires
        n <= FRAME_LIMIT,
    ensures
        b == reaches_frame(*r, n as int),
{
    (n as u128) * 4096 < (r.base_addr as u128) + (r.length as u128)
}

impl AreaFrameAllocator {
    /// The current region is one of the list and starts at or before the
    /// next candidate; without one, no free frame is left.
    pub closed spec fn wf(&self) -> bool {
        &&& self.next_free_frame.number <= FRAME_LIMIT
        &&& self.kernel_end.number < FRAME_LIMIT
        &&& self.multiboot_end.number < FRAME_LIMIT
        &&& match self.current_area {
            Some(r) => {
                &&& self.areas@.contains(r)
                &&& region_start_frame(r) <= self.next_free_frame.number
            },
            None => exhausted(self@),
        }
    }

    /// An allocator over `memory_areas` that never hands out a frame that
    /// touches `kernel_start ..= kernel_end` or
    /// `multiboot_start ..= multiboot_end`; its first candidate is the start
    /// of the lowest region, and no free frame lies below it.
    pub fn new(
        kernel_start: u64,
        kernel_end: u64,
        multiboot_start: u64,
        multiboot_end: u64,
        memory_areas: Vec<MemoryRegion>,
    ) -> (a: AreaFrameAllocator)
        ensures
            a.wf(),
            a@.areas == memory_areas@,
            a@.kernel_start == kernel_start / 4096,
            a@.kernel_end == kernel_end / 4096,
            a@.multiboot_start == multiboot_start / 4096,
            a@.multiboot_end == multiboot_end / 4096,
            forall|n: int| 0 <= n < a@.next_frame ==> !#[trigger] is_free(a@, n),
    {
        let mut allocator = AreaFrameAllocator {
            next_free_frame: Frame::containing_address(0),
            current_area: None,
            areas: memory_areas,
            kernel_start: Frame::containing_address(kernel_start),
            kernel_end: Frame::containing_address(kernel_end),
            multiboot_start: Frame::containing_address(multiboot_start),
            multiboot_end: Frame::containing_address(multiboot_end),
        };
        allocator.choose_next_area();
        allocator
    }

    /// Hands out the lowest free frame at or after the next candidate and
    /// moves past it; once none is left, hands out nothing, now and on every
    /// later call.
    pub fn allocate_frame(&mut self) -> (r: Option<Frame>)
        requires
            old(self).wf(),
        ensures
            final(self).wf(),
            allocation_step(old(self)@, final(self)@, r),
            exhausted(old(self)@) ==> r is None,
            r is None ==> exhausted(final(self)@),
    {
        loop
            invariant
                self.wf(),
                same_layout(old(self)@, self@),
                old(self)@.next_frame <= self@.next_frame,
                forall|n: int|
                    old(self)@.next_frame <= n < self@.next_frame ==> !#[trigger] is_free(
                        old(self)@,
                        n,
                    ),
            decreases 2 * (FRAME_LIMIT - self.next_free_frame.number) + if self.past_current() {
                1int
            } else {
                0int
            },
        {
            match self.current_area {
                None => {
                    assert forall|n: int| n >= old(self)@.next_frame implies !#[trigger] is_free(
                        old(self)@,
                        n,
                    ) by {
                        if n >= self@.next_frame {
                            assert(!is_free(self@, n));
                        }
                    }
                    return None;
                },
                Some(area) => {
                    let frame = self.next_free_frame;
                    if !reaches(&area, frame.number) {
                        self.choose_next_area();
                    } else if frame.number >= self.kernel_start.number && frame.number
                        <= self.kernel_end.number {
                        self.next_free_frame = Frame { number: self.kernel_end.number + 1 };
                    } else if frame.number >= self.multiboot_start.number && frame.number
                        <= self.multiboot_end.number {
                        self.next_free_frame = Frame { number: self.multiboot_end.number + 1 };
                    } else {
                        proof {
                            let k = choose|k: int|
                                0 <= k < self.areas@.len() && self.areas@[k] == area;
                            assert(in_region(self.areas@[k], frame.number as int));
                            assert(is_free(old(self)@, frame.number as int));
                        }
                        self.next_free_frame = Frame { number: frame.number + 1 };
                        return Some(frame);
                    }
                },
            }
        }
    }

    /// Allocates until nothing is left and returns how many frames were
    /// handed out: the number of free frames at or after the next candidate.
    pub fn allocate_all(&mut self) -> (count: u64)
        requires
            old(self).wf(),
        ensures
            final(self).wf(),
            same_layout(old(self)@, final(self)@),
            exhausted(final(self)@),
            count == free_count(old(self)@, old(self)@.next_frame as int, FRAME_LIMIT as int),
    {
        let mut count: u64 = 0;
        proof {
            lemma_free_count_bound(old(self)@, old(self)@.next_frame as int, FRAME_LIMIT as int);
        }
        loop
            invariant
                self.wf(),
                same_layout(old(self)@, self@),
                old(self)@.next_frame <= self@.next_frame,
                count + free_count(old(self)@, self@.next_frame as int, FRAME_LIMIT as int)
                    == free_count(old(self)@, old(self)@.next_frame as int, FRAME_LIMIT as int),
                free_count(old(self)@, old(self)@.next_frame as int, FRAME_LIMIT as int)
                    <= FRAME_LIMIT,
            decreases FRAME_LIMIT - self.next_free_frame.number,
        {
            let ghost pre = self@;
            proof {
                lemma_same_layout_free(old(self)@, pre);
            }
            match self.allocate_frame() {
                None => {
                    proof {
                        lemma_free_count_skip(old(self)@, pre.next_frame as int, FRAME_LIMIT as int, FRAME_LIMIT as int);
                    }
                    return count;
                },
                Some(f) => {
                    proof {
                        lemma_free_below_limit(pre, f.number as int);
                        lemma_free_count_skip(old(self)@, pre.next_frame as int, f.number as int, FRAME_LIMIT as int);
                        assert(is_free(old(self)@, f.number as int));
                    }
                    count = count + 1;
                },
            }
        }
    }

    /// The current region's end lies at or before the next candidate.
    closed spec fn past_current(&self) -> bool {
        match self.current_area {
            Some(r) => !reaches_frame(r, self.next_free_frame.number as int),
            None => false,
        }
    }

    /// Makes the region with the lowest base among those that reach the next
    /// candidate the current one, and moves the candidate up to its start.
    fn choose_next_area(&mut self)
        requires
            old(self).next_free_frame.number <= FRAME_LIMIT,
            old(self).kernel_end.number < FRAME_LIMIT,
            old(self).multiboot_end.number < FRAME_LIMIT,
        ensures
            final(self).wf(),
            same_layout(old(self)@, final(self)@),
            old(self)@.next_frame <= final(self)@.next_frame,
            forall|n: int|
                old(self)@.next_frame <= n < final(self)@.next_frame ==> !#[trigger] in_some_region(
                    old(self)@.areas,
                    n,
                ),
            final(self).current_area is Some ==> !final(self).past_current()
                || old(self)@.next_frame < final(self)@.next_frame,
    {
        let n = self.next_free_frame.number;
        let mut best: Option<MemoryRegion> = None;
        let mut i: usize = 0;
        while i < self.areas.len()
            invariant
                n == self.next_free_frame.number,
                n <= FRAME_LIMIT,
                i <= self.areas@.len(),
                match best {
                    None => forall|j: int| 0 <= j < i ==> !reaches_frame(#[trigger] self.areas@[j], n as int),
                    Some(r) => {
                        &&& self.areas@.contains(r)
                        &&& reaches_frame(r, n as int)
                        &&& forall|j: int|
                            0 <= j < i && reaches_frame(#[trigger] self.areas@[j], n as int)
                                ==> r.base_addr <= self.areas@[j].base_addr
                    },
                },
            decreases self.areas@.len() - i,
        {
            let a = self.areas[i];
            if reaches(&a, n) {
                match best {
                    None => {
                        best = Some(a);
                    },
                    Some(b) => {
                        if a.base_addr < b.base_addr {
                            best = Some(a);
                        }
                    },
                }
            }
            i = i + 1;
        }
        self.current_area = best;
        match best {
            Some(r) => {
                let start = Frame::containing_address(r.base_addr);
                if n < start.number {
                    self.next_free_frame = start;
                }
                assert forall|m: int| n <= m < self.next_free_frame.number implies !#[trigger] in_some_region(
                    old(self)@.areas,
                    m,
                ) by {
                    if in_some_region(old(self)@.areas, m) {
                        let k = choose|k: int| 0 <= k < self.areas@.len() && #[trigger] in_region(self.areas@[k], m);
                        assert(reaches_frame(self.areas@[k], n as int));
                        assert(self.areas@[k].base_addr / 4096 >= r.base_addr / 4096) by (nonlinear_arith)
                            requires self.areas@[k].base_addr >= r.base_addr;
                    }
                }
            },
            None => {
                assert forall|m: int| m >= n implies !#[trigger] is_free(self@, m) by {
                    if in_some_region(self@.areas, m) {
                        let k = choose|k: int| 0 <= k < self.areas@.len() && #[trigger] in_region(self.areas@[k], m);
                        assert(reaches_frame(self.areas@[k], n as int));
                    }
                }
            },
        }
    }
}

} // verus!

verus! {

/// Number of free frames in `lo .. hi`.
pub open spec fn free_count(a: AllocatorState, lo: int, hi: int) -> nat
    decreases hi - lo,
{
    if lo >= hi {
        0
    } else {
        (if is_free(a, lo) {
            1nat
        } else {
            0nat
        }) + free_count(a, lo + 1, hi)
    }
}

/// States with the same layout agree on which frames are free.
proof fn lemma_same_layout_free(a: AllocatorState, b: AllocatorState)
    requires
        same_layout(a, b),
    ensures
        forall|n: int| #[trigger] is_free(a, n) == is_free(b, n),
{
}

/// Skipping a stretch without free frames leaves the count unchanged.
proof fn lemma_free_count_skip(a: AllocatorState, lo: int, mid: int, hi: int)
    requires
        lo <= mid <= hi,
        forall|n: int| lo <= n < mid ==> !#[trigger] is_free(a, n),
    ensures
        free_count(a, lo, hi) == free_count(a, mid, hi),
    decreases mid - lo,
{
    if lo < mid {
        lemma_free_count_skip(a, lo + 1, mid, hi);
    }
}

/// A count over `lo .. hi` is at most `hi - lo`.
proof fn lemma_free_count_bound(a: AllocatorState, lo: int, hi: int)
    requires
        lo <= hi,
    ensures
        free_count(a, lo, hi) <= hi - lo,
    decreases hi - lo,
{
    if lo < hi {
        lemma_free_count_bound(a, lo + 1, hi);
    }
}

/// A run of consecutive calls of `allocate_frame`: `results[i]` came from
/// the call that took `states[i]` to `states[i + 1]`.
pub open spec fn allocation_run(states: Seq<AllocatorState>, results: Seq<Option<Frame>>) -> bool {
    &&& states.len() == results.len() + 1
    &&& forall|i: int|
        0 <= i < results.len() ==> #[trigger] allocation_step(states[i], states[i + 1], results[i])
}

/// Along a run the next candidate never moves back and the layout stays.
proof fn lemma_run_monotone(
    states: Seq<AllocatorState>,
    results: Seq<Option<Frame>>,
    i: int,
    j: int,
)
    requires
        allocation_run(states, results),
        0 <= i <= j <= results.len(),
    ensures
        states[i].next_frame <= states[j].next_frame,
        same_layout(states[i], states[j]),
    decreases j - i,
{
    if i < j {
        lemma_run_monotone(states, results, i, j - 1);
        let k = j - 1;
        assert(allocation_step(states[k], states[k + 1], results[k]));
    }
}

/// Along a run in which every call so far handed out a frame, the next
/// candidate has moved by at least one per call.
proof fn lemma_run_advances(states: Seq<AllocatorState>, results: Seq<Option<Frame>>, j: int)
    requires
        allocation_run(states, results),
        0 <= j <= results.len(),
        forall|i: int| 0 <= i < j ==> #[trigger] results[i] is Some,
    ensures
        states[0].next_frame + j <= states[j].next_frame,
    decreases j,
{
    if j > 0 {
        lemma_run_advances(states, results, j - 1);
        let k = j - 1;
        assert(allocation_step(states[k], states[k + 1], results[k]));
        assert(results[j - 1] is Some);
    }
}

/// A free frame lies below `FRAME_LIMIT`.
proof fn lemma_free_below_limit(a: AllocatorState, n: int)
    requires
        is_free(a, n),
    ensures
        n < FRAME_LIMIT,
{
    let k = choose|k: int| 0 <= k < a.areas.len() && #[trigger] in_region(a.areas[k], n);
    assert(in_region(a.areas[k], n));
}

/// The frames that a run of calls hands out are strictly increasing, so no
/// frame is handed out twice.
pub proof fn lemma_frames_increase(states: Seq<AllocatorState>, results: Seq<Option<Frame>>)
    requires
        allocation_run(states, results),
    ensures
        forall|i: int, j: int|
            0 <= i < j < results.len() && results[i] is Some && results[j] is Some
                ==> (#[trigger] results[i]).unwrap().number < (#[trigger] results[j]).unwrap().number,
{
    assert forall|i: int, j: int|
        0 <= i < j < results.len() && results[i] is Some && results[j] is Some implies (
    #[trigger] results[i]).unwrap().number < (#[trigger] results[j]).unwrap().number by {
        assert(allocation_step(states[i], states[i + 1], results[i]));
        assert(allocation_step(states[j], states[j + 1], results[j]));
        lemma_run_monotone(states, results, i + 1, j);
    }
}

/// Some byte of frame `f` lies in the inclusive address range `start ..= end`.
pub open spec fn frame_overlaps(f: Frame, start: int, end: int) -> bool {
    &&& start <= end
    &&& f.number * 4096 <= end
    &&& start < f.number * 4096 + 4096
}

/// A frame with a byte in `start ..= end` lies in the span of frames
/// `start / 4096 ..= end / 4096`.
proof fn lemma_overlap_in_span(f: Frame, start: int, end: int)
    requires
        0 <= start,
        frame_overlaps(f, start, end),
    ensures
        in_span(start / 4096, end / 4096, f.number as int),
{
    let lo = f.number * 4096;
    let addr = if start <= lo { lo } else { start };
    lemma_fundamental_div_mod_converse(addr, 4096, f.number as int, addr - lo);
    lemma_div_is_ordered(start, addr, 4096);
    lemma_div_is_ordered(addr, end, 4096);
}

/// No frame that a run of calls hands out overlaps the kernel range
/// `kernel_start ..= kernel_end` or the boot information range
/// `multiboot_start ..= multiboot_end` that the allocator was built with.
pub proof fn lemma_frames_avoid_reserved(
    states: Seq<AllocatorState>,
    results: Seq<Option<Frame>>,
    kernel_start: u64,
    kernel_end: u64,
    multiboot_start: u64,
    multiboot_end: u64,
)
    requires
        allocation_run(states, results),
        states[0].kernel_start == kernel_start / 4096,
        states[0].kernel_end == kernel_end / 4096,
        states[0].multiboot_start == multiboot_start / 4096,
        states[0].multiboot_end == multiboot_end / 4096,
    ensures
        forall|i: int|
            0 <= i < results.len() && #[trigger] results[i] is Some ==> !frame_overlaps(
                results[i].unwrap(),
                kernel_start as int,
                kernel_end as int,
            ) && !frame_overlaps(results[i].unwrap(), multiboot_start as int, multiboot_end as int),
{
    assert forall|i: int|
        0 <= i < results.len() && #[trigger] results[i] is Some implies !frame_overlaps(
        results[i].unwrap(),
        kernel_start as int,
        kernel_end as int,
    ) && !frame_overlaps(results[i].unwrap(), multiboot_start as int, multiboot_end as int) by {
        let f = results[i].unwrap();
        assert(allocation_step(states[i], states[i + 1], results[i]));
        lemma_run_monotone(states, results, 0, i);
        if frame_overlaps(f, kernel_start as int, kernel_end as int) {
            lemma_overlap_in_span(f, kernel_start as int, kernel_end as int);
        }
        if frame_overlaps(f, multiboot_start as int, multiboot_end as int) {
            lemma_overlap_in_span(f, multiboot_start as int, multiboot_end as int);
        }
    }
}

/// Once a call hands out nothing, every later call hands out nothing; and a
/// run hands out at most `FRAME_LIMIT - states[0].next_frame` frames, so
/// repeated calls end in nothing.
pub proof fn lemma_allocation_ends(states: Seq<AllocatorState>, results: Seq<Option<Frame>>)
    requires
        allocation_run(states, results),
    ensures
        forall|i: int, j: int|
            0 <= i < j < results.len() && #[trigger] results[i] is None ==> #[trigger] results[j] is None,
        forall|i: int|
            0 <= i < results.len() && #[trigger] results[i] is Some ==> states[0].next_frame + i
                < FRAME_LIMIT,
{
    assert forall|i: int, j: int|
        0 <= i < j < results.len() && #[trigger] results[i] is None implies #[trigger] results[j] is None by {
        assert(allocation_step(states[i], states[i + 1], results[i]));
        assert(allocation_step(states[j], states[j + 1], results[j]));
        lemma_run_monotone(states, results, i, j);
        if results[j] is Some {
            let f = results[j].unwrap().number as int;
            assert(!is_free(states[i], f));
        }
    }
    assert forall|i: int|
        0 <= i < results.len() && #[trigger] results[i] is Some implies states[0].next_frame + i
            < FRAME_LIMIT by {
        assert forall|k: int| 0 <= k < i implies #[trigger] results[k] is Some by {
            if results[k] is None {
                assert(allocation_step(states[k], states[k + 1], results[k]));
                assert(allocation_step(states[i], states[i + 1], results[i]));
                lemma_run_monotone(states, results, k, i);
                assert(!is_free(states[k], results[i].unwrap().number as int));
            }
        }
        lemma_run_advances(states, results, i);
        assert(allocation_step(states[i], states[i + 1], results[i]));
        lemma_free_below_limit(states[i], results[i].unwrap().number as int);
    }
}

} // verus!
