//! The physical frame allocator: a bump region with a list of returned frames.
use crate::addr::{align_up, is_pow2, lemma_align_up_multiple, lemma_pow2_positive, spec_align_up};
use crate::error::PagingError;
use vstd::prelude::*;

verus! {

/// Hands out physical frames from `[start, limit)`; frames given back are kept in a
/// list, in the order they were returned, and handed out again first.
pub struct FrameAllocator {
    start: u64,
    next: u64,
    limit: u64,
    free: Vec<(u64, u64)>,
}

impl FrameAllocator {
    /// The first address of the managed region.
    pub closed spec fn spec_start(self) -> u64 {
        self.start
    }

    /// The first address never handed out yet.
    pub closed spec fn spec_next(self) -> u64 {
        self.next
    }

    /// The end of the managed region.
    pub closed spec fn spec_limit(self) -> u64 {
        self.limit
    }

    /// The frames given back and not handed out again, as (address, size) pairs.
    pub closed spec fn spec_free(self) -> Seq<(u64, u64)> {
        self.free@
    }

    /// The bump cursor lies within the region, which lies below 2^48, as do the
    /// returned frames.
    pub open spec fn wf(self) -> bool {
        &&& self.spec_start() <= self.spec_next() <= self.spec_limit() <= 0x1_0000_0000_0000
        &&& forall|i: int|
            0 <= i < self.spec_free().len() ==> #[trigger] self.spec_free()[i].0
                < 0x1_0000_0000_0000
    }

    /// At least `n` base frames can be handed out: returned frames that fit a 4 KiB
    /// request, then aligned frames of the bump region.
    pub open spec fn has_base_frames(self, n: nat) -> bool {
        ||| n <= base_fits(self.spec_free())
        ||| spec_align_up(self.spec_next() as int, 4096) + 4096 * (n - base_fits(self.spec_free()))
            <= self.spec_limit()
    }
}

impl FrameAllocator {
    /// The frames given back and not handed out again, as (address, size) pairs.
    pub fn free_frames(&self) -> (r: &[(u64, u64)])
        ensures
            r@ == self.spec_free(),
    {
        self.free.as_slice()
    }
}

/// `after` is `before` once a request for `size` bytes aligned to `alignment` was
/// given `frame`: the first returned frame that fits, taken off the list, or else the
/// next aligned frame of the bump region. The frame lies below 2^48.
pub open spec fn allocated(
    before: FrameAllocator,
    after: FrameAllocator,
    size: u64,
    alignment: u64,
    frame: u64,
) -> bool {
    &&& after.wf()
    &&& after.spec_start() == before.spec_start()
    &&& after.spec_limit() == before.spec_limit()
    &&& frame % alignment == 0
    &&& frame < 0x1_0000_0000_0000
    &&& {
        ||| exists|i: int|
            #![trigger before.spec_free()[i]]
            0 <= i < before.spec_free().len() && before.spec_free()[i] == (frame, size) && (forall|
                j: int,
            | 0 <= j < i ==> !fits(#[trigger] before.spec_free()[j], size, alignment))
                && after.spec_free() == before.spec_free().remove(i) && after.spec_next()
                == before.spec_next()
        ||| (forall|j: int|
            0 <= j < before.spec_free().len() ==> !fits(
                #[trigger] before.spec_free()[j],
                size,
                alignment,
            )) && frame == spec_align_up(before.spec_next() as int, alignment as int) && frame
                + size <= before.spec_limit() && after.spec_next() == frame + size
                && after.spec_free() == before.spec_free()
    }
}

/// `after` is `before` once the base frames `frames` were handed out, in order, one
/// 4 KiB frame per request.
pub open spec fn allocated_run(before: FrameAllocator, after: FrameAllocator, frames: Seq<u64>) -> bool
    decreases frames.len(),
{
    if frames.len() == 0 {
        after == before
    } else {
        exists|mid: FrameAllocator|
            allocated_run(before, mid, frames.subrange(0, frames.len() - 1)) && #[trigger] allocated(
                mid,
                after,
                4096,
                4096,
                frames.last(),
            )
    }
}

/// How many of the returned frames `free` fit a request for one 4 KiB frame.
pub open spec fn base_fits(free: Seq<(u64, u64)>) -> nat
    decreases free.len(),
{
    if free.len() == 0 {
        0
    } else {
        base_fits(free.subrange(0, free.len() - 1)) + if fits(free.last(), 4096, 4096) {
            1nat
        } else {
            0nat
        }
    }
}

proof fn lemma_base_fits_none(free: Seq<(u64, u64)>)
    requires
        forall|j: int| 0 <= j < free.len() ==> !fits(#[trigger] free[j], 4096, 4096),
    ensures
        base_fits(free) == 0,
    decreases free.len(),
{
    if free.len() > 0 {
        let init = free.subrange(0, free.len() - 1);
        assert forall|j: int| 0 <= j < init.len() implies !fits(#[trigger] init[j], 4096, 4096) by {
            assert(init[j] == free[j]);
        }
        lemma_base_fits_none(init);
    }
}

proof fn lemma_base_fits_remove(free: Seq<(u64, u64)>, i: int)
    requires
        0 <= i < free.len(),
        fits(free[i], 4096, 4096),
    ensures
        base_fits(free.remove(i)) + 1 == base_fits(free),
    decreases free.len(),
{
    let init = free.subrange(0, free.len() - 1);
    if i == free.len() - 1 {
        assert(free.remove(i) =~= init);
    } else {
        let r = free.remove(i);
        assert(r.subrange(0, r.len() - 1) =~= init.remove(i));
        assert(r.last() == free.last());
        assert(init[i] == free[i]);
        lemma_base_fits_remove(init, i);
    }
}

/// Handing out one base frame leaves at least one fewer.
pub proof fn lemma_base_frame_taken(before: FrameAllocator, after: FrameAllocator, frame: u64, m: nat)
    requires
        before.wf(),
        allocated(before, after, 4096, 4096, frame),
        before.has_base_frames(m + 1),
    ensures
        after.has_base_frames(m),
{
    if exists|i: int|
        #![trigger before.spec_free()[i]]
        0 <= i < before.spec_free().len() && before.spec_free()[i] == (frame, 4096u64) && (forall|
            j: int,
        | 0 <= j < i ==> !fits(#[trigger] before.spec_free()[j], 4096, 4096))
            && after.spec_free() == before.spec_free().remove(i) && after.spec_next()
            == before.spec_next() {
        let i = choose|i: int|
            #![trigger before.spec_free()[i]]
            0 <= i < before.spec_free().len() && before.spec_free()[i] == (frame, 4096u64) && (forall|
                j: int,
            | 0 <= j < i ==> !fits(#[trigger] before.spec_free()[j], 4096, 4096))
                && after.spec_free() == before.spec_free().remove(i) && after.spec_next()
                == before.spec_next();
        lemma_base_fits_remove(before.spec_free(), i);
    } else {
        lemma_base_fits_none(before.spec_free());
        lemma_align_up_multiple(before.spec_next() as int, 4096);
        lemma_align_up_multiple(after.spec_next() as int, 4096);
        assert(after.spec_next() % 4096 == 0);
    }
}

/// When no returned frame fits and the bump region has no room, no base frame is left.
pub proof fn lemma_no_base_frame(mem: FrameAllocator)
    requires
        forall|j: int|
            0 <= j < mem.spec_free().len() ==> !fits(#[trigger] mem.spec_free()[j], 4096, 4096),
        spec_align_up(mem.spec_next() as int, 4096) + 4096 > mem.spec_limit(),
    ensures
        !mem.has_base_frames(1),
{
    lemma_base_fits_none(mem.spec_free());
}

proof fn lemma_base_fits_append(a: Seq<(u64, u64)>, b: Seq<(u64, u64)>)
    ensures
        base_fits(a + b) >= base_fits(a),
    decreases b.len(),
{
    if b.len() > 0 {
        let ab = a + b;
        let b0 = b.subrange(0, b.len() - 1);
        assert(ab.subrange(0, ab.len() - 1) =~= a + b0);
        lemma_base_fits_append(a, b0);
    } else {
        assert(a + b =~= a);
    }
}

/// Frames given back leave at least as many base frames as before.
pub proof fn lemma_base_frames_returned(
    before: FrameAllocator,
    after: FrameAllocator,
    returned: Seq<(u64, u64)>,
    n: nat,
)
    requires
        before.has_base_frames(n),
        after.spec_free() == before.spec_free() + returned,
        after.spec_next() == before.spec_next(),
        after.spec_limit() == before.spec_limit(),
    ensures
        after.has_base_frames(n),
{
    lemma_base_fits_append(before.spec_free(), returned);
}

/// Having `a` base frames means having any fewer.
pub proof fn lemma_base_frames_fewer(mem: FrameAllocator, a: nat, b: nat)
    requires
        b <= a,
        mem.has_base_frames(a),
    ensures
        mem.has_base_frames(b),
{
}

/// A returned frame fits a request for `size` bytes aligned to `alignment`.
pub open spec fn fits(frame: (u64, u64), size: u64, alignment: u64) -> bool {
    frame.1 == size && frame.0 % alignment == 0
}

/// An allocator for the frames of `[start, limit)`.
pub fn init(start: u64, limit: u64) -> (r: FrameAllocator)
    requires
        start <= limit <= 0x1_0000_0000_0000,
    ensures
        r.wf(),
        r.spec_start() == start,
        r.spec_next() == start,
        r.spec_limit() == limit,
        r.spec_free() == Seq::<(u64, u64)>::empty(),
{
    FrameAllocator { start, next: start, limit, free: Vec::new() }
}

/// The size of the managed region in bytes.
pub fn total_memory_size(mem: &FrameAllocator) -> (r: u64)
    requires
        mem.wf(),
    ensures
        r == mem.spec_limit() - mem.spec_start(),
{
    mem.limit - mem.start
}

/// A frame of `size` bytes aligned to the power of two `alignment`: the first returned
/// frame that fits, else the next aligned frame of the bump region. Fails when neither
/// exists.
pub fn allocate_aligned(mem: &mut FrameAllocator, size: u64, alignment: u64) -> (r: Result<
    u64,
    PagingError,
>)
    requires
        old(mem).wf(),
        is_pow2(alignment),
        size > 0,
        spec_align_up(old(mem).spec_next() as int, alignment as int) <= u64::MAX,
    ensures
        final(mem).wf(),
        final(mem).spec_start() == old(mem).spec_start(),
        final(mem).spec_limit() == old(mem).spec_limit(),
        r matches Ok(a) ==> a % alignment == 0,
        r matches Ok(a) ==> allocated(*old(mem), *final(mem), size, alignment, a),
        match r {
            Ok(_) => true,
            Err(e) => {
                &&& e == PagingError::AllocationFailure
                &&& forall|j: int|
                    0 <= j < old(mem).spec_free().len() ==> !fits(
                        #[trigger] old(mem).spec_free()[j],
                        size,
                        alignment,
                    )
                &&& spec_align_up(old(mem).spec_next() as int, alignment as int) + size
                    > old(mem).spec_limit()
                &&& *final(mem) == *old(mem)
            },
        },
{
    proof {
        lemma_pow2_positive(alignment);
    }
    let mut i: usize = 0;
    while i < mem.free.len()
        invariant
            *mem == *old(mem),
            old(mem).wf(),
            alignment > 0,
            spec_align_up(old(mem).spec_next() as int, alignment as int) <= u64::MAX,
            i <= mem.free@.len(),
            is_pow2(alignment),
            forall|j: int| 0 <= j < i ==> !fits(#[trigger] mem.free@[j], size, alignment),
        decreases mem.free@.len() - i,
    {
        let (a, s) = mem.free[i];
        if s == size && a % alignment == 0 {
            let ghost before = old(mem).spec_free();
            mem.free.remove(i);
            proof {
                assert(before[i as int].0 < 0x1_0000_0000_0000);
                assert forall|k: int| 0 <= k < mem.spec_free().len() implies #[trigger] mem.spec_free()[k].0
                    < 0x1_0000_0000_0000 by {
                    if k < i {
                        assert(mem.spec_free()[k] == before[k]);
                    } else {
                        assert(mem.spec_free()[k] == before[k + 1]);
                    }
                }
            }
            return Ok(a);
        }
        i = i + 1;
    }
    let a = align_up(mem.next, alignment);
    if a > mem.limit || mem.limit - a < size {
        return Err(PagingError::AllocationFailure);
    }
    mem.next = a + size;
    Ok(a)
}

/// A frame of `size` bytes aligned to its own size, which is a power of two: see
/// `allocate_aligned`.
pub fn allocate(mem: &mut FrameAllocator, size: u64) -> (r: Result<u64, PagingError>)
    requires
        old(mem).wf(),
        is_pow2(size),
        spec_align_up(old(mem).spec_next() as int, size as int) <= u64::MAX,
    ensures
        final(mem).wf(),
        final(mem).spec_start() == old(mem).spec_start(),
        final(mem).spec_limit() == old(mem).spec_limit(),
        r matches Ok(a) ==> a % size == 0,
        r matches Ok(a) ==> allocated(*old(mem), *final(mem), size, size, a),
        match r {
            Ok(_) => true,
            Err(e) => {
                &&& e == PagingError::AllocationFailure
                &&& forall|j: int|
                    0 <= j < old(mem).spec_free().len() ==> !fits(
                        #[trigger] old(mem).spec_free()[j],
                        size,
                        size,
                    )
                &&& spec_align_up(old(mem).spec_next() as int, size as int) + size
                    > old(mem).spec_limit()
                &&& *final(mem) == *old(mem)
            },
        },
{
    proof {
        lemma_pow2_positive(size);
    }
    allocate_aligned(mem, size, size)
}

/// Gives the frame at `physical_address`, below 2^48, of `size` bytes back: it is appended to the
/// list of returned frames.
pub fn deallocate(mem: &mut FrameAllocator, physical_address: u64, size: u64)
    requires
        old(mem).wf(),
        physical_address < 0x1_0000_0000_0000,
    ensures
        final(mem).wf(),
        final(mem).spec_start() == old(mem).spec_start(),
        final(mem).spec_next() == old(mem).spec_next(),
        final(mem).spec_limit() == old(mem).spec_limit(),
        final(mem).spec_free() == old(mem).spec_free().push((physical_address, size)),
{
    let ghost before = old(mem).spec_free();
    mem.free.push((physical_address, size));
    assert forall|k: int| 0 <= k < mem.spec_free().len() implies #[trigger] mem.spec_free()[k].0
        < 0x1_0000_0000_0000 by {
        if k < before.len() {
            assert(mem.spec_free()[k] == before[k]);
        }
    }
}

} // verus!
