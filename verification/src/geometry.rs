//! How threads of a launch are grouped into blocks, warps and lanes.

use vstd::prelude::*;

verus! {

/// The shape of a set of resident threads.
#[derive(Clone, Copy, Debug, PartialEq, Eq, Structural)]
pub struct Shape {
    /// How many blocks there are.
    pub blocks: usize,
    /// Threads per block.
    pub threads: usize,
    /// Lanes per warp.
    pub warp_size: usize,
}

impl Shape {
    /// Blocks are not empty, a warp fits a mask, and every thread has a
    /// number that fits a recorded schedule.
    pub open spec fn wf(self) -> bool {
        &&& 0 < self.threads
        &&& 0 < self.warp_size <= 32
        &&& self.total() <= u32::MAX
        &&& self.total() <= usize::MAX
    }

    /// How many threads there are.
    pub open spec fn total(self) -> int {
        self.blocks * self.threads
    }

    /// Warps per block; the last one may be short.
    pub open spec fn warps(self) -> int {
        (self.threads - 1) / self.warp_size as int + 1
    }

    /// The block of a thread.
    pub open spec fn block_of(self, gid: int) -> int {
        gid / self.threads as int
    }

    /// The warp of a thread within its block.
    pub open spec fn warp_of(self, gid: int) -> int {
        (gid % self.threads as int) / self.warp_size as int
    }

    /// The lane of a thread within its warp.
    pub open spec fn lane_of(self, gid: int) -> int {
        (gid % self.threads as int) % self.warp_size as int
    }

    /// The first thread of a block.
    pub open spec fn block_base(self, block: int) -> int {
        block * self.threads
    }

    /// The thread at lane 0 of a warp.
    pub open spec fn warp_base(self, block: int, warp: int) -> int {
        block * self.threads + warp * self.warp_size
    }

    /// How many lanes of this warp exist. The last warp of a block is short
    /// when the block size is not a multiple of the warp size.
    pub open spec fn lanes_in(self, warp: int) -> int {
        if self.threads - warp * self.warp_size < self.warp_size {
            self.threads - warp * self.warp_size
        } else {
            self.warp_size as int
        }
    }

    /// Mask of the lanes of this warp that exist.
    pub open spec fn valid_mask_spec(self, warp: int) -> u32 {
        crate::lanes::low_mask(self.lanes_in(warp))
    }

    /// The position of a warp among all warps.
    pub open spec fn warp_index(self, block: int, warp: int) -> int {
        block * self.warps() + warp
    }
}

/// Every thread sits at exactly the lane its number says: its warp's base
/// plus its lane gives the number back, and the lane exists.
pub proof fn every_thread_has_a_lane(sh: Shape, gid: int)
    requires
        sh.wf(),
        0 <= gid < sh.total(),
    ensures
        0 <= sh.block_of(gid) < sh.blocks,
        0 <= sh.warp_of(gid) < sh.warps(),
        0 <= sh.lane_of(gid) < sh.lanes_in(sh.warp_of(gid)),
        sh.warp_base(sh.block_of(gid), sh.warp_of(gid)) + sh.lane_of(gid) == gid,
        sh.block_base(sh.block_of(gid)) <= gid < sh.block_base(sh.block_of(gid)) + sh.threads,
{
    let n = sh.threads as int;
    let w = sh.warp_size as int;
    let t = gid % n;
    vstd::arithmetic::div_mod::lemma_fundamental_div_mod(gid, n);
    vstd::arithmetic::div_mod::lemma_fundamental_div_mod(t, w);
    vstd::arithmetic::div_mod::lemma_div_is_ordered(t, n - 1, w);
    let b = gid / n;
    assert(b * n == n * b) by (nonlinear_arith);
    let q = t / w;
    assert(q * w == w * q) by (nonlinear_arith);
    assert(0 <= b < sh.blocks) by (nonlinear_arith)
        requires
            b * n <= gid,
            0 <= gid < sh.blocks * n,
            n > 0,
            gid < b * n + n,
    ;
    assert(0 <= q) by (nonlinear_arith)
        requires
            q == t / w,
            t >= 0,
            w > 0,
    ;
}

/// The lanes of a warp lie inside their block, and every warp has one.
pub proof fn lemma_warp_in_block(sh: Shape, block: int, warp: int)
    requires
        sh.wf(),
        0 <= block < sh.blocks,
        0 <= warp < sh.warps(),
    ensures
        0 <= warp * sh.warp_size < sh.threads,
        0 < sh.lanes_in(warp) <= sh.warp_size,
        sh.block_base(block) <= sh.warp_base(block, warp),
        sh.warp_base(block, warp) + sh.lanes_in(warp) <= sh.block_base(block) + sh.threads
            <= sh.total(),
        0 <= sh.block_base(block),
{
    let n = sh.threads as int;
    let w = sh.warp_size as int;
    vstd::arithmetic::div_mod::lemma_fundamental_div_mod(n - 1, w);
    let q = (n - 1) / w;
    assert(0 <= warp * w <= w * q) by (nonlinear_arith)
        requires
            0 <= warp <= q,
            w > 0,
    ;
    assert(0 <= (n - 1) % w < w);
    lemma_block_in_launch(sh, block);
}

/// The threads of a block lie inside the launch.
pub proof fn lemma_block_in_launch(sh: Shape, block: int)
    requires
        sh.wf(),
        0 <= block < sh.blocks,
    ensures
        0 <= sh.block_base(block),
        sh.block_base(block) + sh.threads <= sh.total(),
{
    let n = sh.threads as int;
    assert(0 <= block * n && block * n + n <= sh.blocks * n) by (nonlinear_arith)
        requires
            0 <= block < sh.blocks,
            n > 0,
    ;
}

/// A thread between a block's first and last belongs to that block.
pub proof fn lemma_block_of_range(sh: Shape, block: int, gid: int)
    requires
        sh.wf(),
        0 <= block < sh.blocks,
        sh.block_base(block) <= gid < sh.block_base(block) + sh.threads,
    ensures
        sh.block_of(gid) == block,
{
    let n = sh.threads as int;
    assert(block * n == n * block) by (nonlinear_arith);
    vstd::arithmetic::div_mod::lemma_fundamental_div_mod_converse(gid, n, block, gid - n * block);
}

/// Every warp has its own place among the warps of the launch.
pub proof fn lemma_warp_index(sh: Shape, block: int, warp: int)
    requires
        sh.wf(),
        0 <= block < sh.blocks,
        0 <= warp < sh.warps(),
    ensures
        0 <= sh.warp_index(block, warp) < sh.blocks * sh.warps(),
{
    let k = sh.warps();
    assert(0 <= block * k && block * k + k <= sh.blocks * k) by (nonlinear_arith)
        requires
            0 <= block < sh.blocks,
            k > 0,
    ;
}

/// There are no more warps than threads.
pub proof fn lemma_warp_count(sh: Shape)
    requires
        sh.wf(),
    ensures
        0 < sh.warps() <= sh.threads,
        0 <= sh.blocks * sh.warps() <= sh.total(),
{
    let n = sh.threads as int;
    let w = sh.warp_size as int;
    vstd::arithmetic::div_mod::lemma_div_is_ordered_by_denominator(n - 1, 1, w);
    vstd::arithmetic::div_mod::lemma_div_pos_is_pos(n - 1, w);
    let k = sh.warps();
    assert(0 <= sh.blocks * k <= sh.blocks * n) by (nonlinear_arith)
        requires
            0 <= sh.blocks,
            0 < k <= n,
    ;
}

impl Shape {
    /// Splits a thread's number into (block, warp within block, lane).
    pub fn locate(&self, gid: usize) -> (r: (usize, usize, u32))
        requires
            self.wf(),
            gid < self.total(),
        ensures
            r.0 == self.block_of(gid as int),
            r.1 == self.warp_of(gid as int),
            r.2 == self.lane_of(gid as int),
    {
        let t: usize = gid % self.threads;
        (gid / self.threads, t / self.warp_size, (t % self.warp_size) as u32)
    }

    /// Warps per block.
    pub fn warp_count(&self) -> (r: usize)
        requires
            self.wf(),
        ensures
            r == self.warps(),
    {
        proof {
            lemma_warp_count(*self);
        }
        (self.threads - 1) / self.warp_size + 1
    }

    /// The thread at lane 0 of a warp.
    pub fn base_of(&self, block: usize, warp: usize) -> (r: usize)
        requires
            self.wf(),
            block < self.blocks,
            warp < self.warps(),
        ensures
            r == self.warp_base(block as int, warp as int),
    {
        proof {
            lemma_warp_in_block(*self, block as int, warp as int);
        }
        block * self.threads + warp * self.warp_size
    }

    /// How many lanes of this warp exist.
    pub fn lane_count(&self, warp: usize) -> (r: u32)
        requires
            self.wf(),
            warp < self.warps(),
            self.blocks > 0,
        ensures
            r == self.lanes_in(warp as int),
    {
        proof {
            lemma_warp_in_block(*self, 0, warp as int);
        }
        let rest: usize = self.threads - warp * self.warp_size;
        if rest < self.warp_size {
            rest as u32
        } else {
            self.warp_size as u32
        }
    }

    /// Mask of the lanes of this warp that exist.
    pub fn valid_mask(&self, warp: usize) -> (r: u32)
        requires
            self.wf(),
            warp < self.warps(),
            self.blocks > 0,
        ensures
            r == self.valid_mask_spec(warp as int),
    {
        proof {
            lemma_warp_in_block(*self, 0, warp as int);
        }
        crate::lanes::first_lanes(self.lane_count(warp))
    }
}

/// Different warps have different places among the warps of the launch.
pub proof fn warps_have_places_of_their_own(
    sh: Shape,
    block: int,
    warp: int,
    other_block: int,
    other_warp: int,
)
    requires
        sh.wf(),
        0 <= block < sh.blocks,
        0 <= warp < sh.warps(),
        0 <= other_block < sh.blocks,
        0 <= other_warp < sh.warps(),
        sh.warp_index(block, warp) == sh.warp_index(other_block, other_warp),
    ensures
        block == other_block,
        warp == other_warp,
{
    let k = sh.warps();
    assert(block == other_block && warp == other_warp) by (nonlinear_arith)
        requires
            block * k + warp == other_block * k + other_warp,
            0 <= warp < k,
            0 <= other_warp < k,
    ;
}

/// A block has as few warps as hold its threads: they do not fit into one warp
/// less. A lane of a warp exists exactly when the block has a thread for it.
pub proof fn warps_are_filled_in_order(sh: Shape, warp: int, l: int)
    requires
        sh.wf(),
        0 <= warp < sh.warps(),
        0 <= l < sh.warp_size,
    ensures
        (sh.warps() - 1) * sh.warp_size < sh.threads <= sh.warps() * sh.warp_size,
        l < sh.lanes_in(warp) <==> warp * sh.warp_size + l < sh.threads,
        crate::lanes::has_lane(sh.valid_mask_spec(warp), l) <==> warp * sh.warp_size + l
            < sh.threads,
{
    let (n, w) = (sh.threads as int, sh.warp_size as int);
    vstd::arithmetic::div_mod::lemma_fundamental_div_mod(n - 1, w);
    let q = (n - 1) / w;
    assert(q * w == w * q && (q + 1) * w == w * q + w) by (nonlinear_arith);
    assert(warp * w <= q * w) by (nonlinear_arith)
        requires
            warp <= q,
            w > 0,
    ;
    crate::lanes::low_masks_name_the_first_lanes(sh.lanes_in(warp), l);
}

/// Threads are grouped in order: one with the next number is at the next lane,
/// or at lane zero of the next warp, or of the first warp of the next block.
pub proof fn threads_are_grouped_in_order(sh: Shape, gid: int)
    requires
        sh.wf(),
        0 <= gid,
        gid + 1 < sh.total(),
    ensures
        sh.block_of(0) == 0 && sh.warp_of(0) == 0 && sh.lane_of(0) == 0,
        ({
            let (b, w, l) = (sh.block_of(gid), sh.warp_of(gid), sh.lane_of(gid));
            let next = (sh.block_of(gid + 1), sh.warp_of(gid + 1), sh.lane_of(gid + 1));
            if w * sh.warp_size + l + 1 == sh.threads {
                next == (b + 1, 0int, 0int)
            } else if l + 1 == sh.warp_size {
                next == (b, w + 1, 0int)
            } else {
                next == (b, w, l + 1)
            }
        }),
{
    let (n, k) = (sh.threads as int, sh.warp_size as int);
    let (b, t) = (gid / n, gid % n);
    let (w, l) = (t / k, t % k);
    vstd::arithmetic::div_mod::lemma_fundamental_div_mod(gid, n);
    vstd::arithmetic::div_mod::lemma_fundamental_div_mod(t, k);
    assert(w * k == k * w) by (nonlinear_arith);
    vstd::arithmetic::div_mod::lemma_small_mod(0, n as nat);
    vstd::arithmetic::div_mod::lemma_small_mod(0, k as nat);
    vstd::arithmetic::div_mod::lemma_basic_div(0, n);
    vstd::arithmetic::div_mod::lemma_basic_div(0, k);
    if t + 1 == n {
        assert(n * (b + 1) == n * b + n) by (nonlinear_arith);
        vstd::arithmetic::div_mod::lemma_fundamental_div_mod_converse(gid + 1, n, b + 1, 0);
    } else {
        vstd::arithmetic::div_mod::lemma_fundamental_div_mod_converse(gid + 1, n, b, t + 1);
        if l + 1 == k {
            assert(k * (w + 1) == k * w + k) by (nonlinear_arith);
            vstd::arithmetic::div_mod::lemma_fundamental_div_mod_converse(t + 1, k, w + 1, 0);
        } else {
            vstd::arithmetic::div_mod::lemma_fundamental_div_mod_converse(t + 1, k, w, l + 1);
        }
    }
}

} // verus!
