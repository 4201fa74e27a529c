//! Where a simulated thread sits in its launch.

use vstd::prelude::*;

use crate::dim::Dim3;
use crate::geometry::{self, Shape};
use crate::launch::{self, LaunchConfig};

verus! {

/// Per-thread view of a running kernel: the equivalent of CUDA's built-in
/// `threadIdx`, `blockIdx`, `blockDim` and `gridDim`.
#[derive(Clone, Copy, Debug)]
pub struct ThreadCtx {
    pub config: LaunchConfig,
    /// Linear block index within the grid.
    pub block: u32,
    /// Linear thread index within the block.
    pub thread: u32,
    /// The number of the thread among those resident with it, by which the
    /// scheduler knows it.
    pub gid: usize,
}

impl ThreadCtx {
    /// The thread exists in a launch that can be run.
    pub open spec fn wf(self) -> bool {
        &&& launch::config_problem(self.config) is None
        &&& self.block < self.config.grid.volume()
        &&& self.thread < self.config.block.volume()
    }

    /// The block of a launch this thread is in, on its own.
    pub open spec fn own_block(self) -> Shape {
        Shape {
            blocks: 1,
            threads: self.config.block.volume() as usize,
            warp_size: self.config.warp_size as usize,
        }
    }

    /// Mask of the lanes of this thread's warp that exist.
    pub open spec fn valid_lanes(self) -> u32 {
        self.own_block().valid_mask_spec((self.thread / self.config.warp_size) as int)
    }

    pub fn thread_idx(&self) -> (r: Dim3)
        requires
            self.wf(),
        ensures
            self.config.block.covers(r),
            self.config.block.position(r) == self.thread,
    {
        Dim3::from_linear(self.thread, self.config.block)
    }

    pub fn block_idx(&self) -> (r: Dim3)
        requires
            self.wf(),
        ensures
            self.config.grid.covers(r),
            self.config.grid.position(r) == self.block,
    {
        Dim3::from_linear(self.block, self.config.grid)
    }

    pub fn block_dim(&self) -> (r: Dim3)
        ensures
            r == self.config.block,
    {
        self.config.block
    }

    pub fn grid_dim(&self) -> (r: Dim3)
        ensures
            r == self.config.grid,
    {
        self.config.grid
    }

    /// Linear thread index within the block.
    pub fn thread_linear(&self) -> (r: usize)
        ensures
            r == self.thread,
    {
        self.thread as usize
    }

    /// Linear block index within the grid.
    pub fn block_linear(&self) -> (r: usize)
        ensures
            r == self.block,
    {
        self.block as usize
    }

    /// `blockIdx * blockDim + threadIdx`, linearised over the whole launch.
    pub fn global_linear(&self) -> (r: usize)
        requires
            self.wf(),
        ensures
            r == self.block * self.config.block.volume() + self.thread,
            r < self.config.grid.volume() * self.config.block.volume(),
    {
        let n: u32 = self.config.block.count();
        proof {
            let blocks = self.config.grid.volume();
            assert(self.block * n + self.thread < blocks * n) by (nonlinear_arith)
                requires
                    self.block < blocks,
                    self.thread < n,
            ;
            assert(0 <= self.block * n) by (nonlinear_arith);
        }
        (self.block * n + self.thread) as usize
    }

    /// Lanes per warp for this launch. 32 unless the launch config says
    /// otherwise.
    pub fn warp_size(&self) -> (r: u32)
        ensures
            r == self.config.warp_size,
    {
        self.config.warp_size
    }

    /// Index of this thread's warp within its block.
    pub fn warp_id(&self) -> (r: u32)
        requires
            self.wf(),
        ensures
            r == self.thread / self.config.warp_size,
    {
        self.thread / self.config.warp_size
    }

    /// This thread's lane within its warp, in `0..warp_size()`.
    pub fn lane_id(&self) -> (r: u32)
        requires
            self.wf(),
        ensures
            r == self.thread % self.config.warp_size,
            r < self.config.warp_size,
    {
        self.thread % self.config.warp_size
    }

    /// Mask of the lanes of this thread's warp that actually exist.
    ///
    /// This is the full mask except in a block whose size is not a multiple
    /// of the warp size, where the last warp is short.
    pub fn warp_valid_mask(&self) -> (r: u32)
        requires
            self.wf(),
        ensures
            r == self.valid_lanes(),
    {
        let shape = Shape {
            blocks: 1,
            threads: self.config.block.count() as usize,
            warp_size: self.config.warp_size as usize,
        };
        proof {
            lemma_own_block(*self);
            geometry::every_thread_has_a_lane(shape, self.thread as int);
            assert(self.thread as int % (shape.threads as int) == self.thread) by {
                vstd::arithmetic::div_mod::lemma_small_mod(
                    self.thread as nat,
                    shape.threads as nat,
                );
            }
        }
        shape.valid_mask(self.warp_id() as usize)
    }
}

/// The block of a thread of a launch that can be run is a shape of its own.
pub proof fn lemma_own_block(t: ThreadCtx)
    requires
        t.wf(),
    ensures
        t.own_block().wf(),
        t.own_block().total() == t.config.block.volume(),
{
    let threads = t.config.block.volume();
    let resident = launch::resident_count(t.config);
    assert(threads <= resident * threads) by (nonlinear_arith)
        requires
            resident >= 1,
            threads > 0,
    ;
}

/// A thread's own lane always exists: it is named by the mask of the lanes of
/// its warp.
pub proof fn own_lane_exists(t: ThreadCtx)
    requires
        t.wf(),
    ensures
        crate::lanes::has_lane(t.valid_lanes(), (t.thread % t.config.warp_size) as int),
{
    lemma_own_block(t);
    let shape = t.own_block();
    geometry::every_thread_has_a_lane(shape, t.thread as int);
    vstd::arithmetic::div_mod::lemma_small_mod(t.thread as nat, shape.threads as nat);
    let warp = (t.thread / t.config.warp_size) as int;
    let lane = (t.thread % t.config.warp_size) as int;
    geometry::lemma_warp_in_block(shape, 0, warp);
    crate::lanes::mask_names_its_members(|l: int| true, shape.lanes_in(warp), lane);
}

/// The mask of the lanes that exist names those below the warp's lane count.
pub proof fn lemma_valid_lanes(t: ThreadCtx)
    requires
        t.wf(),
    ensures
        forall|l: int| #[trigger]
            crate::lanes::has_lane(t.valid_lanes(), l) <==> 0 <= l < t.own_block().lanes_in(
                (t.thread / t.config.warp_size) as int,
            ),
{
    lemma_own_block(t);
    let shape = t.own_block();
    geometry::every_thread_has_a_lane(shape, t.thread as int);
    vstd::arithmetic::div_mod::lemma_small_mod(t.thread as nat, shape.threads as nat);
    let warp = (t.thread / t.config.warp_size) as int;
    geometry::lemma_warp_in_block(shape, 0, warp);
    assert forall|l: int| #[trigger] crate::lanes::has_lane(t.valid_lanes(), l) <==> 0 <= l
        < shape.lanes_in(warp) by {
        crate::lanes::mask_names_its_members(|l: int| true, shape.lanes_in(warp), l);
    }
}

/// Threads of one launch never share a global index.
pub proof fn global_indices_tell_threads_apart(a: ThreadCtx, b: ThreadCtx)
    requires
        a.wf(),
        b.wf(),
        a.config == b.config,
        a.block * a.config.block.volume() + a.thread == b.block * b.config.block.volume()
            + b.thread,
    ensures
        a.block == b.block,
        a.thread == b.thread,
{
    let n = a.config.block.volume();
    assert(a.block == b.block && a.thread == b.thread) by (nonlinear_arith)
        requires
            a.block * n + a.thread == b.block * n + b.thread,
            0 <= a.thread < n,
            0 <= b.thread < n,
    ;
}

/// The lanes of a thread's warp that exist are those for which its block has a
/// thread.
pub proof fn existing_lanes_have_a_thread(t: ThreadCtx, l: int)
    requires
        t.wf(),
    ensures
        crate::lanes::has_lane(t.valid_lanes(), l) <==> 0 <= l < t.config.warp_size && (t.thread
            / t.config.warp_size) * t.config.warp_size + l < t.config.block.volume(),
{
    lemma_valid_lanes(t);
    lemma_own_block(t);
}

} // verus!
