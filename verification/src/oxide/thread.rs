//! Thread identification.

use core::marker::PhantomData;
use std::rc::Rc;

use vstd::prelude::*;

use crate::ctx::ThreadCtx;

verus! {

/// An opaque witness that a thread owns one index.
///
/// As in cuda-oxide it has no public constructor, cannot be copied, cloned,
/// sent, or shared, and so cannot be passed between threads to claim another
/// thread's element.
pub struct ThreadIndex<'k> {
    index: usize,
    _not_send: PhantomData<Rc<u8>>,
    _scope: PhantomData<&'k u8>,
}

impl<'k> View for ThreadIndex<'k> {
    type V = usize;

    closed spec fn view(&self) -> usize {
        self.index
    }
}

impl<'k> ThreadIndex<'k> {
    /// The index this witness stands for.
    pub fn get(&self) -> (r: usize)
        ensures
            r == self@,
    {
        self.index
    }
}

pub(crate) fn witness<'k>(index: usize) -> (r: ThreadIndex<'k>)
    ensures
        r@ == index,
{
    ThreadIndex { index, _not_send: PhantomData, _scope: PhantomData }
}

/// `blockIdx.x * blockDim.x + threadIdx.x`, as an owned witness.
pub fn index_1d<'k>(t: &ThreadCtx) -> (r: ThreadIndex<'k>)
    requires
        t.wf(),
    ensures
        r@ == (t.block % t.config.grid.x) * t.config.block.x + t.thread % t.config.block.x,
{
    let b: u32 = blockIdx_x(t);
    let n: u32 = blockDim_x(t);
    let i: u32 = threadIdx_x(t);
    proof {
        lemma_width_within_volume(t.config.grid);
        lemma_width_within_volume(t.config.block);
        lemma_index_fits(t.config.grid, t.config.block, b as int, i as int);
    }
    witness((b * n + i) as usize)
}

/// The x indices of a launch that can be run have a product that fits.
proof fn lemma_index_fits(grid: crate::dim::Dim3, block: crate::dim::Dim3, b: int, i: int)
    requires
        grid.volume() > 0,
        block.volume() > 0,
        grid.volume() * block.volume() <= u32::MAX,
        0 <= b < grid.x,
        0 <= i < block.x,
    ensures
        0 <= b * block.x <= b * block.x + i <= u32::MAX,
{
    lemma_width_within_volume(grid);
    lemma_width_within_volume(block);
    let (g, n) = (grid.x as int, block.x as int);
    let (gv, bv) = (grid.volume(), block.volume());
    assert(0 <= b * n && b * n + i < g * n) by (nonlinear_arith)
        requires
            0 <= b < g,
            0 <= i < n,
    ;
    assert(g * n <= gv * bv) by (nonlinear_arith)
        requires
            0 <= g <= gv,
            0 <= n <= bv,
    ;
}

proof fn lemma_width_within_volume(d: crate::dim::Dim3)
    requires
        d.volume() > 0,
    ensures
        0 < d.x <= d.volume(),
{
    let (x, y, z) = (d.x as int, d.y as int, d.z as int);
    assert(0 < x <= x * y * z) by (nonlinear_arith)
        requires
            x >= 0,
            y >= 0,
            z >= 0,
            x * y * z > 0,
    ;
}

/// In a launch of one dimension the product of the x indices is the linear
/// index of the thread, so it tells every two threads apart.
pub proof fn one_dimensional_indices_are_linear(t: ThreadCtx)
    requires
        t.wf(),
        t.config.grid.y == 1 && t.config.grid.z == 1,
        t.config.block.y == 1 && t.config.block.z == 1,
    ensures
        (t.block % t.config.grid.x) * t.config.block.x + t.thread % t.config.block.x == t.block
            * t.config.block.volume() + t.thread,
{
    vstd::arithmetic::div_mod::lemma_small_mod(t.block as nat, t.config.grid.x as nat);
    vstd::arithmetic::div_mod::lemma_small_mod(t.thread as nat, t.config.block.x as nat);
}

#[allow(non_snake_case)]
pub fn threadIdx_x(t: &ThreadCtx) -> (r: u32)
    requires
        t.wf(),
    ensures
        r == t.thread % t.config.block.x,
{
    proof {
        lemma_coordinates(t.thread, t.config.block);
    }
    t.thread_idx().x
}

#[allow(non_snake_case)]
pub fn threadIdx_y(t: &ThreadCtx) -> (r: u32)
    requires
        t.wf(),
    ensures
        r == (t.thread / t.config.block.x) % t.config.block.y,
{
    proof {
        lemma_coordinates(t.thread, t.config.block);
    }
    t.thread_idx().y
}

#[allow(non_snake_case)]
pub fn threadIdx_z(t: &ThreadCtx) -> (r: u32)
    requires
        t.wf(),
    ensures
        r == t.thread as int / (t.config.block.x * t.config.block.y),
{
    proof {
        lemma_coordinates(t.thread, t.config.block);
    }
    t.thread_idx().z
}

#[allow(non_snake_case)]
pub fn blockIdx_x(t: &ThreadCtx) -> (r: u32)
    requires
        t.wf(),
    ensures
        r == t.block % t.config.grid.x,
{
    proof {
        lemma_coordinates(t.block, t.config.grid);
    }
    t.block_idx().x
}

#[allow(non_snake_case)]
pub fn blockIdx_y(t: &ThreadCtx) -> (r: u32)
    requires
        t.wf(),
    ensures
        r == (t.block / t.config.grid.x) % t.config.grid.y,
{
    proof {
        lemma_coordinates(t.block, t.config.grid);
    }
    t.block_idx().y
}

#[allow(non_snake_case)]
pub fn blockIdx_z(t: &ThreadCtx) -> (r: u32)
    requires
        t.wf(),
    ensures
        r == t.block as int / (t.config.grid.x * t.config.grid.y),
{
    proof {
        lemma_coordinates(t.block, t.config.grid);
    }
    t.block_idx().z
}

#[allow(non_snake_case)]
pub fn blockDim_x(t: &ThreadCtx) -> (r: u32)
    ensures
        r == t.config.block.x,
{
    t.block_dim().x
}

#[allow(non_snake_case)]
pub fn blockDim_y(t: &ThreadCtx) -> (r: u32)
    ensures
        r == t.config.block.y,
{
    t.block_dim().y
}

#[allow(non_snake_case)]
pub fn blockDim_z(t: &ThreadCtx) -> (r: u32)
    ensures
        r == t.config.block.z,
{
    t.block_dim().z
}

#[allow(non_snake_case)]
pub fn gridDim_x(t: &ThreadCtx) -> (r: u32)
    ensures
        r == t.config.grid.x,
{
    t.grid_dim().x
}

/// Lanes per warp, as `warpSize`.
pub fn warp_size(t: &ThreadCtx) -> (r: u32)
    ensures
        r == t.config.warp_size,
{
    t.warp_size()
}

/// The coordinates of a linear index are its digits, x fastest.
proof fn lemma_coordinates(i: u32, extent: crate::dim::Dim3)
    requires
        i < extent.volume(),
        extent.x * extent.y <= u32::MAX,
    ensures
        forall|d: crate::dim::Dim3| #[trigger]
            extent.covers(d) && extent.position(d) == i ==> {
                &&& d.x == i % extent.x
                &&& d.y == (i / extent.x) % extent.y
                &&& d.z == i as int / (extent.x * extent.y)
            },
{
    assert forall|d: crate::dim::Dim3| #[trigger]
        extent.covers(d) && extent.position(d) == i implies {
        &&& d.x == i % extent.x
        &&& d.y == (i / extent.x) % extent.y
        &&& d.z == i as int / (extent.x * extent.y)
    } by {
        crate::dim::lemma_digits(i, extent, d);
    }
}

} // verus!
