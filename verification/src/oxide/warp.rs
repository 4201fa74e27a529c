//! Warp-level primitives.
//!
//! cuda-oxide's unsuffixed forms take no member mask, so the whole warp is
//! supplied, which is what the hardware instruction they lower to assumes. A
//! warp that is not converged at one of these is therefore reported, which is
//! the bug those forms invite.

use vstd::prelude::*;

use crate::ctx::ThreadCtx;
use crate::lanes;
use crate::location::Location;
use crate::state::LaunchState;
use crate::warp::{self, Lanes};

verus! {

/// This thread's lane within its warp.
pub fn lane_id(t: &ThreadCtx) -> (r: u32)
    requires
        t.wf(),
    ensures
        r == t.thread % t.config.warp_size,
{
    t.lane_id()
}

/// This thread's warp within its block.
pub fn warp_id(t: &ThreadCtx) -> (r: u32)
    requires
        t.wf(),
    ensures
        r == t.thread / t.config.warp_size,
{
    t.warp_id()
}

/// Every lane reads the value held by `src_lane`.
pub fn shuffle<T: Copy>(
    launch: &mut LaunchState,
    me: usize,
    slots: &Lanes<T>,
    val: T,
    src_lane: u32,
    at: Location,
) -> (r: T)
    requires
        old(launch).wf(),
        old(launch)@.has_thread(me as int),
        warp::members_published(slots@, old(launch)@.thread(me as int).valid_lanes()),
    ensures
        final(launch).wf(),
        ({
            let t = old(launch)@.thread(me as int);
            let src = warp::direct_source(t, src_lane);
            &&& r == warp::shuffled(slots@, t.valid_lanes(), val, src)
            &&& final(launch)@ == warp::after_shuffle(
                old(launch)@,
                me as int,
                t.valid_lanes(),
                "shfl_sync",
                at,
                src,
            )
        }),
{
    let mask: u32 = launch.thread(me).warp_valid_mask();
    warp::shfl_sync(launch, me, slots, mask, val, src_lane, at)
}

/// Reads from the lane `delta` below this one.
pub fn shuffle_up<T: Copy>(
    launch: &mut LaunchState,
    me: usize,
    slots: &Lanes<T>,
    val: T,
    delta: u32,
    at: Location,
) -> (r: T)
    requires
        old(launch).wf(),
        old(launch)@.has_thread(me as int),
        warp::members_published(slots@, old(launch)@.thread(me as int).valid_lanes()),
    ensures
        final(launch).wf(),
        ({
            let t = old(launch)@.thread(me as int);
            let src = warp::up_source(t, delta);
            &&& r == warp::shuffled(slots@, t.valid_lanes(), val, src)
            &&& final(launch)@ == warp::after_shuffle(
                old(launch)@,
                me as int,
                t.valid_lanes(),
                "shfl_up_sync",
                at,
                src,
            )
        }),
{
    let mask: u32 = launch.thread(me).warp_valid_mask();
    warp::shfl_up_sync(launch, me, slots, mask, val, delta, at)
}

/// Reads from the lane `delta` above this one.
pub fn shuffle_down<T: Copy>(
    launch: &mut LaunchState,
    me: usize,
    slots: &Lanes<T>,
    val: T,
    delta: u32,
    at: Location,
) -> (r: T)
    requires
        old(launch).wf(),
        old(launch)@.has_thread(me as int),
        warp::members_published(slots@, old(launch)@.thread(me as int).valid_lanes()),
    ensures
        final(launch).wf(),
        ({
            let t = old(launch)@.thread(me as int);
            let src = warp::down_source(t, delta);
            &&& r == warp::shuffled(slots@, t.valid_lanes(), val, src)
            &&& final(launch)@ == warp::after_shuffle(
                old(launch)@,
                me as int,
                t.valid_lanes(),
                "shfl_down_sync",
                at,
                src,
            )
        }),
{
    let mask: u32 = launch.thread(me).warp_valid_mask();
    warp::shfl_down_sync(launch, me, slots, mask, val, delta, at)
}

/// Reads from the lane whose id is this one XOR `lane_mask`.
pub fn shuffle_xor<T: Copy>(
    launch: &mut LaunchState,
    me: usize,
    slots: &Lanes<T>,
    val: T,
    lane_mask: u32,
    at: Location,
) -> (r: T)
    requires
        old(launch).wf(),
        old(launch)@.has_thread(me as int),
        warp::members_published(slots@, old(launch)@.thread(me as int).valid_lanes()),
    ensures
        final(launch).wf(),
        ({
            let t = old(launch)@.thread(me as int);
            let src = warp::xor_source(t, lane_mask);
            &&& r == warp::shuffled(slots@, t.valid_lanes(), val, src)
            &&& final(launch)@ == warp::after_shuffle(
                old(launch)@,
                me as int,
                t.valid_lanes(),
                "shfl_xor_sync",
                at,
                src,
            )
        }),
{
    let mask: u32 = launch.thread(me).warp_valid_mask();
    warp::shfl_xor_sync(launch, me, slots, mask, val, lane_mask, at)
}

/// Whether the predicate holds on every lane of the warp.
pub fn all(t: &ThreadCtx, slots: &Lanes<bool>) -> (r: bool)
    requires
        t.wf(),
        warp::members_published(slots@, t.valid_lanes()),
    ensures
        r == forall|l: int| #[trigger]
            lanes::has_lane(t.valid_lanes(), l) ==> slots@[l] == Some(true),
{
    warp::all_sync(slots, t.warp_valid_mask())
}

/// Whether the predicate holds on some lane of the warp.
pub fn any(t: &ThreadCtx, slots: &Lanes<bool>) -> (r: bool)
    requires
        t.wf(),
        warp::members_published(slots@, t.valid_lanes()),
    ensures
        r == exists|l: int| #[trigger]
            lanes::has_lane(t.valid_lanes(), l) && slots@[l] == Some(true),
{
    warp::any_sync(slots, t.warp_valid_mask())
}

/// One bit per lane of the warp, set where the predicate holds.
pub fn ballot(t: &ThreadCtx, slots: &Lanes<bool>) -> (r: u32)
    requires
        t.wf(),
        warp::members_published(slots@, t.valid_lanes()),
    ensures
        r == warp::ballot_of(slots@, t.valid_lanes()),
{
    warp::ballot_sync(slots, t.warp_valid_mask())
}

/// On how many lanes of the warp the predicate holds.
pub fn popc(t: &ThreadCtx, slots: &Lanes<bool>) -> (r: u32)
    requires
        t.wf(),
        warp::members_published(slots@, t.valid_lanes()),
    ensures
        r == warp::lane_count(warp::ballot_of(slots@, t.valid_lanes()), 32),
{
    warp::count_lanes(ballot(t, slots))
}

} // verus!
