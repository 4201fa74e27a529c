//! What holds of every schedule, whatever the kernel does.

use vstd::prelude::*;

use crate::diag::Diagnostic;
use crate::geometry::{self, Shape};
use crate::lanes;
use crate::location::Location;
use crate::machine::{self, Machine, Source, Status, Step, WarpWait, PHASE_DEPART};
use crate::search;

verus! {

// ------------------------------------------------------------ the turn ---

/// The turn only ever goes to a thread that can run, and nobody holds it
/// exactly when nobody can run.
pub proof fn turn_goes_to_a_runnable_thread(m: Machine)
    requires
        m.status.len() <= usize::MAX,
    ensures
        machine::picked(m).current matches Some(c) ==> m.is_runnable(c as int),
        machine::picked(m).current is None <==> forall|i: int| !#[trigger] m.is_runnable(i),
{
    machine::lemma_runnable_below(m.status, m.status.len() as int);
    if machine::runnable(m).len() > 0 {
        machine::lemma_chosen_can_run(m);
    } else {
        assert forall|i: int| !#[trigger] m.is_runnable(i) by {
            if m.is_runnable(i) {
                assert(m.status[i] is Runnable);
                assert(machine::runnable(m).contains(i as usize));
            }
        }
    }
}

/// A plan is followed while the thread it names can run.
pub proof fn plans_are_followed(m: Machine, plan: Seq<u32>)
    requires
        m.status.len() <= usize::MAX,
        m.source == Source::Replay(plan),
        plan.len() > 0,
        m.is_runnable(plan[0] as int),
    ensures
        machine::picked(m).current == Some(plan[0] as usize),
        machine::picked(m).source == Source::Replay(plan.drop_first()),
{
    turn_goes_to_a_runnable_thread(m);
    machine::lemma_runnable_below(m.status, m.status.len() as int);
    assert(m.status[plan[0] as int] is Runnable);
    assert(machine::runnable(m).contains(plan[0] as usize));
}

/// A spent plan, and a plan naming a thread that cannot run, keep the current
/// thread running while it can.
pub proof fn spent_plans_keep_the_current_thread(m: Machine, plan: Seq<u32>, c: usize)
    requires
        m.status.len() <= usize::MAX,
        m.source == Source::Replay(plan),
        plan.len() == 0 || !m.is_runnable(plan[0] as int),
        m.current == Some(c),
        m.is_runnable(c as int),
    ensures
        machine::picked(m).current == Some(c),
{
    machine::lemma_runnable_below(m.status, m.status.len() as int);
    assert(m.status[c as int] is Runnable);
    assert(machine::runnable(m).contains(c));
}

// ---------------------------------------------------------- operations ---

/// What a thread can ask of the scheduler.
pub enum Op {
    Yield,
    Barrier(Location),
    Rendezvous(WarpWait),
    Finish,
    Abort,
}

/// What an operation of thread `me` leads to.
pub open spec fn applied(m: Machine, me: int, op: Op) -> Step {
    match op {
        Op::Yield => machine::handed_off(m),
        Op::Barrier(loc) => machine::barrier_step(m, me, loc),
        Op::Rendezvous(wait) => machine::rendezvous_step(m, me, wait),
        Op::Finish => machine::finish_step(m, me),
        Op::Abort => (Machine { aborted: true, ..m }, Seq::empty()),
    }
}

/// The state after a sequence of operations.
pub open spec fn run(m: Machine, ops: Seq<(int, Op)>) -> Machine
    decreases ops.len(),
{
    if ops.len() == 0 {
        m
    } else {
        let before = run(m, ops.drop_last());
        applied(before, ops.last().0, ops.last().1).0
    }
}

/// Everything the operations report, in order.
pub open spec fn run_findings(m: Machine, ops: Seq<(int, Op)>) -> Seq<Diagnostic>
    decreases ops.len(),
{
    if ops.len() == 0 {
        Seq::empty()
    } else {
        let before = run(m, ops.drop_last());
        run_findings(m, ops.drop_last()) + applied(before, ops.last().0, ops.last().1).1
    }
}

/// An aborted launch stays aborted.
pub proof fn aborting_is_final(m: Machine, me: int, op: Op)
    requires
        m.aborted,
    ensures
        applied(m, me, op).0.aborted,
{
}

/// After every operation the launch has ended, or a thread that can run holds
/// the turn: no launch hangs.
pub proof fn no_launch_hangs(m: Machine, me: int, op: Op)
    requires
        m.status.len() <= usize::MAX,
        0 <= me < m.status.len(),
    ensures
        ({
            let after = applied(m, me, op).0;
            ||| after.aborted
            ||| after.current matches Some(c) && after.is_runnable(c as int)
            ||| after.current is None && !machine::some_live(after)
        }),
{
    match op {
        Op::Yield => {
            turn_goes_to_a_runnable_thread(m);
        },
        Op::Barrier(loc) => {
            let here = machine::arrived_at_barrier(m, me, loc);
            turn_goes_to_a_runnable_thread(here);
            turn_goes_to_a_runnable_thread(machine::barrier_released(here, m.shape.block_of(me)));
        },
        Op::Rendezvous(wait) => {
            let here = machine::parked(m, me, wait);
            turn_goes_to_a_runnable_thread(here);
            turn_goes_to_a_runnable_thread(
                machine::collective_released(here, m.shape.block_of(me), m.shape.warp_of(me), wait),
            );
        },
        Op::Finish => {
            turn_goes_to_a_runnable_thread(machine::left(m, me));
        },
        Op::Abort => {},
    }
}

// ------------------------------------------------------------- wedging ---

proof fn lemma_stuck_warps_reported(m: Machine, block: int, n: int, w: int, l: int)
    requires
        0 <= w < n,
        0 <= l < m.shape.lanes_in(w),
        m.status[m.shape.warp_base(block, w) + l] is AtWarp,
    ensures
        machine::stuck_warps(m, block, n).len() > 0,
    decreases n,
{
    if w == n - 1 {
        let p = machine::stuck_lanes(m, block, w);
        search::lemma_first_below(p, m.shape.lanes_in(w));
        assert(p(l));
    } else {
        lemma_stuck_warps_reported(m, block, n - 1, w, l);
    }
}

proof fn lemma_stuck_collective_reported(m: Machine, n: int, gid: int)
    requires
        m.wf(),
        0 <= n <= m.shape.blocks,
        0 <= gid < m.shape.total(),
        m.shape.block_of(gid) < n,
        m.status[gid] is AtWarp,
    ensures
        machine::stuck_collectives(m, n).len() > 0,
    decreases n,
{
    geometry::every_thread_has_a_lane(m.shape, gid);
    let b = m.shape.block_of(gid);
    if b == n - 1 {
        lemma_stuck_warps_reported(
            m,
            b,
            m.shape.warps(),
            m.shape.warp_of(gid),
            m.shape.lane_of(gid),
        );
    } else {
        lemma_stuck_collective_reported(m, n - 1, gid);
    }
}

proof fn lemma_stuck_barrier_reported(m: Machine, n: int, gid: int)
    requires
        m.wf(),
        0 <= n <= m.shape.blocks,
        0 <= gid < m.shape.total(),
        m.shape.block_of(gid) < n,
        m.status[gid] is AtBarrier,
    ensures
        machine::stuck_barriers(m, n).len() > 0,
    decreases n,
{
    geometry::every_thread_has_a_lane(m.shape, gid);
    let b = m.shape.block_of(gid);
    if b == n - 1 {
        assert(machine::any_in_block(m, b, Status::AtBarrier));
    } else {
        lemma_stuck_barrier_reported(m, n - 1, gid);
    }
}

/// A launch in which nobody can run while somebody is still live is reported
/// with at least one finding.
pub proof fn a_wedged_launch_is_reported(m: Machine)
    requires
        m.wf(),
        forall|i: int| !#[trigger] m.is_runnable(i),
        machine::some_live(m),
    ensures
        machine::stuck_findings(m).len() > 0,
{
    let i = choose|i: int| 0 <= i < m.status.len() && (#[trigger] m.status[i]) != Status::Finished;
    assert(!m.is_runnable(i));
    geometry::every_thread_has_a_lane(m.shape, i);
    if m.status[i] is AtWarp {
        lemma_stuck_collective_reported(m, m.shape.blocks as int, i);
    } else {
        lemma_stuck_barrier_reported(m, m.shape.blocks as int, i);
    }
}

proof fn lemma_stuck_warps_kind(m: Machine, block: int, n: int)
    ensures
        forall|k: int|
            0 <= k < machine::stuck_warps(m, block, n).len() ==> (
            #[trigger] machine::stuck_warps(m, block, n)[k]) is WarpDivergence,
    decreases n,
{
    if n > 0 {
        lemma_stuck_warps_kind(m, block, n - 1);
    }
}

/// What warps are stuck at is reported as such.
pub proof fn lemma_stuck_collectives_kind(m: Machine, n: int)
    ensures
        forall|k: int|
            0 <= k < machine::stuck_collectives(m, n).len() ==> (
            #[trigger] machine::stuck_collectives(m, n)[k]) is WarpDivergence,
    decreases n,
{
    if n > 0 {
        lemma_stuck_collectives_kind(m, n - 1);
        lemma_stuck_warps_kind(m, n - 1, m.shape.warps());
        let a = machine::stuck_collectives(m, n - 1);
        let b = machine::stuck_warps(m, n - 1, m.shape.warps());
        assert forall|k: int| 0 <= k < (a + b).len() implies (#[trigger] (a + b)[k]) is WarpDivergence
            by {
            if k < a.len() {
                assert((a + b)[k] == a[k]);
            } else {
                assert((a + b)[k] == b[k - a.len()]);
            }
        }
    }
}

/// What blocks are stuck at is reported as such.
pub proof fn lemma_stuck_barriers_kind(m: Machine, n: int)
    ensures
        forall|k: int|
            0 <= k < machine::stuck_barriers(m, n).len() ==> (
            #[trigger] machine::stuck_barriers(m, n)[k]) is BarrierDivergence,
    decreases n,
{
    if n > 0 {
        lemma_stuck_barriers_kind(m, n - 1);
    }
}

/// When some thread is parked at a warp collective, a wedge is blamed on warps
/// alone; only when none is are barriers blamed.
pub proof fn warps_are_blamed_before_barriers(m: Machine)
    requires
        m.wf(),
    ensures
        (exists|i: int| 0 <= i < m.status.len() && (#[trigger] m.status[i]) is AtWarp) ==> (
        machine::stuck_findings(m).len() > 0 && forall|k: int|
            0 <= k < machine::stuck_findings(m).len() ==> (
            #[trigger] machine::stuck_findings(m)[k]) is WarpDivergence),
        (forall|i: int| 0 <= i < m.status.len() ==> !((#[trigger] m.status[i]) is AtWarp)) ==> (
        forall|k: int|
            0 <= k < machine::stuck_findings(m).len() ==> (
            #[trigger] machine::stuck_findings(m)[k]) is BarrierDivergence),
{
    let n = m.shape.blocks as int;
    lemma_stuck_collectives_kind(m, n);
    lemma_stuck_barriers_kind(m, n);
    if exists|i: int| 0 <= i < m.status.len() && (#[trigger] m.status[i]) is AtWarp {
        let i = choose|i: int| 0 <= i < m.status.len() && (#[trigger] m.status[i]) is AtWarp;
        geometry::every_thread_has_a_lane(m.shape, i);
        lemma_stuck_collective_reported(m, n, i);
    } else {
        lemma_no_stuck_collectives(m, n);
    }
}

/// Where nobody is parked at a collective, no warp is blamed.
pub proof fn lemma_no_stuck_collectives(m: Machine, n: int)
    requires
        m.wf(),
        0 <= n <= m.shape.blocks,
        forall|i: int| 0 <= i < m.status.len() ==> !((#[trigger] m.status[i]) is AtWarp),
    ensures
        machine::stuck_collectives(m, n).len() == 0,
    decreases n,
{
    if n > 0 {
        lemma_no_stuck_collectives(m, n - 1);
        lemma_no_stuck_warps(m, n - 1, m.shape.warps());
    }
}

proof fn lemma_no_stuck_warps(m: Machine, block: int, n: int)
    requires
        m.wf(),
        0 <= block < m.shape.blocks,
        0 <= n <= m.shape.warps(),
        forall|i: int| 0 <= i < m.status.len() ==> !((#[trigger] m.status[i]) is AtWarp),
    ensures
        machine::stuck_warps(m, block, n).len() == 0,
    decreases n,
{
    if n > 0 {
        lemma_no_stuck_warps(m, block, n - 1);
        geometry::lemma_warp_in_block(m.shape, block, n - 1);
        let p = machine::stuck_lanes(m, block, n - 1);
        search::lemma_first_below(p, m.shape.lanes_in(n - 1));
    }
}

// ----------------------------------------------------- warp collectives ---

/// Whether two lanes disagree about who takes part does not depend on which
/// of them is asked, so a mismatch is found whoever parked first.
pub proof fn disagreement_is_mutual(lane: int, mask: u32, other_lane: int, other_mask: u32)
    ensures
        machine::masks_disagree(lane, mask, other_lane, other_mask) == machine::masks_disagree(
            other_lane,
            other_mask,
            lane,
            mask,
        ),
{
}

/// Groups that share no lane do not disagree, even at the same source line.
pub proof fn disjoint_groups_do_not_disagree(
    lane: int,
    mask: u32,
    other_lane: int,
    other_mask: u32,
)
    requires
        lanes::has_lane(mask, lane),
        lanes::has_lane(other_mask, other_lane),
        forall|l: int| !(#[trigger] lanes::has_lane(mask, l) && lanes::has_lane(other_mask, l)),
    ensures
        !machine::masks_disagree(lane, mask, other_lane, other_mask),
{
    assert(!(lanes::has_lane(mask, lane) && lanes::has_lane(other_mask, lane)));
    assert(!(lanes::has_lane(mask, other_lane) && lanes::has_lane(other_mask, other_lane)));
}

/// Leaving a collective raises its warp's epoch by one when the mask names
/// the whole warp, and leaves every other epoch alone; a partial mask and an
/// arrival raise nothing.
pub proof fn only_full_masks_order(m: Machine, block: int, warp: int, wait: WarpWait)
    requires
        m.wf(),
        0 <= block < m.shape.blocks,
        0 <= warp < m.shape.warps(),
        m.warp_gen[m.shape.warp_index(block, warp)] < u64::MAX,
    ensures
        ({
            let after = machine::collective_released(m, block, warp, wait);
            let k = m.shape.warp_index(block, warp);
            &&& after.barrier_gen == m.barrier_gen
            &&& forall|j: int|
                0 <= j < m.warp_gen.len() && j != k ==> #[trigger] after.warp_gen[j]
                    == m.warp_gen[j]
            &&& wait.phase == PHASE_DEPART && wait.mask == m.shape.valid_mask_spec(warp)
                ==> after.warp_gen[k] == m.warp_gen[k] + 1
            &&& wait.phase != PHASE_DEPART || wait.mask != m.shape.valid_mask_spec(warp)
                ==> after.warp_gen == m.warp_gen
        }),
{
    geometry::lemma_warp_index(m.shape, block, warp);
}

/// A barrier lets go of its block together: every thread of the block becomes
/// runnable at once, its epoch is raised by one, and no other block changes.
pub proof fn barriers_release_their_block_together(m: Machine, block: int)
    requires
        m.wf(),
        0 <= block < m.shape.blocks,
        m.barrier_gen[block] < u64::MAX,
    ensures
        ({
            let after = machine::barrier_released(m, block);
            &&& machine::all_in_block(after, block, Status::Runnable)
            &&& after.barrier_gen[block] == m.barrier_gen[block] + 1
            &&& forall|b: int|
                0 <= b < m.shape.blocks && b != block ==> #[trigger] after.barrier_gen[b]
                    == m.barrier_gen[b]
            &&& forall|i: int|
                0 <= i < m.status.len() && m.shape.block_of(i) != block ==> #[trigger] after.status[i]
                    == m.status[i]
            &&& after.warp_gen == m.warp_gen
        }),
{
    geometry::lemma_block_in_launch(m.shape, block);
    let after = machine::barrier_released(m, block);
    assert forall|i: int|
        0 <= i < m.status.len() && m.shape.block_of(i) != block implies #[trigger] after.status[i]
        == m.status[i] by {
        let base = m.shape.block_base(block);
        if base <= i < base + m.shape.threads {
            geometry::lemma_block_of_range(m.shape, block, i);
        }
    }
}

/// Nobody gets past a barrier alone: a thread that reaches one goes on only
/// once every thread of its block has reached it, and they go on together.
pub proof fn nobody_passes_a_barrier_alone(m: Machine, me: int, loc: Location)
    requires
        m.wf(),
        0 <= me < m.shape.total(),
    ensures
        ({
            let block = m.shape.block_of(me);
            let here = machine::arrived_at_barrier(m, me, loc);
            let after = machine::barrier_step(m, me, loc).0;
            &&& after.status[me] is Runnable <==> machine::all_in_block(
                here,
                block,
                Status::AtBarrier,
            )
            &&& after.status[me] is Runnable ==> machine::all_in_block(
                after,
                block,
                Status::Runnable,
            )
            &&& !(after.status[me] is Runnable) ==> after.status == here.status
        }),
{
    geometry::every_thread_has_a_lane(m.shape, me);
    let block = m.shape.block_of(me);
    geometry::lemma_block_in_launch(m.shape, block);
    let here = machine::arrived_at_barrier(m, me, loc);
    let base = m.shape.block_base(block);
    assert(base <= me < base + m.shape.threads);
    assert(here.status[me] is AtBarrier);
    if machine::all_in_block(here, block, Status::AtBarrier) {
        assert(!machine::any_in_block(here, block, Status::Finished));
    }
}

/// Nobody gets past a rendezvous alone: a lane that parks goes on only once
/// every lane its mask names is parked for the same half of the same
/// collective, and they go on together. So no lane can publish for the next
/// collective while a mask-mate is still reading this one.
pub proof fn nobody_passes_a_rendezvous_alone(m: Machine, me: int, wait: WarpWait)
    requires
        m.wf(),
        0 <= me < m.shape.total(),
        lanes::has_lane(wait.mask, m.shape.lane_of(me)),
    ensures
        ({
            let block = m.shape.block_of(me);
            let warp = m.shape.warp_of(me);
            let here = machine::parked(m, me, wait);
            let after = machine::rendezvous_step(m, me, wait).0;
            &&& after.status[me] is Runnable ==> machine::all_arrived(here, block, warp, wait)
            &&& after.status[me] is Runnable ==> forall|i: int|
                0 <= i < m.status.len() ==> #[trigger] after.status[i] == if machine::is_member(
                    m.shape,
                    block,
                    warp,
                    wait.mask,
                    i,
                ) {
                    Status::Runnable
                } else {
                    m.status[i]
                }
            &&& !(after.status[me] is Runnable) ==> after.status == here.status
        }),
{
    geometry::every_thread_has_a_lane(m.shape, me);
    let block = m.shape.block_of(me);
    let warp = m.shape.warp_of(me);
    let here = machine::parked(m, me, wait);
    assert(machine::is_member(m.shape, block, warp, wait.mask, me));
    assert(here.status[me] is AtWarp);
}

/// A lane that can never be joined is reported at once, on every schedule: by
/// the lane that waits when a member has already left, and by the member that
/// leaves when a lane already waits. Either way the launch ends.
pub proof fn a_missing_lane_is_reported(m: Machine, me: int, other: int, wait: WarpWait)
    requires
        m.wf(),
        0 <= me < m.shape.total(),
        0 <= other < m.shape.total(),
        me != other,
        m.shape.block_of(me) == m.shape.block_of(other),
        m.shape.warp_of(me) == m.shape.warp_of(other),
        lanes::has_lane(wait.mask, m.shape.lane_of(other)),
    ensures
        // The other lane has left, and this one comes to wait for it.
        m.status[other] is Finished ==> {
            let (after, ds) = machine::rendezvous_step(m, me, wait);
            after.aborted && ds.len() == 1 && ds[0] is WarpDivergence
        },
        // This lane waits, and the other one leaves.
        m.status[me] is AtWarp && m.warp_wait[me] == Some(wait) ==> {
            let (after, ds) = machine::finish_step(m, other);
            after.aborted && ds.len() == 1 && ds[0] is WarpDivergence
        },
{
    geometry::every_thread_has_a_lane(m.shape, me);
    geometry::every_thread_has_a_lane(m.shape, other);
    let block = m.shape.block_of(me);
    let warp = m.shape.warp_of(me);
    let l = m.shape.lane_of(other);
    let base = m.shape.warp_base(block, warp);
    assert(base + l == other);
    if m.status[other] is Finished {
        let here = machine::parked(m, me, wait);
        assert(here.status[base + l] is Finished);
        assert(machine::member_gone(here, block, warp, wait.mask));
    }
    if m.status[me] is AtWarp && m.warp_wait[me] == Some(wait) {
        let gone = machine::left(m, other);
        let k = m.shape.lane_of(me);
        assert(base + k == me);
        let p = machine::waiting_lanes(gone, block, warp, l);
        assert(machine::waits_for(gone, block, warp, l, k));
        assert(p(k));
        search::lemma_first_below(p, m.shape.lanes_in(warp));
    }
}

/// Two lanes at one collective that disagree about who takes part are
/// reported by whichever of them comes second, and the launch ends.
pub proof fn a_disagreement_is_reported(m: Machine, me: int, other: int, wait: WarpWait)
    requires
        m.wf(),
        0 <= me < m.shape.total(),
        0 <= other < m.shape.total(),
        me != other,
        m.shape.block_of(me) == m.shape.block_of(other),
        m.shape.warp_of(me) == m.shape.warp_of(other),
        machine::parked_with(m, other, wait),
        machine::masks_disagree(
            m.shape.lane_of(me),
            wait.mask,
            m.shape.lane_of(other),
            (m.warp_wait[other]->0).mask,
        ),
    ensures
        ({
            let (after, ds) = machine::rendezvous_step(m, me, wait);
            &&& after.aborted
            &&& ds.len() == 1
            &&& ds[0] is WarpMaskMismatch || ds[0] is WarpDivergence
        }),
{
    geometry::every_thread_has_a_lane(m.shape, me);
    geometry::every_thread_has_a_lane(m.shape, other);
    let block = m.shape.block_of(me);
    let warp = m.shape.warp_of(me);
    let lane = m.shape.lane_of(me);
    let l = m.shape.lane_of(other);
    let here = machine::parked(m, me, wait);
    assert(m.shape.warp_base(block, warp) + l == other);
    let p = machine::disagreeing_lanes(here, block, warp, lane, wait);
    assert(machine::disagrees(here, block, warp, lane, wait, l));
    assert(p(l));
    search::lemma_first_below(p, m.shape.lanes_in(warp));
}

/// A barrier that some thread of the block can never reach is reported at
/// once, by the thread that waits or by the thread that leaves, unless a warp
/// is to blame.
pub proof fn a_missed_barrier_is_reported(m: Machine, me: int, other: int, loc: Location)
    requires
        m.wf(),
        0 <= me < m.shape.total(),
        0 <= other < m.shape.total(),
        me != other,
        m.shape.block_of(me) == m.shape.block_of(other),
    ensures
        m.status[other] is Finished ==> {
            let (after, ds) = machine::barrier_step(m, me, loc);
            after.aborted && ds.len() == 1 && ds[0] is BarrierDivergence
        },
        m.status[me] is AtBarrier ==> {
            let (after, ds) = machine::finish_step(m, other);
            after.aborted && ds.len() == 1 && (ds[0] is BarrierDivergence
                || ds[0] is WarpDivergence)
        },
{
    geometry::every_thread_has_a_lane(m.shape, me);
    geometry::every_thread_has_a_lane(m.shape, other);
    let block = m.shape.block_of(me);
    if m.status[other] is Finished {
        let here = machine::arrived_at_barrier(m, me, loc);
        assert(here.status[other] is Finished);
        assert(machine::any_in_block(here, block, Status::Finished));
    }
    if m.status[me] is AtBarrier {
        let gone = machine::left(m, other);
        assert(gone.status[me] is AtBarrier);
        assert(machine::any_in_block(gone, block, Status::AtBarrier));
    }
}

// -------------------------------------------------------------- replay ---

/// The same state with another source of decisions.
pub open spec fn with_source(m: Machine, source: Source) -> Machine {
    Machine { source, ..m }
}

/// What is left of `full` once the decisions of `m` were taken.
pub open spec fn rest_of(full: Seq<u32>, m: Machine) -> Source {
    Source::Replay(full.skip(m.trace.len() as int))
}

proof fn lemma_stuck_warps_source(m: Machine, source: Source, block: int, n: int)
    ensures
        machine::stuck_warps(with_source(m, source), block, n) == machine::stuck_warps(m, block, n),
    decreases n,
{
    if n > 0 {
        lemma_stuck_warps_source(m, source, block, n - 1);
        let other = with_source(m, source);
        assert(machine::stuck_lanes(other, block, n - 1) =~= machine::stuck_lanes(m, block, n - 1));
        if let Some(l) = machine::first_stuck_lane(m, block, n - 1) {
            let wait = m.warp_wait[m.shape.warp_base(block, n - 1) + l]->0;
            lemma_divergence_source(m, source, block, n - 1, wait);
        }
    }
}

proof fn lemma_divergence_source(m: Machine, source: Source, block: int, warp: int, wait: WarpWait)
    ensures
        machine::warp_divergence(with_source(m, source), block, warp, wait)
            == machine::warp_divergence(m, block, warp, wait),
{
    assert(machine::parked_lanes(with_source(m, source), block, warp, wait)
        =~= machine::parked_lanes(m, block, warp, wait));
}

proof fn lemma_stuck_findings_source(m: Machine, source: Source)
    ensures
        machine::stuck_findings(with_source(m, source)) == machine::stuck_findings(m),
{
    lemma_stuck_collectives_source(m, source, m.shape.blocks as int);
    lemma_stuck_barriers_source(m, source, m.shape.blocks as int);
}

proof fn lemma_stuck_collectives_source(m: Machine, source: Source, n: int)
    ensures
        machine::stuck_collectives(with_source(m, source), n) == machine::stuck_collectives(m, n),
    decreases n,
{
    if n > 0 {
        lemma_stuck_collectives_source(m, source, n - 1);
        lemma_stuck_warps_source(m, source, n - 1, m.shape.warps());
    }
}

proof fn lemma_stuck_barriers_source(m: Machine, source: Source, n: int)
    ensures
        machine::stuck_barriers(with_source(m, source), n) == machine::stuck_barriers(m, n),
    decreases n,
{
    if n > 0 {
        lemma_stuck_barriers_source(m, source, n - 1);
        assert(machine::any_in_block(with_source(m, source), n - 1, Status::AtBarrier)
            == machine::any_in_block(m, n - 1, Status::AtBarrier));
    }
}

/// Whether `full` starts with the decisions of `m`, none of which is missing.
pub open spec fn recorded_by(m: Machine, full: Seq<u32>) -> bool {
    m.trace_complete && m.trace.is_prefix_of(full)
}

/// A decision that was recorded is taken again when the record is replayed.
pub proof fn lemma_picked_replays(m: Machine, full: Seq<u32>)
    requires
        m.status.len() <= u32::MAX,
        m.status.len() <= usize::MAX,
        recorded_by(machine::picked(m), full),
    ensures
        recorded_by(m, full),
        machine::picked(with_source(m, rest_of(full, m))) == with_source(
            machine::picked(m),
            rest_of(full, machine::picked(m)),
        ),
{
    let n = with_source(m, rest_of(full, m));
    let after = machine::picked(m);
    if machine::runnable(m).len() == 0 {
        assert(machine::picked(n) =~= with_source(after, rest_of(full, after)));
    } else {
        lemma_chosen_fits(m);
        let c = machine::chosen(m).0;
        let k = m.trace.len() as int;
        assert(after.trace == m.trace.push(c as u32));
        assert(full[k] == c as u32) by {
            assert(after.trace[k] == c as u32);
        }
        assert(m.trace.is_prefix_of(full)) by {
            assert forall|i: int| 0 <= i < m.trace.len() implies m.trace[i] == full[i] by {
                assert(after.trace[i] == m.trace[i]);
            }
            assert(m.trace =~= full.subrange(0, k));
        }
        let plan = full.skip(k);
        assert(plan[0] == c as u32);
        assert(plan.drop_first() =~= full.skip(k + 1));
        assert(n.is_runnable(plan[0] as int));
        assert(machine::picked(n) =~= with_source(after, rest_of(full, after)));
    }
}

proof fn lemma_chosen_fits(m: Machine)
    requires
        m.status.len() <= u32::MAX,
        m.status.len() <= usize::MAX,
        machine::runnable(m).len() > 0,
    ensures
        m.is_runnable(machine::chosen(m).0 as int),
        machine::chosen(m).0 <= u32::MAX,
{
    machine::lemma_chosen_can_run(m);
}

proof fn lemma_handed_off_replays(m: Machine, full: Seq<u32>)
    requires
        m.status.len() <= u32::MAX,
        m.status.len() <= usize::MAX,
        recorded_by(machine::handed_off(m).0, full),
    ensures
        recorded_by(m, full),
        machine::handed_off(with_source(m, rest_of(full, m))) == (
            with_source(machine::handed_off(m).0, rest_of(full, machine::handed_off(m).0)),
            machine::handed_off(m).1,
        ),
{
    lemma_picked_replays(m, full);
    let next = machine::picked(m);
    lemma_stuck_findings_source(next, rest_of(full, next));
    let n = with_source(m, rest_of(full, m));
    assert(machine::handed_off(n).0 =~= with_source(
        machine::handed_off(m).0,
        rest_of(full, machine::handed_off(m).0),
    ));
}

proof fn lemma_barrier_replays(m: Machine, me: int, loc: Location, full: Seq<u32>)
    requires
        m.wf(),
        0 <= me < m.status.len(),
        recorded_by(machine::barrier_step(m, me, loc).0, full),
    ensures
        recorded_by(m, full),
        machine::barrier_step(with_source(m, rest_of(full, m)), me, loc) == (
            with_source(
                machine::barrier_step(m, me, loc).0,
                rest_of(full, machine::barrier_step(m, me, loc).0),
            ),
            machine::barrier_step(m, me, loc).1,
        ),
{
    let source = rest_of(full, m);
    let n = with_source(m, source);
    let block = m.shape.block_of(me);
    let here = machine::arrived_at_barrier(m, me, loc);
    let there = machine::arrived_at_barrier(n, me, loc);
    assert(there =~= with_source(here, source));
    assert(machine::any_in_block(there, block, Status::Finished) == machine::any_in_block(
        here,
        block,
        Status::Finished,
    ));
    assert(machine::all_in_block(there, block, Status::AtBarrier) == machine::all_in_block(
        here,
        block,
        Status::AtBarrier,
    ));
    if machine::any_in_block(here, block, Status::Finished) {
        assert(machine::barrier_step(n, me, loc).0 =~= with_source(
            machine::barrier_step(m, me, loc).0,
            source,
        ));
    } else if machine::all_in_block(here, block, Status::AtBarrier) {
        let a = machine::barrier_released(here, block);
        let b = machine::barrier_released(there, block);
        assert(b =~= with_source(a, source));
        lemma_handed_off_replays(a, full);
    } else {
        lemma_handed_off_replays(here, full);
    }
}

proof fn lemma_rendezvous_replays(m: Machine, me: int, wait: WarpWait, full: Seq<u32>)
    requires
        m.wf(),
        0 <= me < m.status.len(),
        recorded_by(machine::rendezvous_step(m, me, wait).0, full),
    ensures
        recorded_by(m, full),
        machine::rendezvous_step(with_source(m, rest_of(full, m)), me, wait) == (
            with_source(
                machine::rendezvous_step(m, me, wait).0,
                rest_of(full, machine::rendezvous_step(m, me, wait).0),
            ),
            machine::rendezvous_step(m, me, wait).1,
        ),
{
    let source = rest_of(full, m);
    let n = with_source(m, source);
    let block = m.shape.block_of(me);
    let warp = m.shape.warp_of(me);
    let lane = m.shape.lane_of(me);
    let here = machine::parked(m, me, wait);
    let there = machine::parked(n, me, wait);
    assert(there =~= with_source(here, source));
    assert(machine::member_gone(there, block, warp, wait.mask) == machine::member_gone(
        here,
        block,
        warp,
        wait.mask,
    ));
    assert(machine::all_arrived(there, block, warp, wait) == machine::all_arrived(
        here,
        block,
        warp,
        wait,
    ));
    assert(machine::disagreeing_lanes(there, block, warp, lane, wait)
        =~= machine::disagreeing_lanes(here, block, warp, lane, wait));
    lemma_divergence_source(here, source, block, warp, wait);
    if machine::member_gone(here, block, warp, wait.mask) {
        assert(machine::rendezvous_step(n, me, wait).0 =~= with_source(
            machine::rendezvous_step(m, me, wait).0,
            source,
        ));
    } else if search::first_below(
        machine::disagreeing_lanes(here, block, warp, lane, wait),
        m.shape.lanes_in(warp),
    ) is Some {
        assert(machine::rendezvous_step(n, me, wait).0 =~= with_source(
            machine::rendezvous_step(m, me, wait).0,
            source,
        ));
    } else if machine::all_arrived(here, block, warp, wait) {
        let a = machine::collective_released(here, block, warp, wait);
        let b = machine::collective_released(there, block, warp, wait);
        assert(b =~= with_source(a, source));
        lemma_handed_off_replays(a, full);
    } else {
        lemma_handed_off_replays(here, full);
    }
}

proof fn lemma_finish_replays(m: Machine, me: int, full: Seq<u32>)
    requires
        m.wf(),
        0 <= me < m.status.len(),
        recorded_by(machine::finish_step(m, me).0, full),
    ensures
        recorded_by(m, full),
        machine::finish_step(with_source(m, rest_of(full, m)), me) == (
            with_source(
                machine::finish_step(m, me).0,
                rest_of(full, machine::finish_step(m, me).0),
            ),
            machine::finish_step(m, me).1,
        ),
{
    let source = rest_of(full, m);
    let n = with_source(m, source);
    let block = m.shape.block_of(me);
    let warp = m.shape.warp_of(me);
    let lane = m.shape.lane_of(me);
    let here = machine::left(m, me);
    let there = machine::left(n, me);
    assert(there =~= with_source(here, source));
    assert(machine::waiting_lanes(there, block, warp, lane) =~= machine::waiting_lanes(
        here,
        block,
        warp,
        lane,
    ));
    assert(machine::any_in_block(there, block, Status::AtBarrier) == machine::any_in_block(
        here,
        block,
        Status::AtBarrier,
    ));
    match search::first_below(
        machine::waiting_lanes(here, block, warp, lane),
        m.shape.lanes_in(warp),
    ) {
        Some(l) => {
            let wait = here.warp_wait[m.shape.warp_base(block, warp) + l]->0;
            lemma_divergence_source(here, source, block, warp, wait);
            assert(machine::finish_step(n, me).0 =~= with_source(
                machine::finish_step(m, me).0,
                source,
            ));
        },
        None => if machine::any_in_block(here, block, Status::AtBarrier) {
            assert(machine::finish_step(n, me).0 =~= with_source(
                machine::finish_step(m, me).0,
                source,
            ));
        } else {
            lemma_picked_replays(here, full);
            let next = machine::picked(here);
            lemma_stuck_findings_source(next, rest_of(full, next));
            assert(machine::some_live(with_source(next, rest_of(full, next)))
                == machine::some_live(next));
            assert(machine::finish_step(n, me).0 =~= with_source(
                machine::finish_step(m, me).0,
                rest_of(full, machine::finish_step(m, me).0),
            ));
        },
    }
}

/// An operation whose decisions were recorded leads to the same state and
/// findings when the record is replayed.
pub proof fn lemma_applied_replays(m: Machine, me: int, op: Op, full: Seq<u32>)
    requires
        m.wf(),
        0 <= me < m.status.len(),
        recorded_by(applied(m, me, op).0, full),
    ensures
        recorded_by(m, full),
        applied(with_source(m, rest_of(full, m)), me, op) == (
            with_source(applied(m, me, op).0, rest_of(full, applied(m, me, op).0)),
            applied(m, me, op).1,
        ),
{
    match op {
        Op::Yield => lemma_handed_off_replays(m, full),
        Op::Barrier(loc) => lemma_barrier_replays(m, me, loc, full),
        Op::Rendezvous(wait) => lemma_rendezvous_replays(m, me, wait, full),
        Op::Finish => lemma_finish_replays(m, me, full),
        Op::Abort => {
            let n = with_source(m, rest_of(full, m));
            assert(applied(n, me, op).0 =~= with_source(
                applied(m, me, op).0,
                rest_of(full, applied(m, me, op).0),
            ));
        },
    }
}

/// Every operation keeps the state well formed.
pub proof fn operations_keep_the_state_well_formed(m: Machine, me: int, op: Op)
    requires
        m.wf(),
        0 <= me < m.shape.total(),
    ensures
        applied(m, me, op).0.wf(),
        applied(m, me, op).0.shape == m.shape,
{
    geometry::every_thread_has_a_lane(m.shape, me);
    let block = m.shape.block_of(me);
    let warp = m.shape.warp_of(me);
    match op {
        Op::Yield => {
            machine::lemma_picked_wf(m);
        },
        Op::Barrier(loc) => {
            machine::lemma_arrived_at_barrier_wf(m, me, loc);
            let here = machine::arrived_at_barrier(m, me, loc);
            machine::lemma_barrier_released_wf(here, block);
            machine::lemma_picked_wf(here);
            machine::lemma_picked_wf(machine::barrier_released(here, block));
        },
        Op::Rendezvous(wait) => {
            machine::lemma_parked_wf(m, me, wait);
            let here = machine::parked(m, me, wait);
            machine::lemma_collective_released_wf(here, block, warp, wait);
            machine::lemma_picked_wf(here);
            machine::lemma_picked_wf(machine::collective_released(here, block, warp, wait));
        },
        Op::Finish => {
            machine::lemma_left_wf(m, me);
            machine::lemma_picked_wf(machine::left(m, me));
        },
        Op::Abort => {},
    }
}

/// Whether every operation is one of a thread that exists.
pub open spec fn ops_by_threads(shape: Shape, ops: Seq<(int, Op)>) -> bool {
    forall|i: int| 0 <= i < ops.len() ==> 0 <= (#[trigger] ops[i]).0 < shape.total()
}

proof fn lemma_run_wf(m: Machine, ops: Seq<(int, Op)>)
    requires
        m.wf(),
        ops_by_threads(m.shape, ops),
    ensures
        run(m, ops).wf(),
        run(m, ops).shape == m.shape,
    decreases ops.len(),
{
    if ops.len() > 0 {
        let shorter = ops.drop_last();
        assert forall|i: int| 0 <= i < shorter.len() implies 0 <= (#[trigger] shorter[i]).0
            < m.shape.total() by {
            assert(shorter[i] == ops[i]);
        }
        lemma_run_wf(m, shorter);
        assert(ops.last() == ops[ops.len() - 1]);
        operations_keep_the_state_well_formed(run(m, shorter), ops.last().0, ops.last().1);
    }
}

proof fn lemma_run_replays(m: Machine, ops: Seq<(int, Op)>, full: Seq<u32>)
    requires
        m.wf(),
        ops_by_threads(m.shape, ops),
        recorded_by(run(m, ops), full),
    ensures
        recorded_by(m, full),
        run(with_source(m, rest_of(full, m)), ops) == with_source(
            run(m, ops),
            rest_of(full, run(m, ops)),
        ),
        run_findings(with_source(m, rest_of(full, m)), ops) == run_findings(m, ops),
    decreases ops.len(),
{
    if ops.len() > 0 {
        let shorter = ops.drop_last();
        assert forall|i: int| 0 <= i < shorter.len() implies 0 <= (#[trigger] shorter[i]).0
            < m.shape.total() by {
            assert(shorter[i] == ops[i]);
        }
        assert(ops.last() == ops[ops.len() - 1]);
        lemma_run_wf(m, shorter);
        lemma_applied_replays(run(m, shorter), ops.last().0, ops.last().1, full);
        lemma_run_replays(m, shorter, full);
    }
}

/// A recorded schedule is a complete reproducer by itself: replaying the
/// decisions of a run takes the same operations through the same states and
/// reports the same findings, whatever the decisions came from the first time.
pub proof fn a_recording_replays_its_run(
    shape: Shape,
    first_block: u32,
    source: Source,
    ops: Seq<(int, Op)>,
)
    requires
        shape.wf(),
        first_block + shape.blocks <= u32::MAX,
        ops_by_threads(shape, ops),
        run(machine::picked(machine::fresh(shape, first_block, source)), ops).trace_complete,
    ensures
        ({
            let start = machine::picked(machine::fresh(shape, first_block, source));
            let end = run(start, ops);
            let again = machine::picked(machine::fresh(shape, first_block, Source::Replay(end.trace)));
            &&& run(again, ops) == with_source(end, Source::Replay(Seq::empty()))
            &&& run_findings(again, ops) == run_findings(start, ops)
        }),
{
    let before = machine::fresh(shape, first_block, source);
    let start = machine::picked(before);
    let end = run(start, ops);
    machine::lemma_fresh_wf(shape, first_block, source);
    machine::lemma_picked_wf(before);
    assert(end.trace.is_prefix_of(end.trace)) by {
        assert(end.trace =~= end.trace.subrange(0, end.trace.len() as int));
    }
    lemma_run_replays(start, ops, end.trace);
    lemma_picked_replays(before, end.trace);
    assert(end.trace.skip(0) =~= end.trace);
    assert(with_source(before, rest_of(end.trace, before)) =~= machine::fresh(
        shape,
        first_block,
        Source::Replay(end.trace),
    ));
    assert(end.trace.skip(end.trace.len() as int) =~= Seq::empty());
}

// ---------------------------------------------------------- determinism ---

/// What a deterministic kernel has a thread ask for next, given everything
/// that was asked so far.
pub type Kernel = spec_fn(Seq<(int, Op)>, int) -> Op;

/// Whether the launch is over: it was aborted, or nobody is left to run.
pub open spec fn is_over(m: Machine) -> bool {
    m.aborted || m.current is None
}

/// Whether `ops` is what the kernel does from `m` on: each operation is the
/// kernel's, made by the thread that holds the turn, and none comes after the
/// end.
pub open spec fn is_run_of(kernel: Kernel, m: Machine, ops: Seq<(int, Op)>) -> bool
    decreases ops.len(),
{
    ops.len() == 0 || {
        let before = ops.drop_last();
        let here = run(m, before);
        &&& is_run_of(kernel, m, before)
        &&& !is_over(here)
        &&& here.current matches Some(c) && ops.last() == (c as int, kernel(before, c as int))
    }
}

proof fn lemma_runs_have_runs_before(kernel: Kernel, m: Machine, ops: Seq<(int, Op)>, n: int)
    requires
        is_run_of(kernel, m, ops),
        0 <= n <= ops.len(),
    ensures
        is_run_of(kernel, m, ops.take(n)),
        n < ops.len() ==> !is_over(run(m, ops.take(n))),
    decreases ops.len(),
{
    if n == ops.len() {
        assert(ops.take(n) =~= ops);
    } else {
        let before = ops.drop_last();
        assert(before.take(n) =~= ops.take(n));
        lemma_runs_have_runs_before(kernel, m, before, n);
        if n == before.len() {
            assert(before.take(n) =~= before);
        }
    }
}

proof fn lemma_equally_long_runs_agree(
    kernel: Kernel,
    m: Machine,
    a: Seq<(int, Op)>,
    b: Seq<(int, Op)>,
)
    requires
        is_run_of(kernel, m, a),
        is_run_of(kernel, m, b),
        a.len() == b.len(),
    ensures
        a == b,
    decreases a.len(),
{
    if a.len() == 0 {
        assert(a =~= b);
    } else {
        lemma_equally_long_runs_agree(kernel, m, a.drop_last(), b.drop_last());
        assert(a =~= a.drop_last().push(a.last()));
        assert(b =~= b.drop_last().push(b.last()));
    }
}

/// A seed fixes the entire schedule: of two runs of one kernel with one seed,
/// the shorter is how the longer starts, and two runs to the end are the same
/// run, with the same decisions and the same findings.
pub proof fn a_seed_fixes_the_schedule(
    kernel: Kernel,
    shape: Shape,
    first_block: u32,
    seed: u64,
    a: Seq<(int, Op)>,
    b: Seq<(int, Op)>,
)
    requires
        is_run_of(
            kernel,
            machine::picked(machine::fresh(shape, first_block, Source::Random(seed))),
            a,
        ),
        is_run_of(
            kernel,
            machine::picked(machine::fresh(shape, first_block, Source::Random(seed))),
            b,
        ),
    ensures
        ({
            let start = machine::picked(
                machine::fresh(shape, first_block, Source::Random(seed)),
            );
            &&& a.len() <= b.len() ==> a.is_prefix_of(b)
            &&& is_over(run(start, a)) && is_over(run(start, b)) ==> {
                &&& a == b
                &&& run(start, a).trace == run(start, b).trace
                &&& run_findings(start, a) == run_findings(start, b)
            }
        }),
{
    let start = machine::picked(machine::fresh(shape, first_block, Source::Random(seed)));
    if a.len() <= b.len() {
        lemma_runs_have_runs_before(kernel, start, b, a.len() as int);
        lemma_equally_long_runs_agree(kernel, start, a, b.take(a.len() as int));
        if a.len() == b.len() {
            assert(b.take(a.len() as int) =~= b);
        }
    } else {
        lemma_runs_have_runs_before(kernel, start, a, b.len() as int);
        lemma_equally_long_runs_agree(kernel, start, a.take(b.len() as int), b);
    }
}

/// The turn is only ever held by a thread that exists.
proof fn lemma_runs_are_by_threads(kernel: Kernel, m: Machine, ops: Seq<(int, Op)>)
    requires
        m.wf(),
        is_run_of(kernel, m, ops),
    ensures
        ops_by_threads(m.shape, ops),
    decreases ops.len(),
{
    if ops.len() > 0 {
        let before = ops.drop_last();
        lemma_runs_are_by_threads(kernel, m, before);
        lemma_run_wf(m, before);
        assert forall|i: int| 0 <= i < ops.len() implies 0 <= (#[trigger] ops[i]).0
            < m.shape.total() by {
            if i < before.len() {
                assert(before[i] == ops[i]);
            }
        }
    }
}

proof fn lemma_kernel_replays(
    kernel: Kernel,
    m: Machine,
    ops: Seq<(int, Op)>,
    full: Seq<u32>,
)
    requires
        m.wf(),
        ops_by_threads(m.shape, ops),
        recorded_by(run(m, ops), full),
        is_run_of(kernel, m, ops),
    ensures
        is_run_of(kernel, with_source(m, rest_of(full, m)), ops),
    decreases ops.len(),
{
    if ops.len() > 0 {
        let before = ops.drop_last();
        assert forall|i: int| 0 <= i < before.len() implies 0 <= (#[trigger] before[i]).0
            < m.shape.total() by {
            assert(before[i] == ops[i]);
        }
        assert(ops.last() == ops[ops.len() - 1]);
        lemma_run_wf(m, before);
        lemma_applied_replays(run(m, before), ops.last().0, ops.last().1, full);
        lemma_run_replays(m, before, full);
        lemma_kernel_replays(kernel, m, before, full);
    }
}

/// A recorded schedule reproduces what the kernel did with no seed involved:
/// replaying the decisions of a run is a run of the same kernel, operation
/// for operation.
pub proof fn a_recording_needs_no_seed(
    kernel: Kernel,
    shape: Shape,
    first_block: u32,
    source: Source,
    ops: Seq<(int, Op)>,
)
    requires
        shape.wf(),
        first_block + shape.blocks <= u32::MAX,
        run(machine::picked(machine::fresh(shape, first_block, source)), ops).trace_complete,
        is_run_of(kernel, machine::picked(machine::fresh(shape, first_block, source)), ops),
    ensures
        ({
            let end = run(machine::picked(machine::fresh(shape, first_block, source)), ops);
            is_run_of(
                kernel,
                machine::picked(machine::fresh(shape, first_block, Source::Replay(end.trace))),
                ops,
            )
        }),
{
    let before = machine::fresh(shape, first_block, source);
    let start = machine::picked(before);
    let end = run(start, ops);
    machine::lemma_fresh_wf(shape, first_block, source);
    machine::lemma_picked_wf(before);
    assert(end.trace.is_prefix_of(end.trace)) by {
        assert(end.trace =~= end.trace.subrange(0, end.trace.len() as int));
    }
    lemma_runs_are_by_threads(kernel, start, ops);
    lemma_run_replays(start, ops, end.trace);
    lemma_kernel_replays(kernel, start, ops, end.trace);
    lemma_picked_replays(before, end.trace);
    assert(end.trace.skip(0) =~= end.trace);
    assert(with_source(before, rest_of(end.trace, before)) =~= machine::fresh(
        shape,
        first_block,
        Source::Replay(end.trace),
    ));
}

} // verus!
