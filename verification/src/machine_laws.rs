//! What each scheduling step decides, in terms of the threads it is about.

use vstd::prelude::*;

use crate::diag::Diagnostic;
use crate::geometry::{self, Shape};
use crate::lanes;
use crate::location::Location;
use crate::machine::{self, Machine, Source, Status, WarpWait, PHASE_ARRIVE, PHASE_DEPART};
use crate::sched::{self, Turn, Wake};
use crate::search;

verus! {

// ------------------------------------------------------------- the turn ---

/// The runnable threads are listed in order.
proof fn lemma_runnable_in_order(status: Seq<Status>, n: int)
    requires
        0 <= n <= status.len(),
        status.len() <= usize::MAX,
    ensures
        forall|i: int, j: int|
            0 <= i < j < machine::runnable_below(status, n).len() ==> (
            #[trigger] machine::runnable_below(status, n)[i]) < (#[trigger] machine::runnable_below(
                status,
                n,
            )[j]),
    decreases n,
{
    if n > 0 {
        lemma_runnable_in_order(status, n - 1);
        machine::lemma_runnable_below(status, n - 1);
    }
}

/// When nothing is planned and the thread that was running cannot go on, the
/// turn goes to the first thread that can.
pub proof fn unplanned_turns_go_to_the_first_that_can(m: Machine, plan: Seq<u32>, t: int)
    requires
        m.status.len() <= usize::MAX,
        m.source == Source::Replay(plan),
        plan.len() == 0 || !m.is_runnable(plan[0] as int),
        !(m.current matches Some(c) && m.is_runnable(c as int)),
        m.is_runnable(t),
        forall|i: int| 0 <= i < t ==> !#[trigger] m.is_runnable(i),
    ensures
        machine::picked(m).current == Some(t as usize),
{
    let r = machine::runnable(m);
    machine::lemma_runnable_below(m.status, m.status.len() as int);
    lemma_runnable_in_order(m.status, m.status.len() as int);
    assert(m.status[t] is Runnable);
    assert(r.contains(t as usize));
    let k = choose|k: int| 0 <= k < r.len() && r[k] == t as usize;
    if k > 0 {
        assert(r[0] < r[k]);
        assert(!m.is_runnable(r[0] as int));
    }
}

/// A plan is spent one decision at a time, whether or not the thread it names
/// can run, and a spent plan stays spent.
pub proof fn plans_are_spent_one_by_one(m: Machine, plan: Seq<u32>)
    requires
        m.status.len() <= usize::MAX,
        m.source == Source::Replay(plan),
        exists|i: int| #[trigger] m.is_runnable(i),
    ensures
        plan.len() > 0 ==> machine::picked(m).source == Source::Replay(plan.drop_first()),
        plan.len() == 0 ==> machine::picked(m).source == Source::Replay(plan),
{
    let i = choose|i: int| #[trigger] m.is_runnable(i);
    machine::lemma_runnable_below(m.status, m.status.len() as int);
    assert(m.status[i] is Runnable);
    assert(machine::runnable(m).contains(i as usize));
}

/// Every decision is recorded while fewer than 1048576 are, and what was not
/// recorded makes the recording incomplete for good. Where nobody can run there
/// is no decision.
pub proof fn decisions_are_recorded(m: Machine)
    requires
        m.wf(),
    ensures
        ({
            let after = machine::picked(m);
            &&& after.current matches Some(c) ==> {
                &&& m.trace.len() < 1048576 ==> after.trace == m.trace.push(c as u32)
                    && after.trace_complete == m.trace_complete
                &&& m.trace.len() >= 1048576 ==> after.trace == m.trace && !after.trace_complete
            }
            &&& after.current is None ==> after.trace == m.trace && after.trace_complete
                == m.trace_complete && after.source == m.source
        }),
{
}

/// Handing out the turn moves nobody and raises no epoch.
pub proof fn handing_out_the_turn_changes_nothing_else(m: Machine)
    ensures
        machine::picked(m).status == m.status,
        machine::picked(m).warp_wait == m.warp_wait,
        machine::picked(m).barrier_gen == m.barrier_gen,
        machine::picked(m).barrier_loc == m.barrier_loc,
        machine::picked(m).warp_gen == m.warp_gen,
        machine::picked(m).shape == m.shape,
        machine::picked(m).first_block == m.first_block,
        machine::picked(m).aborted == m.aborted,
        machine::handed_off(m).0.status == m.status,
        machine::handed_off(m).0.barrier_gen == m.barrier_gen,
        machine::handed_off(m).0.warp_gen == m.warp_gen,
{
}

/// A thread may go on exactly when it holds the turn of a launch that was not
/// aborted; everybody has to unwind from one that was.
pub proof fn only_the_holder_of_the_turn_goes_on(m: Machine, me: int)
    ensures
        sched::turn_of(m, me) == Turn::Aborted <==> m.aborted,
        sched::turn_of(m, me) == Turn::Go <==> !m.aborted && m.current is Some && m.current->0
            == me,
        sched::wake_of(m) == Wake::All <==> m.aborted,
        sched::wake_of(m) == Wake::Nobody <==> !m.aborted && m.current is None,
        forall|next: usize| #[trigger]
            sched::wake_of(m) == Wake::One(next) <==> sched::turn_of(m, next as int) == Turn::Go,
{
}

/// A launch starts with everybody able to run, nobody waiting, and every epoch
/// at zero; its record goes on where the last wave left it.
pub proof fn launches_start_with_everybody_running(
    shape: Shape,
    first_block: u32,
    source: Source,
    trace: Seq<u32>,
    trace_complete: bool,
)
    requires
        shape.wf(),
    ensures
        ({
            let m = machine::resumed(shape, first_block, source, trace, trace_complete);
            &&& m.status.len() == shape.total()
            &&& forall|i: int| 0 <= i < m.status.len() ==> #[trigger] m.is_runnable(i)
            &&& forall|b: int| 0 <= b < shape.blocks ==> #[trigger] m.barrier_gen[b] == 0
            &&& forall|k: int| 0 <= k < m.warp_gen.len() ==> #[trigger] m.warp_gen[k] == 0
            &&& m.trace == trace && m.trace_complete == trace_complete
            &&& m.source == source && m.first_block == first_block && m.shape == shape
            &&& !m.aborted && m.current is None
        }),
{
    geometry::lemma_warp_count(shape);
}

// -------------------------------------------------------------- barriers ---

/// A barrier lets its block go exactly when the thread that comes is the last
/// of it, and that is the only time the block's epoch is raised, by one.
pub proof fn barriers_wait_for_the_whole_block(m: Machine, me: int, loc: Location)
    requires
        m.wf(),
        0 <= me < m.shape.total(),
        m.barrier_gen[m.shape.block_of(me)] < u64::MAX,
    ensures
        ({
            let block = m.shape.block_of(me);
            let after = machine::barrier_step(m, me, loc).0;
            let last = forall|i: int|
                0 <= i < m.shape.total() && #[trigger] m.shape.block_of(i) == block && i != me
                    ==> m.status[i] is AtBarrier;
            &&& after.status[me] is Runnable <==> last
            &&& last ==> after.barrier_gen[block] == m.barrier_gen[block] + 1
            &&& !last ==> after.barrier_gen == m.barrier_gen && after.status[me] is AtBarrier
            &&& last ==> forall|i: int|
                0 <= i < m.shape.total() ==> #[trigger] after.status[i] == if m.shape.block_of(i)
                    == block {
                    Status::Runnable
                } else {
                    m.status[i]
                }
        }),
{
    let block = m.shape.block_of(me);
    let base = m.shape.block_base(block);
    let here = machine::arrived_at_barrier(m, me, loc);
    let after = machine::barrier_step(m, me, loc).0;
    geometry::every_thread_has_a_lane(m.shape, me);
    geometry::lemma_block_in_launch(m.shape, block);
    assert forall|i: int| 0 <= i < m.shape.total() implies (#[trigger] m.shape.block_of(i) == block
        <==> base <= i < base + m.shape.threads) by {
        geometry::every_thread_has_a_lane(m.shape, i);
        if base <= i < base + m.shape.threads {
            geometry::lemma_block_of_range(m.shape, block, i);
        }
    }
    assert(here.status[me] is AtBarrier);
    if machine::all_in_block(here, block, Status::AtBarrier) {
        assert forall|i: int|
            0 <= i < m.shape.total() && #[trigger] m.shape.block_of(i) == block && i
                != me implies m.status[i] is AtBarrier by {
            assert(here.status[i] == Status::AtBarrier);
        }
        assert(!machine::any_in_block(here, block, Status::Finished));
    } else {
        let i = choose|i: int|
            base <= i < base + m.shape.threads && (#[trigger] here.status[i]) != Status::AtBarrier;
        assert(m.shape.block_of(i) == block);
    }
}

/// The place a block's waiting threads are blocked at is that of the first of
/// them, until they are let go.
pub proof fn the_first_to_wait_names_the_barrier(m: Machine, me: int, loc: Location)
    requires
        m.wf(),
        0 <= me < m.shape.total(),
    ensures
        ({
            let block = m.shape.block_of(me);
            let here = machine::arrived_at_barrier(m, me, loc);
            &&& m.barrier_loc[block] is None ==> here.barrier_loc[block] == Some(loc)
            &&& m.barrier_loc[block] is Some ==> here.barrier_loc[block] == m.barrier_loc[block]
            &&& machine::barrier_released(here, block).barrier_loc[block] is None
        }),
{
    geometry::every_thread_has_a_lane(m.shape, me);
}

/// The threads of a block with some status.
pub open spec fn threads_with(m: Machine, block: int, what: Status) -> Set<int> {
    Set::new(
        |i: int| 0 <= i < m.status.len() && m.shape.block_of(i) == block && m.status[i] == what,
    )
}

proof fn lemma_count(status: Seq<Status>, base: int, n: int, what: Status)
    requires
        0 <= base,
        0 <= n,
    ensures
        ({
            let s = Set::new(|i: int| base <= i < base + n && status[i] == what);
            s.finite() && s.len() == machine::count_status(status, base, n, what)
        }),
    decreases n,
{
    let all = Set::new(|i: int| base <= i < base + n && status[i] == what);
    if n == 0 {
        assert(all =~= Set::empty());
    } else {
        let some = Set::new(|i: int| base <= i < base + (n - 1) && status[i] == what);
        lemma_count(status, base, n - 1, what);
        if status[base + n - 1] == what {
            assert(all =~= some.insert(base + n - 1));
        } else {
            assert(all =~= some);
        }
    }
}

/// A barrier that cannot be passed is reported with its block, where its
/// threads wait, how many of them do, and how many have left the kernel.
pub proof fn barrier_findings_count_their_threads(m: Machine, block: int)
    requires
        m.wf(),
        0 <= block < m.shape.blocks,
        m.barrier_loc[block] is Some,
    ensures
        ({
            &&& machine::barrier_divergence(m, block) matches Diagnostic::BarrierDivergence {
                block: b,
                waiting,
                exited,
                barrier,
            }
            &&& b == m.first_block + block
            &&& waiting == threads_with(m, block, Status::AtBarrier).len()
            &&& exited == threads_with(m, block, Status::Finished).len()
            &&& Some(barrier) == m.barrier_loc[block]
        }),
{
    let base = m.shape.block_base(block);
    let n = m.shape.threads as int;
    geometry::lemma_block_in_launch(m.shape, block);
    assert forall|i: int| 0 <= i < m.shape.total() implies (#[trigger] m.shape.block_of(i) == block
        <==> base <= i < base + n) by {
        geometry::every_thread_has_a_lane(m.shape, i);
        if base <= i < base + n {
            geometry::lemma_block_of_range(m.shape, block, i);
        }
    }
    lemma_count(m.status, base, n, Status::AtBarrier);
    lemma_count(m.status, base, n, Status::Finished);
    lemma_count_bound(m.status, base, n, Status::AtBarrier);
    lemma_count_bound(m.status, base, n, Status::Finished);
    assert(threads_with(m, block, Status::AtBarrier) =~= Set::new(
        |i: int| base <= i < base + n && m.status[i] == Status::AtBarrier,
    ));
    assert(threads_with(m, block, Status::Finished) =~= Set::new(
        |i: int| base <= i < base + n && m.status[i] == Status::Finished,
    ));
}

proof fn lemma_count_bound(status: Seq<Status>, base: int, n: int, what: Status)
    requires
        0 <= n,
    ensures
        machine::count_status(status, base, n, what) <= n,
    decreases n,
{
    if n > 0 {
        lemma_count_bound(status, base, n - 1, what);
    }
}

// ----------------------------------------------------------- collectives ---

/// A collective that cannot be completed is reported with its block and warp,
/// what the waiting lanes asked for, and exactly the lanes of the warp that are
/// parked in the same half at the same place.
pub proof fn warp_findings_name_who_arrived(m: Machine, block: int, warp: int, wait: WarpWait)
    requires
        m.wf(),
        0 <= block < m.shape.blocks,
        0 <= warp < m.shape.warps(),
    ensures
        ({
            &&& machine::warp_divergence(m, block, warp, wait) matches Diagnostic::WarpDivergence {
                block: b,
                warp: w,
                op,
                mask,
                arrived,
                at,
            }
            &&& b == m.first_block + block
            &&& w == warp
            &&& op == wait.op && mask == wait.mask && at == wait.at
            &&& forall|l: int| #[trigger]
                lanes::has_lane(arrived, l) <==> 0 <= l < m.shape.lanes_in(warp) && {
                    let p = m.shape.warp_base(block, warp) + l;
                    &&& m.status[p] is AtWarp
                    &&& m.warp_wait[p] is Some
                    &&& m.warp_wait[p]->0.phase == wait.phase
                    &&& m.warp_wait[p]->0.at@ == wait.at@
                }
        }),
{
    geometry::lemma_warp_in_block(m.shape, block, warp);
    geometry::lemma_warp_count(m.shape);
    let p = machine::parked_lanes(m, block, warp, wait);
    let arrived = machine::arrived_mask(m, block, warp, wait);
    assert forall|l: int| #[trigger] lanes::has_lane(arrived, l) <==> 0 <= l < m.shape.lanes_in(
        warp,
    ) && {
        let q = m.shape.warp_base(block, warp) + l;
        &&& m.status[q] is AtWarp
        &&& m.warp_wait[q] is Some
        &&& m.warp_wait[q]->0.phase == wait.phase
        &&& m.warp_wait[q]->0.at@ == wait.at@
    } by {
        lanes::mask_names_its_members(p, m.shape.lanes_in(warp), l);
    }
}

/// Whether a thread waits for exactly what `wait` says: the same half of the
/// same collective, at the same place, with the same mask.
pub open spec fn waits_like(m: Machine, gid: int, wait: WarpWait) -> bool {
    &&& m.status[gid] is AtWarp
    &&& m.warp_wait[gid] is Some
    &&& m.warp_wait[gid]->0.phase == wait.phase
    &&& m.warp_wait[gid]->0.at@ == wait.at@
    &&& m.warp_wait[gid]->0.mask == wait.mask
    &&& m.warp_wait[gid]->0.op@ == wait.op@
}

/// A lane that gets past a rendezvous was the last its mask was waiting for:
/// every other lane the mask names was parked there, for the same half of the
/// same collective and with the same mask.
pub proof fn a_rendezvous_waits_for_all_it_names(m: Machine, me: int, wait: WarpWait, l: int)
    requires
        m.wf(),
        0 <= me < m.shape.total(),
        lanes::has_lane(wait.mask, m.shape.lane_of(me)),
        machine::rendezvous_step(m, me, wait).0.status[me] is Runnable,
        0 <= l < m.shape.lanes_in(m.shape.warp_of(me)),
        lanes::has_lane(wait.mask, l),
        l != m.shape.lane_of(me),
    ensures
        waits_like(m, m.shape.warp_base(m.shape.block_of(me), m.shape.warp_of(me)) + l, wait),
{
    let block = m.shape.block_of(me);
    let warp = m.shape.warp_of(me);
    let here = machine::parked(m, me, wait);
    geometry::every_thread_has_a_lane(m.shape, me);
    assert(machine::is_member(m.shape, block, warp, wait.mask, me));
    assert(here.status[me] is AtWarp);
    assert(machine::all_arrived(here, block, warp, wait));
    let p = m.shape.warp_base(block, warp) + l;
    geometry::lemma_warp_in_block(m.shape, block, warp);
    assert(p != me);
    assert(here.status[p] == m.status[p] && here.warp_wait[p] == m.warp_wait[p]);
    assert(lanes::has_lane(wait.mask, l));
    assert(machine::parked_with(here, p, wait));
}

/// A rendezvous is completed by the last lane it waits for: when all other
/// lanes the mask names are parked there for the same, and no lane it leaves
/// out is at a collective, they all go on together, and so does the lane that
/// came.
pub proof fn the_last_lane_completes_a_rendezvous(m: Machine, me: int, wait: WarpWait)
    requires
        m.wf(),
        0 <= me < m.shape.total(),
        lanes::has_lane(wait.mask, m.shape.lane_of(me)),
        forall|l: int|
            0 <= l < m.shape.lanes_in(m.shape.warp_of(me)) && l != m.shape.lane_of(me) ==> {
                let p = m.shape.warp_base(m.shape.block_of(me), m.shape.warp_of(me)) + l;
                &&& #[trigger] lanes::has_lane(wait.mask, l) ==> waits_like(m, p, wait)
                &&& !lanes::has_lane(wait.mask, l) ==> !(m.status[p] is AtWarp)
            },
    ensures
        ({
            let base = m.shape.warp_base(m.shape.block_of(me), m.shape.warp_of(me));
            let after = machine::rendezvous_step(m, me, wait).0;
            &&& forall|l: int|
                0 <= l < m.shape.lanes_in(m.shape.warp_of(me)) && #[trigger] lanes::has_lane(
                    wait.mask,
                    l,
                ) ==> after.status[base + l] is Runnable
            &&& after.status[me] is Runnable
            &&& after.aborted == m.aborted
        }),
{
    let block = m.shape.block_of(me);
    let warp = m.shape.warp_of(me);
    let lane = m.shape.lane_of(me);
    let base = m.shape.warp_base(block, warp);
    let here = machine::parked(m, me, wait);
    geometry::every_thread_has_a_lane(m.shape, me);
    geometry::lemma_warp_in_block(m.shape, block, warp);
    assert(base + lane == me);
    assert forall|l: int|
        0 <= l < m.shape.lanes_in(warp) && #[trigger] lanes::has_lane(wait.mask, l) implies {
        let p = base + l;
        machine::parked_with(here, p, wait) && (here.warp_wait[p]->0).mask == wait.mask && (
        here.warp_wait[p]->0).op@ == wait.op@
    } by {
        if l != lane {
            assert(waits_like(m, base + l, wait));
        }
    }
    assert(!machine::member_gone(here, block, warp, wait.mask)) by {
        if machine::member_gone(here, block, warp, wait.mask) {
            let l = choose|l: int|
                0 <= l < m.shape.lanes_in(warp) && #[trigger] lanes::has_lane(wait.mask, l)
                    && here.status[base + l] is Finished;
            assert(machine::parked_with(here, base + l, wait));
        }
    }
    let p = machine::disagreeing_lanes(here, block, warp, lane, wait);
    search::lemma_first_below(p, m.shape.lanes_in(warp));
    if let Some(l) = search::first_below(p, m.shape.lanes_in(warp)) {
        assert(machine::disagrees(here, block, warp, lane, wait, l));
        assert(here.status[base + l] is AtWarp);
        if lanes::has_lane(wait.mask, l) {
            assert(waits_like(m, base + l, wait));
        } else {
            assert(m.status[base + l] is AtWarp);
        }
    }
    let free = machine::collective_released(here, block, warp, wait);
    assert forall|l: int|
        0 <= l < m.shape.lanes_in(warp) && #[trigger] lanes::has_lane(
            wait.mask,
            l,
        ) implies free.status[base + l] is Runnable by {
        assert(machine::is_member(m.shape, block, warp, wait.mask, base + l));
    }
    lemma_somebody_can_run(free, me);
}

proof fn lemma_somebody_can_run(m: Machine, t: int)
    requires
        m.status.len() <= usize::MAX,
        m.is_runnable(t),
    ensures
        machine::picked(m).current is Some,
{
    machine::lemma_runnable_below(m.status, m.status.len() as int);
    assert(m.status[t] is Runnable);
    assert(machine::runnable(m).contains(t as usize));
}

/// Leaving a collective whose mask names all existing lanes of its warp raises
/// that warp's epoch by one; arriving, and leaving one that leaves a lane out,
/// raise none. No other warp is affected.
pub proof fn whole_warps_count_their_collectives(
    m: Machine,
    block: int,
    warp: int,
    wait: WarpWait,
    other_block: int,
    other_warp: int,
)
    requires
        m.wf(),
        0 <= block < m.shape.blocks,
        0 <= warp < m.shape.warps(),
        0 <= other_block < m.shape.blocks,
        0 <= other_warp < m.shape.warps(),
        m.warp_gen[m.shape.warp_index(block, warp)] < u64::MAX,
    ensures
        ({
            let after = machine::collective_released(m, block, warp, wait);
            let whole = forall|l: int| #[trigger]
                lanes::has_lane(wait.mask, l) <==> 0 <= l < m.shape.lanes_in(warp);
            let gen = |n: Machine, b: int, w: int| n.warp_gen[m.shape.warp_index(b, w)];
            &&& wait.phase == 1 && whole ==> gen(after, block, warp) == gen(m, block, warp) + 1
            &&& wait.phase != 1 || !whole ==> gen(after, block, warp) == gen(m, block, warp)
            &&& other_block != block || other_warp != warp ==> gen(after, other_block, other_warp)
                == gen(m, other_block, other_warp)
            &&& PHASE_ARRIVE != PHASE_DEPART && PHASE_DEPART == 1
        }),
{
    let sh = m.shape;
    geometry::lemma_warp_index(sh, block, warp);
    geometry::lemma_warp_index(sh, other_block, other_warp);
    if sh.warp_index(block, warp) == sh.warp_index(other_block, other_warp) {
        geometry::warps_have_places_of_their_own(sh, block, warp, other_block, other_warp);
    }
    geometry::lemma_warp_in_block(sh, block, warp);
    let valid = sh.valid_mask_spec(warp);
    let n = sh.lanes_in(warp);
    assert forall|l: int| #[trigger] lanes::has_lane(valid, l) <==> 0 <= l < n by {
        lanes::low_masks_name_the_first_lanes(n, l);
    }
    if forall|l: int| #[trigger] lanes::has_lane(wait.mask, l) <==> 0 <= l < n {
        lanes::masks_agree_when_lanes_do(wait.mask, valid);
    }
}

// ---------------------------------------------------------------- ending ---

/// A thread that returns last ends the launch quietly: nobody holds the turn,
/// nothing is reported, and the launch is not aborted.
pub proof fn the_last_thread_ends_the_launch(m: Machine, me: int)
    requires
        m.wf(),
        0 <= me < m.shape.total(),
        !m.aborted,
        forall|i: int| 0 <= i < m.shape.total() && i != me ==> (#[trigger] m.status[i]) is Finished,
    ensures
        ({
            let (after, ds) = machine::finish_step(m, me);
            after.current is None && !after.aborted && ds.len() == 0 && after.status[me] is Finished
        }),
{
    let gone = machine::left(m, me);
    let block = m.shape.block_of(me);
    let warp = m.shape.warp_of(me);
    let lane = m.shape.lane_of(me);
    geometry::every_thread_has_a_lane(m.shape, me);
    geometry::lemma_warp_in_block(m.shape, block, warp);
    geometry::lemma_block_in_launch(m.shape, block);
    assert forall|i: int| 0 <= i < gone.status.len() implies (
    #[trigger] gone.status[i]) is Finished by {
        if i != me {
            assert(m.status[i] is Finished);
        }
    }
    let p = machine::waiting_lanes(gone, block, warp, lane);
    search::lemma_first_below(p, m.shape.lanes_in(warp));
    if let Some(l) = search::first_below(p, m.shape.lanes_in(warp)) {
        assert(gone.status[m.shape.warp_base(block, warp) + l] is Finished);
        assert(machine::waits_for(gone, block, warp, lane, l));
    }
    machine::lemma_runnable_below(gone.status, gone.status.len() as int);
    if machine::runnable(gone).len() > 0 {
        let x = machine::runnable(gone)[0];
        assert(gone.status[x as int] is Runnable);
    }
}

/// A thread that returns while nobody waits for it leaves the others as they
/// were, and one of them goes on.
pub proof fn returning_leaves_the_others_running(m: Machine, me: int, other: int)
    requires
        m.wf(),
        0 <= me < m.shape.total(),
        0 <= other < m.shape.total(),
        other != me,
        m.status[other] is Runnable,
        forall|i: int|
            0 <= i < m.shape.total() ==> (#[trigger] m.status[i]) is Runnable || m.status[i]
                is Finished,
    ensures
        ({
            let (after, ds) = machine::finish_step(m, me);
            &&& ds.len() == 0
            &&& after.aborted == m.aborted
            &&& after.current is Some
            &&& after.status == m.status.update(me, Status::Finished)
        }),
{
    let gone = machine::left(m, me);
    let block = m.shape.block_of(me);
    let warp = m.shape.warp_of(me);
    let lane = m.shape.lane_of(me);
    geometry::every_thread_has_a_lane(m.shape, me);
    geometry::lemma_warp_in_block(m.shape, block, warp);
    geometry::lemma_block_in_launch(m.shape, block);
    assert forall|i: int| 0 <= i < gone.status.len() implies (
    #[trigger] gone.status[i]) is Runnable || gone.status[i] is Finished by {
        assert(m.status[i] is Runnable || m.status[i] is Finished);
    }
    let p = machine::waiting_lanes(gone, block, warp, lane);
    search::lemma_first_below(p, m.shape.lanes_in(warp));
    if let Some(l) = search::first_below(p, m.shape.lanes_in(warp)) {
        let q = m.shape.warp_base(block, warp) + l;
        assert(gone.status[q] is Runnable || gone.status[q] is Finished);
        assert(machine::waits_for(gone, block, warp, lane, l));
    }
    assert(gone.is_runnable(other));
    lemma_somebody_can_run(gone, other);
}

/// A lane of a warp belongs to that warp.
proof fn lemma_of_its_warp(sh: Shape, block: int, warp: int, l: int)
    requires
        sh.wf(),
        0 <= block < sh.blocks,
        0 <= warp < sh.warps(),
        0 <= l < sh.lanes_in(warp),
    ensures
        sh.block_of(sh.warp_base(block, warp) + l) == block,
        sh.warp_of(sh.warp_base(block, warp) + l) == warp,
        sh.lane_of(sh.warp_base(block, warp) + l) == l,
{
    let gid = sh.warp_base(block, warp) + l;
    let (n, w) = (sh.threads as int, sh.warp_size as int);
    geometry::lemma_warp_in_block(sh, block, warp);
    geometry::lemma_block_of_range(sh, block, gid);
    assert(block * n == n * block) by (nonlinear_arith);
    assert(warp * w == w * warp) by (nonlinear_arith);
    vstd::arithmetic::div_mod::lemma_fundamental_div_mod_converse(gid, n, block, warp * w + l);
    vstd::arithmetic::div_mod::lemma_fundamental_div_mod_converse(warp * w + l, w, warp, l);
}

/// A thread that returns while a lane of its warp waits at a collective that
/// names it cannot be waited for any more: the launch ends, and the collective
/// is named.
pub proof fn returning_fails_the_collectives_that_name_it(m: Machine, me: int, other: int)
    requires
        m.wf(),
        0 <= me < m.shape.total(),
        0 <= other < m.shape.total(),
        other != me,
        m.shape.block_of(other) == m.shape.block_of(me),
        m.shape.warp_of(other) == m.shape.warp_of(me),
        m.status[other] is AtWarp,
        lanes::has_lane((m.warp_wait[other]->0).mask, m.shape.lane_of(me)),
    ensures
        ({
            let (after, ds) = machine::finish_step(m, me);
            &&& after.aborted
            &&& ds.len() == 1
            &&& ds[0] matches Diagnostic::WarpDivergence { block, warp, op, mask, at, .. }
            &&& block == m.first_block + m.shape.block_of(me)
            &&& warp == m.shape.warp_of(me)
            &&& lanes::has_lane(mask, m.shape.lane_of(me))
            &&& exists|i: int|
                0 <= i < m.shape.total() && i != me && (#[trigger] m.status[i]) is AtWarp && (
                m.warp_wait[i]->0).mask == mask && (m.warp_wait[i]->0).op == op && (
                m.warp_wait[i]->0).at == at
        }),
{
    let gone = machine::left(m, me);
    let block = m.shape.block_of(me);
    let warp = m.shape.warp_of(me);
    let lane = m.shape.lane_of(me);
    geometry::every_thread_has_a_lane(m.shape, me);
    geometry::every_thread_has_a_lane(m.shape, other);
    geometry::lemma_warp_in_block(m.shape, block, warp);
    geometry::lemma_block_in_launch(m.shape, block);
    let p = machine::waiting_lanes(gone, block, warp, lane);
    search::lemma_first_below(p, m.shape.lanes_in(warp));
    assert(machine::waits_for(gone, block, warp, lane, m.shape.lane_of(other)));
    assert(p(m.shape.lane_of(other)));
    let l = search::first_below(p, m.shape.lanes_in(warp))->0;
    assert(machine::waits_for(gone, block, warp, lane, l));
    let i = m.shape.warp_base(block, warp) + l;
    assert(gone.status[i] is AtWarp);
    assert(m.status[i] is AtWarp);
}

/// A thread that returns while nobody waits for it leaves the others be: lanes
/// at collectives that do not name it wait on, and so do other blocks.
pub proof fn returning_leaves_strangers_waiting(m: Machine, me: int, other: int)
    requires
        m.wf(),
        0 <= me < m.shape.total(),
        0 <= other < m.shape.total(),
        other != me,
        m.status[other] is Runnable,
        forall|i: int|
            0 <= i < m.shape.total() && m.shape.block_of(i) == m.shape.block_of(me) ==> (
            #[trigger] m.status[i]) !is AtBarrier,
        forall|i: int|
            0 <= i < m.shape.total() && m.shape.block_of(i) == m.shape.block_of(me)
                && m.shape.warp_of(i) == m.shape.warp_of(me) && (#[trigger] m.status[i]) is AtWarp
                ==> !lanes::has_lane((m.warp_wait[i]->0).mask, m.shape.lane_of(me)),
    ensures
        ({
            let (after, ds) = machine::finish_step(m, me);
            &&& ds.len() == 0
            &&& after.aborted == m.aborted
            &&& after.current is Some
            &&& after.status == m.status.update(me, Status::Finished)
            &&& after.warp_wait == m.warp_wait
        }),
{
    let gone = machine::left(m, me);
    let block = m.shape.block_of(me);
    let warp = m.shape.warp_of(me);
    let lane = m.shape.lane_of(me);
    geometry::every_thread_has_a_lane(m.shape, me);
    geometry::lemma_warp_in_block(m.shape, block, warp);
    geometry::lemma_block_in_launch(m.shape, block);
    let p = machine::waiting_lanes(gone, block, warp, lane);
    search::lemma_first_below(p, m.shape.lanes_in(warp));
    if let Some(l) = search::first_below(p, m.shape.lanes_in(warp)) {
        let q = m.shape.warp_base(block, warp) + l;
        assert(machine::waits_for(gone, block, warp, lane, l));
        assert(q != me);
        assert(m.status[q] is AtWarp);
        geometry::every_thread_has_a_lane(m.shape, q);
        lemma_of_its_warp(m.shape, block, warp, l);
    }
    if machine::any_in_block(gone, block, Status::AtBarrier) {
        let base = m.shape.block_base(block);
        let i = choose|i: int|
            base <= i < base + m.shape.threads && (#[trigger] gone.status[i]) == Status::AtBarrier;
        assert(m.status[i] is AtBarrier);
        geometry::lemma_block_of_range(m.shape, block, i);
    }
    assert(gone.is_runnable(other));
    lemma_somebody_can_run(gone, other);
}

// --------------------------------------------------------------- wedging ---

/// Whether a finding is about this warp.
pub open spec fn is_about_warp(m: Machine, d: Diagnostic, block: int, warp: int) -> bool {
    d matches Diagnostic::WarpDivergence { block: b, warp: w, .. } && b == m.first_block + block
        && w == warp
}

/// Whether a finding is about the barrier of this block.
pub open spec fn is_about_barrier(m: Machine, d: Diagnostic, block: int) -> bool {
    d matches Diagnostic::BarrierDivergence { block: b, .. } && b == m.first_block + block
}

proof fn lemma_warp_named(m: Machine, block: int, n: int, w: int, l: int)
    requires
        m.wf(),
        0 <= block < m.shape.blocks,
        0 <= w < n <= m.shape.warps(),
        0 <= l < m.shape.lanes_in(w),
        m.status[m.shape.warp_base(block, w) + l] is AtWarp,
    ensures
        exists|k: int|
            0 <= k < machine::stuck_warps(m, block, n).len() && is_about_warp(
                m,
                #[trigger] machine::stuck_warps(m, block, n)[k],
                block,
                w,
            ),
    decreases n,
{
    let all = machine::stuck_warps(m, block, n);
    let rest = machine::stuck_warps(m, block, n - 1);
    geometry::lemma_warp_count(m.shape);
    geometry::lemma_block_in_launch(m.shape, block);
    if w == n - 1 {
        let p = machine::stuck_lanes(m, block, w);
        search::lemma_first_below(p, m.shape.lanes_in(w));
        assert(p(l));
        assert(is_about_warp(m, all[rest.len() as int], block, w));
    } else {
        lemma_warp_named(m, block, n - 1, w, l);
        let k = choose|k: int|
            0 <= k < rest.len() && is_about_warp(m, #[trigger] rest[k], block, w);
        assert(all[k] == rest[k]);
    }
}

proof fn lemma_stuck_lane_named(m: Machine, n: int, gid: int)
    requires
        m.wf(),
        0 <= n <= m.shape.blocks,
        0 <= gid < m.shape.total(),
        m.shape.block_of(gid) < n,
        m.status[gid] is AtWarp,
    ensures
        exists|k: int|
            0 <= k < machine::stuck_collectives(m, n).len() && is_about_warp(
                m,
                #[trigger] machine::stuck_collectives(m, n)[k],
                m.shape.block_of(gid),
                m.shape.warp_of(gid),
            ),
    decreases n,
{
    geometry::every_thread_has_a_lane(m.shape, gid);
    let (b, w) = (m.shape.block_of(gid), m.shape.warp_of(gid));
    let rest = machine::stuck_collectives(m, n - 1);
    let last = machine::stuck_warps(m, n - 1, m.shape.warps());
    let all = machine::stuck_collectives(m, n);
    assert(all == rest + last);
    if b == n - 1 {
        lemma_warp_named(m, b, m.shape.warps(), w, m.shape.lane_of(gid));
        let k = choose|k: int| 0 <= k < last.len() && is_about_warp(m, #[trigger] last[k], b, w);
        assert(all[rest.len() + k] == last[k]);
    } else {
        lemma_stuck_lane_named(m, n - 1, gid);
        let k = choose|k: int| 0 <= k < rest.len() && is_about_warp(m, #[trigger] rest[k], b, w);
        assert(all[k] == rest[k]);
    }
}

proof fn lemma_stuck_block_named(m: Machine, n: int, gid: int)
    requires
        m.wf(),
        0 <= n <= m.shape.blocks,
        0 <= gid < m.shape.total(),
        m.shape.block_of(gid) < n,
        m.status[gid] is AtBarrier,
    ensures
        exists|k: int|
            0 <= k < machine::stuck_barriers(m, n).len() && is_about_barrier(
                m,
                #[trigger] machine::stuck_barriers(m, n)[k],
                m.shape.block_of(gid),
            ),
    decreases n,
{
    geometry::every_thread_has_a_lane(m.shape, gid);
    let b = m.shape.block_of(gid);
    let rest = machine::stuck_barriers(m, n - 1);
    let all = machine::stuck_barriers(m, n);
    if b == n - 1 {
        assert(machine::any_in_block(m, b, Status::AtBarrier));
        assert(is_about_barrier(m, all[rest.len() as int], b));
    } else {
        lemma_stuck_block_named(m, n - 1, gid);
        let k = choose|k: int| 0 <= k < rest.len() && is_about_barrier(m, #[trigger] rest[k], b);
        assert(all[k] == rest[k]);
    }
}

/// A wedged launch blames every warp with a lane parked at a collective, and
/// where there is none, every block with a thread waiting at a barrier.
pub proof fn a_wedge_is_blamed_on_all_that_wait(m: Machine, gid: int)
    requires
        m.wf(),
        0 <= gid < m.shape.total(),
    ensures
        m.status[gid] is AtWarp ==> exists|k: int|
            0 <= k < machine::stuck_findings(m).len() && is_about_warp(
                m,
                #[trigger] machine::stuck_findings(m)[k],
                m.shape.block_of(gid),
                m.shape.warp_of(gid),
            ),
        m.status[gid] is AtBarrier && (forall|i: int|
            0 <= i < m.shape.total() ==> !((#[trigger] m.status[i]) is AtWarp)) ==> exists|k: int|
            0 <= k < machine::stuck_findings(m).len() && is_about_barrier(
                m,
                #[trigger] machine::stuck_findings(m)[k],
                m.shape.block_of(gid),
            ),
{
    geometry::every_thread_has_a_lane(m.shape, gid);
    let n = m.shape.blocks as int;
    if m.status[gid] is AtWarp {
        lemma_stuck_lane_named(m, n, gid);
        let warps = machine::stuck_collectives(m, n);
        let k = choose|k: int|
            0 <= k < warps.len() && is_about_warp(
                m,
                #[trigger] warps[k],
                m.shape.block_of(gid),
                m.shape.warp_of(gid),
            );
        assert(machine::stuck_findings(m)[k] == warps[k]);
    }
    if m.status[gid] is AtBarrier && forall|i: int|
        0 <= i < m.shape.total() ==> !((#[trigger] m.status[i]) is AtWarp) {
        lemma_stuck_block_named(m, n, gid);
        crate::schedule_laws::warps_are_blamed_before_barriers(m);
        if machine::stuck_collectives(m, n).len() > 0 {
            crate::schedule_laws::lemma_no_stuck_collectives(m, n);
        }
    }
}

/// Lanes that disagree about who takes part are reported with the two lanes and
/// the masks they passed.
pub proof fn disagreements_name_both_lanes(m: Machine, me: int, wait: WarpWait)
    requires
        m.wf(),
        0 <= me < m.shape.total(),
    ensures
        ({
            let (after, ds) = machine::rendezvous_step(m, me, wait);
            let base = m.shape.warp_base(m.shape.block_of(me), m.shape.warp_of(me));
            ds.len() == 1 ==> match ds[0] {
                Diagnostic::WarpMaskMismatch {
                    block,
                    warp,
                    op,
                    at,
                    lane,
                    mask,
                    other_lane,
                    other_mask,
                } => {
                    &&& after.aborted
                    &&& block == m.first_block + m.shape.block_of(me)
                    &&& warp == m.shape.warp_of(me)
                    &&& op == wait.op && at == wait.at
                    &&& base + lane == me && mask == wait.mask
                    &&& other_lane != lane
                    &&& m.status[base + other_lane] is AtWarp
                    &&& m.warp_wait[base + other_lane]->0.mask == other_mask
                    &&& m.warp_wait[base + other_lane]->0.at@ == wait.at@
                    &&& mask != other_mask
                    &&& lanes::has_lane(mask, other_lane as int) || lanes::has_lane(
                        other_mask,
                        lane as int,
                    )
                },
                _ => true,
            }
        }),
{
    let block = m.shape.block_of(me);
    let warp = m.shape.warp_of(me);
    let lane = m.shape.lane_of(me);
    let here = machine::parked(m, me, wait);
    geometry::every_thread_has_a_lane(m.shape, me);
    geometry::lemma_warp_in_block(m.shape, block, warp);
    geometry::lemma_warp_count(m.shape);
    let p = machine::disagreeing_lanes(here, block, warp, lane, wait);
    search::lemma_first_below(p, m.shape.lanes_in(warp));
    if let Some(l) = search::first_below(p, m.shape.lanes_in(warp)) {
        assert(machine::disagrees(here, block, warp, lane, wait, l));
    }
    let n = m.shape.blocks as int;
    crate::schedule_laws::lemma_stuck_collectives_kind(machine::picked(here), n);
    crate::schedule_laws::lemma_stuck_barriers_kind(machine::picked(here), n);
    let free = machine::collective_released(here, block, warp, wait);
    crate::schedule_laws::lemma_stuck_collectives_kind(machine::picked(free), n);
    crate::schedule_laws::lemma_stuck_barriers_kind(machine::picked(free), n);
}

// --------------------------------------------------------------- chance ---

/// Multiplying by a number and then by its inverse modulo the size of a word
/// gives back what was multiplied.
proof fn lemma_unmultiplied(x: u64, by: u64, inverse: u64, times: int)
    requires
        by * inverse == 1 + times * 0x1_0000_0000_0000_0000,
    ensures
        x.wrapping_mul(by).wrapping_mul(inverse) == x,
        x.wrapping_mul(inverse).wrapping_mul(by) == x,
{
    let m = 0x1_0000_0000_0000_0000int;
    let (a, b, c) = (x as int, by as int, inverse as int);
    assert(x.wrapping_mul(by) as int == (a * b) % m);
    assert(x.wrapping_mul(inverse) as int == (a * c) % m);
    vstd::arithmetic::div_mod::lemma_mul_mod_noop_left(a * b, c, m);
    vstd::arithmetic::div_mod::lemma_mul_mod_noop_left(a * c, b, m);
    assert((a * b) * c == a + m * (a * times)) by (nonlinear_arith)
        requires
            b * c == 1 + times * m,
    ;
    assert((a * c) * b == a + m * (a * times)) by (nonlinear_arith)
        requires
            b * c == 1 + times * m,
    ;
    vstd::arithmetic::div_mod::lemma_mod_multiples_vanish(a * times, a, m);
    vstd::arithmetic::div_mod::lemma_small_mod(x as nat, m as nat);
}

/// The generator state whose draw is `n`.
spec fn undrawn(n: u64) -> u64 {
    let b = n ^ (n >> 31) ^ (n >> 62);
    let a = b.wrapping_mul(0x3196_42B2_D24D_8EC3);
    let y = a ^ (a >> 27) ^ (a >> 54);
    let x = y.wrapping_mul(0x96DE_1B17_3F11_9089);
    x ^ (x >> 30) ^ (x >> 60)
}

proof fn lemma_undrawn(n: u64, state: u64)
    ensures
        machine::drawn(undrawn(n)) == n,
        undrawn(machine::drawn(state)) == state,
{
    assert(0xBF58_476D_1CE4_E5B9 * 0x96DE_1B17_3F11_9089 == 1 + 8125545580553827436 * 0x1_0000_0000_0000_0000int);
    assert(0x94D0_49BB_1331_11EB * 0x3196_42B2_D24D_8EC3 == 1 + 2077064247507883091 * 0x1_0000_0000_0000_0000int);
    // From a number to its state and back.
    let b = n ^ (n >> 31) ^ (n >> 62);
    let a = b.wrapping_mul(0x3196_42B2_D24D_8EC3);
    let y = a ^ (a >> 27) ^ (a >> 54);
    let x = y.wrapping_mul(0x96DE_1B17_3F11_9089);
    let s = x ^ (x >> 30) ^ (x >> 60);
    lemma_unmultiplied(b, 0x94D0_49BB_1331_11EB, 0x3196_42B2_D24D_8EC3, 2077064247507883091);
    lemma_unmultiplied(y, 0xBF58_476D_1CE4_E5B9, 0x96DE_1B17_3F11_9089, 8125545580553827436);
    lemma_shifts(n, x, y, a, b);
    // From a state to its number and back.
    let p = state ^ (state >> 30);
    let q = p.wrapping_mul(0xBF58_476D_1CE4_E5B9);
    let u = q ^ (q >> 27);
    let v = u.wrapping_mul(0x94D0_49BB_1331_11EB);
    let w = v ^ (v >> 31);
    lemma_unmultiplied(p, 0xBF58_476D_1CE4_E5B9, 0x96DE_1B17_3F11_9089, 8125545580553827436);
    lemma_unmultiplied(u, 0x94D0_49BB_1331_11EB, 0x3196_42B2_D24D_8EC3, 2077064247507883091);
    lemma_shifts(v, state, p, q, u);
}

/// Mixing in a number's own upper bits can be taken back.
proof fn lemma_shifts(n: u64, x: u64, y: u64, a: u64, b: u64)
    ensures
        ({
            let z = n ^ (n >> 31) ^ (n >> 62);
            z ^ (z >> 31) == n
        }),
        ({
            let z = n ^ (n >> 31);
            z ^ (z >> 31) ^ (z >> 62) == n
        }),
        ({
            let z = a ^ (a >> 27) ^ (a >> 54);
            z ^ (z >> 27) == a
        }),
        ({
            let z = a ^ (a >> 27);
            z ^ (z >> 27) ^ (z >> 54) == a
        }),
        ({
            let z = x ^ (x >> 30) ^ (x >> 60);
            z ^ (z >> 30) == x
        }),
        ({
            let z = x ^ (x >> 30);
            z ^ (z >> 30) ^ (z >> 60) == x
        }),
{
    assert((n ^ (n >> 31) ^ (n >> 62)) ^ ((n ^ (n >> 31) ^ (n >> 62)) >> 31) == n && (n ^ (n
        >> 31)) ^ ((n ^ (n >> 31)) >> 31) ^ ((n ^ (n >> 31)) >> 62) == n) by (bit_vector);
    assert((a ^ (a >> 27) ^ (a >> 54)) ^ ((a ^ (a >> 27) ^ (a >> 54)) >> 27) == a && (a ^ (a
        >> 27)) ^ ((a ^ (a >> 27)) >> 27) ^ ((a ^ (a >> 27)) >> 54) == a) by (bit_vector);
    assert((x ^ (x >> 30) ^ (x >> 60)) ^ ((x ^ (x >> 30) ^ (x >> 60)) >> 30) == x && (x ^ (x
        >> 30)) ^ ((x ^ (x >> 30)) >> 30) ^ ((x ^ (x >> 30)) >> 60) == x) by (bit_vector);
}

/// Different generator states draw different numbers, every number is drawn
/// from some state, and different states lead to different next states.
pub proof fn draws_tell_states_apart(one: u64, other: u64, n: u64)
    ensures
        machine::drawn(one) == machine::drawn(other) ==> one == other,
        machine::next_state(one) == machine::next_state(other) ==> one == other,
        machine::next_state(one) != one,
        exists|s: u64| #[trigger] machine::drawn(machine::next_state(s)) == n,
{
    lemma_undrawn(n, one);
    lemma_undrawn(n, other);
    let next = undrawn(n);
    let s = next.wrapping_sub(0x9E37_79B9_7F4A_7C15);
    assert(machine::next_state(s) == next);
}

/// Chance leaves nobody out: whichever threads can run and whoever was running,
/// each of those that can is chosen from some state of the generator.
pub proof fn every_runnable_thread_can_be_drawn(m: Machine, t: int)
    requires
        m.status.len() <= usize::MAX,
        m.is_runnable(t),
    ensures
        exists|s: u64|
            #[trigger] machine::picked(Machine { source: Source::Random(s), ..m }).current == Some(
                t as usize,
            ),
{
    let r = machine::runnable(m);
    machine::lemma_runnable_below(m.status, m.status.len() as int);
    assert(m.status[t] is Runnable);
    assert(r.contains(t as usize));
    let k = choose|k: int| 0 <= k < r.len() && r[k] == t as usize;
    lemma_runnable_count(m.status, m.status.len() as int);
    draws_tell_states_apart(0, 0, k as u64);
    let s = choose|s: u64| #[trigger] machine::drawn(machine::next_state(s)) == k as u64;
    let there = Machine { source: Source::Random(s), ..m };
    assert(machine::runnable(there) == r);
    vstd::arithmetic::div_mod::lemma_small_mod(k as nat, r.len());
    assert(machine::picked(there).current == Some(t as usize));
}

proof fn lemma_runnable_count(status: Seq<Status>, n: int)
    requires
        0 <= n,
    ensures
        machine::runnable_below(status, n).len() <= n,
    decreases n,
{
    if n > 0 {
        lemma_runnable_count(status, n - 1);
    }
}

} // verus!
