//! The scheduler as a mathematical machine: its state, and what each
//! operation of a simulated thread does to it.
//!
//! Only the thread holding the *turn* runs. At every operation the running
//! thread hands the turn to a runnable thread, so a given source of choices
//! always gives the same interleaving. Threads can block in two ways: at a
//! block-wide barrier, and at a warp collective waiting for its mask-mates.
//! If no thread is runnable while some thread is still blocked, the launch is
//! wedged, and the machine turns that into findings rather than a hang.

use vstd::prelude::*;

use crate::diag::Diagnostic;
use crate::geometry::{self, Shape};
use crate::lanes;
use crate::location::Location;
use crate::search;

verus! {

/// First half of a warp collective: everyone shows up and publishes a value.
pub const PHASE_ARRIVE: u8 = 0;

/// Second half: everyone has read what they needed, so the exchange slots
/// are free to be reused by the next collective.
pub const PHASE_DEPART: u8 = 1;

/// Upper bound on recorded scheduling decisions. A launch that runs past it
/// keeps executing but stops recording, and its schedule cannot be replayed.
pub const MAX_TRACE: usize = 1048576;

/// What a simulated thread is doing.
#[derive(Clone, Copy, Debug, PartialEq, Eq, Structural)]
pub enum Status {
    Runnable,
    AtBarrier,
    AtWarp,
    Finished,
}

/// What a thread parked at a warp collective is waiting for.
#[derive(Clone, Copy, Debug, PartialEq, Eq)]
pub struct WarpWait {
    pub phase: u8,
    pub mask: u32,
    pub at: Location,
    pub op: &'static str,
}

/// Where the scheduler's decisions come from.
pub enum Source {
    /// Uniformly at random, from this generator state.
    Random(u64),
    /// What is left of a recorded plan.
    Replay(Seq<u32>),
}

/// The state of the scheduler.
#[verifier::ext_equal]
pub struct Machine {
    pub shape: Shape,
    /// The number of the first block; the rest follow it.
    pub first_block: u32,
    /// The thread holding the turn.
    pub current: Option<usize>,
    pub status: Seq<Status>,
    /// How many barriers each block has passed.
    pub barrier_gen: Seq<u64>,
    /// Where each block's waiting threads are blocked.
    pub barrier_loc: Seq<Option<Location>>,
    pub warp_wait: Seq<Option<WarpWait>>,
    /// How many full-mask collectives each warp has left.
    pub warp_gen: Seq<u64>,
    pub source: Source,
    pub trace: Seq<u32>,
    pub trace_complete: bool,
    pub aborted: bool,
}

/// What an operation leads to: the next state and what it reports.
pub type Step = (Machine, Seq<Diagnostic>);

impl Machine {
    pub open spec fn wf(self) -> bool {
        &&& self.shape.wf()
        &&& self.first_block + self.shape.blocks <= u32::MAX
        &&& self.status.len() == self.shape.total()
        &&& self.warp_wait.len() == self.shape.total()
        &&& self.barrier_gen.len() == self.shape.blocks
        &&& self.barrier_loc.len() == self.shape.blocks
        &&& self.warp_gen.len() == self.shape.blocks * self.shape.warps()
        &&& self.trace.len() <= MAX_TRACE
        &&& forall|i: int|
            0 <= i < self.status.len() && (#[trigger] self.status[i]) is AtWarp
                ==> self.warp_wait[i] is Some
        &&& forall|i: int|
            0 <= i < self.status.len() && (#[trigger] self.status[i]) is AtBarrier
                ==> self.barrier_loc[self.shape.block_of(i)] is Some
        &&& self.current matches Some(c) ==> c < self.shape.total()
    }

    /// The number by which findings name a block.
    pub open spec fn block_number(self, block: int) -> u32 {
        (self.first_block + block) as u32
    }

    pub open spec fn is_runnable(self, gid: int) -> bool {
        0 <= gid < self.status.len() && self.status[gid] is Runnable
    }
}

// ------------------------------------------------------------- choices ---

/// One step of the generator.
pub open spec fn next_state(state: u64) -> u64 {
    state.wrapping_add(0x9E37_79B9_7F4A_7C15)
}

/// The number drawn from a generator state.
pub open spec fn drawn(state: u64) -> u64 {
    let a = (state ^ (state >> 30)).wrapping_mul(0xBF58_476D_1CE4_E5B9);
    let b = (a ^ (a >> 27)).wrapping_mul(0x94D0_49BB_1331_11EB);
    b ^ (b >> 31)
}

/// The runnable threads among the first `n`, lowest first.
pub open spec fn runnable_below(status: Seq<Status>, n: int) -> Seq<usize>
    decreases n,
{
    if n <= 0 {
        Seq::empty()
    } else if status[n - 1] is Runnable {
        runnable_below(status, n - 1).push((n - 1) as usize)
    } else {
        runnable_below(status, n - 1)
    }
}

/// The runnable threads, lowest first.
pub open spec fn runnable(m: Machine) -> Seq<usize> {
    runnable_below(m.status, m.status.len() as int)
}

/// Who runs when nothing was planned: the thread that was running if it can,
/// which is the schedule with the fewest switches, else the first that can.
pub open spec fn default_choice(m: Machine) -> usize {
    match m.current {
        Some(previous) if m.is_runnable(previous as int) => previous,
        _ => runnable(m)[0],
    }
}

/// The thread that gets the turn next, given that one is runnable, and what
/// is left of the source of decisions.
pub open spec fn chosen(m: Machine) -> (usize, Source) {
    match m.source {
        Source::Random(state) => {
            let next = next_state(state);
            (
                runnable(m)[(drawn(next) as int) % (runnable(m).len() as int)],
                Source::Random(next),
            )
        },
        Source::Replay(plan) => if plan.len() == 0 {
            (default_choice(m), Source::Replay(plan))
        } else if m.is_runnable(plan[0] as int) {
            (plan[0] as usize, Source::Replay(plan.drop_first()))
        } else {
            // A plan naming a thread that cannot run now is stale, which
            // happens while a schedule is being shrunk.
            (default_choice(m), Source::Replay(plan.drop_first()))
        },
    }
}

/// Hands the turn to the next thread and records the decision. With nobody
/// runnable, nobody holds the turn and nothing is recorded.
pub open spec fn picked(m: Machine) -> Machine {
    if runnable(m).len() == 0 {
        Machine { current: None, ..m }
    } else {
        let (next, source) = chosen(m);
        let room = m.trace.len() < MAX_TRACE;
        Machine {
            current: Some(next),
            source,
            trace: if room {
                m.trace.push(next as u32)
            } else {
                m.trace
            },
            trace_complete: m.trace_complete && room,
            ..m
        }
    }
}

/// The state a launch starts in, before the first decision.
pub open spec fn fresh(shape: Shape, first_block: u32, source: Source) -> Machine {
    Machine {
        shape,
        first_block,
        current: None,
        status: Seq::new(shape.total() as nat, |i: int| Status::Runnable),
        barrier_gen: Seq::new(shape.blocks as nat, |i: int| 0u64),
        barrier_loc: Seq::new(shape.blocks as nat, |i: int| None),
        warp_wait: Seq::new(shape.total() as nat, |i: int| None),
        warp_gen: Seq::new((shape.blocks * shape.warps()) as nat, |i: int| 0u64),
        source,
        trace: Seq::empty(),
        trace_complete: true,
        aborted: false,
    }
}

/// The state the next wave of a launch starts in, before its first decision:
/// the record of decisions goes on where the last wave left it.
pub open spec fn resumed(
    shape: Shape,
    first_block: u32,
    source: Source,
    trace: Seq<u32>,
    trace_complete: bool,
) -> Machine {
    Machine { trace, trace_complete, ..fresh(shape, first_block, source) }
}

// ------------------------------------------------------ looking around ---

/// How many of the `n` threads from `base` on have this status.
pub open spec fn count_status(status: Seq<Status>, base: int, n: int, what: Status) -> nat
    decreases n,
{
    if n <= 0 {
        0
    } else {
        count_status(status, base, n - 1, what) + if status[base + n - 1] == what {
            1nat
        } else {
            0nat
        }
    }
}

/// Whether some thread of the block has this status.
pub open spec fn any_in_block(m: Machine, block: int, what: Status) -> bool {
    exists|i: int|
        m.shape.block_base(block) <= i < m.shape.block_base(block) + m.shape.threads && (
        #[trigger] m.status[i]) == what
}

/// Whether every thread of the block has this status.
pub open spec fn all_in_block(m: Machine, block: int, what: Status) -> bool {
    forall|i: int|
        m.shape.block_base(block) <= i < m.shape.block_base(block) + m.shape.threads ==> (
        #[trigger] m.status[i]) == what
}

/// Whether the thread is parked in the same phase at the same place as
/// `wait`.
pub open spec fn parked_with(m: Machine, gid: int, wait: WarpWait) -> bool {
    &&& m.status[gid] is AtWarp
    &&& m.warp_wait[gid] matches Some(w) && w.phase == wait.phase && w.at@ == wait.at@
}

/// Lanes of this warp currently parked at the same collective as `wait`.
pub open spec fn arrived_mask(m: Machine, block: int, warp: int, wait: WarpWait) -> u32 {
    lanes::mask_of(parked_lanes(m, block, warp, wait), m.shape.lanes_in(warp))
}

/// Which lanes of this warp are parked at the same collective as `wait`.
pub open spec fn parked_lanes(m: Machine, block: int, warp: int, wait: WarpWait) -> spec_fn(
    int,
) -> bool {
    |l: int| parked_with(m, m.shape.warp_base(block, warp) + l, wait)
}

// ------------------------------------------------------------ findings ---

/// The finding that the lanes waiting for `wait` can never be joined by the
/// rest of their mask.
pub open spec fn warp_divergence(m: Machine, block: int, warp: int, wait: WarpWait) -> Diagnostic {
    Diagnostic::WarpDivergence {
        block: m.block_number(block),
        warp: warp as u32,
        op: wait.op,
        mask: wait.mask,
        arrived: arrived_mask(m, block, warp, wait),
        at: wait.at,
    }
}

/// The finding that threads wait at a barrier others never reach.
pub open spec fn barrier_divergence(m: Machine, block: int) -> Diagnostic {
    let base = m.shape.block_base(block);
    let n = m.shape.threads as int;
    Diagnostic::BarrierDivergence {
        block: m.block_number(block),
        waiting: count_status(m.status, base, n, Status::AtBarrier) as usize,
        exited: count_status(m.status, base, n, Status::Finished) as usize,
        barrier: m.barrier_loc[block]->0,
    }
}

/// The first lane of a warp that is parked at a collective.
pub open spec fn first_stuck_lane(m: Machine, block: int, warp: int) -> Option<int> {
    search::first_below(stuck_lanes(m, block, warp), m.shape.lanes_in(warp))
}

/// Which lanes of a warp are parked at a collective.
pub open spec fn stuck_lanes(m: Machine, block: int, warp: int) -> spec_fn(int) -> bool {
    |l: int| m.status[m.shape.warp_base(block, warp) + l] is AtWarp
}

/// What the first `n` warps of a block are stuck at.
pub open spec fn stuck_warps(m: Machine, block: int, n: int) -> Seq<Diagnostic>
    decreases n,
{
    if n <= 0 {
        Seq::empty()
    } else {
        let rest = stuck_warps(m, block, n - 1);
        match first_stuck_lane(m, block, n - 1) {
            Some(l) => rest.push(
                warp_divergence(
                    m,
                    block,
                    n - 1,
                    m.warp_wait[m.shape.warp_base(block, n - 1) + l]->0,
                ),
            ),
            None => rest,
        }
    }
}

/// What the warps of the first `n` blocks are stuck at, one finding for each
/// stuck warp.
pub open spec fn stuck_collectives(m: Machine, n: int) -> Seq<Diagnostic>
    decreases n,
{
    if n <= 0 {
        Seq::empty()
    } else {
        stuck_collectives(m, n - 1) + stuck_warps(m, n - 1, m.shape.warps())
    }
}

/// What the first `n` blocks are stuck at, one finding for each block with
/// threads waiting at a barrier.
pub open spec fn stuck_barriers(m: Machine, n: int) -> Seq<Diagnostic>
    decreases n,
{
    if n <= 0 {
        Seq::empty()
    } else {
        let rest = stuck_barriers(m, n - 1);
        if any_in_block(m, n - 1, Status::AtBarrier) {
            rest.push(barrier_divergence(m, n - 1))
        } else {
            rest
        }
    }
}

/// Why the launch cannot make progress.
///
/// Warp collectives are reported first: when a warp cannot reconverge, any
/// block barrier behind it is a consequence, not the cause.
pub open spec fn stuck_findings(m: Machine) -> Seq<Diagnostic> {
    let warps = stuck_collectives(m, m.shape.blocks as int);
    if warps.len() > 0 {
        warps
    } else {
        stuck_barriers(m, m.shape.blocks as int)
    }
}

// ---------------------------------------------------------- operations ---

/// Reports `d` and ends the launch.
pub open spec fn failed(m: Machine, d: Diagnostic) -> Step {
    (Machine { aborted: true, ..m }, seq![d])
}

/// Hands the turn on. If nobody can take it, the launch is wedged.
pub open spec fn handed_off(m: Machine) -> Step {
    let next = picked(m);
    if next.current is None {
        (Machine { aborted: true, ..next }, stuck_findings(next))
    } else {
        (next, Seq::empty())
    }
}

/// The block's barrier location once `loc` was reached: the first one stays.
pub open spec fn arrived_at_barrier(m: Machine, me: int, loc: Location) -> Machine {
    let block = m.shape.block_of(me);
    Machine {
        status: m.status.update(me, Status::AtBarrier),
        barrier_loc: m.barrier_loc.update(
            block,
            Some(
                match m.barrier_loc[block] {
                    Some(first) => first,
                    None => loc,
                },
            ),
        ),
        ..m
    }
}

/// Every thread of the block released from its barrier.
pub open spec fn barrier_released(m: Machine, block: int) -> Machine {
    let base = m.shape.block_base(block);
    Machine {
        status: Seq::new(
            m.status.len(),
            |i: int|
                if base <= i < base + m.shape.threads {
                    Status::Runnable
                } else {
                    m.status[i]
                },
        ),
        barrier_gen: m.barrier_gen.update(block, (m.barrier_gen[block] + 1) as u64),
        barrier_loc: m.barrier_loc.update(block, None),
        ..m
    }
}

/// `__syncthreads()`: wait until every thread of the block arrives. A thread
/// of the block that has left the kernel can never arrive.
pub open spec fn barrier_step(m: Machine, me: int, loc: Location) -> Step {
    let block = m.shape.block_of(me);
    let here = arrived_at_barrier(m, me, loc);
    if any_in_block(here, block, Status::Finished) {
        failed(here, barrier_divergence(here, block))
    } else if all_in_block(here, block, Status::AtBarrier) {
        handed_off(barrier_released(here, block))
    } else {
        handed_off(here)
    }
}

/// The thread parked at a collective.
pub open spec fn parked(m: Machine, me: int, wait: WarpWait) -> Machine {
    Machine {
        status: m.status.update(me, Status::AtWarp),
        warp_wait: m.warp_wait.update(me, Some(wait)),
        ..m
    }
}

/// Whether thread `gid` is a lane of this warp that `mask` names.
pub open spec fn is_member(shape: Shape, block: int, warp: int, mask: u32, gid: int) -> bool {
    let base = shape.warp_base(block, warp);
    base <= gid < base + shape.lanes_in(warp) && lanes::has_lane(mask, gid - base)
}

/// Whether a lane the mask names has left the kernel.
pub open spec fn member_gone(m: Machine, block: int, warp: int, mask: u32) -> bool {
    exists|l: int|
        0 <= l < m.shape.lanes_in(warp) && #[trigger] lanes::has_lane(mask, l) && m.status[
        m.shape.warp_base(block, warp) + l] is Finished
}

/// Whether two lanes that pass these masks to one collective disagree about
/// who is taking part: the masks differ and one names the other lane.
pub open spec fn masks_disagree(lane: int, mask: u32, other_lane: int, other_mask: u32) -> bool {
    mask != other_mask && (lanes::has_lane(mask, other_lane) || lanes::has_lane(other_mask, lane))
}

/// Whether lane `l` of this warp is parked where `wait` is, with a mask that
/// disagrees with the one `lane` passed.
pub open spec fn disagrees(
    m: Machine,
    block: int,
    warp: int,
    lane: int,
    wait: WarpWait,
    l: int,
) -> bool {
    let p = m.shape.warp_base(block, warp) + l;
    l != lane && parked_with(m, p, wait) && masks_disagree(
        lane,
        wait.mask,
        l,
        (m.warp_wait[p]->0).mask,
    )
}

/// Which lanes of this warp disagree with the mask `lane` passed.
pub open spec fn disagreeing_lanes(
    m: Machine,
    block: int,
    warp: int,
    lane: int,
    wait: WarpWait,
) -> spec_fn(int) -> bool {
    |l: int| disagrees(m, block, warp, lane, wait, l)
}

/// Whether every lane the mask names is parked for exactly `wait`.
pub open spec fn all_arrived(m: Machine, block: int, warp: int, wait: WarpWait) -> bool {
    forall|l: int|
        0 <= l < m.shape.lanes_in(warp) && #[trigger] lanes::has_lane(wait.mask, l) ==> {
            let p = m.shape.warp_base(block, warp) + l;
            parked_with(m, p, wait) && (m.warp_wait[p]->0).mask == wait.mask && (
            m.warp_wait[p]->0).op@ == wait.op@
        }
}

/// The members of the mask released together. Leaving the collective orders
/// everything before it against everything after it, but only for a full-warp
/// mask: a partial mask says nothing about the lanes it leaves out.
pub open spec fn collective_released(m: Machine, block: int, warp: int, wait: WarpWait) -> Machine {
    let k = m.shape.warp_index(block, warp);
    Machine {
        status: Seq::new(
            m.status.len(),
            |i: int|
                if is_member(m.shape, block, warp, wait.mask, i) {
                    Status::Runnable
                } else {
                    m.status[i]
                },
        ),
        warp_wait: Seq::new(
            m.warp_wait.len(),
            |i: int|
                if is_member(m.shape, block, warp, wait.mask, i) {
                    None
                } else {
                    m.warp_wait[i]
                },
        ),
        warp_gen: if wait.phase == PHASE_DEPART && wait.mask == m.shape.valid_mask_spec(warp) {
            m.warp_gen.update(k, (m.warp_gen[k] + 1) as u64)
        } else {
            m.warp_gen
        },
        ..m
    }
}

/// One half of a warp collective: park until every lane named by the mask is
/// parked at the same place, then release them together.
pub open spec fn rendezvous_step(m: Machine, me: int, wait: WarpWait) -> Step {
    let block = m.shape.block_of(me);
    let warp = m.shape.warp_of(me);
    let lane = m.shape.lane_of(me);
    let here = parked(m, me, wait);
    if member_gone(here, block, warp, wait.mask) {
        failed(here, warp_divergence(here, block, warp, wait))
    } else {
        match search::first_below(
            disagreeing_lanes(here, block, warp, lane, wait),
            m.shape.lanes_in(warp),
        ) {
            Some(l) => failed(
                here,
                Diagnostic::WarpMaskMismatch {
                    block: m.block_number(block),
                    warp: warp as u32,
                    op: wait.op,
                    at: wait.at,
                    lane: lane as u32,
                    mask: wait.mask,
                    other_lane: l as u32,
                    other_mask: (here.warp_wait[m.shape.warp_base(block, warp) + l]->0).mask,
                },
            ),
            None => if all_arrived(here, block, warp, wait) {
                handed_off(collective_released(here, block, warp, wait))
            } else {
                handed_off(here)
            },
        }
    }
}

/// Whether lane `l` of the warp is parked at a collective that names `lane`.
pub open spec fn waits_for(m: Machine, block: int, warp: int, lane: int, l: int) -> bool {
    let p = m.shape.warp_base(block, warp) + l;
    m.status[p] is AtWarp && (m.warp_wait[p] matches Some(w) && lanes::has_lane(w.mask, lane))
}

/// Which lanes of the warp are parked at a collective that names `lane`.
pub open spec fn waiting_lanes(m: Machine, block: int, warp: int, lane: int) -> spec_fn(
    int,
) -> bool {
    |l: int| waits_for(m, block, warp, lane, l)
}

/// The thread gone from the kernel.
pub open spec fn left(m: Machine, me: int) -> Machine {
    Machine { status: m.status.update(me, Status::Finished), ..m }
}

/// The thread returned from the kernel. Warp-mates and block-mates still
/// waiting for it will never be released.
pub open spec fn finish_step(m: Machine, me: int) -> Step {
    let block = m.shape.block_of(me);
    let warp = m.shape.warp_of(me);
    let lane = m.shape.lane_of(me);
    let gone = left(m, me);
    match search::first_below(waiting_lanes(gone, block, warp, lane), m.shape.lanes_in(warp)) {
        Some(l) => failed(
            gone,
            warp_divergence(
                gone,
                block,
                warp,
                gone.warp_wait[m.shape.warp_base(block, warp) + l]->0,
            ),
        ),
        None => if any_in_block(gone, block, Status::AtBarrier) {
            failed(gone, barrier_divergence(gone, block))
        } else {
            let next = picked(gone);
            if next.current is None && some_live(next) {
                (Machine { aborted: true, ..next }, stuck_findings(next))
            } else {
                (next, Seq::empty())
            }
        },
    }
}

/// Whether some thread has not left the kernel.
pub open spec fn some_live(m: Machine) -> bool {
    exists|i: int| 0 <= i < m.status.len() && (#[trigger] m.status[i]) != Status::Finished
}

// -------------------------------------------------------------- proofs ---

/// The runnable threads are listed once each and in order, and a thread is
/// listed exactly when it can run.
pub proof fn lemma_runnable_below(status: Seq<Status>, n: int)
    requires
        0 <= n <= status.len(),
        status.len() <= usize::MAX,
    ensures
        forall|j: int|
            0 <= j < runnable_below(status, n).len() ==> {
                let x = #[trigger] runnable_below(status, n)[j];
                x < n && status[x as int] is Runnable
            },
        forall|i: int|
            0 <= i < n && (#[trigger] status[i]) is Runnable ==> runnable_below(status, n).contains(
                i as usize,
            ),
    decreases n,
{
    if n > 0 {
        lemma_runnable_below(status, n - 1);
        let shorter = runnable_below(status, n - 1);
        let all = runnable_below(status, n);
        assert forall|i: int| 0 <= i < n && (#[trigger] status[i]) is Runnable implies all.contains(
            i as usize,
        ) by {
            if i < n - 1 {
                let j = choose|j: int| 0 <= j < shorter.len() && shorter[j] == i as usize;
                assert(all[j] == i as usize);
            } else {
                assert(all.last() == i as usize);
            }
        }
    }
}

/// Whoever is chosen can run.
pub proof fn lemma_chosen_can_run(m: Machine)
    requires
        m.status.len() <= usize::MAX,
        runnable(m).len() > 0,
    ensures
        m.is_runnable(chosen(m).0 as int),
{
    lemma_runnable_below(m.status, m.status.len() as int);
    let r = runnable(m);
    assert(m.is_runnable(r[0] as int));
    if let Source::Random(state) = m.source {
        let k = (drawn(next_state(state)) as int) % (r.len() as int);
        assert(0 <= k < r.len());
        assert(m.is_runnable(r[k] as int));
    }
}

/// Reaching a barrier keeps the state well formed.
pub proof fn lemma_arrived_at_barrier_wf(m: Machine, me: int, loc: Location)
    requires
        m.wf(),
        0 <= me < m.shape.total(),
    ensures
        arrived_at_barrier(m, me, loc).wf(),
{
    geometry::every_thread_has_a_lane(m.shape, me);
    let here = arrived_at_barrier(m, me, loc);
    assert forall|i: int|
        0 <= i < here.status.len() && (
        #[trigger] here.status[i]) is AtBarrier implies here.barrier_loc[here.shape.block_of(
        i,
    )] is Some by {
        geometry::every_thread_has_a_lane(m.shape, i);
        if i != me {
            assert(m.status[i] is AtBarrier);
        }
    }
    assert forall|i: int|
        0 <= i < here.status.len() && (
        #[trigger] here.status[i]) is AtWarp implies here.warp_wait[i] is Some by {
        assert(m.status[i] is AtWarp);
    }
}

/// Releasing a block keeps the state well formed.
pub proof fn lemma_barrier_released_wf(m: Machine, block: int)
    requires
        m.wf(),
        0 <= block < m.shape.blocks,
    ensures
        barrier_released(m, block).wf(),
{
    geometry::lemma_block_in_launch(m.shape, block);
    let after = barrier_released(m, block);
    assert forall|i: int|
        0 <= i < after.status.len() && (
        #[trigger] after.status[i]) is AtBarrier implies after.barrier_loc[after.shape.block_of(
        i,
    )] is Some by {
        geometry::every_thread_has_a_lane(m.shape, i);
        assert(m.status[i] is AtBarrier);
        assert(m.shape.block_of(i) != block);
    }
    assert forall|i: int|
        0 <= i < after.status.len() && (
        #[trigger] after.status[i]) is AtWarp implies after.warp_wait[i] is Some by {
        assert(m.status[i] is AtWarp);
    }
}

/// Parking at a collective keeps the state well formed.
pub proof fn lemma_parked_wf(m: Machine, me: int, wait: WarpWait)
    requires
        m.wf(),
        0 <= me < m.shape.total(),
    ensures
        parked(m, me, wait).wf(),
{
    let here = parked(m, me, wait);
    assert forall|i: int|
        0 <= i < here.status.len() && (
        #[trigger] here.status[i]) is AtBarrier implies here.barrier_loc[here.shape.block_of(
        i,
    )] is Some by {
        assert(m.status[i] is AtBarrier);
    }
    assert forall|i: int|
        0 <= i < here.status.len() && (
        #[trigger] here.status[i]) is AtWarp implies here.warp_wait[i] is Some by {
        if i != me {
            assert(m.status[i] is AtWarp);
        }
    }
}

/// Releasing a collective keeps the state well formed.
pub proof fn lemma_collective_released_wf(m: Machine, block: int, warp: int, wait: WarpWait)
    requires
        m.wf(),
        0 <= block < m.shape.blocks,
        0 <= warp < m.shape.warps(),
    ensures
        collective_released(m, block, warp, wait).wf(),
{
    geometry::lemma_warp_index(m.shape, block, warp);
    let after = collective_released(m, block, warp, wait);
    assert forall|i: int|
        0 <= i < after.status.len() && (
        #[trigger] after.status[i]) is AtBarrier implies after.barrier_loc[after.shape.block_of(
        i,
    )] is Some by {
        assert(m.status[i] is AtBarrier);
    }
    assert forall|i: int|
        0 <= i < after.status.len() && (
        #[trigger] after.status[i]) is AtWarp implies after.warp_wait[i] is Some by {
        assert(m.status[i] is AtWarp);
    }
}

/// Leaving the kernel keeps the state well formed.
pub proof fn lemma_left_wf(m: Machine, me: int)
    requires
        m.wf(),
        0 <= me < m.shape.total(),
    ensures
        left(m, me).wf(),
{
    let gone = left(m, me);
    assert forall|i: int|
        0 <= i < gone.status.len() && (
        #[trigger] gone.status[i]) is AtBarrier implies gone.barrier_loc[gone.shape.block_of(
        i,
    )] is Some by {
        assert(m.status[i] is AtBarrier);
    }
    assert forall|i: int|
        0 <= i < gone.status.len() && (
        #[trigger] gone.status[i]) is AtWarp implies gone.warp_wait[i] is Some by {
        assert(m.status[i] is AtWarp);
    }
}

/// Handing out the turn keeps the state well formed.
pub proof fn lemma_picked_wf(m: Machine)
    requires
        m.wf(),
    ensures
        picked(m).wf(),
{
    if runnable(m).len() > 0 {
        lemma_chosen_can_run(m);
    }
}

/// A launch starts well formed.
pub proof fn lemma_fresh_wf(shape: Shape, first_block: u32, source: Source)
    requires
        shape.wf(),
        first_block + shape.blocks <= u32::MAX,
    ensures
        fresh(shape, first_block, source).wf(),
{
    geometry::lemma_warp_count(shape);
}

/// A wave starts well formed.
pub proof fn lemma_resumed_wf(
    shape: Shape,
    first_block: u32,
    source: Source,
    trace: Seq<u32>,
    trace_complete: bool,
)
    requires
        shape.wf(),
        first_block + shape.blocks <= u32::MAX,
        trace.len() <= MAX_TRACE,
    ensures
        resumed(shape, first_block, source, trace, trace_complete).wf(),
{
    lemma_fresh_wf(shape, first_block, source);
}

} // verus!
