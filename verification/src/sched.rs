//! Deterministic, seeded scheduler.
//!
//! The scheduler decides which simulated thread holds the turn. It never
//! blocks by itself: an operation updates the state and says whether the
//! acting thread may go on, has to wait for its turn, or has to unwind.

use vstd::prelude::*;

use crate::diag::{self, Diagnostic, Reporter};
use crate::geometry::{self, Shape};
use crate::lanes::{self, names_lane};
use crate::location::Location;
use crate::machine::{self, Machine, Source, Status, WarpWait, MAX_TRACE, PHASE_DEPART};
use crate::search;
use crate::text::same_text;

verus! {

/// The generator behind seeded schedules.
pub struct SplitMix64(pub u64);

impl SplitMix64 {
    /// Draws the next number.
    pub fn next(&mut self) -> (r: u64)
        ensures
            final(self).0 == machine::next_state(old(self).0),
            r == machine::drawn(final(self).0),
    {
        self.0 = self.0.wrapping_add(0x9E37_79B9_7F4A_7C15);
        let z: u64 = self.0;
        let a: u64 = (z ^ (z >> 30)).wrapping_mul(0xBF58_476D_1CE4_E5B9);
        let b: u64 = (a ^ (a >> 27)).wrapping_mul(0x94D0_49BB_1331_11EB);
        b ^ (b >> 31)
    }
}

/// Where the scheduler's decisions come from.
///
/// Recording the *thread* chosen rather than its position among the runnable
/// threads is what makes a trace survive being edited: a plan that names a
/// thread which is no longer runnable falls back cleanly instead of silently
/// meaning something else.
pub enum Choices {
    /// Pick uniformly at random from the runnable threads.
    Random(SplitMix64),
    /// Follow a recorded plan. Once it runs out, keep the current thread
    /// running while it can, which is the schedule with the fewest switches
    /// and so the one that reads most like ordinary sequential code.
    Replay { plan: Vec<u32>, cursor: usize },
}

impl View for Choices {
    type V = Source;

    open spec fn view(&self) -> Source {
        match *self {
            Choices::Random(rng) => Source::Random(rng.0),
            Choices::Replay { plan, cursor } => Source::Replay(
                if cursor <= plan@.len() {
                    plan@.skip(cursor as int)
                } else {
                    Seq::empty()
                },
            ),
        }
    }
}

impl Choices {
    /// Takes one decision among the runnable threads.
    fn decide(&mut self, status: &Vec<Status>, runnable: &Vec<usize>, fallback: usize) -> (r: usize)
        requires
            runnable@.len() > 0,
        ensures
            match old(self)@ {
                Source::Random(state) => {
                    &&& final(self)@ == Source::Random(machine::next_state(state))
                    &&& r == runnable@[(machine::drawn(machine::next_state(state)) as int) % (
                    runnable@.len() as int)]
                },
                Source::Replay(plan) => if plan.len() == 0 {
                    final(self)@ == old(self)@ && r == fallback
                } else {
                    &&& final(self)@ == Source::Replay(plan.drop_first())
                    &&& r == if plan[0] < status@.len() && status@[plan[0] as int] is Runnable {
                        plan[0] as usize
                    } else {
                        fallback
                    }
                },
            },
    {
        match self {
            Choices::Random(rng) => {
                let draw: u64 = rng.next();
                let k: u64 = draw % (runnable.len() as u64);
                runnable[k as usize]
            },
            Choices::Replay { plan, cursor } => {
                if *cursor < plan.len() {
                    let gid: usize = plan[*cursor] as usize;
                    proof {
                        assert(plan@.skip(*cursor as int)[0] == plan@[*cursor as int]);
                        assert(plan@.skip(*cursor as int).drop_first() =~= plan@.skip(*cursor + 1));
                    }
                    *cursor = *cursor + 1;
                    if gid < status.len() && status[gid] == Status::Runnable {
                        gid
                    } else {
                        fallback
                    }
                } else {
                    fallback
                }
            },
        }
    }
}

/// What a thread may do now.
#[derive(Clone, Copy, Debug, PartialEq, Eq, Structural)]
pub enum Turn {
    /// It holds the turn.
    Go,
    /// Another thread holds the turn.
    Wait,
    /// The launch was aborted, and the thread has to unwind.
    Aborted,
}

/// Who needs to be woken after an operation.
#[derive(Clone, Copy, Debug, PartialEq, Eq, Structural)]
pub enum Wake {
    /// Every thread has to notice the abort and unwind.
    All,
    /// Exactly this thread holds the turn, and only it has anything to do.
    One(usize),
    Nobody,
}

/// What thread `me` may do in this state.
pub open spec fn turn_of(m: Machine, me: int) -> Turn {
    if m.aborted {
        Turn::Aborted
    } else if m.current matches Some(c) && c == me {
        Turn::Go
    } else {
        Turn::Wait
    }
}

/// Who needs to be woken in this state.
pub open spec fn wake_of(m: Machine) -> Wake {
    if m.aborted {
        Wake::All
    } else {
        match m.current {
            Some(next) => Wake::One(next),
            None => Wake::Nobody,
        }
    }
}

/// The turn, the barriers and the warp rendezvous of one set of resident
/// threads.
pub struct Scheduler {
    shape: Shape,
    first_block: u32,
    warps: usize,
    current: Option<usize>,
    status: Vec<Status>,
    barrier_gen: Vec<u64>,
    barrier_loc: Vec<Option<Location>>,
    warp_wait: Vec<Option<WarpWait>>,
    warp_gen: Vec<u64>,
    choices: Choices,
    trace: Vec<u32>,
    trace_complete: bool,
    aborted: bool,
}

impl View for Scheduler {
    type V = Machine;

    closed spec fn view(&self) -> Machine {
        Machine {
            shape: self.shape,
            first_block: self.first_block,
            current: self.current,
            status: self.status@,
            barrier_gen: self.barrier_gen@,
            barrier_loc: self.barrier_loc@,
            warp_wait: self.warp_wait@,
            warp_gen: self.warp_gen@,
            source: self.choices@,
            trace: self.trace@,
            trace_complete: self.trace_complete,
            aborted: self.aborted,
        }
    }
}

impl Scheduler {
    pub closed spec fn wf(&self) -> bool {
        &&& self@.wf()
        &&& self.warps == self.shape.warps()
    }

    /// A well formed scheduler is in a well formed state.
    pub proof fn lemma_wf(&self)
        requires
            self.wf(),
        ensures
            self@.wf(),
    {
    }

    /// Hands the turn to a runnable thread, if there is one.
    fn pick_next(&mut self)
        requires
            old(self).wf(),
        ensures
            final(self).wf(),
            final(self)@ == machine::picked(old(self)@),
    {
        let ghost m = self@;
        let total: usize = self.status.len();
        let mut runnable: Vec<usize> = Vec::new();
        let mut i: usize = 0;
        while i < total
            invariant
                i <= total,
                total == self.status@.len(),
                self@ == m,
                self.status@ == m.status,
                runnable@ == machine::runnable_below(m.status, i as int),
                forall|j: int| 0 <= j < runnable@.len() ==> #[trigger] runnable@[j] < i,
            decreases total - i,
        {
            if self.status[i] == Status::Runnable {
                runnable.push(i);
            }
            i = i + 1;
        }
        if runnable.len() == 0 {
            self.current = None;
            assert(self@ =~= machine::picked(m));
            return ;
        }
        let fallback: usize = match self.current {
            Some(previous) => if previous < total && self.status[previous] == Status::Runnable {
                previous
            } else {
                runnable[0]
            },
            None => runnable[0],
        };
        assert(fallback == machine::default_choice(m));
        let chosen: usize = self.choices.decide(&self.status, &runnable, fallback);
        assert((chosen, self.choices@) == machine::chosen(m));
        proof {
            machine::lemma_chosen_can_run(m);
        }
        if self.trace.len() < MAX_TRACE {
            self.trace.push(chosen as u32);
        } else {
            self.trace_complete = false;
        }
        self.current = Some(chosen);
        assert(self@ =~= machine::picked(m));
    }
}

/// The looking around that operations do.
impl Scheduler {
    /// Whether the thread is parked in the same phase at the same place.
    fn is_parked_with(&self, gid: usize, wait: &WarpWait) -> (r: bool)
        requires
            self.wf(),
            gid < self@.shape.total(),
        ensures
            r == machine::parked_with(self@, gid as int, *wait),
    {
        if self.status[gid] != Status::AtWarp {
            return false;
        }
        match &self.warp_wait[gid] {
            Some(w) => w.phase == wait.phase && w.at.same(&wait.at),
            None => false,
        }
    }

    /// Lanes of this warp currently parked at the same collective as `wait`.
    fn arrived_mask(&self, block: usize, warp: usize, wait: &WarpWait) -> (r: u32)
        requires
            self.wf(),
            block < self@.shape.blocks,
            warp < self@.shape.warps(),
        ensures
            r == machine::arrived_mask(self@, block as int, warp as int, *wait),
    {
        let ghost m = self@;
        proof {
            geometry::lemma_warp_in_block(m.shape, block as int, warp as int);
        }
        let base: usize = self.shape.base_of(block, warp);
        let n: u32 = self.shape.lane_count(warp);
        let ghost p = machine::parked_lanes(m, block as int, warp as int, *wait);
        let mut mask: u32 = 0;
        let mut l: u32 = 0;
        while l < n
            invariant
                l <= n <= 32,
                self.wf(),
                self@ == m,
                base == m.shape.warp_base(block as int, warp as int),
                base + n <= m.shape.total(),
                m.shape.total() <= usize::MAX,
                p == machine::parked_lanes(m, block as int, warp as int, *wait),
                mask == lanes::mask_of(p, l as int),
            decreases n - l,
        {
            if self.is_parked_with(base + l as usize, wait) {
                assert(p(l as int));
                mask = mask | (1u32 << l);
            } else {
                assert(!p(l as int));
            }
            l = l + 1;
        }
        mask
    }

    /// How many threads of the block have this status.
    fn count_in_block(&self, block: usize, what: Status) -> (r: usize)
        requires
            self.wf(),
            block < self@.shape.blocks,
        ensures
            r == machine::count_status(
                self@.status,
                self@.shape.block_base(block as int),
                self@.shape.threads as int,
                what,
            ),
    {
        let ghost m = self@;
        proof {
            geometry::lemma_block_in_launch(m.shape, block as int);
        }
        let base: usize = block * self.shape.threads;
        let n: usize = self.shape.threads;
        let mut count: usize = 0;
        let mut i: usize = 0;
        while i < n
            invariant
                i <= n,
                count <= i,
                self@ == m,
                self.status@ == m.status,
                base + n <= m.status.len() <= usize::MAX,
                count == machine::count_status(m.status, base as int, i as int, what),
            decreases n - i,
        {
            if self.status[base + i] == what {
                count = count + 1;
            }
            i = i + 1;
        }
        count
    }

    /// Whether some thread of the block has this status.
    fn any_in_block(&self, block: usize, what: Status) -> (r: bool)
        requires
            self.wf(),
            block < self@.shape.blocks,
        ensures
            r == machine::any_in_block(self@, block as int, what),
    {
        let ghost m = self@;
        proof {
            geometry::lemma_block_in_launch(m.shape, block as int);
        }
        let base: usize = block * self.shape.threads;
        let end: usize = base + self.shape.threads;
        let mut i: usize = base;
        while i < end
            invariant
                base <= i <= end,
                self@ == m,
                self.status@ == m.status,
                base == m.shape.block_base(block as int),
                end == base + m.shape.threads,
                end <= m.status.len(),
                forall|j: int| base <= j < i ==> (#[trigger] m.status[j]) != what,
            decreases end - i,
        {
            if self.status[i] == what {
                return true;
            }
            i = i + 1;
        }
        false
    }

    /// Whether every thread of the block has this status.
    fn all_in_block(&self, block: usize, what: Status) -> (r: bool)
        requires
            self.wf(),
            block < self@.shape.blocks,
        ensures
            r == machine::all_in_block(self@, block as int, what),
    {
        let ghost m = self@;
        proof {
            geometry::lemma_block_in_launch(m.shape, block as int);
        }
        let base: usize = block * self.shape.threads;
        let end: usize = base + self.shape.threads;
        let mut i: usize = base;
        while i < end
            invariant
                base <= i <= end,
                self@ == m,
                self.status@ == m.status,
                base == m.shape.block_base(block as int),
                end == base + m.shape.threads,
                end <= m.status.len(),
                forall|j: int| base <= j < i ==> (#[trigger] m.status[j]) == what,
            decreases end - i,
        {
            if self.status[i] != what {
                return false;
            }
            i = i + 1;
        }
        true
    }

    /// The number by which findings name a block.
    fn block_number(&self, block: usize) -> (r: u32)
        requires
            self.wf(),
            block < self@.shape.blocks,
        ensures
            r == self@.block_number(block as int),
    {
        self.first_block + block as u32
    }

    /// The finding that the lanes waiting for `wait` can never be joined.
    fn warp_divergence(&self, block: usize, warp: usize, wait: &WarpWait) -> (r: Diagnostic)
        requires
            self.wf(),
            block < self@.shape.blocks,
            warp < self@.shape.warps(),
        ensures
            r == machine::warp_divergence(self@, block as int, warp as int, *wait),
    {
        let arrived: u32 = self.arrived_mask(block, warp, wait);
        Diagnostic::WarpDivergence {
            block: self.block_number(block),
            warp: warp as u32,
            op: wait.op,
            mask: wait.mask,
            arrived,
            at: wait.at,
        }
    }

    /// The finding that threads wait at a barrier others never reach.
    fn barrier_divergence(&self, block: usize) -> (r: Diagnostic)
        requires
            self.wf(),
            block < self@.shape.blocks,
            machine::any_in_block(self@, block as int, Status::AtBarrier),
        ensures
            r == machine::barrier_divergence(self@, block as int),
    {
        proof {
            let m = self@;
            let i = choose|i: int|
                m.shape.block_base(block as int) <= i < m.shape.block_base(block as int)
                    + m.shape.threads && (#[trigger] m.status[i]) == Status::AtBarrier;
            geometry::lemma_block_in_launch(m.shape, block as int);
            geometry::lemma_block_of_range(m.shape, block as int, i);
            assert(m.status[i] is AtBarrier);
        }
        let waiting: usize = self.count_in_block(block, Status::AtBarrier);
        let exited: usize = self.count_in_block(block, Status::Finished);
        let barrier: Location = self.barrier_loc[block].unwrap();
        Diagnostic::BarrierDivergence { block: self.block_number(block), waiting, exited, barrier }
    }

    /// The first lane of a warp that is parked at a collective.
    fn first_stuck_lane(&self, block: usize, warp: usize) -> (r: Option<u32>)
        requires
            self.wf(),
            block < self@.shape.blocks,
            warp < self@.shape.warps(),
        ensures
            match machine::first_stuck_lane(self@, block as int, warp as int) {
                Some(l) => r matches Some(k) && k == l && 0 <= l < self@.shape.lanes_in(warp as int)
                    && self@.status[self@.shape.warp_base(block as int, warp as int)
                    + l] is AtWarp,
                None => r is None,
            },
    {
        let ghost m = self@;
        proof {
            geometry::lemma_warp_in_block(m.shape, block as int, warp as int);
        }
        let base: usize = self.shape.base_of(block, warp);
        let n: u32 = self.shape.lane_count(warp);
        let ghost p = machine::stuck_lanes(m, block as int, warp as int);
        let mut l: u32 = 0;
        while l < n
            invariant
                l <= n,
                self@ == m,
                self.status@ == m.status,
                base == m.shape.warp_base(block as int, warp as int),
                base + n <= m.status.len() <= usize::MAX,
                p == machine::stuck_lanes(m, block as int, warp as int),
                n == m.shape.lanes_in(warp as int),
                search::first_below(p, l as int) is None,
            decreases n - l,
        {
            if self.status[base + l as usize] == Status::AtWarp {
                proof {
                    assert(p(l as int));
                    search::lemma_first_below_stays(p, l as int, n as int);
                }
                return Some(l);
            }
            assert(!p(l as int));
            l = l + 1;
        }
        None
    }
}

/// Reporting one more finding.
proof fn lemma_reported_push(f: diag::Findings, ds: Seq<Diagnostic>, d: Diagnostic)
    ensures
        diag::reported_all(f, ds.push(d)) == diag::reported(diag::reported_all(f, ds), d),
{
    assert(ds.push(d).drop_last() =~= ds);
}

/// Deadlock detection.
impl Scheduler {
    /// Reports every warp that cannot reconverge, and says whether there was
    /// one.
    fn report_stuck_collectives(&self, reporter: &mut Reporter) -> (r: bool)
        requires
            self.wf(),
        ensures
            final(reporter)@ == diag::reported_all(
                old(reporter)@,
                machine::stuck_collectives(self@, self@.shape.blocks as int),
            ),
            r == (machine::stuck_collectives(self@, self@.shape.blocks as int).len() > 0),
    {
        let ghost m = self@;
        let ghost f = reporter@;
        let mut found = false;
        let mut block: usize = 0;
        while block < self.shape.blocks
            invariant
                self.wf(),
                self@ == m,
                self.shape == m.shape,
                block <= m.shape.blocks,
                reporter@ == diag::reported_all(f, machine::stuck_collectives(m, block as int)),
                found == (machine::stuck_collectives(m, block as int).len() > 0),
            decreases m.shape.blocks - block,
        {
            let ghost done = machine::stuck_collectives(m, block as int);
            let mut warp: usize = 0;
            assert(done + machine::stuck_warps(m, block as int, 0) =~= done);
            while warp < self.warps
                invariant
                    self.wf(),
                    self@ == m,
                    self.warps == m.shape.warps(),
                    block < m.shape.blocks,
                    warp <= self.warps,
                    reporter@ == diag::reported_all(
                        f,
                        done + machine::stuck_warps(m, block as int, warp as int),
                    ),
                    found == ((done + machine::stuck_warps(m, block as int, warp as int)).len()
                        > 0),
                decreases self.warps - warp,
            {
                if let Some(l) = self.first_stuck_lane(block, warp) {
                    proof {
                        geometry::lemma_warp_in_block(m.shape, block as int, warp as int);
                    }
                    let gid: usize = self.shape.base_of(block, warp) + l as usize;
                    assert(m.status[gid as int] is AtWarp);
                    let wait: WarpWait = self.warp_wait[gid].unwrap();
                    let d = self.warp_divergence(block, warp, &wait);
                    proof {
                        let so_far = machine::stuck_warps(m, block as int, warp as int);
                        lemma_reported_push(f, done + so_far, d);
                        assert((done + so_far).push(d) =~= done + so_far.push(d));
                    }
                    reporter.push(d);
                    found = true;
                }
                warp = warp + 1;
            }
            block = block + 1;
        }
        found
    }

    /// Reports every block with threads waiting at a barrier.
    fn report_stuck_barriers(&self, reporter: &mut Reporter)
        requires
            self.wf(),
        ensures
            final(reporter)@ == diag::reported_all(
                old(reporter)@,
                machine::stuck_barriers(self@, self@.shape.blocks as int),
            ),
    {
        let ghost m = self@;
        let ghost f = reporter@;
        let mut block: usize = 0;
        while block < self.shape.blocks
            invariant
                self.wf(),
                self@ == m,
                self.shape == m.shape,
                block <= m.shape.blocks,
                reporter@ == diag::reported_all(f, machine::stuck_barriers(m, block as int)),
            decreases m.shape.blocks - block,
        {
            if self.any_in_block(block, Status::AtBarrier) {
                let d = self.barrier_divergence(block);
                proof {
                    lemma_reported_push(f, machine::stuck_barriers(m, block as int), d);
                }
                reporter.push(d);
            }
            block = block + 1;
        }
    }

    /// Reports why the launch cannot make progress, then aborts it.
    fn detect_stuck(&mut self, reporter: &mut Reporter)
        requires
            old(self).wf(),
        ensures
            final(self).wf(),
            final(self)@ == (Machine { aborted: true, ..old(self)@ }),
            final(reporter)@ == diag::reported_all(
                old(reporter)@,
                machine::stuck_findings(old(self)@),
            ),
    {
        let ghost m = self@;
        let ghost f = reporter@;
        if !self.report_stuck_collectives(reporter) {
            assert(machine::stuck_collectives(m, m.shape.blocks as int) =~= Seq::empty());
            assert(reporter@ == f);
            self.report_stuck_barriers(reporter);
        }
        self.aborted = true;
    }

    /// Reports `d` and ends the launch.
    fn fail(&mut self, d: Diagnostic, reporter: &mut Reporter)
        requires
            old(self).wf(),
        ensures
            final(self).wf(),
            final(self)@ == machine::failed(old(self)@, d).0,
            final(reporter)@ == diag::reported_all(
                old(reporter)@,
                machine::failed(old(self)@, d).1,
            ),
    {
        proof {
            lemma_reported_push(reporter@, Seq::empty(), d);
            assert(Seq::<Diagnostic>::empty().push(d) =~= seq![d]);
        }
        reporter.push(d);
        self.aborted = true;
    }

    /// Hands the turn on; with nobody to take it, works out who is waiting on
    /// whom and ends the launch.
    fn hand_off(&mut self, reporter: &mut Reporter)
        requires
            old(self).wf(),
        ensures
            final(self).wf(),
            final(self)@ == machine::handed_off(old(self)@).0,
            final(reporter)@ == diag::reported_all(
                old(reporter)@,
                machine::handed_off(old(self)@).1,
            ),
    {
        self.pick_next();
        if self.current.is_none() {
            self.detect_stuck(reporter);
        }
    }
}

/// Whether the epoch counters a thread's operations raise have room left.
pub open spec fn epochs_have_room(m: Machine, me: int) -> bool {
    let block = m.shape.block_of(me);
    let warp = m.shape.warp_of(me);
    m.barrier_gen[block] < u64::MAX && m.warp_gen[m.shape.warp_index(block, warp)] < u64::MAX
}

/// The operations of simulated threads.
impl Scheduler {
    /// A scheduler for the blocks from `first_block` on, with the first turn
    /// handed out.
    pub fn new(shape: Shape, first_block: u32, choices: Choices) -> (r: Scheduler)
        requires
            shape.wf(),
            first_block + shape.blocks <= u32::MAX,
        ensures
            r.wf(),
            r@ == machine::picked(machine::fresh(shape, first_block, choices@)),
    {
        let ghost source = choices@;
        let s = Scheduler::resume(shape, first_block, choices, Vec::new(), true);
        assert(machine::resumed(shape, first_block, source, Seq::empty(), true)
            =~= machine::fresh(shape, first_block, source));
        s
    }

    /// A scheduler for the blocks from `first_block` on that goes on with the
    /// record of an earlier one, with the first turn handed out.
    pub fn resume(
        shape: Shape,
        first_block: u32,
        choices: Choices,
        trace: Vec<u32>,
        trace_complete: bool,
    ) -> (r: Scheduler)
        requires
            shape.wf(),
            first_block + shape.blocks <= u32::MAX,
            trace@.len() <= MAX_TRACE,
        ensures
            r.wf(),
            r@ == machine::picked(
                machine::resumed(shape, first_block, choices@, trace@, trace_complete),
            ),
    {
        proof {
            geometry::lemma_warp_count(shape);
        }
        let total: usize = shape.blocks * shape.threads;
        let warps: usize = shape.warp_count();
        let ghost source = choices@;
        let ghost so_far = trace@;
        let mut s = Scheduler {
            shape,
            first_block,
            warps,
            current: None,
            status: vec![Status::Runnable; total],
            barrier_gen: vec![0; shape.blocks],
            barrier_loc: vec![None; shape.blocks],
            warp_wait: vec![None; total],
            warp_gen: vec![0; shape.blocks * warps],
            choices,
            trace,
            trace_complete,
            aborted: false,
        };
        assert(s@ =~= machine::resumed(shape, first_block, source, so_far, trace_complete));
        s.pick_next();
        s
    }

    /// What `me` may do now.
    pub fn turn(&self, me: usize) -> (r: Turn)
        ensures
            r == turn_of(self@, me as int),
    {
        if self.aborted {
            return Turn::Aborted;
        }
        match self.current {
            Some(c) => if c == me {
                Turn::Go
            } else {
                Turn::Wait
            },
            None => Turn::Wait,
        }
    }

    /// Who needs to be woken now.
    pub fn wake(&self) -> (r: Wake)
        ensures
            r == wake_of(self@),
    {
        if self.aborted {
            return Wake::All;
        }
        match self.current {
            Some(next) => Wake::One(next),
            None => Wake::Nobody,
        }
    }

    /// A scheduling point: possibly lets another thread run first.
    pub fn yield_now(&mut self, me: usize, reporter: &mut Reporter) -> (r: Turn)
        requires
            old(self).wf(),
            me < old(self)@.shape.total(),
        ensures
            final(self).wf(),
            final(self)@ == machine::handed_off(old(self)@).0,
            final(reporter)@ == diag::reported_all(
                old(reporter)@,
                machine::handed_off(old(self)@).1,
            ),
            r == turn_of(final(self)@, me as int),
    {
        self.hand_off(reporter);
        self.turn(me)
    }

    /// `__syncthreads()`: wait until every thread of the block arrives.
    pub fn barrier(&mut self, me: usize, loc: Location, reporter: &mut Reporter) -> (r: Turn)
        requires
            old(self).wf(),
            me < old(self)@.shape.total(),
            epochs_have_room(old(self)@, me as int),
        ensures
            final(self).wf(),
            final(self)@ == machine::barrier_step(old(self)@, me as int, loc).0,
            final(reporter)@ == diag::reported_all(
                old(reporter)@,
                machine::barrier_step(old(self)@, me as int, loc).1,
            ),
            r == turn_of(final(self)@, me as int),
    {
        let ghost m = self@;
        proof {
            geometry::every_thread_has_a_lane(m.shape, me as int);
        }
        let block: usize = me / self.shape.threads;
        self.status.set(me, Status::AtBarrier);
        if self.barrier_loc[block].is_none() {
            self.barrier_loc.set(block, Some(loc));
        }
        let ghost here = machine::arrived_at_barrier(m, me as int, loc);
        assert(self@ =~= here);
        proof {
            machine::lemma_arrived_at_barrier_wf(m, me as int, loc);
        }
        assert(machine::any_in_block(here, block as int, Status::AtBarrier)) by {
            assert(here.status[me as int] == Status::AtBarrier);
        }
        if self.any_in_block(block, Status::Finished) {
            let d = self.barrier_divergence(block);
            self.fail(d, reporter);
            return self.turn(me);
        }
        if self.all_in_block(block, Status::AtBarrier) {
            self.release_block(block);
        }
        self.hand_off(reporter);
        self.turn(me)
    }

    /// Releases every thread of the block from its barrier.
    fn release_block(&mut self, block: usize)
        requires
            old(self).wf(),
            block < old(self)@.shape.blocks,
            old(self)@.barrier_gen[block as int] < u64::MAX,
        ensures
            final(self).wf(),
            final(self)@ == machine::barrier_released(old(self)@, block as int),
    {
        let ghost m = self@;
        proof {
            geometry::lemma_block_in_launch(m.shape, block as int);
        }
        let base: usize = block * self.shape.threads;
        let end: usize = base + self.shape.threads;
        let mut i: usize = base;
        while i < end
            invariant
                base <= i <= end,
                end <= m.status.len(),
                self@ == (Machine { status: self.status@, ..m }),
                self.status@.len() == m.status.len(),
                self.warps == m.shape.warps(),
                forall|j: int|
                    0 <= j < m.status.len() ==> #[trigger] self.status@[j] == if base <= j < i {
                        Status::Runnable
                    } else {
                        m.status[j]
                    },
            decreases end - i,
        {
            self.status.set(i, Status::Runnable);
            i = i + 1;
        }
        let gen: u64 = self.barrier_gen[block] + 1;
        self.barrier_gen.set(block, gen);
        self.barrier_loc.set(block, None);
        assert(self@ =~= machine::barrier_released(m, block as int));
        proof {
            machine::lemma_barrier_released_wf(m, block as int);
        }
    }

    /// Stops the launch (trap-like errors). All waiting threads unwind.
    pub fn abort(&mut self)
        requires
            old(self).wf(),
        ensures
            final(self).wf(),
            final(self)@ == (Machine { aborted: true, ..old(self)@ }),
    {
        self.aborted = true;
    }

    pub fn was_aborted(&self) -> (r: bool)
        ensures
            r == self@.aborted,
    {
        self.aborted
    }

    /// The decisions this launch made, and whether the record is complete.
    pub fn take_trace(&mut self) -> (r: (Vec<u32>, bool))
        requires
            old(self).wf(),
        ensures
            final(self).wf(),
            r.0@ == old(self)@.trace,
            r.1 == old(self)@.trace_complete,
            final(self)@ == (Machine { trace: Seq::empty(), ..old(self)@ }),
    {
        let mut out: Vec<u32> = Vec::new();
        std::mem::swap(&mut out, &mut self.trace);
        (out, self.trace_complete)
    }

    /// Gives up the scheduler for what is left of its source of decisions,
    /// the decisions made so far, and whether their record is complete.
    pub fn into_parts(self) -> (r: (Choices, Vec<u32>, bool))
        ensures
            r.0@ == self@.source,
            r.1@ == self@.trace,
            r.2 == self@.trace_complete,
    {
        (self.choices, self.trace, self.trace_complete)
    }

    /// Block barrier generation and warp collective generation.
    pub fn epochs(&self, block: usize, warp: usize) -> (r: (u64, u64))
        requires
            self.wf(),
            block < self@.shape.blocks,
            warp < self@.shape.warps(),
        ensures
            r.0 == self@.barrier_gen[block as int],
            r.1 == self@.warp_gen[self@.shape.warp_index(block as int, warp as int)],
    {
        proof {
            geometry::lemma_warp_index(self.shape, block as int, warp as int);
            geometry::lemma_warp_count(self.shape);
        }
        assert(block * self.warps <= block * self.warps + warp);
        (self.barrier_gen[block], self.warp_gen[block * self.warps + warp])
    }

    /// Whether the epoch counters `me` can raise have room left.
    pub fn has_room(&self, me: usize) -> (r: bool)
        requires
            self.wf(),
            me < self@.shape.total(),
        ensures
            r == epochs_have_room(self@, me as int),
    {
        proof {
            geometry::every_thread_has_a_lane(self.shape, me as int);
        }
        let (block, warp, _lane) = self.shape.locate(me);
        let (barrier, collective) = self.epochs(block, warp);
        barrier < u64::MAX && collective < u64::MAX
    }

    /// The shape this scheduler was made for.
    pub fn shape(&self) -> (r: Shape)
        ensures
            r == self@.shape,
    {
        self.shape
    }
}

/// Warp collectives and leaving the kernel.
impl Scheduler {
    /// Whether a lane the mask names has left the kernel.
    fn member_gone(&self, block: usize, warp: usize, mask: u32) -> (r: bool)
        requires
            self.wf(),
            block < self@.shape.blocks,
            warp < self@.shape.warps(),
        ensures
            r == machine::member_gone(self@, block as int, warp as int, mask),
    {
        let ghost m = self@;
        proof {
            geometry::lemma_warp_in_block(m.shape, block as int, warp as int);
        }
        let base: usize = self.shape.base_of(block, warp);
        let n: u32 = self.shape.lane_count(warp);
        let mut l: u32 = 0;
        while l < n
            invariant
                l <= n <= 32,
                self@ == m,
                self.status@ == m.status,
                n == m.shape.lanes_in(warp as int),
                base == m.shape.warp_base(block as int, warp as int),
                base + n <= m.status.len() <= usize::MAX,
                forall|k: int|
                    0 <= k < l && #[trigger] lanes::has_lane(mask, k) ==> !(m.status[base
                        + k] is Finished),
            decreases n - l,
        {
            if names_lane(mask, l) && self.status[base + l as usize] == Status::Finished {
                return true;
            }
            l = l + 1;
        }
        false
    }

    /// The first lane of the warp parked where `wait` is with a mask that
    /// disagrees, and that mask.
    fn first_disagreement(
        &self,
        block: usize,
        warp: usize,
        lane: u32,
        wait: &WarpWait,
    ) -> (r: Option<(u32, u32)>)
        requires
            self.wf(),
            block < self@.shape.blocks,
            warp < self@.shape.warps(),
            lane < 32,
        ensures
            match search::first_below(
                machine::disagreeing_lanes(
                    self@,
                    block as int,
                    warp as int,
                    lane as int,
                    *wait,
                ),
                self@.shape.lanes_in(warp as int),
            ) {
                Some(l) => r matches Some(found) && found.0 == l && found.1 == (
                self@.warp_wait[self@.shape.warp_base(block as int, warp as int) + l]->0).mask,
                None => r is None,
            },
    {
        let ghost m = self@;
        proof {
            geometry::lemma_warp_in_block(m.shape, block as int, warp as int);
        }
        let base: usize = self.shape.base_of(block, warp);
        let n: u32 = self.shape.lane_count(warp);
        let ghost p = machine::disagreeing_lanes(
            m,
            block as int,
            warp as int,
            lane as int,
            *wait,
        );
        let mut l: u32 = 0;
        while l < n
            invariant
                l <= n <= 32,
                lane < 32,
                self.wf(),
                self@ == m,
                self.warp_wait@ == m.warp_wait,
                n == m.shape.lanes_in(warp as int),
                base == m.shape.warp_base(block as int, warp as int),
                base + n <= m.shape.total() <= usize::MAX,
                p == machine::disagreeing_lanes(
                    m,
                    block as int,
                    warp as int,
                    lane as int,
                    *wait,
                ),
                search::first_below(p, l as int) is None,
            decreases n - l,
        {
            let gid: usize = base + l as usize;
            assert(p(l as int) == machine::disagrees(
                m,
                block as int,
                warp as int,
                lane as int,
                *wait,
                l as int,
            ));
            if l != lane && self.is_parked_with(gid, wait) {
                let other: WarpWait = self.warp_wait[gid].unwrap();
                if other.mask != wait.mask && (names_lane(wait.mask, l) || names_lane(
                    other.mask,
                    lane,
                )) {
                    proof {
                        search::lemma_first_below_stays(p, l as int, n as int);
                    }
                    return Some((l, other.mask));
                }
            }
            assert(!p(l as int));
            l = l + 1;
        }
        None
    }

    /// Whether every lane the mask names is parked for exactly `wait`.
    fn all_arrived(&self, block: usize, warp: usize, wait: &WarpWait) -> (r: bool)
        requires
            self.wf(),
            block < self@.shape.blocks,
            warp < self@.shape.warps(),
        ensures
            r == machine::all_arrived(self@, block as int, warp as int, *wait),
    {
        let ghost m = self@;
        proof {
            geometry::lemma_warp_in_block(m.shape, block as int, warp as int);
        }
        let base: usize = self.shape.base_of(block, warp);
        let n: u32 = self.shape.lane_count(warp);
        let mut l: u32 = 0;
        while l < n
            invariant
                l <= n <= 32,
                self.wf(),
                self@ == m,
                self.warp_wait@ == m.warp_wait,
                n == m.shape.lanes_in(warp as int),
                base == m.shape.warp_base(block as int, warp as int),
                base + n <= m.shape.total() <= usize::MAX,
                forall|k: int|
                    0 <= k < l && #[trigger] lanes::has_lane(wait.mask, k) ==> {
                        let p = base + k;
                        machine::parked_with(m, p, *wait) && (m.warp_wait[p]->0).mask == wait.mask
                            && (m.warp_wait[p]->0).op@ == wait.op@
                    },
            decreases n - l,
        {
            if names_lane(wait.mask, l) {
                let gid: usize = base + l as usize;
                if !self.is_parked_with(gid, wait) {
                    return false;
                }
                let other: WarpWait = self.warp_wait[gid].unwrap();
                if other.mask != wait.mask || !same_text(other.op, wait.op) {
                    return false;
                }
            }
            l = l + 1;
        }
        true
    }

    /// Releases the members of a complete collective together.
    fn release_members(&mut self, block: usize, warp: usize, wait: &WarpWait)
        requires
            old(self).wf(),
            block < old(self)@.shape.blocks,
            warp < old(self)@.shape.warps(),
            old(self)@.warp_gen[old(self)@.shape.warp_index(block as int, warp as int)] < u64::MAX,
        ensures
            final(self).wf(),
            final(self)@ == machine::collective_released(
                old(self)@,
                block as int,
                warp as int,
                *wait,
            ),
    {
        let ghost m = self@;
        proof {
            geometry::lemma_warp_in_block(m.shape, block as int, warp as int);
            geometry::lemma_warp_index(m.shape, block as int, warp as int);
            geometry::lemma_warp_count(m.shape);
        }
        let base: usize = self.shape.base_of(block, warp);
        let n: u32 = self.shape.lane_count(warp);
        let mut l: u32 = 0;
        while l < n
            invariant
                l <= n <= 32,
                self@ == (Machine { status: self.status@, warp_wait: self.warp_wait@, ..m }),
                self.warps == m.shape.warps(),
                self.status@.len() == m.status.len(),
                self.warp_wait@.len() == m.warp_wait.len(),
                m.warp_wait.len() == m.status.len(),
                base + n <= m.status.len() <= usize::MAX,
                forall|j: int|
                    0 <= j < m.status.len() ==> #[trigger] self.status@[j] == if base <= j < base
                        + l && lanes::has_lane(wait.mask, j - base) {
                        Status::Runnable
                    } else {
                        m.status[j]
                    },
                forall|j: int|
                    0 <= j < m.status.len() ==> #[trigger] self.warp_wait@[j] == if base <= j < base
                        + l && lanes::has_lane(wait.mask, j - base) {
                        None
                    } else {
                        m.warp_wait[j]
                    },
            decreases n - l,
        {
            if names_lane(wait.mask, l) {
                self.status.set(base + l as usize, Status::Runnable);
                self.warp_wait.set(base + l as usize, None);
            }
            l = l + 1;
        }
        if wait.phase == PHASE_DEPART && wait.mask == self.shape.valid_mask(warp) {
            assert(block * self.warps <= block * self.warps + warp);
            let k: usize = block * self.warps + warp;
            let gen: u64 = self.warp_gen[k] + 1;
            self.warp_gen.set(k, gen);
        }
        assert(self@ =~= machine::collective_released(m, block as int, warp as int, *wait));
        proof {
            machine::lemma_collective_released_wf(m, block as int, warp as int, *wait);
        }
    }

    /// One half of a warp collective: park until every lane named by `mask`
    /// is parked at the same place, then release them together.
    pub fn warp_rendezvous(
        &mut self,
        me: usize,
        phase: u8,
        mask: u32,
        at: Location,
        op: &'static str,
        reporter: &mut Reporter,
    ) -> (r: Turn)
        requires
            old(self).wf(),
            me < old(self)@.shape.total(),
            epochs_have_room(old(self)@, me as int),
        ensures
            final(self).wf(),
            final(self)@ == machine::rendezvous_step(
                old(self)@,
                me as int,
                WarpWait { phase, mask, at, op },
            ).0,
            final(reporter)@ == diag::reported_all(
                old(reporter)@,
                machine::rendezvous_step(
                    old(self)@,
                    me as int,
                    WarpWait { phase, mask, at, op },
                ).1,
            ),
            r == turn_of(final(self)@, me as int),
    {
        let ghost m = self@;
        proof {
            geometry::every_thread_has_a_lane(m.shape, me as int);
            geometry::lemma_warp_in_block(
                m.shape,
                m.shape.block_of(me as int),
                m.shape.warp_of(me as int),
            );
        }
        let (block, warp, lane) = self.shape.locate(me);
        let wait = WarpWait { phase, mask, at, op };
        self.status.set(me, Status::AtWarp);
        self.warp_wait.set(me, Some(wait));
        let ghost here = machine::parked(m, me as int, wait);
        assert(self@ =~= here);
        proof {
            machine::lemma_parked_wf(m, me as int, wait);
        }
        // A mask-mate that already left the kernel can never arrive.
        if self.member_gone(block, warp, mask) {
            let d = self.warp_divergence(block, warp, &wait);
            self.fail(d, reporter);
            return self.turn(me);
        }
        // Participants must agree on who is taking part. This scans the whole
        // warp, not just this lane's members: a lane that claims us while we
        // do not claim it is exactly the disagreement worth catching, and
        // checking both directions makes detection independent of who parked
        // first.
        if let Some((other_lane, other_mask)) = self.first_disagreement(block, warp, lane, &wait) {
            let d = Diagnostic::WarpMaskMismatch {
                block: self.block_number(block),
                warp: warp as u32,
                op,
                at,
                lane,
                mask,
                other_lane,
                other_mask,
            };
            self.fail(d, reporter);
            return self.turn(me);
        }
        if self.all_arrived(block, warp, &wait) {
            self.release_members(block, warp, &wait);
        }
        self.hand_off(reporter);
        self.turn(me)
    }

    /// The first lane of the warp parked at a collective that names `lane`,
    /// as what it waits for.
    fn first_waiter(&self, block: usize, warp: usize, lane: u32) -> (r: Option<WarpWait>)
        requires
            self.wf(),
            block < self@.shape.blocks,
            warp < self@.shape.warps(),
            lane < 32,
        ensures
            match search::first_below(
                machine::waiting_lanes(self@, block as int, warp as int, lane as int),
                self@.shape.lanes_in(warp as int),
            ) {
                Some(l) => r == self@.warp_wait[self@.shape.warp_base(block as int, warp as int)
                    + l] && r is Some,
                None => r is None,
            },
    {
        let ghost m = self@;
        proof {
            geometry::lemma_warp_in_block(m.shape, block as int, warp as int);
        }
        let base: usize = self.shape.base_of(block, warp);
        let n: u32 = self.shape.lane_count(warp);
        let ghost p = machine::waiting_lanes(m, block as int, warp as int, lane as int);
        let mut l: u32 = 0;
        while l < n
            invariant
                l <= n,
                lane < 32,
                self@ == m,
                self.status@ == m.status,
                self.warp_wait@ == m.warp_wait,
                m.warp_wait.len() == m.status.len(),
                n == m.shape.lanes_in(warp as int),
                base == m.shape.warp_base(block as int, warp as int),
                base + n <= m.status.len() <= usize::MAX,
                p == machine::waiting_lanes(m, block as int, warp as int, lane as int),
                search::first_below(p, l as int) is None,
            decreases n - l,
        {
            let gid: usize = base + l as usize;
            assert(p(l as int) == machine::waits_for(
                m,
                block as int,
                warp as int,
                lane as int,
                l as int,
            ));
            if self.status[gid] == Status::AtWarp {
                if let Some(wait) = self.warp_wait[gid] {
                    if names_lane(wait.mask, lane) {
                        proof {
                            search::lemma_first_below_stays(p, l as int, n as int);
                        }
                        return Some(wait);
                    }
                }
            }
            assert(!p(l as int));
            l = l + 1;
        }
        None
    }

    /// Whether some thread has not left the kernel.
    fn some_live(&self) -> (r: bool)
        requires
            self.wf(),
        ensures
            r == machine::some_live(self@),
    {
        let ghost m = self@;
        let mut i: usize = 0;
        while i < self.status.len()
            invariant
                i <= self.status@.len(),
                self@ == m,
                self.status@ == m.status,
                forall|j: int| 0 <= j < i ==> (#[trigger] m.status[j]) == Status::Finished,
            decreases self.status@.len() - i,
        {
            if self.status[i] != Status::Finished {
                return true;
            }
            i = i + 1;
        }
        false
    }

    /// The thread returned from the kernel.
    pub fn finish(&mut self, me: usize, reporter: &mut Reporter)
        requires
            old(self).wf(),
            me < old(self)@.shape.total(),
        ensures
            final(self).wf(),
            final(self)@ == machine::finish_step(old(self)@, me as int).0,
            final(reporter)@ == diag::reported_all(
                old(reporter)@,
                machine::finish_step(old(self)@, me as int).1,
            ),
    {
        let ghost m = self@;
        proof {
            geometry::every_thread_has_a_lane(m.shape, me as int);
            geometry::lemma_warp_in_block(
                m.shape,
                m.shape.block_of(me as int),
                m.shape.warp_of(me as int),
            );
        }
        let (block, warp, lane) = self.shape.locate(me);
        self.status.set(me, Status::Finished);
        assert(self@ =~= machine::left(m, me as int));
        proof {
            machine::lemma_left_wf(m, me as int);
        }
        // Warp-mates still waiting for this lane will never be released.
        if let Some(wait) = self.first_waiter(block, warp, lane) {
            let d = self.warp_divergence(block, warp, &wait);
            self.fail(d, reporter);
            return ;
        }
        if self.any_in_block(block, Status::AtBarrier) {
            let d = self.barrier_divergence(block);
            self.fail(d, reporter);
            return ;
        }
        self.pick_next();
        if self.current.is_none() && self.some_live() {
            // The last runnable thread exited while others are still parked.
            self.detect_stuck(reporter);
        }
    }
}

} // verus!
