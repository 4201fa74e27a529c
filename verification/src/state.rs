//! The state of a running launch, and what its threads can ask of it.
//!
//! An operation never blocks: it says whether the acting thread may go on,
//! has to wait until it is handed the turn, or has to unwind.

use vstd::prelude::*;

use crate::ctx::ThreadCtx;
use crate::diag::{self, Access, AccessKind, Diagnostic, Findings, Report, Reporter};
use crate::geometry::{self, Shape};
use crate::launch::{self, ConfigError, LaunchConfig, Plan, Wave};
use crate::location::Location;
use crate::machine::{self, Machine, Step, WarpWait};
use crate::sched::{self, Choices, Scheduler, Turn, Wake};
use crate::sync::{self, key, AtomicOrdering, Clocks, SyncState};

verus! {

/// A launch in the middle of a wave.
#[verifier::ext_equal]
pub struct Running {
    /// Tells launches apart, so memory knows when its access history is stale.
    pub id: u64,
    pub config: LaunchConfig,
    pub plan: Plan,
    pub wave: Wave,
    pub machine: Machine,
    pub findings: Findings,
    pub clocks: Clocks,
}

/// The resident threads of a wave.
pub open spec fn wave_shape(plan: Plan, wave: Wave) -> Shape {
    Shape {
        blocks: wave.blocks as usize,
        threads: plan.threads as usize,
        warp_size: plan.warp_size as usize,
    }
}

impl Running {
    pub open spec fn wf(self) -> bool {
        &&& launch::config_problem(self.config) is None
        &&& self.plan == launch::plan_of(self.config)
        &&& self.plan.wf()
        &&& 0 < self.wave.blocks <= self.plan.resident
        &&& self.wave.first + self.wave.blocks <= self.plan.blocks
        &&& self.machine.wf()
        &&& self.machine.shape == wave_shape(self.plan, self.wave)
        &&& self.machine.first_block == self.wave.first
        &&& self.clocks.wf()
        &&& self.clocks.seq.len() == self.machine.shape.total()
        &&& self.clocks.block.len() == self.machine.shape.blocks
    }

    /// Whether thread `me` is resident.
    pub open spec fn has_thread(self, me: int) -> bool {
        0 <= me < self.machine.shape.total()
    }

    /// Whether the counters that operations of `me` raise have room left.
    pub open spec fn has_room(self, me: int) -> bool {
        sched::epochs_have_room(self.machine, me) && self.clocks.seq[me] < u64::MAX
    }

    /// Where thread `me` sits in the launch.
    pub open spec fn thread(self, me: int) -> ThreadCtx {
        ThreadCtx {
            config: self.config,
            block: self.machine.block_number(self.machine.shape.block_of(me)),
            thread: (me % self.machine.shape.threads as int) as u32,
            gid: me as usize,
        }
    }
}

/// The first state of a wave: the record of decisions and the findings go on
/// from what earlier waves left.
pub open spec fn wave_started(
    id: u64,
    config: LaunchConfig,
    wave: Wave,
    source: machine::Source,
    trace: Seq<u32>,
    trace_complete: bool,
    findings: Findings,
) -> Running {
    let plan = launch::plan_of(config);
    let shape = wave_shape(plan, wave);
    Running {
        id,
        config,
        plan,
        wave,
        machine: machine::picked(
            machine::resumed(shape, wave.first, source, trace, trace_complete),
        ),
        findings,
        clocks: sync::unsynchronised(shape.total() as nat, shape.blocks as nat),
    }
}

/// The first state of a launch.
pub open spec fn launched(id: u64, config: LaunchConfig, source: machine::Source) -> Running {
    wave_started(
        id,
        config,
        launch::plan_of(config).wave_at(0),
        source,
        Seq::empty(),
        true,
        diag::no_findings(),
    )
}

/// Whether blocks are left to run after the current wave: none is once the
/// launch was aborted.
pub open spec fn has_more_waves(r: Running) -> bool {
    !r.machine.aborted && r.wave.first + r.wave.blocks < r.plan.blocks
}

/// The first state of the next wave.
pub open spec fn next_wave(r: Running) -> Running {
    wave_started(
        r.id,
        r.config,
        r.plan.wave_at((r.wave.first + r.wave.blocks) as u32),
        r.machine.source,
        r.machine.trace,
        r.machine.trace_complete,
        r.findings,
    )
}

/// A scheduling step taken and its findings reported.
pub open spec fn stepped(r: Running, step: Step) -> Running {
    Running { machine: step.0, findings: diag::reported_all(r.findings, step.1), ..r }
}

/// A thread at a barrier: on the way in it contributes what it knows to its
/// block. If it is the last, the barrier releases, which raises the epoch, and
/// every thread of the block takes on what the block knows by then.
pub open spec fn entered_barrier(r: Running, me: int, loc: Location) -> Running {
    let sh = r.machine.shape;
    let block = sh.block_of(me);
    let step = machine::barrier_step(r.machine, me, loc);
    let arrived = sync::arrived(r.clocks, me, block);
    Running {
        clocks: if step.0.barrier_gen[block] != r.machine.barrier_gen[block] {
            sync::all_departed(arrived, sh.block_base(block), sh.threads as int, block)
        } else {
            arrived
        },
        ..stepped(r, step)
    }
}

/// The access thread `me` makes now.
pub open spec fn access_now(r: Running, me: int, kind: AccessKind, location: Location) -> Access {
    let block = r.machine.shape.block_of(me);
    let warp = r.machine.shape.warp_of(me);
    Access {
        block: r.thread(me).block,
        thread: r.thread(me).thread,
        epoch: r.machine.barrier_gen[block],
        warp: warp as u32,
        warp_epoch: r.machine.warp_gen[r.machine.shape.warp_index(block, warp)],
        seq: (r.clocks.seq[me] + 1) as u64,
        kind,
        location,
    }
}

/// The state after thread `me` counted an access.
pub open spec fn counted(r: Running, me: int) -> Running {
    let t = r.thread(me);
    Running { clocks: sync::ticked(r.clocks, me, sync::key_of(t.block, t.thread)), ..r }
}

/// The state after a finding that does not stop the launch.
pub open spec fn noted(r: Running, d: Diagnostic) -> Running {
    Running { findings: diag::reported(r.findings, d), ..r }
}

/// The state after a finding that ends the launch, like a GPU trap.
pub open spec fn trapped(r: Running, d: Diagnostic) -> Running {
    Running { machine: Machine { aborted: true, ..r.machine }, ..noted(r, d) }
}

/// The finding that the kernel panicked on a thread.
pub open spec fn panic_finding(r: Running, me: int, message: String) -> Diagnostic {
    Diagnostic::KernelPanic { block: r.thread(me).block, thread: r.thread(me).thread, message }
}

/// A running launch.
pub struct LaunchState {
    id: u64,
    config: LaunchConfig,
    plan: Plan,
    wave: Wave,
    sched: Scheduler,
    reporter: Reporter,
    sync: SyncState,
}

impl View for LaunchState {
    type V = Running;

    closed spec fn view(&self) -> Running {
        Running {
            id: self.id,
            config: self.config,
            plan: self.plan,
            wave: self.wave,
            machine: self.sched@,
            findings: self.reporter@,
            clocks: self.sync@,
        }
    }
}

/// The bounds that follow from a thread being resident.
proof fn lemma_resident(r: Running, me: int)
    requires
        r.wf(),
        r.has_thread(me),
    ensures
        0 <= r.machine.shape.block_of(me) < r.machine.shape.blocks,
        0 <= r.machine.shape.warp_of(me) < r.machine.shape.warps(),
        r.thread(me).wf(),
        r.thread(me).block == r.wave.first + r.machine.shape.block_of(me),
        r.thread(me).thread == me % r.machine.shape.threads as int,
        r.machine.shape.warp_of(me) == r.thread(me).thread / r.config.warp_size,
        r.machine.shape.lane_of(me) == r.thread(me).thread % r.config.warp_size,
        r.machine.shape.total() <= u32::MAX,
{
    geometry::every_thread_has_a_lane(r.machine.shape, me);
}

/// What every resident thread is: a thread of the configured launch, in a
/// block of the current wave, at the lane the scheduler knows it by.
pub proof fn resident_threads_belong_to_the_launch(r: Running, me: int)
    requires
        r.wf(),
        r.has_thread(me),
    ensures
        r.thread(me).wf(),
        r.wave.first <= r.thread(me).block < r.wave.first + r.wave.blocks,
        r.machine.shape.warp_of(me) == r.thread(me).thread / r.config.warp_size,
        r.machine.shape.lane_of(me) == r.thread(me).thread % r.config.warp_size,
{
    lemma_resident(r, me);
}

/// Resident threads are numbered block by block, from the first thread of the
/// wave's first block on, and within a block as the block numbers them.
pub proof fn threads_are_numbered_in_order(r: Running, me: int)
    requires
        r.wf(),
        r.has_thread(me),
    ensures
        me == (r.thread(me).block - r.wave.first) * r.plan.threads + r.thread(me).thread,
        r.thread(me).thread < r.plan.threads,
        r.thread(me).gid == me,
        r.machine.shape.block_of(me) == r.thread(me).block - r.wave.first,
{
    lemma_resident(r, me);
    let n = r.machine.shape.threads as int;
    vstd::arithmetic::div_mod::lemma_fundamental_div_mod(me, n);
    vstd::arithmetic::mul::lemma_mul_is_commutative(n, me / n);
}

/// An access carries who makes it, where, how, and the epochs and the number it
/// is made in: the barriers its block has passed, the collectives its warp has
/// left, and one more than the accesses its thread has made.
pub proof fn accesses_are_stamped(r: Running, me: int, kind: AccessKind, location: Location)
    requires
        r.wf(),
        r.has_thread(me),
        r.clocks.seq[me] < u64::MAX,
    ensures
        ({
            let a = access_now(r, me, kind, location);
            let warps = r.machine.shape.warps();
            &&& me == (a.block - r.wave.first) * r.plan.threads + a.thread
            &&& a.warp == a.thread / r.plan.warp_size
            &&& a.epoch == r.machine.barrier_gen[a.block - r.wave.first]
            &&& a.warp_epoch == r.machine.warp_gen[(a.block - r.wave.first) * warps + a.warp]
            &&& a.seq == r.clocks.seq[me] + 1
            &&& a.kind == kind
            &&& a.location == location
            &&& access_now(counted(r, me), me, kind, location) == (Access {
                seq: (a.seq + 1) as u64,
                ..a
            })
        }),
{
    threads_are_numbered_in_order(r, me);
    lemma_resident(r, me);
}

/// The next wave starts where the last one ended and goes on with what it left:
/// the launch, its findings, the source of decisions and the record of them.
/// Its threads all run, have passed no barrier and no collective, and know
/// nothing.
pub proof fn waves_go_on_where_the_last_ended(r: Running, t: int, k: u64)
    requires
        r.wf(),
        has_more_waves(r),
        next_wave(r).has_thread(t),
    ensures
        ({
            let n = next_wave(r);
            &&& n.id == r.id
            &&& n.config == r.config
            &&& n.plan == r.plan
            &&& n.findings == r.findings
            &&& n.wave.first == r.wave.first + r.wave.blocks
            &&& n.wave.blocks == r.plan.resident || n.wave.first + n.wave.blocks == r.plan.blocks
            &&& n.machine.trace.len() >= r.machine.trace.len()
            &&& n.machine.trace.take(r.machine.trace.len() as int) == r.machine.trace
            &&& !r.machine.trace_complete ==> !n.machine.trace_complete
            &&& r.machine.source matches machine::Source::Random(s) ==> n.machine.source
                == machine::Source::Random(machine::next_state(s))
            &&& r.machine.source matches machine::Source::Replay(plan) ==> n.machine.source
                == machine::Source::Replay(
                if plan.len() == 0 {
                    plan
                } else {
                    plan.drop_first()
                },
            )
            &&& n.machine.status[t] is Runnable
            &&& n.machine.warp_wait[t] is None
            &&& !n.machine.aborted
            &&& n.clocks.seq[t] == 0
            &&& sync::seen(n.clocks.clock[t], k) == 0
            &&& forall|b: int|
                0 <= b < n.wave.blocks ==> #[trigger] n.machine.barrier_gen[b] == 0
                    && n.machine.barrier_loc[b] is None
            &&& forall|w: int|
                0 <= w < n.machine.warp_gen.len() ==> #[trigger] n.machine.warp_gen[w] == 0
        }),
{
    let shape = wave_shape(r.plan, r.plan.wave_at((r.wave.first + r.wave.blocks) as u32));
    let start = machine::fresh(shape, 0, r.machine.source);
    assert(shape.total() <= usize::MAX) by {
        let (a, b, c) = (shape.blocks as int, r.plan.resident as int, shape.threads as int);
        assert(a * c <= b * c) by (nonlinear_arith)
            requires
                0 <= a <= b,
                0 <= c,
        ;
    }
    machine::lemma_runnable_below(start.status, start.status.len() as int);
    assert(start.status[t] is Runnable);
    assert(machine::runnable(start).contains(t as usize));
}

/// Blocks are left to run exactly when the launch goes on and the wave does not
/// hold the last block of the grid.
pub proof fn the_last_wave_holds_the_last_block(r: Running)
    requires
        r.wf(),
    ensures
        has_more_waves(r) <==> !r.machine.aborted && r.wave.first + r.wave.blocks < r.config.grid.x
            * r.config.grid.y * r.config.grid.z,
{
}

/// A trap ends the launch and is reported like any other finding, and a finding
/// alone changes nothing but what was found.
pub proof fn traps_end_the_launch(r: Running, d: Diagnostic)
    requires
        r.findings.kept.len() < 64,
        !r.findings.keys.contains(diag::key_of(d)),
    ensures
        trapped(r, d).machine.aborted,
        trapped(r, d).findings.kept == r.findings.kept.push(d),
        noted(r, d).findings.kept == r.findings.kept.push(d),
        noted(r, d).machine == r.machine,
        noted(r, d).clocks == r.clocks,
        trapped(r, d).clocks == r.clocks,
        trapped(r, d).machine.status == r.machine.status,
        trapped(r, d).machine.trace == r.machine.trace,
{
    diag::fresh_findings_are_kept(r.findings, d);
}

/// A panic is blamed on the thread that panicked, with its message.
pub proof fn panics_are_blamed_on_their_thread(r: Running, me: int, message: String)
    requires
        r.wf(),
        r.has_thread(me),
    ensures
        panic_finding(r, me, message) matches Diagnostic::KernelPanic {
            block,
            thread,
            message: said,
        } && me == (block - r.wave.first) * r.plan.threads + thread && thread < r.plan.threads
            && said == message,
{
    threads_are_numbered_in_order(r, me);
}

/// A launch starts with its first blocks, as many as may be resident, with
/// nothing found and nobody knowing anything.
pub proof fn launches_start_from_nothing(
    id: u64,
    config: LaunchConfig,
    source: machine::Source,
    t: int,
    k: u64,
)
    requires
        launch::config_problem(config) is None,
        launched(id, config, source).has_thread(t),
    ensures
        ({
            let r = launched(id, config, source);
            &&& r.id == id
            &&& r.config == config
            &&& r.plan == launch::plan_of(config)
            &&& r.wave.first == 0
            &&& r.wave.blocks == r.plan.resident
            &&& r.findings.kept.len() == 0
            &&& r.findings.keys.len() == 0
            &&& r.machine.trace.len() <= 1
            &&& r.machine.trace_complete
            &&& r.machine.status[t] is Runnable
            &&& !r.machine.aborted
            &&& r.clocks.seq[t] == 0
            &&& sync::seen(r.clocks.clock[t], k) == 0
        }),
{
    launch::lemma_plan_wf(config);
}

/// A scheduling step changes the machine, and reports what it found one by one:
/// a step that found nothing adds nothing, and one that found a thing reports
/// it as any finding is.
pub proof fn steps_report_what_they_find(
    r: Running,
    m: Machine,
    d: Diagnostic,
    ds: Seq<Diagnostic>,
)
    ensures
        stepped(r, (m, ds)).machine == m,
        stepped(r, (m, ds)).clocks == r.clocks,
        stepped(r, (m, ds)).wave == r.wave && stepped(r, (m, ds)).plan == r.plan,
        stepped(r, (m, ds)).id == r.id && stepped(r, (m, ds)).config == r.config,
        stepped(r, (m, Seq::empty())).findings == r.findings,
        stepped(r, (m, ds.push(d))).findings == noted(stepped(r, (m, ds)), d).findings,
{
    assert(ds.push(d).drop_last() =~= ds);
    assert(ds.push(d).last() == d);
}

impl LaunchState {
    pub closed spec fn wf(&self) -> bool {
        self@.wf() && self.sched.wf()
    }

    /// What holds of every launch state that is well formed.
    pub proof fn lemma_wf(&self)
        requires
            self.wf(),
        ensures
            self@.wf(),
    {
    }

    /// Starts a launch, or says why it cannot be run.
    pub fn start(id: u64, config: &LaunchConfig, choices: Choices) -> (r: Result<
        LaunchState,
        ConfigError,
    >)
        ensures
            match launch::config_problem(*config) {
                Some(e) => r == Err::<LaunchState, ConfigError>(e),
                None => r matches Ok(s) && s.wf() && s@ == launched(id, *config, choices@),
            },
    {
        let plan = match config.plan() {
            Ok(plan) => plan,
            Err(e) => return Err(e),
        };
        let wave = match plan.next_wave(0) {
            Some(wave) => wave,
            None => return Err(ConfigError::Empty),
        };
        Ok(
            LaunchState::start_wave(
                id,
                *config,
                plan,
                wave,
                choices,
                Vec::new(),
                true,
                Reporter::new(),
            ),
        )
    }

    fn start_wave(
        id: u64,
        config: LaunchConfig,
        plan: Plan,
        wave: Wave,
        choices: Choices,
        trace: Vec<u32>,
        trace_complete: bool,
        reporter: Reporter,
    ) -> (r: LaunchState)
        requires
            launch::config_problem(config) is None,
            plan == launch::plan_of(config),
            plan.wf(),
            0 < wave.blocks <= plan.resident,
            wave.first + wave.blocks <= plan.blocks,
            trace@.len() <= machine::MAX_TRACE,
        ensures
            r.wf(),
            r@ == wave_started(
                id,
                config,
                wave,
                choices@,
                trace@,
                trace_complete,
                reporter@,
            ),
    {
        let shape = plan.shape(&wave);
        let ghost source = choices@;
        let ghost so_far = trace@;
        let ghost findings = reporter@;
        let total: usize = shape.blocks * shape.threads;
        let r = LaunchState {
            id,
            config,
            plan,
            wave,
            sched: Scheduler::resume(shape, wave.first, choices, trace, trace_complete),
            reporter,
            sync: SyncState::new(total, shape.blocks),
        };
        assert(r@ =~= wave_started(
            id,
            config,
            wave,
            source,
            so_far,
            trace_complete,
            findings,
        ));
        proof {
            r.sched.lemma_wf();
        }
        r
    }

    /// Goes on to the next wave, or ends the launch: when it was aborted, or
    /// when every block has run. Decisions and their record go on where the
    /// last wave left them, and so do the findings; what threads knew of each
    /// other does not. At the end come the report, every decision of the
    /// launch as far as it was recorded, and whether replaying them is the
    /// launch again, which is claimed of a single wave only.
    pub fn advance(self) -> (r: Result<LaunchState, (Report, Vec<u32>, bool)>)
        requires
            self.wf(),
        ensures
            if has_more_waves(self@) {
                r matches Ok(s) && s.wf() && s@ == next_wave(self@)
            } else {
                &&& r matches Err(end)
                &&& end.0.seed == self@.config.seed
                &&& end.0.diagnostics@ == self@.findings.kept
                &&& end.0.aborted == self@.machine.aborted
                &&& end.1@ == self@.machine.trace
                &&& end.2 == (self@.machine.trace_complete && self@.plan.resident
                    == self@.plan.blocks)
            },
    {
        let mut this = self;
        if !this.sched.was_aborted() {
            let first: u32 = this.wave.first + this.wave.blocks;
            if let Some(wave) = this.plan.next_wave(first) {
                let (choices, trace, trace_complete) = this.sched.into_parts();
                return Ok(
                    LaunchState::start_wave(
                        this.id,
                        this.config,
                        this.plan,
                        wave,
                        choices,
                        trace,
                        trace_complete,
                        this.reporter,
                    ),
                );
            }
        }
        let (trace, complete) = this.sched.take_trace();
        let report = Report {
            seed: this.config.seed,
            diagnostics: this.reporter.take(),
            aborted: this.sched.was_aborted(),
        };
        Err((report, trace, complete && this.plan.is_single_wave()))
    }

    /// How many threads are resident.
    pub fn resident_threads(&self) -> (r: usize)
        requires
            self.wf(),
        ensures
            r == self@.machine.shape.total(),
    {
        let shape = self.sched.shape();
        shape.blocks * shape.threads
    }

    pub fn id(&self) -> (r: u64)
        ensures
            r == self@.id,
    {
        self.id
    }

    /// Where thread `me` sits in the launch.
    pub fn thread(&self, me: usize) -> (r: ThreadCtx)
        requires
            self.wf(),
            self@.has_thread(me as int),
        ensures
            r == self@.thread(me as int),
            r.wf(),
    {
        proof {
            lemma_resident(self@, me as int);
        }
        let shape = self.sched.shape();
        ThreadCtx {
            config: self.config,
            block: self.wave.first + (me / shape.threads) as u32,
            thread: (me % shape.threads) as u32,
            gid: me,
        }
    }

    /// What `me` may do now.
    pub fn turn(&self, me: usize) -> (r: Turn)
        ensures
            r == sched::turn_of(self@.machine, me as int),
    {
        self.sched.turn(me)
    }

    /// Who needs to be woken now.
    pub fn wake(&self) -> (r: Wake)
        ensures
            r == sched::wake_of(self@.machine),
    {
        self.sched.wake()
    }

    /// Whether the counters that operations of `me` raise have room left.
    pub fn has_room(&self, me: usize) -> (r: bool)
        requires
            self.wf(),
            self@.has_thread(me as int),
        ensures
            r == self@.has_room(me as int),
    {
        self.sched.has_room(me) && self.sync.has_room(me)
    }

    /// A scheduling point: possibly lets another thread run first.
    pub fn schedule_point(&mut self, me: usize) -> (r: Turn)
        requires
            old(self).wf(),
            old(self)@.has_thread(me as int),
        ensures
            final(self).wf(),
            final(self)@ == stepped(old(self)@, machine::handed_off(old(self)@.machine)),
            r == sched::turn_of(final(self)@.machine, me as int),
    {
        let ghost before = self@;
        let r = self.sched.yield_now(me, &mut self.reporter);
        assert(self@ =~= stepped(before, machine::handed_off(before.machine)));
        proof {
            self.sched.lemma_wf();
            lemma_shape_stays(before, machine::handed_off(before.machine).0);
        }
        r
    }

    /// `__syncthreads()`. Every thread of the block must reach the same
    /// barrier; otherwise barrier divergence is reported.
    pub fn sync_threads_at(&mut self, me: usize, loc: Location) -> (r: Turn)
        requires
            old(self).wf(),
            old(self)@.has_thread(me as int),
            old(self)@.has_room(me as int),
        ensures
            final(self).wf(),
            final(self)@ == entered_barrier(old(self)@, me as int, loc),
            r == sched::turn_of(final(self)@.machine, me as int),
    {
        let ghost before = self@;
        proof {
            lemma_resident(before, me as int);
        }
        let threads: usize = self.sched.shape().threads;
        let block: usize = me / threads;
        self.sync.barrier_arrive(me, block);
        let epoch: u64 = self.sched.epochs(block, 0).0;
        let r = self.sched.barrier(me, loc, &mut self.reporter);
        if self.sched.epochs(block, 0).0 != epoch {
            proof {
                geometry::lemma_block_in_launch(before.machine.shape, block as int);
            }
            self.sync.barrier_release(block * threads, threads, block);
        }
        assert(self@ =~= entered_barrier(before, me as int, loc));
        proof {
            self.sched.lemma_wf();
            lemma_shape_stays(before, machine::barrier_step(before.machine, me as int, loc).0);
        }
        r
    }

    /// `__threadfence()` and its one-sided forms.
    pub fn fence(&mut self, me: usize, ordering: AtomicOrdering)
        requires
            old(self).wf(),
            old(self)@.has_thread(me as int),
        ensures
            final(self).wf(),
            final(self)@ == (Running {
                clocks: sync::fenced(old(self)@.clocks, me as int, ordering),
                ..old(self)@
            }),
    {
        self.sync.fence(me, ordering);
    }

    /// `__threadfence()`: both halves.
    pub fn threadfence(&mut self, me: usize)
        requires
            old(self).wf(),
            old(self)@.has_thread(me as int),
        ensures
            final(self).wf(),
            final(self)@ == (Running {
                clocks: sync::fenced(old(self)@.clocks, me as int, AtomicOrdering::AcqRel),
                ..old(self)@
            }),
    {
        self.fence(me, AtomicOrdering::AcqRel);
    }

    /// Parks at one half of a warp collective.
    pub fn warp_rendezvous(
        &mut self,
        me: usize,
        phase: u8,
        mask: u32,
        at: Location,
        op: &'static str,
    ) -> (r: Turn)
        requires
            old(self).wf(),
            old(self)@.has_thread(me as int),
            old(self)@.has_room(me as int),
        ensures
            final(self).wf(),
            final(self)@ == stepped(
                old(self)@,
                machine::rendezvous_step(
                    old(self)@.machine,
                    me as int,
                    WarpWait { phase, mask, at, op },
                ),
            ),
            r == sched::turn_of(final(self)@.machine, me as int),
    {
        let ghost before = self@;
        let ghost wait = WarpWait { phase, mask, at, op };
        let r = self.sched.warp_rendezvous(me, phase, mask, at, op, &mut self.reporter);
        let ghost step = machine::rendezvous_step(before.machine, me as int, wait);
        assert(self@ =~= stepped(before, step));
        proof {
            self.sched.lemma_wf();
            lemma_shape_stays(before, step.0);
        }
        r
    }

    /// Counts an access by thread `me` and describes it.
    pub fn access(&mut self, me: usize, kind: AccessKind, location: Location) -> (r: Access)
        requires
            old(self).wf(),
            old(self)@.has_thread(me as int),
            old(self)@.has_room(me as int),
        ensures
            final(self).wf(),
            final(self)@ == counted(old(self)@, me as int),
            r == access_now(old(self)@, me as int, kind, location),
    {
        let ghost before = self@;
        proof {
            lemma_resident(before, me as int);
            geometry::every_thread_has_a_lane(before.machine.shape, me as int);
        }
        let t = self.thread(me);
        let (block, warp, _lane) = self.sched.shape().locate(me);
        let (epoch, warp_epoch) = self.sched.epochs(block, warp);
        let seq: u64 = self.sync.tick(me, key(t.block, t.thread));
        assert(self@ =~= counted(before, me as int));
        Access {
            block: t.block,
            thread: t.thread,
            epoch,
            warp: warp as u32,
            warp_epoch,
            seq,
            kind,
            location,
        }
    }

    /// The clocks of the resident threads.
    pub fn clocks(&self) -> (r: &SyncState)
        requires
            self.wf(),
        ensures
            r@ == self@.clocks,
            r@.wf(),
    {
        &self.sync
    }

    /// Takes on what a location published, as thread `me`.
    pub fn acquire(&mut self, me: usize, source: &sync::Clock, ordering: AtomicOrdering)
        requires
            old(self).wf(),
            old(self)@.has_thread(me as int),
        ensures
            final(self).wf(),
            final(self)@ == (Running {
                clocks: sync::acquired(old(self)@.clocks, me as int, source@, ordering),
                ..old(self)@
            }),
    {
        self.sync.acquire(me, source, ordering);
    }

    /// Reports a problem that does not stop the launch.
    pub fn report(&mut self, d: Diagnostic)
        requires
            old(self).wf(),
        ensures
            final(self).wf(),
            final(self)@ == noted(old(self)@, d),
    {
        self.reporter.push(d);
    }

    /// Reports a fatal error and aborts the launch, like a GPU trap.
    pub fn trap(&mut self, d: Diagnostic)
        requires
            old(self).wf(),
        ensures
            final(self).wf(),
            final(self)@ == trapped(old(self)@, d),
    {
        self.reporter.push(d);
        self.sched.abort();
    }

    /// The thread returned from the kernel.
    pub fn finish(&mut self, me: usize)
        requires
            old(self).wf(),
            old(self)@.has_thread(me as int),
        ensures
            final(self).wf(),
            final(self)@ == stepped(
                old(self)@,
                machine::finish_step(old(self)@.machine, me as int),
            ),
    {
        let ghost before = self@;
        self.sched.finish(me, &mut self.reporter);
        let ghost step = machine::finish_step(before.machine, me as int);
        assert(self@ =~= stepped(before, step));
        proof {
            self.sched.lemma_wf();
            lemma_shape_stays(before, step.0);
        }
    }

    /// The kernel panicked on this thread, which ends the launch.
    pub fn kernel_panic(&mut self, me: usize, message: String)
        requires
            old(self).wf(),
            old(self)@.has_thread(me as int),
        ensures
            final(self).wf(),
            final(self)@ == trapped(old(self)@, panic_finding(old(self)@, me as int, message)),
    {
        let t = self.thread(me);
        self.trap(Diagnostic::KernelPanic { block: t.block, thread: t.thread, message });
    }
}

/// A step that keeps the shape keeps the launch well formed.
proof fn lemma_shape_stays(before: Running, after: Machine)
    requires
        before.wf(),
        after.wf(),
        after.shape == before.machine.shape,
        after.first_block == before.machine.first_block,
    ensures
        (Running { machine: after, ..before }).wf(),
{
}

} // verus!
