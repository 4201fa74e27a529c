//! What holds of a launch as a whole, from its first decision to its report.
//!
//! A launch is a sequence of operations of simulated threads. Each is one of
//! those that [`LaunchState`](crate::state::LaunchState), the instrumented
//! memories and the warp collectives offer, and leads to the state that they
//! state of it.

use vstd::prelude::*;

use crate::diag::{self, Diagnostic, MemSpace, Report};
use crate::launch::{self, LaunchConfig, Plan, Wave};
use crate::location::Location;
use crate::machine::{self, Machine, Source, WarpWait, PHASE_ARRIVE, PHASE_DEPART};
use crate::mem::{self, Memory, Request};
use crate::schedule_laws::{self, Op};
use crate::state::{self, Running};
use crate::sync::{self, AtomicOrdering};
use crate::warp;

verus! {

// ---------------------------------------------------------- operations ---

/// An instrumented array, as findings name it.
pub struct Buffer<T> {
    pub space: MemSpace,
    pub memory: Memory<T>,
}

/// A launch and the memory it works on.
pub struct World<T> {
    pub running: Running,
    pub buffers: Seq<Buffer<T>>,
}

/// What a simulated thread can do.
pub enum Act<T> {
    /// Passes a scheduling point.
    Yield,
    /// Enters a block-wide barrier.
    Barrier(Location),
    Fence(AtomicOrdering),
    /// Enters a warp collective.
    Arrive { mask: u32, op: &'static str, at: Location },
    /// Reads another lane's value.
    Shuffle { mask: u32, op: &'static str, at: Location, src: Option<u32> },
    /// Leaves a warp collective.
    Depart { mask: u32, op: &'static str, at: Location },
    /// Operates on one element, storing a value or nothing.
    Access { buffer: int, index: usize, req: Request, stored: Option<T> },
    /// Claims an element past the end of a bounds-checked surface, which gives
    /// it nothing.
    Miss { buffer: int },
    /// Changes an element it has claimed.
    Fill { buffer: int, index: usize, value: T },
    /// Creates a shared array nobody has touched.
    Share { space: MemSpace, data: Seq<T> },
    /// Reports a problem that does not stop the launch.
    Note(Diagnostic),
    /// Reports a problem that does.
    Trap(Diagnostic),
    /// Panics.
    Panic(String),
    /// Returns from the kernel.
    Finish,
}

/// The buffer as the launch finds it: only global memory outlasts a launch.
pub open spec fn opened<T>(b: Buffer<T>, id: u64) -> Memory<T> {
    mem::opened(b.memory, id, b.space is Global)
}

/// An operation on one element. There is none on a buffer that does not
/// exist.
pub open spec fn accessed<T>(
    w: World<T>,
    me: int,
    buffer: int,
    index: usize,
    req: Request,
    stored: Option<T>,
) -> World<T> {
    if !(0 <= buffer < w.buffers.len()) {
        w
    } else {
        let space = w.buffers[buffer].space;
        let m = opened(w.buffers[buffer], w.running.id);
        if index >= m.data.len() {
            World {
                running: mem::launch_past_end(
                    w.running,
                    me,
                    space,
                    index,
                    m.data.len() as usize,
                    req,
                ),
                buffers: w.buffers.update(buffer, Buffer { space, memory: m }),
            }
        } else {
            World {
                running: mem::launch_after(
                    w.running,
                    me,
                    space,
                    index,
                    m.shadow[index as int],
                    req,
                ),
                buffers: w.buffers.update(
                    buffer,
                    Buffer {
                        space,
                        memory: mem::memory_after(m, w.running, me, index as int, req, stored),
                    },
                ),
            }
        }
    }
}

/// A claim that gave nothing: the access was counted, and nothing else.
pub open spec fn missed<T>(w: World<T>, me: int, buffer: int) -> World<T> {
    if 0 <= buffer < w.buffers.len() {
        World {
            running: state::counted(w.running, me),
            buffers: w.buffers.update(
                buffer,
                Buffer {
                    memory: opened(w.buffers[buffer], w.running.id),
                    ..w.buffers[buffer]
                },
            ),
        }
    } else {
        w
    }
}

/// A claimed element changed, which its claim has already counted. There is
/// nothing to change past the end.
pub open spec fn filled<T>(w: World<T>, buffer: int, index: usize, value: T) -> World<T> {
    if 0 <= buffer < w.buffers.len() && index < w.buffers[buffer].memory.data.len() {
        let b = w.buffers[buffer];
        World {
            buffers: w.buffers.update(
                buffer,
                Buffer {
                    memory: Memory {
                        data: b.memory.data.update(index as int, value),
                        ..b.memory
                    },
                    ..b
                },
            ),
            ..w
        }
    } else {
        w
    }
}

/// Every operation of an instrumented memory on one of its elements, inside
/// the bounds or past the end, is an operation of a launch.
pub proof fn element_operations_are_acts<T>(
    w: World<T>,
    me: usize,
    buffer: int,
    index: usize,
    req: Request,
    stored: Option<T>,
    memory: Memory<T>,
    running: Running,
)
    requires
        0 <= buffer < w.buffers.len(),
        ({
            let b = w.buffers[buffer];
            let keep_init = b.space is Global;
            ||| mem::accessed(
                b.memory,
                memory,
                w.running,
                running,
                me,
                b.space,
                index,
                req,
                keep_init,
                stored,
            )
            ||| mem::ran_past_end(
                b.memory,
                memory,
                w.running,
                running,
                me,
                b.space,
                index,
                req,
                keep_init,
            )
        }),
    ensures
        acted(w, me as int, Act::Access { buffer, index, req, stored }) == (World {
            running,
            buffers: w.buffers.update(
                buffer,
                Buffer { space: w.buffers[buffer].space, memory },
            ),
        }),
{
}

/// What an operation of thread `me` leads to within its wave.
pub open spec fn acted<T>(w: World<T>, me: int, act: Act<T>) -> World<T> {
    let r = w.running;
    match act {
        Act::Yield => World { running: state::stepped(r, machine::handed_off(r.machine)), ..w },
        Act::Barrier(loc) => World { running: state::entered_barrier(r, me, loc), ..w },
        Act::Fence(ordering) => World {
            running: Running { clocks: sync::fenced(r.clocks, me, ordering), ..r },
            ..w
        },
        Act::Arrive { mask, op, at } => World { running: warp::arrived(r, me, mask, op, at), ..w },
        Act::Shuffle { mask, op, at, src } => World {
            running: warp::after_shuffle(r, me, mask, op, at, src),
            ..w
        },
        Act::Depart { mask, op, at } => World {
            running: state::stepped(
                r,
                machine::rendezvous_step(
                    r.machine,
                    me,
                    WarpWait { phase: PHASE_DEPART, mask, at, op },
                ),
            ),
            ..w
        },
        Act::Access { buffer, index, req, stored } => accessed(w, me, buffer, index, req, stored),
        Act::Miss { buffer } => missed(w, me, buffer),
        Act::Fill { buffer, index, value } => filled(w, buffer, index, value),
        Act::Share { space, data } => World {
            buffers: w.buffers.push(Buffer { space, memory: mem::untouched_memory(data, false) }),
            ..w
        },
        Act::Note(d) => World { running: state::noted(r, d), ..w },
        Act::Trap(d) => World { running: state::trapped(r, d), ..w },
        Act::Panic(message) => World {
            running: state::trapped(r, state::panic_finding(r, me, message)),
            ..w
        },
        Act::Finish => World {
            running: state::stepped(r, machine::finish_step(r.machine, me)),
            ..w
        },
    }
}

/// The launch once it is ready for the next operation: a wave that nobody is
/// left in makes way for the next one.
pub open spec fn moved_on(r: Running) -> Running {
    if r.machine.current is None && state::has_more_waves(r) {
        state::next_wave(r)
    } else {
        r
    }
}

/// What an operation of thread `me` leads to.
pub open spec fn after<T>(w: World<T>, me: int, act: Act<T>) -> World<T> {
    let next = acted(w, me, act);
    World { running: moved_on(next.running), ..next }
}

/// What a sequence of operations leads to.
pub open spec fn played<T>(w: World<T>, acts: Seq<(int, Act<T>)>) -> World<T>
    decreases acts.len(),
{
    if acts.len() == 0 {
        w
    } else {
        after(played(w, acts.drop_last()), acts.last().0, acts.last().1)
    }
}

/// Whether every operation is one of a thread that is resident at the time.
pub open spec fn by_residents<T>(w: World<T>, acts: Seq<(int, Act<T>)>) -> bool
    decreases acts.len(),
{
    acts.len() == 0 || {
        &&& by_residents(w, acts.drop_last())
        &&& played(w, acts.drop_last()).running.has_thread(acts.last().0)
    }
}

/// A launch before its first operation.
pub open spec fn start<T>(
    id: u64,
    config: LaunchConfig,
    source: Source,
    buffers: Seq<Buffer<T>>,
) -> World<T> {
    World { running: state::launched(id, config, source), buffers }
}

/// Whether the launch is over: it was aborted, or every block has run.
pub open spec fn is_over(r: Running) -> bool {
    r.machine.aborted || r.machine.current is None
}

/// Whether a report is the one a launch that is over gives back.
pub open spec fn is_report_of(report: Report, r: Running) -> bool {
    &&& report.seed == r.config.seed
    &&& report.diagnostics@ == r.findings.kept
    &&& report.aborted == r.machine.aborted
}

/// Whether two launches find the same in a buffer: its name, what its elements
/// hold, and what is known of each of them.
pub open spec fn same_to_both<T>(a: Buffer<T>, id: u64, b: Buffer<T>, other_id: u64) -> bool {
    &&& a.space == b.space
    &&& a.memory.data == b.memory.data
    &&& opened(a, id).shadow == opened(b, other_id).shadow
}

/// Whether two launches find the same in all their buffers.
pub open spec fn all_same_to_both<T>(
    a: Seq<Buffer<T>>,
    id: u64,
    b: Seq<Buffer<T>>,
    other_id: u64,
) -> bool {
    &&& a.len() == b.len()
    &&& forall|i: int| 0 <= i < a.len() ==> same_to_both(#[trigger] a[i], id, b[i], other_id)
}

// ---------------------------------------------------------- well formed ---

/// What the scheduler needs of a launch.
pub open spec fn sound(r: Running) -> bool {
    &&& r.plan == launch::plan_of(r.config)
    &&& r.plan.wf()
    &&& 0 < r.wave.blocks <= r.plan.resident
    &&& r.wave.first + r.wave.blocks <= r.plan.blocks
    &&& r.machine.wf()
    &&& r.machine.shape == state::wave_shape(r.plan, r.wave)
    &&& r.machine.first_block == r.wave.first
}

/// The scheduling operation behind an operation, if there is one.
pub open spec fn op_of<T>(w: World<T>, me: int, act: Act<T>) -> Option<Op> {
    match act {
        Act::Yield => Some(Op::Yield),
        Act::Barrier(loc) => Some(Op::Barrier(loc)),
        Act::Arrive { mask, op, at } => match warp::mask_problem(w.running.thread(me), mask) {
            Some(_) => Some(Op::Abort),
            None => Some(Op::Rendezvous(WarpWait { phase: PHASE_ARRIVE, mask, at, op })),
        },
        Act::Depart { mask, op, at } => Some(
            Op::Rendezvous(WarpWait { phase: PHASE_DEPART, mask, at, op }),
        ),
        Act::Access { buffer, index, .. } => if 0 <= buffer < w.buffers.len() && index
            >= w.buffers[buffer].memory.data.len() {
            Some(Op::Abort)
        } else {
            None
        },
        Act::Trap(_) => Some(Op::Abort),
        Act::Panic(_) => Some(Op::Abort),
        Act::Finish => Some(Op::Finish),
        _ => None,
    }
}

/// The scheduler after an operation.
pub open spec fn machine_after(m: Machine, me: int, op: Option<Op>) -> Machine {
    match op {
        Some(o) => schedule_laws::applied(m, me, o).0,
        None => m,
    }
}

/// An operation changes the scheduler as the operation behind it does, and
/// not what the launch is.
pub proof fn lemma_acts_are_operations<T>(w: World<T>, me: int, act: Act<T>)
    ensures
        acted(w, me, act).running.machine == machine_after(
            w.running.machine,
            me,
            op_of(w, me, act),
        ),
        acted(w, me, act).running.config == w.running.config,
        acted(w, me, act).running.plan == w.running.plan,
        acted(w, me, act).running.wave == w.running.wave,
        acted(w, me, act).running.id == w.running.id,
{
}

proof fn lemma_wave_shape_wf(plan: Plan, wave: Wave)
    requires
        plan.wf(),
        0 < wave.blocks <= plan.resident,
    ensures
        state::wave_shape(plan, wave).wf(),
{
    assert(wave.blocks * plan.threads <= plan.resident * plan.threads) by (nonlinear_arith)
        requires
            wave.blocks <= plan.resident,
    ;
}

proof fn lemma_wave_started_sound(
    id: u64,
    config: LaunchConfig,
    wave: Wave,
    source: Source,
    trace: Seq<u32>,
    trace_complete: bool,
    findings: diag::Findings,
)
    requires
        launch::plan_of(config).wf(),
        0 < wave.blocks <= launch::plan_of(config).resident,
        wave.first + wave.blocks <= launch::plan_of(config).blocks,
        trace.len() <= machine::MAX_TRACE,
    ensures
        sound(
            state::wave_started(id, config, wave, source, trace, trace_complete, findings),
        ),
{
    let plan = launch::plan_of(config);
    let shape = state::wave_shape(plan, wave);
    lemma_wave_shape_wf(plan, wave);
    machine::lemma_resumed_wf(shape, wave.first, source, trace, trace_complete);
    machine::lemma_picked_wf(
        machine::resumed(shape, wave.first, source, trace, trace_complete),
    );
}

/// Operations of resident threads keep the launch sound.
pub proof fn lemma_after_sound<T>(w: World<T>, me: int, act: Act<T>)
    requires
        sound(w.running),
        w.running.has_thread(me),
    ensures
        sound(acted(w, me, act).running),
        sound(after(w, me, act).running),
{
    lemma_acts_are_operations(w, me, act);
    if let Some(op) = op_of(w, me, act) {
        schedule_laws::operations_keep_the_state_well_formed(w.running.machine, me, op);
    }
    let r = acted(w, me, act).running;
    if state::has_more_waves(r) {
        lemma_wave_started_sound(
            r.id,
            r.config,
            r.plan.wave_at((r.wave.first + r.wave.blocks) as u32),
            r.machine.source,
            r.machine.trace,
            r.machine.trace_complete,
            r.findings,
        );
    }
}

/// A launch that can be run starts sound.
pub proof fn lemma_start_sound(id: u64, config: LaunchConfig, source: Source)
    requires
        launch::config_problem(config) is None,
    ensures
        sound(state::launched(id, config, source)),
{
    launch::lemma_plan_wf(config);
    lemma_wave_started_sound(
        id,
        config,
        launch::plan_of(config).wave_at(0),
        source,
        Seq::empty(),
        true,
        diag::no_findings(),
    );
}

/// A launch stays sound.
pub proof fn lemma_played_sound<T>(w: World<T>, acts: Seq<(int, Act<T>)>)
    requires
        sound(w.running),
        by_residents(w, acts),
    ensures
        sound(played(w, acts).running),
    decreases acts.len(),
{
    if acts.len() > 0 {
        lemma_played_sound(w, acts.drop_last());
        lemma_after_sound(played(w, acts.drop_last()), acts.last().0, acts.last().1);
    }
}

// ---------------------------------------------------------------- twins ---

/// Where a twin of a launch takes its decisions from: what is left of a
/// recording, or what the launch itself has.
spec fn source_for(full: Option<Seq<u32>>, m: Machine) -> Source {
    match full {
        Some(recording) => schedule_laws::rest_of(recording, m),
        None => m.source,
    }
}

/// The same launch under another number, another seed and with a twin's
/// decisions.
spec fn copied(r: Running, id: u64, seed: u64, full: Option<Seq<u32>>) -> Running {
    Running {
        id,
        config: LaunchConfig { seed, ..r.config },
        machine: schedule_laws::with_source(r.machine, source_for(full, r.machine)),
        ..r
    }
}

/// Whether two launches are the same but for their numbers, their seeds and
/// where their decisions come from.
spec fn twins<T>(a: World<T>, b: World<T>, full: Option<Seq<u32>>) -> bool {
    &&& b.running == copied(a.running, b.running.id, b.running.config.seed, full)
    &&& all_same_to_both(a.buffers, a.running.id, b.buffers, b.running.id)
}

/// Whether the recording, if there is one, starts with the decisions of `m`.
spec fn recorded(m: Machine, full: Option<Seq<u32>>) -> bool {
    full matches Some(recording) ==> schedule_laws::recorded_by(m, recording)
}

proof fn lemma_operation_copied(m: Machine, me: int, op: Op, full: Option<Seq<u32>>)
    requires
        m.wf(),
        0 <= me < m.status.len(),
        recorded(schedule_laws::applied(m, me, op).0, full),
    ensures
        recorded(m, full),
        ({
            let step = schedule_laws::applied(m, me, op);
            schedule_laws::applied(
                schedule_laws::with_source(m, source_for(full, m)),
                me,
                op,
            ) == (schedule_laws::with_source(step.0, source_for(full, step.0)), step.1)
        }),
{
    let step = schedule_laws::applied(m, me, op);
    match full {
        Some(recording) => schedule_laws::lemma_applied_replays(m, me, op, recording),
        None => {
            assert(schedule_laws::with_source(m, m.source) =~= m);
            assert(schedule_laws::with_source(step.0, step.0.source) =~= step.0);
        },
    }
}

proof fn lemma_step_copied(
    r: Running,
    me: int,
    op: Op,
    id: u64,
    seed: u64,
    full: Option<Seq<u32>>,
)
    requires
        sound(r),
        r.has_thread(me),
        recorded(schedule_laws::applied(r.machine, me, op).0, full),
    ensures
        recorded(r.machine, full),
        ({
            let there = copied(r, id, seed, full);
            state::stepped(there, schedule_laws::applied(there.machine, me, op)) == copied(
                state::stepped(r, schedule_laws::applied(r.machine, me, op)),
                id,
                seed,
                full,
            )
        }),
{
    lemma_operation_copied(r.machine, me, op, full);
    let there = copied(r, id, seed, full);
    assert(state::stepped(there, schedule_laws::applied(there.machine, me, op)) =~= copied(
        state::stepped(r, schedule_laws::applied(r.machine, me, op)),
        id,
        seed,
        full,
    ));
}

proof fn lemma_trap_copied(
    r: Running,
    d: Diagnostic,
    id: u64,
    seed: u64,
    full: Option<Seq<u32>>,
)
    ensures
        state::trapped(copied(r, id, seed, full), d) == copied(
            state::trapped(r, d),
            id,
            seed,
            full,
        ),
        state::noted(copied(r, id, seed, full), d) == copied(state::noted(r, d), id, seed, full),
{
    assert(state::trapped(copied(r, id, seed, full), d) =~= copied(
        state::trapped(r, d),
        id,
        seed,
        full,
    ));
    assert(state::noted(copied(r, id, seed, full), d) =~= copied(
        state::noted(r, d),
        id,
        seed,
        full,
    ));
}

proof fn lemma_launch_after_copied(
    r: Running,
    me: int,
    space: MemSpace,
    index: usize,
    h: crate::shadow::History,
    req: Request,
    stored: bool,
    id: u64,
    seed: u64,
    full: Option<Seq<u32>>,
)
    ensures
        mem::launch_after(copied(r, id, seed, full), me, space, index, h, req) == copied(
            mem::launch_after(r, me, space, index, h, req),
            id,
            seed,
            full,
        ),
        mem::history_after(copied(r, id, seed, full), me, h, req, stored) == mem::history_after(
            r,
            me,
            h,
            req,
            stored,
        ),
{
    let there = copied(r, id, seed, full);
    let acc = state::access_now(r, me, req.kind, req.location);
    assert(state::access_now(there, me, req.kind, req.location) == acc);
    assert(state::counted(there, me) =~= copied(state::counted(r, me), id, seed, full));
    let here_synced = mem::after_acquire(state::counted(r, me), me, h, req);
    let there_synced = mem::after_acquire(state::counted(there, me), me, h, req);
    assert(there_synced =~= copied(here_synced, id, seed, full));
    assert(mem::launch_after(there, me, space, index, h, req) =~= copied(
        mem::launch_after(r, me, space, index, h, req),
        id,
        seed,
        full,
    ));
}

proof fn lemma_access_twins<T>(
    a: World<T>,
    b: World<T>,
    full: Option<Seq<u32>>,
    me: int,
    buffer: int,
    index: usize,
    req: Request,
    stored: Option<T>,
)
    requires
        twins(a, b, full),
    ensures
        twins(
            accessed(a, me, buffer, index, req, stored),
            accessed(b, me, buffer, index, req, stored),
            full,
        ),
{
    let id = b.running.id;
    let seed = b.running.config.seed;
    if 0 <= buffer < a.buffers.len() {
        assert(same_to_both(a.buffers[buffer], a.running.id, b.buffers[buffer], id));
        let ma = opened(a.buffers[buffer], a.running.id);
        let mb = opened(b.buffers[buffer], id);
        let space = a.buffers[buffer].space;
        if index >= ma.data.len() {
            let acc = state::access_now(a.running, me, req.kind, req.location);
            let counted = state::counted(a.running, me);
            assert(state::counted(b.running, me) =~= copied(counted, id, seed, full));
            lemma_trap_copied(
                counted,
                Diagnostic::OutOfBounds {
                    space,
                    index,
                    len: ma.data.len() as usize,
                    access: acc,
                },
                id,
                seed,
                full,
            );
        } else {
            lemma_launch_after_copied(
                a.running,
                me,
                space,
                index,
                ma.shadow[index as int],
                req,
                stored is Some,
                id,
                seed,
                full,
            );
        }
    }
}

/// Twins that do the same stay twins within their wave.
proof fn lemma_acted_twins<T>(
    a: World<T>,
    b: World<T>,
    full: Option<Seq<u32>>,
    me: int,
    act: Act<T>,
)
    requires
        sound(a.running),
        a.running.has_thread(me),
        twins(a, b, full),
        recorded(acted(a, me, act).running.machine, full),
    ensures
        twins(acted(a, me, act), acted(b, me, act), full),
{
    let r = a.running;
    let id = b.running.id;
    let seed = b.running.config.seed;
    match act {
        Act::Yield => lemma_step_copied(r, me, Op::Yield, id, seed, full),
        Act::Barrier(loc) => {
            lemma_step_copied(r, me, Op::Barrier(loc), id, seed, full);
            assert(acted(b, me, act).running =~= copied(
                acted(a, me, act).running,
                id,
                seed,
                full,
            ));
        },
        Act::Fence(_) => {
            assert(acted(b, me, act).running =~= copied(
                acted(a, me, act).running,
                id,
                seed,
                full,
            ));
        },
        Act::Arrive { mask, op, at } => match warp::mask_problem(r.thread(me), mask) {
            Some(problem) => lemma_trap_copied(
                r,
                warp::lane_finding(r.thread(me), op, at, mask, problem),
                id,
                seed,
                full,
            ),
            None => lemma_step_copied(
                r,
                me,
                Op::Rendezvous(WarpWait { phase: PHASE_ARRIVE, mask, at, op }),
                id,
                seed,
                full,
            ),
        },
        Act::Shuffle { mask, op, at, src } => {
            if let Some(s) = src {
                lemma_trap_copied(
                    r,
                    warp::lane_finding(
                        r.thread(me),
                        op,
                        at,
                        mask,
                        diag::LaneProblem::SourceLaneNotInMask { src: s },
                    ),
                    id,
                    seed,
                    full,
                );
            }
        },
        Act::Depart { mask, op, at } => lemma_step_copied(
            r,
            me,
            Op::Rendezvous(WarpWait { phase: PHASE_DEPART, mask, at, op }),
            id,
            seed,
            full,
        ),
        Act::Access { buffer, index, req, stored } => lemma_access_twins(
            a,
            b,
            full,
            me,
            buffer,
            index,
            req,
            stored,
        ),
        Act::Miss { buffer } => {
            if 0 <= buffer < a.buffers.len() {
                assert(same_to_both(a.buffers[buffer], r.id, b.buffers[buffer], id));
                assert(acted(b, me, act).running =~= copied(
                    acted(a, me, act).running,
                    id,
                    seed,
                    full,
                ));
            }
        },
        Act::Fill { buffer, index, value } => {
            if 0 <= buffer < a.buffers.len() {
                let ba = a.buffers[buffer];
                let bb = b.buffers[buffer];
                assert(same_to_both(ba, r.id, bb, id));
                if index < ba.memory.data.len() {
                    let fa = acted(a, me, act).buffers[buffer];
                    let fb = acted(b, me, act).buffers[buffer];
                    assert(opened(fa, r.id).shadow =~= opened(ba, r.id).shadow);
                    assert(opened(fb, id).shadow =~= opened(bb, id).shadow);
                }
            }
        },
        Act::Share { space, data } => {
            let fresh = Buffer { space, memory: mem::untouched_memory(data, false) };
            assert(opened(fresh, r.id).shadow =~= opened(fresh, id).shadow);
        },
        Act::Note(d) => lemma_trap_copied(r, d, id, seed, full),
        Act::Trap(d) => lemma_trap_copied(r, d, id, seed, full),
        Act::Panic(message) => lemma_trap_copied(
            r,
            state::panic_finding(r, me, message),
            id,
            seed,
            full,
        ),
        Act::Finish => lemma_step_copied(r, me, Op::Finish, id, seed, full),
    }
}

/// A launch that goes on to its next wave takes its twin with it.
proof fn lemma_moved_on_copied(r: Running, id: u64, seed: u64, full: Option<Seq<u32>>)
    requires
        sound(r),
        recorded(moved_on(r).machine, full),
    ensures
        recorded(r.machine, full),
        moved_on(copied(r, id, seed, full)) == copied(moved_on(r), id, seed, full),
{
    if r.machine.current is None && state::has_more_waves(r) {
        let wave = r.plan.wave_at((r.wave.first + r.wave.blocks) as u32);
        let shape = state::wave_shape(r.plan, wave);
        let m = machine::resumed(
            shape,
            wave.first,
            r.machine.source,
            r.machine.trace,
            r.machine.trace_complete,
        );
        lemma_wave_shape_wf(r.plan, wave);
        let source = source_for(full, r.machine);
        assert(machine::resumed(
            shape,
            wave.first,
            source,
            r.machine.trace,
            r.machine.trace_complete,
        ) =~= schedule_laws::with_source(m, source));
        match full {
            Some(recording) => schedule_laws::lemma_picked_replays(m, recording),
            None => {
                assert(schedule_laws::with_source(m, m.source) =~= m);
                let next = machine::picked(m);
                assert(schedule_laws::with_source(next, next.source) =~= next);
            },
        }
        assert(moved_on(copied(r, id, seed, full)) =~= copied(moved_on(r), id, seed, full));
    }
}

/// What was recorded at the end of an operation was recorded before it.
proof fn lemma_recorded_before<T>(
    w: World<T>,
    me: int,
    act: Act<T>,
    full: Option<Seq<u32>>,
)
    requires
        sound(w.running),
        w.running.has_thread(me),
        recorded(after(w, me, act).running.machine, full),
    ensures
        recorded(acted(w, me, act).running.machine, full),
        recorded(w.running.machine, full),
{
    lemma_after_sound(w, me, act);
    lemma_moved_on_copied(acted(w, me, act).running, 0, 0, full);
    lemma_acts_are_operations(w, me, act);
    if let Some(op) = op_of(w, me, act) {
        lemma_operation_copied(w.running.machine, me, op, full);
    }
}

/// Twins that do the same stay twins.
proof fn lemma_after_twins<T>(
    a: World<T>,
    b: World<T>,
    full: Option<Seq<u32>>,
    me: int,
    act: Act<T>,
)
    requires
        sound(a.running),
        a.running.has_thread(me),
        twins(a, b, full),
        recorded(after(a, me, act).running.machine, full),
    ensures
        recorded(a.running.machine, full),
        twins(after(a, me, act), after(b, me, act), full),
{
    lemma_recorded_before(a, me, act, full);
    lemma_after_sound(a, me, act);
    lemma_acted_twins(a, b, full, me, act);
    lemma_acts_are_operations(a, me, act);
    lemma_acts_are_operations(b, me, act);
    let next = acted(a, me, act).running;
    let id = b.running.id;
    let seed = b.running.config.seed;
    lemma_moved_on_copied(next, id, seed, full);
}

proof fn lemma_played_recorded<T>(w: World<T>, acts: Seq<(int, Act<T>)>, full: Option<Seq<u32>>)
    requires
        sound(w.running),
        by_residents(w, acts),
        recorded(played(w, acts).running.machine, full),
    ensures
        recorded(w.running.machine, full),
    decreases acts.len(),
{
    if acts.len() > 0 {
        let before = acts.drop_last();
        lemma_played_sound(w, before);
        lemma_recorded_before(played(w, before), acts.last().0, acts.last().1, full);
        lemma_played_recorded(w, before, full);
    }
}

proof fn lemma_played_twins<T>(
    a: World<T>,
    b: World<T>,
    acts: Seq<(int, Act<T>)>,
    full: Option<Seq<u32>>,
)
    requires
        sound(a.running),
        by_residents(a, acts),
        twins(a, b, full),
        recorded(played(a, acts).running.machine, full),
    ensures
        twins(played(a, acts), played(b, acts), full),
    decreases acts.len(),
{
    if acts.len() > 0 {
        let before = acts.drop_last();
        let here = played(a, before);
        lemma_played_sound(a, before);
        lemma_recorded_before(here, acts.last().0, acts.last().1, full);
        lemma_played_twins(a, b, before, full);
        lemma_after_twins(here, played(b, before), full, acts.last().0, acts.last().1);
    }
}

/// Two launches that differ in their numbers only are twins from the start.
proof fn lemma_seeded_starts_are_twins<T>(
    id: u64,
    other_id: u64,
    config: LaunchConfig,
    source: Source,
    buffers: Seq<Buffer<T>>,
    others: Seq<Buffer<T>>,
)
    requires
        all_same_to_both(buffers, id, others, other_id),
    ensures
        twins(
            start(id, config, source, buffers),
            start(other_id, config, source, others),
            None,
        ),
{
    let a = state::launched(id, config, source);
    let b = state::launched(other_id, config, source);
    assert(b =~= copied(a, other_id, config.seed, None));
}

/// A launch and the replay of its recording are twins from the start.
proof fn lemma_replay_starts_as_a_twin<T>(
    id: u64,
    other_id: u64,
    config: LaunchConfig,
    seed: u64,
    source: Source,
    buffers: Seq<Buffer<T>>,
    others: Seq<Buffer<T>>,
    recording: Seq<u32>,
)
    requires
        launch::config_problem(config) is None,
        all_same_to_both(buffers, id, others, other_id),
        schedule_laws::recorded_by(state::launched(id, config, source).machine, recording),
    ensures
        twins(
            start(id, config, source, buffers),
            start(
                other_id,
                LaunchConfig { seed, ..config },
                Source::Replay(recording),
                others,
            ),
            Some(recording),
        ),
{
    launch::lemma_plan_wf(config);
    let plan = launch::plan_of(config);
    let wave = plan.wave_at(0);
    let shape = state::wave_shape(plan, wave);
    lemma_wave_shape_wf(plan, wave);
    let m = machine::resumed(shape, wave.first, source, Seq::empty(), true);
    schedule_laws::lemma_picked_replays(m, recording);
    assert(recording.skip(0) =~= recording);
    assert(schedule_laws::with_source(m, Source::Replay(recording)) =~= machine::resumed(
        shape,
        wave.first,
        Source::Replay(recording),
        Seq::empty(),
        true,
    ));
    let a = state::launched(id, config, source);
    let there = LaunchConfig { seed, ..config };
    assert(launch::plan_of(there) == plan);
    let b = state::launched(other_id, there, Source::Replay(recording));
    assert(b =~= copied(a, other_id, seed, Some(recording)));
}

/// A launch whose decisions were all recorded and the replay of the record are
/// twins from the start.
proof fn lemma_recordings_start_twins<T>(
    id: u64,
    other_id: u64,
    config: LaunchConfig,
    seed: u64,
    source: Source,
    buffers: Seq<Buffer<T>>,
    others: Seq<Buffer<T>>,
    acts: Seq<(int, Act<T>)>,
)
    requires
        launch::config_problem(config) is None,
        all_same_to_both(buffers, id, others, other_id),
        by_residents(start(id, config, source, buffers), acts),
        played(start(id, config, source, buffers), acts).running.machine.trace_complete,
    ensures
        ({
            let first = start(id, config, source, buffers);
            let end = played(first, acts).running.machine;
            let second = start(
                other_id,
                LaunchConfig { seed, ..config },
                Source::Replay(end.trace),
                others,
            );
            &&& twins(first, second, Some(end.trace))
            &&& recorded(end, Some(end.trace))
        }),
{
    let first = start(id, config, source, buffers);
    let recording = played(first, acts).running.machine.trace;
    assert(recording =~= recording.subrange(0, recording.len() as int));
    lemma_start_sound(id, config, source);
    lemma_played_recorded(first, acts, Some(recording));
    lemma_replay_starts_as_a_twin(
        id,
        other_id,
        config,
        seed,
        source,
        buffers,
        others,
        recording,
    );
}

// ------------------------------------------------------------ recordings ---

/// A recorded schedule is a complete reproducer by itself: replaying the
/// decisions of a launch takes the same operations to the same findings, the
/// same end and the same memory, whatever the decisions came from the first
/// time and whatever the seed is now, which only labels the report.
///
/// The replay may be another launch on other buffers, as long as it finds the
/// same in them. It holds for every number of waves.
pub proof fn a_recording_reproduces_its_launch<T>(
    id: u64,
    other_id: u64,
    config: LaunchConfig,
    seed: u64,
    source: Source,
    buffers: Seq<Buffer<T>>,
    others: Seq<Buffer<T>>,
    acts: Seq<(int, Act<T>)>,
)
    requires
        launch::config_problem(config) is None,
        all_same_to_both(buffers, id, others, other_id),
        by_residents(start(id, config, source, buffers), acts),
        played(start(id, config, source, buffers), acts).running.machine.trace_complete,
    ensures
        ({
            let end = played(start(id, config, source, buffers), acts);
            let again = played(
                start(
                    other_id,
                    LaunchConfig { seed, ..config },
                    Source::Replay(end.running.machine.trace),
                    others,
                ),
                acts,
            );
            &&& again.running.findings == end.running.findings
            &&& again.running.machine.aborted == end.running.machine.aborted
            &&& again.running.machine.trace == end.running.machine.trace
            &&& again.running.clocks == end.running.clocks
            &&& again.running.config.seed == seed
            &&& all_same_to_both(end.buffers, id, again.buffers, other_id)
        }),
{
    let first = start(id, config, source, buffers);
    let end = played(first, acts);
    let recording = end.running.machine.trace;
    let second = start(
        other_id,
        LaunchConfig { seed, ..config },
        Source::Replay(recording),
        others,
    );
    lemma_start_sound(id, config, source);
    lemma_recordings_start_twins(
        id,
        other_id,
        config,
        seed,
        source,
        buffers,
        others,
        acts,
    );
    lemma_played_twins(first, second, acts, Some(recording));
    lemma_numbers_stay(first, acts);
    lemma_numbers_stay(second, acts);
}

/// A launch keeps its number and its configuration.
pub proof fn lemma_numbers_stay<T>(w: World<T>, acts: Seq<(int, Act<T>)>)
    ensures
        played(w, acts).running.id == w.running.id,
        played(w, acts).running.config == w.running.config,
    decreases acts.len(),
{
    if acts.len() > 0 {
        let before = acts.drop_last();
        lemma_numbers_stay(w, before);
        lemma_acts_are_operations(played(w, before), acts.last().0, acts.last().1);
    }
}

// ---------------------------------------------------------- determinism ---

/// What a deterministic kernel has a thread do next, given what the buffers
/// held at the start and everything that was done so far.
pub type Kernel<T> = spec_fn(Seq<Seq<T>>, Seq<(int, Act<T>)>, int) -> Act<T>;

/// What the buffers hold.
pub open spec fn contents<T>(buffers: Seq<Buffer<T>>) -> Seq<Seq<T>> {
    Seq::new(buffers.len(), |i: int| buffers[i].memory.data)
}

proof fn lemma_same_contents<T>(a: Seq<Buffer<T>>, id: u64, b: Seq<Buffer<T>>, other_id: u64)
    requires
        all_same_to_both(a, id, b, other_id),
    ensures
        contents(a) == contents(b),
{
    assert forall|i: int| 0 <= i < a.len() implies (#[trigger] a[i]).memory.data
        == b[i].memory.data by {
        assert(same_to_both(a[i], id, b[i], other_id));
    }
    assert(contents(a) =~= contents(b));
}

/// Whether `acts` is what the kernel does from `w` on: each operation is the
/// kernel's, made by the thread that holds the turn, and none comes after the
/// end.
pub open spec fn is_run_of<T>(kernel: Kernel<T>, w: World<T>, acts: Seq<(int, Act<T>)>) -> bool
    decreases acts.len(),
{
    acts.len() == 0 || {
        let before = acts.drop_last();
        let here = played(w, before).running;
        &&& is_run_of(kernel, w, before)
        &&& !is_over(here)
        &&& here.machine.current matches Some(c) && acts.last() == (
            c as int,
            kernel(contents(w.buffers), before, c as int),
        )
    }
}

/// Whether `acts` is what the kernel does from `w` on until the launch is
/// over.
pub open spec fn is_whole_run_of<T>(
    kernel: Kernel<T>,
    w: World<T>,
    acts: Seq<(int, Act<T>)>,
) -> bool {
    is_run_of(kernel, w, acts) && is_over(played(w, acts).running)
}

/// The turn is only ever held by a resident thread.
proof fn lemma_runs_are_by_residents<T>(
    kernel: Kernel<T>,
    w: World<T>,
    acts: Seq<(int, Act<T>)>,
)
    requires
        sound(w.running),
        is_run_of(kernel, w, acts),
    ensures
        by_residents(w, acts),
    decreases acts.len(),
{
    if acts.len() > 0 {
        lemma_runs_are_by_residents(kernel, w, acts.drop_last());
        lemma_played_sound(w, acts.drop_last());
    }
}

proof fn lemma_runs_have_runs_before<T>(
    kernel: Kernel<T>,
    w: World<T>,
    acts: Seq<(int, Act<T>)>,
    n: int,
)
    requires
        is_run_of(kernel, w, acts),
        0 <= n <= acts.len(),
    ensures
        is_run_of(kernel, w, acts.take(n)),
        n < acts.len() ==> !is_over(played(w, acts.take(n)).running),
    decreases acts.len(),
{
    if n == acts.len() {
        assert(acts.take(n) =~= acts);
    } else {
        let before = acts.drop_last();
        assert(before.take(n) =~= acts.take(n));
        lemma_runs_have_runs_before(kernel, w, before, n);
        if n == before.len() {
            assert(before.take(n) =~= before);
        }
    }
}

proof fn lemma_equally_long_runs_agree<T>(
    kernel: Kernel<T>,
    w: World<T>,
    a: Seq<(int, Act<T>)>,
    b: Seq<(int, Act<T>)>,
)
    requires
        is_run_of(kernel, w, a),
        is_run_of(kernel, w, b),
        a.len() == b.len(),
    ensures
        a == b,
    decreases a.len(),
{
    if a.len() == 0 {
        assert(a =~= b);
    } else {
        lemma_equally_long_runs_agree(kernel, w, a.drop_last(), b.drop_last());
        assert(a =~= a.drop_last().push(a.last()));
        assert(b =~= b.drop_last().push(b.last()));
    }
}

/// From one start a kernel has at most one run to the end.
proof fn lemma_whole_runs_agree<T>(
    kernel: Kernel<T>,
    w: World<T>,
    a: Seq<(int, Act<T>)>,
    b: Seq<(int, Act<T>)>,
)
    requires
        is_whole_run_of(kernel, w, a),
        is_whole_run_of(kernel, w, b),
    ensures
        a == b,
{
    if a.len() <= b.len() {
        lemma_runs_have_runs_before(kernel, w, b, a.len() as int);
        lemma_equally_long_runs_agree(kernel, w, a, b.take(a.len() as int));
        assert(b.take(b.len() as int) =~= b);
    } else {
        lemma_runs_have_runs_before(kernel, w, a, b.len() as int);
        lemma_equally_long_runs_agree(kernel, w, a.take(b.len() as int), b);
    }
}

/// What a kernel does in a launch it does in the launch's twin.
proof fn lemma_runs_are_shared_by_twins<T>(
    kernel: Kernel<T>,
    a: World<T>,
    b: World<T>,
    acts: Seq<(int, Act<T>)>,
    full: Option<Seq<u32>>,
)
    requires
        sound(a.running),
        twins(a, b, full),
        is_run_of(kernel, a, acts),
        recorded(played(a, acts).running.machine, full),
    ensures
        is_run_of(kernel, b, acts),
        twins(played(a, acts), played(b, acts), full),
    decreases acts.len(),
{
    lemma_runs_are_by_residents(kernel, a, acts);
    lemma_played_twins(a, b, acts, full);
    if acts.len() > 0 {
        let before = acts.drop_last();
        lemma_runs_are_by_residents(kernel, a, before);
        lemma_played_sound(a, before);
        lemma_recorded_before(played(a, before), acts.last().0, acts.last().1, full);
        lemma_runs_are_shared_by_twins(kernel, a, b, before, full);
        lemma_same_contents(a.buffers, a.running.id, b.buffers, b.running.id);
    }
}

/// A seed fixes the entire launch: two launches of one kernel with one
/// configuration, on buffers in which they find the same, do the same from
/// the first decision to the last, in every wave. They report the same in the
/// same words and leave the same values behind, even where the kernel races.
pub proof fn a_seed_fixes_the_launch<T>(
    kernel: Kernel<T>,
    id: u64,
    other_id: u64,
    config: LaunchConfig,
    buffers: Seq<Buffer<T>>,
    others: Seq<Buffer<T>>,
    a: Seq<(int, Act<T>)>,
    b: Seq<(int, Act<T>)>,
)
    requires
        launch::config_problem(config) is None,
        all_same_to_both(buffers, id, others, other_id),
        is_whole_run_of(kernel, start(id, config, Source::Random(config.seed), buffers), a),
        is_whole_run_of(kernel, start(other_id, config, Source::Random(config.seed), others), b),
    ensures
        a == b,
        ({
            let end = played(start(id, config, Source::Random(config.seed), buffers), a);
            let other = played(start(other_id, config, Source::Random(config.seed), others), b);
            &&& end.running.findings == other.running.findings
            &&& end.running.machine == other.running.machine
            &&& end.running.clocks == other.running.clocks
            &&& all_same_to_both(end.buffers, id, other.buffers, other_id)
            &&& contents(end.buffers) == contents(other.buffers)
            &&& forall|p: Report, q: Report|
                #![trigger is_report_of(p, end.running), is_report_of(q, other.running)]
                is_report_of(p, end.running) && is_report_of(q, other.running)
                    ==> diag::report_text(p) == diag::report_text(q)
        }),
{
    let source = Source::Random(config.seed);
    let first = start(id, config, source, buffers);
    let second = start(other_id, config, source, others);
    lemma_start_sound(id, config, source);
    lemma_seeded_starts_are_twins(id, other_id, config, source, buffers, others);
    lemma_runs_are_shared_by_twins(kernel, first, second, a, None);
    lemma_whole_runs_agree(kernel, second, a, b);
    lemma_numbers_stay(first, a);
    lemma_numbers_stay(second, a);
    let end = played(first, a);
    let other = played(second, b);
    assert(end.running.machine =~= other.running.machine);
    lemma_same_contents(end.buffers, id, other.buffers, other_id);
}

/// A recorded schedule reproduces what a kernel did with no seed involved: a
/// launch of the kernel that follows the recording, under any seed and on
/// buffers in which it finds the same, does the same from the first decision
/// to the last, reports the same findings and leaves the same values behind.
pub proof fn a_recording_reproduces_the_kernel<T>(
    kernel: Kernel<T>,
    id: u64,
    other_id: u64,
    config: LaunchConfig,
    seed: u64,
    source: Source,
    buffers: Seq<Buffer<T>>,
    others: Seq<Buffer<T>>,
    a: Seq<(int, Act<T>)>,
    b: Seq<(int, Act<T>)>,
)
    requires
        launch::config_problem(config) is None,
        all_same_to_both(buffers, id, others, other_id),
        is_whole_run_of(kernel, start(id, config, source, buffers), a),
        played(start(id, config, source, buffers), a).running.machine.trace_complete,
        is_whole_run_of(
            kernel,
            start(
                other_id,
                LaunchConfig { seed, ..config },
                Source::Replay(
                    played(start(id, config, source, buffers), a).running.machine.trace,
                ),
                others,
            ),
            b,
        ),
    ensures
        a == b,
        ({
            let end = played(start(id, config, source, buffers), a);
            let again = played(
                start(
                    other_id,
                    LaunchConfig { seed, ..config },
                    Source::Replay(end.running.machine.trace),
                    others,
                ),
                b,
            );
            &&& again.running.findings == end.running.findings
            &&& again.running.machine.aborted == end.running.machine.aborted
            &&& again.running.machine.trace == end.running.machine.trace
            &&& contents(again.buffers) == contents(end.buffers)
        }),
{
    let first = start(id, config, source, buffers);
    let end = played(first, a);
    let recording = end.running.machine.trace;
    let second = start(
        other_id,
        LaunchConfig { seed, ..config },
        Source::Replay(recording),
        others,
    );
    lemma_start_sound(id, config, source);
    lemma_runs_are_by_residents(kernel, first, a);
    lemma_recordings_start_twins(
        id,
        other_id,
        config,
        seed,
        source,
        buffers,
        others,
        a,
    );
    lemma_runs_are_shared_by_twins(kernel, first, second, a, Some(recording));
    lemma_whole_runs_agree(kernel, second, a, b);
    lemma_numbers_stay(first, a);
    lemma_numbers_stay(second, a);
    let again = played(second, a);
    lemma_same_contents(end.buffers, id, again.buffers, other_id);
}

} // verus!
