//! What a launch does to one element, and that its races are in the report.

use vstd::prelude::*;

use crate::diag::{self, Access, AccessKind, Diagnostic, Findings, MemSpace};
use crate::launch_laws::{self, Act, World};
use crate::machine::{self, WarpWait, PHASE_ARRIVE, PHASE_DEPART};
use crate::mem::{self, Request};
use crate::race_laws::{self, Accesses};
use crate::shadow::History;
use crate::state;
use crate::warp;

verus! {

/// One element of one buffer.
pub struct Element {
    pub buffer: int,
    pub index: usize,
}

/// Whether the element exists.
pub open spec fn exists_in<T>(w: World<T>, e: Element) -> bool {
    &&& 0 <= e.buffer < w.buffers.len()
    &&& e.index < w.buffers[e.buffer].memory.data.len()
}

/// What is known of the element.
pub open spec fn history_of<T>(w: World<T>, e: Element) -> History {
    launch_laws::opened(w.buffers[e.buffer], w.running.id).shadow[e.index as int]
}

/// The access thread `me` makes to the element, and the clock it is checked
/// with.
pub open spec fn access_to<T>(w: World<T>, me: int, e: Element, req: Request) -> (
    Access,
    Map<u64, u64>,
) {
    (
        state::access_now(w.running, me, req.kind, req.location),
        mem::after_acquire(
            state::counted(w.running, me),
            me,
            history_of(w, e),
            req,
        ).clocks.clock[me],
    )
}

/// Whether an operation is an access to the element.
pub open spec fn touches<T>(w: World<T>, act: Act<T>, e: Element) -> bool {
    &&& exists_in(w, e)
    &&& act matches Act::Access { buffer, index, .. } && buffer == e.buffer && index == e.index
}

/// The accesses to the element once thread `me` did something.
pub open spec fn followed_by<T>(
    w: World<T>,
    me: int,
    act: Act<T>,
    e: Element,
    steps: Accesses,
) -> Accesses {
    match act {
        Act::Access { req, .. } if touches(w, act, e) => steps.push(access_to(w, me, e, req)),
        _ => steps,
    }
}

/// What the operations of a launch do to the element.
pub open spec fn accesses_to<T>(w: World<T>, acts: Seq<(int, Act<T>)>, e: Element) -> Accesses
    decreases acts.len(),
{
    if acts.len() == 0 {
        Seq::empty()
    } else {
        followed_by(
            launch_laws::played(w, acts.drop_last()),
            acts.last().0,
            acts.last().1,
            e,
            accesses_to(w, acts.drop_last(), e),
        )
    }
}

/// Whether the launch finds nothing recorded in its memory: it is the first to
/// touch it since another launch did, or since it was made.
pub open spec fn starts_afresh<T>(w: World<T>) -> bool {
    forall|b: int|
        0 <= b < w.buffers.len() ==> is_blank(#[trigger] w.buffers[b], w.running.id)
}

/// Whether nothing is recorded in a buffer.
pub open spec fn is_blank<T>(b: launch_laws::Buffer<T>, id: u64) -> bool {
    let m = launch_laws::opened(b, id);
    &&& b.memory.wf()
    &&& forall|i: int|
        0 <= i < m.shadow.len() ==> {
            let h = #[trigger] m.shadow[i];
            &&& h.last_write is None
            &&& h.readers.len() == 0
            &&& h.published == Map::<u64, u64>::empty()
        }
}

/// Memory that no launch has touched since it was made, or that only launches
/// with other numbers have, is blank.
pub proof fn other_launches_leave_memory_blank<T>(b: launch_laws::Buffer<T>, id: u64)
    requires
        b.memory.wf(),
        b.memory.launch_id != id || exists|init: bool|
            b.memory == #[trigger] mem::untouched_memory(b.memory.data, init),
    ensures
        is_blank(b, id),
{
}

// ------------------------------------------------------------ recording ---

/// Whether the element remembers what these accesses leave behind.
spec fn remembers<T>(w: World<T>, e: Element, steps: Accesses) -> bool {
    &&& 0 <= e.buffer < w.buffers.len() ==> w.buffers[e.buffer].memory.wf()
    &&& if exists_in(w, e) {
        &&& history_of(w, e).last_write == race_laws::after_all(steps).last_write
        &&& history_of(w, e).readers == race_laws::after_all(steps).readers
    } else {
        steps.len() == 0
    }
}

proof fn lemma_after_remembers<T>(
    w: World<T>,
    me: int,
    act: Act<T>,
    e: Element,
    steps: Accesses,
)
    requires
        remembers(w, e, steps),
    ensures
        remembers(launch_laws::after(w, me, act), e, followed_by(w, me, act, e, steps)),
{
    launch_laws::lemma_acts_are_operations(w, me, act);
    match act {
        Act::Access { req, .. } => {
            if touches(w, act, e) {
                let step = access_to(w, me, e, req);
                assert(steps.push(step).drop_last() =~= steps);
            }
        },
        Act::Share { .. } => {},
        _ => {},
    }
}

proof fn lemma_played_remembers<T>(w: World<T>, acts: Seq<(int, Act<T>)>, e: Element)
    requires
        starts_afresh(w),
    ensures
        remembers(launch_laws::played(w, acts), e, accesses_to(w, acts, e)),
    decreases acts.len(),
{
    if acts.len() == 0 {
        if 0 <= e.buffer < w.buffers.len() {
            assert(is_blank(w.buffers[e.buffer], w.running.id));
            if exists_in(w, e) {
                assert(history_of(w, e).readers =~= Seq::empty());
            }
        }
    } else {
        let before = acts.drop_last();
        lemma_played_remembers(w, before, e);
        lemma_after_remembers(
            launch_laws::played(w, before),
            acts.last().0,
            acts.last().1,
            e,
            accesses_to(w, before, e),
        );
    }
}

// ------------------------------------------------------------ reporting ---

/// Whether every finding that was ever kept is still kept, under its key.
pub open spec fn keeps_all(f: Findings) -> bool {
    &&& f.keys.len() == f.kept.len()
    &&& forall|i: int| 0 <= i < f.kept.len() ==> #[trigger] f.keys[i] == diag::key_of(f.kept[i])
}

/// Whether `g` has everything `f` has.
spec fn has_all(g: Findings, f: Findings) -> bool {
    &&& f.kept.len() <= g.kept.len()
    &&& forall|k: diag::Key| #[trigger] f.keys.contains(k) ==> g.keys.contains(k)
}

proof fn lemma_reported_has_all(f: Findings, d: Diagnostic)
    ensures
        has_all(diag::reported(f, d), f),
        keeps_all(f) ==> keeps_all(diag::reported(f, d)),
        f.kept.len() < diag::MAX_DIAGNOSTICS ==> diag::reported(f, d).keys.contains(
            diag::key_of(d),
        ),
{
    let keys = f.keys.push(diag::key_of(d));
    assert(keys[f.keys.len() as int] == diag::key_of(d));
    assert forall|k: diag::Key| #[trigger] f.keys.contains(k) implies keys.contains(k) by {
        let i = choose|i: int| 0 <= i < f.keys.len() && f.keys[i] == k;
        assert(keys[i] == k);
    }
}

proof fn lemma_all_reported_has_all(f: Findings, ds: Seq<Diagnostic>)
    ensures
        has_all(diag::reported_all(f, ds), f),
        keeps_all(f) ==> keeps_all(diag::reported_all(f, ds)),
    decreases ds.len(),
{
    if ds.len() > 0 {
        lemma_all_reported_has_all(f, ds.drop_last());
        lemma_reported_has_all(diag::reported_all(f, ds.drop_last()), ds.last());
    }
}

/// The finding that two accesses to the element race.
pub open spec fn race_on<T>(w: World<T>, e: Element, first: Access, second: Access) -> Diagnostic {
    Diagnostic::DataRace {
        space: w.buffers[e.buffer].space,
        index: e.index,
        first,
        second,
    }
}

proof fn lemma_after_findings<T>(w: World<T>, me: int, act: Act<T>, e: Element)
    ensures
        has_all(launch_laws::after(w, me, act).running.findings, w.running.findings),
        keeps_all(w.running.findings) ==> keeps_all(
            launch_laws::after(w, me, act).running.findings,
        ),
        exists_in(w, e) ==> exists_in(launch_laws::after(w, me, act), e)
            && launch_laws::after(w, me, act).buffers[e.buffer].space
            == w.buffers[e.buffer].space,
        match act {
            Act::Access { req, .. } => touches(w, act, e) && launch_laws::after(
                w,
                me,
                act,
            ).running.findings.kept.len() < diag::MAX_DIAGNOSTICS ==> {
                let (acc, clock) = access_to(w, me, e, req);
                mem::conflict_of(history_of(w, e), acc, clock, acc.kind) matches Some(first)
                    ==> launch_laws::after(w, me, act).running.findings.keys.contains(
                    diag::key_of(race_on(w, e, first, acc)),
                )
            },
            _ => true,
        },
{
    let r = w.running;
    let f = r.findings;
    match act {
        Act::Yield => lemma_all_reported_has_all(f, machine::handed_off(r.machine).1),
        Act::Barrier(loc) => lemma_all_reported_has_all(
            f,
            machine::barrier_step(r.machine, me, loc).1,
        ),
        Act::Arrive { mask, op, at } => {
            let wait = WarpWait { phase: PHASE_ARRIVE, mask, at, op };
            lemma_all_reported_has_all(f, machine::rendezvous_step(r.machine, me, wait).1);
            if let Some(problem) = warp::mask_problem(r.thread(me), mask) {
                lemma_reported_has_all(
                    f,
                    warp::lane_finding(r.thread(me), op, at, mask, problem),
                );
            }
        },
        Act::Shuffle { mask, op, at, src } => {
            if let Some(s) = src {
                lemma_reported_has_all(
                    f,
                    warp::lane_finding(
                        r.thread(me),
                        op,
                        at,
                        mask,
                        diag::LaneProblem::SourceLaneNotInMask { src: s },
                    ),
                );
            }
        },
        Act::Depart { mask, op, at } => {
            let wait = WarpWait { phase: PHASE_DEPART, mask, at, op };
            lemma_all_reported_has_all(f, machine::rendezvous_step(r.machine, me, wait).1);
        },
        Act::Access { buffer, index, req, .. } => {
            if 0 <= buffer < w.buffers.len() {
                let m = launch_laws::opened(w.buffers[buffer], r.id);
                let space = w.buffers[buffer].space;
                let acc = state::access_now(r, me, req.kind, req.location);
                if index >= m.data.len() {
                    lemma_reported_has_all(
                        f,
                        Diagnostic::OutOfBounds {
                            space,
                            index,
                            len: m.data.len() as usize,
                            access: acc,
                        },
                    );
                } else {
                    let h = m.shadow[index as int];
                    let synced = mem::after_acquire(state::counted(r, me), me, h, req);
                    let uninit = Diagnostic::UninitRead { space, index, access: acc };
                    let first = if req.reads && !h.init {
                        lemma_reported_has_all(f, uninit);
                        diag::reported(f, uninit)
                    } else {
                        f
                    };
                    if let Some(a) = mem::conflict_of(
                        h,
                        acc,
                        synced.clocks.clock[me],
                        req.kind,
                    ) {
                        let race = Diagnostic::DataRace { space, index, first: a, second: acc };
                        lemma_reported_has_all(first, race);
                    }
                }
            }
        },
        Act::Note(d) => lemma_reported_has_all(f, d),
        Act::Trap(d) => lemma_reported_has_all(f, d),
        Act::Panic(message) => lemma_reported_has_all(f, state::panic_finding(r, me, message)),
        Act::Finish => lemma_all_reported_has_all(f, machine::finish_step(r.machine, me).1),
        _ => {},
    }
}

/// What an access conflicts with does not depend on what comes after it.
proof fn lemma_conflict_stays(steps: Accesses, step: (Access, Map<u64, u64>), k: int)
    requires
        0 <= k < steps.len(),
    ensures
        race_laws::conflict_at(steps.push(step), k) == race_laws::conflict_at(steps, k),
{
    assert(steps.push(step).take(k) =~= steps.take(k));
}

/// Every conflict is reported, as long as the list has room at the end.
proof fn lemma_conflicts_are_reported<T>(
    w: World<T>,
    acts: Seq<(int, Act<T>)>,
    e: Element,
    k: int,
)
    requires
        starts_afresh(w),
        keeps_all(w.running.findings),
        launch_laws::played(w, acts).running.findings.kept.len() < diag::MAX_DIAGNOSTICS,
        0 <= k < accesses_to(w, acts, e).len(),
    ensures
        ({
            let end = launch_laws::played(w, acts);
            let steps = accesses_to(w, acts, e);
            &&& exists_in(end, e)
            &&& keeps_all(end.running.findings)
            &&& race_laws::conflict_at(steps, k) matches Some(first)
                ==> end.running.findings.keys.contains(
                diag::key_of(race_on(end, e, first, steps[k].0)),
            )
        }),
    decreases acts.len(),
{
    if acts.len() > 0 {
        let before = acts.drop_last();
        let here = launch_laws::played(w, before);
        let (me, act) = acts.last();
        let earlier = accesses_to(w, before, e);
        let steps = accesses_to(w, acts, e);
        lemma_after_findings(here, me, act, e);
        lemma_played_remembers(w, before, e);
        lemma_keeps_all(w, before);
        if k < earlier.len() {
            lemma_conflicts_are_reported(w, before, e, k);
            if steps != earlier {
                lemma_conflict_stays(earlier, steps.last(), k);
            }
        } else {
            assert(steps.take(k) =~= earlier);
        }
    }
}

proof fn lemma_keeps_all<T>(w: World<T>, acts: Seq<(int, Act<T>)>)
    requires
        keeps_all(w.running.findings),
    ensures
        keeps_all(launch_laws::played(w, acts).running.findings),
    decreases acts.len(),
{
    if acts.len() > 0 {
        lemma_keeps_all(w, acts.drop_last());
        lemma_after_findings(
            launch_laws::played(w, acts.drop_last()),
            acts.last().0,
            acts.last().1,
            Element { buffer: 0, index: 0 },
        );
    }
}

/// Whether a race between the two accesses is among what a launch reports,
/// under the lines of both.
pub open spec fn reports_race<T>(w: World<T>, e: Element, first: Access, second: Access) -> bool {
    exists|n: int|
        0 <= n < w.running.findings.kept.len() && {
            let d = #[trigger] w.running.findings.kept[n];
            d is DataRace && diag::key_of(d) == diag::key_of(race_on(w, e, first, second))
        }
}

/// Whether a launch reports a race on the element, between two of its first
/// accesses up to `j` that nothing orders and that are not both reads.
pub open spec fn a_race_is_found<T>(
    w: World<T>,
    acts: Seq<(int, Act<T>)>,
    e: Element,
    j: int,
) -> bool {
    let steps = accesses_to(w, acts, e);
    exists|q: int, k: int|
        0 <= q < k <= j && #[trigger] race_laws::unordered(steps, q, k) && (steps[q].0.kind
            != AccessKind::Read || steps[k].0.kind != AccessKind::Read) && reports_race(
            launch_laws::played(w, acts),
            e,
            steps[q].0,
            steps[k].0,
        )
}

/// A race is in the report whichever interleaving happened to be produced: if
/// nothing orders two of the accesses a launch makes to one element, and one
/// of the two is not a read, then the launch reports a race on that element,
/// between two accesses that nothing orders.
///
/// It takes that order composes along the accesses to the element, that the
/// element had room to remember them, and that the report has room.
pub proof fn a_race_is_in_the_report<T>(
    w: World<T>,
    acts: Seq<(int, Act<T>)>,
    e: Element,
    i: int,
    j: int,
)
    requires
        starts_afresh(w),
        keeps_all(w.running.findings),
        launch_laws::played(w, acts).running.findings.kept.len() < diag::MAX_DIAGNOSTICS,
        race_laws::order_composes(accesses_to(w, acts, e)),
        race_laws::all_remembered(accesses_to(w, acts, e)),
        0 <= i < j < accesses_to(w, acts, e).len(),
        race_laws::unordered(accesses_to(w, acts, e), i, j),
        accesses_to(w, acts, e)[i].0.kind != AccessKind::Read || accesses_to(
            w,
            acts,
            e,
        )[j].0.kind != AccessKind::Read,
    ensures
        a_race_is_found(w, acts, e, j),
{
    let steps = accesses_to(w, acts, e);
    let end = launch_laws::played(w, acts);
    race_laws::a_race_is_reported(steps, i, j);
    let k = choose|k: int| 0 <= k <= j && (#[trigger] race_laws::conflict_at(steps, k)) is Some;
    let first = race_laws::conflict_at(steps, k)->0;
    race_laws::only_races_are_reported(steps, k);
    let q = choose|q: int| 0 <= q < k && (#[trigger] steps[q]).0 == first;
    assert(race_laws::unordered(steps, q, k));
    lemma_conflicts_are_reported(w, acts, e, k);
    let f = end.running.findings;
    let key = diag::key_of(race_on(end, e, first, steps[k].0));
    let n = choose|n: int| 0 <= n < f.keys.len() && f.keys[n] == key;
    assert(f.keys[n] == diag::key_of(f.kept[n]));
    assert(f.kept[n] is DataRace);
}

} // verus!
