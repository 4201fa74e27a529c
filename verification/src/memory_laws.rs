//! What holds of instrumented memory as a whole.
//!
//! The laws speak of [`mem::accessed`] and [`mem::ran_past_end`], which say
//! what every operation on an instrumented array leaves behind.

use vstd::prelude::*;

use crate::diag::{self, AccessKind, Diagnostic, MemSpace};
use crate::launch::{LaunchConfig, Wave};
use crate::location::Location;
use crate::machine::Source;
use crate::mem::{self, Memory, Request};
use crate::shadow;
use crate::state::{self, Running};
use crate::sync::{self, AtomicOrdering};

verus! {

/// An element holds what was last stored in it: an operation that stores puts
/// its value there, and nothing else changes what any element holds.
pub proof fn memory_holds_what_was_last_stored<T>(
    before: Memory<T>,
    after: Memory<T>,
    r: Running,
    r_after: Running,
    me: usize,
    space: MemSpace,
    index: usize,
    req: Request,
    keep_init: bool,
    stored: Option<T>,
)
    requires
        mem::accessed(before, after, r, r_after, me, space, index, req, keep_init, stored),
    ensures
        stored matches Some(v) ==> mem::held(after, index) == v,
        stored is None ==> mem::held(after, index) == mem::held(before, index),
        after.data.len() == before.data.len(),
        forall|i: int|
            0 <= i < before.data.len() && i != index ==> #[trigger] after.data[i]
                == before.data[i],
{
}

/// An element that something was stored in counts as written, and no operation
/// makes a written element of the launch count as unwritten.
pub proof fn stored_elements_are_initialised<T>(
    before: Memory<T>,
    after: Memory<T>,
    r: Running,
    r_after: Running,
    me: usize,
    space: MemSpace,
    index: usize,
    req: Request,
    keep_init: bool,
    stored: Option<T>,
)
    requires
        before.wf(),
        mem::accessed(before, after, r, r_after, me, space, index, req, keep_init, stored),
        stored is Some ==> req.kind != AccessKind::Read,
    ensures
        after.wf(),
        after.launch_id == r.id,
        stored is Some ==> after.shadow[index as int].init,
        forall|i: int|
            0 <= i < after.shadow.len() && !(i == index && stored is Some)
                ==> #[trigger] after.shadow[i].init == mem::opened(
                before,
                r.id,
                keep_init,
            ).shadow[i].init,
{
}

/// What an operation reports: a read of an element nothing has written, a
/// conflict with an access nothing orders, or nothing.
pub proof fn accesses_are_reported<T>(
    before: Memory<T>,
    after: Memory<T>,
    r: Running,
    r_after: Running,
    me: usize,
    space: MemSpace,
    index: usize,
    req: Request,
    keep_init: bool,
    stored: Option<T>,
)
    requires
        before.wf(),
        mem::accessed(before, after, r, r_after, me, space, index, req, keep_init, stored),
    ensures
        ({
            let h = mem::opened(before, r.id, keep_init).shadow[index as int];
            let acc = state::access_now(r, me as int, req.kind, req.location);
            let clock = mem::after_acquire(
                state::counted(r, me as int),
                me as int,
                h,
                req,
            ).clocks.clock[me as int];
            let conflict = mem::conflict_of(h, acc, clock, req.kind);
            let unwritten = req.reads && !h.init;
            &&& unwritten && r.findings.kept.len() < diag::MAX_DIAGNOSTICS
                ==> r_after.findings.keys.contains(
                diag::key_of(Diagnostic::UninitRead { space, index, access: acc }),
            )
            &&& conflict is Some && r.findings.kept.len() + 1 < diag::MAX_DIAGNOSTICS
                ==> r_after.findings.keys.contains(
                diag::key_of(
                    Diagnostic::DataRace { space, index, first: conflict->0, second: acc },
                ),
            )
            &&& !unwritten && conflict is None ==> r_after.findings == r.findings
            &&& r_after.machine == r.machine
        }),
{
    let h = mem::opened(before, r.id, keep_init).shadow[index as int];
    let acc = state::access_now(r, me as int, req.kind, req.location);
    let synced = mem::after_acquire(state::counted(r, me as int), me as int, h, req);
    let conflict = mem::conflict_of(h, acc, synced.clocks.clock[me as int], req.kind);
    let d = Diagnostic::UninitRead { space, index, access: acc };
    let first = if req.reads && !h.init {
        lemma_reported_key(r.findings, d);
        diag::reported(r.findings, d)
    } else {
        r.findings
    };
    if let Some(a) = conflict {
        let race = Diagnostic::DataRace { space, index, first: a, second: acc };
        lemma_reported_key(first, race);
    }
}

/// One step of finding races: an access that nothing orders after the last
/// write of its element is reported, whenever it happens.
///
/// What holds of all that a launch does to an element is said in
/// [`launch_order`](crate::launch_order).
pub proof fn unordered_accesses_are_reported<T>(
    before: Memory<T>,
    after: Memory<T>,
    r: Running,
    r_after: Running,
    me: usize,
    space: MemSpace,
    index: usize,
    req: Request,
    keep_init: bool,
    stored: Option<T>,
    write: diag::Access,
)
    requires
        before.wf(),
        before.launch_id == r.id,
        mem::accessed(before, after, r, r_after, me, space, index, req, keep_init, stored),
        before.shadow[index as int].last_write == Some(write),
        shadow::concurrent(
            write,
            state::access_now(r, me as int, req.kind, req.location),
            mem::after_acquire(
                state::counted(r, me as int),
                me as int,
                before.shadow[index as int],
                req,
            ).clocks.clock[me as int],
        ),
        r.findings.kept.len() + 1 < diag::MAX_DIAGNOSTICS,
    ensures
        r_after.findings.keys.contains(
            diag::key_of(
                Diagnostic::DataRace {
                    space,
                    index,
                    first: write,
                    second: state::access_now(r, me as int, req.kind, req.location),
                },
            ),
        ),
{
    accesses_are_reported(
        before,
        after,
        r,
        r_after,
        me,
        space,
        index,
        req,
        keep_init,
        stored,
    );
}

/// While there is room, what was reported is known by its key, and no key is
/// forgotten.
proof fn lemma_reported_key(f: diag::Findings, d: Diagnostic)
    ensures
        f.kept.len() < diag::MAX_DIAGNOSTICS ==> diag::reported(f, d).keys.contains(
            diag::key_of(d),
        ),
        diag::reported(f, d).kept.len() <= f.kept.len() + 1,
        forall|k: diag::Key| #[trigger]
            f.keys.contains(k) ==> diag::reported(f, d).keys.contains(k),
{
    let keys = f.keys.push(diag::key_of(d));
    assert(keys[f.keys.len() as int] == diag::key_of(d));
    assert forall|k: diag::Key| #[trigger] f.keys.contains(k) implies diag::reported(
        f,
        d,
    ).keys.contains(k) by {
        let i = choose|i: int| 0 <= i < f.keys.len() && f.keys[i] == k;
        assert(keys[i] == k);
    }
}

/// An index past the end is a trap: it is reported, the launch is aborted, the
/// access counts as one, and no element changes.
pub proof fn running_past_the_end_is_a_trap<T>(
    before: Memory<T>,
    after: Memory<T>,
    r: Running,
    r_after: Running,
    me: usize,
    space: MemSpace,
    index: usize,
    req: Request,
    keep_init: bool,
)
    requires
        mem::ran_past_end(before, after, r, r_after, me, space, index, req, keep_init),
    ensures
        r_after.machine.aborted,
        0 <= me < r.clocks.seq.len() && r.clocks.seq[me as int] < u64::MAX
            ==> r_after.clocks.seq[me as int] == r.clocks.seq[me as int] + 1,
        after.data == before.data,
        r.findings.kept.len() < diag::MAX_DIAGNOSTICS ==> r_after.findings.keys.contains(
            diag::key_of(
                Diagnostic::OutOfBounds {
                    space,
                    index,
                    len: before.data.len() as usize,
                    access: state::access_now(r, me as int, req.kind, req.location),
                },
            ),
        ),
{
    lemma_reported_key(
        r.findings,
        Diagnostic::OutOfBounds {
            space,
            index,
            len: before.data.len() as usize,
            access: state::access_now(r, me as int, req.kind, req.location),
        },
    );
}

/// History is launch-local: what earlier launches did conflicts with nothing a
/// new launch does, and has published nothing to it.
pub proof fn history_is_launch_local<T>(
    m: Memory<T>,
    id: u64,
    keep_init: bool,
    index: int,
    acc: diag::Access,
    clock: Map<u64, u64>,
)
    requires
        m.wf(),
        m.launch_id != id,
        0 <= index < m.data.len(),
    ensures
        ({
            let h = mem::opened(m, id, keep_init).shadow[index];
            &&& mem::conflict_of(h, acc, clock, acc.kind) is None
            &&& h.published == Map::<u64, u64>::empty()
        }),
{
    let h = mem::opened(m, id, keep_init).shadow[index];
    shadow::writes_are_checked_against_everything(h, acc, clock);
}

/// Global memory outlasts a launch: a new launch finds the values the last one
/// left, and which elements were written. Of shared memory it finds none
/// written.
pub proof fn global_memory_outlasts_a_launch<T>(m: Memory<T>, id: u64)
    requires
        m.wf(),
    ensures
        mem::opened(m, id, true).data == m.data,
        forall|i: int|
            0 <= i < m.shadow.len() ==> #[trigger] mem::opened(m, id, true).shadow[i].init
                == m.shadow[i].init,
        m.launch_id != id ==> forall|i: int|
            0 <= i < m.shadow.len() ==> !(#[trigger] mem::opened(m, id, false).shadow[i]).init,
{
}

/// Running one wave after the other hides nothing: a thread of a new wave has
/// seen nothing of earlier waves, so its first access is unordered against
/// whatever they did to the element, unless both are atomic.
pub proof fn waves_are_not_ordered(
    id: u64,
    config: LaunchConfig,
    wave: Wave,
    source: Source,
    trace: Seq<u32>,
    trace_complete: bool,
    findings: diag::Findings,
    me: int,
    kind: AccessKind,
    location: Location,
    earlier: diag::Access,
)
    requires
        ({
            let r = state::wave_started(
                id,
                config,
                wave,
                source,
                trace,
                trace_complete,
                findings,
            );
            &&& r.wf()
            &&& r.has_thread(me)
            &&& earlier.block != r.thread(me).block
        }),
        earlier.seq >= 1,
        earlier.kind != AccessKind::Atomic || kind != AccessKind::Atomic,
    ensures
        ({
            let r = state::wave_started(
                id,
                config,
                wave,
                source,
                trace,
                trace_complete,
                findings,
            );
            shadow::concurrent(
                earlier,
                state::access_now(r, me, kind, location),
                state::counted(r, me).clocks.clock[me],
            )
        }),
{
    let r = state::wave_started(
        id,
        config,
        wave,
        source,
        trace,
        trace_complete,
        findings,
    );
    let t = r.thread(me);
    let k = sync::key_of(earlier.block, earlier.thread);
    if k == sync::key_of(t.block, t.thread) {
        sync::keys_tell_threads_apart(earlier.block, earlier.thread, t.block, t.thread);
    }
    sync::counting_hands_over_nothing(r.clocks, me, sync::key_of(t.block, t.thread));
    assert(sync::seen(r.clocks.clock[me], k) == 0);
}

/// Whether thread `me` knows in `after` what it knew in `before`.
pub open spec fn still_knows(before: Running, after: Running, me: usize) -> bool {
    sync::knows(after.clocks.clock[me as int], before.clocks.clock[me as int])
}

/// Message passing works: a thread writes an element and then releases a flag,
/// and a thread that acquires the flag and then reads the element finds the
/// write ordered before its read, whatever happened in between. No race is
/// reported.
///
/// The data goes from `data` to `written` as the producer writes it and is
/// read in `found`; the flag goes from `flag` to `raised` as the producer
/// stores it and is loaded in `passed_on`. The launch goes through `at_write`,
/// `at_store`, `at_load` and `at_read`, each with the state right after.
pub proof fn messages_are_passed<T, F>(
    data: Memory<T>,
    written: Memory<T>,
    found: Memory<T>,
    read: Memory<T>,
    flag: Memory<F>,
    raised: Memory<F>,
    passed_on: Memory<F>,
    seen: Memory<F>,
    at_write: Running,
    after_write: Running,
    at_store: Running,
    after_store: Running,
    at_load: Running,
    after_load: Running,
    at_read: Running,
    after_read: Running,
    producer: usize,
    consumer: usize,
    space: MemSpace,
    flag_space: MemSpace,
    index: usize,
    flag_index: usize,
    value: T,
    up: F,
    release: AtomicOrdering,
    acquire: AtomicOrdering,
    here: Location,
    there: Location,
)
    requires
        data.wf(),
        flag.wf(),
        found.wf(),
        passed_on.wf(),
        at_write.wf(),
        at_store.wf(),
        at_load.wf(),
        at_read.wf(),
        mem::ready(at_write, producer),
        mem::ready(at_store, producer),
        mem::ready(at_load, consumer),
        mem::ready(at_read, consumer),
        sync::releases(release),
        sync::acquires(acquire),
        mem::accessed(
            data,
            written,
            at_write,
            after_write,
            producer,
            space,
            index,
            mem::plain_write(here),
            true,
            Some(value),
        ),
        still_knows(after_write, at_store, producer),
        mem::accessed(
            flag,
            raised,
            at_store,
            after_store,
            producer,
            flag_space,
            flag_index,
            mem::atomic(release, false, here),
            true,
            Some(up),
        ),
        // Nobody takes back what the flag published.
        passed_on.launch_id == at_load.id,
        sync::knows(
            passed_on.shadow[flag_index as int].published,
            raised.shadow[flag_index as int].published,
        ),
        mem::accessed(
            passed_on,
            seen,
            at_load,
            after_load,
            consumer,
            flag_space,
            flag_index,
            mem::atomic(acquire, true, there),
            true,
            None,
        ),
        still_knows(after_load, at_read, consumer),
        // Nobody else has written the element since.
        found.launch_id == at_read.id,
        found.shadow[index as int].init,
        found.shadow[index as int].last_write == written.shadow[index as int].last_write,
        mem::accessed(
            found,
            read,
            at_read,
            after_read,
            consumer,
            space,
            index,
            mem::plain_read(there),
            true,
            None,
        ),
    ensures
        after_read.findings == at_read.findings,
{
    let p = producer as int;
    let c = consumer as int;
    let a = state::access_now(at_write, p, AccessKind::Write, here);
    let k = sync::key_of(a.block, a.thread);
    assert(written.shadow[index as int].last_write == Some(a));

    // The producer has seen its own write, and says so in the flag.
    assert(shadow::has_seen(after_write.clocks.clock[p], a));
    assert(sync::seen(after_write.clocks.clock[p], k) <= sync::seen(at_store.clocks.clock[p], k));
    let counted = state::counted(at_store, p);
    assert(sync::seen(at_store.clocks.clock[p], k) <= sync::seen(counted.clocks.clock[p], k));
    let raised_flag = raised.shadow[flag_index as int].published;
    assert(sync::seen(counted.clocks.clock[p], k) <= sync::seen(raised_flag, k));

    // The consumer takes it on from the flag, and keeps it.
    let flag_now = passed_on.shadow[flag_index as int].published;
    assert(sync::seen(raised_flag, k) <= sync::seen(flag_now, k));
    assert(sync::seen(flag_now, k) <= sync::seen(after_load.clocks.clock[c], k));
    assert(sync::seen(after_load.clocks.clock[c], k) <= sync::seen(at_read.clocks.clock[c], k));
    let now = state::counted(at_read, c).clocks.clock[c];
    assert(sync::seen(at_read.clocks.clock[c], k) <= sync::seen(now, k));
    assert(shadow::has_seen(now, a));
    accesses_are_reported(
        found,
        read,
        at_read,
        after_read,
        consumer,
        space,
        index,
        mem::plain_read(there),
        true,
        None,
    );
}

/// Whether `after` is what a fence of thread `me` leads to.
pub open spec fn fenced(
    before: Running,
    after: Running,
    me: usize,
    ordering: AtomicOrdering,
) -> bool {
    after == Running { clocks: sync::fenced(before.clocks, me as int, ordering), ..before }
}

/// Message passing works with fences too: a thread writes an element, fences
/// and then stores a flag relaxed, and a thread that loads the flag relaxed,
/// fences and then reads the element finds the write ordered before its read,
/// whatever happened in between. No race is reported.
///
/// The data goes from `data` to `written` as the producer writes it and is
/// read in `found`; the flag goes from `flag` to `raised` as the producer
/// stores it and is loaded in `passed_on`. The launch goes through `at_write`,
/// `at_release`, `at_store`, `at_load`, `at_acquire` and `at_read`, each with
/// the state right after.
pub proof fn fenced_messages_are_passed<T, F>(
    data: Memory<T>,
    written: Memory<T>,
    found: Memory<T>,
    read: Memory<T>,
    flag: Memory<F>,
    raised: Memory<F>,
    passed_on: Memory<F>,
    seen: Memory<F>,
    at_write: Running,
    after_write: Running,
    at_release: Running,
    after_release: Running,
    at_store: Running,
    after_store: Running,
    at_load: Running,
    after_load: Running,
    at_acquire: Running,
    after_acquire: Running,
    at_read: Running,
    after_read: Running,
    producer: usize,
    consumer: usize,
    space: MemSpace,
    flag_space: MemSpace,
    index: usize,
    flag_index: usize,
    value: T,
    up: F,
    release: AtomicOrdering,
    acquire: AtomicOrdering,
    here: Location,
    there: Location,
)
    requires
        data.wf(),
        flag.wf(),
        found.wf(),
        passed_on.wf(),
        at_write.wf(),
        at_release.wf(),
        at_store.wf(),
        at_load.wf(),
        at_acquire.wf(),
        at_read.wf(),
        mem::ready(at_write, producer),
        at_release.has_thread(producer as int),
        mem::ready(at_store, producer),
        mem::ready(at_load, consumer),
        at_acquire.has_thread(consumer as int),
        mem::ready(at_read, consumer),
        sync::releases(release),
        sync::acquires(acquire),
        mem::accessed(
            data,
            written,
            at_write,
            after_write,
            producer,
            space,
            index,
            mem::plain_write(here),
            true,
            Some(value),
        ),
        still_knows(after_write, at_release, producer),
        fenced(at_release, after_release, producer, release),
        // The fence still stands when the flag is stored.
        sync::knows(
            at_store.clocks.fence_release[producer as int],
            after_release.clocks.fence_release[producer as int],
        ),
        mem::accessed(
            flag,
            raised,
            at_store,
            after_store,
            producer,
            flag_space,
            flag_index,
            mem::atomic(AtomicOrdering::Relaxed, false, here),
            true,
            Some(up),
        ),
        // Nobody takes back what the flag published.
        passed_on.launch_id == at_load.id,
        sync::knows(
            passed_on.shadow[flag_index as int].published,
            raised.shadow[flag_index as int].published,
        ),
        mem::accessed(
            passed_on,
            seen,
            at_load,
            after_load,
            consumer,
            flag_space,
            flag_index,
            mem::atomic(AtomicOrdering::Relaxed, true, there),
            true,
            None,
        ),
        // What the load gathered still waits for the fence.
        sync::knows(
            at_acquire.clocks.fence_acquire[consumer as int],
            after_load.clocks.fence_acquire[consumer as int],
        ),
        fenced(at_acquire, after_acquire, consumer, acquire),
        still_knows(after_acquire, at_read, consumer),
        // Nobody else has written the element since.
        found.launch_id == at_read.id,
        found.shadow[index as int].init,
        found.shadow[index as int].last_write == written.shadow[index as int].last_write,
        mem::accessed(
            found,
            read,
            at_read,
            after_read,
            consumer,
            space,
            index,
            mem::plain_read(there),
            true,
            None,
        ),
    ensures
        after_read.findings == at_read.findings,
{
    let p = producer as int;
    let c = consumer as int;
    let a = state::access_now(at_write, p, AccessKind::Write, here);
    let k = sync::key_of(a.block, a.thread);
    assert(written.shadow[index as int].last_write == Some(a));

    // The producer has seen its own write, leaves it at the fence, and the
    // relaxed store says so in the flag.
    assert(shadow::has_seen(after_write.clocks.clock[p], a));
    assert(sync::seen(after_write.clocks.clock[p], k) <= sync::seen(
        at_release.clocks.clock[p],
        k,
    ));
    let left = after_release.clocks.fence_release[p];
    assert(sync::seen(at_release.clocks.clock[p], k) <= sync::seen(left, k));
    assert(sync::seen(left, k) <= sync::seen(at_store.clocks.fence_release[p], k));
    let raised_flag = raised.shadow[flag_index as int].published;
    assert(sync::seen(at_store.clocks.fence_release[p], k) <= sync::seen(raised_flag, k));

    // The consumer holds it aside at the load, takes it on at the fence, and
    // keeps it.
    let flag_now = passed_on.shadow[flag_index as int].published;
    assert(sync::seen(raised_flag, k) <= sync::seen(flag_now, k));
    let aside = after_load.clocks.fence_acquire[c];
    assert(sync::seen(flag_now, k) <= sync::seen(aside, k));
    assert(sync::seen(aside, k) <= sync::seen(at_acquire.clocks.fence_acquire[c], k));
    let known = after_acquire.clocks.clock[c];
    assert(sync::seen(at_acquire.clocks.fence_acquire[c], k) <= sync::seen(known, k));
    assert(sync::seen(known, k) <= sync::seen(at_read.clocks.clock[c], k));
    let now = state::counted(at_read, c).clocks.clock[c];
    assert(sync::seen(at_read.clocks.clock[c], k) <= sync::seen(now, k));
    assert(shadow::has_seen(now, a));
    accesses_are_reported(
        found,
        read,
        at_read,
        after_read,
        consumer,
        space,
        index,
        mem::plain_read(there),
        true,
        None,
    );
}

} // verus!
