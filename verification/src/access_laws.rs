//! What holds of single accesses and of pairs of them, from the memory they
//! touch to the findings they give.

use vstd::prelude::*;

use crate::diag::{self, Access, AccessKind, Diagnostic, MemSpace};
use crate::geometry;
use crate::location::Location;
use crate::mem::{self, Memory, Request};
use crate::shadow;
use crate::state::{self, Running};
use crate::sync::{self, AtomicOrdering};

verus! {

/// Two accesses of different threads to one element, one right after the other.
/// The later thread has not been told of the earlier access.
pub open spec fn side_by_side<T>(
    before: Memory<T>,
    between: Memory<T>,
    after: Memory<T>,
    r: Running,
    r_between: Running,
    r_after: Running,
    one: usize,
    other: usize,
    space: MemSpace,
    index: usize,
    first: Request,
    second: Request,
    keep_init: bool,
    put: Option<T>,
    then_put: Option<T>,
) -> bool {
    &&& before.wf()
    &&& r.wf()
    &&& r.has_thread(one as int)
    &&& r.has_thread(other as int)
    &&& one != other
    &&& r.clocks.seq[one as int] < u64::MAX
    &&& sync::seen(
        r.clocks.clock[other as int],
        sync::key_of(r.thread(one as int).block, r.thread(one as int).thread),
    ) <= r.clocks.seq[one as int]
    &&& mem::accessed(before, between, r, r_between, one, space, index, first, keep_init, put)
    &&& mem::accessed(
        between,
        after,
        r_between,
        r_after,
        other,
        space,
        index,
        second,
        keep_init,
        then_put,
    )
}

/// Two threads differ in their block or their number in it.
proof fn lemma_told_apart(r: Running, one: int, other: int)
    requires
        r.wf(),
        r.has_thread(one),
        r.has_thread(other),
        one != other,
    ensures
        r.thread(one).block != r.thread(other).block || r.thread(one).thread != r.thread(
            other,
        ).thread,
        sync::key_of(r.thread(one).block, r.thread(one).thread) != sync::key_of(
            r.thread(other).block,
            r.thread(other).thread,
        ),
{
    state::resident_threads_belong_to_the_launch(r, one);
    state::resident_threads_belong_to_the_launch(r, other);
    state::threads_are_numbered_in_order(r, one);
    state::threads_are_numbered_in_order(r, other);
    let n = r.plan.threads as int;
    if r.thread(one).block == r.thread(other).block && r.thread(one).thread == r.thread(
        other,
    ).thread {
        let b = r.thread(one).block - r.wave.first;
        assert(one == other);
    }
    if sync::key_of(r.thread(one).block, r.thread(one).thread) == sync::key_of(
        r.thread(other).block,
        r.thread(other).thread,
    ) {
        sync::keys_tell_threads_apart(
            r.thread(one).block,
            r.thread(one).thread,
            r.thread(other).block,
            r.thread(other).thread,
        );
    }
}

/// A race needs no barrier and no collective to have passed: two threads, of
/// one warp or of two blocks, that touch an element one right after the other
/// are reported, unless neither stores or both are atomic.
pub proof fn neighbours_race<T>(
    before: Memory<T>,
    between: Memory<T>,
    after: Memory<T>,
    r: Running,
    r_between: Running,
    r_after: Running,
    one: usize,
    other: usize,
    space: MemSpace,
    index: usize,
    first: Request,
    second: Request,
    keep_init: bool,
    put: Option<T>,
    then_put: Option<T>,
    o: AtomicOrdering,
    place: Location,
    place_after: Location,
)
    requires
        side_by_side(
            before,
            between,
            after,
            r,
            r_between,
            r_after,
            one,
            other,
            space,
            index,
            first,
            second,
            keep_init,
            put,
            then_put,
        ),
        r.findings.kept.len() + 3 < 64,
        ({
            ||| first == mem::plain_write(place) && (second == mem::plain_read(place_after)
                || second == mem::plain_write(place_after) || second == mem::atomic(
                o,
                false,
                place_after,
            ))
            ||| first == mem::atomic(o, false, place) && (second == mem::plain_read(place_after)
                || second == mem::plain_write(place_after))
        }),
    ensures
        exists|race: Diagnostic|
            {
                &&& r_after.findings.keys.contains(#[trigger] diag::key_of(race))
                &&& race matches Diagnostic::DataRace { space: s, index: i, first: a, second: b }
                &&& s == space
                &&& i == index
                &&& a.block == r.thread(one as int).block
                &&& a.thread == r.thread(one as int).thread
                &&& a.location == place
                &&& b.block == r.thread(other as int).block
                &&& b.thread == r.thread(other as int).thread
                &&& b.location == place_after
            },
{
    lemma_told_apart(r, one as int, other as int);
    let h = mem::opened(before, r.id, keep_init).shadow[index as int];
    let a = state::access_now(r, one as int, first.kind, first.location);
    assert(between.shadow[index as int].last_write == Some(a));
    assert(r_between.machine == r.machine);
    assert(r_between.wave == r.wave && r_between.config == r.config);
    let b = state::access_now(r_between, other as int, second.kind, second.location);
    assert(r_between.thread(other as int) == r.thread(other as int));
    let kb = sync::key_of(r.thread(other as int).block, r.thread(other as int).thread);
    let ka = sync::key_of(r.thread(one as int).block, r.thread(one as int).thread);
    sync::counting_hands_over_nothing(r.clocks, one as int, ka);
    assert(r_between.clocks.clock[other as int] == r.clocks.clock[other as int]);
    sync::counting_hands_over_nothing(r_between.clocks, other as int, kb);
    let synced = mem::after_acquire(
        state::counted(r_between, other as int),
        other as int,
        between.shadow[index as int],
        second,
    );
    assert(sync::seen(synced.clocks.clock[other as int], ka) == sync::seen(
        r.clocks.clock[other as int],
        ka,
    ));
    state::threads_are_numbered_in_order(r, one as int);
    state::threads_are_numbered_in_order(r, other as int);
    assert(shadow::concurrent(a, b, synced.clocks.clock[other as int]));
    crate::memory_laws::unordered_accesses_are_reported(
        between,
        after,
        r_between,
        r_after,
        other,
        space,
        index,
        second,
        keep_init,
        then_put,
        a,
    );
    let race = Diagnostic::DataRace { space, index, first: a, second: b };
    assert(r_after.findings.keys.contains(diag::key_of(race)));
}

/// A write after a read is as much of a race as a read after a write.
pub proof fn reads_race_with_later_writes<T>(
    before: Memory<T>,
    between: Memory<T>,
    after: Memory<T>,
    r: Running,
    r_between: Running,
    r_after: Running,
    one: usize,
    other: usize,
    space: MemSpace,
    index: usize,
    second: Request,
    keep_init: bool,
    then_put: Option<T>,
    o: AtomicOrdering,
    place: Location,
    place_after: Location,
)
    requires
        side_by_side(
            before,
            between,
            after,
            r,
            r_between,
            r_after,
            one,
            other,
            space,
            index,
            mem::plain_read(place),
            second,
            keep_init,
            None,
            then_put,
        ),
        before.launch_id != r.id,
        r.findings.kept.len() + 3 < 64,
        second == mem::plain_write(place_after) || second == mem::atomic(o, false, place_after),
    ensures
        exists|race: Diagnostic|
            {
                &&& r_after.findings.keys.contains(#[trigger] diag::key_of(race))
                &&& race matches Diagnostic::DataRace { space: s, index: i, first: a, second: b }
                &&& s == space
                &&& i == index
                &&& a.location == place
                &&& b.location == place_after
                &&& a.kind == AccessKind::Read
            },
{
    lemma_told_apart(r, one as int, other as int);
    let h = mem::opened(before, r.id, keep_init).shadow[index as int];
    let a = state::access_now(r, one as int, AccessKind::Read, place);
    let g = between.shadow[index as int];
    crate::search::lemma_first_below(shadow::own_reads(Seq::<Access>::empty(), a), 0);
    assert(shadow::kept_readers(Seq::<Access>::empty(), a, 0) == Seq::<Access>::empty());
    assert(g.readers == Seq::<Access>::empty().push(a));
    assert(g.last_write is None);
    let b = state::access_now(r_between, other as int, second.kind, second.location);
    let kb = sync::key_of(r.thread(other as int).block, r.thread(other as int).thread);
    let ka = sync::key_of(r.thread(one as int).block, r.thread(one as int).thread);
    sync::counting_hands_over_nothing(r.clocks, one as int, ka);
    sync::counting_hands_over_nothing(r_between.clocks, other as int, kb);
    let synced = mem::after_acquire(
        state::counted(r_between, other as int),
        other as int,
        g,
        second,
    );
    let clock = synced.clocks.clock[other as int];
    assert(sync::seen(clock, ka) == sync::seen(r.clocks.clock[other as int], ka));
    state::threads_are_numbered_in_order(r, one as int);
    state::threads_are_numbered_in_order(r, other as int);
    assert(shadow::concurrent(a, b, clock));
    let p = shadow::concurrent_readers(g.readers, b, clock);
    assert(p(0));
    crate::search::lemma_first_below(p, 1);
    assert(shadow::any_conflict(g, b, clock) == Some(a));
    crate::memory_laws::accesses_are_reported(
        between,
        after,
        r_between,
        r_after,
        other,
        space,
        index,
        second,
        keep_init,
        then_put,
    );
    let race = Diagnostic::DataRace { space, index, first: a, second: b };
    assert(r_after.findings.keys.contains(diag::key_of(race)));
}

/// Reads do not race with reads, and atomics do not race with atomics: on an
/// element that the launch has not touched, two of them report nothing but
/// that nobody wrote it.
pub proof fn reads_and_atomics_get_along<T>(
    before: Memory<T>,
    between: Memory<T>,
    after: Memory<T>,
    r: Running,
    r_between: Running,
    r_after: Running,
    one: usize,
    other: usize,
    space: MemSpace,
    index: usize,
    first: Request,
    second: Request,
    keep_init: bool,
    put: Option<T>,
    then_put: Option<T>,
)
    requires
        side_by_side(
            before,
            between,
            after,
            r,
            r_between,
            r_after,
            one,
            other,
            space,
            index,
            first,
            second,
            keep_init,
            put,
            then_put,
        ),
        before.launch_id != r.id,
        keep_init && before.shadow[index as int].init,
        first.kind == second.kind,
        first.kind != AccessKind::Write,
    ensures
        r_after.findings == r.findings,
{
    let a = state::access_now(r, one as int, first.kind, first.location);
    let g = between.shadow[index as int];
    let h = mem::opened(before, r.id, keep_init).shadow[index as int];
    crate::search::lemma_first_below(
        shadow::concurrent_readers(
            h.readers,
            a,
            mem::after_acquire(
                state::counted(r, one as int),
                one as int,
                h,
                first,
            ).clocks.clock[one as int],
        ),
        0,
    );
    let b = state::access_now(r_between, other as int, second.kind, second.location);
    let clock = mem::after_acquire(
        state::counted(r_between, other as int),
        other as int,
        g,
        second,
    ).clocks.clock[other as int];
    if first.kind == AccessKind::Read {
        assert(g.last_write is None);
    } else {
        assert(g.readers == Seq::<Access>::empty());
        crate::search::lemma_first_below(shadow::concurrent_readers(g.readers, b, clock), 0);
    }
}

/// Only what looks at an element needs it written: plain reads, and atomics
/// but for plain stores.
pub proof fn only_reads_need_a_written_element<T>(
    before: Memory<T>,
    after: Memory<T>,
    r: Running,
    r_after: Running,
    me: usize,
    space: MemSpace,
    index: usize,
    req: Request,
    keep_init: bool,
    stored: Option<T>,
    o: AtomicOrdering,
    place: Location,
)
    requires
        before.wf(),
        before.launch_id != r.id,
        mem::accessed(before, after, r, r_after, me, space, index, req, keep_init, stored),
        r.findings == diag::no_findings(),
    ensures
        req == mem::plain_write(place) || req == mem::atomic(o, false, place)
            ==> r_after.findings.kept.len() == 0,
        req == mem::plain_read(place) || req == mem::atomic(o, true, place) ==> (
        r_after.findings.kept.len() == 0 <==> keep_init && before.shadow[index as int].init),
        r_after.findings.kept.len() > 0 ==> {
            &&& r_after.findings.kept.len() == 1
            &&& r_after.findings.kept[0] matches Diagnostic::UninitRead {
                space: s,
                index: i,
                access,
            }
            &&& s == space
            &&& i == index
            &&& access.location == req.location
            &&& access.block == r.thread(me as int).block
            &&& access.thread == r.thread(me as int).thread
        },
{
    let h = mem::opened(before, r.id, keep_init).shadow[index as int];
    let acc = state::access_now(r, me as int, req.kind, req.location);
    let clock = mem::after_acquire(
        state::counted(r, me as int),
        me as int,
        h,
        req,
    ).clocks.clock[me as int];
    crate::search::lemma_first_below(shadow::concurrent_readers(h.readers, acc, clock), 0);
}

/// Plain accesses hand nothing over: they publish nothing to the element, and
/// the thread learns nothing from it but that it made one more access.
pub proof fn plain_accesses_hand_over_nothing<T>(
    before: Memory<T>,
    after: Memory<T>,
    r: Running,
    r_after: Running,
    me: usize,
    space: MemSpace,
    index: usize,
    req: Request,
    keep_init: bool,
    stored: Option<T>,
    place: Location,
    t: int,
    k: u64,
)
    requires
        before.wf(),
        r.wf(),
        r.has_thread(me as int),
        r.has_thread(t),
        mem::accessed(before, after, r, r_after, me, space, index, req, keep_init, stored),
        req == mem::plain_write(place) || req == mem::plain_read(place),
    ensures
        before.launch_id == r.id ==> after.shadow[index as int].published
            == before.shadow[index as int].published,
        before.launch_id != r.id ==> sync::seen(after.shadow[index as int].published, k) == 0,
        t != me ==> r_after.clocks.clock[t] == r.clocks.clock[t],
        k != sync::key_of(r.thread(me as int).block, r.thread(me as int).thread) ==> sync::seen(
            r_after.clocks.clock[me as int],
            k,
        ) == sync::seen(r.clocks.clock[me as int], k),
        r_after.clocks.fence_acquire == r.clocks.fence_acquire,
        r_after.clocks.fence_release == r.clocks.fence_release,
        r_after.clocks.block == r.clocks.block,
{
}

/// An atomic that stores publishes to its element: with a release ordering all
/// the thread knows, itself included. One that stores nothing, such as a load
/// or an exchange that failed, publishes nothing. What was published stays.
pub proof fn stores_publish_and_loads_do_not<T>(
    before: Memory<T>,
    after: Memory<T>,
    r: Running,
    r_after: Running,
    me: usize,
    space: MemSpace,
    index: usize,
    o: AtomicOrdering,
    reads: bool,
    place: Location,
    stored: Option<T>,
    k: u64,
)
    requires
        before.wf(),
        r.wf(),
        r.has_thread(me as int),
        before.launch_id == r.id,
        mem::accessed(
            before,
            after,
            r,
            r_after,
            me,
            space,
            index,
            mem::atomic(o, reads, place),
            true,
            stored,
        ),
    ensures
        stored is None ==> after.shadow[index as int].published
            == before.shadow[index as int].published,
        sync::seen(after.shadow[index as int].published, k) >= sync::seen(
            before.shadow[index as int].published,
            k,
        ),
        stored is Some && o != AtomicOrdering::Relaxed && o != AtomicOrdering::Acquire
            ==> sync::seen(after.shadow[index as int].published, k) >= sync::seen(
            r_after.clocks.clock[me as int],
            k,
        ),
        reads && o != AtomicOrdering::Relaxed && o != AtomicOrdering::Release ==> sync::seen(
            r_after.clocks.clock[me as int],
            k,
        ) >= sync::seen(before.shadow[index as int].published, k),
        !reads && k != sync::key_of(r.thread(me as int).block, r.thread(me as int).thread)
            ==> sync::seen(r_after.clocks.clock[me as int], k) == sync::seen(
            r.clocks.clock[me as int],
            k,
        ),
        forall|i: int|
            0 <= i < before.shadow.len() && i != index ==> #[trigger] after.shadow[i]
                == before.shadow[i],
{
}

/// Opening a memory twice for a launch is opening it once, and no value changes.
pub proof fn memory_is_opened_once<T>(m: Memory<T>, id: u64, keep_init: bool, again: bool)
    ensures
        mem::opened(mem::opened(m, id, keep_init), id, again) == mem::opened(m, id, keep_init),
        mem::opened(m, id, keep_init).data == m.data,
        mem::opened(m, id, keep_init).launch_id == id,
{
}

/// The smaller of two numbers is one of them and no greater than either, and
/// the larger is the other.
pub proof fn extremes_of_numbers(a: u64, b: u64, c: i64, d: i64)
    ensures
        mem::min_of(a, b) == if a <= b {
            a
        } else {
            b
        },
        mem::max_of(a, b) == if a >= b {
            a
        } else {
            b
        },
        mem::min_of(c, d) + mem::max_of(c, d) == c + d,
        mem::min_of(c, d) <= mem::max_of(c, d),
        mem::are_equal(a, b) <==> a == b,
{
}

/// What a barrier hands over: when the last thread of a block comes, every
/// thread of the block learns all that it knows and all that was contributed
/// before, and until then, and in other blocks, nobody learns anything.
pub proof fn barriers_hand_over_to_their_block(r: Running, me: int, loc: Location, t: int, k: u64)
    requires
        r.wf(),
        r.has_thread(me),
        r.has_thread(t),
        r.machine.barrier_gen[r.machine.shape.block_of(me)] < u64::MAX,
    ensures
        ({
            let sh = r.machine.shape;
            let block = sh.block_of(me);
            let after = state::entered_barrier(r, me, loc);
            let last = forall|i: int|
                0 <= i < sh.total() && #[trigger] sh.block_of(i) == block && i != me
                    ==> r.machine.status[i] is AtBarrier;
            &&& last && sh.block_of(t) == block ==> sync::seen(after.clocks.clock[t], k)
                == sync::later(
                sync::seen(r.clocks.clock[t], k),
                sync::later(
                    sync::seen(r.clocks.block[block], k),
                    sync::seen(r.clocks.clock[me], k),
                ),
            )
            &&& !last || sh.block_of(t) != block ==> after.clocks.clock[t] == r.clocks.clock[t]
            &&& sync::seen(after.clocks.block[block], k) == sync::later(
                sync::seen(r.clocks.block[block], k),
                sync::seen(r.clocks.clock[me], k),
            )
            &&& after.clocks.seq == r.clocks.seq
        }),
{
    let sh = r.machine.shape;
    let block = sh.block_of(me);
    geometry::every_thread_has_a_lane(sh, me);
    geometry::every_thread_has_a_lane(sh, t);
    geometry::lemma_block_in_launch(sh, block);
    crate::machine_laws::barriers_wait_for_the_whole_block(r.machine, me, loc);
    let base = sh.block_base(block);
    if base <= t < base + sh.threads {
        geometry::lemma_block_of_range(sh, block, t);
    }
    let arrived = sync::arrived(r.clocks, me, block);
    sync::arriving_tells_the_block(r.clocks, me, block, block, k);
    sync::a_release_reaches_its_block_alone(arrived, base, sh.threads as int, block, t, k);
}

/// A race is reported with the earlier access first and the one that found it
/// second, on the element they meet at; a read of an element nobody has written
/// is reported before it.
pub proof fn the_earlier_access_is_named_first<T>(
    before: Memory<T>,
    after: Memory<T>,
    r: Running,
    r_after: Running,
    me: usize,
    space: MemSpace,
    index: usize,
    req: Request,
    keep_init: bool,
    stored: Option<T>,
    write: Access,
)
    requires
        before.wf(),
        r.wf(),
        r.has_thread(me as int),
        r.clocks.seq[me as int] < u64::MAX,
        before.launch_id == r.id,
        mem::accessed(before, after, r, r_after, me, space, index, req, keep_init, stored),
        before.shadow[index as int].last_write == Some(write),
        shadow::concurrent(
            write,
            state::access_now(r, me as int, req.kind, req.location),
            mem::after_acquire(
                state::counted(r, me as int),
                me as int,
                before.shadow[index as int],
                req,
            ).clocks.clock[me as int],
        ),
        r.findings == diag::no_findings(),
    ensures
        ({
            let unwritten = req.reads && !before.shadow[index as int].init;
            let kept = r_after.findings.kept;
            &&& kept.len() == if unwritten {
                2int
            } else {
                1int
            }
            &&& unwritten ==> kept[0] is UninitRead
            &&& kept.last() matches Diagnostic::DataRace { space: s, index: i, first, second }
            &&& s == space
            &&& i == index
            &&& first == write
            &&& second.kind == req.kind
            &&& second.location == req.location
            &&& second.block == r.thread(me as int).block
            &&& second.thread == r.thread(me as int).thread
            &&& second.seq == r.clocks.seq[me as int] + 1
        }),
{
    let acc = state::access_now(r, me as int, req.kind, req.location);
    let race = Diagnostic::DataRace { space, index, first: write, second: acc };
    let unread = Diagnostic::UninitRead { space, index, access: acc };
    assert(!diag::no_findings().keys.contains(diag::key_of(race)));
    assert(!diag::no_findings().keys.contains(diag::key_of(unread)));
    let first = diag::reported(diag::no_findings(), unread);
    assert(first.keys == Seq::<diag::Key>::empty().push(diag::key_of(unread)));
    assert(!first.keys.contains(diag::key_of(race)));
}

/// An access past the end is reported as what it was: on which memory, at which
/// index of how many, and by whom.
pub proof fn traps_name_the_index_and_the_length<T>(
    before: Memory<T>,
    after: Memory<T>,
    r: Running,
    r_after: Running,
    me: usize,
    space: MemSpace,
    index: usize,
    req: Request,
    keep_init: bool,
)
    requires
        mem::ran_past_end(before, after, r, r_after, me, space, index, req, keep_init),
        before.data.len() <= usize::MAX,
        r.findings == diag::no_findings(),
    ensures
        r_after.findings.kept.len() == 1,
        index >= before.data.len(),
        r_after.findings.kept[0] matches Diagnostic::OutOfBounds {
            space: s,
            index: i,
            len,
            access,
        } && s == space && i == index && len == before.data.len() && access.kind == req.kind
            && access.location == req.location && access.block == r.thread(me as int).block
            && access.thread == r.thread(me as int).thread,
{
}

} // verus!
