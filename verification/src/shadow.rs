//! Shadow memory: per-element access history used for race detection.
//!
//! Happens-before model:
//! - Two accesses from the same thread are always ordered.
//! - Two atomics never race with each other.
//! - Within a block, `sync_threads()` orders everything before it against
//!   everything after it. Each barrier raises the block's *epoch*.
//! - Within a warp, a full-mask collective does the same, and raises the
//!   warp's epoch.
//! - Across blocks only a release and an acquire order anything, which shows
//!   in the acting thread's clock.

use vstd::prelude::*;

use crate::diag::{Access, AccessKind};
use crate::search;
use crate::sync::{self, key, Clock};

verus! {

/// Bound on remembered readers per element. Beyond this, some races between a
/// write and an old reader may be missed; this keeps memory bounded.
pub const MAX_READERS: usize = 8;

/// Whether both accesses are by one thread.
pub open spec fn same_thread(a: Access, b: Access) -> bool {
    a.block == b.block && a.thread == b.thread
}

/// Whether no barrier and no collective orders the two accesses.
pub open spec fn in_one_epoch(a: Access, b: Access) -> bool {
    ||| a.block != b.block
    ||| a.epoch == b.epoch && (a.warp != b.warp || a.warp_epoch == b.warp_epoch)
}

/// Whether a thread with this clock has seen the access.
pub open spec fn has_seen(clock: Map<u64, u64>, a: Access) -> bool {
    sync::seen(clock, sync::key_of(a.block, a.thread)) >= a.seq
}

/// Whether nothing orders the earlier access `a` against the later access `b`
/// by a thread with this clock.
pub open spec fn concurrent(a: Access, b: Access, clock: Map<u64, u64>) -> bool {
    &&& !same_thread(a, b)
    &&& !(a.kind == AccessKind::Atomic && b.kind == AccessKind::Atomic)
    &&& !has_seen(clock, a)
    &&& in_one_epoch(a, b)
}

/// The access history of one element.
#[verifier::ext_equal]
pub struct History {
    /// Whether the element was ever written.
    pub init: bool,
    pub last_write: Option<Access>,
    pub readers: Seq<Access>,
    /// What releases have published here.
    pub published: Map<u64, u64>,
}

/// An element nobody has touched.
pub open spec fn untouched(init: bool) -> History {
    History { init, last_write: None, readers: Seq::empty(), published: Map::empty() }
}

/// The last write, if it is concurrent with `acc`.
pub open spec fn write_conflict(h: History, acc: Access, clock: Map<u64, u64>) -> Option<Access> {
    match h.last_write {
        Some(w) if concurrent(w, acc, clock) => Some(w),
        _ => None,
    }
}

/// Which readers are concurrent with `acc`.
pub open spec fn concurrent_readers(
    readers: Seq<Access>,
    acc: Access,
    clock: Map<u64, u64>,
) -> spec_fn(int) -> bool {
    |i: int| concurrent(readers[i], acc, clock)
}

/// The earlier access a write or an atomic conflicts with: the last write if
/// it is concurrent, else the first concurrent reader.
pub open spec fn any_conflict(h: History, acc: Access, clock: Map<u64, u64>) -> Option<Access> {
    match write_conflict(h, acc, clock) {
        Some(w) => Some(w),
        None => match search::first_below(
            concurrent_readers(h.readers, acc, clock),
            h.readers.len() as int,
        ) {
            Some(i) => Some(h.readers[i]),
            None => None,
        },
    }
}

/// Whether a reader still matters once `acc` happens. Readers from this block
/// in older epochs happen-before everything now; cross-block readers stay.
pub open spec fn still_matters(r: Access, acc: Access) -> bool {
    r.block != acc.block || r.epoch == acc.epoch
}

/// The first `n` readers without those that no longer matter.
pub open spec fn kept_readers(readers: Seq<Access>, acc: Access, n: int) -> Seq<Access>
    decreases n,
{
    if n <= 0 {
        Seq::empty()
    } else if still_matters(readers[n - 1], acc) {
        kept_readers(readers, acc, n - 1).push(readers[n - 1])
    } else {
        kept_readers(readers, acc, n - 1)
    }
}

/// Which readers are the thread of `acc`.
pub open spec fn own_reads(readers: Seq<Access>, acc: Access) -> spec_fn(int) -> bool {
    |i: int| same_thread(readers[i], acc)
}

/// The readers with `acc` among them: a thread is remembered by its latest
/// read, and a new one only while there is room.
pub open spec fn with_reader(readers: Seq<Access>, acc: Access) -> Seq<Access> {
    match search::first_below(own_reads(readers, acc), readers.len() as int) {
        Some(i) => readers.update(i, acc),
        None => if readers.len() < MAX_READERS {
            readers.push(acc)
        } else {
            readers
        },
    }
}

/// The history after a read.
pub open spec fn after_read(h: History, acc: Access) -> History {
    History {
        readers: with_reader(kept_readers(h.readers, acc, h.readers.len() as int), acc),
        ..h
    }
}

/// The history after a write or an atomic: concurrent readers were just
/// reported, and ordered ones are dead. `stored` says whether a value was
/// written, which initialises the element.
pub open spec fn after_write(h: History, acc: Access, stored: bool) -> History {
    History { init: h.init || stored, last_write: Some(acc), readers: Seq::empty(), ..h }
}

/// Whether nothing orders the earlier access `a` against the later access `b`
/// by a thread with this clock.
pub fn is_concurrent(a: &Access, b: &Access, clock: &Clock) -> (r: bool)
    ensures
        r == concurrent(*a, *b, clock@),
{
    let same = a.block == b.block && a.thread == b.thread;
    let both_atomic = a.kind == AccessKind::Atomic && b.kind == AccessKind::Atomic;
    if same || both_atomic || clock.get(key(a.block, a.thread)) >= a.seq {
        return false;
    }
    a.block != b.block || (a.epoch == b.epoch && (a.warp != b.warp || a.warp_epoch == b.warp_epoch))
}

/// Shadow state of one element.
pub struct Cell {
    init: bool,
    last_write: Option<Access>,
    readers: Vec<Access>,
    published: Clock,
}

impl View for Cell {
    type V = History;

    closed spec fn view(&self) -> History {
        History {
            init: self.init,
            last_write: self.last_write,
            readers: self.readers@,
            published: self.published@,
        }
    }
}

impl Clone for Cell {
    fn clone(&self) -> (r: Cell)
        ensures
            r@ == self@,
    {
        let readers = self.readers.clone();
        assert(readers@ =~= self.readers@);
        Cell {
            init: self.init,
            last_write: self.last_write,
            readers,
            published: self.published.clone(),
        }
    }
}

impl Cell {
    /// An element nobody has touched.
    pub fn new(init: bool) -> (r: Cell)
        ensures
            r@ == untouched(init),
    {
        let r = Cell { init, last_write: None, readers: Vec::new(), published: Clock::new() };
        assert(r@ =~= untouched(init));
        r
    }

    /// An element that holds a value nobody has touched yet.
    pub fn initialised() -> (r: Cell)
        ensures
            r@ == untouched(true),
    {
        Cell::new(true)
    }

    pub fn is_init(&self) -> (r: bool)
        ensures
            r == self@.init,
    {
        self.init
    }

    /// What releases have published here.
    pub fn published(&self) -> (r: &Clock)
        ensures
            r@ == self@.published,
    {
        &self.published
    }

    /// Publishes to this element what `clocks` has thread `gid` release.
    pub fn publish(
        &mut self,
        clocks: &sync::SyncState,
        gid: usize,
        ordering: sync::AtomicOrdering,
    )
        requires
            clocks@.wf(),
            gid < clocks@.seq.len(),
        ensures
            final(self)@ == (History {
                published: sync::published(
                    clocks@,
                    gid as int,
                    old(self)@.published,
                    ordering,
                ),
                ..old(self)@
            }),
    {
        clocks.release(gid, &mut self.published, ordering);
    }

    fn conflicting_write(&self, acc: &Access, clock: &Clock) -> (r: Option<Access>)
        ensures
            r == write_conflict(self@, *acc, clock@),
    {
        match self.last_write {
            Some(w) => if is_concurrent(&w, acc, clock) {
                Some(w)
            } else {
                None
            },
            None => None,
        }
    }

    /// Forgets the readers that no longer matter.
    fn prune(&mut self, acc: &Access)
        ensures
            final(self)@ == (History {
                readers: kept_readers(
                    old(self)@.readers,
                    *acc,
                    old(self)@.readers.len() as int,
                ),
                ..old(self)@
            }),
    {
        let ghost h = self@;
        let mut kept: Vec<Access> = Vec::new();
        let mut i: usize = 0;
        while i < self.readers.len()
            invariant
                i <= self.readers@.len(),
                self@ == h,
                self.readers@ == h.readers,
                kept@ == kept_readers(h.readers, *acc, i as int),
            decreases self.readers@.len() - i,
        {
            let r: Access = self.readers[i];
            if r.block != acc.block || r.epoch == acc.epoch {
                kept.push(r);
            }
            i = i + 1;
        }
        self.readers = kept;
    }

    /// Remembers a reader.
    fn remember(&mut self, acc: Access)
        ensures
            final(self)@ == (History {
                readers: with_reader(old(self)@.readers, acc),
                ..old(self)@
            }),
    {
        let ghost h = self@;
        let ghost p = own_reads(h.readers, acc);
        let n: usize = self.readers.len();
        let mut i: usize = 0;
        while i < n
            invariant
                i <= n,
                n == self.readers@.len(),
                old(self)@ == h,
                self@ == h,
                self.readers@ == h.readers,
                p == own_reads(h.readers, acc),
                search::first_below(p, i as int) is None,
            decreases n - i,
        {
            let r: Access = self.readers[i];
            assert(p(i as int) == same_thread(h.readers[i as int], acc));
            if r.block == acc.block && r.thread == acc.thread {
                proof {
                    search::lemma_first_below_stays(p, i as int, n as int);
                }
                self.readers.set(i, acc);
                return ;
            }
            i = i + 1;
        }
        if n < MAX_READERS {
            self.readers.push(acc);
        }
    }

    /// Records a read by a thread with this clock; returns a concurrent
    /// earlier write, if any.
    pub fn on_read(&mut self, acc: Access, clock: &Clock) -> (r: Option<Access>)
        ensures
            r == write_conflict(old(self)@, acc, clock@),
            final(self)@ == after_read(old(self)@, acc),
    {
        let conflict = self.conflicting_write(&acc, clock);
        self.prune(&acc);
        self.remember(acc);
        conflict
    }

    /// Records a write or atomic by a thread with this clock; returns a
    /// concurrent earlier access, if any.
    pub fn on_write(&mut self, acc: Access, clock: &Clock, stored: bool) -> (r: Option<Access>)
        ensures
            r == any_conflict(old(self)@, acc, clock@),
            final(self)@ == after_write(old(self)@, acc, stored),
    {
        let conflict = self.conflicting_access(&acc, clock);
        self.last_write = Some(acc);
        self.readers.clear();
        self.init = self.init || stored;
        conflict
    }

    fn conflicting_access(&self, acc: &Access, clock: &Clock) -> (r: Option<Access>)
        ensures
            r == any_conflict(self@, *acc, clock@),
    {
        if let Some(w) = self.conflicting_write(acc, clock) {
            return Some(w);
        }
        let ghost h = self@;
        let ghost p = concurrent_readers(h.readers, *acc, clock@);
        let n: usize = self.readers.len();
        let mut i: usize = 0;
        while i < n
            invariant
                i <= n,
                n == self.readers@.len(),
                self@ == h,
                self.readers@ == h.readers,
                p == concurrent_readers(h.readers, *acc, clock@),
                search::first_below(p, i as int) is None,
                write_conflict(h, *acc, clock@) is None,
            decreases n - i,
        {
            let r: Access = self.readers[i];
            assert(p(i as int) == concurrent(h.readers[i as int], *acc, clock@));
            if is_concurrent(&r, acc, clock) {
                proof {
                    search::lemma_first_below_stays(p, i as int, n as int);
                }
                return Some(r);
            }
            i = i + 1;
        }
        None
    }

    /// Starts a new history. Whether the element was written can outlast it.
    pub fn reset(&mut self, keep_init: bool)
        ensures
            final(self)@ == untouched(keep_init && old(self)@.init),
    {
        let init = keep_init && self.init;
        *self = Cell::new(init);
    }
}

// ---------------------------------------------------------------- laws ---

/// A thread never races with itself, and two atomics never race, whatever the
/// scopes.
pub proof fn own_accesses_and_atomics_never_race(a: Access, b: Access, clock: Map<u64, u64>)
    requires
        same_thread(a, b) || (a.kind == AccessKind::Atomic && b.kind == AccessKind::Atomic),
    ensures
        !concurrent(a, b, clock),
{
}

/// A barrier orders its block: accesses of one block in different barrier
/// epochs are never concurrent.
pub proof fn barriers_order_their_block(a: Access, b: Access, clock: Map<u64, u64>)
    requires
        a.block == b.block,
        a.epoch != b.epoch,
    ensures
        !concurrent(a, b, clock),
{
}

/// A full-mask collective orders its warp: accesses of one warp in different
/// warp epochs are never concurrent.
pub proof fn collectives_order_their_warp(a: Access, b: Access, clock: Map<u64, u64>)
    requires
        a.block == b.block,
        a.warp == b.warp,
        a.warp_epoch != b.warp_epoch,
    ensures
        !concurrent(a, b, clock),
{
}

/// Different warps of one block in one barrier epoch are not ordered by any
/// collective.
pub proof fn collectives_order_no_other_warp(a: Access, b: Access, clock: Map<u64, u64>)
    requires
        a.block == b.block,
        a.warp != b.warp,
        a.epoch == b.epoch,
        !same_thread(a, b),
        a.kind != AccessKind::Atomic || b.kind != AccessKind::Atomic,
        !has_seen(clock, a),
    ensures
        concurrent(a, b, clock),
{
}

/// Blocks are ordered by nothing but what the later thread's clock has seen.
pub proof fn only_clocks_order_blocks(a: Access, b: Access, clock: Map<u64, u64>)
    requires
        a.block != b.block,
        a.kind != AccessKind::Atomic || b.kind != AccessKind::Atomic,
    ensures
        concurrent(a, b, clock) == !has_seen(clock, a),
{
}

/// A clock that has never synchronised has seen no operation.
pub proof fn an_empty_clock_has_seen_nothing(a: Access)
    requires
        a.seq >= 1,
    ensures
        !has_seen(Map::empty(), a),
{
}

/// Without release and acquire, whether two accesses race does not depend on
/// which of them came first.
pub proof fn races_do_not_depend_on_who_came_first(
    a: Access,
    b: Access,
    clock_of_a: Map<u64, u64>,
    clock_of_b: Map<u64, u64>,
)
    requires
        !has_seen(clock_of_b, a),
        !has_seen(clock_of_a, b),
    ensures
        concurrent(a, b, clock_of_b) == concurrent(b, a, clock_of_a),
{
}

/// What a thread did before it counted on is in its own clock.
pub proof fn threads_see_their_own_accesses(s: sync::Clocks, gid: int, a: Access)
    requires
        s.wf(),
        0 <= gid < s.seq.len(),
        s.seq[gid] < u64::MAX,
        a.seq <= s.seq[gid] + 1,
    ensures
        has_seen(
            sync::ticked(s, gid, sync::key_of(a.block, a.thread)).clock[gid],
            a,
        ),
{
}

/// A handoff is not a race: once a thread acquired what a thread that has seen
/// the access released, nothing it does is concurrent with that access.
pub proof fn a_handoff_is_not_a_race(
    s: sync::Clocks,
    producer: int,
    consumer: int,
    target: Map<u64, u64>,
    release: sync::AtomicOrdering,
    acquire: sync::AtomicOrdering,
    a: Access,
    b: Access,
)
    requires
        s.wf(),
        0 <= producer < s.seq.len(),
        0 <= consumer < s.seq.len(),
        sync::releases(release),
        sync::acquires(acquire),
        has_seen(s.clock[producer], a),
    ensures
        !concurrent(
            a,
            b,
            sync::acquired(
                s,
                consumer,
                sync::published(s, producer, target, release),
                acquire,
            ).clock[consumer],
        ),
{
    sync::release_and_acquire_hand_over(s, producer, consumer, target, release, acquire);
    let k = sync::key_of(a.block, a.thread);
    assert(sync::seen(s.clock[producer], k) <= sync::seen(
        sync::acquired(
            s,
            consumer,
            sync::published(s, producer, target, release),
            acquire,
        ).clock[consumer],
        k,
    ));
}

/// A write is checked against everything remembered: it conflicts with nothing
/// exactly when neither the last write nor a remembered reader is concurrent
/// with it, and what it conflicts with is concurrent.
pub proof fn writes_are_checked_against_everything(h: History, acc: Access, clock: Map<u64, u64>)
    ensures
        any_conflict(h, acc, clock) is None <==> {
            &&& (h.last_write matches Some(w) ==> !concurrent(w, acc, clock))
            &&& forall|i: int|
                0 <= i < h.readers.len() ==> !concurrent(#[trigger] h.readers[i], acc, clock)
        },
        any_conflict(h, acc, clock) matches Some(first) ==> concurrent(first, acc, clock),
{
    let p = concurrent_readers(h.readers, acc, clock);
    search::lemma_first_below(p, h.readers.len() as int);
    if write_conflict(h, acc, clock) is None {
        if search::first_below(p, h.readers.len() as int) is None {
            assert forall|i: int| 0 <= i < h.readers.len() implies !concurrent(
                #[trigger] h.readers[i],
                acc,
                clock,
            ) by {
                assert(!p(i));
            }
        }
    }
}

/// The access right after a write is reported exactly when it is concurrent
/// with that write.
pub proof fn a_write_is_remembered(
    h: History,
    write: Access,
    stored: bool,
    acc: Access,
    clock: Map<u64, u64>,
)
    ensures
        write_conflict(after_write(h, write, stored), acc, clock) == if concurrent(
            write,
            acc,
            clock,
        ) {
            Some(write)
        } else {
            None
        },
        any_conflict(after_write(h, write, stored), acc, clock) == if concurrent(
            write,
            acc,
            clock,
        ) {
            Some(write)
        } else {
            None
        },
{
}

/// Never more than [`MAX_READERS`] readers are remembered.
pub proof fn readers_are_bounded(h: History, acc: Access, stored: bool)
    requires
        h.readers.len() <= MAX_READERS,
    ensures
        after_read(h, acc).readers.len() <= MAX_READERS,
        after_write(h, acc, stored).readers.len() <= MAX_READERS,
{
    lemma_kept_no_longer(h.readers, acc, h.readers.len() as int);
    let kept = kept_readers(h.readers, acc, h.readers.len() as int);
    search::lemma_first_below(own_reads(kept, acc), kept.len() as int);
}

proof fn lemma_kept_no_longer(readers: Seq<Access>, acc: Access, n: int)
    requires
        0 <= n <= readers.len(),
    ensures
        kept_readers(readers, acc, n).len() <= n,
    decreases n,
{
    if n > 0 {
        lemma_kept_no_longer(readers, acc, n - 1);
    }
}

/// While there is room, a read is remembered, so a concurrent write after it
/// is reported.
pub proof fn a_write_after_a_concurrent_read_is_caught(
    h: History,
    read: Access,
    write: Access,
    clock: Map<u64, u64>,
)
    requires
        h.readers.len() < MAX_READERS,
        concurrent(read, write, clock),
    ensures
        any_conflict(after_read(h, read), write, clock) is Some,
{
    let n = h.readers.len() as int;
    lemma_kept_no_longer(h.readers, read, n);
    let kept = kept_readers(h.readers, read, n);
    let after = after_read(h, read);
    let p = own_reads(kept, read);
    search::lemma_first_below(p, kept.len() as int);
    match search::first_below(p, kept.len() as int) {
        Some(i) => {
            assert(after.readers[i] == read);
        },
        None => {
            assert(after.readers[kept.len() as int] == read);
        },
    }
    writes_are_checked_against_everything(after, write, clock);
}

/// A reader that is forgotten is ordered against everything its block does in
/// the epoch that forgot it.
pub proof fn forgotten_readers_are_ordered(
    r: Access,
    acc: Access,
    later: Access,
    clock: Map<u64, u64>,
)
    requires
        !still_matters(r, acc),
        later.block == acc.block,
        later.epoch == acc.epoch,
    ensures
        !concurrent(r, later, clock),
{
}

/// Threads of one warp that no barrier and no collective came between race:
/// two accesses by different threads of one block and one warp, with the same
/// barrier count and the same collective count, whatever those are, are not
/// ordered, so the second of two such writes is reported against the first.
pub proof fn one_warp_in_one_epoch_is_not_ordered(
    h: History,
    first: Access,
    stored: bool,
    second: Access,
    clock: Map<u64, u64>,
)
    requires
        first.block == second.block,
        first.thread != second.thread,
        first.warp == second.warp,
        first.epoch == second.epoch,
        first.warp_epoch == second.warp_epoch,
        first.kind != AccessKind::Atomic || second.kind != AccessKind::Atomic,
        !has_seen(clock, first),
    ensures
        concurrent(first, second, clock),
        any_conflict(after_write(h, first, stored), second, clock) == Some(first),
        write_conflict(after_write(h, first, stored), second, clock) == Some(first),
{
}

/// Threads of different warps of one block that no barrier came between race,
/// whatever their warps have been through.
pub proof fn different_warps_in_one_epoch_are_not_ordered(
    h: History,
    first: Access,
    stored: bool,
    second: Access,
    clock: Map<u64, u64>,
)
    requires
        first.block == second.block,
        first.thread != second.thread,
        first.warp != second.warp,
        first.epoch == second.epoch,
        first.kind != AccessKind::Atomic || second.kind != AccessKind::Atomic,
        !has_seen(clock, first),
    ensures
        concurrent(first, second, clock),
        any_conflict(after_write(h, first, stored), second, clock) == Some(first),
        write_conflict(after_write(h, first, stored), second, clock) == Some(first),
{
}

/// Threads of different blocks race however often either block met, unless the
/// later thread has seen the earlier access.
pub proof fn different_blocks_are_not_ordered(
    h: History,
    first: Access,
    stored: bool,
    second: Access,
    clock: Map<u64, u64>,
)
    requires
        first.block != second.block,
        first.kind != AccessKind::Atomic || second.kind != AccessKind::Atomic,
        !has_seen(clock, first),
    ensures
        concurrent(first, second, clock),
        any_conflict(after_write(h, first, stored), second, clock) == Some(first),
        write_conflict(after_write(h, first, stored), second, clock) == Some(first),
{
}

/// An access is seen by a clock that holds its number or a later one for its
/// thread, and by no other; what the clock holds for other threads says
/// nothing.
pub proof fn clocks_are_held_against_the_counter(
    clock: Map<u64, u64>,
    a: Access,
    n: u64,
    other_block: u32,
    other_thread: u32,
    m: u64,
)
    requires
        other_block != a.block || other_thread != a.thread,
    ensures
        has_seen(clock.insert(sync::key_of(a.block, a.thread), n), a) <==> a.seq <= n,
        has_seen(clock.remove(sync::key_of(a.block, a.thread)), a) <==> a.seq == 0,
        has_seen(clock.insert(sync::key_of(other_block, other_thread), m), a) == has_seen(clock, a),
{
    if sync::key_of(other_block, other_thread) == sync::key_of(a.block, a.thread) {
        sync::keys_tell_threads_apart(other_block, other_thread, a.block, a.thread);
    }
}

/// What an access is reported against is the last write if that is not
/// ordered before it, and else, unless it only reads, the reader remembered
/// longest among those that are not.
pub proof fn the_last_write_is_blamed_first(h: History, acc: Access, clock: Map<u64, u64>)
    ensures
        h.last_write is Some && concurrent(h.last_write->0, acc, clock) ==> {
            &&& write_conflict(h, acc, clock) == h.last_write
            &&& any_conflict(h, acc, clock) == h.last_write
        },
        !(h.last_write is Some && concurrent(h.last_write->0, acc, clock)) ==> {
            &&& write_conflict(h, acc, clock) is None
            &&& any_conflict(h, acc, clock) matches Some(first) ==> exists|i: int|
                0 <= i < h.readers.len() && #[trigger] h.readers[i] == first && forall|j: int|
                    0 <= j < i ==> !concurrent(#[trigger] h.readers[j], acc, clock)
        },
{
    let p = concurrent_readers(h.readers, acc, clock);
    search::lemma_first_below(p, h.readers.len() as int);
    if let Some(i) = search::first_below(p, h.readers.len() as int) {
        assert forall|j: int| 0 <= j < i implies !concurrent(
            #[trigger] h.readers[j],
            acc,
            clock,
        ) by {
            assert(!p(j));
        }
        assert(h.readers[i] == h.readers[i]);
    }
}

/// A read leaves behind what was written and what was published, and a write
/// what was published; a write is what is remembered of writes from then on,
/// and starts the readers anew.
pub proof fn accesses_leave_the_rest_alone(h: History, acc: Access, stored: bool)
    ensures
        after_read(h, acc).init == h.init,
        after_read(h, acc).last_write == h.last_write,
        after_read(h, acc).published == h.published,
        after_write(h, acc, stored).last_write == Some(acc),
        after_write(h, acc, stored).readers.len() == 0,
        after_write(h, acc, stored).published == h.published,
        after_write(h, acc, true).init,
        after_write(h, acc, false).init == h.init,
{
}

/// An element nobody has touched conflicts with nothing and has nothing to
/// hand over.
pub proof fn untouched_elements_conflict_with_nothing(
    init: bool,
    acc: Access,
    clock: Map<u64, u64>,
)
    ensures
        untouched(init).init == init,
        write_conflict(untouched(init), acc, clock) is None,
        any_conflict(untouched(init), acc, clock) is None,
        forall|k: u64| #[trigger] sync::seen(untouched(init).published, k) == 0,
{
    writes_are_checked_against_everything(untouched(init), acc, clock);
}

proof fn lemma_all_kept(readers: Seq<Access>, acc: Access, n: int)
    requires
        0 <= n <= readers.len(),
        forall|i: int|
            0 <= i < readers.len() ==> (#[trigger] readers[i]).block != acc.block
                || readers[i].epoch == acc.epoch,
    ensures
        kept_readers(readers, acc, n) == readers.take(n),
    decreases n,
{
    if n > 0 {
        lemma_all_kept(readers, acc, n - 1);
        assert(still_matters(readers[n - 1], acc));
        assert(readers.take(n - 1).push(readers[n - 1]) =~= readers.take(n));
    } else {
        assert(readers.take(0) =~= Seq::<Access>::empty());
    }
}

/// How a read is remembered while all the readers still matter: the first 8
/// threads are, each by its latest read in the place of its first, and a thread
/// that comes when the list is full takes nobody's place.
pub proof fn readers_are_remembered_in_order(h: History, acc: Access)
    requires
        h.readers.len() <= 8,
        forall|i: int|
            0 <= i < h.readers.len() ==> (#[trigger] h.readers[i]).block != acc.block
                || h.readers[i].epoch == acc.epoch,
    ensures
        ({
            let known = exists|i: int|
                0 <= i < h.readers.len() && (#[trigger] h.readers[i]).block == acc.block
                    && h.readers[i].thread == acc.thread;
            let after = after_read(h, acc).readers;
            &&& !known && h.readers.len() == 8 ==> after == h.readers
            &&& !known && h.readers.len() < 8 ==> after == h.readers.push(acc)
            &&& known ==> after.len() == h.readers.len() && exists|i: int|
                0 <= i < h.readers.len() && (#[trigger] h.readers[i]).block == acc.block
                    && h.readers[i].thread == acc.thread && after == h.readers.update(i, acc)
        }),
{
    lemma_all_kept(h.readers, acc, h.readers.len() as int);
    assert(h.readers.take(h.readers.len() as int) =~= h.readers);
    let p = own_reads(h.readers, acc);
    search::lemma_first_below(p, h.readers.len() as int);
    match search::first_below(p, h.readers.len() as int) {
        Some(i) => {
            assert(p(i));
            assert(h.readers[i].block == acc.block);
        },
        None => {
            assert forall|i: int| 0 <= i < h.readers.len() implies !((
            #[trigger] h.readers[i]).block == acc.block && h.readers[i].thread == acc.thread) by {
                assert(!p(i));
            }
        },
    }
}

/// A read forgets the readers of its own block that a barrier has passed since,
/// and no others.
pub proof fn barriers_retire_readers(h: History, acc: Access, r: Access)
    requires
        h.readers.contains(r),
        r.block != acc.block || r.thread != acc.thread,
    ensures
        after_read(h, acc).readers.contains(r) <==> r.block != acc.block || r.epoch == acc.epoch,
{
    let n = h.readers.len() as int;
    lemma_kept_exactly(h.readers, acc, n, r);
    let kept = kept_readers(h.readers, acc, n);
    let p = own_reads(kept, acc);
    search::lemma_first_below(p, kept.len() as int);
    let after = with_reader(kept, acc);
    let k = choose|k: int| 0 <= k < n && h.readers[k] == r;
    assert(h.readers.take(n) =~= h.readers);
    assert(h.readers.take(n)[k] == r);
    match search::first_below(p, kept.len() as int) {
        Some(i) => {
            assert(p(i));
            if kept.contains(r) {
                let j = choose|j: int| 0 <= j < kept.len() && kept[j] == r;
                assert(after[j] == r);
            }
            if after.contains(r) {
                let j = choose|j: int| 0 <= j < after.len() && after[j] == r;
                assert(j != i);
                assert(kept[j] == r);
            }
        },
        None => {
            if kept.contains(r) {
                let j = choose|j: int| 0 <= j < kept.len() && kept[j] == r;
                assert(after[j] == r);
            }
            if after.contains(r) {
                let j = choose|j: int| 0 <= j < after.len() && after[j] == r;
                assert(kept[j] == r);
            }
        },
    }
}

proof fn lemma_kept_exactly(readers: Seq<Access>, acc: Access, n: int, r: Access)
    requires
        0 <= n <= readers.len(),
    ensures
        kept_readers(readers, acc, n).contains(r) <==> readers.take(n).contains(r) && still_matters(
            r,
            acc,
        ),
    decreases n,
{
    if n > 0 {
        lemma_kept_exactly(readers, acc, n - 1, r);
        let shorter = kept_readers(readers, acc, n - 1);
        let all = kept_readers(readers, acc, n);
        assert(readers.take(n) =~= readers.take(n - 1).push(readers[n - 1]));
        let (a, b) = (readers.take(n - 1), readers.take(n));
        if a.contains(r) {
            let j = choose|j: int| 0 <= j < a.len() && a[j] == r;
            assert(b[j] == r);
        }
        if readers[n - 1] == r {
            assert(b[n - 1] == r);
        }
        if b.contains(r) && readers[n - 1] != r {
            let j = choose|j: int| 0 <= j < b.len() && b[j] == r;
            assert(a[j] == r);
        }
        if still_matters(readers[n - 1], acc) {
            if shorter.contains(r) {
                let j = choose|j: int| 0 <= j < shorter.len() && shorter[j] == r;
                assert(all[j] == r);
            }
            if readers[n - 1] == r {
                assert(all[shorter.len() as int] == r);
            }
            if all.contains(r) && readers[n - 1] != r {
                let j = choose|j: int| 0 <= j < all.len() && all[j] == r;
                assert(shorter[j] == r);
            }
        }
    }
}

} // verus!
