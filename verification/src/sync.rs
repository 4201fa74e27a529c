//! Release and acquire ordering between blocks.
//!
//! Barriers order a block and warp collectives order a warp, but neither says
//! anything across blocks. The message-passing pattern below is how blocks
//! hand data to each other:
//!
//! ```text
//! producer                         consumer
//!   data[i] = value                  while flag == 0 {}     (relaxed loads)
//!   threadfence()                    threadfence()
//!   flag = 1        (relaxed)        read data[i]
//! ```
//!
//! What carries the ordering is a *vector clock* per thread: for each other
//! thread, the highest operation of it that this thread is known to have seen.
//! A release publishes the releasing thread's clock to a location, an acquire
//! joins that location's clock into the acquiring thread's own, and an access
//! by one thread happens-before an access by another exactly when the second
//! thread's clock has caught up with the first access.
//!
//! Clocks are sparse, holding entries only for threads actually synchronised
//! with, so a kernel that never fences pays for a few empty maps rather than
//! for a matrix over its threads.

use std::collections::BTreeMap;

use vstd::prelude::*;

verus! {

/// How an atomic access or a fence orders the operations around it.
///
/// This is the subset of the C++ model that CUDA kernels reach for. `SeqCst`
/// is accepted and treated as `AcqRel`: what is modelled is synchronisation
/// between threads, not a single total order over all atomics, and nothing
/// that is checked can tell the two apart.
#[derive(Clone, Copy, Debug, PartialEq, Eq, Hash, Structural)]
pub enum AtomicOrdering {
    /// No ordering, only atomicity.
    Relaxed,
    /// Later accesses by this thread cannot be seen to happen before this one.
    Acquire,
    /// Earlier accesses by this thread are published by this one.
    Release,
    /// Both.
    AcqRel,
    /// Treated as [`AtomicOrdering::AcqRel`].
    SeqCst,
}

/// Whether the ordering takes on what was published.
pub open spec fn acquires(o: AtomicOrdering) -> bool {
    o == AtomicOrdering::Acquire || o == AtomicOrdering::AcqRel || o == AtomicOrdering::SeqCst
}

/// Whether the ordering publishes what the thread knows.
pub open spec fn releases(o: AtomicOrdering) -> bool {
    o == AtomicOrdering::Release || o == AtomicOrdering::AcqRel || o == AtomicOrdering::SeqCst
}

impl AtomicOrdering {
    pub fn is_acquire(self) -> (r: bool)
        ensures
            r == acquires(self),
    {
        matches!(
            self,
            AtomicOrdering::Acquire | AtomicOrdering::AcqRel | AtomicOrdering::SeqCst
        )
    }

    pub fn is_release(self) -> (r: bool)
        ensures
            r == releases(self),
    {
        matches!(
            self,
            AtomicOrdering::Release | AtomicOrdering::AcqRel | AtomicOrdering::SeqCst
        )
    }
}

/// The number by which clocks know a thread: its block and its index.
pub open spec fn key_of(block: u32, thread: u32) -> u64 {
    (block * 0x1_0000_0000 + thread) as u64
}

/// Identifies a thread within a launch, as a packed block and thread index.
pub fn key(block: u32, thread: u32) -> (r: u64)
    ensures
        r == key_of(block, thread),
{
    let b: u64 = block as u64;
    let t: u64 = thread as u64;
    assert((b << 32) | t == b * 0x1_0000_0000 + t) by (bit_vector)
        requires
            b <= 0xFFFF_FFFF,
            t <= 0xFFFF_FFFF,
    ;
    (b << 32) | t
}

/// Different threads have different keys.
pub proof fn keys_tell_threads_apart(block: u32, thread: u32, other_block: u32, other_thread: u32)
    requires
        key_of(block, thread) == key_of(other_block, other_thread),
    ensures
        block == other_block,
        thread == other_thread,
{
}

// -------------------------------------------------------------- clocks ---

/// What a clock says of thread `k`: the highest operation of it that was
/// seen, or zero.
pub open spec fn seen(clock: Map<u64, u64>, k: u64) -> u64 {
    if clock.contains_key(k) {
        clock[k]
    } else {
        0
    }
}

/// The later of two operation numbers.
pub open spec fn later(a: u64, b: u64) -> u64 {
    if a < b {
        b
    } else {
        a
    }
}

/// The clock once operation `seq` of thread `k` was seen.
pub open spec fn observed(clock: Map<u64, u64>, k: u64, seq: u64) -> Map<u64, u64> {
    clock.insert(k, later(seen(clock, k), seq))
}

/// Everything either clock has seen.
pub open spec fn joined(a: Map<u64, u64>, b: Map<u64, u64>) -> Map<u64, u64> {
    Map::new(
        |k: u64| a.contains_key(k) || b.contains_key(k),
        |k: u64| later(seen(a, k), seen(b, k)),
    )
}

/// Whether `k` is the key of one of the first `n` entries.
spec fn visited(entries: Seq<(&u64, &u64)>, n: int, k: u64) -> bool {
    exists|i: int| 0 <= i < n && *(#[trigger] entries[i]).0 == k
}

/// Whether `k` is the key of an entry.
spec fn listed(entries: Seq<(&u64, &u64)>, k: u64) -> bool {
    visited(entries, entries.len() as int, k)
}

/// For each thread, the highest operation of it that the owner has seen.
///
/// Absent entries read as zero, and operation counters start at one, so a
/// clock that has never synchronised orders nothing.
#[derive(Debug)]
pub struct Clock(BTreeMap<u64, u64>);

impl View for Clock {
    type V = Map<u64, u64>;

    closed spec fn view(&self) -> Map<u64, u64> {
        self.0@
    }
}

impl Clone for Clock {
    fn clone(&self) -> (r: Clock)
        ensures
            r@ == self@,
    {
        Clock(self.0.clone())
    }
}

impl Clock {
    /// A clock that has seen nothing.
    pub fn new() -> (r: Clock)
        ensures
            r@ == Map::<u64, u64>::empty(),
    {
        Clock(BTreeMap::new())
    }

    pub fn get(&self, k: u64) -> (r: u64)
        ensures
            r == seen(self@, k),
    {
        broadcast use vstd::std_specs::btree::group_btree_axioms;
        broadcast use vstd::laws_cmp::group_laws_cmp;

        match self.0.get(&k) {
            Some(seq) => *seq,
            None => 0,
        }
    }

    pub fn observe(&mut self, k: u64, seq: u64)
        ensures
            final(self)@ == observed(old(self)@, k, seq),
    {
        broadcast use vstd::std_specs::btree::group_btree_axioms;
        broadcast use vstd::laws_cmp::group_laws_cmp;

        let known: u64 = self.get(k);
        self.0.insert(
            k,
            if known < seq {
                seq
            } else {
                known
            },
        );
    }

    /// Takes the later of each entry, which is how knowledge is transferred.
    pub fn join(&mut self, other: &Clock)
        ensures
            final(self)@ == joined(old(self)@, other@),
    {
        broadcast use vstd::std_specs::btree::group_btree_axioms;
        broadcast use vstd::laws_cmp::group_laws_cmp;

        let ghost before = self@;
        for entry in it: other.0.iter()
            invariant
                it.seq() == vstd::std_specs::iter::IteratorSpec::remaining(
                    &vstd::std_specs::btree::spec_btree_map_iter(&other.0),
                ),
                forall|k: u64| #[trigger]
                    self@.contains_key(k) == (before.contains_key(k) || visited(
                        it.seq(),
                        it.index(),
                        k,
                    )),
                forall|k: u64|
                    self@.contains_key(k) ==> #[trigger] self@[k] == if visited(
                        it.seq(),
                        it.index(),
                        k,
                    ) {
                        later(seen(before, k), other@[k])
                    } else {
                        before[k]
                    },
        {
            let ghost so_far = self@;
            let ghost n = it.index();
            self.observe(*entry.0, *entry.1);
            proof {
                let seq = it.seq();
                assert(seq[n] == entry);
                assert(other@.contains_key(*seq[n].0));
                assert forall|k: u64| #[trigger] visited(seq, n + 1, k) == (visited(seq, n, k) || k
                    == *entry.0) by {
                    if k == *entry.0 {
                        assert(*seq[n].0 == k);
                    }
                }
            }
        }
        proof {
            let seq = vstd::std_specs::iter::IteratorSpec::remaining(
                    &vstd::std_specs::btree::spec_btree_map_iter(&other.0),
                );
            assert forall|k: u64| #[trigger] listed(seq, k)
                == other@.contains_key(k) by {
                if other@.contains_key(k) {
                    let i = choose|i: int| 0 <= i < seq.len() && seq[i] == (&k, &other@[k]);
                    assert(*seq[i].0 == k);
                }
                if listed(seq, k) {
                    let i = choose|i: int| 0 <= i < seq.len() && *(#[trigger] seq[i]).0 == k;
                    assert(other@.contains_key(*seq[i].0));
                }
            }
        }
        assert(self@ =~= joined(before, other@));
    }

    pub fn is_empty(&self) -> (r: bool)
        ensures
            r == (self@ == Map::<u64, u64>::empty()),
    {
        proof {
            if self@.dom() =~= Set::empty() {
                assert(self@ =~= Map::empty());
            }
        }
        self.0.is_empty()
    }
}

// ---------------------------------------------------- clocks of a launch ---

/// What the threads and blocks of a launch know.
#[verifier::ext_equal]
pub struct Clocks {
    /// Operation counter per thread.
    pub seq: Seq<u64>,
    /// What each thread has seen.
    pub clock: Seq<Map<u64, u64>>,
    /// What the last release fence of each thread left for relaxed stores.
    pub fence_release: Seq<Map<u64, u64>>,
    /// What relaxed loads of each thread gathered for an acquire fence.
    pub fence_acquire: Seq<Map<u64, u64>>,
    /// What each block collectively knows.
    pub block: Seq<Map<u64, u64>>,
}

impl Clocks {
    pub open spec fn wf(self) -> bool {
        &&& self.clock.len() == self.seq.len()
        &&& self.fence_release.len() == self.seq.len()
        &&& self.fence_acquire.len() == self.seq.len()
    }
}

/// The state before anything happened.
pub open spec fn unsynchronised(threads: nat, blocks: nat) -> Clocks {
    Clocks {
        seq: Seq::new(threads, |i: int| 0u64),
        clock: Seq::new(threads, |i: int| Map::empty()),
        fence_release: Seq::new(threads, |i: int| Map::empty()),
        fence_acquire: Seq::new(threads, |i: int| Map::empty()),
        block: Seq::new(blocks, |i: int| Map::empty()),
    }
}

/// The thread's knowledge contributed to its block.
pub open spec fn arrived(s: Clocks, gid: int, block: int) -> Clocks {
    Clocks { block: s.block.update(block, joined(s.block[block], s.clock[gid])), ..s }
}

/// The block's knowledge taken on by the thread.
pub open spec fn departed(s: Clocks, gid: int, block: int) -> Clocks {
    Clocks { clock: s.clock.update(gid, joined(s.clock[gid], s.block[block])), ..s }
}

/// The block's knowledge taken on by `count` threads, from `first` on.
pub open spec fn all_departed(s: Clocks, first: int, count: int, block: int) -> Clocks {
    Clocks {
        clock: Seq::new(
            s.clock.len(),
            |t: int|
                if first <= t < first + count {
                    joined(s.clock[t], s.block[block])
                } else {
                    s.clock[t]
                },
        ),
        ..s
    }
}

/// One more operation of the thread counted and seen by itself.
pub open spec fn ticked(s: Clocks, gid: int, k: u64) -> Clocks {
    let seq = (s.seq[gid] + 1) as u64;
    Clocks {
        seq: s.seq.update(gid, seq),
        clock: s.clock.update(gid, observed(s.clock[gid], k, seq)),
        ..s
    }
}

/// What a location holds once the thread released into it: a release ordering
/// publishes the thread's own clock, and any ordering publishes what a
/// preceding release fence left behind.
pub open spec fn published(
    s: Clocks,
    gid: int,
    target: Map<u64, u64>,
    ordering: AtomicOrdering,
) -> Map<u64, u64> {
    joined(
        if releases(ordering) {
            joined(target, s.clock[gid])
        } else {
            target
        },
        s.fence_release[gid],
    )
}

/// What the thread knows once it acquired from a location: an acquire ordering
/// takes it on at once, and any other holds it aside for an acquire fence.
pub open spec fn acquired(
    s: Clocks,
    gid: int,
    source: Map<u64, u64>,
    ordering: AtomicOrdering,
) -> Clocks {
    if acquires(ordering) {
        Clocks { clock: s.clock.update(gid, joined(s.clock[gid], source)), ..s }
    } else {
        Clocks {
            fence_acquire: s.fence_acquire.update(gid, joined(s.fence_acquire[gid], source)),
            ..s
        }
    }
}

/// The acquiring half of a fence: pending loads are taken on.
pub open spec fn acquire_fenced(s: Clocks, gid: int) -> Clocks {
    Clocks {
        clock: s.clock.update(gid, joined(s.clock[gid], s.fence_acquire[gid])),
        fence_acquire: s.fence_acquire.update(gid, Map::empty()),
        ..s
    }
}

/// The releasing half of a fence: a snapshot is left for later stores.
pub open spec fn release_fenced(s: Clocks, gid: int) -> Clocks {
    Clocks { fence_release: s.fence_release.update(gid, s.clock[gid]), ..s }
}

/// A fence: the halves its ordering names, the acquiring one first.
pub open spec fn fenced(s: Clocks, gid: int, ordering: AtomicOrdering) -> Clocks {
    let first = if acquires(ordering) {
        acquire_fenced(s, gid)
    } else {
        s
    };
    if releases(ordering) {
        release_fenced(first, gid)
    } else {
        first
    }
}

/// Views of stored clocks.
pub open spec fn views(clocks: Seq<Clock>) -> Seq<Map<u64, u64>> {
    clocks.map_values(|c: Clock| c@)
}

/// Per-thread clocks for a launch.
pub struct SyncState {
    seq: Vec<u64>,
    clock: Vec<Clock>,
    fence_release: Vec<Clock>,
    fence_acquire: Vec<Clock>,
    block: Vec<Clock>,
}

impl View for SyncState {
    type V = Clocks;

    closed spec fn view(&self) -> Clocks {
        Clocks {
            seq: self.seq@,
            clock: views(self.clock@),
            fence_release: views(self.fence_release@),
            fence_acquire: views(self.fence_acquire@),
            block: views(self.block@),
        }
    }
}

/// `n` clocks that have seen nothing.
fn empty_clocks(n: usize) -> (r: Vec<Clock>)
    ensures
        views(r@) == Seq::new(n as nat, |i: int| Map::<u64, u64>::empty()),
{
    let mut out: Vec<Clock> = Vec::new();
    let mut i: usize = 0;
    while i < n
        invariant
            i <= n,
            out@.len() == i,
            forall|j: int| 0 <= j < i ==> (#[trigger] out@[j])@ == Map::<u64, u64>::empty(),
        decreases n - i,
    {
        out.push(Clock::new());
        i = i + 1;
    }
    assert(views(out@) =~= Seq::new(n as nat, |i: int| Map::<u64, u64>::empty()));
    out
}

impl SyncState {
    pub fn new(threads: usize, blocks: usize) -> (r: SyncState)
        ensures
            r@.wf(),
            r@ == unsynchronised(threads as nat, blocks as nat),
    {
        let r = SyncState {
            seq: vec![0; threads],
            clock: empty_clocks(threads),
            fence_release: empty_clocks(threads),
            fence_acquire: empty_clocks(threads),
            block: empty_clocks(blocks),
        };
        assert(r@ =~= unsynchronised(threads as nat, blocks as nat));
        r
    }

    /// Contributes this thread's knowledge to its block, on the way into a
    /// barrier.
    ///
    /// Without this a thread that raises a flag after a barrier would publish
    /// only its own writes, and the block-mates' writes the barrier just
    /// ordered would look unpublished. That composition, a barrier then a
    /// release, is the whole point of a fence in a multi-thread block.
    pub fn barrier_arrive(&mut self, gid: usize, block: usize)
        requires
            old(self)@.wf(),
            gid < old(self)@.seq.len(),
            block < old(self)@.block.len(),
        ensures
            final(self)@ == arrived(old(self)@, gid as int, block as int),
            final(self)@.wf(),
    {
        let ghost s = self@;
        self.block[block].join(&self.clock[gid]);
        assert(self@ =~= arrived(s, gid as int, block as int));
    }

    /// Takes on what the whole block knew, on the way out of a barrier.
    ///
    /// Every thread has contributed by the time the barrier releases, so the
    /// block clock is complete when this runs.
    pub fn barrier_depart(&mut self, gid: usize, block: usize)
        requires
            old(self)@.wf(),
            gid < old(self)@.seq.len(),
            block < old(self)@.block.len(),
        ensures
            final(self)@ == departed(old(self)@, gid as int, block as int),
            final(self)@.wf(),
    {
        let ghost s = self@;
        self.clock[gid].join(&self.block[block]);
        assert(self@ =~= departed(s, gid as int, block as int));
    }

    /// Has `count` threads, from `first` on, depart together, which is when
    /// their barrier releases. Left for later, a thread that is already on its
    /// way into the next barrier would be taken on too.
    pub fn barrier_release(&mut self, first: usize, count: usize, block: usize)
        requires
            old(self)@.wf(),
            first + count <= old(self)@.seq.len(),
            old(self)@.seq.len() <= usize::MAX,
            block < old(self)@.block.len(),
        ensures
            final(self)@ == all_departed(old(self)@, first as int, count as int, block as int),
            final(self)@.wf(),
    {
        let ghost s = self@;
        assert(self@ =~= all_departed(s, first as int, 0, block as int));
        for n in 0..count
            invariant
                s.wf(),
                first + count <= s.seq.len(),
                s.seq.len() <= usize::MAX,
                block < s.block.len(),
                self@ == all_departed(s, first as int, n as int, block as int),
        {
            self.barrier_depart(first + n, block);
            assert(self@ =~= all_departed(s, first as int, n + 1, block as int));
        }
    }

    /// Counts one operation for this thread and returns its number.
    pub fn tick(&mut self, gid: usize, k: u64) -> (r: u64)
        requires
            old(self)@.wf(),
            gid < old(self)@.seq.len(),
            old(self)@.seq[gid as int] < u64::MAX,
        ensures
            r == old(self)@.seq[gid as int] + 1,
            final(self)@ == ticked(old(self)@, gid as int, k),
            final(self)@.wf(),
    {
        let ghost s = self@;
        let seq: u64 = self.seq[gid] + 1;
        self.seq.set(gid, seq);
        self.clock[gid].observe(k, seq);
        assert(self@ =~= ticked(s, gid as int, k));
        seq
    }

    /// Whether this thread's operation counter has room left.
    pub fn has_room(&self, gid: usize) -> (r: bool)
        requires
            self@.wf(),
            gid < self@.seq.len(),
        ensures
            r == (self@.seq[gid as int] < u64::MAX),
    {
        self.seq[gid] < u64::MAX
    }

    /// What this thread has seen.
    pub fn clock(&self, gid: usize) -> (r: &Clock)
        requires
            self@.wf(),
            gid < self@.seq.len(),
        ensures
            r@ == self@.clock[gid as int],
    {
        &self.clock[gid]
    }

    /// A release: publish what this thread has done into `target`.
    ///
    /// A release ordering publishes the thread's own clock. A relaxed store
    /// publishes whatever a preceding release fence left behind, which is how
    /// `threadfence()` followed by a plain atomic write becomes a release.
    pub fn release(&self, gid: usize, target: &mut Clock, ordering: AtomicOrdering)
        requires
            self@.wf(),
            gid < self@.seq.len(),
        ensures
            final(target)@ == published(self@, gid as int, old(target)@, ordering),
    {
        let ghost before = target@;
        if ordering.is_release() {
            target.join(&self.clock[gid]);
        }
        if !self.fence_release[gid].is_empty() {
            target.join(&self.fence_release[gid]);
        } else {
            proof {
                lemma_join_with_nothing(target@);
            }
        }
    }

    /// An acquire: take on what `source` published.
    ///
    /// A relaxed load does not order anything by itself, but a later acquire
    /// fence makes it count, so what it read is remembered until then.
    pub fn acquire(&mut self, gid: usize, source: &Clock, ordering: AtomicOrdering)
        requires
            old(self)@.wf(),
            gid < old(self)@.seq.len(),
        ensures
            final(self)@ == acquired(old(self)@, gid as int, source@, ordering),
            final(self)@.wf(),
    {
        let ghost s = self@;
        if source.is_empty() {
            proof {
                lemma_join_with_nothing(s.clock[gid as int]);
                lemma_join_with_nothing(s.fence_acquire[gid as int]);
            }
            assert(self@ =~= acquired(s, gid as int, source@, ordering));
            return ;
        }
        if ordering.is_acquire() {
            self.clock[gid].join(source);
        } else {
            self.fence_acquire[gid].join(source);
        }
        assert(self@ =~= acquired(s, gid as int, source@, ordering));
    }

    /// `__threadfence()` and its one-sided forms.
    pub fn fence(&mut self, gid: usize, ordering: AtomicOrdering)
        requires
            old(self)@.wf(),
            gid < old(self)@.seq.len(),
        ensures
            final(self)@ == fenced(old(self)@, gid as int, ordering),
            final(self)@.wf(),
    {
        let ghost s = self@;
        if ordering.is_acquire() {
            self.clock[gid].join(&self.fence_acquire[gid]);
            self.fence_acquire.set(gid, Clock::new());
            assert(self@ =~= acquire_fenced(s, gid as int));
        }
        let ghost first = self@;
        if ordering.is_release() {
            let snapshot = self.clock[gid].clone();
            self.fence_release.set(gid, snapshot);
            assert(self@ =~= release_fenced(first, gid as int));
        }
    }
}

// ---------------------------------------------------------------- laws ---

/// Nothing is learned from a clock that has seen nothing.
pub proof fn lemma_join_with_nothing(a: Map<u64, u64>)
    ensures
        joined(a, Map::empty()) == a,
{
    assert(joined(a, Map::empty()) =~= a);
}

/// A joined clock has seen of each thread the later of what the two had.
pub proof fn joining_takes_the_later_of_each(a: Map<u64, u64>, b: Map<u64, u64>, k: u64)
    ensures
        seen(joined(a, b), k) == later(seen(a, k), seen(b, k)),
{
}

/// It does not matter in which order, how often or how grouped clocks are
/// joined.
pub proof fn joining_is_order_free(a: Map<u64, u64>, b: Map<u64, u64>, c: Map<u64, u64>)
    ensures
        joined(a, b) == joined(b, a),
        joined(a, a) == a,
        joined(joined(a, b), c) == joined(a, joined(b, c)),
{
    assert(joined(a, b) =~= joined(b, a));
    assert(joined(a, a) =~= a);
    assert(joined(joined(a, b), c) =~= joined(a, joined(b, c)));
}

/// Whether `b` has seen everything `a` has.
pub open spec fn knows(b: Map<u64, u64>, a: Map<u64, u64>) -> bool {
    forall|k: u64| #[trigger] seen(a, k) <= seen(b, k)
}

/// A release store paired with an acquire load hands everything the releasing
/// thread knew to the acquiring thread.
pub proof fn release_and_acquire_hand_over(
    s: Clocks,
    producer: int,
    consumer: int,
    target: Map<u64, u64>,
    release: AtomicOrdering,
    acquire: AtomicOrdering,
)
    requires
        s.wf(),
        0 <= producer < s.seq.len(),
        0 <= consumer < s.seq.len(),
        releases(release),
        acquires(acquire),
    ensures
        knows(
            acquired(s, consumer, published(s, producer, target, release), acquire).clock[consumer],
            s.clock[producer],
        ),
{
}

/// A fence on each side makes a relaxed store and a relaxed load a handoff:
/// what the producer knew at its fence reaches the consumer at its own, even
/// when the threads went on in between.
pub proof fn fences_hand_over(
    at_fence: Clocks,
    at_store: Clocks,
    at_load: Clocks,
    at_end: Clocks,
    producer: int,
    consumer: int,
    target: Map<u64, u64>,
    release: AtomicOrdering,
    acquire: AtomicOrdering,
)
    requires
        at_fence.wf(),
        at_store.wf(),
        at_load.wf(),
        at_end.wf(),
        at_store.seq.len() == at_fence.seq.len(),
        at_load.seq.len() == at_fence.seq.len(),
        at_end.seq.len() == at_fence.seq.len(),
        0 <= producer < at_fence.seq.len(),
        0 <= consumer < at_fence.seq.len(),
        releases(release),
        acquires(acquire),
        // Nothing fenced on the producer between its fence and its store.
        at_store.fence_release[producer] == fenced(
            at_fence,
            producer,
            release,
        ).fence_release[producer],
        // Nothing was dropped on the consumer between its load and its fence.
        knows(
            at_end.fence_acquire[consumer],
            acquired(
                at_load,
                consumer,
                published(at_store, producer, target, AtomicOrdering::Relaxed),
                AtomicOrdering::Relaxed,
            ).fence_acquire[consumer],
        ),
    ensures
        knows(fenced(at_end, consumer, acquire).clock[consumer], at_fence.clock[producer]),
{
    let flag = published(at_store, producer, target, AtomicOrdering::Relaxed);
    let pending = acquired(at_load, consumer, flag, AtomicOrdering::Relaxed).fence_acquire[consumer];
    let after = fenced(at_end, consumer, acquire).clock[consumer];
    assert forall|k: u64| #[trigger] seen(at_fence.clock[producer], k) <= seen(after, k) by {
        assert(seen(at_fence.clock[producer], k) <= seen(at_store.fence_release[producer], k));
        assert(seen(at_store.fence_release[producer], k) <= seen(flag, k));
        assert(seen(flag, k) <= seen(pending, k));
        assert(seen(pending, k) <= seen(at_end.fence_acquire[consumer], k));
        assert(seen(at_end.fence_acquire[consumer], k) <= seen(after, k));
    }
}

/// A relaxed store without a release fence before it publishes nothing, and a
/// relaxed load teaches nothing until an acquire fence.
pub proof fn relaxed_alone_orders_nothing(
    s: Clocks,
    gid: int,
    location: Map<u64, u64>,
    ordering: AtomicOrdering,
)
    requires
        s.wf(),
        0 <= gid < s.seq.len(),
    ensures
        s.fence_release[gid] == Map::<u64, u64>::empty() && !releases(ordering) ==> published(
            s,
            gid,
            location,
            ordering,
        ) == location,
        !acquires(ordering) ==> acquired(s, gid, location, ordering).clock == s.clock,
{
    lemma_join_with_nothing(location);
}

/// `SeqCst` orders exactly as `AcqRel` does.
pub proof fn seq_cst_is_acq_rel(s: Clocks, gid: int, location: Map<u64, u64>)
    ensures
        published(s, gid, location, AtomicOrdering::SeqCst) == published(
            s,
            gid,
            location,
            AtomicOrdering::AcqRel,
        ),
        acquired(s, gid, location, AtomicOrdering::SeqCst) == acquired(
            s,
            gid,
            location,
            AtomicOrdering::AcqRel,
        ),
        fenced(s, gid, AtomicOrdering::SeqCst) == fenced(s, gid, AtomicOrdering::AcqRel),
{
}

/// Every thread in `who` contributed to the block, one after the other.
pub open spec fn all_arrived(s: Clocks, who: Seq<int>, block: int) -> Clocks
    decreases who.len(),
{
    if who.len() == 0 {
        s
    } else {
        arrived(all_arrived(s, who.drop_last(), block), who.last(), block)
    }
}

proof fn lemma_all_arrived(s: Clocks, who: Seq<int>, block: int)
    requires
        s.wf(),
        0 <= block < s.block.len(),
        forall|i: int| 0 <= i < who.len() ==> 0 <= #[trigger] who[i] < s.seq.len(),
    ensures
        all_arrived(s, who, block).wf(),
        all_arrived(s, who, block).clock == s.clock,
        all_arrived(s, who, block).seq == s.seq,
        all_arrived(s, who, block).block.len() == s.block.len(),
        forall|i: int|
            0 <= i < who.len() ==> knows(
                all_arrived(s, who, block).block[block],
                s.clock[#[trigger] who[i]],
            ),
    decreases who.len(),
{
    if who.len() > 0 {
        let shorter = who.drop_last();
        assert forall|i: int| 0 <= i < shorter.len() implies 0 <= #[trigger] shorter[i]
            < s.seq.len() by {
            assert(shorter[i] == who[i]);
        }
        lemma_all_arrived(s, shorter, block);
        let before = all_arrived(s, shorter, block);
        let after = all_arrived(s, who, block);
        assert forall|i: int| 0 <= i < who.len() implies knows(
            after.block[block],
            s.clock[#[trigger] who[i]],
        ) by {
            if i < shorter.len() {
                assert(shorter[i] == who[i]);
                assert(knows(before.block[block], s.clock[shorter[i]]));
                assert forall|k: u64| #[trigger] seen(s.clock[who[i]], k) <= seen(
                    after.block[block],
                    k,
                ) by {
                    assert(seen(s.clock[who[i]], k) <= seen(before.block[block], k));
                }
            } else {
                assert(who[i] == who.last());
            }
        }
    }
}

/// A barrier shares what the block knows: once every thread of a block has
/// arrived, a thread that departs knows what each of them knew on arriving.
pub proof fn barriers_share_what_the_block_knows(
    s: Clocks,
    who: Seq<int>,
    block: int,
    member: int,
    gid: int,
)
    requires
        s.wf(),
        0 <= block < s.block.len(),
        forall|i: int| 0 <= i < who.len() ==> 0 <= #[trigger] who[i] < s.seq.len(),
        who.contains(member),
        0 <= gid < s.seq.len(),
    ensures
        knows(departed(all_arrived(s, who, block), gid, block).clock[gid], s.clock[member]),
{
    lemma_all_arrived(s, who, block);
    let i = choose|i: int| 0 <= i < who.len() && who[i] == member;
    let met = all_arrived(s, who, block);
    assert(knows(met.block[block], s.clock[who[i]]));
    let after = departed(met, gid, block).clock[gid];
    assert forall|k: u64| #[trigger] seen(s.clock[member], k) <= seen(after, k) by {
        assert(seen(s.clock[who[i]], k) <= seen(met.block[block], k));
    }
}

/// A thread never forgets: whatever it does, it knows afterwards what it knew
/// before.
pub proof fn threads_never_forget(
    s: Clocks,
    gid: int,
    block: int,
    k: u64,
    location: Map<u64, u64>,
    ordering: AtomicOrdering,
)
    requires
        s.wf(),
        0 <= gid < s.seq.len(),
        0 <= block < s.block.len(),
    ensures
        knows(arrived(s, gid, block).clock[gid], s.clock[gid]),
        knows(departed(s, gid, block).clock[gid], s.clock[gid]),
        knows(ticked(s, gid, k).clock[gid], s.clock[gid]),
        knows(acquired(s, gid, location, ordering).clock[gid], s.clock[gid]),
        knows(fenced(s, gid, ordering).clock[gid], s.clock[gid]),
{
}

/// Counting an operation teaches a thread nothing about the others, and the
/// others nothing at all: a thread that never synchronises knows only itself.
pub proof fn counting_hands_over_nothing(s: Clocks, gid: int, k: u64)
    requires
        s.wf(),
        0 <= gid < s.seq.len(),
    ensures
        forall|j: u64|
            j != k ==> #[trigger] seen(ticked(s, gid, k).clock[gid], j) == seen(s.clock[gid], j),
        forall|i: int|
            0 <= i < s.seq.len() && i != gid ==> #[trigger] ticked(s, gid, k).clock[i]
                == s.clock[i],
        ticked(s, gid, k).block == s.block,
        ticked(s, gid, k).fence_release == s.fence_release,
        ticked(s, gid, k).fence_acquire == s.fence_acquire,
{
}

/// Which orderings do what. A release, alone or with an acquire, publishes all
/// the thread knows; an acquire, alone or with a release, takes on at once all
/// that was published. The others publish only what a fence left, and hold
/// aside what they find.
pub proof fn each_ordering_does_its_halves(s: Clocks, gid: int, location: Map<u64, u64>, k: u64)
    requires
        s.wf(),
        0 <= gid < s.seq.len(),
    ensures
        forall|o: AtomicOrdering|
            o != AtomicOrdering::Relaxed && o != AtomicOrdering::Acquire ==> seen(
                #[trigger] published(s, gid, location, o),
                k,
            ) == later(later(seen(location, k), seen(s.clock[gid], k)), seen(s.fence_release[gid], k)),
        forall|o: AtomicOrdering|
            o == AtomicOrdering::Relaxed || o == AtomicOrdering::Acquire ==> seen(
                #[trigger] published(s, gid, location, o),
                k,
            ) == later(seen(location, k), seen(s.fence_release[gid], k)),
        forall|o: AtomicOrdering|
            o != AtomicOrdering::Relaxed && o != AtomicOrdering::Release ==> {
                let after = #[trigger] acquired(s, gid, location, o);
                &&& seen(after.clock[gid], k) == later(seen(s.clock[gid], k), seen(location, k))
                &&& after.fence_acquire == s.fence_acquire
            },
        forall|o: AtomicOrdering|
            o == AtomicOrdering::Relaxed || o == AtomicOrdering::Release ==> {
                let after = #[trigger] acquired(s, gid, location, o);
                &&& after.clock == s.clock
                &&& seen(after.fence_acquire[gid], k) == later(
                    seen(s.fence_acquire[gid], k),
                    seen(location, k),
                )
            },
{
}

/// What a fence does: its acquiring half takes on what loads held aside, and
/// its releasing half leaves what the thread then knows for later stores. A
/// one-sided fence does one of them, and a relaxed one neither.
pub proof fn each_fence_does_its_halves(s: Clocks, gid: int, k: u64)
    requires
        s.wf(),
        0 <= gid < s.seq.len(),
    ensures
        forall|o: AtomicOrdering|
            o != AtomicOrdering::Relaxed && o != AtomicOrdering::Release ==> {
                let after = #[trigger] fenced(s, gid, o);
                &&& seen(after.clock[gid], k) == later(
                    seen(s.clock[gid], k),
                    seen(s.fence_acquire[gid], k),
                )
                &&& seen(after.fence_acquire[gid], k) == 0
            },
        forall|o: AtomicOrdering|
            o != AtomicOrdering::Relaxed && o != AtomicOrdering::Acquire ==> {
                let after = #[trigger] fenced(s, gid, o);
                after.fence_release[gid] == after.clock[gid]
            },
        fenced(s, gid, AtomicOrdering::Release).clock == s.clock,
        fenced(s, gid, AtomicOrdering::Release).fence_acquire == s.fence_acquire,
        fenced(s, gid, AtomicOrdering::Acquire).fence_release == s.fence_release,
        fenced(s, gid, AtomicOrdering::Relaxed) == s,
{
}

/// What one thread does to its clocks leaves the counters of all, and all that
/// the other threads and the blocks know, as they were.
pub proof fn synchronising_touches_nobody_else(
    s: Clocks,
    gid: int,
    other: int,
    location: Map<u64, u64>,
    ordering: AtomicOrdering,
)
    requires
        s.wf(),
        0 <= gid < s.seq.len(),
        0 <= other < s.seq.len(),
        other != gid,
    ensures
        forall|after: Clocks|
            after == acquired(s, gid, location, ordering) || #[trigger] fenced(s, gid, ordering)
                == after ==> {
                &&& after.seq == s.seq
                &&& after.block == s.block
                &&& after.clock[other] == s.clock[other]
                &&& after.fence_release[other] == s.fence_release[other]
                &&& after.fence_acquire[other] == s.fence_acquire[other]
            },
{
}

/// Counting an operation gives it the next number, which its own thread has
/// seen from then on.
pub proof fn operations_are_numbered(s: Clocks, gid: int, k: u64)
    requires
        s.wf(),
        0 <= gid < s.seq.len(),
        s.seq[gid] < u64::MAX,
        seen(s.clock[gid], k) <= s.seq[gid],
    ensures
        ticked(s, gid, k).seq[gid] == s.seq[gid] + 1,
        seen(ticked(s, gid, k).clock[gid], k) == s.seq[gid] + 1,
        forall|i: int|
            0 <= i < s.seq.len() && i != gid ==> #[trigger] ticked(s, gid, k).seq[i] == s.seq[i],
{
}

/// A barrier that releases gives every thread of its block what the block
/// knows, no more, and nothing to any other thread.
pub proof fn a_release_reaches_its_block_alone(
    s: Clocks,
    first: int,
    count: int,
    block: int,
    t: int,
    k: u64,
)
    requires
        s.wf(),
        0 <= t < s.seq.len(),
    ensures
        seen(all_departed(s, first, count, block).clock[t], k) == if first <= t && t < first
            + count {
            later(seen(s.clock[t], k), seen(s.block[block], k))
        } else {
            seen(s.clock[t], k)
        },
        all_departed(s, first, count, block).seq == s.seq,
        all_departed(s, first, count, block).block == s.block,
{
}

/// Arriving at a barrier adds what the thread knows to what its block knows,
/// and teaches nobody anything yet.
pub proof fn arriving_tells_the_block(s: Clocks, gid: int, block: int, other: int, k: u64)
    requires
        s.wf(),
        0 <= block < s.block.len(),
        0 <= other < s.block.len(),
    ensures
        seen(arrived(s, gid, block).block[block], k) == later(
            seen(s.block[block], k),
            seen(s.clock[gid], k),
        ),
        other != block ==> arrived(s, gid, block).block[other] == s.block[other],
        arrived(s, gid, block).clock == s.clock,
        arrived(s, gid, block).seq == s.seq,
{
}

/// Before anything happened nobody has seen anything, nothing is published,
/// and nothing is counted.
pub proof fn nobody_knows_anything_at_first(threads: nat, blocks: nat, t: int, k: u64)
    requires
        0 <= t < threads,
    ensures
        ({
            let s = unsynchronised(threads, blocks);
            &&& s.seq[t] == 0
            &&& seen(s.clock[t], k) == 0
            &&& seen(s.fence_release[t], k) == 0
            &&& seen(s.fence_acquire[t], k) == 0
            &&& forall|b: int| 0 <= b < blocks ==> seen(#[trigger] s.block[b], k) == 0
        }),
{
}

/// The later of two numbers is one of them, and neither is later than it.
pub proof fn the_later_is_the_greater(a: u64, b: u64)
    ensures
        a <= later(a, b),
        b <= later(a, b),
        later(a, b) == a || later(a, b) == b,
{
}

/// A clock that observes an operation has seen it and all it had seen before,
/// and learns nothing of other threads.
pub proof fn observing_only_adds(clock: Map<u64, u64>, k: u64, seq: u64, other: u64)
    ensures
        seen(observed(clock, k, seq), k) == if seq < seen(clock, k) {
            seen(clock, k)
        } else {
            seq
        },
        other != k ==> seen(observed(clock, k, seq), other) == seen(clock, other),
        seen(Map::<u64, u64>::empty(), k) == 0,
        seen(clock.insert(k, seq), k) == seq,
{
}

} // verus!
