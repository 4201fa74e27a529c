//! Races are found by reasoning, not by luck.
//!
//! The laws speak of everything that was ever done to one element. A cell
//! forgets most of it, and these say that nothing is lost by that.

use vstd::prelude::*;

use crate::diag::{Access, AccessKind};
use crate::mem;
use crate::search;
use crate::shadow::{self, History};
use crate::sync;

verus! {

// ---------------------------------------------------------- one element ---

/// What was done to one element: each access with the clock its thread had.
pub type Accesses = Seq<(Access, Map<u64, u64>)>;

/// Whether the earlier access `a` is ordered before `b`, by a thread with this
/// clock. Two atomics never race, and are ordered all the same or not.
pub open spec fn ordered(a: Access, b: Access, clock: Map<u64, u64>) -> bool {
    ||| shadow::same_thread(a, b)
    ||| shadow::has_seen(clock, a)
    ||| !shadow::in_one_epoch(a, b)
}

/// Whether access `i` is ordered before the later access `j`.
pub open spec fn in_order(steps: Accesses, i: int, j: int) -> bool {
    ordered(steps[i].0, steps[j].0, steps[j].1)
}

/// Whether nothing orders access `i` against the later access `j`.
pub open spec fn unordered(steps: Accesses, i: int, j: int) -> bool {
    shadow::concurrent(steps[i].0, steps[j].0, steps[j].1)
}

/// Whether what orders the accesses composes.
pub open spec fn order_composes(steps: Accesses) -> bool {
    forall|i: int, j: int, k: int|
        #![trigger in_order(steps, i, j), in_order(steps, j, k)]
        0 <= i < j < k < steps.len() && in_order(steps, i, j) && in_order(steps, j, k)
            ==> in_order(steps, i, k)
}

/// What the element remembers once all of it was recorded.
pub open spec fn after_all(steps: Accesses) -> History
    decreases steps.len(),
{
    if steps.len() == 0 {
        shadow::untouched(true)
    } else {
        mem::recorded(after_all(steps.drop_last()), steps.last().0, steps.last().0.kind, true)
    }
}

/// What the element remembers before access `k`.
pub open spec fn before(steps: Accesses, k: int) -> History {
    after_all(steps.take(k))
}

/// Whether access `k` is remembered for what it is: a read found room among
/// the readers, and an atomic did not take the place of an atomic it is not
/// ordered after.
pub open spec fn is_remembered(steps: Accesses, k: int) -> bool {
    &&& steps[k].0.kind == AccessKind::Read ==> before(steps, k + 1).readers.contains(steps[k].0)
    &&& steps[k].0.kind == AccessKind::Atomic ==> match before(steps, k).last_write {
        Some(w) => w.kind == AccessKind::Atomic ==> ordered(w, steps[k].0, steps[k].1),
        None => true,
    }
}

/// Whether every access is remembered for what it is.
pub open spec fn all_remembered(steps: Accesses) -> bool {
    forall|k: int| 0 <= k < steps.len() ==> #[trigger] is_remembered(steps, k)
}

/// The earlier access that access `k` is reported against.
pub open spec fn conflict_at(steps: Accesses, k: int) -> Option<Access> {
    mem::conflict_of(before(steps, k), steps[k].0, steps[k].1, steps[k].0.kind)
}

/// Whether access `m` stands for access `i`: it is that access, or comes
/// after it in order.
spec fn stands_for(steps: Accesses, i: int, m: int) -> bool {
    i == m || (i < m && in_order(steps, i, m))
}

/// Whether access `m` is among what the element remembers of the first `n`,
/// where access `i` has to be looked for.
spec fn is_kept(steps: Accesses, n: int, i: int, m: int) -> bool {
    let h = before(steps, n);
    ||| h.last_write == Some(steps[m].0) && steps[m].0.kind != AccessKind::Read
    ||| {
        &&& steps[i].0.kind == AccessKind::Read
        &&& steps[m].0.kind == AccessKind::Read
        &&& h.readers.contains(steps[m].0)
    }
}

spec fn is_stood_for(steps: Accesses, n: int, i: int) -> bool {
    exists|m: int| i <= m < n && #[trigger] stands_for(steps, i, m) && is_kept(steps, n, i, m)
}

proof fn lemma_before_next(steps: Accesses, n: int)
    requires
        0 <= n < steps.len(),
    ensures
        before(steps, n + 1) == mem::recorded(
            before(steps, n),
            steps[n].0,
            steps[n].0.kind,
            true,
        ),
{
    assert(steps.take(n + 1).drop_last() =~= steps.take(n));
}

/// A read forgets a reader only if it comes after it in order.
proof fn lemma_reader_kept_or_ordered(h: History, acc: Access, x: Access, clock: Map<u64, u64>)
    requires
        h.readers.contains(x),
    ensures
        shadow::after_read(h, acc).readers.contains(x) || ordered(x, acc, clock),
{
    let n = h.readers.len() as int;
    let kept = shadow::kept_readers(h.readers, acc, n);
    let at = choose|i: int| 0 <= i < h.readers.len() && h.readers[i] == x;
    if shadow::still_matters(x, acc) {
        lemma_kept(h.readers, acc, n, at);
        let i = choose|i: int| 0 <= i < kept.len() && kept[i] == x;
        let p = shadow::own_reads(kept, acc);
        search::lemma_first_below(p, kept.len() as int);
        match search::first_below(p, kept.len() as int) {
            Some(own) => {
                assert(p(own));
                if own != i {
                    assert(kept.update(own, acc)[i] == x);
                }
            },
            None => if kept.len() < shadow::MAX_READERS {
                assert(kept.push(acc)[i] == x);
            },
        }
    }
}

proof fn lemma_kept(readers: Seq<Access>, acc: Access, n: int, at: int)
    requires
        0 <= at < n <= readers.len(),
        shadow::still_matters(readers[at], acc),
    ensures
        shadow::kept_readers(readers, acc, n).contains(readers[at]),
    decreases n,
{
    let rest = shadow::kept_readers(readers, acc, n - 1);
    if at == n - 1 {
        assert(rest.push(readers[at])[rest.len() as int] == readers[at]);
    } else {
        lemma_kept(readers, acc, n - 1, at);
        let i = choose|i: int| 0 <= i < rest.len() && rest[i] == readers[at];
        let all = shadow::kept_readers(readers, acc, n);
        assert(all[i] == readers[at]);
    }
}

/// An access that is reported against nothing comes after everything that is
/// kept and could have raced with it.
proof fn lemma_quiet_access_is_last(steps: Accesses, n: int, i: int, m: int)
    requires
        0 <= i <= m < n < steps.len(),
        all_remembered(steps),
        conflict_at(steps, n) is None,
        is_kept(steps, n, i, m),
        steps[i].0.kind != AccessKind::Read || steps[n].0.kind != AccessKind::Read,
    ensures
        in_order(steps, m, n),
{
    let h = before(steps, n);
    let (acc, clock) = steps[n];
    assert(is_remembered(steps, n));
    if acc.kind != AccessKind::Read {
        shadow::writes_are_checked_against_everything(h, acc, clock);
        if h.readers.contains(steps[m].0) {
            let at = choose|x: int| 0 <= x < h.readers.len() && h.readers[x] == steps[m].0;
            assert(!shadow::concurrent(h.readers[at], acc, clock));
        }
    }
}

/// What stood for an access before a quiet access still stands for it after,
/// or the quiet access does.
proof fn lemma_stood_for_stays(steps: Accesses, n: int, i: int)
    requires
        0 <= i < n < steps.len(),
        order_composes(steps),
        all_remembered(steps),
        conflict_at(steps, n) is None,
        is_stood_for(steps, n, i),
    ensures
        is_stood_for(steps, n + 1, i),
{
    lemma_before_next(steps, n);
    assert(is_remembered(steps, n));
    let m = choose|m: int|
        i <= m < n && #[trigger] stands_for(steps, i, m) && is_kept(steps, n, i, m);
    let h = before(steps, n);
    let (acc, clock) = steps[n];
    if acc.kind != AccessKind::Read {
        lemma_quiet_access_is_last(steps, n, i, m);
        assert(in_order(steps, m, n));
        assert(stands_for(steps, i, n));
        assert(is_kept(steps, n + 1, i, n));
    } else if h.last_write == Some(steps[m].0) && steps[m].0.kind != AccessKind::Read {
        assert(is_kept(steps, n + 1, i, m));
    } else {
        lemma_reader_kept_or_ordered(h, acc, steps[m].0, clock);
        if before(steps, n + 1).readers.contains(steps[m].0) {
            assert(is_kept(steps, n + 1, i, m));
        } else {
            assert(in_order(steps, m, n));
            assert(stands_for(steps, i, n));
            assert(is_kept(steps, n + 1, i, n));
        }
    }
}

/// While nothing was reported, everything that was done is stood for by
/// something the element remembers.
proof fn lemma_everything_is_stood_for(steps: Accesses, n: int, i: int)
    requires
        0 <= i < n <= steps.len(),
        order_composes(steps),
        all_remembered(steps),
        forall|k: int| 0 <= k < n ==> #[trigger] conflict_at(steps, k) is None,
    ensures
        is_stood_for(steps, n, i),
    decreases n,
{
    if i == n - 1 {
        lemma_before_next(steps, i);
        assert(is_remembered(steps, i));
        assert(stands_for(steps, i, i));
        assert(is_kept(steps, n, i, i));
    } else {
        lemma_everything_is_stood_for(steps, n - 1, i);
        assert(conflict_at(steps, n - 1) is None);
        lemma_stood_for_stays(steps, n - 1, i);
    }
}

/// A race is reported whichever interleaving happened to be produced: of all
/// that was ever done to an element, if nothing orders two accesses and one of
/// them is not a read, then one access, up to the later of the two, is
/// reported against an earlier one that nothing orders before it.
///
/// It takes that order composes, and that the element had room to remember
/// what was done.
pub proof fn a_race_is_reported(steps: Accesses, i: int, j: int)
    requires
        order_composes(steps),
        all_remembered(steps),
        0 <= i < j < steps.len(),
        unordered(steps, i, j),
        steps[i].0.kind != AccessKind::Read || steps[j].0.kind != AccessKind::Read,
    ensures
        exists|k: int| 0 <= k <= j && (#[trigger] conflict_at(steps, k)) is Some,
{
    if forall|k: int| 0 <= k <= j ==> #[trigger] conflict_at(steps, k) is None {
        lemma_everything_is_stood_for(steps, j, i);
        let m = choose|m: int|
            i <= m < j && #[trigger] stands_for(steps, i, m) && is_kept(steps, j, i, m);
        assert(conflict_at(steps, j) is None);
        lemma_quiet_access_is_last(steps, j, i, m);
        assert(in_order(steps, m, j));
        if i != m {
            assert(in_order(steps, i, m));
            assert(in_order(steps, i, j));
        }
    }
}

/// The thread that made an access.
pub open spec fn thread_of(a: Access) -> (u32, u32) {
    (a.block, a.thread)
}

/// Whether no thread is among the readers twice.
spec fn are_distinct(readers: Seq<Access>) -> bool {
    forall|i: int, j: int|
        0 <= i < j < readers.len() ==> !shadow::same_thread(
            #[trigger] readers[i],
            #[trigger] readers[j],
        )
}

proof fn lemma_kept_are_distinct(readers: Seq<Access>, acc: Access, n: int)
    requires
        are_distinct(readers),
        0 <= n <= readers.len(),
    ensures
        are_distinct(shadow::kept_readers(readers, acc, n)),
        forall|i: int|
            0 <= i < shadow::kept_readers(readers, acc, n).len() ==> is_among(
                readers,
                n,
                #[trigger] shadow::kept_readers(readers, acc, n)[i],
            ),
    decreases n,
{
    if n > 0 {
        lemma_kept_are_distinct(readers, acc, n - 1);
        let rest = shadow::kept_readers(readers, acc, n - 1);
        let all = shadow::kept_readers(readers, acc, n);
        assert forall|i: int| 0 <= i < all.len() implies is_among(
            readers,
            n,
            #[trigger] all[i],
        ) by {
            if i < rest.len() {
                assert(is_among(readers, n - 1, rest[i]));
                let q = choose|q: int| 0 <= q < n - 1 && #[trigger] readers[q] == rest[i];
                assert(readers[q] == all[i]);
            } else {
                assert(readers[n - 1] == all[i]);
            }
        }
        assert forall|i: int, j: int| 0 <= i < j < all.len() implies !shadow::same_thread(
            #[trigger] all[i],
            #[trigger] all[j],
        ) by {
            assert(is_among(readers, n - 1, rest[i]));
            if j < rest.len() {
                assert(!shadow::same_thread(rest[i], rest[j]));
            } else {
                let q = choose|q: int| 0 <= q < n - 1 && #[trigger] readers[q] == rest[i];
                assert(!shadow::same_thread(readers[q], readers[n - 1]));
            }
        }
    }
}

/// Whether `a` is one of the first `n` readers.
spec fn is_among(readers: Seq<Access>, n: int, a: Access) -> bool {
    exists|q: int| 0 <= q < n && #[trigger] readers[q] == a
}

/// Threads that all are of one set are no more than it has.
proof fn lemma_distinct_threads_fit(accs: Seq<Access>, threads: Set<(u32, u32)>)
    requires
        threads.finite(),
        are_distinct(accs),
        forall|i: int| 0 <= i < accs.len() ==> threads.contains(thread_of(#[trigger] accs[i])),
    ensures
        accs.len() <= threads.len(),
{
    let ids = Seq::new(accs.len(), |i: int| thread_of(accs[i]));
    assert forall|i: int, j: int|
        0 <= i < ids.len() && 0 <= j < ids.len() && i != j implies ids[i] != ids[j] by {
        if i < j {
            assert(!shadow::same_thread(accs[i], accs[j]));
        } else {
            assert(!shadow::same_thread(accs[j], accs[i]));
        }
    }
    ids.unique_seq_to_set();
    assert(ids.to_set().subset_of(threads)) by {
        assert forall|x: (u32, u32)| ids.to_set().contains(x) implies threads.contains(x) by {
            let i = choose|i: int| 0 <= i < ids.len() && ids[i] == x;
            assert(threads.contains(thread_of(accs[i])));
        }
    }
    vstd::set_lib::lemma_len_subset(ids.to_set(), threads);
}

/// An element remembers each reader once, and only readers of the set.
proof fn lemma_few_readers(steps: Accesses, threads: Set<(u32, u32)>, k: int)
    requires
        0 <= k <= steps.len(),
        forall|i: int|
            0 <= i < steps.len() && (#[trigger] steps[i]).0.kind == AccessKind::Read
                ==> threads.contains(thread_of(steps[i].0)),
    ensures
        are_distinct(before(steps, k).readers),
        forall|i: int|
            0 <= i < before(steps, k).readers.len() ==> threads.contains(
                thread_of(#[trigger] before(steps, k).readers[i]),
            ),
    decreases k,
{
    if k > 0 {
        lemma_few_readers(steps, threads, k - 1);
        lemma_before_next(steps, k - 1);
        let h = before(steps, k - 1);
        let acc = steps[k - 1].0;
        if acc.kind == AccessKind::Read {
            let n = h.readers.len() as int;
            let kept = shadow::kept_readers(h.readers, acc, n);
            let p = shadow::own_reads(kept, acc);
            lemma_kept_are_distinct(h.readers, acc, n);
            search::lemma_first_below(p, kept.len() as int);
            let all = before(steps, k).readers;
            assert forall|i: int, j: int| 0 <= i < j < all.len() implies !shadow::same_thread(
                #[trigger] all[i],
                #[trigger] all[j],
            ) by {
                if j < kept.len() {
                    assert(!shadow::same_thread(kept[i], kept[j]));
                    assert(p(i) == shadow::same_thread(kept[i], acc));
                    assert(p(j) == shadow::same_thread(kept[j], acc));
                } else {
                    assert(!p(i));
                }
            }
            assert forall|i: int| 0 <= i < all.len() implies threads.contains(
                thread_of(#[trigger] all[i]),
            ) by {
                if i < kept.len() {
                    assert(is_among(h.readers, n, kept[i]));
                    let q = choose|q: int| 0 <= q < n && #[trigger] h.readers[q] == kept[i];
                    assert(threads.contains(thread_of(h.readers[q])));
                }
            }
        }
    }
}

/// An element that no more threads read than it has room for, and that has no
/// atomics, remembers every access for what it is.
pub proof fn a_few_readers_are_remembered(steps: Accesses, threads: Set<(u32, u32)>)
    requires
        threads.finite(),
        threads.len() <= 8,
        forall|i: int|
            0 <= i < steps.len() && (#[trigger] steps[i]).0.kind == AccessKind::Read
                ==> threads.contains(thread_of(steps[i].0)),
        forall|i: int|
            0 <= i < steps.len() ==> (#[trigger] steps[i]).0.kind != AccessKind::Atomic,
    ensures
        all_remembered(steps),
{
    assert forall|k: int| 0 <= k < steps.len() implies #[trigger] is_remembered(steps, k) by {
        let acc = steps[k].0;
        if acc.kind == AccessKind::Read {
            lemma_before_next(steps, k);
            lemma_few_readers(steps, threads, k);
            let h = before(steps, k);
            let n = h.readers.len() as int;
            let kept = shadow::kept_readers(h.readers, acc, n);
            let p = shadow::own_reads(kept, acc);
            lemma_kept_are_distinct(h.readers, acc, n);
            search::lemma_first_below(p, kept.len() as int);
            let after = before(steps, k + 1).readers;
            match search::first_below(p, kept.len() as int) {
                Some(own) => assert(after[own] == acc),
                None => {
                    let all = kept.push(acc);
                    assert forall|i: int| 0 <= i < all.len() implies threads.contains(
                        thread_of(#[trigger] all[i]),
                    ) by {
                        if i < kept.len() {
                            assert(is_among(h.readers, n, kept[i]));
                            let q = choose|q: int|
                                0 <= q < n && #[trigger] h.readers[q] == kept[i];
                            assert(threads.contains(thread_of(h.readers[q])));
                        }
                    }
                    assert forall|i: int, j: int|
                        0 <= i < j < all.len() implies !shadow::same_thread(
                        #[trigger] all[i],
                        #[trigger] all[j],
                    ) by {
                        if j < kept.len() {
                            assert(!shadow::same_thread(kept[i], kept[j]));
                        } else {
                            assert(!p(i));
                        }
                    }
                    lemma_distinct_threads_fit(all, threads);
                    assert(after[kept.len() as int] == acc);
                },
            }
        }
    }
}

/// Whether something is one of the first `k` accesses.
pub open spec fn is_one_of(steps: Accesses, k: int, a: Access) -> bool {
    exists|q: int| 0 <= q < k && (#[trigger] steps[q]).0 == a
}

proof fn lemma_one_of_more(steps: Accesses, k: int, a: Access)
    requires
        is_one_of(steps, k, a),
    ensures
        is_one_of(steps, k + 1, a),
{
    let q = choose|q: int| 0 <= q < k && (#[trigger] steps[q]).0 == a;
    assert(steps[q].0 == a);
}

/// An element remembers nothing but what was done to it.
proof fn lemma_memories_happened(steps: Accesses, k: int)
    requires
        0 <= k <= steps.len(),
    ensures
        before(steps, k).last_write matches Some(w) ==> is_one_of(steps, k, w) && w.kind
            != AccessKind::Read,
        forall|x: Access| #[trigger]
            before(steps, k).readers.contains(x) ==> is_one_of(steps, k, x),
    decreases k,
{
    if k > 0 {
        let n = k - 1;
        lemma_memories_happened(steps, n);
        lemma_before_next(steps, n);
        let h = before(steps, n);
        let acc = steps[n].0;
        if let Some(w) = h.last_write {
            lemma_one_of_more(steps, n, w);
        }
        assert(is_one_of(steps, k, acc));
        assert forall|x: Access| #[trigger] before(steps, k).readers.contains(x) implies is_one_of(
            steps,
            k,
            x,
        ) by {
            if acc.kind == AccessKind::Read && x != acc {
                lemma_readers_come_from_readers(h, acc, x);
                lemma_one_of_more(steps, n, x);
            }
        }
    }
}

proof fn lemma_readers_come_from_readers(h: History, acc: Access, x: Access)
    requires
        shadow::after_read(h, acc).readers.contains(x),
        x != acc,
    ensures
        h.readers.contains(x),
{
    let n = h.readers.len() as int;
    let kept = shadow::kept_readers(h.readers, acc, n);
    let after = shadow::after_read(h, acc).readers;
    let i = choose|i: int| 0 <= i < after.len() && after[i] == x;
    search::lemma_first_below(shadow::own_reads(kept, acc), kept.len() as int);
    assert(i < kept.len() && kept[i] == x);
    lemma_kept_come_from_readers(h.readers, acc, n, i);
}

proof fn lemma_kept_come_from_readers(readers: Seq<Access>, acc: Access, n: int, i: int)
    requires
        0 <= n <= readers.len(),
        0 <= i < shadow::kept_readers(readers, acc, n).len(),
    ensures
        readers.contains(shadow::kept_readers(readers, acc, n)[i]),
    decreases n,
{
    if n > 0 {
        let rest = shadow::kept_readers(readers, acc, n - 1);
        if i < rest.len() {
            lemma_kept_come_from_readers(readers, acc, n - 1, i);
        } else {
            assert(readers[n - 1] == shadow::kept_readers(readers, acc, n)[i]);
        }
    }
}

/// Nothing else is reported: an access is only ever reported against an
/// earlier access to its element that nothing orders before it, and one of the
/// two is not a read.
pub proof fn only_races_are_reported(steps: Accesses, k: int)
    requires
        0 <= k < steps.len(),
    ensures
        conflict_at(steps, k) matches Some(first) ==> {
            &&& is_one_of(steps, k, first)
            &&& shadow::concurrent(first, steps[k].0, steps[k].1)
            &&& first.kind != AccessKind::Read || steps[k].0.kind != AccessKind::Read
        },
{
    lemma_memories_happened(steps, k);
    let h = before(steps, k);
    let (acc, clock) = steps[k];
    if let Some(first) = conflict_at(steps, k) {
        if acc.kind != AccessKind::Read {
            shadow::writes_are_checked_against_everything(h, acc, clock);
            search::lemma_first_below(
                shadow::concurrent_readers(h.readers, acc, clock),
                h.readers.len() as int,
            );
            if shadow::write_conflict(h, acc, clock) is None {
                assert(h.readers.contains(first));
            }
        }
    }
}

// ------------------------------------------------------------ the order ---

/// Whether the thread of access `j` has seen access `i`.
pub open spec fn has_seen(steps: Accesses, i: int, j: int) -> bool {
    shadow::has_seen(steps[j].1, steps[i].0)
}

/// Whether access `i` is ordered before access `j` by a handoff alone: neither
/// by being the same thread nor by a barrier or a collective.
pub open spec fn handed_over(steps: Accesses, i: int, j: int) -> bool {
    &&& has_seen(steps, i, j)
    &&& !shadow::same_thread(steps[i].0, steps[j].0)
    &&& shadow::in_one_epoch(steps[i].0, steps[j].0)
}

/// Whether access `i` is ordered before access `j` by a collective alone: no
/// barrier came between, and the thread of `j` has not seen it.
pub open spec fn converged(steps: Accesses, i: int, j: int) -> bool {
    &&& !has_seen(steps, i, j)
    &&& !shadow::in_one_epoch(steps[i].0, steps[j].0)
    &&& steps[i].0.epoch == steps[j].0.epoch
}

/// Whether no handoff is ordered right after a collective, or a collective
/// right after a handoff. A collective tells its threads nothing about each
/// other, so what one of them hands over is its own work alone.
pub open spec fn handoffs_keep_apart(steps: Accesses) -> bool {
    forall|i: int, j: int, k: int|
        #![trigger in_order(steps, i, j), in_order(steps, j, k)]
        0 <= i < j < k < steps.len() ==> {
            &&& !(handed_over(steps, i, j) && converged(steps, j, k))
            &&& !(converged(steps, i, j) && handed_over(steps, j, k))
        }
}

/// What holds of two accesses that one launch makes to an element, `i` before
/// `j`.
pub open spec fn fits(steps: Accesses, i: int, j: int) -> bool {
    let (a, b) = (steps[i].0, steps[j].0);
    // What a thread has seen it knows all about.
    &&& has_seen(steps, i, j) ==> sync::knows(steps[j].1, steps[i].1)
    // Threads see what they did themselves, and never change their warp.
    &&& shadow::same_thread(a, b) ==> has_seen(steps, i, j) && a.warp == b.warp
    // Epochs only grow, and a barrier shows a thread what came before it.
    &&& a.block == b.block ==> a.epoch <= b.epoch
    &&& a.block == b.block && a.epoch < b.epoch ==> has_seen(steps, i, j)
    &&& a.block == b.block && a.warp == b.warp ==> a.warp_epoch <= b.warp_epoch
}

/// Whether the accesses are ones that a launch can make.
pub open spec fn all_fit(steps: Accesses) -> bool {
    forall|i: int, j: int| 0 <= i < j < steps.len() ==> #[trigger] fits(steps, i, j)
}

/// Along the accesses a launch makes to an element order composes, unless a
/// handoff and a collective meet.
pub proof fn order_composes_in_a_launch(steps: Accesses)
    requires
        all_fit(steps),
        handoffs_keep_apart(steps),
    ensures
        order_composes(steps),
{
    assert forall|i: int, j: int, k: int|
        #![trigger in_order(steps, i, j), in_order(steps, j, k)]
        0 <= i < j < k < steps.len() && in_order(steps, i, j) && in_order(
            steps,
            j,
            k,
        ) implies in_order(steps, i, k) by {
        assert(fits(steps, i, j));
        assert(fits(steps, j, k));
        assert(fits(steps, i, k));
        if has_seen(steps, i, j) && has_seen(steps, j, k) {
            let key = sync::key_of(steps[i].0.block, steps[i].0.thread);
            assert(sync::seen(steps[j].1, key) <= sync::seen(steps[k].1, key));
        }
    }
}

} // verus!
