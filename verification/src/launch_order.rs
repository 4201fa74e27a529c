//! What orders the accesses of a launch.
//!
//! The order that findings rest on is the one the launch keeps in its epochs
//! and clocks. These laws say that it composes, so that forgetting what is
//! ordered before something remembered is safe, and that races are found.

use vstd::prelude::*;

use crate::diag::{self, Access, AccessKind};
use crate::geometry;
use crate::launch::{self, LaunchConfig};
use crate::launch_laws::{self, Act, Buffer, World};
use crate::launch_races::{self, Element};
use crate::machine::{self, Machine, Source, Status};
use crate::mem::{self, Request};
use crate::race_laws::{self, Accesses};
use crate::sched;
use crate::schedule_laws::{self, Op};
use crate::shadow;
use crate::state::{self, Running};
use crate::sync::{self, AtomicOrdering, Clocks};

verus! {

// ----------------------------------------------------- what clocks know ---

/// Whether an access is one of thread `t`.
spec fn is_by(r: Running, t: int, a: Access) -> bool {
    a.block == r.thread(t).block && a.thread == r.thread(t).thread
}

/// The key of thread `t`.
spec fn key_at(r: Running, t: int) -> u64 {
    sync::key_of(r.thread(t).block, r.thread(t).thread)
}

/// Whether two states have the same resident threads.
spec fn same_threads(a: Running, b: Running) -> bool {
    &&& a.wave == b.wave
    &&& a.machine.shape == b.machine.shape
    &&& a.machine.first_block == b.machine.first_block
}

/// Whether a clock knows no operation that was not made yet.
spec fn no_future(c: Map<u64, u64>, r: Running, seq: Seq<u64>) -> bool {
    &&& forall|t: int| r.has_thread(t) ==> sync::seen(c, #[trigger] key_at(r, t)) <= seq[t]
    &&& forall|block: u32, thread: u32|
        block >= r.wave.first + r.wave.blocks ==> sync::seen(
            c,
            #[trigger] sync::key_of(block, thread),
        ) == 0
}

/// Whether a clock knows of every access it has seen all that was known there.
spec fn closed(c: Map<u64, u64>, steps: Accesses) -> bool {
    forall|i: int|
        0 <= i < steps.len() && shadow::has_seen(c, (#[trigger] steps[i]).0) ==> sync::knows(
            c,
            steps[i].1,
        )
}

spec fn good(c: Map<u64, u64>, r: Running, seq: Seq<u64>, steps: Accesses) -> bool {
    no_future(c, r, seq) && closed(c, steps)
}

spec fn clocks_good(s: Clocks, r: Running, steps: Accesses) -> bool {
    let n = r.machine.shape.total();
    &&& s.wf()
    &&& s.seq.len() == n
    &&& s.block.len() == r.machine.shape.blocks
    &&& forall|t: int| 0 <= t < n ==> good(#[trigger] s.clock[t], r, s.seq, steps)
    &&& forall|t: int| 0 <= t < n ==> good(#[trigger] s.fence_release[t], r, s.seq, steps)
    &&& forall|t: int| 0 <= t < n ==> good(#[trigger] s.fence_acquire[t], r, s.seq, steps)
    &&& forall|b: int| 0 <= b < s.block.len() ==> good(#[trigger] s.block[b], r, s.seq, steps)
    &&& forall|t: int| r.has_thread(t) ==> sync::seen(s.clock[t], #[trigger] key_at(r, t))
        >= s.seq[t]
}

/// What releases have published to an element.
spec fn published_at<T>(w: World<T>, b: int, i: int) -> Map<u64, u64> {
    launch_laws::opened(w.buffers[b], w.running.id).shadow[i].published
}

spec fn is_element<T>(w: World<T>, b: int, i: int) -> bool {
    0 <= b < w.buffers.len() && 0 <= i < w.buffers[b].memory.data.len()
}

spec fn memory_good<T>(w: World<T>, seq: Seq<u64>, steps: Accesses) -> bool {
    &&& forall|b: int| 0 <= b < w.buffers.len() ==> (#[trigger] w.buffers[b]).memory.wf()
    &&& forall|b: int, i: int|
        is_element(w, b, i) ==> good(#[trigger] published_at(w, b, i), w.running, seq, steps)
}

/// What is known of the accesses themselves.
spec fn steps_known(r: Running, seq: Seq<u64>, steps: Accesses) -> bool {
    forall|i: int|
        0 <= i < steps.len() ==> {
            let a = (#[trigger] steps[i]).0;
            &&& a.seq >= 1
            &&& a.block < r.wave.first + r.wave.blocks
            &&& a.block >= r.wave.first ==> has_author(r, a)
            &&& forall|t: int|
                r.has_thread(t) && #[trigger] is_by(r, t, a) ==> a.seq <= seq[t] && a.warp
                    == r.machine.shape.warp_of(t)
        }
}

spec fn has_author(r: Running, a: Access) -> bool {
    exists|t: int| r.has_thread(t) && #[trigger] is_by(r, t, a)
}

spec fn knowledge<T>(w: World<T>, steps: Accesses) -> bool {
    &&& clocks_good(w.running.clocks, w.running, steps)
    &&& memory_good(w, w.running.clocks.seq, steps)
    &&& steps_known(w.running, w.running.clocks.seq, steps)
}

/// Resident threads have blocks of the wave, and keys of their own.
proof fn lemma_threads_differ(r: Running, t: int, u: int)
    requires
        launch_laws::sound(r),
        r.has_thread(t),
        r.has_thread(u),
    ensures
        r.wave.first <= r.thread(t).block < r.wave.first + r.wave.blocks,
        r.thread(t).block == r.wave.first + r.machine.shape.block_of(t),
        t != u ==> key_at(r, t) != key_at(r, u),
        t != u ==> !(r.thread(t).block == r.thread(u).block && r.thread(t).thread == r.thread(
            u,
        ).thread),
{
    let sh = r.machine.shape;
    geometry::every_thread_has_a_lane(sh, t);
    geometry::every_thread_has_a_lane(sh, u);
    let n = sh.threads as int;
    vstd::arithmetic::div_mod::lemma_fundamental_div_mod(t, n);
    vstd::arithmetic::div_mod::lemma_fundamental_div_mod(u, n);
    if key_at(r, t) == key_at(r, u) {
        sync::keys_tell_threads_apart(
            r.thread(t).block,
            r.thread(t).thread,
            r.thread(u).block,
            r.thread(u).thread,
        );
    }
}

proof fn lemma_good_join(
    a: Map<u64, u64>,
    b: Map<u64, u64>,
    r: Running,
    seq: Seq<u64>,
    steps: Accesses,
)
    requires
        good(a, r, seq, steps),
        good(b, r, seq, steps),
    ensures
        good(sync::joined(a, b), r, seq, steps),
{
    let c = sync::joined(a, b);
    assert forall|i: int|
        0 <= i < steps.len() && shadow::has_seen(c, (#[trigger] steps[i]).0) implies sync::knows(
        c,
        steps[i].1,
    ) by {
        let x = steps[i].1;
        if shadow::has_seen(a, steps[i].0) {
            assert(sync::knows(a, x));
            assert forall|k: u64| #[trigger] sync::seen(x, k) <= sync::seen(c, k) by {
                assert(sync::seen(x, k) <= sync::seen(a, k));
            }
        } else {
            assert(shadow::has_seen(b, steps[i].0));
            assert(sync::knows(b, x));
            assert forall|k: u64| #[trigger] sync::seen(x, k) <= sync::seen(c, k) by {
                assert(sync::seen(x, k) <= sync::seen(b, k));
            }
        }
    }
    assert forall|t: int| r.has_thread(t) implies sync::seen(c, #[trigger] key_at(r, t))
        <= seq[t] by {
        assert(sync::seen(a, key_at(r, t)) <= seq[t]);
        assert(sync::seen(b, key_at(r, t)) <= seq[t]);
    }
    assert forall|block: u32, thread: u32|
        block >= r.wave.first + r.wave.blocks implies sync::seen(
        c,
        #[trigger] sync::key_of(block, thread),
    ) == 0 by {
        assert(sync::seen(a, sync::key_of(block, thread)) == 0);
        assert(sync::seen(b, sync::key_of(block, thread)) == 0);
    }
}

proof fn lemma_good_empty(r: Running, seq: Seq<u64>, steps: Accesses)
    requires
        forall|i: int| 0 <= i < steps.len() ==> (#[trigger] steps[i]).0.seq >= 1,
    ensures
        good(Map::empty(), r, seq, steps),
{
}

/// Whether `later` is the accesses with at most one more, which is the latest
/// operation of thread `me`.
spec fn at_most_one_more(
    r: Running,
    seq: Seq<u64>,
    me: int,
    steps: Accesses,
    later: Accesses,
) -> bool {
    ||| later == steps
    ||| {
        &&& later.len() == steps.len() + 1
        &&& later.drop_last() == steps
        &&& is_by(r, me, later.last().0)
        &&& later.last().0.seq == seq[me] + 1
    }
}

/// A clock that did not change while thread `me` counted stays good.
proof fn lemma_good_old(
    c: Map<u64, u64>,
    r: Running,
    seq: Seq<u64>,
    me: int,
    steps: Accesses,
    later: Accesses,
)
    requires
        good(c, r, seq, steps),
        r.has_thread(me),
        seq.len() == r.machine.shape.total(),
        seq[me] < u64::MAX,
        at_most_one_more(r, seq, me, steps, later),
    ensures
        good(c, r, seq.update(me, (seq[me] + 1) as u64), later),
{
    assert(sync::seen(c, key_at(r, me)) <= seq[me]);
    assert forall|i: int|
        0 <= i < later.len() && shadow::has_seen(c, (#[trigger] later[i]).0) implies sync::knows(
        c,
        later[i].1,
    ) by {
        if i < steps.len() {
            assert(later[i] == steps[i]);
        }
    }
}

/// The clock of thread `me` is good once it counted, and so is what it took on.
proof fn lemma_good_own(
    s: Clocks,
    r: Running,
    me: int,
    extra: Map<u64, u64>,
    steps: Accesses,
    later: Accesses,
    c: Map<u64, u64>,
)
    requires
        launch_laws::sound(r),
        clocks_good(s, r, steps),
        steps_known(r, s.seq, steps),
        r.has_thread(me),
        s.seq[me] < u64::MAX,
        good(extra, r, s.seq, steps),
        at_most_one_more(r, s.seq, me, steps, later),
        ({
            let counted = sync::observed(s.clock[me], key_at(r, me), (s.seq[me] + 1) as u64);
            c == counted || c == sync::joined(counted, extra)
        }),
        later != steps ==> later.last().1 == c,
    ensures
        good(c, r, s.seq.update(me, (s.seq[me] + 1) as u64), later),
        sync::seen(c, key_at(r, me)) == s.seq[me] + 1,
        sync::knows(c, s.clock[me]),
{
    let k = key_at(r, me);
    let next = (s.seq[me] + 1) as u64;
    let seq = s.seq.update(me, next);
    let old = s.clock[me];
    let counted = sync::observed(old, k, next);
    assert(good(old, r, s.seq, steps));
    assert(sync::seen(old, k) <= s.seq[me]);
    assert(sync::knows(counted, old));
    assert(closed(counted, steps)) by {
        assert forall|i: int|
            0 <= i < steps.len() && shadow::has_seen(
                counted,
                (#[trigger] steps[i]).0,
            ) implies sync::knows(counted, steps[i].1) by {
            let a = steps[i].0;
            if sync::key_of(a.block, a.thread) == k {
                sync::keys_tell_threads_apart(
                    a.block,
                    a.thread,
                    r.thread(me).block,
                    r.thread(me).thread,
                );
                assert(is_by(r, me, a));
                assert(sync::seen(old, key_at(r, me)) >= s.seq[me]);
            }
            assert(shadow::has_seen(old, a));
            assert(sync::knows(old, steps[i].1));
            assert forall|j: u64| #[trigger] sync::seen(steps[i].1, j) <= sync::seen(counted, j) by {
                assert(sync::seen(steps[i].1, j) <= sync::seen(old, j));
            }
        }
    }
    assert(no_future(counted, r, seq)) by {
        assert forall|t: int| r.has_thread(t) implies sync::seen(counted, #[trigger] key_at(r, t))
            <= seq[t] by {
            lemma_threads_differ(r, t, me);
            assert(sync::seen(old, key_at(r, t)) <= s.seq[t]);
        }
        assert forall|block: u32, thread: u32|
            block >= r.wave.first + r.wave.blocks implies sync::seen(
            counted,
            #[trigger] sync::key_of(block, thread),
        ) == 0 by {
            lemma_threads_differ(r, me, me);
            if sync::key_of(block, thread) == k {
                sync::keys_tell_threads_apart(
                    block,
                    thread,
                    r.thread(me).block,
                    r.thread(me).thread,
                );
            }
            assert(sync::seen(old, sync::key_of(block, thread)) == 0);
        }
    }
    lemma_good_old(extra, r, s.seq, me, steps, steps);
    lemma_good_join(counted, extra, r, seq, steps);
    assert(sync::seen(extra, k) <= s.seq[me]);
    assert(good(c, r, seq, steps));
    assert(sync::knows(c, old)) by {
        assert forall|j: u64| #[trigger] sync::seen(old, j) <= sync::seen(c, j) by {
            assert(sync::seen(old, j) <= sync::seen(counted, j));
        }
    }
    assert forall|i: int|
        0 <= i < later.len() && shadow::has_seen(c, (#[trigger] later[i]).0) implies sync::knows(
        c,
        later[i].1,
    ) by {
        if i < steps.len() {
            assert(later[i] == steps[i]);
        }
    }
}

/// A clock stays good where the resident threads stay the same.
proof fn lemma_good_same(
    c: Map<u64, u64>,
    r: Running,
    after: Running,
    seq: Seq<u64>,
    steps: Accesses,
)
    requires
        good(c, r, seq, steps),
        same_threads(r, after),
    ensures
        good(c, after, seq, steps),
{
    assert forall|t: int| after.has_thread(t) implies sync::seen(c, #[trigger] key_at(after, t))
        <= seq[t] by {
        assert(key_at(after, t) == key_at(r, t));
        assert(r.has_thread(t));
    }
}

proof fn lemma_steps_known_same(r: Running, after: Running, seq: Seq<u64>, steps: Accesses)
    requires
        steps_known(r, seq, steps),
        same_threads(r, after),
    ensures
        steps_known(after, seq, steps),
{
    assert forall|i: int| 0 <= i < steps.len() implies {
        let a = (#[trigger] steps[i]).0;
        &&& a.seq >= 1
        &&& a.block < after.wave.first + after.wave.blocks
        &&& a.block >= after.wave.first ==> has_author(after, a)
        &&& forall|t: int|
            after.has_thread(t) && #[trigger] is_by(after, t, a) ==> a.seq <= seq[t] && a.warp
                == after.machine.shape.warp_of(t)
    } by {
        let a = steps[i].0;
        if a.block >= after.wave.first {
            assert(has_author(r, a));
            let t = choose|t: int| r.has_thread(t) && #[trigger] is_by(r, t, a);
            assert(after.has_thread(t) && is_by(after, t, a));
        }
        assert forall|t: int| after.has_thread(t) && #[trigger] is_by(after, t, a) implies a.seq
            <= seq[t] && a.warp == after.machine.shape.warp_of(t) by {
            assert(r.has_thread(t) && is_by(r, t, a));
        }
    }
}

/// Knowledge goes on where clocks change to good ones and nothing is counted.
proof fn lemma_knowledge_goes_on<T>(w: World<T>, after: World<T>, steps: Accesses)
    requires
        knowledge(w, steps),
        same_threads(w.running, after.running),
        after.running.id == w.running.id,
        after.running.clocks.seq == w.running.clocks.seq,
        after.running.clocks.wf(),
        after.running.clocks.block.len() == w.running.clocks.block.len(),
        forall|t: int|
            w.running.has_thread(t) ==> good(
                #[trigger] after.running.clocks.clock[t],
                w.running,
                w.running.clocks.seq,
                steps,
            ) && sync::knows(after.running.clocks.clock[t], w.running.clocks.clock[t]),
        forall|t: int|
            w.running.has_thread(t) ==> good(
                #[trigger] after.running.clocks.fence_release[t],
                w.running,
                w.running.clocks.seq,
                steps,
            ),
        forall|t: int|
            w.running.has_thread(t) ==> good(
                #[trigger] after.running.clocks.fence_acquire[t],
                w.running,
                w.running.clocks.seq,
                steps,
            ),
        forall|b: int|
            0 <= b < after.running.clocks.block.len() ==> good(
                #[trigger] after.running.clocks.block[b],
                w.running,
                w.running.clocks.seq,
                steps,
            ),
        forall|b: int|
            0 <= b < after.buffers.len() ==> (#[trigger] after.buffers[b]).memory.wf(),
        forall|b: int, i: int|
            is_element(after, b, i) ==> good(
                #[trigger] published_at(after, b, i),
                w.running,
                w.running.clocks.seq,
                steps,
            ),
    ensures
        knowledge(after, steps),
{
    let (r, n) = (w.running, after.running);
    let s = n.clocks;
    assert forall|t: int| 0 <= t < n.machine.shape.total() implies good(
        #[trigger] s.clock[t],
        n,
        s.seq,
        steps,
    ) by {
        lemma_good_same(s.clock[t], r, n, s.seq, steps);
    }
    assert forall|t: int| 0 <= t < n.machine.shape.total() implies good(
        #[trigger] s.fence_release[t],
        n,
        s.seq,
        steps,
    ) by {
        lemma_good_same(s.fence_release[t], r, n, s.seq, steps);
    }
    assert forall|t: int| 0 <= t < n.machine.shape.total() implies good(
        #[trigger] s.fence_acquire[t],
        n,
        s.seq,
        steps,
    ) by {
        lemma_good_same(s.fence_acquire[t], r, n, s.seq, steps);
    }
    assert forall|b: int| 0 <= b < s.block.len() implies good(
        #[trigger] s.block[b],
        n,
        s.seq,
        steps,
    ) by {
        lemma_good_same(s.block[b], r, n, s.seq, steps);
    }
    assert forall|t: int| n.has_thread(t) implies sync::seen(s.clock[t], #[trigger] key_at(n, t))
        >= s.seq[t] by {
        assert(key_at(n, t) == key_at(r, t));
        assert(r.has_thread(t));
        assert(sync::knows(s.clock[t], r.clocks.clock[t]));
        assert(sync::seen(r.clocks.clock[t], key_at(r, t)) <= sync::seen(
            s.clock[t],
            key_at(r, t),
        ));
    }
    assert forall|b: int, i: int| is_element(after, b, i) implies good(
        #[trigger] published_at(after, b, i),
        n,
        s.seq,
        steps,
    ) by {
        lemma_good_same(published_at(after, b, i), r, n, s.seq, steps);
    }
    lemma_steps_known_same(r, n, s.seq, steps);
}

/// What an operation that touches neither clocks nor memory leaves.
proof fn lemma_knowledge_untouched<T>(w: World<T>, after: World<T>, steps: Accesses)
    requires
        knowledge(w, steps),
        same_threads(w.running, after.running),
        after.running.id == w.running.id,
        after.running.clocks == w.running.clocks,
        after.buffers == w.buffers,
    ensures
        knowledge(after, steps),
{
    assert forall|b: int, i: int| is_element(after, b, i) implies good(
        #[trigger] published_at(after, b, i),
        w.running,
        w.running.clocks.seq,
        steps,
    ) by {
        assert(is_element(w, b, i));
        assert(published_at(after, b, i) == published_at(w, b, i));
    }
    lemma_knowledge_goes_on(w, after, steps);
}

/// Knowledge goes on where thread `me` counts an operation: its own clock is
/// `c`, it may have put `extra` aside, and one element may hold something new.
proof fn lemma_knowledge_counted<T>(
    w: World<T>,
    after: World<T>,
    me: int,
    extra: Map<u64, u64>,
    steps: Accesses,
    later: Accesses,
    c: Map<u64, u64>,
)
    requires
        launch_laws::sound(w.running),
        knowledge(w, steps),
        w.running.has_thread(me),
        w.running.clocks.seq[me] < u64::MAX,
        good(extra, w.running, w.running.clocks.seq, steps),
        at_most_one_more(w.running, w.running.clocks.seq, me, steps, later),
        later != steps ==> later.last().1 == c && later.last().0.warp
            == w.running.machine.shape.warp_of(me),
        ({
            let s = w.running.clocks;
            let counted = sync::observed(
                s.clock[me],
                key_at(w.running, me),
                (s.seq[me] + 1) as u64,
            );
            &&& c == counted || c == sync::joined(counted, extra)
            &&& after.running.clocks.seq == s.seq.update(me, (s.seq[me] + 1) as u64)
            &&& after.running.clocks.clock == s.clock.update(me, c)
            &&& after.running.clocks.fence_release == s.fence_release
            &&& after.running.clocks.block == s.block
            &&& after.running.clocks.fence_acquire == s.fence_acquire
                || after.running.clocks.fence_acquire == s.fence_acquire.update(
                me,
                sync::joined(s.fence_acquire[me], extra),
            )
        }),
        same_threads(w.running, after.running),
        after.running.id == w.running.id,
        forall|b: int|
            0 <= b < after.buffers.len() ==> (#[trigger] after.buffers[b]).memory.wf(),
        forall|b: int, i: int|
            is_element(after, b, i) ==> is_element(w, b, i) && (#[trigger] published_at(after, b, i)
                == published_at(w, b, i) || good(
                published_at(after, b, i),
                w.running,
                after.running.clocks.seq,
                later,
            )),
    ensures
        knowledge(after, later),
{
    let (r, n) = (w.running, after.running);
    let s = n.clocks;
    let old = r.clocks;
    lemma_good_own(old, r, me, extra, steps, later, c);
    assert forall|t: int| 0 <= t < n.machine.shape.total() implies good(
        #[trigger] s.clock[t],
        n,
        s.seq,
        later,
    ) by {
        if t != me {
            assert(s.clock[t] == old.clock[t]);
            lemma_good_old(old.clock[t], r, old.seq, me, steps, later);
        }
        lemma_good_same(s.clock[t], r, n, s.seq, later);
    }
    assert forall|t: int| 0 <= t < n.machine.shape.total() implies good(
        #[trigger] s.fence_release[t],
        n,
        s.seq,
        later,
    ) by {
        lemma_good_old(old.fence_release[t], r, old.seq, me, steps, later);
        lemma_good_same(s.fence_release[t], r, n, s.seq, later);
    }
    assert forall|t: int| 0 <= t < n.machine.shape.total() implies good(
        #[trigger] s.fence_acquire[t],
        n,
        s.seq,
        later,
    ) by {
        lemma_good_old(old.fence_acquire[t], r, old.seq, me, steps, later);
        lemma_good_old(extra, r, old.seq, me, steps, later);
        lemma_good_join(old.fence_acquire[t], extra, r, s.seq, later);
        lemma_good_same(s.fence_acquire[t], r, n, s.seq, later);
    }
    assert forall|b: int| 0 <= b < s.block.len() implies good(
        #[trigger] s.block[b],
        n,
        s.seq,
        later,
    ) by {
        lemma_good_old(old.block[b], r, old.seq, me, steps, later);
        lemma_good_same(s.block[b], r, n, s.seq, later);
    }
    assert forall|t: int| n.has_thread(t) implies sync::seen(s.clock[t], #[trigger] key_at(n, t))
        >= s.seq[t] by {
        assert(key_at(n, t) == key_at(r, t));
        assert(r.has_thread(t));
    }
    assert forall|b: int, i: int| is_element(after, b, i) implies good(
        #[trigger] published_at(after, b, i),
        n,
        s.seq,
        later,
    ) by {
        if published_at(after, b, i) == published_at(w, b, i) {
            lemma_good_old(published_at(w, b, i), r, old.seq, me, steps, later);
        }
        lemma_good_same(published_at(after, b, i), r, n, s.seq, later);
    }
    lemma_steps_known_counted(r, old.seq, me, steps, later);
    lemma_steps_known_same(r, n, s.seq, later);
}

proof fn lemma_steps_known_counted(
    r: Running,
    seq: Seq<u64>,
    me: int,
    steps: Accesses,
    later: Accesses,
)
    requires
        launch_laws::sound(r),
        steps_known(r, seq, steps),
        r.has_thread(me),
        seq.len() == r.machine.shape.total(),
        seq[me] < u64::MAX,
        at_most_one_more(r, seq, me, steps, later),
        later != steps ==> later.last().0.warp == r.machine.shape.warp_of(me),
    ensures
        steps_known(r, seq.update(me, (seq[me] + 1) as u64), later),
{
    let next = seq.update(me, (seq[me] + 1) as u64);
    assert forall|i: int| 0 <= i < later.len() implies {
        let a = (#[trigger] later[i]).0;
        &&& a.seq >= 1
        &&& a.block < r.wave.first + r.wave.blocks
        &&& a.block >= r.wave.first ==> has_author(r, a)
        &&& forall|t: int|
            r.has_thread(t) && #[trigger] is_by(r, t, a) ==> a.seq <= next[t] && a.warp
                == r.machine.shape.warp_of(t)
    } by {
        let a = later[i].0;
        if i < steps.len() {
            assert(later[i] == steps[i]);
        } else {
            lemma_threads_differ(r, me, me);
            assert(is_by(r, me, a));
            assert forall|t: int| r.has_thread(t) && #[trigger] is_by(r, t, a) implies a.seq
                <= next[t] && a.warp == r.machine.shape.warp_of(t) by {
                lemma_threads_differ(r, t, me);
            }
        }
    }
}

/// Knowledge goes on through an operation on one element.
proof fn lemma_knowledge_accessed<T>(
    w: World<T>,
    me: int,
    act: Act<T>,
    e: Element,
    steps: Accesses,
)
    requires
        launch_laws::sound(w.running),
        knowledge(w, steps),
        w.running.has_thread(me),
        w.running.clocks.seq[me] < u64::MAX,
        act is Access,
    ensures
        knowledge(
            launch_laws::acted(w, me, act),
            launch_races::followed_by(w, me, act, e, steps),
        ),
{
    let r = w.running;
    let s = r.clocks;
    let after = launch_laws::acted(w, me, act);
    let later = launch_races::followed_by(w, me, act, e, steps);
    launch_laws::lemma_after_sound(w, me, act);
    launch_laws::lemma_acts_are_operations(w, me, act);
    geometry::every_thread_has_a_lane(r.machine.shape, me);
    if let Act::Access { buffer, index, req, stored } = act {
        if !(0 <= buffer < w.buffers.len()) {
            lemma_knowledge_untouched(w, after, steps);
        } else {
            let m = launch_laws::opened(w.buffers[buffer], r.id);
            let k = key_at(r, me);
            let counted = sync::observed(s.clock[me], k, (s.seq[me] + 1) as u64);
            assert(w.buffers[buffer].memory.wf());
            if index >= m.data.len() {
                lemma_good_nothing(w, steps);
                assert forall|b: int, i: int| is_element(after, b, i) implies is_element(w, b, i)
                    && (#[trigger] published_at(after, b, i) == published_at(w, b, i) || good(
                    published_at(after, b, i),
                    r,
                    after.running.clocks.seq,
                    steps,
                )) by {}
                lemma_knowledge_counted(w, after, me, Map::empty(), steps, steps, counted);
            } else {
                let i0 = index as int;
                let h = m.shadow[i0];
                assert(is_element(w, buffer, i0));
                assert(h.published == published_at(w, buffer, i0));
                let synced = mem::after_acquire(state::counted(r, me), me, h, req).clocks;
                let c = synced.clock[me];
                lemma_access_clock(r, me, h, req);
                if later != steps {
                    assert(later.drop_last() =~= steps);
                    assert(is_by(r, me, later.last().0));
                }
                let seq = s.seq.update(me, (s.seq[me] + 1) as u64);
                lemma_good_own(s, r, me, h.published, steps, later, c);
                lemma_good_old(h.published, r, s.seq, me, steps, later);
                lemma_good_old(s.fence_release[me], r, s.seq, me, steps, later);
                lemma_good_join(h.published, c, r, seq, later);
                lemma_good_join(h.published, s.fence_release[me], r, seq, later);
                lemma_good_join(
                    sync::joined(h.published, c),
                    s.fence_release[me],
                    r,
                    seq,
                    later,
                );
                assert forall|b: int, i: int| is_element(after, b, i) implies is_element(w, b, i)
                    && (#[trigger] published_at(after, b, i) == published_at(w, b, i) || good(
                    published_at(after, b, i),
                    r,
                    after.running.clocks.seq,
                    later,
                )) by {}
                lemma_knowledge_counted(w, after, me, h.published, steps, later, c);
            }
        }
    }
}

/// What a thread knows and has put aside once it counted an access and took on
/// what the element published.
proof fn lemma_access_clock(r: Running, me: int, h: shadow::History, req: Request)
    requires
        r.clocks.wf(),
        0 <= me < r.clocks.seq.len(),
    ensures
        ({
            let s = r.clocks;
            let synced = mem::after_acquire(state::counted(r, me), me, h, req).clocks;
            let counted = sync::observed(s.clock[me], key_at(r, me), (s.seq[me] + 1) as u64);
            let c = synced.clock[me];
            &&& c == counted || c == sync::joined(counted, h.published)
            &&& synced.seq == s.seq.update(me, (s.seq[me] + 1) as u64)
            &&& synced.clock == s.clock.update(me, c)
            &&& synced.fence_release == s.fence_release
            &&& synced.block == s.block
            &&& synced.fence_acquire == s.fence_acquire || synced.fence_acquire
                == s.fence_acquire.update(me, sync::joined(s.fence_acquire[me], h.published))
        }),
{
    let s = r.clocks;
    let synced = mem::after_acquire(state::counted(r, me), me, h, req).clocks;
    assert(synced.clock =~= s.clock.update(me, synced.clock[me]));
}

proof fn lemma_good_nothing<T>(w: World<T>, steps: Accesses)
    requires
        knowledge(w, steps),
    ensures
        good(Map::empty(), w.running, w.running.clocks.seq, steps),
{
    lemma_good_empty(w.running, w.running.clocks.seq, steps);
}

/// Knowledge goes on through every operation within a wave.
proof fn lemma_knowledge_acted<T>(
    w: World<T>,
    me: int,
    act: Act<T>,
    e: Element,
    steps: Accesses,
)
    requires
        launch_laws::sound(w.running),
        knowledge(w, steps),
        w.running.has_thread(me),
        w.running.clocks.seq[me] < u64::MAX,
    ensures
        knowledge(
            launch_laws::acted(w, me, act),
            launch_races::followed_by(w, me, act, e, steps),
        ),
{
    let r = w.running;
    let s = r.clocks;
    let after = launch_laws::acted(w, me, act);
    let lb = r.machine.shape.block_of(me);
    launch_laws::lemma_after_sound(w, me, act);
    launch_laws::lemma_acts_are_operations(w, me, act);
    geometry::every_thread_has_a_lane(r.machine.shape, me);
    match act {
        Act::Access { .. } => lemma_knowledge_accessed(w, me, act, e, steps),
        Act::Miss { buffer } => {
            if 0 <= buffer < w.buffers.len() {
                assert(w.buffers[buffer].memory.wf());
                lemma_good_nothing(w, steps);
                let counted = sync::observed(
                    s.clock[me],
                    key_at(r, me),
                    (s.seq[me] + 1) as u64,
                );
                assert forall|b: int, i: int| is_element(after, b, i) implies is_element(w, b, i)
                    && (#[trigger] published_at(after, b, i) == published_at(w, b, i) || good(
                    published_at(after, b, i),
                    r,
                    after.running.clocks.seq,
                    steps,
                )) by {}
                lemma_knowledge_counted(w, after, me, Map::empty(), steps, steps, counted);
            } else {
                lemma_knowledge_untouched(w, after, steps);
            }
        },
        Act::Barrier(_) => {
            let met = sync::joined(s.block[lb], s.clock[me]);
            lemma_good_join(s.block[lb], s.clock[me], r, s.seq, steps);
            assert forall|t: int| r.has_thread(t) implies good(
                #[trigger] after.running.clocks.clock[t],
                r,
                s.seq,
                steps,
            ) && sync::knows(after.running.clocks.clock[t], s.clock[t]) by {
                lemma_good_join(s.clock[t], met, r, s.seq, steps);
            }
            lemma_same_memory(w, after, steps);
            lemma_knowledge_goes_on(w, after, steps);
        },
        Act::Fence(_) => {
            lemma_good_join(s.clock[me], s.fence_acquire[me], r, s.seq, steps);
            lemma_good_nothing(w, steps);
            lemma_same_memory(w, after, steps);
            lemma_knowledge_goes_on(w, after, steps);
        },
        Act::Fill { buffer, index, value } => {
            if launch_races::exists_in(w, Element { buffer, index }) {
                assert(w.buffers[buffer].memory.wf());
            }
            assert forall|b: int, i: int| is_element(after, b, i) implies good(
                #[trigger] published_at(after, b, i),
                r,
                s.seq,
                steps,
            ) by {
                assert(is_element(w, b, i));
                assert(published_at(after, b, i) == published_at(w, b, i));
            }
            lemma_knowledge_goes_on(w, after, steps);
        },
        Act::Share { .. } => {
            lemma_good_nothing(w, steps);
            assert forall|b: int, i: int| is_element(after, b, i) implies good(
                #[trigger] published_at(after, b, i),
                r,
                s.seq,
                steps,
            ) by {
                if b < w.buffers.len() {
                    assert(is_element(w, b, i));
                    assert(published_at(after, b, i) == published_at(w, b, i));
                }
            }
            lemma_knowledge_goes_on(w, after, steps);
        },
        _ => lemma_knowledge_untouched(w, after, steps),
    }
}

proof fn lemma_same_memory<T>(w: World<T>, after: World<T>, steps: Accesses)
    requires
        knowledge(w, steps),
        after.running.id == w.running.id,
        after.buffers == w.buffers,
    ensures
        forall|b: int, i: int|
            is_element(after, b, i) ==> good(
                #[trigger] published_at(after, b, i),
                w.running,
                w.running.clocks.seq,
                steps,
            ),
{
    assert forall|b: int, i: int| is_element(after, b, i) implies good(
        #[trigger] published_at(after, b, i),
        w.running,
        w.running.clocks.seq,
        steps,
    ) by {
        assert(is_element(w, b, i));
        assert(published_at(after, b, i) == published_at(w, b, i));
    }
}

/// Knowledge goes on into the next wave, whose threads know nothing yet.
proof fn lemma_knowledge_moves_on<T>(w: World<T>, steps: Accesses)
    requires
        launch_laws::sound(w.running),
        knowledge(w, steps),
        state::has_more_waves(w.running),
        launch_laws::sound(state::next_wave(w.running)),
    ensures
        knowledge(World { running: state::next_wave(w.running), ..w }, steps),
{
    let r = w.running;
    let n = state::next_wave(r);
    let after = World { running: n, ..w };
    let s = n.clocks;
    assert(n.wave.first == r.wave.first + r.wave.blocks);
    lemma_good_empty(n, s.seq, steps);
    assert forall|b: int, i: int| is_element(after, b, i) implies good(
        #[trigger] published_at(after, b, i),
        n,
        s.seq,
        steps,
    ) by {
        let c = published_at(w, b, i);
        assert(is_element(w, b, i));
        assert(published_at(after, b, i) == c);
        assert forall|t: int| n.has_thread(t) implies sync::seen(c, #[trigger] key_at(n, t))
            <= s.seq[t] by {
            lemma_threads_differ(n, t, t);
            assert(sync::seen(c, sync::key_of(n.thread(t).block, n.thread(t).thread)) == 0);
        }
    }
    assert forall|i: int| 0 <= i < steps.len() implies {
        let a = (#[trigger] steps[i]).0;
        &&& a.seq >= 1
        &&& a.block < n.wave.first + n.wave.blocks
        &&& a.block >= n.wave.first ==> has_author(n, a)
        &&& forall|t: int|
            n.has_thread(t) && #[trigger] is_by(n, t, a) ==> a.seq <= s.seq[t] && a.warp
                == n.machine.shape.warp_of(t)
    } by {
        let a = steps[i].0;
        assert forall|t: int| n.has_thread(t) && #[trigger] is_by(n, t, a) implies a.seq
            <= s.seq[t] && a.warp == n.machine.shape.warp_of(t) by {
            lemma_threads_differ(n, t, t);
        }
    }
    assert forall|t: int| 0 <= t < n.machine.shape.total() implies good(
        #[trigger] s.clock[t],
        n,
        s.seq,
        steps,
    ) by {
        assert(s.clock[t] == Map::<u64, u64>::empty());
    }
}

/// Knowledge goes on through every operation.
proof fn lemma_knowledge_after<T>(
    w: World<T>,
    me: int,
    act: Act<T>,
    e: Element,
    steps: Accesses,
)
    requires
        launch_laws::sound(w.running),
        knowledge(w, steps),
        w.running.has_thread(me),
        w.running.clocks.seq[me] < u64::MAX,
    ensures
        knowledge(
            launch_laws::after(w, me, act),
            launch_races::followed_by(w, me, act, e, steps),
        ),
{
    let next = launch_laws::acted(w, me, act);
    launch_laws::lemma_after_sound(w, me, act);
    lemma_knowledge_acted(w, me, act, e, steps);
    if next.running.machine.current is None && state::has_more_waves(next.running) {
        lemma_knowledge_moves_on(next, launch_races::followed_by(w, me, act, e, steps));
    }
}

// -------------------------------------------------------- what is driven ---

/// Whether `acts` can be what a launch does from `w` on: each operation is made
/// by the thread that holds the turn, while the launch is not over and its
/// counters are not full.
pub open spec fn is_driven<T>(w: World<T>, acts: Seq<(int, Act<T>)>) -> bool
    decreases acts.len(),
{
    acts.len() == 0 || {
        let before = acts.drop_last();
        let r = launch_laws::played(w, before).running;
        let me = acts.last().0;
        &&& is_driven(w, before)
        &&& !launch_laws::is_over(r)
        &&& r.machine.current matches Some(c) && c == me
        &&& r.has_room(me)
    }
}

// --------------------------------------------------------------- epochs ---

/// Whether an access was made in the block of thread `t`.
spec fn in_block(r: Running, t: int, a: Access) -> bool {
    a.block == r.thread(t).block
}

/// The barrier epoch of the block of thread `t`.
spec fn epoch_of(r: Running, t: int) -> u64 {
    r.machine.barrier_gen[r.machine.shape.block_of(t)]
}

/// The collective epoch of the warp of thread `t`.
spec fn warp_epoch_of(r: Running, t: int) -> u64 {
    let sh = r.machine.shape;
    r.machine.warp_gen[sh.warp_index(sh.block_of(t), sh.warp_of(t))]
}

/// What the block of thread `t` knows.
spec fn block_clock(r: Running, t: int) -> Map<u64, u64> {
    r.clocks.block[r.machine.shape.block_of(t)]
}

/// What epochs say of an access, seen from thread `t` of its block.
spec fn epochs_fit(r: Running, t: int, a: Access) -> bool {
    &&& a.epoch <= epoch_of(r, t)
    &&& a.warp == r.machine.shape.warp_of(t) ==> a.warp_epoch <= warp_epoch_of(r, t)
    &&& a.epoch < epoch_of(r, t) ==> shadow::has_seen(r.clocks.clock[t], a)
}

/// What epochs say of the accesses, and barriers of the threads.
spec fn epochs(r: Running, steps: Accesses) -> bool {
    &&& forall|t: int, i: int|
        #![trigger in_block(r, t, steps[i].0)]
        r.has_thread(t) && 0 <= i < steps.len() && in_block(r, t, steps[i].0) ==> epochs_fit(
            r,
            t,
            steps[i].0,
        )
    &&& forall|t: int|
        r.has_thread(t) && (#[trigger] r.machine.status[t]) is AtBarrier ==> sync::knows(
            block_clock(r, t),
            r.clocks.clock[t],
        )
    &&& !r.machine.aborted ==> (r.machine.current matches Some(c) ==> r.machine.status[
        c as int] is Runnable)
}

/// Whether the barrier that thread `me` enters lets its block go.
spec fn lets_go(m: Machine, me: int, op: Option<Op>) -> bool {
    match op {
        Some(Op::Barrier(loc)) => {
            let here = machine::arrived_at_barrier(m, me, loc);
            let block = m.shape.block_of(me);
            &&& !machine::any_in_block(here, block, Status::Finished)
            &&& machine::all_in_block(here, block, Status::AtBarrier)
        },
        _ => false,
    }
}

/// Whether a thread is on its way out of a collective.
spec fn leaves_collective(op: Option<Op>) -> bool {
    match op {
        Some(Op::Rendezvous(wait)) => wait.phase == machine::PHASE_DEPART,
        _ => false,
    }
}

/// The turn a handoff gives is one a runnable thread gets.
proof fn lemma_handoff_turn(m: Machine)
    requires
        m.status.len() <= usize::MAX,
    ensures
        machine::picked(m).current matches Some(c) ==> m.status[c as int] is Runnable,
{
    schedule_laws::turn_goes_to_a_runnable_thread(m);
}

/// What an operation does to epochs and to who waits at barriers.
proof fn lemma_machine_effect(m: Machine, me: int, op: Option<Op>)
    requires
        m.wf(),
        0 <= me < m.shape.total(),
        m.status[me] is Runnable,
        !m.aborted,
        m.current matches Some(c) && c == me,
        sched::epochs_have_room(m, me),
    ensures
        ({
            let n = launch_laws::machine_after(m, me, op);
            let block = m.shape.block_of(me);
            &&& n.status.len() == m.status.len()
            &&& forall|t: int|
                0 <= t < m.status.len() && (#[trigger] n.status[t]) is AtBarrier ==> {
                    &&& t == me ==> (op matches Some(o) && o is Barrier)
                    &&& t != me ==> m.status[t] is AtBarrier
                    &&& lets_go(m, me, op) ==> m.shape.block_of(t) != block
                }
            &&& n.barrier_gen == if lets_go(m, me, op) {
                m.barrier_gen.update(block, (m.barrier_gen[block] + 1) as u64)
            } else {
                m.barrier_gen
            }
            &&& lets_go(m, me, op) ==> forall|t: int|
                0 <= t < m.status.len() && m.shape.block_of(t) == block && t != me ==> (
                #[trigger] m.status[t]) is AtBarrier
            &&& n.warp_gen.len() == m.warp_gen.len()
            &&& !leaves_collective(op) ==> n.warp_gen == m.warp_gen
            &&& forall|k: int|
                0 <= k < m.warp_gen.len() ==> #[trigger] n.warp_gen[k] >= m.warp_gen[k]
            &&& !n.aborted ==> (n.current matches Some(c) ==> n.status[c as int] is Runnable)
        }),
{
    let sh = m.shape;
    let block = sh.block_of(me);
    let warp = sh.warp_of(me);
    geometry::every_thread_has_a_lane(sh, me);
    geometry::lemma_warp_index(sh, block, warp);
    geometry::lemma_block_in_launch(sh, block);
    if let Some(o) = op {
        match o {
            Op::Yield => lemma_handoff_turn(m),
            Op::Barrier(loc) => {
                let here = machine::arrived_at_barrier(m, me, loc);
                let free = machine::barrier_released(here, block);
                lemma_handoff_turn(here);
                lemma_handoff_turn(free);
                assert forall|t: int|
                    0 <= t < m.status.len() && sh.block_of(t) == block implies sh.block_base(
                    block,
                ) <= t < sh.block_base(block) + sh.threads by {
                    geometry::every_thread_has_a_lane(sh, t);
                }
                assert forall|t: int|
                    sh.block_base(block) <= t < sh.block_base(block) + sh.threads implies (
                #[trigger] sh.block_of(t)) == block by {
                    geometry::lemma_block_of_range(sh, block, t);
                }
                if lets_go(m, me, op) {
                    assert forall|t: int|
                        0 <= t < m.status.len() && sh.block_of(t) == block && t != me implies (
                    #[trigger] m.status[t]) is AtBarrier by {
                        assert(here.status[t] == Status::AtBarrier);
                    }
                }
            },
            Op::Rendezvous(wait) => {
                let here = machine::parked(m, me, wait);
                let free = machine::collective_released(here, block, warp, wait);
                lemma_handoff_turn(here);
                lemma_handoff_turn(free);
            },
            Op::Finish => lemma_handoff_turn(machine::left(m, me)),
            Op::Abort => {},
        }
    }
}

/// What an operation does to what threads and blocks know: nobody forgets, and
/// only the acting thread learns, unless a barrier lets its block go.
proof fn lemma_clock_effect<T>(w: World<T>, me: int, act: Act<T>)
    requires
        launch_laws::sound(w.running),
        w.running.has_thread(me),
        w.running.has_room(me),
        w.running.clocks.wf(),
        w.running.clocks.seq.len() == w.running.machine.shape.total(),
        w.running.clocks.block.len() == w.running.machine.shape.blocks,
    ensures
        ({
            let r = w.running;
            let n = launch_laws::acted(w, me, act).running;
            let lb = r.machine.shape.block_of(me);
            let met = sync::joined(r.clocks.block[lb], r.clocks.clock[me]);
            let free = n.machine.barrier_gen[lb] != r.machine.barrier_gen[lb];
            &&& free ==> act is Barrier
            &&& forall|t: int|
                r.has_thread(t) ==> sync::knows(
                    #[trigger] n.clocks.clock[t],
                    r.clocks.clock[t],
                )
            &&& forall|t: int|
                r.has_thread(t) && (t != me || act is Barrier) ==> #[trigger] n.clocks.clock[t]
                    == if free && r.machine.shape.block_of(t) == lb {
                    sync::joined(r.clocks.clock[t], met)
                } else {
                    r.clocks.clock[t]
                }
            &&& n.clocks.block == if act is Barrier {
                r.clocks.block.update(lb, met)
            } else {
                r.clocks.block
            }
        }),
{
    let r = w.running;
    let sh = r.machine.shape;
    let lb = sh.block_of(me);
    let n = launch_laws::acted(w, me, act).running;
    geometry::every_thread_has_a_lane(sh, me);
    sync::threads_never_forget(
        r.clocks,
        me,
        lb,
        key_at(r, me),
        Map::empty(),
        sync::AtomicOrdering::Relaxed,
    );
    launch_laws::lemma_acts_are_operations(w, me, act);
    match act {
        Act::Access { buffer, index, req, .. } => {
            if 0 <= buffer < w.buffers.len() {
                let h = launch_laws::opened(w.buffers[buffer], r.id).shadow[index as int];
                lemma_access_clock(r, me, h, req);
            }
        },
        Act::Barrier(_) => {
            assert forall|t: int| r.has_thread(t) implies (sh.block_base(lb) <= t < sh.block_base(
                lb,
            ) + sh.threads <==> #[trigger] sh.block_of(t) == lb) by {
                geometry::every_thread_has_a_lane(sh, t);
                if sh.block_base(lb) <= t < sh.block_base(lb) + sh.threads {
                    geometry::lemma_block_of_range(sh, lb, t);
                }
            }
        },
        _ => {},
    }
}

proof fn lemma_epochs_acted<T>(w: World<T>, me: int, act: Act<T>, e: Element, steps: Accesses)
    requires
        launch_laws::sound(w.running),
        knowledge(w, steps),
        epochs(w.running, steps),
        !launch_laws::is_over(w.running),
        w.running.machine.current matches Some(c) && c == me,
        w.running.has_room(me),
    ensures
        epochs(
            launch_laws::acted(w, me, act).running,
            launch_races::followed_by(w, me, act, e, steps),
        ),
{
    let r = w.running;
    let m = r.machine;
    let sh = m.shape;
    let n = launch_laws::acted(w, me, act).running;
    let later = launch_races::followed_by(w, me, act, e, steps);
    let op = launch_laws::op_of(w, me, act);
    let lb = sh.block_of(me);
    launch_laws::lemma_after_sound(w, me, act);
    launch_laws::lemma_acts_are_operations(w, me, act);
    lemma_machine_effect(m, me, op);
    lemma_clock_effect(w, me, act);
    geometry::every_thread_has_a_lane(sh, me);
    assert(same_threads(r, n));
    assert((op matches Some(o) && o is Barrier) ==> act is Barrier);
    assert forall|t: int, i: int|
        #![trigger in_block(n, t, later[i].0)]
        n.has_thread(t) && 0 <= i < later.len() && in_block(n, t, later[i].0) implies epochs_fit(
        n,
        t,
        later[i].0,
    ) by {
        let a = later[i].0;
        let tb = sh.block_of(t);
        let tw = sh.warp_of(t);
        lemma_threads_differ(r, t, me);
        lemma_threads_differ(r, me, t);
        geometry::every_thread_has_a_lane(sh, t);
        geometry::lemma_warp_index(sh, tb, tw);
        if i < steps.len() {
            assert(later[i] == steps[i]);
            assert(in_block(r, t, steps[i].0));
            assert(epochs_fit(r, t, a));
            let k = sync::key_of(a.block, a.thread);
            assert(sync::knows(n.clocks.clock[t], r.clocks.clock[t]));
            assert(sync::seen(r.clocks.clock[t], k) <= sync::seen(n.clocks.clock[t], k));
            if lets_go(m, me, op) && tb == lb {
                lemma_block_saw(w, me, act, steps, i);
                let met = sync::joined(r.clocks.block[lb], r.clocks.clock[me]);
                assert(n.clocks.clock[t] == sync::joined(r.clocks.clock[t], met));
                assert(sync::seen(met, k) <= sync::seen(n.clocks.clock[t], k));
            }
        } else {
            assert(tb == lb);
        }
    }
    assert forall|t: int|
        n.has_thread(t) && (#[trigger] n.machine.status[t]) is AtBarrier implies sync::knows(
        block_clock(n, t),
        n.clocks.clock[t],
    ) by {
        let tb = sh.block_of(t);
        geometry::every_thread_has_a_lane(sh, t);
        assert(n.clocks.clock[t] == r.clocks.clock[t]);
        if t != me {
            assert(m.status[t] is AtBarrier);
            assert(sync::knows(block_clock(r, t), r.clocks.clock[t]));
            assert forall|k: u64| #[trigger] sync::seen(n.clocks.clock[t], k) <= sync::seen(
                n.clocks.block[tb],
                k,
            ) by {
                assert(sync::seen(r.clocks.clock[t], k) <= sync::seen(r.clocks.block[tb], k));
            }
        }
    }
}

/// Once a barrier lets its block go, the block knows of every access its
/// threads made.
proof fn lemma_block_saw<T>(w: World<T>, me: int, act: Act<T>, steps: Accesses, i: int)
    requires
        launch_laws::sound(w.running),
        knowledge(w, steps),
        epochs(w.running, steps),
        !launch_laws::is_over(w.running),
        w.running.machine.current matches Some(c) && c == me,
        w.running.has_room(me),
        lets_go(w.running.machine, me, launch_laws::op_of(w, me, act)),
        0 <= i < steps.len(),
        in_block(w.running, me, steps[i].0),
    ensures
        ({
            let s = w.running.clocks;
            let lb = w.running.machine.shape.block_of(me);
            shadow::has_seen(sync::joined(s.block[lb], s.clock[me]), steps[i].0)
        }),
{
    let r = w.running;
    let a = steps[i].0;
    let lb = r.machine.shape.block_of(me);
    let k = sync::key_of(a.block, a.thread);
    lemma_threads_differ(r, me, me);
    lemma_machine_effect(r.machine, me, launch_laws::op_of(w, me, act));
    geometry::every_thread_has_a_lane(r.machine.shape, me);
    assert(has_author(r, a));
    let t = choose|t: int| r.has_thread(t) && #[trigger] is_by(r, t, a);
    lemma_threads_differ(r, t, me);
    assert(r.machine.shape.block_of(t) == lb);
    assert(sync::seen(r.clocks.clock[t], key_at(r, t)) >= r.clocks.seq[t]);
    assert(shadow::has_seen(r.clocks.clock[t], a));
    if t != me {
        assert(r.machine.status[t] is AtBarrier);
        assert(sync::knows(block_clock(r, t), r.clocks.clock[t]));
        assert(sync::seen(r.clocks.clock[t], k) <= sync::seen(r.clocks.block[lb], k));
    }
}

/// A new access fits what came before it.
proof fn lemma_new_access_fits<T>(
    w: World<T>,
    me: int,
    act: Act<T>,
    e: Element,
    steps: Accesses,
)
    requires
        launch_laws::sound(w.running),
        knowledge(w, steps),
        epochs(w.running, steps),
        race_laws::all_fit(steps),
        w.running.has_thread(me),
        w.running.has_room(me),
    ensures
        race_laws::all_fit(launch_races::followed_by(w, me, act, e, steps)),
{
    let r = w.running;
    let later = launch_races::followed_by(w, me, act, e, steps);
    if later != steps {
        let (b, c) = later.last();
        let h = launch_races::history_of(w, e);
        lemma_knowledge_acted(w, me, act, e, steps);
        lemma_clock_effect(w, me, act);
        launch_laws::lemma_after_sound(w, me, act);
        lemma_threads_differ(r, me, me);
        geometry::every_thread_has_a_lane(r.machine.shape, me);
        let n = launch_laws::acted(w, me, act).running;
        assert(n.clocks.clock[me] == c);
        assert(good(n.clocks.clock[me], n, n.clocks.seq, later));
        assert forall|i: int, j: int| 0 <= i < j < later.len() implies #[trigger] race_laws::fits(
            later,
            i,
            j,
        ) by {
            assert(later[i] == steps[i]);
            if j < steps.len() {
                assert(later[j] == steps[j]);
                assert(race_laws::fits(steps, i, j));
            } else {
                let a = steps[i].0;
                let k = sync::key_of(a.block, a.thread);
                assert(sync::knows(n.clocks.clock[me], r.clocks.clock[me]));
                assert(sync::seen(r.clocks.clock[me], k) <= sync::seen(c, k));
                if shadow::same_thread(a, b) {
                    assert(is_by(r, me, a));
                    assert(sync::seen(r.clocks.clock[me], key_at(r, me)) >= r.clocks.seq[me]);
                }
                if a.block == b.block {
                    assert(in_block(r, me, steps[i].0));
                    assert(epochs_fit(r, me, a));
                }
            }
        }
    }
}

// ------------------------------------------------------------- launches ---

/// What holds of a launch in the middle.
spec fn in_shape<T>(w: World<T>, steps: Accesses) -> bool {
    &&& launch_laws::sound(w.running)
    &&& knowledge(w, steps)
    &&& epochs(w.running, steps)
    &&& race_laws::all_fit(steps)
}

proof fn lemma_starts_in_shape<T>(
    id: u64,
    config: LaunchConfig,
    source: Source,
    buffers: Seq<Buffer<T>>,
)
    requires
        launch::config_problem(config) is None,
        launch_races::starts_afresh(launch_laws::start(id, config, source, buffers)),
    ensures
        in_shape(launch_laws::start(id, config, source, buffers), Seq::empty()),
{
    let w = launch_laws::start(id, config, source, buffers);
    let r = w.running;
    let none: Accesses = Seq::empty();
    launch_laws::lemma_start_sound(id, config, source);
    lemma_good_empty(r, r.clocks.seq, none);
    assert forall|b: int| 0 <= b < w.buffers.len() implies (
    #[trigger] w.buffers[b]).memory.wf() by {
        assert(launch_races::is_blank(w.buffers[b], r.id));
    }
    assert forall|b: int, i: int| is_element(w, b, i) implies good(
        #[trigger] published_at(w, b, i),
        r,
        r.clocks.seq,
        none,
    ) by {
        assert(launch_races::is_blank(w.buffers[b], r.id));
        let shadow = launch_laws::opened(w.buffers[b], r.id).shadow;
        assert(shadow[i].published == Map::<u64, u64>::empty());
    }
    lemma_handoff_turn(
        machine::resumed(r.machine.shape, r.wave.first, source, Seq::empty(), true),
    );
}

proof fn lemma_stays_in_shape<T>(w: World<T>, me: int, act: Act<T>, e: Element, steps: Accesses)
    requires
        in_shape(w, steps),
        !launch_laws::is_over(w.running),
        w.running.machine.current matches Some(c) && c == me,
        w.running.has_room(me),
    ensures
        in_shape(
            launch_laws::after(w, me, act),
            launch_races::followed_by(w, me, act, e, steps),
        ),
{
    let later = launch_races::followed_by(w, me, act, e, steps);
    let next = launch_laws::acted(w, me, act);
    launch_laws::lemma_after_sound(w, me, act);
    lemma_knowledge_after(w, me, act, e, steps);
    lemma_epochs_acted(w, me, act, e, steps);
    lemma_new_access_fits(w, me, act, e, steps);
    let r = next.running;
    if r.machine.current is None && state::has_more_waves(r) {
        let n = state::next_wave(r);
        lemma_knowledge_acted(w, me, act, e, steps);
        lemma_handoff_turn(
            machine::resumed(
                n.machine.shape,
                n.wave.first,
                r.machine.source,
                r.machine.trace,
                r.machine.trace_complete,
            ),
        );
        assert forall|t: int, i: int|
            #![trigger in_block(n, t, later[i].0)]
            n.has_thread(t) && 0 <= i < later.len() && in_block(
                n,
                t,
                later[i].0,
            ) implies epochs_fit(n, t, later[i].0) by {
            lemma_threads_differ(n, t, t);
            assert(later[i].0.block < r.wave.first + r.wave.blocks);
        }
    }
}

proof fn lemma_played_in_shape<T>(
    id: u64,
    config: LaunchConfig,
    source: Source,
    buffers: Seq<Buffer<T>>,
    acts: Seq<(int, Act<T>)>,
    e: Element,
)
    requires
        launch::config_problem(config) is None,
        launch_races::starts_afresh(launch_laws::start(id, config, source, buffers)),
        is_driven(launch_laws::start(id, config, source, buffers), acts),
    ensures
        ({
            let w = launch_laws::start(id, config, source, buffers);
            in_shape(launch_laws::played(w, acts), launch_races::accesses_to(w, acts, e))
        }),
    decreases acts.len(),
{
    let w = launch_laws::start(id, config, source, buffers);
    if acts.len() == 0 {
        lemma_starts_in_shape(id, config, source, buffers);
    } else {
        let before = acts.drop_last();
        lemma_played_in_shape(id, config, source, buffers, before, e);
        lemma_stays_in_shape(
            launch_laws::played(w, before),
            acts.last().0,
            acts.last().1,
            e,
            launch_races::accesses_to(w, before, e),
        );
    }
}

// ---------------------------------------------- handoffs and collectives ---

/// Whether no thread leaves a warp collective.
pub open spec fn without_collectives<T>(acts: Seq<(int, Act<T>)>) -> bool {
    forall|i: int| 0 <= i < acts.len() ==> !((#[trigger] acts[i]).1 is Depart)
}

/// Whether an operation neither releases nor acquires.
pub open spec fn hands_nothing_over<T>(act: Act<T>) -> bool {
    match act {
        Act::Fence(_) => false,
        Act::Access { req, .. } => match req.ordering {
            Some(o) => o == AtomicOrdering::Relaxed,
            None => true,
        },
        _ => true,
    }
}

/// Whether no release or acquire takes part.
pub open spec fn without_handoffs<T>(acts: Seq<(int, Act<T>)>) -> bool {
    forall|i: int| 0 <= i < acts.len() ==> hands_nothing_over((#[trigger] acts[i]).1)
}

/// Whether no collective was ever left.
spec fn no_collective<T>(w: World<T>, steps: Accesses) -> bool {
    let m = w.running.machine;
    &&& forall|k: int| 0 <= k < m.warp_gen.len() ==> #[trigger] m.warp_gen[k] == 0
    &&& forall|i: int| 0 <= i < steps.len() ==> (#[trigger] steps[i]).0.warp_epoch == 0
}

proof fn lemma_played_without_collectives<T>(
    id: u64,
    config: LaunchConfig,
    source: Source,
    buffers: Seq<Buffer<T>>,
    acts: Seq<(int, Act<T>)>,
    e: Element,
)
    requires
        launch::config_problem(config) is None,
        launch_races::starts_afresh(launch_laws::start(id, config, source, buffers)),
        is_driven(launch_laws::start(id, config, source, buffers), acts),
        without_collectives(acts),
    ensures
        ({
            let w = launch_laws::start(id, config, source, buffers);
            no_collective(launch_laws::played(w, acts), launch_races::accesses_to(w, acts, e))
        }),
    decreases acts.len(),
{
    let w = launch_laws::start(id, config, source, buffers);
    if acts.len() > 0 {
        let before = acts.drop_last();
        let (me, act) = acts.last();
        assert forall|i: int| 0 <= i < before.len() implies !((#[trigger] before[i]).1 is Depart) by {
            assert(before[i] == acts[i]);
        }
        assert(!(acts[acts.len() - 1].1 is Depart));
        lemma_played_without_collectives(id, config, source, buffers, before, e);
        lemma_played_in_shape(id, config, source, buffers, before, e);
        let now = launch_laws::played(w, before);
        let op = launch_laws::op_of(now, me, act);
        launch_laws::lemma_acts_are_operations(now, me, act);
        lemma_machine_effect(now.running.machine, me, op);
        let sh = now.running.machine.shape;
        geometry::every_thread_has_a_lane(sh, me);
        geometry::lemma_warp_index(sh, sh.block_of(me), sh.warp_of(me));
        let steps = launch_races::accesses_to(w, before, e);
        let later = launch_races::followed_by(now, me, act, e, steps);
        assert forall|i: int| 0 <= i < later.len() implies (
        #[trigger] later[i]).0.warp_epoch == 0 by {
            if i < steps.len() {
                assert(later[i] == steps[i]);
            }
        }
    }
}

/// Whether a clock has seen nothing at all.
spec fn is_silent(c: Map<u64, u64>) -> bool {
    forall|k: u64| #[trigger] sync::seen(c, k) == 0
}

proof fn lemma_silent_join(a: Map<u64, u64>, b: Map<u64, u64>)
    requires
        is_silent(b),
    ensures
        forall|k: u64| #[trigger] sync::seen(sync::joined(a, b), k) == sync::seen(a, k),
{
    assert forall|k: u64| #[trigger] sync::seen(sync::joined(a, b), k) == sync::seen(a, k) by {
        assert(sync::seen(b, k) == 0);
    }
}

/// Whether nothing was released and nothing acquired.
spec fn nothing_published<T>(w: World<T>) -> bool {
    let s = w.running.clocks;
    &&& forall|t: int| 0 <= t < s.fence_release.len() ==> is_silent(#[trigger] s.fence_release[t])
    &&& forall|t: int| 0 <= t < s.fence_acquire.len() ==> is_silent(#[trigger] s.fence_acquire[t])
    &&& forall|b: int, i: int| is_element(w, b, i) ==> is_silent(#[trigger] published_at(w, b, i))
}

/// What threads and blocks can have seen of an access where nothing is handed
/// over: their own work, and what a barrier came after.
spec fn seen_by_barriers(r: Running, t: int, a: Access) -> bool {
    &&& shadow::has_seen(r.clocks.clock[t], a) ==> is_by(r, t, a) || (in_block(r, t, a) && a.epoch
        < epoch_of(r, t))
    &&& shadow::has_seen(block_clock(r, t), a) ==> in_block(r, t, a)
}

spec fn all_seen_by_barriers(r: Running, steps: Accesses) -> bool {
    forall|t: int, i: int|
        #![trigger in_block(r, t, steps[i].0)]
        r.has_thread(t) && 0 <= i < steps.len() ==> seen_by_barriers(r, t, steps[i].0)
}

/// Whether no access is ordered before another by a handoff alone.
pub open spec fn nothing_is_handed_over(steps: Accesses) -> bool {
    forall|i: int, j: int|
        0 <= i < j < steps.len() ==> !#[trigger] race_laws::handed_over(steps, i, j)
}

spec fn no_handoff<T>(w: World<T>, steps: Accesses) -> bool {
    &&& nothing_published(w)
    &&& all_seen_by_barriers(w.running, steps)
    &&& nothing_is_handed_over(steps)
}

/// An operation that hands nothing over publishes nothing.
proof fn lemma_nothing_published<T>(w: World<T>, me: int, act: Act<T>)
    requires
        launch_laws::sound(w.running),
        w.running.has_thread(me),
        w.running.clocks.wf(),
        w.running.clocks.seq.len() == w.running.machine.shape.total(),
        forall|b: int| 0 <= b < w.buffers.len() ==> (#[trigger] w.buffers[b]).memory.wf(),
        nothing_published(w),
        hands_nothing_over(act),
    ensures
        nothing_published(launch_laws::acted(w, me, act)),
{
    let r = w.running;
    let s = r.clocks;
    let after = launch_laws::acted(w, me, act);
    let n = after.running.clocks;
    assert(is_silent(Map::<u64, u64>::empty()));
    if let Act::Access { buffer, index, req, .. } = act {
        if 0 <= buffer < w.buffers.len() {
            let m = launch_laws::opened(w.buffers[buffer], r.id);
            assert(w.buffers[buffer].memory.wf());
            if index < m.data.len() {
                assert(is_element(w, buffer, index as int));
                let h = m.shadow[index as int];
                assert(h.published == published_at(w, buffer, index as int));
                lemma_access_clock(r, me, h, req);
                lemma_silent_join(s.fence_acquire[me], h.published);
                lemma_silent_join(h.published, s.fence_release[me]);
            }
        }
    }
    assert forall|b: int, i: int| is_element(after, b, i) implies is_silent(
        #[trigger] published_at(after, b, i),
    ) by {
        if b < w.buffers.len() {
            assert(w.buffers[b].memory.wf());
            assert(is_element(w, b, i));
            assert(is_silent(published_at(w, b, i)));
        }
    }
}

/// Of an access made before, threads go on seeing their own work and what
/// barriers came after, where nothing is handed over.
proof fn lemma_old_seen_by_barriers<T>(
    w: World<T>,
    me: int,
    act: Act<T>,
    steps: Accesses,
    t: int,
    i: int,
)
    requires
        in_shape(w, steps),
        no_handoff(w, steps),
        !launch_laws::is_over(w.running),
        w.running.machine.current matches Some(c) && c == me,
        w.running.has_room(me),
        hands_nothing_over(act),
        w.running.has_thread(t),
        0 <= i < steps.len(),
    ensures
        seen_by_barriers(launch_laws::acted(w, me, act).running, t, steps[i].0),
{
    let r = w.running;
    let m = r.machine;
    let sh = m.shape;
    let n = launch_laws::acted(w, me, act).running;
    let op = launch_laws::op_of(w, me, act);
    let a = steps[i].0;
    launch_laws::lemma_acts_are_operations(w, me, act);
    lemma_machine_effect(m, me, op);
    lemma_clock_effect(w, me, act);
    lemma_own_seen(w, me, act, a);
    lemma_threads_differ(r, t, me);
    lemma_threads_differ(r, me, t);
    geometry::every_thread_has_a_lane(sh, me);
    geometry::every_thread_has_a_lane(sh, t);
    assert(in_block(r, t, steps[i].0) == in_block(n, t, a));
    assert(in_block(r, me, steps[i].0) == in_block(n, me, a));
    assert(seen_by_barriers(r, t, a));
    assert(seen_by_barriers(r, me, a));
    if in_block(r, t, steps[i].0) {
        assert(epochs_fit(r, t, a));
    }
    assert(epoch_of(r, t) <= epoch_of(n, t));
}

/// Of the access made now, its own thread alone has seen anything.
proof fn lemma_new_seen_by_barriers<T>(
    w: World<T>,
    me: int,
    act: Act<T>,
    e: Element,
    steps: Accesses,
    t: int,
)
    requires
        in_shape(w, steps),
        w.running.has_thread(me),
        w.running.has_room(me),
        w.running.has_thread(t),
        launch_races::followed_by(w, me, act, e, steps) != steps,
    ensures
        seen_by_barriers(
            launch_laws::acted(w, me, act).running,
            t,
            launch_races::followed_by(w, me, act, e, steps).last().0,
        ),
{
    let r = w.running;
    let a = launch_races::followed_by(w, me, act, e, steps).last().0;
    let tb = r.machine.shape.block_of(t);
    launch_laws::lemma_acts_are_operations(w, me, act);
    lemma_clock_effect(w, me, act);
    lemma_threads_differ(r, t, me);
    geometry::every_thread_has_a_lane(r.machine.shape, t);
    assert(is_by(r, me, a));
    assert(good(r.clocks.clock[t], r, r.clocks.seq, steps));
    assert(sync::seen(r.clocks.clock[t], key_at(r, me)) <= r.clocks.seq[me]);
    assert(good(r.clocks.block[tb], r, r.clocks.seq, steps));
    assert(sync::seen(r.clocks.block[tb], key_at(r, me)) <= r.clocks.seq[me]);
}

proof fn lemma_seen_by_barriers<T>(
    w: World<T>,
    me: int,
    act: Act<T>,
    e: Element,
    steps: Accesses,
)
    requires
        in_shape(w, steps),
        no_handoff(w, steps),
        !launch_laws::is_over(w.running),
        w.running.machine.current matches Some(c) && c == me,
        w.running.has_room(me),
        hands_nothing_over(act),
    ensures
        all_seen_by_barriers(
            launch_laws::acted(w, me, act).running,
            launch_races::followed_by(w, me, act, e, steps),
        ),
{
    let r = w.running;
    let n = launch_laws::acted(w, me, act).running;
    let later = launch_races::followed_by(w, me, act, e, steps);
    launch_laws::lemma_after_sound(w, me, act);
    assert forall|t: int, i: int|
        #![trigger in_block(n, t, later[i].0)]
        n.has_thread(t) && 0 <= i < later.len() implies seen_by_barriers(n, t, later[i].0) by {
        assert(r.has_thread(t));
        if i < steps.len() {
            assert(later[i] == steps[i]);
            lemma_old_seen_by_barriers(w, me, act, steps, t, i);
        } else {
            lemma_new_seen_by_barriers(w, me, act, e, steps, t);
        }
    }
}

/// What the acting thread can have seen once it acted, unless it met its block.
proof fn lemma_own_seen<T>(w: World<T>, me: int, act: Act<T>, a: Access)
    requires
        launch_laws::sound(w.running),
        w.running.has_thread(me),
        w.running.has_room(me),
        w.running.clocks.wf(),
        w.running.clocks.seq.len() == w.running.machine.shape.total(),
        forall|b: int| 0 <= b < w.buffers.len() ==> (#[trigger] w.buffers[b]).memory.wf(),
        nothing_published(w),
        hands_nothing_over(act),
    ensures
        ({
            let r = w.running;
            let n = launch_laws::acted(w, me, act).running;
            !(act is Barrier) && shadow::has_seen(n.clocks.clock[me], a) ==> is_by(r, me, a)
                || shadow::has_seen(r.clocks.clock[me], a)
        }),
{
    let r = w.running;
    let s = r.clocks;
    let k = sync::key_of(a.block, a.thread);
    geometry::every_thread_has_a_lane(r.machine.shape, me);
    if k == key_at(r, me) {
        sync::keys_tell_threads_apart(a.block, a.thread, r.thread(me).block, r.thread(me).thread);
    }
    if let Act::Access { buffer, index, req, .. } = act {
        if 0 <= buffer < w.buffers.len() {
            let m = launch_laws::opened(w.buffers[buffer], r.id);
            assert(w.buffers[buffer].memory.wf());
            if index < m.data.len() {
                assert(is_element(w, buffer, index as int));
                let h = m.shadow[index as int];
                assert(is_silent(published_at(w, buffer, index as int)));
                lemma_access_clock(r, me, h, req);
                let counted = sync::observed(s.clock[me], key_at(r, me), (s.seq[me] + 1) as u64);
                lemma_silent_join(counted, h.published);
                let c = launch_laws::acted(w, me, act).running.clocks.clock[me];
                assert(sync::seen(c, k) == sync::seen(counted, k));
            }
        }
    }
}

proof fn lemma_starts_without_handoffs<T>(
    id: u64,
    config: LaunchConfig,
    source: Source,
    buffers: Seq<Buffer<T>>,
)
    requires
        launch_races::starts_afresh(launch_laws::start(id, config, source, buffers)),
    ensures
        no_handoff(launch_laws::start(id, config, source, buffers), Seq::empty()),
{
    let w = launch_laws::start(id, config, source, buffers);
    assert(is_silent(Map::<u64, u64>::empty()));
    assert forall|b: int, i: int| is_element(w, b, i) implies is_silent(
        #[trigger] published_at(w, b, i),
    ) by {
        assert(launch_races::is_blank(w.buffers[b], w.running.id));
        let shadow = launch_laws::opened(w.buffers[b], w.running.id).shadow;
        assert(shadow[i].published == Map::<u64, u64>::empty());
    }
}

proof fn lemma_played_without_handoffs<T>(
    id: u64,
    config: LaunchConfig,
    source: Source,
    buffers: Seq<Buffer<T>>,
    acts: Seq<(int, Act<T>)>,
    e: Element,
)
    requires
        launch::config_problem(config) is None,
        launch_races::starts_afresh(launch_laws::start(id, config, source, buffers)),
        is_driven(launch_laws::start(id, config, source, buffers), acts),
        without_handoffs(acts),
    ensures
        ({
            let w = launch_laws::start(id, config, source, buffers);
            no_handoff(launch_laws::played(w, acts), launch_races::accesses_to(w, acts, e))
        }),
    decreases acts.len(),
{
    let w = launch_laws::start(id, config, source, buffers);
    if acts.len() == 0 {
        lemma_starts_without_handoffs(id, config, source, buffers);
    } else {
        let before = acts.drop_last();
        let (me, act) = acts.last();
        let now = launch_laws::played(w, before);
        let steps = launch_races::accesses_to(w, before, e);
        assert forall|i: int| 0 <= i < before.len() implies hands_nothing_over(
            (#[trigger] before[i]).1,
        ) by {
            assert(before[i] == acts[i]);
        }
        assert(hands_nothing_over(acts[acts.len() - 1].1));
        lemma_played_in_shape(id, config, source, buffers, before, e);
        lemma_played_without_handoffs(id, config, source, buffers, before, e);
        lemma_stays_without_handoffs(now, me, act, e, steps);
    }
}

proof fn lemma_stays_without_handoffs<T>(
    w: World<T>,
    me: int,
    act: Act<T>,
    e: Element,
    steps: Accesses,
)
    requires
        in_shape(w, steps),
        no_handoff(w, steps),
        !launch_laws::is_over(w.running),
        w.running.machine.current matches Some(c) && c == me,
        w.running.has_room(me),
        hands_nothing_over(act),
    ensures
        no_handoff(
            launch_laws::after(w, me, act),
            launch_races::followed_by(w, me, act, e, steps),
        ),
{
    let r = w.running;
    let later = launch_races::followed_by(w, me, act, e, steps);
    let next = launch_laws::acted(w, me, act);
    lemma_nothing_published(w, me, act);
    lemma_seen_by_barriers(w, me, act, e, steps);
    launch_laws::lemma_after_sound(w, me, act);
    launch_laws::lemma_acts_are_operations(w, me, act);
    lemma_knowledge_after(w, me, act, e, steps);
    assert(nothing_is_handed_over(later)) by {
        assert forall|i: int, j: int|
            0 <= i < j < later.len() implies !#[trigger] race_laws::handed_over(later, i, j) by {
            assert(later[i] == steps[i]);
            if j < steps.len() {
                assert(later[j] == steps[j]);
                assert(!race_laws::handed_over(steps, i, j));
            } else {
                let n = next.running;
                let (b, c) = later[j];
                assert(n.clocks.clock[me] == c);
                assert(n.has_thread(me));
                assert(in_block(n, me, later[i].0) == (later[i].0.block == b.block));
                assert(seen_by_barriers(n, me, later[i].0));
            }
        }
    }
    if next.running.machine.current is None && state::has_more_waves(next.running) {
        let n = state::next_wave(next.running);
        let after = launch_laws::after(w, me, act);
        assert(is_silent(Map::<u64, u64>::empty()));
        assert forall|b: int, i: int| is_element(after, b, i) implies is_silent(
            #[trigger] published_at(after, b, i),
        ) by {
            assert(is_element(next, b, i));
            assert(published_at(after, b, i) == published_at(next, b, i));
        }
        assert forall|t: int, i: int|
            #![trigger in_block(n, t, later[i].0)]
            n.has_thread(t) && 0 <= i < later.len() implies seen_by_barriers(
            n,
            t,
            later[i].0,
        ) by {
            assert(later[i].0.seq >= 1);
            geometry::every_thread_has_a_lane(n.machine.shape, t);
        }
    }
}

/// Where no release or acquire takes part, nothing but barriers and
/// collectives orders the work of different threads.
pub proof fn only_handoffs_hand_over<T>(
    id: u64,
    config: LaunchConfig,
    source: Source,
    buffers: Seq<Buffer<T>>,
    acts: Seq<(int, Act<T>)>,
    e: Element,
)
    requires
        launch::config_problem(config) is None,
        launch_races::starts_afresh(launch_laws::start(id, config, source, buffers)),
        is_driven(launch_laws::start(id, config, source, buffers), acts),
        without_handoffs(acts),
    ensures
        nothing_is_handed_over(
            launch_races::accesses_to(
                launch_laws::start(id, config, source, buffers),
                acts,
                e,
            ),
        ),
{
    lemma_played_without_handoffs(id, config, source, buffers, acts, e);
}

/// Handoffs and collectives keep apart at every element of a launch that does
/// without the one or without the other.
pub proof fn one_of_the_two_keeps_apart<T>(
    id: u64,
    config: LaunchConfig,
    source: Source,
    buffers: Seq<Buffer<T>>,
    acts: Seq<(int, Act<T>)>,
    e: Element,
)
    requires
        launch::config_problem(config) is None,
        launch_races::starts_afresh(launch_laws::start(id, config, source, buffers)),
        is_driven(launch_laws::start(id, config, source, buffers), acts),
        without_collectives(acts) || without_handoffs(acts),
    ensures
        race_laws::handoffs_keep_apart(
            launch_races::accesses_to(
                launch_laws::start(id, config, source, buffers),
                acts,
                e,
            ),
        ),
{
    let w = launch_laws::start(id, config, source, buffers);
    let steps = launch_races::accesses_to(w, acts, e);
    if without_collectives(acts) {
        lemma_played_without_collectives(id, config, source, buffers, acts, e);
        assert forall|i: int, j: int| 0 <= i < j < steps.len() implies !#[trigger] race_laws::converged(
            steps,
            i,
            j,
        ) by {
            assert(steps[i].0.warp_epoch == 0 && steps[j].0.warp_epoch == 0);
        }
    } else {
        only_handoffs_hand_over(id, config, source, buffers, acts, e);
    }
}

// ------------------------------------------------------------- the laws ---

/// Along the accesses that a launch makes to an element order composes, unless
/// a handoff and a collective meet there.
pub proof fn order_composes<T>(
    id: u64,
    config: LaunchConfig,
    source: Source,
    buffers: Seq<Buffer<T>>,
    acts: Seq<(int, Act<T>)>,
    e: Element,
)
    requires
        launch::config_problem(config) is None,
        launch_races::starts_afresh(launch_laws::start(id, config, source, buffers)),
        is_driven(launch_laws::start(id, config, source, buffers), acts),
        race_laws::handoffs_keep_apart(
            launch_races::accesses_to(
                launch_laws::start(id, config, source, buffers),
                acts,
                e,
            ),
        ),
    ensures
        race_laws::order_composes(
            launch_races::accesses_to(
                launch_laws::start(id, config, source, buffers),
                acts,
                e,
            ),
        ),
{
    lemma_played_in_shape(id, config, source, buffers, acts, e);
    race_laws::order_composes_in_a_launch(
        launch_races::accesses_to(launch_laws::start(id, config, source, buffers), acts, e),
    );
}

/// Races are found by reasoning, not by luck: whatever a launch does and
/// whichever interleaving its decisions happened to produce, if nothing orders
/// two of its accesses to one element, and one of the two is not a read, then
/// its report holds a race on that element, between two accesses that nothing
/// orders.
///
/// It takes that no handoff and collective meet at the element, which
/// [`one_of_the_two_keeps_apart`] gives, that the element had room to remember
/// the accesses, which [`race_laws::a_few_readers_are_remembered`] gives, and
/// that the report has room.
pub proof fn races_are_found_by_reasoning<T>(
    id: u64,
    config: LaunchConfig,
    source: Source,
    buffers: Seq<Buffer<T>>,
    acts: Seq<(int, Act<T>)>,
    e: Element,
    i: int,
    j: int,
)
    requires
        launch::config_problem(config) is None,
        launch_races::starts_afresh(launch_laws::start(id, config, source, buffers)),
        is_driven(launch_laws::start(id, config, source, buffers), acts),
        ({
            let w = launch_laws::start(id, config, source, buffers);
            let steps = launch_races::accesses_to(w, acts, e);
            let end = launch_laws::played(w, acts).running;
            &&& race_laws::handoffs_keep_apart(steps)
            &&& race_laws::all_remembered(steps)
            &&& end.findings.kept.len() < diag::MAX_DIAGNOSTICS
            &&& 0 <= i < j < steps.len()
            &&& race_laws::unordered(steps, i, j)
            &&& steps[i].0.kind != AccessKind::Read || steps[j].0.kind != AccessKind::Read
        }),
    ensures
        launch_races::a_race_is_found(
            launch_laws::start(id, config, source, buffers),
            acts,
            e,
            j,
        ),
{
    order_composes(id, config, source, buffers, acts, e);
    launch_races::a_race_is_in_the_report(
        launch_laws::start(id, config, source, buffers),
        acts,
        e,
        i,
        j,
    );
}

} // verus!
