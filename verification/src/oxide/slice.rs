//! The write path: a buffer whose elements are claimed one per thread.

use vstd::prelude::*;

use crate::location::Location;
use crate::mem::{self, AbortSignal, GlobalBuf};
use crate::oxide::thread::{witness, ThreadIndex};
use crate::state::{self, LaunchState};

verus! {

/// What claiming an element with a bounds check leaves behind, and whether the
/// element was there.
pub open spec fn claimed<T>(
    before: mem::Memory<T>,
    after: mem::Memory<T>,
    r: state::Running,
    r_after: state::Running,
    me: usize,
    space: crate::diag::MemSpace,
    index: usize,
    location: Location,
) -> bool {
    if index < before.data.len() {
        mem::accessed(
            before,
            after,
            r,
            r_after,
            me,
            space,
            index,
            mem::plain_write(location),
            true,
            Some(mem::held(before, index)),
        )
    } else {
        after == mem::opened(before, r.id, true) && r_after == state::counted(r, me as int)
    }
}

/// Mints this thread's witness and resolves it in one call. The witness stands
/// for the linear index of the thread in the launch, which no other thread
/// has.
///
/// `None` for a thread whose index is past the end, which is how a launch
/// rounded up to whole blocks drops its tail.
pub fn get_mut_indexed<'k, T: Copy>(
    buf: &mut GlobalBuf<T>,
    launch: &mut LaunchState,
    me: usize,
    location: Location,
) -> (r: Result<Option<ThreadIndex<'k>>, AbortSignal>)
    requires
        old(buf)@.wf(),
        old(launch).wf(),
        mem::ready(old(launch)@, me),
    ensures
        final(buf)@.wf(),
        final(buf).space() == old(buf).space(),
        final(launch).wf(),
        ({
            let t = old(launch)@.thread(me as int);
            let index = t.block * t.config.block.volume() + t.thread;
            &&& r matches Ok(found)
            &&& found is Some <==> index < old(buf)@.data.len()
            &&& found matches Some(idx) ==> idx@ == index
            &&& claimed(
                old(buf)@,
                final(buf)@,
                old(launch)@,
                final(launch)@,
                me,
                old(buf).space(),
                index as usize,
                location,
            )
        }),
{
    let t = launch.thread(me);
    let idx = witness(t.global_linear());
    match buf.claim(launch, me, idx.get(), true, location) {
        Ok(true) => Ok(Some(idx)),
        Ok(false) => Ok(None),
        Err(e) => Err(e),
    }
}

/// Resolves an explicit witness, bounds checked. The witness is spent.
pub fn get_mut<T: Copy>(
    buf: &mut GlobalBuf<T>,
    launch: &mut LaunchState,
    me: usize,
    idx: ThreadIndex<'_>,
    location: Location,
) -> (r: Result<bool, AbortSignal>)
    requires
        old(buf)@.wf(),
        old(launch).wf(),
        mem::ready(old(launch)@, me),
    ensures
        final(buf)@.wf(),
        final(buf).space() == old(buf).space(),
        final(launch).wf(),
        r == Ok::<bool, AbortSignal>(idx@ < old(buf)@.data.len()),
        claimed(
            old(buf)@,
            final(buf)@,
            old(launch)@,
            final(launch)@,
            me,
            old(buf).space(),
            idx@,
            location,
        ),
{
    buf.claim(launch, me, idx.get(), true, location)
}

/// Claims an element by raw index, with no check that the claim is unique.
///
/// On hardware nothing verifies that two threads did not pass the same index.
/// Here the access is instrumented, so they do not get away with it: the
/// second claim is reported as a data race naming both lines. Out of range is
/// a trap rather than `None`, matching the unchecked contract.
pub fn get_unchecked_mut<T: Copy>(
    buf: &mut GlobalBuf<T>,
    launch: &mut LaunchState,
    me: usize,
    index: usize,
    location: Location,
) -> (r: Result<(), AbortSignal>)
    requires
        old(buf)@.wf(),
        old(launch).wf(),
        mem::ready(old(launch)@, me),
    ensures
        final(buf)@.wf(),
        final(buf).space() == old(buf).space(),
        final(launch).wf(),
        if index < old(buf)@.data.len() {
            r is Ok && claimed(
                old(buf)@,
                final(buf)@,
                old(launch)@,
                final(launch)@,
                me,
                old(buf).space(),
                index,
                location,
            )
        } else {
            r is Err && mem::ran_past_end(
                old(buf)@,
                final(buf)@,
                old(launch)@,
                final(launch)@,
                me,
                old(buf).space(),
                index,
                mem::plain_write(location),
                true,
            )
        },
{
    match buf.claim(launch, me, index, false, location) {
        Ok(_) => Ok(()),
        Err(e) => Err(e),
    }
}

} // verus!
