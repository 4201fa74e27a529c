//! Warp-level collectives, with convergence checking.
//!
//! On a GPU the threads of a block execute in warps, and the warp-level
//! primitives (`__shfl_sync`, `__ballot_sync`, `__syncwarp`, ...) exchange
//! values directly between lanes without going through memory. Each takes a
//! *member mask* naming the lanes that take part, and CUDA requires every
//! named lane to reach that same instruction. A lane that branched away,
//! exited, or stopped at a different collective makes the result undefined:
//! on real hardware this is the classic hang or silently wrong reduction.
//!
//! Here that contract is checked instead of trusted. Every collective is two
//! rendezvous:
//!
//! ```text
//! publish value -> [arrive] -> read mask-mates' values -> [depart] -> continue
//! ```
//!
//! Lanes park until all their mask-mates arrive, and if that can never happen
//! the launch ends with a finding naming the lanes that never showed up. The
//! departure matters: without it a lane could race ahead into the next
//! collective and overwrite its slot while a mask-mate is still reading the
//! current one.

use vstd::prelude::*;

use crate::ctx::{self, ThreadCtx};
use crate::diag::{self, Diagnostic, LaneProblem};
use crate::geometry;
use crate::lanes::{self, names_lane};
use crate::location::Location;
use crate::machine::{self, Machine, WarpWait, PHASE_ARRIVE, PHASE_DEPART};
use crate::mem::AbortSignal;
use crate::sched::{self, Turn};
use crate::schedule_laws;
use crate::state::{self, LaunchState, Running};

verus! {

/// Lanes per warp unless the launch configuration says otherwise.
pub const WARP_SIZE: u32 = 32;

/// Mask naming every lane of a full warp.
///
/// In a block whose size is not a multiple of the warp size the last warp is
/// short, and this mask names lanes that do not exist. Use
/// [`ThreadCtx::warp_valid_mask`] there instead.
pub const FULL_MASK: u32 = 0xFFFF_FFFF;

// --------------------------------------------------------------- masks ---

/// What is wrong with the mask a thread passes, if anything: it names lanes
/// the block does not have, or it leaves the caller out.
pub open spec fn mask_problem(t: ThreadCtx, mask: u32) -> Option<LaneProblem> {
    if mask & !t.valid_lanes() != 0 {
        Some(LaneProblem::MaskOutsideBlock { valid: t.valid_lanes() })
    } else if !lanes::has_lane(mask, (t.thread % t.config.warp_size) as int) {
        Some(LaneProblem::CallerNotInMask)
    } else {
        None
    }
}

/// The finding that a lane named the wrong threads.
pub open spec fn lane_finding(
    t: ThreadCtx,
    op: &'static str,
    at: Location,
    mask: u32,
    problem: LaneProblem,
) -> Diagnostic {
    Diagnostic::WarpLaneError {
        block: t.block,
        warp: t.thread / t.config.warp_size,
        op,
        at,
        lane: t.thread % t.config.warp_size,
        mask,
        problem,
    }
}

fn lane_error(
    t: &ThreadCtx,
    op: &'static str,
    at: Location,
    mask: u32,
    problem: LaneProblem,
) -> (r: Diagnostic)
    requires
        t.wf(),
    ensures
        r == lane_finding(*t, op, at, mask, problem),
{
    Diagnostic::WarpLaneError {
        block: t.block,
        warp: t.warp_id(),
        op,
        at,
        lane: t.lane_id(),
        mask,
        problem,
    }
}

/// Checks the mask a thread passes, before it parks.
pub fn check_mask(t: &ThreadCtx, mask: u32) -> (r: Option<LaneProblem>)
    requires
        t.wf(),
    ensures
        r == mask_problem(*t, mask),
{
    let valid: u32 = t.warp_valid_mask();
    if mask & !valid != 0 {
        return Some(LaneProblem::MaskOutsideBlock { valid });
    }
    if !names_lane(mask, t.lane_id()) {
        return Some(LaneProblem::CallerNotInMask);
    }
    None
}

// ----------------------------------------------------------- rendezvous ---

/// The exchange slots after a thread tried to enter a collective: a wrong mask
/// publishes nothing.
pub open spec fn slots_after<T>(
    t: ThreadCtx,
    slots: Seq<Option<T>>,
    value: T,
    mask: u32,
) -> Seq<Option<T>> {
    if mask_problem(t, mask) is Some {
        slots
    } else {
        slots.update((t.thread % t.config.warp_size) as int, Some(value))
    }
}

/// The launch after a thread tried to enter a collective: a wrong mask is a
/// trap, and otherwise the thread parks.
pub open spec fn arrived(r: Running, me: int, mask: u32, op: &'static str, at: Location) -> Running {
    match mask_problem(r.thread(me), mask) {
        Some(problem) => state::trapped(r, lane_finding(r.thread(me), op, at, mask, problem)),
        None => state::stepped(
            r,
            machine::rendezvous_step(
                r.machine,
                me,
                WarpWait { phase: PHASE_ARRIVE, mask, at, op },
            ),
        ),
    }
}

/// First half of a collective: checks the mask, publishes the lane's value to
/// its mask-mates, and parks. The caller has passed a scheduling point.
pub fn arrive<T: Copy>(
    launch: &mut LaunchState,
    me: usize,
    slots: &mut Lanes<T>,
    value: T,
    mask: u32,
    op: &'static str,
    at: Location,
) -> (r: Result<Turn, AbortSignal>)
    requires
        old(launch).wf(),
        old(launch)@.has_thread(me as int),
        old(launch)@.has_room(me as int),
        old(launch)@.config.warp_size <= old(slots)@.len(),
    ensures
        final(launch).wf(),
        final(launch)@ == arrived(old(launch)@, me as int, mask, op, at),
        final(slots)@ == slots_after(old(launch)@.thread(me as int), old(slots)@, value, mask),
        r == if mask_problem(old(launch)@.thread(me as int), mask) is Some {
            Err::<Turn, AbortSignal>(AbortSignal)
        } else {
            Ok::<Turn, AbortSignal>(sched::turn_of(final(launch)@.machine, me as int))
        },
{
    let t = launch.thread(me);
    if let Some(problem) = check_mask(&t, mask) {
        launch.trap(lane_error(&t, op, at, mask, problem));
        return Err(AbortSignal);
    }
    slots.publish(t.lane_id(), value);
    Ok(launch.warp_rendezvous(me, PHASE_ARRIVE, mask, at, op))
}

/// Second half of a collective, once the thread has read what it needed.
pub fn depart(
    launch: &mut LaunchState,
    me: usize,
    mask: u32,
    op: &'static str,
    at: Location,
) -> (r: Turn)
    requires
        old(launch).wf(),
        old(launch)@.has_thread(me as int),
        old(launch)@.has_room(me as int),
    ensures
        final(launch).wf(),
        final(launch)@ == state::stepped(
            old(launch)@,
            machine::rendezvous_step(
                old(launch)@.machine,
                me as int,
                WarpWait { phase: PHASE_DEPART, mask, at, op },
            ),
        ),
        r == sched::turn_of(final(launch)@.machine, me as int),
{
    launch.warp_rendezvous(me, PHASE_DEPART, mask, at, op)
}

// ------------------------------------------------------------- exchange ---

/// Values published by the lanes taking part in a collective.
pub struct Lanes<T> {
    slots: Vec<Option<T>>,
}

impl<T> View for Lanes<T> {
    type V = Seq<Option<T>>;

    closed spec fn view(&self) -> Seq<Option<T>> {
        self.slots@
    }
}

/// Whether a lane published a value.
pub open spec fn has_published<T>(slots: Seq<Option<T>>, lane: int) -> bool {
    0 <= lane < slots.len() && slots[lane] is Some
}

/// Whether every lane the mask names published a value.
pub open spec fn members_published<T>(slots: Seq<Option<T>>, mask: u32) -> bool {
    forall|l: int| #[trigger] lanes::has_lane(mask, l) ==> has_published(slots, l)
}

impl<T: Copy> Lanes<T> {
    /// Exchange slots for a warp of this many lanes.
    pub fn new(lanes: u32) -> (r: Lanes<T>)
        ensures
            r@ == Seq::new(lanes as nat, |i: int| None::<T>),
    {
        let mut slots: Vec<Option<T>> = Vec::new();
        let mut i: u32 = 0;
        while i < lanes
            invariant
                i <= lanes,
                slots@ == Seq::new(i as nat, |j: int| None::<T>),
            decreases lanes - i,
        {
            slots.push(None);
            i = i + 1;
            assert(slots@ =~= Seq::new(i as nat, |j: int| None::<T>));
        }
        Lanes { slots }
    }

    /// Publishes a lane's value to its mask-mates.
    pub fn publish(&mut self, lane: u32, value: T)
        requires
            lane < old(self)@.len(),
        ensures
            final(self)@ == old(self)@.update(lane as int, Some(value)),
    {
        self.slots.set(lane as usize, Some(value));
    }

    /// Whether every lane the mask names published a value.
    pub fn covers(&self, mask: u32) -> (r: bool)
        ensures
            r == members_published(self@, mask),
    {
        let mut l: u32 = 0;
        while l < 32
            invariant
                l <= 32,
                forall|k: int| 0 <= k < l && #[trigger] lanes::has_lane(mask, k) ==> has_published(
                    self@,
                    k,
                ),
            decreases 32 - l,
        {
            if names_lane(mask, l) {
                let i: usize = l as usize;
                if i >= self.slots.len() || self.slots[i].is_none() {
                    assert(lanes::has_lane(mask, l as int));
                    return false;
                }
            }
            l = l + 1;
        }
        true
    }

    /// What a lane published.
    pub fn get(&self, lane: u32) -> (r: T)
        requires
            has_published(self@, lane as int),
        ensures
            Some(r) == self@[lane as int],
    {
        self.slots[lane as usize].unwrap()
    }
}

/// What a shuffle from `src` gives a lane that holds `value`. No source lane
/// means the shuffle reached past the end of the warp, which keeps the lane's
/// own value, and so does a source that is not a member.
pub open spec fn shuffled<T>(slots: Seq<Option<T>>, mask: u32, value: T, src: Option<u32>) -> T {
    match src {
        Some(s) if lanes::has_lane(mask, s as int) => slots[s as int]->0,
        _ => value,
    }
}

/// The launch after a shuffle: a source that is not a member is reported.
pub open spec fn after_shuffle(
    r: Running,
    me: int,
    mask: u32,
    op: &'static str,
    at: Location,
    src: Option<u32>,
) -> Running {
    match src {
        Some(s) if !lanes::has_lane(mask, s as int) => state::noted(
            r,
            lane_finding(
                r.thread(me),
                op,
                at,
                mask,
                LaneProblem::SourceLaneNotInMask { src: s },
            ),
        ),
        _ => r,
    }
}

/// Reads `value` from another lane, reporting if that lane is not a member.
fn shuffle<T: Copy>(
    launch: &mut LaunchState,
    me: usize,
    slots: &Lanes<T>,
    mask: u32,
    op: &'static str,
    at: Location,
    value: T,
    src: Option<u32>,
) -> (r: T)
    requires
        old(launch).wf(),
        old(launch)@.has_thread(me as int),
        members_published(slots@, mask),
        src matches Some(s) ==> s < 32,
    ensures
        final(launch).wf(),
        final(launch)@ == after_shuffle(old(launch)@, me as int, mask, op, at, src),
        r == shuffled(slots@, mask, value, src),
{
    match src {
        None => value,
        Some(s) => {
            if !names_lane(mask, s) {
                let t = launch.thread(me);
                launch.report(
                    lane_error(&t, op, at, mask, LaneProblem::SourceLaneNotInMask { src: s }),
                );
                value
            } else {
                slots.get(s)
            }
        },
    }
}

/// The lane `__shfl_sync` reads: the given one, modulo the warp size.
pub open spec fn direct_source(t: ThreadCtx, src_lane: u32) -> Option<u32> {
    Some(src_lane % t.config.warp_size)
}

/// The lane `__shfl_up_sync` reads: `delta` below this one, if there is one.
pub open spec fn up_source(t: ThreadCtx, delta: u32) -> Option<u32> {
    let lane = t.thread % t.config.warp_size;
    if delta <= lane {
        Some((lane - delta) as u32)
    } else {
        None
    }
}

/// The lane `__shfl_down_sync` reads: `delta` above this one, if there is one.
pub open spec fn down_source(t: ThreadCtx, delta: u32) -> Option<u32> {
    let lane = t.thread % t.config.warp_size;
    if lane + delta < t.config.warp_size {
        Some((lane + delta) as u32)
    } else {
        None
    }
}

/// The lane `__shfl_xor_sync` reads: this one XOR `lane_mask`, if it is in the
/// warp.
pub open spec fn xor_source(t: ThreadCtx, lane_mask: u32) -> Option<u32> {
    let lane = t.thread % t.config.warp_size;
    if lane ^ lane_mask < t.config.warp_size {
        Some(lane ^ lane_mask)
    } else {
        None
    }
}

/// `__shfl_sync`: every lane reads the value held by `src_lane`.
///
/// `src_lane` is taken modulo the warp size, as on the GPU.
pub fn shfl_sync<T: Copy>(
    launch: &mut LaunchState,
    me: usize,
    slots: &Lanes<T>,
    mask: u32,
    value: T,
    src_lane: u32,
    at: Location,
) -> (r: T)
    requires
        old(launch).wf(),
        old(launch)@.has_thread(me as int),
        members_published(slots@, mask),
    ensures
        final(launch).wf(),
        ({
            let src = direct_source(old(launch)@.thread(me as int), src_lane);
            &&& r == shuffled(slots@, mask, value, src)
            &&& final(launch)@ == after_shuffle(
                old(launch)@,
                me as int,
                mask,
                "shfl_sync",
                at,
                src,
            )
        }),
{
    let t = launch.thread(me);
    let src: u32 = src_lane % t.warp_size();
    shuffle(launch, me, slots, mask, "shfl_sync", at, value, Some(src))
}

/// `__shfl_up_sync`: reads from the lane `delta` below this one.
///
/// Lanes with no such neighbour keep their own value.
pub fn shfl_up_sync<T: Copy>(
    launch: &mut LaunchState,
    me: usize,
    slots: &Lanes<T>,
    mask: u32,
    value: T,
    delta: u32,
    at: Location,
) -> (r: T)
    requires
        old(launch).wf(),
        old(launch)@.has_thread(me as int),
        members_published(slots@, mask),
    ensures
        final(launch).wf(),
        ({
            let src = up_source(old(launch)@.thread(me as int), delta);
            &&& r == shuffled(slots@, mask, value, src)
            &&& final(launch)@ == after_shuffle(
                old(launch)@,
                me as int,
                mask,
                "shfl_up_sync",
                at,
                src,
            )
        }),
{
    let t = launch.thread(me);
    let src: Option<u32> = t.lane_id().checked_sub(delta);
    shuffle(launch, me, slots, mask, "shfl_up_sync", at, value, src)
}

/// `__shfl_down_sync`: reads from the lane `delta` above this one.
///
/// Lanes with no such neighbour keep their own value.
pub fn shfl_down_sync<T: Copy>(
    launch: &mut LaunchState,
    me: usize,
    slots: &Lanes<T>,
    mask: u32,
    value: T,
    delta: u32,
    at: Location,
) -> (r: T)
    requires
        old(launch).wf(),
        old(launch)@.has_thread(me as int),
        members_published(slots@, mask),
    ensures
        final(launch).wf(),
        ({
            let src = down_source(old(launch)@.thread(me as int), delta);
            &&& r == shuffled(slots@, mask, value, src)
            &&& final(launch)@ == after_shuffle(
                old(launch)@,
                me as int,
                mask,
                "shfl_down_sync",
                at,
                src,
            )
        }),
{
    let t = launch.thread(me);
    let src: Option<u32> = match t.lane_id().checked_add(delta) {
        Some(s) => if s < t.warp_size() {
            Some(s)
        } else {
            None
        },
        None => None,
    };
    shuffle(launch, me, slots, mask, "shfl_down_sync", at, value, src)
}

/// `__shfl_xor_sync`: reads from the lane whose id is this one XOR
/// `lane_mask`, the butterfly exchange used by warp reductions.
pub fn shfl_xor_sync<T: Copy>(
    launch: &mut LaunchState,
    me: usize,
    slots: &Lanes<T>,
    mask: u32,
    value: T,
    lane_mask: u32,
    at: Location,
) -> (r: T)
    requires
        old(launch).wf(),
        old(launch)@.has_thread(me as int),
        members_published(slots@, mask),
    ensures
        final(launch).wf(),
        ({
            let src = xor_source(old(launch)@.thread(me as int), lane_mask);
            &&& r == shuffled(slots@, mask, value, src)
            &&& final(launch)@ == after_shuffle(
                old(launch)@,
                me as int,
                mask,
                "shfl_xor_sync",
                at,
                src,
            )
        }),
{
    let t = launch.thread(me);
    let s: u32 = t.lane_id() ^ lane_mask;
    let src: Option<u32> = if s < t.warp_size() {
        Some(s)
    } else {
        None
    };
    shuffle(launch, me, slots, mask, "shfl_xor_sync", at, value, src)
}

// ---------------------------------------------------------------- votes ---

/// Which member lanes voted yes.
pub open spec fn yes_votes(slots: Seq<Option<bool>>, mask: u32) -> spec_fn(int) -> bool {
    |l: int| lanes::has_lane(mask, l) && slots[l] == Some(true)
}

/// One bit per member lane, set where the predicate held.
pub open spec fn ballot_of(slots: Seq<Option<bool>>, mask: u32) -> u32 {
    lanes::mask_of(yes_votes(slots, mask), 32)
}

/// `__ballot_sync`: one bit per member lane, set where its predicate is true.
pub fn ballot_sync(slots: &Lanes<bool>, mask: u32) -> (r: u32)
    requires
        members_published(slots@, mask),
    ensures
        r == ballot_of(slots@, mask),
{
    let ghost p = yes_votes(slots@, mask);
    let mut votes: u32 = 0;
    let mut l: u32 = 0;
    while l < 32
        invariant
            l <= 32,
            members_published(slots@, mask),
            p == yes_votes(slots@, mask),
            votes == lanes::mask_of(p, l as int),
        decreases 32 - l,
    {
        assert(p(l as int) == (lanes::has_lane(mask, l as int) && slots@[l as int] == Some(true)));
        if names_lane(mask, l) && slots.get(l) {
            votes = votes | (1u32 << l);
        }
        l = l + 1;
    }
    votes
}

/// Whether the predicate holds on some member lane.
pub open spec fn some_vote_yes(slots: Seq<Option<bool>>, mask: u32) -> bool {
    exists|l: int| #[trigger] lanes::has_lane(mask, l) && slots[l] == Some(true)
}

/// Whether the predicate holds on every member lane.
pub open spec fn all_vote_yes(slots: Seq<Option<bool>>, mask: u32) -> bool {
    forall|l: int| #[trigger] lanes::has_lane(mask, l) ==> slots[l] == Some(true)
}

/// `__any_sync`: true if the predicate holds on any member lane.
pub fn any_sync(slots: &Lanes<bool>, mask: u32) -> (r: bool)
    requires
        members_published(slots@, mask),
    ensures
        r == some_vote_yes(slots@, mask),
        r == exists|l: int| #[trigger] lanes::has_lane(mask, l) && slots@[l] == Some(true),
{
    proof {
        votes_are_the_yes_lanes(slots@, mask);
        if ballot_of(slots@, mask) == 0 {
            assert forall|l: int| #[trigger] lanes::has_lane(mask, l) implies slots@[l] != Some(
                true,
            ) by {
                lanes::lemma_empty_mask(l);
            }
        } else if forall|l: int| #[trigger]
            lanes::has_lane(mask, l) ==> slots@[l] != Some(true) {
            assert forall|l: int| 0 <= l < 32 implies lanes::has_lane(
                ballot_of(slots@, mask),
                l,
            ) == lanes::has_lane(0, l) by {
                lanes::lemma_empty_mask(l);
            }
            lanes::masks_agree_when_lanes_do(ballot_of(slots@, mask), 0);
        }
    }
    ballot_sync(slots, mask) != 0
}

/// `__all_sync`: true if the predicate holds on every member lane.
pub fn all_sync(slots: &Lanes<bool>, mask: u32) -> (r: bool)
    requires
        members_published(slots@, mask),
    ensures
        r == all_vote_yes(slots@, mask),
        r == forall|l: int| #[trigger] lanes::has_lane(mask, l) ==> slots@[l] == Some(true),
{
    proof {
        votes_are_the_yes_lanes(slots@, mask);
        let votes = ballot_of(slots@, mask);
        if votes == mask {
            assert forall|l: int| #[trigger] lanes::has_lane(mask, l) implies slots@[l] == Some(
                true,
            ) by {
                assert(lanes::has_lane(votes, l));
            }
        } else if forall|l: int| #[trigger]
            lanes::has_lane(mask, l) ==> slots@[l] == Some(true) {
            lanes::masks_agree_when_lanes_do(votes, mask);
        }
    }
    ballot_sync(slots, mask) == mask
}

/// How many lanes a mask names.
pub open spec fn lane_count(mask: u32, n: int) -> nat
    decreases n,
{
    if n <= 0 {
        0
    } else {
        lane_count(mask, n - 1) + if lanes::has_lane(mask, n - 1) {
            1nat
        } else {
            0nat
        }
    }
}

/// How many lanes a mask names.
pub fn count_lanes(mask: u32) -> (r: u32)
    ensures
        r == lane_count(mask, 32),
{
    let mut count: u32 = 0;
    let mut l: u32 = 0;
    while l < 32
        invariant
            l <= 32,
            count <= l,
            count == lane_count(mask, l as int),
        decreases 32 - l,
    {
        if names_lane(mask, l) {
            count = count + 1;
        }
        l = l + 1;
    }
    count
}

// ---------------------------------------------------------------- laws ---

/// A ballot names exactly the members whose predicate held.
pub proof fn votes_are_the_yes_lanes(slots: Seq<Option<bool>>, mask: u32)
    ensures
        forall|l: int| #[trigger]
            lanes::has_lane(ballot_of(slots, mask), l) == (lanes::has_lane(mask, l) && slots[l]
                == Some(true)),
{
    assert forall|l: int| #[trigger]
        lanes::has_lane(ballot_of(slots, mask), l) == (lanes::has_lane(mask, l) && slots[l] == Some(
            true,
        )) by {
        lanes::mask_names_its_members(yes_votes(slots, mask), 32, l);
    }
}

/// How the votes relate: some lane says yes exactly when the ballot is not
/// empty, and all do exactly when it is the mask. Not all say yes exactly when
/// some say no.
pub proof fn votes_agree_with_the_ballot(
    slots: Seq<Option<bool>>,
    against: Seq<Option<bool>>,
    mask: u32,
)
    requires
        members_published(slots, mask),
        forall|l: int| #[trigger]
            lanes::has_lane(mask, l) ==> against[l] == Some(slots[l] != Some(true)),
    ensures
        some_vote_yes(slots, mask) <==> ballot_of(slots, mask) != 0,
        all_vote_yes(slots, mask) <==> ballot_of(slots, mask) == mask,
        all_vote_yes(slots, mask) <==> !some_vote_yes(against, mask),
        mask != 0 && all_vote_yes(slots, mask) ==> some_vote_yes(slots, mask),
        all_vote_yes(slots, 0) && !some_vote_yes(slots, 0),
{
    votes_are_the_yes_lanes(slots, mask);
    let votes = ballot_of(slots, mask);
    if votes == 0 {
        assert forall|l: int| #[trigger] lanes::has_lane(mask, l) implies slots[l] != Some(
            true,
        ) by {
            lanes::lemma_empty_mask(l);
        }
    } else if !some_vote_yes(slots, mask) {
        assert forall|l: int| 0 <= l < 32 implies lanes::has_lane(votes, l) == lanes::has_lane(
            0,
            l,
        ) by {
            lanes::lemma_empty_mask(l);
        }
        lanes::masks_agree_when_lanes_do(votes, 0);
    }
    if votes == mask {
        assert forall|l: int| #[trigger] lanes::has_lane(mask, l) implies slots[l] == Some(
            true,
        ) by {
            assert(lanes::has_lane(votes, l));
        }
    } else if all_vote_yes(slots, mask) {
        lanes::masks_agree_when_lanes_do(votes, mask);
    }
    assert forall|l: int| !#[trigger] lanes::has_lane(0, l) by {
        lanes::lemma_empty_mask(l);
    }
}

/// A mask is outside the block exactly when it names a lane that does not
/// exist.
pub proof fn masks_outside_name_missing_lanes(mask: u32, valid: u32)
    ensures
        mask & !valid != 0 <==> exists|l: int| #[trigger]
            lanes::has_lane(mask, l) && !lanes::has_lane(valid, l),
{
    let outside = mask & !valid;
    assert forall|l: int| #[trigger] lanes::has_lane(outside, l) == (lanes::has_lane(mask, l)
        && !lanes::has_lane(valid, l)) by {
        if 0 <= l < 32 {
            let k = l as u32;
            assert((mask & !valid) & (1u32 << k) != 0 <==> (mask & (1u32 << k) != 0 && valid & (1u32
                << k) == 0)) by (bit_vector)
                requires
                    k < 32,
            ;
        }
    }
    if outside != 0 {
        if forall|l: int| !#[trigger] lanes::has_lane(outside, l) {
            assert forall|l: int| 0 <= l < 32 implies lanes::has_lane(outside, l)
                == lanes::has_lane(0, l) by {
                lanes::lemma_empty_mask(l);
            }
            lanes::masks_agree_when_lanes_do(outside, 0);
        }
        let l = choose|l: int| #[trigger] lanes::has_lane(outside, l);
        assert(lanes::has_lane(mask, l) && !lanes::has_lane(valid, l));
    } else {
        assert forall|l: int| #[trigger] lanes::has_lane(mask, l) implies lanes::has_lane(
            valid,
            l,
        ) by {
            lanes::lemma_empty_mask(l);
            assert(!lanes::has_lane(outside, l));
        }
    }
}

/// The mask of the lanes that exist is accepted from every thread of the
/// warp.
pub proof fn the_whole_warp_is_a_good_mask(t: ThreadCtx)
    requires
        t.wf(),
    ensures
        mask_problem(t, t.valid_lanes()) is None,
{
    let valid = t.valid_lanes();
    assert(valid & !valid == 0) by (bit_vector);
    ctx::own_lane_exists(t);
}

/// The butterfly exchange is mutual: the lane a thread reads from reads from
/// it.
pub proof fn butterflies_are_mutual(a: ThreadCtx, b: ThreadCtx, lane_mask: u32)
    requires
        a.wf(),
        b.wf(),
        a.config.warp_size == b.config.warp_size,
        xor_source(a, lane_mask) == Some(b.thread % b.config.warp_size),
    ensures
        xor_source(b, lane_mask) == Some(a.thread % a.config.warp_size),
{
    let x = a.thread % a.config.warp_size;
    let y = b.thread % b.config.warp_size;
    assert((x ^ lane_mask) ^ lane_mask == x) by (bit_vector);
}

/// Shuffling down and up by the same distance point at each other.
pub proof fn up_undoes_down(a: ThreadCtx, b: ThreadCtx, delta: u32)
    requires
        a.wf(),
        b.wf(),
        a.config.warp_size == b.config.warp_size,
        down_source(a, delta) == Some(b.thread % b.config.warp_size),
    ensures
        up_source(b, delta) == Some(a.thread % a.config.warp_size),
{
}

/// Whether every lane of this warp that is parked on arrival has published.
pub open spec fn arrivals_published<T>(
    m: Machine,
    block: int,
    warp: int,
    slots: Seq<Option<T>>,
) -> bool {
    forall|l: int|
        0 <= l < m.shape.lanes_in(warp) && #[trigger] waits_to_arrive(m, block, warp, l)
            ==> has_published(slots, l)
}

/// Whether a lane of this warp is parked on arrival.
pub open spec fn waits_to_arrive(m: Machine, block: int, warp: int, l: int) -> bool {
    let p = m.shape.warp_base(block, warp) + l;
    m.status[p] is AtWarp && (m.warp_wait[p] matches Some(w) && w.phase == PHASE_ARRIVE)
}

/// A lane that gets past the arrival finds a value from every lane its mask
/// names, and whoever still waits has published too.
pub proof fn nobody_reads_before_all_have_published<T>(
    r: Running,
    me: int,
    slots: Seq<Option<T>>,
    value: T,
    mask: u32,
    op: &'static str,
    at: Location,
)
    requires
        r.wf(),
        r.has_thread(me),
        r.config.warp_size <= slots.len(),
        mask_problem(r.thread(me), mask) is None,
        arrivals_published(
            r.machine,
            r.machine.shape.block_of(me),
            r.machine.shape.warp_of(me),
            slots,
        ),
    ensures
        ({
            let after = arrived(r, me, mask, op, at).machine;
            let now = slots_after(r.thread(me), slots, value, mask);
            &&& after.status[me] is Runnable ==> members_published(now, mask)
            &&& arrivals_published(
                after,
                r.machine.shape.block_of(me),
                r.machine.shape.warp_of(me),
                now,
            )
        }),
{
    let m = r.machine;
    let t = r.thread(me);
    let block = m.shape.block_of(me);
    let warp = m.shape.warp_of(me);
    let lane = m.shape.lane_of(me);
    let wait = WarpWait { phase: PHASE_ARRIVE, mask, at, op };
    state::resident_threads_belong_to_the_launch(r, me);
    geometry::every_thread_has_a_lane(m.shape, me);
    geometry::lemma_warp_in_block(m.shape, block, warp);
    let here = machine::parked(m, me, wait);
    let after = arrived(r, me, mask, op, at).machine;
    let now = slots_after(t, slots, value, mask);
    schedule_laws::nobody_passes_a_rendezvous_alone(m, me, wait);
    // The lanes the mask names are lanes of this warp.
    masks_outside_name_missing_lanes(mask, t.valid_lanes());
    ctx::lemma_valid_lanes(t);
    assert(m.shape.lanes_in(warp) == t.own_block().lanes_in(warp));
    assert forall|l: int| 0 <= l < m.shape.lanes_in(warp) && #[trigger] waits_to_arrive(
        here,
        block,
        warp,
        l,
    ) implies has_published(now, l) by {
        if l != lane {
            assert(waits_to_arrive(m, block, warp, l));
        }
    }
    if after.status[me] is Runnable {
        assert forall|l: int| #[trigger] lanes::has_lane(mask, l) implies has_published(now, l) by {
            assert(lanes::has_lane(t.valid_lanes(), l));
            assert(0 <= l < m.shape.lanes_in(warp));
            assert(waits_to_arrive(here, block, warp, l));
        }
    }
    assert forall|l: int| 0 <= l < m.shape.lanes_in(warp) && #[trigger] waits_to_arrive(
        after,
        block,
        warp,
        l,
    ) implies has_published(now, l) by {
        assert(waits_to_arrive(here, block, warp, l));
    }
}

/// A mask that cannot be honoured is a trap: it is reported, the launch is
/// aborted, and nobody parks.
pub proof fn a_wrong_mask_is_a_trap(
    r: Running,
    me: int,
    mask: u32,
    op: &'static str,
    at: Location,
)
    requires
        mask_problem(r.thread(me), mask) is Some,
    ensures
        ({
            let problem = mask_problem(r.thread(me), mask)->0;
            let after = arrived(r, me, mask, op, at);
            &&& after.machine.aborted
            &&& after.machine.status == r.machine.status
            &&& after.findings == diag::reported(
                r.findings,
                lane_finding(r.thread(me), op, at, mask, problem),
            )
        }),
{
}

/// A shuffle from a lane outside the mask is reported and goes on: the lane
/// keeps its own value and the launch is not aborted by it.
pub proof fn a_wrong_source_is_reported<T>(
    r: Running,
    me: int,
    slots: Seq<Option<T>>,
    mask: u32,
    op: &'static str,
    at: Location,
    value: T,
    src: u32,
)
    requires
        !lanes::has_lane(mask, src as int),
    ensures
        ({
            let after = after_shuffle(r, me, mask, op, at, Some(src));
            &&& shuffled(slots, mask, value, Some(src)) == value
            &&& after.machine == r.machine
            &&& after.findings == diag::reported(
                r.findings,
                lane_finding(
                    r.thread(me),
                    op,
                    at,
                    mask,
                    LaneProblem::SourceLaneNotInMask { src },
                ),
            )
        }),
{
}

/// A collective hands over nothing between blocks: it leaves what every thread
/// has seen as it was, so a lane that releases after one publishes only its
/// own work.
pub proof fn collectives_hand_over_nothing(
    r: Running,
    me: int,
    mask: u32,
    op: &'static str,
    at: Location,
)
    ensures
        arrived(r, me, mask, op, at).clocks == r.clocks,
        state::stepped(
            r,
            machine::rendezvous_step(
                r.machine,
                me,
                WarpWait { phase: PHASE_DEPART, mask, at, op },
            ),
        ).clocks == r.clocks,
{
}

/// A butterfly reads the lane that differs from the caller's in exactly the
/// bits of `lane_mask`, if the warp has such a lane, and else none.
pub proof fn butterflies_flip_the_bits_of_the_mask(t: ThreadCtx, lane_mask: u32, s: u32)
    requires
        t.wf(),
        forall|k: u32|
            k < 32 ==> ((#[trigger] (s >> k)) % 2 == ((t.thread % t.config.warp_size) >> k) % 2
                <==> (lane_mask >> k) % 2 == 0),
    ensures
        s < t.config.warp_size ==> xor_source(t, lane_mask) == Some(s),
        s >= t.config.warp_size ==> xor_source(t, lane_mask) is None,
{
    let lane = t.thread % t.config.warp_size;
    let x = lane ^ lane_mask;
    assert forall|l: int| 0 <= l < 32 implies lanes::has_lane(s, l) == lanes::has_lane(x, l) by {
        let k = l as u32;
        lanes::lanes_are_bits(s, k);
        lanes::lanes_are_bits(x, k);
        assert((s >> k) % 2 == (lane >> k) % 2 <==> (lane_mask >> k) % 2 == 0);
        assert(((lane ^ lane_mask) >> k) % 2 == (lane >> k) % 2 <==> (lane_mask >> k) % 2 == 0)
            by (bit_vector)
            requires
                k < 32,
        ;
        assert((lane >> k) % 2 < 2 && (s >> k) % 2 < 2 && (x >> k) % 2 < 2) by (bit_vector);
    }
    lanes::masks_agree_when_lanes_do(s, x);
}

/// Where the other shuffles read: `__shfl_sync` the lane that the number it is
/// given leaves when whole warps are taken off it, `__shfl_up_sync` the lane
/// from which `delta` leads up to the caller, and `__shfl_down_sync` the lane
/// to which `delta` leads up from the caller, if the warp has it.
pub proof fn shuffles_read_where_they_say(t: ThreadCtx, n: u32, s: u32)
    requires
        t.wf(),
    ensures
        ({
            let lane = (t.thread % t.config.warp_size) as int;
            let width = t.config.warp_size as int;
            &&& direct_source(t, n) == Some(s) <==> s < width && exists|whole: int|
                0 <= whole && n == #[trigger] (whole * width) + s
            &&& up_source(t, n) == Some(s) <==> s + n == lane
            &&& up_source(t, n) is None <==> n > lane
            &&& down_source(t, n) == Some(s) <==> s == lane + n && s < width
            &&& down_source(t, n) is None <==> lane + n >= width
        }),
{
    let width = t.config.warp_size as int;
    vstd::arithmetic::div_mod::lemma_fundamental_div_mod(n as int, width);
    let q = n as int / width;
    assert(q * width == width * q) by (nonlinear_arith);
    assert(q >= 0) by (nonlinear_arith)
        requires
            q == n as int / width,
            n >= 0,
            width > 0,
    ;
    if s == n % t.config.warp_size {
        assert(n == (q * width) + s);
    }
    if s < width && exists|whole: int| 0 <= whole && n == #[trigger] (whole * width) + s {
        let whole = choose|whole: int| 0 <= whole && n == #[trigger] (whole * width) + s;
        assert(whole * width == width * whole) by (nonlinear_arith);
        vstd::arithmetic::div_mod::lemma_fundamental_div_mod_converse(
            n as int,
            width,
            whole,
            s as int,
        );
    }
}

/// A shuffle gives what the lane it reads published, if the mask names that
/// lane, and else the caller's own value, which it also keeps when there is no
/// lane to read.
pub proof fn shuffles_give_what_was_published<T>(
    slots: Seq<Option<T>>,
    mask: u32,
    own: T,
    s: u32,
    published: T,
)
    requires
        s < 32,
        s < slots.len(),
        slots[s as int] == Some(published),
    ensures
        (mask >> s) % 2 == 1 ==> shuffled(slots, mask, own, Some(s)) == published,
        (mask >> s) % 2 == 0 ==> shuffled(slots, mask, own, Some(s)) == own,
        shuffled(slots, mask, own, None) == own,
{
    lanes::lanes_are_bits(mask, s);
    assert((mask >> s) % 2 < 2) by (bit_vector);
}

/// A shuffle that reads a member, or nothing, reports nothing.
pub proof fn good_shuffles_report_nothing(
    r: Running,
    me: int,
    mask: u32,
    op: &'static str,
    at: Location,
    src: Option<u32>,
)
    requires
        src matches Some(s) ==> s < 32 && (mask >> s) % 2 == 1,
    ensures
        after_shuffle(r, me, mask, op, at, src) == r,
{
    if let Some(s) = src {
        lanes::lanes_are_bits(mask, s);
    }
}

/// A mask is accepted from a thread exactly when it names the thread's own
/// lane and no lane that its block does not fill; a lane that does not exist
/// is complained about before a caller left out, with the lanes that do exist.
pub proof fn good_masks_name_the_caller_and_existing_lanes(t: ThreadCtx, mask: u32)
    requires
        t.wf(),
    ensures
        ({
            let width = t.config.warp_size as int;
            let lane = (t.thread % t.config.warp_size) as int;
            let first = t.thread - lane;
            let exists_lane = |l: int|
                0 <= l < width && first + l < t.config.block.volume();
            &&& mask_problem(t, mask) is None <==> lanes::has_lane(mask, lane) && forall|l: int|
                lanes::has_lane(mask, l) ==> #[trigger] exists_lane(l)
            &&& mask_problem(t, mask) matches Some(LaneProblem::MaskOutsideBlock { valid }) ==> {
                &&& forall|l: int| #[trigger] exists_lane(l) <==> lanes::has_lane(valid, l)
                &&& exists|l: int| lanes::has_lane(mask, l) && !#[trigger] exists_lane(l)
            }
            &&& mask_problem(t, mask) == Some(LaneProblem::CallerNotInMask) ==> {
                &&& !lanes::has_lane(mask, lane)
                &&& forall|l: int| lanes::has_lane(mask, l) ==> #[trigger] exists_lane(l)
            }
            &&& !(mask_problem(t, mask) matches Some(LaneProblem::SourceLaneNotInMask { .. }))
        }),
{
    let width = t.config.warp_size as int;
    let lane = (t.thread % t.config.warp_size) as int;
    let warp = (t.thread / t.config.warp_size) as int;
    let first = t.thread - lane;
    let exists_lane = |l: int| 0 <= l < width && first + l < t.config.block.volume();
    let valid = t.valid_lanes();
    ctx::lemma_valid_lanes(t);
    ctx::lemma_own_block(t);
    masks_outside_name_missing_lanes(mask, valid);
    vstd::arithmetic::div_mod::lemma_fundamental_div_mod(t.thread as int, width);
    assert(warp * width == width * warp) by (nonlinear_arith);
    assert(first == warp * t.own_block().warp_size);
    assert forall|l: int| #[trigger] exists_lane(l) <==> lanes::has_lane(valid, l) by {}
    if mask & !valid != 0 {
        let l = choose|l: int| #[trigger] lanes::has_lane(mask, l) && !lanes::has_lane(valid, l);
        assert(!exists_lane(l));
    } else {
        assert forall|l: int| lanes::has_lane(mask, l) implies #[trigger] exists_lane(l) by {
            assert(lanes::has_lane(valid, l));
        }
    }
}

/// The count of a mask is the number of lanes it names.
pub proof fn lanes_are_counted_once_each(mask: u32, n: int)
    requires
        0 <= n <= 32,
    ensures
        ({
            let named = Set::new(|l: int| 0 <= l < n && lanes::has_lane(mask, l));
            named.finite() && named.len() == lane_count(mask, n)
        }),
    decreases n,
{
    let all = Set::new(|l: int| 0 <= l < n && lanes::has_lane(mask, l));
    if n == 0 {
        assert(all =~= Set::empty());
    } else {
        let some = Set::new(|l: int| 0 <= l < n - 1 && lanes::has_lane(mask, l));
        lanes_are_counted_once_each(mask, n - 1);
        if lanes::has_lane(mask, n - 1) {
            assert(all =~= some.insert(n - 1));
        } else {
            assert(all =~= some);
        }
    }
}

/// A thread that enters a collective with a good mask publishes its value in
/// the slot of its own lane, and leaves the other slots alone; with a bad one
/// it publishes nothing.
pub proof fn values_are_published_in_the_own_slot<T>(
    t: ThreadCtx,
    slots: Seq<Option<T>>,
    value: T,
    mask: u32,
    l: int,
)
    requires
        t.wf(),
        t.config.warp_size <= slots.len(),
        0 <= l < slots.len(),
    ensures
        mask_problem(t, mask) is Some ==> slots_after(t, slots, value, mask) == slots,
        mask_problem(t, mask) is None ==> slots_after(t, slots, value, mask)[l] == if l == t.thread
            % t.config.warp_size {
            Some(value)
        } else {
            slots[l]
        },
{
}

/// Every lane a mask names has published exactly when none of its bits is set
/// for a lane without a value.
pub proof fn publishing_is_checked_lane_by_lane<T>(slots: Seq<Option<T>>, mask: u32)
    ensures
        members_published(slots, mask) <==> forall|k: u32|
            k < 32 && (#[trigger] (mask >> k)) % 2 == 1 ==> k < slots.len() && slots[k as int]
                is Some,
{
    assert forall|k: u32| k < 32 implies ((#[trigger] (mask >> k)) % 2 == 1 <==> lanes::has_lane(
        mask,
        k as int,
    )) by {
        lanes::lanes_are_bits(mask, k);
    }
    if forall|k: u32|
        k < 32 && (#[trigger] (mask >> k)) % 2 == 1 ==> k < slots.len() && slots[k as int] is Some {
        assert forall|l: int| #[trigger] lanes::has_lane(mask, l) implies has_published(
            slots,
            l,
        ) by {
            let k = l as u32;
            assert((mask >> k) % 2 == 1);
        }
    } else {
        let k = choose|k: u32|
            k < 32 && (#[trigger] (mask >> k)) % 2 == 1 && !(k < slots.len() && slots[k as int]
                is Some);
        assert(lanes::has_lane(mask, k as int));
    }
}

/// A finding about a lane names the thread's block, its warp, its lane and the
/// mask it passed.
pub proof fn lane_findings_name_the_lane(
    t: ThreadCtx,
    op: &'static str,
    at: Location,
    mask: u32,
    problem: LaneProblem,
)
    requires
        t.wf(),
    ensures
        ({
            &&& lane_finding(t, op, at, mask, problem) matches Diagnostic::WarpLaneError {
                block,
                warp,
                op: named,
                at: there,
                lane,
                mask: passed,
                problem: what,
            }
            &&& block == t.block
            &&& warp * t.config.warp_size + lane == t.thread
            &&& lane < t.config.warp_size
            &&& named == op
            &&& there == at
            &&& passed == mask
            &&& what == problem
        }),
{
    vstd::arithmetic::div_mod::lemma_fundamental_div_mod(
        t.thread as int,
        t.config.warp_size as int,
    );
    let (w, q) = (t.config.warp_size as int, (t.thread / t.config.warp_size) as int);
    assert(w * q == q * w) by (nonlinear_arith);
}

} // verus!
