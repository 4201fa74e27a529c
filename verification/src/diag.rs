//! What a launch can find, how a finding is worded, and how findings are
//! collected without repeating themselves.

use vstd::prelude::*;

use crate::lanes::{self, lane_list};
use crate::location::{self, Location, Place};
use crate::text::{self, push_decimal, same_text, text_not_after};

verus! {

/// What kind of memory operation an access was.
#[derive(Clone, Copy, Debug, PartialEq, Eq, Hash, Structural)]
pub enum AccessKind {
    Read,
    Write,
    /// An atomic operation. Atomics never race with each other, but do race
    /// with concurrent plain reads and writes.
    Atomic,
}

/// One recorded memory access.
#[derive(Clone, Copy, Debug, PartialEq, Eq)]
pub struct Access {
    /// Linear block index.
    pub block: u32,
    /// Linear thread index within the block.
    pub thread: u32,
    /// Barrier generation of the block when the access happened.
    pub epoch: u64,
    /// Warp index within the block.
    pub warp: u32,
    /// Collective generation of the warp when the access happened.
    pub warp_epoch: u64,
    /// The acting thread's own operation counter at this access, which is
    /// what other threads' clocks are held against.
    pub seq: u64,
    pub kind: AccessKind,
    /// Source location of the access in the kernel.
    pub location: Location,
}

/// Which memory an access touched.
#[derive(Debug, PartialEq, Eq, Hash)]
pub enum MemSpace {
    Global { buffer: String },
    Shared { block: u32, name: &'static str },
}

impl Clone for MemSpace {
    fn clone(&self) -> (r: MemSpace)
        ensures
            r == *self,
    {
        match self {
            MemSpace::Global { buffer } => MemSpace::Global { buffer: buffer.clone() },
            MemSpace::Shared { block, name } => MemSpace::Shared { block: *block, name: *name },
        }
    }
}

/// Ways a lane can name the wrong threads in a warp collective.
///
/// These are undefined behaviour in CUDA rather than merely surprising, so
/// the first two are fatal and end the launch.
#[derive(Clone, Copy, Debug, PartialEq, Eq, Hash, Structural)]
pub enum LaneProblem {
    /// The calling lane left itself out of its own member mask.
    CallerNotInMask,
    /// The mask names lanes that do not exist, because the block does not
    /// fill this warp. `valid` is the mask of lanes that do exist.
    MaskOutsideBlock { valid: u32 },
    /// A shuffle read from a lane that is not a member of the mask, so the
    /// value it would return was never contributed.
    SourceLaneNotInMask { src: u32 },
}

/// A problem found while executing a kernel.
#[derive(Debug, PartialEq)]
pub enum Diagnostic {
    DataRace { space: MemSpace, index: usize, first: Access, second: Access },
    UninitRead { space: MemSpace, index: usize, access: Access },
    OutOfBounds { space: MemSpace, index: usize, len: usize, access: Access },
    BarrierDivergence {
        block: u32,
        /// Threads of the block waiting at the barrier.
        waiting: usize,
        /// Threads of the block that exited without reaching it.
        exited: usize,
        /// Where the waiting threads are blocked.
        barrier: Location,
    },
    /// A warp collective was reached by only some of the lanes its mask
    /// names. The missing lanes branched elsewhere, exited, or stopped at a
    /// different collective, so the warp can never reconverge here.
    WarpDivergence {
        block: u32,
        /// Warp index within the block.
        warp: u32,
        /// Name of the collective, e.g. `shfl_down_sync`.
        op: &'static str,
        /// Member mask the waiting lanes passed.
        mask: u32,
        /// Lanes that actually reached this collective.
        arrived: u32,
        /// Where the waiting lanes are blocked.
        at: Location,
    },
    /// Two lanes reached the same collective with different member masks.
    /// Every participant must agree on who is taking part.
    WarpMaskMismatch {
        block: u32,
        warp: u32,
        op: &'static str,
        at: Location,
        lane: u32,
        mask: u32,
        other_lane: u32,
        other_mask: u32,
    },
    /// A lane named a set of threads that cannot be honoured.
    WarpLaneError {
        block: u32,
        warp: u32,
        op: &'static str,
        at: Location,
        lane: u32,
        mask: u32,
        problem: LaneProblem,
    },
    KernelPanic { block: u32, thread: u32, message: String },
}

impl Clone for Diagnostic {
    fn clone(&self) -> (r: Diagnostic)
        ensures
            r == *self,
    {
        match self {
            Diagnostic::DataRace { space, index, first, second } => Diagnostic::DataRace {
                space: space.clone(),
                index: *index,
                first: *first,
                second: *second,
            },
            Diagnostic::UninitRead { space, index, access } => Diagnostic::UninitRead {
                space: space.clone(),
                index: *index,
                access: *access,
            },
            Diagnostic::OutOfBounds { space, index, len, access } => Diagnostic::OutOfBounds {
                space: space.clone(),
                index: *index,
                len: *len,
                access: *access,
            },
            Diagnostic::BarrierDivergence { block, waiting, exited, barrier } => {
                Diagnostic::BarrierDivergence {
                    block: *block,
                    waiting: *waiting,
                    exited: *exited,
                    barrier: *barrier,
                }
            },
            Diagnostic::WarpDivergence { block, warp, op, mask, arrived, at } => {
                Diagnostic::WarpDivergence {
                    block: *block,
                    warp: *warp,
                    op: *op,
                    mask: *mask,
                    arrived: *arrived,
                    at: *at,
                }
            },
            Diagnostic::WarpMaskMismatch {
                block,
                warp,
                op,
                at,
                lane,
                mask,
                other_lane,
                other_mask,
            } => Diagnostic::WarpMaskMismatch {
                block: *block,
                warp: *warp,
                op: *op,
                at: *at,
                lane: *lane,
                mask: *mask,
                other_lane: *other_lane,
                other_mask: *other_mask,
            },
            Diagnostic::WarpLaneError { block, warp, op, at, lane, mask, problem } => {
                Diagnostic::WarpLaneError {
                    block: *block,
                    warp: *warp,
                    op: *op,
                    at: *at,
                    lane: *lane,
                    mask: *mask,
                    problem: *problem,
                }
            },
            Diagnostic::KernelPanic { block, thread, message } => Diagnostic::KernelPanic {
                block: *block,
                thread: *thread,
                message: message.clone(),
            },
        }
    }
}

// ------------------------------------------------------------- wording ---

/// How the kind of an access is named.
pub open spec fn kind_text(kind: AccessKind) -> Seq<char> {
    match kind {
        AccessKind::Read => "Read"@,
        AccessKind::Write => "Write"@,
        AccessKind::Atomic => "Atomic"@,
    }
}

/// How a memory is named.
pub open spec fn space_text(space: MemSpace) -> Seq<char> {
    match space {
        MemSpace::Global { buffer } => "global `"@ + buffer@ + "`"@,
        MemSpace::Shared { block, name } => "shared `"@ + name@ + "` (block "@ + text::decimal(
            block as nat,
        ) + ")"@,
    }
}

/// How one element of a memory is named.
pub open spec fn element_text(space: MemSpace, index: usize) -> Seq<char> {
    space_text(space) + "["@ + text::decimal(index as nat) + "]"@
}

/// How the thread behind an access is named, with what it did and where.
pub open spec fn who_text(a: Access) -> Seq<char> {
    "block "@ + text::decimal(a.block as nat) + " thread "@ + text::decimal(a.thread as nat) + " ("@
        + kind_text(a.kind) + " at "@ + location::place_text(a.location@) + ")"@
}

/// How a lane problem is worded.
pub open spec fn problem_text(p: LaneProblem) -> Seq<char> {
    match p {
        LaneProblem::CallerNotInMask => "the calling lane is not a member of its own mask"@,
        LaneProblem::MaskOutsideBlock { valid } =>
            "the mask names lanes outside the block (lanes "@ + lanes::lane_list_text(valid) + " exist)"@,
        LaneProblem::SourceLaneNotInMask { src } => "source lane "@ + text::decimal(src as nat)
            + " is not a member of the mask"@,
    }
}

/// The name of a lane problem without the fields that vary by schedule.
pub open spec fn problem_kind(p: LaneProblem) -> Seq<char> {
    match p {
        LaneProblem::CallerNotInMask => "caller-not-in-mask"@,
        LaneProblem::MaskOutsideBlock { .. } => "mask-outside-block"@,
        LaneProblem::SourceLaneNotInMask { .. } => "source-lane-not-in-mask"@,
    }
}

/// `block B warp W`.
pub open spec fn warp_text(block: u32, warp: u32) -> Seq<char> {
    text::decimal(block as nat) + " warp "@ + text::decimal(warp as nat)
}

/// How a finding is worded.
pub open spec fn diagnostic_text(d: Diagnostic) -> Seq<char> {
    match d {
        Diagnostic::DataRace { space, index, first, second } => "data race on "@ + element_text(
            space,
            index,
        ) + ": "@ + who_text(first) + " conflicts with "@ + who_text(second)
            + " with no barrier between them"@,
        Diagnostic::UninitRead { space, index, access } => "read of uninitialised "@ + element_text(
            space,
            index,
        ) + " by "@ + who_text(access),
        Diagnostic::OutOfBounds { space, index, len, access } => "out-of-bounds access "@
            + element_text(space, index) + " (len "@ + text::decimal(len as nat) + ") by "@ + who_text(
            access,
        ),
        Diagnostic::BarrierDivergence { block, waiting, exited, barrier } =>
            "barrier divergence in block "@ + text::decimal(block as nat) + ": "@ + text::decimal(
            waiting as nat,
        ) + " thread(s) wait at "@ + location::place_text(barrier@) + " but "@ + text::decimal(exited as nat)
            + " thread(s) exited without reaching it"@,
        Diagnostic::WarpDivergence { block, warp, op, mask, arrived, at } =>
            "warp divergence in block "@ + warp_text(block, warp) + ": `"@ + op@ + "` at "@
            + location::place_text(at@) + " names lanes "@ + lanes::lane_list_text(mask) + " but only lanes "@
            + lanes::lane_list_text(arrived) + " arrived, so lanes "@ + lanes::lane_list_text(mask & !arrived)
            + " never reach it"@,
        Diagnostic::WarpMaskMismatch {
            block,
            warp,
            op,
            at,
            lane,
            mask,
            other_lane,
            other_mask,
        } => "warp mask mismatch in block "@ + warp_text(block, warp) + ": `"@ + op@ + "` at "@
            + location::place_text(at@) + " was called by lane "@ + text::decimal(lane as nat) + " with lanes "@
            + lanes::lane_list_text(mask) + " but by lane "@ + text::decimal(other_lane as nat)
            + " with lanes "@ + lanes::lane_list_text(other_mask),
        Diagnostic::WarpLaneError { block, warp, op, at, lane, mask, problem } =>
            "invalid warp collective in block "@ + warp_text(block, warp) + ": lane "@ + text::decimal(
            lane as nat,
        ) + " called `"@ + op@ + "` at "@ + location::place_text(at@) + " with lanes "@ + lanes::lane_list_text(mask)
            + " but "@ + problem_text(problem),
        Diagnostic::KernelPanic { block, thread, message } => "kernel panic in block "@ + text::decimal(
            block as nat,
        ) + " thread "@ + text::decimal(thread as nat) + ": "@ + message@,
    }
}

/// Two places in source order.
pub open spec fn in_order(a: Place, b: Place) -> (Place, Place) {
    if location::place_le(a, b) {
        (a, b)
    } else {
        (b, a)
    }
}

/// The identity of a finding: its kind and the source locations involved.
pub open spec fn fingerprint_text(d: Diagnostic) -> Seq<char> {
    match d {
        Diagnostic::DataRace { first, second, .. } => {
            let (a, b) = in_order(first.location@, second.location@);
            "race@"@ + location::place_text(a) + "~"@ + location::place_text(b)
        },
        Diagnostic::UninitRead { access, .. } => "uninit@"@ + location::place_text(access.location@),
        Diagnostic::OutOfBounds { access, .. } => "oob@"@ + location::place_text(access.location@),
        Diagnostic::BarrierDivergence { barrier, .. } => "barrier@"@ + location::place_text(barrier@),
        Diagnostic::WarpDivergence { op, at, .. } => "warp-divergence:"@ + op@ + "@"@ + location::place_text(
            at@,
        ),
        Diagnostic::WarpMaskMismatch { op, at, .. } => "warp-mask-mismatch:"@ + op@ + "@"@
            + location::place_text(at@),
        Diagnostic::WarpLaneError { op, at, problem, .. } => "warp-lane-error:"@ + op@ + ":"@
            + problem_kind(problem) + "@"@ + location::place_text(at@),
        Diagnostic::KernelPanic { message, .. } => "panic:"@ + message@,
    }
}

impl AccessKind {
    /// The kind's name.
    pub fn name(self) -> (r: &'static str)
        ensures
            r@ == kind_text(self),
    {
        match self {
            AccessKind::Read => "Read",
            AccessKind::Write => "Write",
            AccessKind::Atomic => "Atomic",
        }
    }
}

impl MemSpace {
    /// The memory as messages name it.
    pub fn to_string(&self) -> (r: String)
        ensures
            r@ == space_text(*self),
    {
        match self {
            MemSpace::Global { buffer } => {
                let mut out = "global `".to_owned();
                out.append(buffer.as_str());
                out.append("`");
                out
            },
            MemSpace::Shared { block, name } => {
                let mut out = "shared `".to_owned();
                out.append(name);
                out.append("` (block ");
                push_decimal(&mut out, *block as u128);
                out.append(")");
                out
            },
        }
    }
}

impl LaneProblem {
    /// The problem as messages word it.
    pub fn to_string(&self) -> (r: String)
        ensures
            r@ == problem_text(*self),
    {
        match self {
            LaneProblem::CallerNotInMask => {
                "the calling lane is not a member of its own mask".to_owned()
            },
            LaneProblem::MaskOutsideBlock { valid } => {
                let mut out = "the mask names lanes outside the block (lanes ".to_owned();
                out.append(lane_list(*valid).as_str());
                out.append(" exist)");
                out
            },
            LaneProblem::SourceLaneNotInMask { src } => {
                let mut out = "source lane ".to_owned();
                push_decimal(&mut out, *src as u128);
                out.append(" is not a member of the mask");
                out
            },
        }
    }

    /// The variant name, without the fields that vary by schedule.
    pub fn kind(&self) -> (r: &'static str)
        ensures
            r@ == problem_kind(*self),
    {
        match self {
            LaneProblem::CallerNotInMask => "caller-not-in-mask",
            LaneProblem::MaskOutsideBlock { .. } => "mask-outside-block",
            LaneProblem::SourceLaneNotInMask { .. } => "source-lane-not-in-mask",
        }
    }
}

/// Names one element of a memory.
fn element(space: &MemSpace, index: usize) -> (r: String)
    ensures
        r@ == element_text(*space, index),
{
    let mut out = space.to_string();
    out.append("[");
    push_decimal(&mut out, index as u128);
    out.append("]");
    out
}

/// Names the thread behind an access.
fn who(a: &Access) -> (r: String)
    ensures
        r@ == who_text(*a),
{
    let mut out = "block ".to_owned();
    push_decimal(&mut out, a.block as u128);
    out.append(" thread ");
    push_decimal(&mut out, a.thread as u128);
    out.append(" (");
    out.append(a.kind.name());
    out.append(" at ");
    a.location.push_to(&mut out);
    out.append(")");
    out
}

/// Names a warp of a block.
fn warp_name(block: u32, warp: u32) -> (r: String)
    ensures
        r@ == warp_text(block, warp),
{
    let mut out = String::new();
    push_decimal(&mut out, block as u128);
    assert(out@ =~= text::decimal(block as nat));
    out.append(" warp ");
    push_decimal(&mut out, warp as u128);
    out
}

impl Diagnostic {
    /// The finding as reports word it.
    pub fn to_string(&self) -> (r: String)
        ensures
            r@ == diagnostic_text(*self),
    {
        match self {
            Diagnostic::DataRace { space, index, first, second } => {
                let mut out = "data race on ".to_owned();
                out.append(element(space, *index).as_str());
                out.append(": ");
                out.append(who(first).as_str());
                out.append(" conflicts with ");
                out.append(who(second).as_str());
                out.append(" with no barrier between them");
                out
            },
            Diagnostic::UninitRead { space, index, access } => {
                let mut out = "read of uninitialised ".to_owned();
                out.append(element(space, *index).as_str());
                out.append(" by ");
                out.append(who(access).as_str());
                out
            },
            Diagnostic::OutOfBounds { space, index, len, access } => {
                let mut out = "out-of-bounds access ".to_owned();
                out.append(element(space, *index).as_str());
                out.append(" (len ");
                push_decimal(&mut out, *len as u128);
                out.append(") by ");
                out.append(who(access).as_str());
                out
            },
            Diagnostic::BarrierDivergence { block, waiting, exited, barrier } => {
                let mut out = "barrier divergence in block ".to_owned();
                push_decimal(&mut out, *block as u128);
                out.append(": ");
                push_decimal(&mut out, *waiting as u128);
                out.append(" thread(s) wait at ");
                barrier.push_to(&mut out);
                out.append(" but ");
                push_decimal(&mut out, *exited as u128);
                out.append(" thread(s) exited without reaching it");
                out
            },
            Diagnostic::WarpDivergence { block, warp, op, mask, arrived, at } => {
                let mut out = "warp divergence in block ".to_owned();
                out.append(warp_name(*block, *warp).as_str());
                out.append(": `");
                out.append(op);
                out.append("` at ");
                at.push_to(&mut out);
                out.append(" names lanes ");
                out.append(lane_list(*mask).as_str());
                out.append(" but only lanes ");
                out.append(lane_list(*arrived).as_str());
                out.append(" arrived, so lanes ");
                out.append(lane_list(*mask & !*arrived).as_str());
                out.append(" never reach it");
                out
            },
            Diagnostic::WarpMaskMismatch {
                block,
                warp,
                op,
                at,
                lane,
                mask,
                other_lane,
                other_mask,
            } => {
                let mut out = "warp mask mismatch in block ".to_owned();
                out.append(warp_name(*block, *warp).as_str());
                out.append(": `");
                out.append(op);
                out.append("` at ");
                at.push_to(&mut out);
                out.append(" was called by lane ");
                push_decimal(&mut out, *lane as u128);
                out.append(" with lanes ");
                out.append(lane_list(*mask).as_str());
                out.append(" but by lane ");
                push_decimal(&mut out, *other_lane as u128);
                out.append(" with lanes ");
                out.append(lane_list(*other_mask).as_str());
                out
            },
            Diagnostic::WarpLaneError { block, warp, op, at, lane, mask, problem } => {
                let mut out = "invalid warp collective in block ".to_owned();
                out.append(warp_name(*block, *warp).as_str());
                out.append(": lane ");
                push_decimal(&mut out, *lane as u128);
                out.append(" called `");
                out.append(op);
                out.append("` at ");
                at.push_to(&mut out);
                out.append(" with lanes ");
                out.append(lane_list(*mask).as_str());
                out.append(" but ");
                out.append(problem.to_string().as_str());
                out
            },
            Diagnostic::KernelPanic { block, thread, message } => {
                let mut out = "kernel panic in block ".to_owned();
                push_decimal(&mut out, *block as u128);
                out.append(" thread ");
                push_decimal(&mut out, *thread as u128);
                out.append(": ");
                out.append(message.as_str());
                out
            },
        }
    }

    /// A stable identity for this finding: its kind and the source locations
    /// involved, but not the block, thread, or index that happened to hit it.
    ///
    /// Two runs that find the same bug by different interleavings agree here,
    /// which is what lets a schedule be shrunk while checking that it still
    /// reproduces the *same* problem rather than some other one.
    pub fn fingerprint(&self) -> (r: String)
        ensures
            r@ == fingerprint_text(*self),
    {
        match self {
            Diagnostic::DataRace { first, second, .. } => {
                let swap = !first.location.not_after(&second.location);
                let (a, b) = if swap {
                    (second.location, first.location)
                } else {
                    (first.location, second.location)
                };
                let mut out = "race@".to_owned();
                a.push_to(&mut out);
                out.append("~");
                b.push_to(&mut out);
                out
            },
            Diagnostic::UninitRead { access, .. } => {
                let mut out = "uninit@".to_owned();
                access.location.push_to(&mut out);
                out
            },
            Diagnostic::OutOfBounds { access, .. } => {
                let mut out = "oob@".to_owned();
                access.location.push_to(&mut out);
                out
            },
            Diagnostic::BarrierDivergence { barrier, .. } => {
                let mut out = "barrier@".to_owned();
                barrier.push_to(&mut out);
                out
            },
            Diagnostic::WarpDivergence { op, at, .. } => {
                let mut out = "warp-divergence:".to_owned();
                out.append(op);
                out.append("@");
                at.push_to(&mut out);
                out
            },
            Diagnostic::WarpMaskMismatch { op, at, .. } => {
                let mut out = "warp-mask-mismatch:".to_owned();
                out.append(op);
                out.append("@");
                at.push_to(&mut out);
                out
            },
            Diagnostic::WarpLaneError { op, at, problem, .. } => {
                let mut out = "warp-lane-error:".to_owned();
                out.append(op);
                out.append(":");
                out.append(problem.kind());
                out.append("@");
                at.push_to(&mut out);
                out
            },
            Diagnostic::KernelPanic { message, .. } => {
                let mut out = "panic:".to_owned();
                out.append(message.as_str());
                out
            },
        }
    }
}

// ------------------------------------------------------------- reports ---

/// The result of one kernel launch.
#[derive(Debug)]
pub struct Report {
    /// Scheduler seed; re-run with the same seed to reproduce the schedule.
    pub seed: u64,
    pub diagnostics: Vec<Diagnostic>,
    /// True if the launch was cut short by a trap-like error.
    pub aborted: bool,
}

/// A report as it is written: a heading, then one line per finding.
pub open spec fn report_text(r: Report) -> Seq<char> {
    report_heading(r) + finding_lines(r.diagnostics@)
}

/// The heading of a report.
pub open spec fn report_heading(r: Report) -> Seq<char> {
    "riri: "@ + text::decimal(r.diagnostics@.len()) + " diagnostic(s) (seed "@ + text::decimal(
        r.seed as nat,
    ) + (if r.aborted {
        ", launch aborted"@
    } else {
        ""@
    }) + ")\n"@
}

/// One line per finding, in the order they were reported.
pub open spec fn finding_lines(ds: Seq<Diagnostic>) -> Seq<char>
    decreases ds.len(),
{
    if ds.len() == 0 {
        Seq::empty()
    } else {
        finding_lines(ds.drop_last()) + "  - "@ + diagnostic_text(ds.last()) + "\n"@
    }
}

/// Whether some finding has this fingerprint.
pub open spec fn has_fingerprint(ds: Seq<Diagnostic>, fingerprint: Seq<char>) -> bool {
    exists|i: int| 0 <= i < ds.len() && fingerprint_text(#[trigger] ds[i]) == fingerprint
}

/// Whether the texts come in order and none comes twice.
pub open spec fn strictly_sorted(v: Seq<String>) -> bool {
    forall|i: int, j: int|
        0 <= i < j < v.len() ==> text::text_le((#[trigger] v[i])@, (#[trigger] v[j])@) && v[i]@
            != v[j]@
}

/// Whether some entry reads `t`.
pub open spec fn lists_text(v: Seq<String>, t: Seq<char>) -> bool {
    exists|i: int| 0 <= i < v.len() && (#[trigger] v[i])@ == t
}

impl Clone for Report {
    fn clone(&self) -> (r: Report)
        ensures
            r.seed == self.seed,
            r.diagnostics@ == self.diagnostics@,
            r.aborted == self.aborted,
    {
        let diagnostics = self.diagnostics.clone();
        assert(diagnostics@ =~= self.diagnostics@);
        Report { seed: self.seed, diagnostics, aborted: self.aborted }
    }
}

impl Report {
    pub fn is_clean(&self) -> (r: bool)
        ensures
            r == (self.diagnostics@.len() == 0),
    {
        self.diagnostics.len() == 0
    }

    pub fn has_race(&self) -> (r: bool)
        ensures
            r == exists|i: int|
                0 <= i < self.diagnostics@.len() && (#[trigger] self.diagnostics@[i]) is DataRace,
    {
        let mut i: usize = 0;
        while i < self.diagnostics.len()
            invariant
                i <= self.diagnostics@.len(),
                forall|j: int| 0 <= j < i ==> !((#[trigger] self.diagnostics@[j]) is DataRace),
            decreases self.diagnostics@.len() - i,
        {
            if matches!(self.diagnostics[i], Diagnostic::DataRace { .. }) {
                return true;
            }
            i = i + 1;
        }
        false
    }

    /// True if any lane reached a warp collective that its warp-mates did not.
    pub fn has_warp_divergence(&self) -> (r: bool)
        ensures
            r == exists|i: int|
                0 <= i < self.diagnostics@.len() && (
                #[trigger] self.diagnostics@[i]) is WarpDivergence,
    {
        let mut i: usize = 0;
        while i < self.diagnostics.len()
            invariant
                i <= self.diagnostics@.len(),
                forall|j: int| 0 <= j < i ==> !((#[trigger] self.diagnostics@[j]) is WarpDivergence),
            decreases self.diagnostics@.len() - i,
        {
            if matches!(self.diagnostics[i], Diagnostic::WarpDivergence { .. }) {
                return true;
            }
            i = i + 1;
        }
        false
    }

    /// Every finding's [`Diagnostic::fingerprint`], sorted and de-duplicated.
    pub fn fingerprints(&self) -> (r: Vec<String>)
        ensures
            strictly_sorted(r@),
            forall|t: Seq<char>| #[trigger]
                lists_text(r@, t) == has_fingerprint(self.diagnostics@, t),
    {
        let mut out: Vec<String> = Vec::new();
        let mut k: usize = 0;
        while k < self.diagnostics.len()
            invariant
                k <= self.diagnostics@.len(),
                strictly_sorted(out@),
                forall|t: Seq<char>| #[trigger]
                    lists_text(out@, t) == has_fingerprint(self.diagnostics@.take(k as int), t),
            decreases self.diagnostics@.len() - k,
        {
            let ghost before = out@;
            let f = self.diagnostics[k].fingerprint();
            let ghost fresh = f@;
            insert_sorted(&mut out, f);
            proof {
                let shorter = self.diagnostics@.take(k as int);
                let longer = self.diagnostics@.take(k + 1);
                assert forall|t: Seq<char>| #[trigger] lists_text(out@, t) == has_fingerprint(
                    longer,
                    t,
                ) by {
                    assert(lists_text(out@, t) == (lists_text(before, t) || t == fresh));
                    if has_fingerprint(shorter, t) {
                        let i = choose|i: int|
                            0 <= i < shorter.len() && fingerprint_text(#[trigger] shorter[i]) == t;
                        assert(longer[i] == shorter[i]);
                    }
                    if has_fingerprint(longer, t) {
                        let i = choose|i: int|
                            0 <= i < longer.len() && fingerprint_text(#[trigger] longer[i]) == t;
                        if i < k {
                            assert(shorter[i] == longer[i]);
                        }
                    }
                    assert(longer[k as int] == self.diagnostics@[k as int]);
                }
            }
            k = k + 1;
        }
        assert(self.diagnostics@.take(k as int) =~= self.diagnostics@);
        out
    }

    /// True if this report contains a finding with the given fingerprint.
    pub fn contains(&self, fingerprint: &str) -> (r: bool)
        ensures
            r == has_fingerprint(self.diagnostics@, fingerprint@),
    {
        let mut i: usize = 0;
        while i < self.diagnostics.len()
            invariant
                i <= self.diagnostics@.len(),
                forall|j: int|
                    0 <= j < i ==> fingerprint_text(#[trigger] self.diagnostics@[j])
                        != fingerprint@,
            decreases self.diagnostics@.len() - i,
        {
            if same_text(self.diagnostics[i].fingerprint().as_str(), fingerprint) {
                return true;
            }
            i = i + 1;
        }
        false
    }

    /// The listing a failed clean-run assertion shows, or `None` if the report
    /// is clean.
    pub fn complaint(&self) -> (r: Option<String>)
        ensures
            r is None <==> self.diagnostics@.len() == 0,
            r matches Some(listing) ==> listing@ == report_text(*self),
    {
        if self.is_clean() {
            None
        } else {
            Some(self.to_string())
        }
    }

    /// The report as it is written.
    pub fn to_string(&self) -> (r: String)
        ensures
            r@ == report_text(*self),
    {
        let mut out = "riri: ".to_owned();
        push_decimal(&mut out, self.diagnostics.len() as u128);
        out.append(" diagnostic(s) (seed ");
        push_decimal(&mut out, self.seed as u128);
        if self.aborted {
            out.append(", launch aborted");
        } else {
            out.append("");
        }
        out.append(")\n");
        push_finding_lines(&mut out, &self.diagnostics);
        out
    }
}

/// Appends one line per finding.
pub fn push_finding_lines(out: &mut String, ds: &Vec<Diagnostic>)
    ensures
        final(out)@ == old(out)@ + finding_lines(ds@),
{
    let ghost before = out@;
    let mut i: usize = 0;
    assert(out@ =~= before + finding_lines(ds@.take(0)));
    while i < ds.len()
        invariant
            i <= ds@.len(),
            out@ == before + finding_lines(ds@.take(i as int)),
        decreases ds@.len() - i,
    {
        let ghost shorter = ds@.take(i as int);
        let ghost longer = ds@.take(i + 1);
        out.append("  - ");
        out.append(ds[i].to_string().as_str());
        out.append("\n");
        assert(longer.drop_last() =~= shorter);
        assert(longer.last() == ds@[i as int]);
        assert(out@ =~= before + finding_lines(longer));
        i = i + 1;
    }
    assert(ds@.take(i as int) =~= ds@);
}

/// Puts `t` into its place in a strictly sorted list, unless it is there.
fn insert_sorted(v: &mut Vec<String>, t: String)
    requires
        strictly_sorted(old(v)@),
    ensures
        strictly_sorted(final(v)@),
        forall|x: Seq<char>| #[trigger]
            lists_text(final(v)@, x) == (lists_text(old(v)@, x) || x == t@),
{
    let ghost before = v@;
    let ghost fresh = t@;
    let mut i: usize = 0;
    while i < v.len() && text_not_after(v[i].as_str(), t.as_str()) && !same_text(
        v[i].as_str(),
        t.as_str(),
    )
        invariant
            v@ == before,
            i <= v@.len(),
            t@ == fresh,
            forall|j: int|
                0 <= j < i ==> text::text_le((#[trigger] v@[j])@, fresh) && v@[j]@ != fresh,
        decreases v@.len() - i,
    {
        i = i + 1;
    }
    if i < v.len() && same_text(v[i].as_str(), t.as_str()) {
        assert(lists_text(v@, fresh));
        return ;
    }
    proof {
        assert forall|j: int| i <= j < before.len() implies text::text_le(
            fresh,
            (#[trigger] before[j])@,
        ) && before[j]@ != fresh by {
            lemma_text_order(fresh, before[i as int]@, before[j]@);
            lemma_text_order(before[i as int]@, before[j]@, fresh);
            lemma_text_order(fresh, before[i as int]@, fresh);
        }
    }
    v.insert(i, t);
    proof {
        let after = v@;
        assert forall|x: Seq<char>| #[trigger] lists_text(after, x) == (lists_text(before, x) || x
            == fresh) by {
            assert(after[i as int]@ == fresh);
            if lists_text(before, x) {
                let j = choose|j: int| 0 <= j < before.len() && (#[trigger] before[j])@ == x;
                assert(after[if j < i { j } else { j + 1 }]@ == x);
            }
            if lists_text(after, x) {
                let j = choose|j: int| 0 <= j < after.len() && (#[trigger] after[j])@ == x;
                if j != i {
                    assert(before[if j < i { j } else { j - 1 }]@ == x);
                }
            }
        }
        assert forall|a: int, b: int| 0 <= a < b < after.len() implies text::text_le(
            (#[trigger] after[a])@,
            (#[trigger] after[b])@,
        ) && after[a]@ != after[b]@ by {
            let x = if a < i { a } else { a - 1 };
            let y = if b < i { b } else { b - 1 };
            if a != i {
                assert(after[a] == before[x]);
            }
            if b != i {
                assert(after[b] == before[y]);
            }
        }
    }
}

/// Text order is total, transitive and antisymmetric.
proof fn lemma_text_order(a: Seq<char>, b: Seq<char>, c: Seq<char>)
    ensures
        text::text_le(a, b) || text::text_le(b, a),
        text::text_le(a, b) && text::text_le(b, c) ==> text::text_le(a, c),
        text::text_le(a, b) && text::text_le(b, a) ==> a == b,
{
    let x = vstd::utf8::encode_utf8(a);
    let y = vstd::utf8::encode_utf8(b);
    let z = vstd::utf8::encode_utf8(c);
    text::lemma_bytes_le_total(x, y);
    if text::bytes_le(x, y) && text::bytes_le(y, z) {
        text::lemma_bytes_le_transitive(x, y, z);
    }
    if text::bytes_le(x, y) && text::bytes_le(y, x) {
        text::lemma_bytes_le_antisymmetric(x, y);
        text::lemma_encoding_injective(a, b);
    }
}

// ------------------------------------------------------- the reporter ---

/// The most findings one launch keeps.
pub const MAX_DIAGNOSTICS: usize = 64;

/// What two findings share when the second adds nothing: their kind and
/// source location.
pub enum Key {
    /// The two places of a race, in source order.
    Race(Place, Place),
    Uninit(Place),
    OutOfBounds(Place),
    Barrier(u32, Place),
    WarpDivergence(u32, u32, Place),
    WarpMask(u32, u32, Place),
    WarpLane(LaneProblem, Place),
    Panic(Seq<char>),
}

/// The key of a finding.
pub open spec fn key_of(d: Diagnostic) -> Key {
    match d {
        Diagnostic::DataRace { first, second, .. } => {
            let (a, b) = in_order(first.location@, second.location@);
            Key::Race(a, b)
        },
        Diagnostic::UninitRead { access, .. } => Key::Uninit(access.location@),
        Diagnostic::OutOfBounds { access, .. } => Key::OutOfBounds(access.location@),
        Diagnostic::BarrierDivergence { block, barrier, .. } => Key::Barrier(block, barrier@),
        Diagnostic::WarpDivergence { block, warp, at, .. } => Key::WarpDivergence(block, warp, at@),
        Diagnostic::WarpMaskMismatch { block, warp, at, .. } => Key::WarpMask(block, warp, at@),
        Diagnostic::WarpLaneError { problem, at, .. } => Key::WarpLane(problem, at@),
        Diagnostic::KernelPanic { message, .. } => Key::Panic(message@),
    }
}

/// A stored key.
enum DedupKey {
    Race(Location, Location),
    Uninit(Location),
    OutOfBounds(Location),
    Barrier(u32, Location),
    WarpDivergence(u32, u32, Location),
    WarpMask(u32, u32, Location),
    WarpLane(LaneProblem, Location),
    Panic(String),
}

impl View for DedupKey {
    type V = Key;

    closed spec fn view(&self) -> Key {
        match *self {
            DedupKey::Race(a, b) => Key::Race(a@, b@),
            DedupKey::Uninit(at) => Key::Uninit(at@),
            DedupKey::OutOfBounds(at) => Key::OutOfBounds(at@),
            DedupKey::Barrier(block, at) => Key::Barrier(block, at@),
            DedupKey::WarpDivergence(block, warp, at) => Key::WarpDivergence(block, warp, at@),
            DedupKey::WarpMask(block, warp, at) => Key::WarpMask(block, warp, at@),
            DedupKey::WarpLane(problem, at) => Key::WarpLane(problem, at@),
            DedupKey::Panic(message) => Key::Panic(message@),
        }
    }
}

impl DedupKey {
    fn of(d: &Diagnostic) -> (r: DedupKey)
        ensures
            r@ == key_of(*d),
    {
        match d {
            Diagnostic::DataRace { first, second, .. } => {
                if first.location.not_after(&second.location) {
                    DedupKey::Race(first.location, second.location)
                } else {
                    DedupKey::Race(second.location, first.location)
                }
            },
            Diagnostic::UninitRead { access, .. } => DedupKey::Uninit(access.location),
            Diagnostic::OutOfBounds { access, .. } => DedupKey::OutOfBounds(access.location),
            Diagnostic::BarrierDivergence { block, barrier, .. } => DedupKey::Barrier(
                *block,
                *barrier,
            ),
            Diagnostic::WarpDivergence { block, warp, at, .. } => DedupKey::WarpDivergence(
                *block,
                *warp,
                *at,
            ),
            Diagnostic::WarpMaskMismatch { block, warp, at, .. } => DedupKey::WarpMask(
                *block,
                *warp,
                *at,
            ),
            Diagnostic::WarpLaneError { problem, at, .. } => DedupKey::WarpLane(*problem, *at),
            Diagnostic::KernelPanic { message, .. } => DedupKey::Panic(message.clone()),
        }
    }

    fn same(&self, other: &DedupKey) -> (r: bool)
        ensures
            r == (self@ == other@),
    {
        match (self, other) {
            (DedupKey::Race(a, b), DedupKey::Race(c, d)) => a.same(c) && b.same(d),
            (DedupKey::Uninit(a), DedupKey::Uninit(b)) => a.same(b),
            (DedupKey::OutOfBounds(a), DedupKey::OutOfBounds(b)) => a.same(b),
            (DedupKey::Barrier(x, a), DedupKey::Barrier(y, b)) => *x == *y && a.same(b),
            (DedupKey::WarpDivergence(x, w, a), DedupKey::WarpDivergence(y, v, b)) => *x == *y
                && *w == *v && a.same(b),
            (DedupKey::WarpMask(x, w, a), DedupKey::WarpMask(y, v, b)) => *x == *y && *w == *v
                && a.same(b),
            (DedupKey::WarpLane(p, a), DedupKey::WarpLane(q, b)) => *p == *q && a.same(b),
            (DedupKey::Panic(m), DedupKey::Panic(n)) => same_text(m.as_str(), n.as_str()),
            _ => false,
        }
    }
}

/// What a reporter holds: the findings kept since they were last taken, and
/// the key of every finding ever kept.
#[verifier::ext_equal]
pub struct Findings {
    pub kept: Seq<Diagnostic>,
    pub keys: Seq<Key>,
}

/// What is held before anything was reported.
pub open spec fn no_findings() -> Findings {
    Findings { kept: Seq::empty(), keys: Seq::empty() }
}

/// What is held after reporting `d`: it is kept unless the list is full or a
/// finding with its key was kept before.
pub open spec fn reported(f: Findings, d: Diagnostic) -> Findings {
    if f.kept.len() < MAX_DIAGNOSTICS && !f.keys.contains(key_of(d)) {
        Findings { kept: f.kept.push(d), keys: f.keys.push(key_of(d)) }
    } else {
        f
    }
}

/// What is held after reporting each of `ds` in turn.
pub open spec fn reported_all(f: Findings, ds: Seq<Diagnostic>) -> Findings
    decreases ds.len(),
{
    if ds.len() == 0 {
        f
    } else {
        reported(reported_all(f, ds.drop_last()), ds.last())
    }
}

/// Collects diagnostics, de-duplicating by kind and source location so a
/// racy line in a 1024-thread kernel produces one report, not a thousand.
pub struct Reporter {
    kept: Vec<Diagnostic>,
    keys: Vec<DedupKey>,
}

impl View for Reporter {
    type V = Findings;

    closed spec fn view(&self) -> Findings {
        Findings { kept: self.kept@, keys: self.keys@.map_values(|k: DedupKey| k@) }
    }
}

impl Reporter {
    pub fn new() -> (r: Reporter)
        ensures
            r@ == no_findings(),
    {
        let r = Reporter { kept: Vec::new(), keys: Vec::new() };
        assert(r@ =~= no_findings());
        r
    }

    /// Reports a finding.
    pub fn push(&mut self, d: Diagnostic)
        ensures
            final(self)@ == reported(old(self)@, d),
    {
        let ghost before = self@;
        let key = DedupKey::of(&d);
        if self.kept.len() >= MAX_DIAGNOSTICS {
            return ;
        }
        let mut i: usize = 0;
        while i < self.keys.len()
            invariant
                self@ == before,
                i <= self.keys@.len(),
                key@ == key_of(d),
                forall|j: int| 0 <= j < i ==> (#[trigger] self.keys@[j])@ != key@,
            decreases self.keys@.len() - i,
        {
            if self.keys[i].same(&key) {
                assert(before.keys[i as int] == key_of(d));
                return ;
            }
            i = i + 1;
        }
        proof {
            if before.keys.contains(key_of(d)) {
                let j = choose|j: int| 0 <= j < before.keys.len() && before.keys[j] == key_of(d);
                assert(self.keys@[j]@ == key@);
            }
        }
        self.keys.push(key);
        self.kept.push(d);
        assert(self@ =~= reported(before, d));
    }

    /// Hands over the findings kept so far. Their keys stay, so none of them
    /// is reported again.
    pub fn take(&mut self) -> (r: Vec<Diagnostic>)
        ensures
            r@ == old(self)@.kept,
            final(self)@ == (Findings { kept: Seq::empty(), keys: old(self)@.keys }),
    {
        let ghost before = self@;
        let mut out: Vec<Diagnostic> = Vec::new();
        std::mem::swap(&mut out, &mut self.kept);
        assert(self@ =~= (Findings { kept: Seq::empty(), keys: before.keys }));
        out
    }
}

/// A race is the same finding whichever of its two accesses came first.
pub proof fn race_identity_ignores_roles(
    space: MemSpace,
    index: usize,
    first: Access,
    second: Access,
)
    ensures
        ({
            let one = Diagnostic::DataRace { space, index, first, second };
            let other = Diagnostic::DataRace { space, index, first: second, second: first };
            key_of(one) == key_of(other) && fingerprint_text(one) == fingerprint_text(other)
        }),
{
    location::place_order_is_total(first.location@, second.location@);
}

/// A launch never keeps more than [`MAX_DIAGNOSTICS`] findings, no two of
/// them with the same key, whatever is reported and in whatever order.
pub proof fn findings_are_bounded_and_distinct(ds: Seq<Diagnostic>)
    ensures
        reported_all(no_findings(), ds).kept.len() <= MAX_DIAGNOSTICS,
        forall|i: int, j: int|
            0 <= i < j < reported_all(no_findings(), ds).kept.len() ==> key_of(
                #[trigger] reported_all(no_findings(), ds).kept[i],
            ) != key_of(#[trigger] reported_all(no_findings(), ds).kept[j]),
{
    lemma_keys_follow_findings(ds);
}

proof fn lemma_keys_follow_findings(ds: Seq<Diagnostic>)
    ensures
        ({
            let f = reported_all(no_findings(), ds);
            &&& f.kept.len() <= MAX_DIAGNOSTICS
            &&& f.keys.len() == f.kept.len()
            &&& forall|i: int| 0 <= i < f.kept.len() ==> f.keys[i] == key_of(#[trigger] f.kept[i])
            &&& forall|i: int, j: int|
                0 <= i < j < f.keys.len() ==> #[trigger] f.keys[i] != #[trigger] f.keys[j]
        }),
    decreases ds.len(),
{
    if ds.len() > 0 {
        lemma_keys_follow_findings(ds.drop_last());
    }
}

/// A finding that was reported once adds nothing when it is reported again,
/// even after what was kept has been taken.
pub proof fn reporting_again_changes_nothing(f: Findings, d: Diagnostic, again: Diagnostic)
    requires
        f.keys.contains(key_of(d)),
        key_of(again) == key_of(d),
    ensures
        reported(f, again) == f,
        reported(Findings { kept: Seq::empty(), keys: f.keys }, again) == (Findings {
            kept: Seq::empty(),
            keys: f.keys,
        }),
{
}

/// While the list has room, the first finding of its kind at its place is
/// kept, and everything kept before stays.
pub proof fn fresh_findings_are_kept(f: Findings, d: Diagnostic)
    requires
        f.kept.len() < MAX_DIAGNOSTICS,
        !f.keys.contains(key_of(d)),
    ensures
        reported(f, d).kept == f.kept.push(d),
        reported(f, d).keys.contains(key_of(d)),
{
    assert(f.keys.push(key_of(d))[f.keys.len() as int] == key_of(d));
}

/// Whether two findings are of one kind, about the same line or pair of
/// lines of the kernel.
pub open spec fn same_complaint(one: Diagnostic, other: Diagnostic) -> bool {
    match (one, other) {
        (
            Diagnostic::DataRace { first: a, second: b, .. },
            Diagnostic::DataRace { first: c, second: d, .. },
        ) => {
            let (a, b, c, d) = (a.location@, b.location@, c.location@, d.location@);
            ||| location::same_line(a, c) && location::same_line(b, d)
            ||| location::same_line(a, d) && location::same_line(b, c)
        },
        (
            Diagnostic::UninitRead { access: a, .. },
            Diagnostic::UninitRead { access: b, .. },
        ) => location::same_line(a.location@, b.location@),
        (
            Diagnostic::OutOfBounds { access: a, .. },
            Diagnostic::OutOfBounds { access: b, .. },
        ) => location::same_line(a.location@, b.location@),
        (
            Diagnostic::BarrierDivergence { barrier: a, .. },
            Diagnostic::BarrierDivergence { barrier: b, .. },
        ) => location::same_line(a@, b@),
        (
            Diagnostic::WarpDivergence { op: a, at, .. },
            Diagnostic::WarpDivergence { op: b, at: there, .. },
        ) => a@ == b@ && location::same_line(at@, there@),
        (
            Diagnostic::WarpMaskMismatch { op: a, at, .. },
            Diagnostic::WarpMaskMismatch { op: b, at: there, .. },
        ) => a@ == b@ && location::same_line(at@, there@),
        (
            Diagnostic::WarpLaneError { op: a, at, problem: p, .. },
            Diagnostic::WarpLaneError { op: b, at: there, problem: q, .. },
        ) => a@ == b@ && location::same_line(at@, there@) && problem_kind(p) == problem_kind(q),
        (
            Diagnostic::KernelPanic { message: a, .. },
            Diagnostic::KernelPanic { message: b, .. },
        ) => a@ == b@,
        _ => false,
    }
}

/// A fingerprint says what the bug is and not where it struck: it does not
/// depend on the block, the thread, the element, the lanes or the order of the
/// accesses, all of which vary by schedule, nor on the columns of the lines.
pub proof fn fingerprints_ignore_the_schedule(one: Diagnostic, other: Diagnostic)
    requires
        same_complaint(one, other),
    ensures
        fingerprint_text(one) == fingerprint_text(other),
{
    if let (
        Diagnostic::DataRace { first: a, second: b, .. },
        Diagnostic::DataRace { first: c, second: d, .. },
    ) = (one, other) {
        location::place_order_is_total(a.location@, b.location@);
        location::place_order_is_total(c.location@, d.location@);
    }
}

/// Whether two findings are of one kind.
pub open spec fn same_kind(one: Diagnostic, other: Diagnostic) -> bool {
    match one {
        Diagnostic::DataRace { .. } => other is DataRace,
        Diagnostic::UninitRead { .. } => other is UninitRead,
        Diagnostic::OutOfBounds { .. } => other is OutOfBounds,
        Diagnostic::BarrierDivergence { .. } => other is BarrierDivergence,
        Diagnostic::WarpDivergence { .. } => other is WarpDivergence,
        Diagnostic::WarpMaskMismatch { .. } => other is WarpMaskMismatch,
        Diagnostic::WarpLaneError { .. } => other is WarpLaneError,
        Diagnostic::KernelPanic { .. } => other is KernelPanic,
    }
}

/// How the fingerprint of a finding starts: its first letter, and for warps
/// the letter that tells their three kinds apart.
proof fn lemma_fingerprint_start(d: Diagnostic)
    ensures
        fingerprint_text(d)[0] == match d {
            Diagnostic::DataRace { .. } => 'r',
            Diagnostic::UninitRead { .. } => 'u',
            Diagnostic::OutOfBounds { .. } => 'o',
            Diagnostic::BarrierDivergence { .. } => 'b',
            Diagnostic::KernelPanic { .. } => 'p',
            _ => 'w',
        },
        d is WarpDivergence ==> fingerprint_text(d)[5] == 'd',
        d is WarpMaskMismatch ==> fingerprint_text(d)[5] == 'm',
        d is WarpLaneError ==> fingerprint_text(d)[5] == 'l',
{
    reveal_strlit("race@");
    reveal_strlit("uninit@");
    reveal_strlit("oob@");
    reveal_strlit("barrier@");
    reveal_strlit("warp-divergence:");
    reveal_strlit("warp-mask-mismatch:");
    reveal_strlit("warp-lane-error:");
    reveal_strlit("panic:");
}

/// Findings of different kinds never share a fingerprint.
pub proof fn fingerprints_tell_kinds_apart(one: Diagnostic, other: Diagnostic)
    requires
        !same_kind(one, other),
    ensures
        fingerprint_text(one) != fingerprint_text(other),
{
    lemma_fingerprint_start(one);
    lemma_fingerprint_start(other);
}

} // verus!
