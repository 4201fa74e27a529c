//! Searching across schedules, and shrinking a failing one.
//!
//! A single launch answers "does this seed find a bug". Exploration answers
//! the two questions that follow: *does any schedule find one*, and *what is a
//! short schedule that does*.
//!
//! The second matters more than it sounds. A failing seed already reproduces
//! exactly, but the interleaving behind it can be hundreds of decisions long,
//! which is a reproducer you cannot read. Shrinking turns it into a handful of
//! decisions followed by threads running in order, which is a reproducer you
//! can reason about and paste into a test.

use vstd::arithmetic::power2::*;
use vstd::prelude::*;

use crate::diag::{self, Report};
use crate::launch::LaunchConfig;
use crate::machine::Source;
use crate::sched::{Choices, SplitMix64};
use crate::text::{self, push_decimal};

verus! {

// ----------------------------------------------------------- schedules ---

/// A recorded sequence of scheduling decisions.
///
/// Each entry is the number of the thread that was given the turn. A plan
/// shorter than the run it drives is not a problem: once it is spent, the
/// scheduler keeps the current thread running while it can, so the tail of
/// the schedule is the least surprising one available.
#[derive(Debug, PartialEq, Eq)]
pub struct Schedule {
    plan: Vec<u32>,
}

impl View for Schedule {
    type V = Seq<u32>;

    closed spec fn view(&self) -> Seq<u32> {
        self.plan@
    }
}

impl Clone for Schedule {
    fn clone(&self) -> (r: Schedule)
        ensures
            r@ == self@,
    {
        Schedule { plan: self.plan.clone() }
    }
}

/// How many times the turn passes from one thread to a different one.
pub open spec fn switches_of(plan: Seq<u32>) -> nat
    decreases plan.len(),
{
    if plan.len() < 2 {
        0
    } else {
        switches_of(plan.drop_last()) + if plan[plan.len() - 2] != plan.last() {
            1nat
        } else {
            0nat
        }
    }
}

/// A schedule as it is summed up.
pub open spec fn schedule_text(plan: Seq<u32>) -> Seq<char> {
    text::decimal(plan.len()) + " decision(s), "@ + text::decimal(switches_of(plan))
        + " switch(es)"@
}

/// The decisions as they are listed, without the brackets.
pub open spec fn plan_items(plan: Seq<u32>) -> Seq<char>
    decreases plan.len(),
{
    if plan.len() == 0 {
        Seq::empty()
    } else if plan.len() == 1 {
        text::decimal(plan[0] as nat)
    } else {
        plan_items(plan.drop_last()) + ", "@ + text::decimal(plan.last() as nat)
    }
}

impl Schedule {
    pub fn new(plan: Vec<u32>) -> (r: Schedule)
        ensures
            r@ == plan@,
    {
        Schedule { plan }
    }

    /// The decisions, as thread numbers.
    pub fn plan(&self) -> (r: &[u32])
        ensures
            r@ == self@,
    {
        self.plan.as_slice()
    }

    pub fn len(&self) -> (r: usize)
        ensures
            r == self@.len(),
    {
        self.plan.len()
    }

    pub fn is_empty(&self) -> (r: bool)
        ensures
            r == (self@.len() == 0),
    {
        self.plan.len() == 0
    }

    /// How many times the turn passes from one thread to a different one.
    ///
    /// This is the number that decides whether a schedule is readable. A
    /// failure needing two switches is a story; one needing ninety is not.
    pub fn switches(&self) -> (r: usize)
        ensures
            r == switches_of(self@),
    {
        let n: usize = self.plan.len();
        if n < 2 {
            return 0;
        }
        let mut count: usize = 0;
        let mut i: usize = 1;
        assert(self.plan@.take(1).len() == 1);
        while i < n
            invariant
                1 <= i <= n,
                n == self.plan@.len(),
                count < i,
                count == switches_of(self.plan@.take(i as int)),
            decreases n - i,
        {
            proof {
                let longer = self.plan@.take(i + 1);
                assert(longer.drop_last() =~= self.plan@.take(i as int));
                assert(longer[longer.len() - 2] == self.plan@[i - 1]);
                assert(longer.last() == self.plan@[i as int]);
            }
            if self.plan[i - 1] != self.plan[i] {
                count = count + 1;
            }
            i = i + 1;
        }
        assert(self.plan@.take(n as int) =~= self.plan@);
        count
    }

    /// The choices that replay this schedule.
    pub fn choices(&self) -> (r: Choices)
        ensures
            r@ == Source::Replay(self@),
    {
        let plan = self.plan.clone();
        assert(plan@.skip(0) =~= self.plan@);
        Choices::Replay { plan, cursor: 0 }
    }

    /// The schedule as it is summed up.
    pub fn to_string(&self) -> (r: String)
        ensures
            r@ == schedule_text(self@),
    {
        let mut out = String::new();
        push_decimal(&mut out, self.len() as u128);
        assert(out@ =~= text::decimal(self@.len()));
        out.append(" decision(s), ");
        push_decimal(&mut out, self.switches() as u128);
        out.append(" switch(es)");
        out
    }

    /// Appends the decisions, without brackets.
    fn push_items(&self, out: &mut String)
        ensures
            final(out)@ == old(out)@ + plan_items(self@),
    {
        let ghost before = out@;
        let n: usize = self.plan.len();
        let mut i: usize = 0;
        assert(out@ =~= before + plan_items(self.plan@.take(0)));
        while i < n
            invariant
                i <= n,
                n == self.plan@.len(),
                out@ == before + plan_items(self.plan@.take(i as int)),
            decreases n - i,
        {
            let ghost lead = out@;
            if i > 0 {
                out.append(", ");
            }
            push_decimal(out, self.plan[i] as u128);
            proof {
                let longer = self.plan@.take(i + 1);
                assert(longer.drop_last() =~= self.plan@.take(i as int));
                assert(longer.last() == self.plan@[i as int]);
                assert(out@ =~= before + plan_items(longer));
            }
            i = i + 1;
        }
        assert(self.plan@.take(n as int) =~= self.plan@);
    }
}

// ------------------------------------------------------------- outcomes ---

/// Why a failing schedule is or is not available in shrunk form.
#[derive(Debug, PartialEq, Eq)]
pub enum Shrink {
    /// The schedule was shrunk, and replaying it reproduces the finding. With
    /// no replays to spend it is the recording, as it was made.
    Minimised(Schedule),
    /// Shrinking was turned off with [`Explore::minimise`].
    Disabled,
    /// The launch made more decisions than are recorded, so the schedule is
    /// incomplete and cannot be replayed. Shrink the launch to shrink the
    /// schedule.
    TraceTruncated,
    /// Replaying the recorded schedule did not reproduce the finding, so the
    /// kernel does not behave the same way twice.
    ///
    /// The usual cause is a buffer the kernel captures and mutates, since
    /// every run then starts from the previous run's output. Fresh state for
    /// each run is the cure.
    NotReproducible,
}

impl Clone for Shrink {
    fn clone(&self) -> (r: Shrink)
        ensures
            shrink_view(r) == shrink_view(*self),
    {
        match self {
            Shrink::Minimised(s) => Shrink::Minimised(s.clone()),
            Shrink::Disabled => Shrink::Disabled,
            Shrink::TraceTruncated => Shrink::TraceTruncated,
            Shrink::NotReproducible => Shrink::NotReproducible,
        }
    }
}

/// What became of shrinking, as mathematics.
pub enum Shrunk {
    Minimised(Seq<u32>),
    Disabled,
    TraceTruncated,
    NotReproducible,
}

/// What became of shrinking.
pub open spec fn shrink_view(s: Shrink) -> Shrunk {
    match s {
        Shrink::Minimised(s) => Shrunk::Minimised(s@),
        Shrink::Disabled => Shrunk::Disabled,
        Shrink::TraceTruncated => Shrunk::TraceTruncated,
        Shrink::NotReproducible => Shrunk::NotReproducible,
    }
}

/// How the outcome of shrinking is worded.
pub open spec fn shrink_text(s: Shrunk) -> Seq<char> {
    match s {
        Shrunk::Minimised(plan) => "shrunk to "@ + schedule_text(plan),
        Shrunk::Disabled => "not shrunk, minimisation disabled"@,
        Shrunk::TraceTruncated => "not shrunk, the schedule was too long to record"@,
        Shrunk::NotReproducible => "not shrunk, the kernel did not behave the same way twice"@,
    }
}

impl Shrink {
    /// The shrunk schedule, if there is one.
    pub fn schedule(&self) -> (r: Option<&Schedule>)
        ensures
            match *self {
                Shrink::Minimised(s) => r == Some(&s),
                _ => r is None,
            },
    {
        match self {
            Shrink::Minimised(s) => Some(s),
            _ => None,
        }
    }

    /// The outcome as it is worded.
    pub fn to_string(&self) -> (r: String)
        ensures
            r@ == shrink_text(shrink_view(*self)),
    {
        match self {
            Shrink::Minimised(s) => {
                let mut out = "shrunk to ".to_owned();
                out.append(s.to_string().as_str());
                out
            },
            Shrink::Disabled => "not shrunk, minimisation disabled".to_owned(),
            Shrink::TraceTruncated => "not shrunk, the schedule was too long to record".to_owned(),
            Shrink::NotReproducible => {
                "not shrunk, the kernel did not behave the same way twice".to_owned()
            },
        }
    }
}

/// The first failing schedule an exploration found.
#[derive(Debug)]
pub struct Failure {
    /// The seed that produced it. Re-run it with `LaunchConfig::seed` to get
    /// this exact launch back.
    pub seed: u64,
    pub report: Report,
    pub shrink: Shrink,
    /// How many scheduling decisions the failing run made, in all its waves
    /// and before any shrinking, as far as they were recorded. The ratio
    /// against the shrunk schedule is the whole point of shrinking.
    pub decisions: usize,
}

/// The fingerprint shrinking preserves: that of the first finding.
pub open spec fn target_of(report: Report) -> Option<Seq<char>> {
    if report.diagnostics@.len() == 0 {
        None
    } else {
        Some(diag::fingerprint_text(report.diagnostics@[0]))
    }
}

/// The fingerprint shrinking preserves.
fn first_fingerprint(report: &Report) -> (r: Option<String>)
    ensures
        match target_of(*report) {
            Some(t) => r matches Some(s) && s@ == t,
            None => r is None,
        },
{
    if report.diagnostics.len() == 0 {
        None
    } else {
        Some(report.diagnostics[0].fingerprint())
    }
}

/// Whether two failures say the same.
pub open spec fn same_failure(a: Failure, b: Failure) -> bool {
    &&& a.seed == b.seed
    &&& a.report.seed == b.report.seed
    &&& a.report.diagnostics@ == b.report.diagnostics@
    &&& a.report.aborted == b.report.aborted
    &&& shrink_view(a.shrink) == shrink_view(b.shrink)
    &&& a.decisions == b.decisions
}

impl Clone for Failure {
    fn clone(&self) -> (r: Failure)
        ensures
            same_failure(r, *self),
    {
        Failure {
            seed: self.seed,
            report: self.report.clone(),
            shrink: self.shrink.clone(),
            decisions: self.decisions,
        }
    }
}

impl Failure {
    /// The fingerprint that shrinking preserved: the first finding reported.
    pub fn target(&self) -> (r: Option<String>)
        ensures
            match target_of(self.report) {
                Some(t) => r matches Some(s) && s@ == t,
                None => r is None,
            },
    {
        first_fingerprint(&self.report)
    }
}

/// The result of searching across schedules.
#[derive(Debug)]
pub struct Exploration {
    pub seeds_tried: u64,
    /// The first seed that found something, if any.
    pub failure: Option<Failure>,
}

/// An exploration as it is written.
pub open spec fn exploration_text(e: Exploration) -> Seq<char> {
    match e.failure {
        None => "riri: explored "@ + text::decimal(e.seeds_tried as nat)
            + " seed(s), all clean\n"@,
        Some(f) => exploration_heading(e.seeds_tried, f) + diag::finding_lines(
            f.report.diagnostics@,
        ) + schedule_line(shrink_view(f.shrink)),
    }
}

/// The heading of a failed exploration.
pub open spec fn exploration_heading(seeds_tried: u64, f: Failure) -> Seq<char> {
    "riri: explored "@ + text::decimal(seeds_tried as nat) + " seed(s), seed "@ + text::decimal(
        f.seed as nat,
    ) + " failed in "@ + text::decimal(f.decisions as nat) + " decision(s), "@ + shrink_text(
        shrink_view(f.shrink),
    ) + "\n"@
}

/// The line that lists the shrunk schedule.
pub open spec fn schedule_line(s: Shrunk) -> Seq<char> {
    match s {
        Shrunk::Minimised(plan) => "  schedule: ["@ + plan_items(plan) + "]\n"@,
        _ => Seq::empty(),
    }
}

impl Clone for Exploration {
    fn clone(&self) -> (r: Exploration)
        ensures
            r.seeds_tried == self.seeds_tried,
            match (r.failure, self.failure) {
                (Some(a), Some(b)) => same_failure(a, b),
                (None, None) => true,
                _ => false,
            },
    {
        let failure = match &self.failure {
            Some(f) => Some(f.clone()),
            None => None,
        };
        Exploration { seeds_tried: self.seeds_tried, failure }
    }
}

impl Exploration {
    pub fn is_clean(&self) -> (r: bool)
        ensures
            r == (self.failure is None),
    {
        self.failure.is_none()
    }

    /// The listing a failed clean-run assertion shows, or `None` if every
    /// schedule was clean.
    pub fn complaint(&self) -> (r: Option<String>)
        ensures
            r is None <==> self.failure is None,
            r matches Some(listing) ==> listing@ == exploration_text(*self),
    {
        if self.is_clean() {
            None
        } else {
            Some(self.to_string())
        }
    }

    /// The exploration as it is written.
    pub fn to_string(&self) -> (r: String)
        ensures
            r@ == exploration_text(*self),
    {
        let mut out = "riri: explored ".to_owned();
        push_decimal(&mut out, self.seeds_tried as u128);
        match &self.failure {
            None => {
                out.append(" seed(s), all clean\n");
                out
            },
            Some(f) => {
                out.append(" seed(s), seed ");
                push_decimal(&mut out, f.seed as u128);
                out.append(" failed in ");
                push_decimal(&mut out, f.decisions as u128);
                out.append(" decision(s), ");
                out.append(f.shrink.to_string().as_str());
                out.append("\n");
                let ghost heading = out@;
                assert(heading == exploration_heading(self.seeds_tried, *f));
                diag::push_finding_lines(&mut out, &f.report.diagnostics);
                match &f.shrink {
                    Shrink::Minimised(s) => {
                        let ghost lead = out@;
                        out.append("  schedule: [");
                        s.push_items(&mut out);
                        out.append("]\n");
                        assert(out@ =~= lead + schedule_line(shrink_view(f.shrink)));
                    },
                    _ => {
                        assert(out@ =~= out@ + schedule_line(shrink_view(f.shrink)));
                    },
                }
                out
            },
        }
    }
}

// ------------------------------------------------- shrinking, on paper ---

/// Asks whether `plan` reproduces the finding, which costs one replay; with
/// nothing left to spend the answer is no.
pub open spec fn asked(ask: spec_fn(Seq<u32>) -> bool, plan: Seq<u32>, budget: nat) -> (bool, nat) {
    if budget == 0 {
        (false, 0)
    } else {
        (ask(plan), (budget - 1) as nat)
    }
}

/// Doubles the prefix length until one reproduces: the longest length known
/// not to, the length that does, and the replays left.
pub open spec fn doubled(
    ask: spec_fn(Seq<u32>) -> bool,
    trace: Seq<u32>,
    lo: int,
    step: int,
    budget: nat,
) -> (int, int, nat)
    decreases
            if step < trace.len() {
                trace.len() - step
            } else {
                0
            },
{
    if step <= 0 || step >= trace.len() {
        (lo, trace.len() as int, budget)
    } else {
        let (yes, left) = asked(ask, trace.take(step), budget);
        if yes {
            (lo, step, left)
        } else {
            doubled(ask, trace, step, 2 * step, left)
        }
    }
}

/// Bisects between a length that does not reproduce and one that does: the
/// shortest length found, and the replays left.
pub open spec fn bisected(
    ask: spec_fn(Seq<u32>) -> bool,
    trace: Seq<u32>,
    lo: int,
    hi: int,
    budget: nat,
) -> (int, nat)
    decreases hi - lo,
{
    if lo + 1 >= hi {
        (hi, budget)
    } else {
        let mid = lo + (hi - lo) / 2;
        let (yes, left) = asked(ask, trace.take(mid), budget);
        if yes {
            bisected(ask, trace, lo, mid, left)
        } else {
            bisected(ask, trace, mid, hi, left)
        }
    }
}

/// The length of a short prefix that reproduces, and the replays left. The
/// empty plan is tried first: it means the default schedule finds the bug.
pub open spec fn short_prefix(
    ask: spec_fn(Seq<u32>) -> bool,
    trace: Seq<u32>,
    budget: nat,
) -> (int, nat) {
    let (yes, left) = asked(ask, Seq::empty(), budget);
    if yes {
        (0, left)
    } else {
        let (lo, hi, rest) = doubled(ask, trace, 0, 1, left);
        bisected(ask, trace, lo, hi, rest)
    }
}

/// Drops switches from position `i` on: wherever the turn changes hands, the
/// previous thread keeps running instead if the finding survives.
pub open spec fn straightened(
    ask: spec_fn(Seq<u32>) -> bool,
    plan: Seq<u32>,
    i: int,
    budget: nat,
) -> Seq<u32>
    decreases plan.len() - i,
{
    if i < 1 || i >= plan.len() || budget == 0 {
        plan
    } else if plan[i] == plan[i - 1] {
        straightened(ask, plan, i + 1, budget)
    } else {
        let candidate = plan.update(i, plan[i - 1]);
        let (yes, left) = asked(ask, candidate, budget);
        straightened(
            ask,
            if yes {
                candidate
            } else {
                plan
            },
            i + 1,
            left,
        )
    }
}

/// What shrinking a recording comes to for a kernel that is a function of its
/// schedule: `ask` says which plans reproduce the finding. With nothing to
/// spend, the recording itself is the best schedule there is.
pub open spec fn minimised(
    ask: spec_fn(Seq<u32>) -> bool,
    trace: Seq<u32>,
    budget: nat,
) -> Shrunk {
    let (yes, left) = asked(ask, trace, budget);
    if budget == 0 {
        Shrunk::Minimised(trace)
    } else if !yes {
        Shrunk::NotReproducible
    } else {
        let (n, rest) = short_prefix(ask, trace, left);
        Shrunk::Minimised(straightened(ask, trace.take(n), 1, rest))
    }
}

// ---------------------------------------------------------- exploration ---

/// What one run gives back: the report, the decisions it made, and whether all
/// of them were recorded.
pub type Outcome = (Report, Vec<u32>, bool);

/// Whether a run with these choices can end this way.
pub open spec fn can_end<R: Fn(LaunchConfig, Choices) -> Outcome>(
    run_once: R,
    config: LaunchConfig,
    choices: Choices,
    out: Outcome,
) -> bool {
    call_ensures(run_once, (config, choices), out)
}

/// Whether replaying `plan` was seen to find (or, with `found` false, to miss)
/// the target.
pub open spec fn observed<R: Fn(LaunchConfig, Choices) -> Outcome>(
    run_once: R,
    config: LaunchConfig,
    plan: Seq<u32>,
    target: Seq<char>,
    found: bool,
) -> bool {
    exists|choices: Choices, out: Outcome| #[trigger]
        can_end(run_once, config, choices, out) && choices@ == Source::Replay(plan)
            && diag::has_fingerprint(out.0.diagnostics@, target) == found
}

/// Whether the kernel is a function of its schedule as far as the target goes:
/// `ask` says which plans find it, whenever they are replayed.
pub open spec fn follows<R: Fn(LaunchConfig, Choices) -> Outcome>(
    run_once: R,
    config: LaunchConfig,
    target: Seq<char>,
    ask: spec_fn(Seq<u32>) -> bool,
) -> bool {
    forall|choices: Choices, out: Outcome, plan: Seq<u32>|
        #![trigger can_end(run_once, config, choices, out), ask(plan)]
        can_end(run_once, config, choices, out) && choices@ == Source::Replay(plan)
            ==> diag::has_fingerprint(out.0.diagnostics@, target) == ask(plan)
}

/// What is known of a shrinking outcome, whatever the kernel does, and what it
/// is exactly when the kernel is a function of its schedule. With nothing to
/// spend, nothing is replayed and the recording comes back.
pub open spec fn shrunk_well<R: Fn(LaunchConfig, Choices) -> Outcome>(
    run_once: R,
    config: LaunchConfig,
    target: Seq<char>,
    trace: Seq<u32>,
    budget: nat,
    result: Shrunk,
) -> bool {
    &&& match result {
        Shrunk::Minimised(plan) => if budget == 0 {
            plan == trace
        } else {
            &&& observed(run_once, config, trace, target, true)
            &&& observed(run_once, config, plan, target, true)
            &&& plan.len() <= trace.len()
        },
        Shrunk::NotReproducible => budget > 0 && observed(run_once, config, trace, target, false),
        _ => false,
    }
    &&& forall|ask: spec_fn(Seq<u32>) -> bool| #[trigger]
        follows(run_once, config, target, ask) ==> result == minimised(ask, trace, budget)
}

/// Searches across schedules for one that finds a problem.
pub struct Explore {
    base: LaunchConfig,
    seeds: u64,
    minimise: bool,
    budget: usize,
}

/// The knobs of an exploration.
pub struct Knobs {
    pub base: LaunchConfig,
    pub seeds: u64,
    pub minimise: bool,
    pub budget: usize,
}

impl View for Explore {
    type V = Knobs;

    closed spec fn view(&self) -> Knobs {
        Knobs {
            base: self.base,
            seeds: self.seeds,
            minimise: self.minimise,
            budget: self.budget,
        }
    }
}

/// What shrinking the schedule of a failing run comes to.
pub open spec fn shrink_outcome<R: Fn(LaunchConfig, Choices) -> Outcome>(
    run_once: R,
    knobs: Knobs,
    config: LaunchConfig,
    report: Report,
    trace: Seq<u32>,
    complete: bool,
    result: Shrink,
) -> bool {
    if !knobs.minimise {
        result is Disabled
    } else if !complete {
        result is TraceTruncated
    } else {
        match target_of(report) {
            None => result is Disabled,
            Some(target) => shrunk_well(
                run_once,
                config,
                target,
                trace,
                knobs.budget as nat,
                shrink_view(result),
            ),
        }
    }
}

/// Whether a seeded run was seen to find nothing.
pub open spec fn seen_clean<R: Fn(LaunchConfig, Choices) -> Outcome>(
    run_once: R,
    config: LaunchConfig,
) -> bool {
    exists|choices: Choices, out: Outcome| #[trigger]
        can_end(run_once, config, choices, out) && choices@ == Source::Random(config.seed)
            && out.0.diagnostics@.len() == 0
}

/// Whether a failure tells of a seeded run that found something.
pub open spec fn tells_of<R: Fn(LaunchConfig, Choices) -> Outcome>(
    run_once: R,
    knobs: Knobs,
    config: LaunchConfig,
    f: Failure,
) -> bool {
    exists|choices: Choices, out: Outcome| #[trigger]
        can_end(run_once, config, choices, out) && choices@ == Source::Random(config.seed)
            && out.0.diagnostics@.len() > 0 && f.seed == config.seed && f.report == out.0
            && f.decisions == out.1@.len() && shrink_outcome(
            run_once,
            knobs,
            config,
            out.0,
            out.1@,
            out.2,
            f.shrink,
        )
}

/// What an exploration comes to: the seeds are tried in order, and the first
/// one that finds something is the one reported.
pub open spec fn explored<R: Fn(LaunchConfig, Choices) -> Outcome>(
    run_once: R,
    knobs: Knobs,
    result: Exploration,
) -> bool {
    match result.failure {
        None => {
            &&& result.seeds_tried == knobs.seeds
            &&& forall|j: u64| j < knobs.seeds ==> #[trigger] seen_clean(
                run_once,
                seeded(knobs.base, j),
            )
        },
        Some(f) => {
            &&& 1 <= result.seeds_tried <= knobs.seeds
            &&& forall|j: u64| j < result.seeds_tried - 1 ==> #[trigger] seen_clean(
                run_once,
                seeded(knobs.base, j),
            )
            &&& tells_of(
                run_once,
                knobs,
                seeded(knobs.base, (result.seeds_tried - 1) as u64),
                f,
            )
        },
    }
}

/// The configuration of the `i`th run of an exploration.
pub open spec fn seeded(base: LaunchConfig, i: u64) -> LaunchConfig {
    LaunchConfig { seed: base.seed.wrapping_add(i), ..base }
}

/// The first `n` decisions.
fn prefix(trace: &Vec<u32>, n: usize) -> (r: Vec<u32>)
    requires
        n <= trace@.len(),
    ensures
        r@ == trace@.take(n as int),
{
    let mut out: Vec<u32> = Vec::new();
    let mut i: usize = 0;
    while i < n
        invariant
            i <= n <= trace@.len(),
            out@ == trace@.take(i as int),
        decreases n - i,
    {
        out.push(trace[i]);
        i = i + 1;
        assert(out@ =~= trace@.take(i as int));
    }
    out
}

/// Replays a plan, if the budget allows, and says whether it found the target.
fn reproduces<R: Fn(LaunchConfig, Choices) -> Outcome>(
    run_once: &R,
    config: LaunchConfig,
    plan: &Vec<u32>,
    target: &str,
    budget: &mut usize,
) -> (r: bool)
    requires
        forall|c: Choices| #[trigger] call_requires(*run_once, (config, c)),
    ensures
        *final(budget) == if *old(budget) == 0 {
            0
        } else {
            (*old(budget) - 1) as usize
        },
        *old(budget) == 0 ==> !r,
        *old(budget) > 0 ==> observed(*run_once, config, plan@, target@, r),
        forall|ask: spec_fn(Seq<u32>) -> bool| #[trigger]
            follows(*run_once, config, target@, ask) ==> asked(ask, plan@, *old(budget) as nat) == (
                r,
                *final(budget) as nat,
            ),
{
    if *budget == 0 {
        return false;
    }
    *budget = *budget - 1;
    let copy = prefix(plan, plan.len());
    assert(plan@.take(plan@.len() as int) =~= plan@);
    assert(copy@.skip(0) =~= plan@);
    let choices = Choices::Replay { plan: copy, cursor: 0 };
    let ghost replayed = choices;
    assert(call_requires(*run_once, (config, choices)));
    let out = run_once(config, choices);
    let found = out.0.contains(target);
    proof {
        assert(can_end(*run_once, config, replayed, out));
        assert(replayed@ == Source::Replay(plan@));
        assert forall|ask: spec_fn(Seq<u32>) -> bool| #[trigger]
            follows(*run_once, config, target@, ask) implies ask(plan@) == found by {
            let yes = ask(plan@);
        }
    }
    found
}

impl Explore {
    /// Defaults: 64 seeds starting from the config's own, shrinking on, and a
    /// budget of 256 replays for shrinking.
    pub fn new(config: &LaunchConfig) -> (r: Explore)
        ensures
            r@ == (Knobs { base: *config, seeds: 64, minimise: true, budget: 256 }),
    {
        Explore { base: *config, seeds: 64, minimise: true, budget: 256 }
    }

    /// How many seeds to try. Exploration stops at the first failing one.
    pub fn seeds(self, seeds: u64) -> (r: Explore)
        ensures
            r@ == (Knobs { seeds, ..self@ }),
    {
        Explore { seeds, ..self }
    }

    /// Whether to shrink a failing schedule. On by default.
    pub fn minimise(self, minimise: bool) -> (r: Explore)
        ensures
            r@ == (Knobs { minimise, ..self@ }),
    {
        Explore { minimise, ..self }
    }

    /// How many replays shrinking may spend. Shrinking stops early when the
    /// budget runs out and returns the best schedule found so far.
    pub fn budget(self, replays: usize) -> (r: Explore)
        ensures
            r@ == (Knobs { budget: replays, ..self@ }),
    {
        Explore { budget: replays, ..self }
    }

    /// Shrinks the schedule of a failing run.
    pub fn shrink<R: Fn(LaunchConfig, Choices) -> Outcome>(
        &self,
        config: LaunchConfig,
        report: &Report,
        trace: &Vec<u32>,
        complete: bool,
        run_once: &R,
    ) -> (r: Shrink)
        requires
            forall|c: Choices| #[trigger] call_requires(*run_once, (config, c)),
        ensures
            shrink_outcome(*run_once, self@, config, *report, trace@, complete, r),
    {
        if !self.minimise {
            return Shrink::Disabled;
        }
        if !complete {
            return Shrink::TraceTruncated;
        }
        let target = match first_fingerprint(report) {
            Some(t) => t,
            None => return Shrink::Disabled,
        };
        let mut budget: usize = self.budget;
        if budget == 0 {
            // Nothing may be replayed, so nothing can be shorter than the
            // recording, and nothing has lost the finding.
            let whole = prefix(trace, trace.len());
            assert(trace@.take(trace@.len() as int) =~= trace@);
            return Shrink::Minimised(Schedule::new(whole));
        }

        // Replaying the full recording must reproduce the finding. When it
        // does not, the kernel is not a pure function of its schedule and
        // every shrinking step below would be reasoning about noise.
        if !reproduces(run_once, config, trace, target.as_str(), &mut budget) {
            return Shrink::NotReproducible;
        }
        let ghost left = budget as nat;
        let hi: usize = shortest_prefix(run_once, config, trace, target.as_str(), &mut budget);
        let ghost rest = budget as nat;
        let plan = drop_switches(
            run_once,
            config,
            prefix(trace, hi),
            target.as_str(),
            &mut budget,
        );
        proof {
            assert forall|ask: spec_fn(Seq<u32>) -> bool| #[trigger]
                follows(*run_once, config, target@, ask) implies Shrunk::Minimised(plan@)
                == minimised(ask, trace@, self.budget as nat) by {
                assert(asked(ask, trace@, self.budget as nat) == (true, left));
                assert(short_prefix(ask, trace@, left) == (hi as int, rest));
            }
        }
        Shrink::Minimised(Schedule::new(plan))
    }
}

/// A short prefix that still reproduces. Doubling then bisecting assumes that
/// a longer prefix is at least as likely to reproduce as a shorter one, which
/// is a heuristic rather than a guarantee, so this finds a short prefix and
/// not necessarily the shortest.
fn shortest_prefix<R: Fn(LaunchConfig, Choices) -> Outcome>(
    run_once: &R,
    config: LaunchConfig,
    trace: &Vec<u32>,
    target: &str,
    budget: &mut usize,
) -> (r: usize)
    requires
        forall|c: Choices| #[trigger] call_requires(*run_once, (config, c)),
        observed(*run_once, config, trace@, target@, true),
    ensures
        r <= trace@.len(),
        observed(*run_once, config, trace@.take(r as int), target@, true),
        forall|ask: spec_fn(Seq<u32>) -> bool| #[trigger]
            follows(*run_once, config, target@, ask) ==> short_prefix(
                ask,
                trace@,
                *old(budget) as nat,
            ) == (r as int, *final(budget) as nat),
{
    let ghost b0 = *budget as nat;
    let nothing: Vec<u32> = Vec::new();
    let n: usize = trace.len();
    assert(trace@.take(0) =~= nothing@);
    assert(trace@.take(n as int) =~= trace@);
    assert(nothing@ =~= Seq::<u32>::empty());
    if reproduces(run_once, config, &nothing, target, budget) {
        // The default policy alone finds it, so no decisions are needed.
        return 0;
    }
    let ghost b1 = *budget as nat;
    let mut lo: usize = 0;
    let mut hi: usize = n;
    let mut step: usize = 1;
    let mut found = false;
    while step < n && !found
        invariant
            n == trace@.len(),
            lo <= hi <= n,
            lo < step,
            n > 0 ==> step <= n,
            found ==> lo < hi,
            forall|c: Choices| #[trigger] call_requires(*run_once, (config, c)),
            observed(*run_once, config, trace@.take(hi as int), target@, true),
            !found ==> hi == n,
            forall|ask: spec_fn(Seq<u32>) -> bool| #[trigger]
                follows(*run_once, config, target@, ask) ==> doubled(ask, trace@, 0, 1, b1)
                    == if found {
                    (lo as int, hi as int, *budget as nat)
                } else {
                    doubled(ask, trace@, lo as int, step as int, *budget as nat)
                },
        decreases
                if found {
                    0
                } else {
                    n - step + 1
                },
    {
        let ghost before = *budget as nat;
        let ghost (lo_then, step_then) = (lo as int, step as int);
        if reproduces(run_once, config, &prefix(trace, step), target, budget) {
            hi = step;
            found = true;
        } else {
            lo = step;
            step = if step <= n - step {
                2 * step
            } else {
                n
            };
        }
        proof {
            let after = *budget as nat;
            assert forall|ask: spec_fn(Seq<u32>) -> bool| #[trigger]
                follows(*run_once, config, target@, ask) implies doubled(ask, trace@, 0, 1, b1)
                == if found {
                (lo as int, hi as int, after)
            } else {
                doubled(ask, trace@, lo as int, step as int, after)
            } by {
                reveal_with_fuel(doubled, 2);
                assert(asked(ask, trace@.take(step_then), before) == (found, after));
                assert(doubled(ask, trace@, 0, 1, b1) == doubled(
                    ask,
                    trace@,
                    lo_then,
                    step_then,
                    before,
                ));
            }
        }
    }
    let ghost b2 = *budget as nat;
    let ghost (lo0, hi0) = (lo as int, hi as int);
    assert(forall|ask: spec_fn(Seq<u32>) -> bool| #[trigger]
        follows(*run_once, config, target@, ask) ==> doubled(ask, trace@, 0, 1, b1) == (
            lo0,
            hi0,
            b2,
        ));
    while hi - lo > 1
        invariant
            n == trace@.len(),
            lo <= hi <= n,
            forall|c: Choices| #[trigger] call_requires(*run_once, (config, c)),
            observed(*run_once, config, trace@.take(hi as int), target@, true),
            forall|ask: spec_fn(Seq<u32>) -> bool| #[trigger]
                follows(*run_once, config, target@, ask) ==> bisected(ask, trace@, lo0, hi0, b2)
                    == bisected(ask, trace@, lo as int, hi as int, *budget as nat),
        decreases hi - lo,
    {
        let mid: usize = lo + (hi - lo) / 2;
        if reproduces(run_once, config, &prefix(trace, mid), target, budget) {
            hi = mid;
        } else {
            lo = mid;
        }
    }
    hi
}

/// Wherever the turn changes hands, tries letting the previous thread keep
/// running instead.
fn drop_switches<R: Fn(LaunchConfig, Choices) -> Outcome>(
    run_once: &R,
    config: LaunchConfig,
    start: Vec<u32>,
    target: &str,
    budget: &mut usize,
) -> (r: Vec<u32>)
    requires
        forall|c: Choices| #[trigger] call_requires(*run_once, (config, c)),
        observed(*run_once, config, start@, target@, true),
    ensures
        r@.len() == start@.len(),
        observed(*run_once, config, r@, target@, true),
        forall|ask: spec_fn(Seq<u32>) -> bool| #[trigger]
            follows(*run_once, config, target@, ask) ==> r@ == straightened(
                ask,
                start@,
                1,
                *old(budget) as nat,
            ),
{
    let ghost first = start@;
    let ghost b0 = *budget as nat;
    let mut plan = start;
    let mut i: usize = 1;
    while i < plan.len() && *budget > 0
        invariant
            1 <= i,
            plan@.len() == first.len(),
            forall|c: Choices| #[trigger] call_requires(*run_once, (config, c)),
            observed(*run_once, config, plan@, target@, true),
            forall|ask: spec_fn(Seq<u32>) -> bool| #[trigger]
                follows(*run_once, config, target@, ask) ==> straightened(ask, first, 1, b0)
                    == straightened(ask, plan@, i as int, *budget as nat),
        decreases plan@.len() - i,
    {
        if plan[i] != plan[i - 1] {
            let ghost before = plan@;
            let mut candidate = prefix(&plan, plan.len());
            assert(plan@.take(plan@.len() as int) =~= plan@);
            let kept: u32 = plan[i - 1];
            candidate.set(i, kept);
            assert(candidate@ == before.update(i as int, before[i - 1]));
            if reproduces(run_once, config, &candidate, target, budget) {
                plan = candidate;
            }
        }
        i = i + 1;
    }
    plan
}

impl Explore {
    /// Runs across the configured seeds.
    ///
    /// `run_once` runs the kernel under a configuration and a source of
    /// decisions. It is called many times, so any state the kernel keeps
    /// carries over from one run into the next unless it builds it anew.
    pub fn run<R: Fn(LaunchConfig, Choices) -> Outcome>(&self, run_once: R) -> (r: Exploration)
        requires
            forall|c: LaunchConfig, ch: Choices| #[trigger] call_requires(run_once, (c, ch)),
        ensures
            explored(run_once, self@, r),
    {
        let mut i: u64 = 0;
        while i < self.seeds
            invariant
                i <= self.seeds,
                forall|c: LaunchConfig, ch: Choices| #[trigger] call_requires(run_once, (c, ch)),
                forall|j: u64|
                    j < i ==> #[trigger] seen_clean(run_once, seeded(self@.base, j)),
            decreases self.seeds - i,
        {
            let seed: u64 = self.base.seed.wrapping_add(i);
            let config = self.base.seed(seed);
            assert(config == seeded(self@.base, i));
            let choices = Choices::Random(SplitMix64(seed));
            let ghost drawn = choices;
            let out = run_once(config, choices);
            assert(can_end(run_once, config, drawn, out));
            if out.0.is_clean() {
                assert(seen_clean(run_once, config));
                i = i + 1;
                continue ;
            }
            let ghost whole = out;
            let (report, trace, complete) = out;
            let decisions: usize = trace.len();
            let shrink = self.shrink(config, &report, &trace, complete, &run_once);
            let failure = Failure { seed, report, shrink, decisions };
            assert(tells_of(run_once, self@, config, failure)) by {
                assert(can_end(run_once, config, drawn, whole));
            }
            return Exploration { seeds_tried: i + 1, failure: Some(failure) };
        }
        Exploration { seeds_tried: self.seeds, failure: None }
    }
}

/// Searches `seeds` schedules for one that finds a problem, shrinking the
/// first failure it finds.
///
/// Equivalent to `Explore::new(config).seeds(seeds).run(run_once)`.
pub fn explore<R: Fn(LaunchConfig, Choices) -> Outcome>(
    config: &LaunchConfig,
    seeds: u64,
    run_once: R,
) -> (r: Exploration)
    requires
        forall|c: LaunchConfig, ch: Choices| #[trigger] call_requires(run_once, (c, ch)),
    ensures
        explored(
            run_once,
            Knobs { base: *config, seeds, minimise: true, budget: 256 },
            r,
        ),
{
    Explore::new(config).seeds(seeds).run(run_once)
}

/// Runs a kernel against an exact schedule rather than a seed.
///
/// Decisions past the end of the schedule keep the current thread running
/// while it can, so a short schedule is a complete and reproducible
/// description of a run.
pub fn replay<R: Fn(LaunchConfig, Choices) -> Outcome>(
    config: &LaunchConfig,
    schedule: &Schedule,
    run_once: R,
) -> (r: Report)
    requires
        forall|ch: Choices| #[trigger] call_requires(run_once, (*config, ch)),
    ensures
        exists|choices: Choices, out: Outcome| #[trigger]
            can_end(run_once, *config, choices, out) && choices@ == Source::Replay(schedule@) && r
                == out.0,
{
    let choices = schedule.choices();
    let ghost replayed = choices;
    let out = run_once(*config, choices);
    assert(can_end(run_once, *config, replayed, out));
    out.0
}

// ---------------------------------------------------------------- laws ---

/// A shrunk schedule is no longer than the recording and changes hands no more
/// often, and it reproduces the finding unless nothing was spent on replaying:
/// then it is the recording itself.
pub proof fn shrinking_keeps_the_finding(
    ask: spec_fn(Seq<u32>) -> bool,
    trace: Seq<u32>,
    budget: nat,
)
    ensures
        minimised(ask, trace, budget) matches Shrunk::Minimised(plan) ==> {
            &&& if budget > 0 {
                ask(plan)
            } else {
                plan == trace
            }
            &&& plan.len() <= trace.len()
            &&& switches_of(plan) <= switches_of(trace)
        },
{
    let (yes, left) = asked(ask, trace, budget);
    if budget > 0 && yes {
        let (n, rest) = short_prefix(ask, trace, left);
        lemma_short_prefix(ask, trace, left);
        lemma_straightened(ask, trace.take(n), 1, rest);
        lemma_fewer_switches_in_prefix(trace, n);
    }
}

proof fn lemma_short_prefix(ask: spec_fn(Seq<u32>) -> bool, trace: Seq<u32>, budget: nat)
    requires
        ask(trace),
    ensures
        0 <= short_prefix(ask, trace, budget).0 <= trace.len(),
        ask(trace.take(short_prefix(ask, trace, budget).0)),
{
    let (yes, left) = asked(ask, Seq::empty(), budget);
    if yes {
        assert(trace.take(0) =~= Seq::empty());
    } else {
        let (lo, hi, rest) = doubled(ask, trace, 0, 1, left);
        lemma_doubled(ask, trace, 0, 1, left);
        lemma_bisected(ask, trace, lo, hi, rest);
    }
}

proof fn lemma_doubled(
    ask: spec_fn(Seq<u32>) -> bool,
    trace: Seq<u32>,
    lo: int,
    step: int,
    budget: nat,
)
    requires
        ask(trace),
        0 <= lo < step,
        lo <= trace.len(),
    ensures
        ({
            let (l, h, _) = doubled(ask, trace, lo, step, budget);
            0 <= l <= h <= trace.len() && ask(trace.take(h))
        }),
    decreases
            if step < trace.len() {
                trace.len() - step
            } else {
                0
            },
{
    if step >= trace.len() {
        assert(trace.take(trace.len() as int) =~= trace);
    } else {
        let (yes, left) = asked(ask, trace.take(step), budget);
        if !yes {
            lemma_doubled(ask, trace, step, 2 * step, left);
        }
    }
}

proof fn lemma_bisected(
    ask: spec_fn(Seq<u32>) -> bool,
    trace: Seq<u32>,
    lo: int,
    hi: int,
    budget: nat,
)
    requires
        0 <= lo <= hi <= trace.len(),
        ask(trace.take(hi)),
    ensures
        0 <= bisected(ask, trace, lo, hi, budget).0 <= hi,
        ask(trace.take(bisected(ask, trace, lo, hi, budget).0)),
    decreases hi - lo,
{
    if lo + 1 < hi {
        let mid = lo + (hi - lo) / 2;
        let (yes, left) = asked(ask, trace.take(mid), budget);
        if yes {
            lemma_bisected(ask, trace, lo, mid, left);
        } else {
            lemma_bisected(ask, trace, mid, hi, left);
        }
    }
}

proof fn lemma_straightened(
    ask: spec_fn(Seq<u32>) -> bool,
    plan: Seq<u32>,
    i: int,
    budget: nat,
)
    requires
        ask(plan),
        1 <= i,
    ensures
        ask(straightened(ask, plan, i, budget)),
        straightened(ask, plan, i, budget).len() == plan.len(),
        switches_of(straightened(ask, plan, i, budget)) <= switches_of(plan),
    decreases plan.len() - i,
{
    if i < plan.len() && budget > 0 {
        if plan[i] == plan[i - 1] {
            lemma_straightened(ask, plan, i + 1, budget);
        } else {
            let candidate = plan.update(i, plan[i - 1]);
            let (yes, left) = asked(ask, candidate, budget);
            lemma_keeping_on_adds_no_switch(plan, i);
            lemma_straightened(
                ask,
                if yes {
                    candidate
                } else {
                    plan
                },
                i + 1,
                left,
            );
        }
    }
}

/// Letting a thread keep the turn at one position adds no switch.
proof fn lemma_keeping_on_adds_no_switch(plan: Seq<u32>, i: int)
    requires
        1 <= i < plan.len(),
        plan[i] != plan[i - 1],
    ensures
        switches_of(plan.update(i, plan[i - 1])) <= switches_of(plan),
        i == plan.len() - 1 ==> switches_of(plan.update(i, plan[i - 1])) + 1 <= switches_of(plan),
    decreases plan.len(),
{
    let changed = plan.update(i, plan[i - 1]);
    let shorter = plan.drop_last();
    if i == plan.len() - 1 {
        assert(changed.drop_last() =~= shorter);
    } else {
        assert(changed.drop_last() =~= shorter.update(i, shorter[i - 1]));
        lemma_keeping_on_adds_no_switch(shorter, i);
    }
}

proof fn lemma_fewer_switches_in_prefix(trace: Seq<u32>, n: int)
    requires
        0 <= n <= trace.len(),
    ensures
        switches_of(trace.take(n)) <= switches_of(trace),
    decreases trace.len() - n,
{
    if n < trace.len() {
        lemma_fewer_switches_in_prefix(trace, n + 1);
        let longer = trace.take(n + 1);
        assert(longer.drop_last() =~= trace.take(n));
    } else {
        assert(trace.take(n) =~= trace);
    }
}

/// When the default schedule already finds the bug, the shrunk schedule has no
/// decisions at all.
pub proof fn the_default_schedule_is_tried_first(
    ask: spec_fn(Seq<u32>) -> bool,
    trace: Seq<u32>,
    budget: nat,
)
    requires
        ask(trace),
        ask(Seq::empty()),
        budget >= 2,
    ensures
        minimised(ask, trace, budget) == Shrunk::Minimised(Seq::<u32>::empty()),
{
    assert(trace.take(0) =~= Seq::<u32>::empty());
    let rest = short_prefix(ask, trace, (budget - 1) as nat).1;
    assert(straightened(ask, Seq::<u32>::empty(), 1, rest) =~= Seq::<u32>::empty());
}

/// Shrinking gives up exactly when replaying the recording loses the finding.
pub proof fn only_lost_findings_are_not_shrunk(
    ask: spec_fn(Seq<u32>) -> bool,
    trace: Seq<u32>,
    budget: nat,
)
    ensures
        minimised(ask, trace, budget) is NotReproducible <==> budget > 0 && !ask(trace),
{
}

/// Whether a prefix of the recording that reproduces the finding still does so
/// when it is longer.
pub open spec fn longer_is_as_good(ask: spec_fn(Seq<u32>) -> bool, trace: Seq<u32>) -> bool {
    forall|m: int, n: int|
        0 <= m <= n <= trace.len() && #[trigger] ask(trace.take(m)) ==> #[trigger] ask(
            trace.take(n),
        )
}

/// When a longer prefix is as good as a shorter one and the budget suffices,
/// the prefix that shrinking settles on is the shortest that reproduces.
pub proof fn the_shortest_prefix_is_found(
    ask: spec_fn(Seq<u32>) -> bool,
    trace: Seq<u32>,
    budget: nat,
)
    requires
        ask(trace),
        longer_is_as_good(ask, trace),
        budget >= 2 * trace.len() + 1,
    ensures
        ({
            let n = short_prefix(ask, trace, budget).0;
            &&& 0 <= n <= trace.len()
            &&& ask(trace.take(n))
            &&& forall|m: int| 0 <= m < n ==> !#[trigger] ask(trace.take(m))
        }),
{
    lemma_short_prefix(ask, trace, budget);
    let (yes, left) = asked(ask, Seq::empty(), budget);
    if !yes {
        assert(trace.take(0) =~= Seq::empty());
        let (lo, hi, rest) = doubled(ask, trace, 0, 1, left);
        lemma_doubled(ask, trace, 0, 1, left);
        lemma_doubled_is_tight(ask, trace, 0, 1, left);
        lemma_bisected_is_tight(ask, trace, lo, hi, rest);
        let n = bisected(ask, trace, lo, hi, rest).0;
        assert forall|m: int| 0 <= m < n implies !#[trigger] ask(trace.take(m)) by {
            if ask(trace.take(m)) {
                assert(ask(trace.take(n - 1)));
            }
        }
    }
}

proof fn lemma_doubled_is_tight(
    ask: spec_fn(Seq<u32>) -> bool,
    trace: Seq<u32>,
    lo: int,
    step: int,
    budget: nat,
)
    requires
        0 <= lo < step,
        lo <= trace.len(),
        !ask(trace.take(lo)),
        budget >= trace.len() - lo,
    ensures
        ({
            let (l, _, rest) = doubled(ask, trace, lo, step, budget);
            !ask(trace.take(l)) && rest >= budget - (trace.len() - lo)
        }),
    decreases
            if step < trace.len() {
                trace.len() - step
            } else {
                0
            },
{
    if step < trace.len() {
        let (yes, left) = asked(ask, trace.take(step), budget);
        if !yes {
            lemma_doubled_is_tight(ask, trace, step, 2 * step, left);
        }
    }
}

proof fn lemma_bisected_is_tight(
    ask: spec_fn(Seq<u32>) -> bool,
    trace: Seq<u32>,
    lo: int,
    hi: int,
    budget: nat,
)
    requires
        0 <= lo < hi <= trace.len(),
        !ask(trace.take(lo)),
        budget >= hi - lo,
    ensures
        lo < bisected(ask, trace, lo, hi, budget).0,
        !ask(trace.take(bisected(ask, trace, lo, hi, budget).0 - 1)),
    decreases hi - lo,
{
    if lo + 1 < hi {
        let mid = lo + (hi - lo) / 2;
        let (yes, left) = asked(ask, trace.take(mid), budget);
        if yes {
            lemma_bisected_is_tight(ask, trace, lo, mid, left);
        } else {
            lemma_bisected_is_tight(ask, trace, mid, hi, left);
        }
    }
}

/// Halving a distance costs one replay for each time it can be halved.
proof fn lemma_bisected_cost(
    ask: spec_fn(Seq<u32>) -> bool,
    trace: Seq<u32>,
    lo: int,
    hi: int,
    j: nat,
    budget: nat,
)
    requires
        0 <= lo < hi <= trace.len(),
        hi - lo <= pow2(j),
        budget >= j,
        !ask(trace.take(lo)),
        ask(trace.take(hi)),
    ensures
        ({
            let (n, rest) = bisected(ask, trace, lo, hi, budget);
            &&& rest >= budget - j
            &&& lo < n <= hi
            &&& ask(trace.take(n))
            &&& !ask(trace.take(n - 1))
        }),
    decreases j,
{
    if lo + 1 < hi {
        if j == 0 {
            lemma2_to64();
        } else {
            lemma_pow2_unfold(j);
            let mid = lo + (hi - lo) / 2;
            let (yes, left) = asked(ask, trace.take(mid), budget);
            if yes {
                lemma_bisected_cost(ask, trace, lo, mid, (j - 1) as nat, left);
            } else {
                lemma_bisected_cost(ask, trace, mid, hi, (j - 1) as nat, left);
            }
        }
    }
}

/// Doubling costs one replay for each length tried.
proof fn lemma_doubled_cost(
    ask: spec_fn(Seq<u32>) -> bool,
    trace: Seq<u32>,
    lo: int,
    e: nat,
    k: nat,
    budget: nat,
)
    requires
        e <= k,
        0 <= lo < pow2(e),
        lo < trace.len() <= pow2(k),
        budget >= k - e,
        !ask(trace.take(lo)),
        ask(trace),
    ensures
        ({
            let (l, h, rest) = doubled(ask, trace, lo, pow2(e) as int, budget);
            &&& rest >= budget - (k - e)
            &&& 0 <= l < h <= trace.len()
            &&& ask(trace.take(h))
            &&& !ask(trace.take(l))
        }),
    decreases k - e,
{
    lemma_pow2_pos(e);
    let step = pow2(e) as int;
    if step >= trace.len() {
        assert(trace.take(trace.len() as int) =~= trace);
    } else {
        if e == k {
            assert(false);
        }
        let (yes, left) = asked(ask, trace.take(step), budget);
        if !yes {
            lemma_pow2_unfold(e + 1);
            lemma_doubled_cost(ask, trace, step, e + 1, k, left);
        }
    }
}

/// What the search for a prefix costs, and what it finds: a prefix that
/// reproduces while the one a decision shorter does not.
proof fn lemma_short_prefix_cost(
    ask: spec_fn(Seq<u32>) -> bool,
    trace: Seq<u32>,
    k: nat,
    budget: nat,
)
    requires
        ask(trace),
        trace.len() <= pow2(k),
        budget >= 2 * k + 1,
    ensures
        ({
            let (n, rest) = short_prefix(ask, trace, budget);
            &&& rest >= budget - (2 * k + 1)
            &&& 0 <= n <= trace.len()
            &&& ask(trace.take(n))
            &&& n > 0 ==> !ask(trace.take(n - 1))
        }),
{
    let (yes, left) = asked(ask, Seq::empty(), budget);
    assert(trace.take(0) =~= Seq::empty());
    if !yes {
        if trace.len() == 0 {
            assert(trace =~= Seq::empty());
        }
        lemma2_to64();
        lemma_doubled_cost(ask, trace, 0, 0, k, left);
        let (lo, hi, rest) = doubled(ask, trace, 0, 1, left);
        lemma_bisected_cost(ask, trace, lo, hi, k, rest);
    }
}

/// Shrinking finds a short prefix with few replays: for a recording of at most
/// `2^k` decisions, `2k + 2` of them are enough for one that reproduces the
/// finding while the prefix a decision shorter does not. Where a longer prefix
/// is as good as a shorter one, that is the shortest there is.
pub proof fn few_replays_find_a_short_prefix(
    ask: spec_fn(Seq<u32>) -> bool,
    trace: Seq<u32>,
    k: nat,
    budget: nat,
)
    requires
        ask(trace),
        trace.len() <= pow2(k),
        budget >= 2 * k + 2,
    ensures
        ({
            &&& minimised(ask, trace, budget) matches Shrunk::Minimised(plan)
            &&& plan.len() <= trace.len()
            &&& ask(trace.take(plan.len() as int))
            &&& plan.len() > 0 ==> !ask(trace.take(plan.len() - 1))
            &&& longer_is_as_good(ask, trace) ==> forall|m: int|
                0 <= m < plan.len() ==> !#[trigger] ask(trace.take(m))
        }),
{
    let left = (budget - 1) as nat;
    let (n, rest) = short_prefix(ask, trace, left);
    lemma_short_prefix_cost(ask, trace, k, left);
    lemma_straightened(ask, trace.take(n), 1, rest);
    if longer_is_as_good(ask, trace) {
        assert forall|m: int| 0 <= m < n implies !#[trigger] ask(trace.take(m)) by {
            if ask(trace.take(m)) {
                assert(ask(trace.take(n - 1)));
            }
        }
    }
}

/// What dropping switches from position `i` on leaves, and why.
proof fn lemma_switches_tried(
    ask: spec_fn(Seq<u32>) -> bool,
    plan: Seq<u32>,
    i: int,
    budget: nat,
)
    requires
        1 <= i,
    ensures
        ({
            let result = straightened(ask, plan, i, budget);
            &&& result.len() == plan.len()
            &&& forall|j: int| 0 <= j < i && j < plan.len() ==> #[trigger] result[j] == plan[j]
            &&& forall|j: int|
                i <= j < plan.len() ==> #[trigger] result[j] == plan[j] || result[j] == result[j
                    - 1]
            &&& budget >= plan.len() - i ==> forall|j: int|
                i <= j < plan.len() && #[trigger] result[j] != result[j - 1] ==> !ask(
                    result.take(j).push(result[j - 1]) + plan.skip(j + 1),
                )
        }),
    decreases plan.len() - i,
{
    let result = straightened(ask, plan, i, budget);
    if i < plan.len() && budget > 0 {
        let candidate = plan.update(i, plan[i - 1]);
        let (yes, left) = asked(ask, candidate, budget);
        let (next, rest) = if plan[i] == plan[i - 1] {
            (plan, budget)
        } else if yes {
            (candidate, left)
        } else {
            (plan, left)
        };
        lemma_switches_tried(ask, next, i + 1, rest);
        assert(result == straightened(ask, next, i + 1, rest));
        assert(result[i] == next[i]);
        assert(result[i - 1] == next[i - 1]);
        assert forall|j: int| i <= j < plan.len() implies #[trigger] result[j] == plan[j]
            || result[j] == result[j - 1] by {
            if j > i {
                assert(result[j] == next[j] || result[j] == result[j - 1]);
            }
        }
        if budget >= plan.len() - i {
            assert forall|j: int|
                i <= j < plan.len() && #[trigger] result[j] != result[j - 1] implies !ask(
                result.take(j).push(result[j - 1]) + plan.skip(j + 1),
            ) by {
                if j == i {
                    assert(result.take(j).push(result[j - 1]) + plan.skip(j + 1) =~= candidate);
                } else {
                    assert(next.skip(j + 1) =~= plan.skip(j + 1));
                }
            }
        }
    }
}

/// With replays to spare, every switch that is left was tried: at each
/// position where the turn changes hands in the shrunk schedule, letting the
/// previous thread keep running there, after what the schedule was shrunk to
/// so far and before the rest of the recorded prefix, loses the finding. So
/// where every plan of that length finds it, no switch is left.
pub proof fn every_switch_left_is_needed(
    ask: spec_fn(Seq<u32>) -> bool,
    trace: Seq<u32>,
    k: nat,
    budget: nat,
)
    requires
        ask(trace),
        trace.len() <= pow2(k),
        budget >= 2 * k + 2 + trace.len(),
    ensures
        ({
            &&& minimised(ask, trace, budget) matches Shrunk::Minimised(plan)
            &&& plan.len() <= trace.len()
            &&& forall|i: int|
                1 <= i < plan.len() && #[trigger] plan[i] != plan[i - 1] ==> !ask(
                    plan.take(i).push(plan[i - 1]) + trace.subrange(i + 1, plan.len() as int),
                )
            &&& (forall|p: Seq<u32>| p.len() == plan.len() ==> #[trigger] ask(p)) ==> (forall|
                i: int,
            |
                1 <= i < plan.len() ==> #[trigger] plan[i] == plan[i - 1])
        }),
{
    let left = (budget - 1) as nat;
    let (n, rest) = short_prefix(ask, trace, left);
    lemma_short_prefix_cost(ask, trace, k, left);
    let start = trace.take(n);
    let plan = straightened(ask, start, 1, rest);
    lemma_switches_tried(ask, start, 1, rest);
    assert forall|i: int| 1 <= i < plan.len() && #[trigger] plan[i] != plan[i - 1] implies !ask(
        plan.take(i).push(plan[i - 1]) + trace.subrange(i + 1, plan.len() as int),
    ) by {
        assert(start.skip(i + 1) =~= trace.subrange(i + 1, n));
    }
    if forall|p: Seq<u32>| p.len() == plan.len() ==> #[trigger] ask(p) {
        assert forall|i: int| 1 <= i < plan.len() implies #[trigger] plan[i] == plan[i - 1] by {
            let other = plan.take(i).push(plan[i - 1]) + trace.subrange(i + 1, plan.len() as int);
            assert(other.len() == plan.len());
            assert(ask(other));
        }
    }
}

/// Shrinking invents no decisions, whatever it may spend: each decision of a
/// shrunk schedule is the recorded one, or lets the thread before go on.
pub proof fn shrunk_schedules_follow_the_recording(
    ask: spec_fn(Seq<u32>) -> bool,
    trace: Seq<u32>,
    budget: nat,
)
    ensures
        minimised(ask, trace, budget) matches Shrunk::Minimised(plan) ==> {
            &&& plan.len() <= trace.len()
            &&& forall|i: int|
                0 <= i < plan.len() ==> #[trigger] plan[i] == trace[i] || (i > 0 && plan[i]
                    == plan[i - 1])
        },
{
    let (yes, left) = asked(ask, trace, budget);
    if budget > 0 && yes {
        let (n, rest) = short_prefix(ask, trace, left);
        lemma_short_prefix(ask, trace, left);
        let start = trace.take(n);
        lemma_switches_tried(ask, start, 1, rest);
    }
}

/// A switch is a position where the turn passes to another thread, and each is
/// counted once.
pub proof fn switches_are_counted_once_each(plan: Seq<u32>)
    ensures
        ({
            let switches = Set::new(|i: int| 1 <= i < plan.len() && plan[i] != plan[i - 1]);
            switches.finite() && switches.len() == switches_of(plan)
        }),
    decreases plan.len(),
{
    let all = Set::new(|i: int| 1 <= i < plan.len() && plan[i] != plan[i - 1]);
    if plan.len() < 2 {
        assert(all =~= Set::empty());
    } else {
        let shorter = plan.drop_last();
        let some = Set::new(|i: int| 1 <= i < shorter.len() && shorter[i] != shorter[i - 1]);
        switches_are_counted_once_each(shorter);
        let last = plan.len() - 1;
        if plan[last] != plan[last - 1] {
            assert(all =~= some.insert(last));
        } else {
            assert(all =~= some);
        }
    }
}

/// The runs of an exploration differ in their seeds alone, which count up from
/// the configured one.
pub proof fn seeds_count_up(base: LaunchConfig, i: u64)
    requires
        base.seed + i < u64::MAX,
    ensures
        seeded(base, 0) == base,
        seeded(base, i).seed == base.seed + i,
        seeded(base, i).grid == base.grid,
        seeded(base, i).block == base.block,
        seeded(base, i).warp_size == base.warp_size,
        seeded(base, i).resident == base.resident,
{
}

/// An exploration reports the first seed that finds something, and is clean
/// only when none does: `bad` says which seeds find something, whenever they
/// are run.
pub proof fn the_first_failing_seed_is_reported<R: Fn(LaunchConfig, Choices) -> Outcome>(
    run_once: R,
    knobs: Knobs,
    result: Exploration,
    bad: spec_fn(u64) -> bool,
)
    requires
        explored(run_once, knobs, result),
        forall|config: LaunchConfig, choices: Choices, out: Outcome|
            #![trigger can_end(run_once, config, choices, out)]
            can_end(run_once, config, choices, out) && choices@ == Source::Random(config.seed)
                ==> (out.0.diagnostics@.len() > 0 <==> bad(config.seed)),
        knobs.base.seed + knobs.seeds <= u64::MAX,
    ensures
        result.failure is None ==> result.seeds_tried == knobs.seeds && forall|j: u64|
            j < knobs.seeds ==> !#[trigger] bad((knobs.base.seed + j) as u64),
        result.failure matches Some(f) ==> {
            &&& bad(f.seed)
            &&& f.report.diagnostics@.len() > 0
            &&& 1 <= result.seeds_tried <= knobs.seeds
            &&& f.seed == knobs.base.seed + result.seeds_tried - 1
            &&& forall|j: u64|
                j < result.seeds_tried - 1 ==> !#[trigger] bad((knobs.base.seed + j) as u64)
        },
{
    let tried = match result.failure {
        None => knobs.seeds,
        Some(_) => (result.seeds_tried - 1) as u64,
    };
    assert forall|j: u64| j < tried implies !#[trigger] bad((knobs.base.seed + j) as u64) by {
        let config = seeded(knobs.base, j);
        assert(seen_clean(run_once, config));
        let (choices, out) = choose|choices: Choices, out: Outcome| #[trigger]
            can_end(run_once, config, choices, out) && choices@ == Source::Random(config.seed)
                && out.0.diagnostics@.len() == 0;
        assert(can_end(run_once, config, choices, out));
        assert(config.seed == knobs.base.seed + j);
    }
}

/// A launch whose schedule could not be recorded, and a run with shrinking
/// turned off, are not shrunk; nothing else is left unshrunk without a replay.
pub proof fn shrinking_is_skipped_for_a_reason<R: Fn(LaunchConfig, Choices) -> Outcome>(
    run_once: R,
    knobs: Knobs,
    config: LaunchConfig,
    report: Report,
    trace: Seq<u32>,
    complete: bool,
    result: Shrink,
)
    requires
        shrink_outcome(run_once, knobs, config, report, trace, complete, result),
        report.diagnostics@.len() > 0,
    ensures
        result is Disabled <==> !knobs.minimise,
        result is TraceTruncated <==> knobs.minimise && !complete,
        result is NotReproducible ==> knobs.budget > 0,
{
}

/// What shrinking has to preserve is the finding reported first: it is one of
/// the report's, and what was reported after the first does not change it.
pub proof fn the_first_finding_is_the_target(one: Report, other: Report)
    requires
        one.diagnostics@.len() > 0,
        other.diagnostics@.len() > 0,
        one.diagnostics@[0] == other.diagnostics@[0],
    ensures
        target_of(one) == target_of(other),
        target_of(one) matches Some(t) && diag::has_fingerprint(one.diagnostics@, t),
{
    assert(diag::fingerprint_text(one.diagnostics@[0]) == target_of(one)->0);
}

/// A clean exploration says how many seeds it tried. A failed one says so too,
/// then which seed failed, in how many decisions, what shrinking came to, and
/// what was found; the schedule is listed last, if there is one.
pub proof fn explorations_say_what_failed(e: Exploration)
    ensures
        e.failure is None ==> exists|rest: Seq<char>|
            exploration_text(e) == #[trigger] ("riri: explored "@ + text::decimal(
                e.seeds_tried as nat,
            ) + " seed(s), all clean"@ + rest),
        e.failure matches Some(f) ==> exists|a: Seq<char>, b: Seq<char>|
            exploration_text(e) == #[trigger] ("riri: explored "@ + text::decimal(
                e.seeds_tried as nat,
            ) + " seed(s), seed "@ + text::decimal(f.seed as nat) + " failed in "@ + text::decimal(
                f.decisions as nat,
            ) + " decision(s), "@ + shrink_text(shrink_view(f.shrink)) + a + diag::finding_lines(
                f.report.diagnostics@,
            ) + b),
{
    match e.failure {
        None => {
            reveal_strlit(" seed(s), all clean\n");
            reveal_strlit(" seed(s), all clean");
            reveal_strlit("\n");
            let t = "riri: explored "@ + text::decimal(e.seeds_tried as nat);
            assert(" seed(s), all clean\n"@ =~= " seed(s), all clean"@ + "\n"@);
            assert(t + " seed(s), all clean\n"@ =~= t + " seed(s), all clean"@ + "\n"@);
        },
        Some(f) => {
            let t = "riri: explored "@ + text::decimal(e.seeds_tried as nat) + " seed(s), seed "@
                + text::decimal(f.seed as nat) + " failed in "@ + text::decimal(f.decisions as nat)
                + " decision(s), "@ + shrink_text(shrink_view(f.shrink));
            let b = schedule_line(shrink_view(f.shrink));
            assert(exploration_text(e) =~= t + "\n"@ + diag::finding_lines(f.report.diagnostics@)
                + b);
        },
    }
}

/// A schedule is summed up by its length and its switches, and listed in order:
/// its decisions with a comma and a blank between neighbours.
pub proof fn schedules_are_listed_in_order(plan: Seq<u32>, next: u32)
    ensures
        schedule_text(plan) == text::decimal(plan.len()) + " decision(s), "@ + text::decimal(
            switches_of(plan),
        ) + " switch(es)"@,
        plan_items(plan).len() == 0 <==> plan.len() == 0,
        plan.len() == 0 ==> plan_items(plan.push(next)) == text::decimal(next as nat),
        plan.len() > 0 ==> plan_items(plan.push(next)) == plan_items(plan) + ", "@ + text::decimal(
            next as nat,
        ),
        shrink_text(Shrunk::Minimised(plan)) == "shrunk to "@ + schedule_text(plan),
        schedule_line(Shrunk::Minimised(plan)) == "  schedule: ["@ + plan_items(plan) + "]\n"@,
        schedule_line(Shrunk::Disabled).len() == 0,
        schedule_line(Shrunk::TraceTruncated).len() == 0,
        schedule_line(Shrunk::NotReproducible).len() == 0,
{
    assert(plan.push(next).drop_last() =~= plan);
    reveal_strlit(", ");
    if plan.len() > 0 {
        text::decimals_read_back(plan[0] as nat);
    }
}

/// The last replay counts: while one is left, the next switch is tried, and it
/// goes if and only if the finding survives without it. With none left the plan
/// stays as it is.
pub proof fn every_replay_is_used(
    ask: spec_fn(Seq<u32>) -> bool,
    plan: Seq<u32>,
    i: int,
    budget: nat,
)
    requires
        1 <= i < plan.len(),
        plan[i] != plan[i - 1],
    ensures
        straightened(ask, plan, i, 0) == plan,
        budget > 0 ==> straightened(ask, plan, i, budget)[i] == if ask(
            plan.update(i, plan[i - 1]),
        ) {
            plan[i - 1]
        } else {
            plan[i]
        },
        straightened(ask, plan, i, 1) == if ask(plan.update(i, plan[i - 1])) {
            plan.update(i, plan[i - 1])
        } else {
            plan
        },
{
    let candidate = plan.update(i, plan[i - 1]);
    if budget > 0 {
        let (yes, left) = asked(ask, candidate, budget);
        let next = if yes {
            candidate
        } else {
            plan
        };
        lemma_switches_tried(ask, next, i + 1, left);
        assert(straightened(ask, plan, i, budget)[i] == next[i]);
    }
    lemma_nothing_spent(ask, plan, i + 1);
    lemma_nothing_spent(ask, candidate, i + 1);
}

proof fn lemma_nothing_spent(ask: spec_fn(Seq<u32>) -> bool, plan: Seq<u32>, i: int)
    ensures
        straightened(ask, plan, i, 0) == plan,
{
}

proof fn lemma_nothing_doubled(ask: spec_fn(Seq<u32>) -> bool, trace: Seq<u32>, lo: int, step: int)
    ensures
        doubled(ask, trace, lo, step, 0).1 == trace.len(),
        doubled(ask, trace, lo, step, 0).2 == 0,
    decreases
            if step < trace.len() {
                trace.len() - step
            } else {
                0
            },
{
    if 0 < step < trace.len() {
        lemma_nothing_doubled(ask, trace, step, 2 * step);
    }
}

proof fn lemma_nothing_bisected(ask: spec_fn(Seq<u32>) -> bool, trace: Seq<u32>, lo: int, hi: int)
    ensures
        bisected(ask, trace, lo, hi, 0).0 == hi,
        bisected(ask, trace, lo, hi, 0).1 == 0,
    decreases hi - lo,
{
    if lo + 1 < hi {
        lemma_nothing_bisected(ask, trace, lo + (hi - lo) / 2, hi);
    }
}

/// The first replay confirms the recording and the second tries nothing at all:
/// with one, the recording comes back if it still finds the problem, and with
/// two, the empty plan does if the default schedule finds it.
pub proof fn the_first_replays_confirm_and_empty(
    ask: spec_fn(Seq<u32>) -> bool,
    trace: Seq<u32>,
    budget: nat,
)
    requires
        ask(trace),
    ensures
        minimised(ask, trace, 1) == Shrunk::Minimised(trace),
        budget >= 2 && ask(Seq::empty()) ==> minimised(ask, trace, budget) == Shrunk::Minimised(
            Seq::<u32>::empty(),
        ),
        minimised(ask, trace, 2) == if ask(Seq::empty()) {
            Shrunk::Minimised(Seq::<u32>::empty())
        } else {
            Shrunk::Minimised(trace)
        },
{
    lemma_nothing_doubled(ask, trace, 0, 1);
    let (lo, hi, rest) = doubled(ask, trace, 0, 1, 0);
    lemma_nothing_bisected(ask, trace, lo, hi);
    assert(trace.take(trace.len() as int) =~= trace);
    assert(trace.take(0) =~= Seq::<u32>::empty());
    lemma_nothing_spent(ask, trace, 1);
}

} // verus!
