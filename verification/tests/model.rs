//! The happens-before model, findings and configuration, piece by piece.

use riri::diag::{Reporter, MAX_DIAGNOSTICS};
use riri::launch::ConfigError;
use riri::oxide;
use riri::sched::{Choices, SplitMix64, Turn, Wake};
use riri::shadow::{is_concurrent, Cell, MAX_READERS};
use riri::shared::{SharedRequest, SharedTable};
use riri::state::LaunchState;
use riri::sync::{key, Clock, SyncState};
use riri::warp::{check_mask, count_lanes, Lanes};
use riri::{
    Access, AccessKind, AtomicOrdering, Diagnostic, Dim3, Exploration, Failure, GlobalBuf,
    LaneProblem, LaunchConfig, Location, MemSpace, Report, Schedule, Shrink, ThreadCtx,
};

fn at(line: u32) -> Location {
    Location::new("kernel.rs", line, 1)
}

fn acc(block: u32, thread: u32, epoch: u64, kind: AccessKind) -> Access {
    Access {
        block,
        thread,
        epoch,
        warp: 0,
        warp_epoch: 0,
        seq: 1,
        kind,
        location: at(1),
    }
}

fn global() -> MemSpace {
    MemSpace::Global {
        buffer: "buf".to_string(),
    }
}

// ------------------------------------------------------- access history ---

#[test]
fn same_epoch_different_threads_race() {
    let none = Clock::new();
    let mut c = Cell::initialised();
    assert!(c
        .on_write(acc(0, 0, 0, AccessKind::Write), &none, true)
        .is_none());
    assert!(c.on_read(acc(0, 1, 0, AccessKind::Read), &none).is_some());
}

#[test]
fn barrier_orders_accesses() {
    let none = Clock::new();
    let mut c = Cell::initialised();
    c.on_write(acc(0, 0, 0, AccessKind::Write), &none, true);
    assert!(c.on_read(acc(0, 1, 1, AccessKind::Read), &none).is_none());
}

#[test]
fn blocks_are_never_ordered() {
    let none = Clock::new();
    let mut c = Cell::initialised();
    c.on_write(acc(0, 0, 0, AccessKind::Write), &none, true);
    assert!(c
        .on_write(acc(1, 0, 5, AccessKind::Write), &none, true)
        .is_some());
}

#[test]
fn atomics_do_not_race_each_other() {
    let none = Clock::new();
    let mut c = Cell::initialised();
    c.on_write(acc(0, 0, 0, AccessKind::Atomic), &none, true);
    assert!(c
        .on_write(acc(1, 3, 0, AccessKind::Atomic), &none, true)
        .is_none());
    assert!(c.on_read(acc(0, 7, 0, AccessKind::Read), &none).is_some());
}

#[test]
fn write_after_concurrent_read_races() {
    let none = Clock::new();
    let mut c = Cell::initialised();
    c.on_read(acc(0, 0, 0, AccessKind::Read), &none);
    assert!(c
        .on_write(acc(0, 1, 0, AccessKind::Write), &none, true)
        .is_some());
}

#[test]
fn a_warp_epoch_orders_its_warp_alone() {
    let none = Clock::new();
    let a = acc(0, 0, 0, AccessKind::Write);
    let mut mate = acc(0, 1, 0, AccessKind::Read);
    mate.warp_epoch = 1;
    assert!(!is_concurrent(&a, &mate, &none));
    let mut other = mate;
    other.warp = 1;
    assert!(is_concurrent(&a, &other, &none));
}

#[test]
fn a_clock_that_has_seen_an_access_orders_it() {
    let a = acc(0, 0, 0, AccessKind::Write);
    let b = acc(1, 0, 0, AccessKind::Read);
    let mut clock = Clock::new();
    assert!(is_concurrent(&a, &b, &clock));
    clock.observe(key(0, 0), 1);
    assert!(!is_concurrent(&a, &b, &clock));
}

#[test]
fn only_so_many_readers_are_remembered() {
    let none = Clock::new();
    let mut c = Cell::initialised();
    for thread in 0..MAX_READERS as u32 + 1 {
        c.on_read(acc(0, thread, 0, AccessKind::Read), &none);
    }
    // The first reader is the one named, and the one past the bound was not
    // kept: its own write conflicts with another.
    let first = c.on_write(acc(0, 99, 0, AccessKind::Write), &none, true);
    assert_eq!(first.unwrap().thread, 0);

    let mut alone = Cell::initialised();
    alone.on_read(acc(0, 5, 0, AccessKind::Read), &none);
    assert!(alone
        .on_write(acc(0, 5, 0, AccessKind::Write), &none, true)
        .is_none());
}

#[test]
fn a_later_read_of_a_thread_replaces_its_earlier_one() {
    let none = Clock::new();
    let mut c = Cell::initialised();
    c.on_read(acc(0, 0, 0, AccessKind::Read), &none);
    let mut again = acc(0, 0, 0, AccessKind::Read);
    again.seq = 7;
    c.on_read(again, &none);
    // A writer that has seen only the earlier read still conflicts.
    let mut clock = Clock::new();
    clock.observe(key(0, 0), 1);
    let first = c.on_write(acc(1, 0, 0, AccessKind::Write), &clock, true);
    assert_eq!(first.unwrap().seq, 7);
}

#[test]
fn resetting_forgets_history_and_maybe_initialisation() {
    let none = Clock::new();
    let mut c = Cell::new(false);
    assert!(!c.is_init());
    c.on_write(acc(0, 0, 0, AccessKind::Atomic), &none, false);
    assert!(!c.is_init());
    c.on_write(acc(0, 0, 0, AccessKind::Write), &none, true);
    assert!(c.is_init());
    let mut global = c.clone();
    global.reset(true);
    assert!(global.is_init());
    assert!(global.on_read(acc(1, 0, 0, AccessKind::Read), &none).is_none());
    c.reset(false);
    assert!(!c.is_init());
}

// --------------------------------------------------------------- clocks ---

#[test]
fn joining_takes_the_later_of_each_entry() {
    let mut a = Clock::new();
    let mut b = Clock::new();
    assert!(a.is_empty());
    a.observe(1, 5);
    a.observe(2, 1);
    b.observe(2, 3);
    b.observe(3, 9);
    a.join(&b);
    assert_eq!((a.get(1), a.get(2), a.get(3), a.get(4)), (5, 3, 9, 0));
    a.observe(1, 2);
    assert_eq!(a.get(1), 5);
}

#[test]
fn keys_pack_block_and_thread() {
    assert_eq!(key(0, 7), 7);
    assert_eq!(key(3, 7), 3 * (1u64 << 32) + 7);
}

#[test]
fn a_release_and_an_acquire_hand_over() {
    for (release, acquire, handed) in [
        (AtomicOrdering::Release, AtomicOrdering::Acquire, true),
        (AtomicOrdering::AcqRel, AtomicOrdering::SeqCst, true),
        (AtomicOrdering::Relaxed, AtomicOrdering::Acquire, false),
        (AtomicOrdering::Release, AtomicOrdering::Relaxed, false),
    ] {
        let mut s = SyncState::new(2, 2);
        assert_eq!(s.tick(0, key(0, 0)), 1);
        let mut flag = Clock::new();
        s.release(0, &mut flag, release);
        s.acquire(1, &flag, acquire);
        assert_eq!(s.clock(1).get(key(0, 0)) == 1, handed);
    }
}

#[test]
fn fences_make_relaxed_atomics_hand_over() {
    let mut s = SyncState::new(2, 2);
    s.tick(0, key(0, 0));
    s.fence(0, AtomicOrdering::Release);
    let mut flag = Clock::new();
    s.release(0, &mut flag, AtomicOrdering::Relaxed);
    s.acquire(1, &flag, AtomicOrdering::Relaxed);
    assert_eq!(s.clock(1).get(key(0, 0)), 0);
    s.fence(1, AtomicOrdering::Acquire);
    assert_eq!(s.clock(1).get(key(0, 0)), 1);
}

#[test]
fn a_barrier_shares_the_blocks_clocks() {
    let mut s = SyncState::new(3, 1);
    for gid in 0..3 {
        s.tick(gid, key(0, gid as u32));
        s.barrier_arrive(gid, 0);
    }
    s.barrier_depart(2, 0);
    assert_eq!(
        (0..3).map(|t| s.clock(2).get(key(0, t))).collect::<Vec<_>>(),
        vec![1, 1, 1]
    );
}

#[test]
fn a_barrier_shares_what_was_known_when_it_released() {
    let mut s = SyncState::new(3, 2);
    for gid in 0..2 {
        s.tick(gid, key(0, gid as u32));
        s.barrier_arrive(gid, 0);
    }
    s.barrier_release(0, 2, 0);
    s.tick(0, key(0, 0));
    s.barrier_arrive(0, 0);
    assert_eq!(s.clock(0).get(key(0, 0)), 2);
    assert_eq!(s.clock(0).get(key(0, 1)), 1);
    assert_eq!(s.clock(1).get(key(0, 0)), 1);
    assert_eq!(s.clock(2).get(key(0, 0)), 0);
}

// ------------------------------------------------------------- findings ---

#[test]
fn findings_are_worded_as_documented() {
    let a = acc(0, 1, 0, AccessKind::Write);
    let mut b = acc(2, 3, 0, AccessKind::Atomic);
    b.location = at(9);
    let shared = MemSpace::Shared {
        block: 4,
        name: "tile",
    };
    let cases = vec![
        (
            Diagnostic::DataRace {
                space: global(),
                index: 5,
                first: a,
                second: b,
            },
            "data race on global `buf`[5]: block 0 thread 1 (Write at kernel.rs:1) conflicts with \
             block 2 thread 3 (Atomic at kernel.rs:9) with no barrier between them",
            "race@kernel.rs:1~kernel.rs:9",
        ),
        (
            Diagnostic::UninitRead {
                space: shared.clone(),
                index: 0,
                access: b,
            },
            "read of uninitialised shared `tile` (block 4)[0] by block 2 thread 3 (Atomic at \
             kernel.rs:9)",
            "uninit@kernel.rs:9",
        ),
        (
            Diagnostic::OutOfBounds {
                space: shared,
                index: 7,
                len: 6,
                access: a,
            },
            "out-of-bounds access shared `tile` (block 4)[7] (len 6) by block 0 thread 1 (Write \
             at kernel.rs:1)",
            "oob@kernel.rs:1",
        ),
        (
            Diagnostic::BarrierDivergence {
                block: 1,
                waiting: 3,
                exited: 2,
                barrier: at(4),
            },
            "barrier divergence in block 1: 3 thread(s) wait at kernel.rs:4 but 2 thread(s) \
             exited without reaching it",
            "barrier@kernel.rs:4",
        ),
        (
            Diagnostic::WarpDivergence {
                block: 0,
                warp: 1,
                op: "shfl_sync",
                mask: 0xFF,
                arrived: 0x11,
                at: at(6),
            },
            "warp divergence in block 0 warp 1: `shfl_sync` at kernel.rs:6 names lanes 0-7 but \
             only lanes 0,4 arrived, so lanes 1-3,5-7 never reach it",
            "warp-divergence:shfl_sync@kernel.rs:6",
        ),
        (
            Diagnostic::WarpMaskMismatch {
                block: 0,
                warp: 1,
                op: "sync_warp",
                at: at(7),
                lane: 4,
                mask: 0xF0,
                other_lane: 0,
                other_mask: 0xFF,
            },
            "warp mask mismatch in block 0 warp 1: `sync_warp` at kernel.rs:7 was called by lane \
             4 with lanes 4-7 but by lane 0 with lanes 0-7",
            "warp-mask-mismatch:sync_warp@kernel.rs:7",
        ),
        (
            Diagnostic::WarpLaneError {
                block: 0,
                warp: 1,
                op: "ballot_sync",
                at: at(8),
                lane: 2,
                mask: 0xF0,
                problem: LaneProblem::CallerNotInMask,
            },
            "invalid warp collective in block 0 warp 1: lane 2 called `ballot_sync` at \
             kernel.rs:8 with lanes 4-7 but the calling lane is not a member of its own mask",
            "warp-lane-error:ballot_sync:caller-not-in-mask@kernel.rs:8",
        ),
        (
            Diagnostic::KernelPanic {
                block: 0,
                thread: 2,
                message: "cursed".to_string(),
            },
            "kernel panic in block 0 thread 2: cursed",
            "panic:cursed",
        ),
    ];
    for (d, text, fingerprint) in cases {
        assert_eq!(d.to_string(), text);
        assert_eq!(d.fingerprint(), fingerprint);
    }
}

#[test]
fn fingerprints_name_lines_and_not_columns() {
    let race = |columns: (u32, u32), swapped: bool| {
        let mut first = acc(0, 1, 0, AccessKind::Write);
        let mut second = acc(2, 3, 0, AccessKind::Read);
        first.location = Location::new("kernel.rs", 4, columns.0);
        second.location = Location::new("kernel.rs", 9, columns.1);
        let (first, second) = if swapped { (second, first) } else { (first, second) };
        let index = columns.0 as usize;
        Diagnostic::DataRace { space: global(), index, first, second }.fingerprint()
    };
    assert_eq!(race((1, 2), false), "race@kernel.rs:4~kernel.rs:9");
    assert_eq!(race((7, 3), true), race((1, 2), false));
}

#[test]
fn lane_problems_are_worded_as_documented() {
    assert_eq!(
        LaneProblem::MaskOutsideBlock { valid: 0b11 }.to_string(),
        "the mask names lanes outside the block (lanes 0-1 exist)"
    );
    assert_eq!(
        LaneProblem::SourceLaneNotInMask { src: 5 }.to_string(),
        "source lane 5 is not a member of the mask"
    );
    assert_eq!(
        LaneProblem::SourceLaneNotInMask { src: 5 }.kind(),
        "source-lane-not-in-mask"
    );
    assert_eq!(
        LaneProblem::MaskOutsideBlock { valid: 3 }.kind(),
        "mask-outside-block"
    );
}

#[test]
fn lane_lists_are_compact() {
    let text = |mask| {
        LaneProblem::MaskOutsideBlock { valid: mask }
            .to_string()
            .replace("the mask names lanes outside the block (lanes ", "")
            .replace(" exist)", "")
    };
    assert_eq!(text(0), "none");
    assert_eq!(text(1), "0");
    assert_eq!(text(u32::MAX), "0-31");
    assert_eq!(text(0x8000_00F5), "0,2,4-7,31");
}

fn race(first: u32, second: u32, thread: u32) -> Diagnostic {
    let mut a = acc(0, thread, 0, AccessKind::Write);
    let mut b = acc(1, thread, 0, AccessKind::Write);
    a.location = at(first);
    b.location = at(second);
    Diagnostic::DataRace {
        space: global(),
        index: thread as usize,
        first: a,
        second: b,
    }
}

#[test]
fn a_reporter_keeps_the_first_of_each_kind_and_place() {
    let mut r = Reporter::new();
    r.push(race(1, 2, 0));
    // The same lines the other way round, by other threads.
    r.push(race(2, 1, 5));
    r.push(race(2, 3, 0));
    let kept = r.take();
    assert_eq!(kept.len(), 2);
    assert_eq!(kept[0], race(1, 2, 0));
    // What was handed over is not reported again.
    r.push(race(1, 2, 9));
    assert!(r.take().is_empty());
}

#[test]
fn a_reporter_is_bounded() {
    let mut r = Reporter::new();
    for line in 0..100 {
        r.push(race(line, line, 0));
    }
    assert_eq!(r.take().len(), MAX_DIAGNOSTICS);
}

#[test]
fn reports_list_their_findings() {
    let report = Report {
        seed: 7,
        diagnostics: vec![race(3, 1, 0), race(1, 3, 4), race(2, 2, 0)],
        aborted: true,
    };
    assert!(!report.is_clean());
    assert!(report.has_race());
    assert!(!report.has_warp_divergence());
    assert_eq!(
        report.fingerprints(),
        vec!["race@kernel.rs:1~kernel.rs:3", "race@kernel.rs:2~kernel.rs:2"]
    );
    assert!(report.contains("race@kernel.rs:1~kernel.rs:3"));
    assert!(!report.contains("race@kernel.rs:3~kernel.rs:1"));
    let listing = report.complaint().unwrap();
    assert!(listing.starts_with("riri: 3 diagnostic(s) (seed 7, launch aborted)\n  - data race"));
    assert_eq!(listing, report.to_string());

    let clean = Report {
        seed: 0,
        diagnostics: Vec::new(),
        aborted: false,
    };
    assert!(clean.complaint().is_none());
    assert_eq!(clean.to_string(), "riri: 0 diagnostic(s) (seed 0)\n");
}

#[test]
fn schedules_and_outcomes_are_worded_as_documented() {
    let s = Schedule::new(vec![1, 3, 3, 3, 1]);
    assert_eq!(s.len(), 5);
    assert_eq!(s.switches(), 2);
    assert_eq!(s.plan(), &[1, 3, 3, 3, 1]);
    assert_eq!(s.to_string(), "5 decision(s), 2 switch(es)");
    assert!(Schedule::new(Vec::new()).is_empty());
    assert_eq!(
        Shrink::Disabled.to_string(),
        "not shrunk, minimisation disabled"
    );
    assert_eq!(
        Shrink::TraceTruncated.to_string(),
        "not shrunk, the schedule was too long to record"
    );
    assert_eq!(
        Shrink::NotReproducible.to_string(),
        "not shrunk, the kernel did not behave the same way twice"
    );
    let failed = Exploration {
        seeds_tried: 3,
        failure: Some(Failure {
            seed: 2,
            report: Report {
                seed: 2,
                diagnostics: Vec::new(),
                aborted: false,
            },
            shrink: Shrink::Minimised(s),
            decisions: 9,
        }),
    };
    assert!(!failed.is_clean());
    assert_eq!(
        failed.to_string(),
        "riri: explored 3 seed(s), seed 2 failed in 9 decision(s), shrunk to 5 decision(s), 2 \
         switch(es)\n  schedule: [1, 3, 3, 3, 1]\n"
    );
    assert_eq!(failed.clone().failure.unwrap().decisions, 9);
}

// -------------------------------------------------------- configuration ---

fn problem(config: LaunchConfig) -> ConfigError {
    match config.plan() {
        Ok(_) => panic!("expected an error"),
        Err(e) => e,
    }
}

#[test]
fn configurations_that_cannot_run_are_refused() {
    assert_eq!(problem(LaunchConfig::new(0u32, 1u32)), ConfigError::Empty);
    assert_eq!(problem(LaunchConfig::new(1u32, 0u32)), ConfigError::Empty);
    let mut odd = LaunchConfig::new(1u32, 1u32);
    odd.warp_size = 12;
    assert_eq!(problem(odd), ConfigError::WarpSize { lanes: 12 });
    assert_eq!(
        problem(odd).to_string(),
        "riri: warp size must be a power of two no greater than 32, got 12"
    );
    let mut none = LaunchConfig::new(1u32, 1u32);
    none.resident = Some(0);
    assert_eq!(problem(none), ConfigError::NoResidentBlocks);
    assert_eq!(
        problem(LaunchConfig::new(u32::MAX, 2u32)),
        ConfigError::TooLarge
    );
    assert_eq!(
        problem(LaunchConfig::new((u32::MAX, 2), 1u32)),
        ConfigError::TooLarge
    );
    let big = LaunchConfig::new(17u32, 1024u32);
    assert_eq!(problem(big), ConfigError::TooManyThreads { total: 17408 });
    assert_eq!(
        problem(big).to_string(),
        "riri: 17408 threads exceeds the limit of 16384; shrink the launch for testing"
    );
    assert_eq!(ConfigError::Empty.to_string(), "riri: grid and block must be non-empty");
    assert_eq!(ConfigError::TooLarge.to_string(), "riri: launch too large");
    assert_eq!(
        ConfigError::NoResidentBlocks.to_string(),
        "riri: at least one block must be resident"
    );
    assert!(LaunchState::start(1, &big, Choices::Random(SplitMix64(0))).is_err());
}

#[test]
fn waves_cover_the_grid() {
    let plan = LaunchConfig::new(7u32, 4u32)
        .resident_blocks(3)
        .plan()
        .ok()
        .unwrap();
    assert!(!plan.is_single_wave());
    let mut first = 0;
    let mut sizes = Vec::new();
    while let Some(wave) = plan.next_wave(first) {
        assert_eq!(wave.first, first);
        sizes.push(wave.blocks);
        first += wave.blocks;
    }
    assert_eq!(sizes, vec![3, 3, 1]);
    let whole = LaunchConfig::new(7u32, 4u32).plan().ok().unwrap();
    assert!(whole.is_single_wave());
}

#[test]
fn extents_linearise_x_fastest() {
    let d = Dim3::new(4, 3, 2);
    assert_eq!(d.count(), 24);
    assert_eq!(Dim3::from_linear(0, d), Dim3::new(0, 0, 0));
    assert_eq!(Dim3::from_linear(5, d), Dim3::new(1, 1, 0));
    assert_eq!(Dim3::from_linear(23, d), Dim3::new(3, 2, 1));
    assert_eq!(Dim3::from(7), Dim3::new(7, 1, 1));
    assert_eq!(Dim3::from((7, 2)), Dim3::new(7, 2, 1));
    assert_eq!(Dim3::from((7, 2, 3)), Dim3::new(7, 2, 3));
    assert!(Dim3::new(u32::MAX, u32::MAX, 1).checked_count().is_none());
}

#[test]
fn threads_know_where_they_are() {
    let config = LaunchConfig::new((2, 2), (4, 3)).warp_size(8);
    let state = LaunchState::start(1, &config, Choices::Random(SplitMix64(0)))
        .ok()
        .unwrap();
    assert_eq!(state.resident_threads(), 48);
    let t: ThreadCtx = state.thread(47);
    assert_eq!(t.block_idx(), Dim3::new(1, 1, 0));
    assert_eq!(t.thread_idx(), Dim3::new(3, 2, 0));
    assert_eq!(t.block_dim(), Dim3::new(4, 3, 1));
    assert_eq!(t.grid_dim(), Dim3::new(2, 2, 1));
    assert_eq!(t.thread_linear(), 11);
    assert_eq!(t.block_linear(), 3);
    assert_eq!(t.global_linear(), 47);
    assert_eq!((t.warp_size(), t.warp_id(), t.lane_id()), (8, 1, 3));
    // Twelve threads in warps of eight: the second warp has four lanes.
    assert_eq!(t.warp_valid_mask(), 0x0F);
    assert_eq!(state.thread(0).warp_valid_mask(), 0xFF);
    assert_eq!(
        (
            oxide::thread::threadIdx_x(&t),
            oxide::thread::threadIdx_y(&t),
            oxide::thread::threadIdx_z(&t)
        ),
        (3, 2, 0)
    );
    assert_eq!(
        (
            oxide::thread::blockIdx_x(&t),
            oxide::thread::blockIdx_y(&t),
            oxide::thread::blockIdx_z(&t)
        ),
        (1, 1, 0)
    );
    assert_eq!(
        (
            oxide::thread::blockDim_x(&t),
            oxide::thread::blockDim_y(&t),
            oxide::thread::blockDim_z(&t),
            oxide::thread::gridDim_x(&t),
            oxide::thread::warp_size(&t)
        ),
        (4, 3, 1, 2, 8)
    );
    assert_eq!(oxide::thread::index_1d(&t).get(), 7);
    assert_eq!(check_mask(&t, 0x0F), None);
    assert_eq!(
        check_mask(&t, 0xFF),
        Some(LaneProblem::MaskOutsideBlock { valid: 0x0F })
    );
    assert_eq!(check_mask(&t, 0x07), Some(LaneProblem::CallerNotInMask));
}

// -------------------------------------------------------- the scheduler ---

#[test]
fn the_generator_is_splitmix64() {
    let mut g = SplitMix64(0);
    assert_eq!(g.next(), 0xE220_A839_7B1D_CDAF);
    assert_eq!(g.next(), 0x6E78_9E6A_A1B9_65F4);
}

#[test]
fn a_plan_is_followed_and_then_the_current_thread_stays() {
    let config = LaunchConfig::new(1u32, 4u32);
    let choices = Schedule::new(vec![2, 3]).choices();
    let mut state = LaunchState::start(1, &config, choices).ok().unwrap();
    assert_eq!(state.wake(), Wake::One(2));
    assert_eq!(state.turn(2), Turn::Go);
    assert_eq!(state.turn(0), Turn::Wait);
    assert_eq!(state.schedule_point(2), Turn::Wait);
    assert_eq!(state.wake(), Wake::One(3));
    assert_eq!(state.schedule_point(3), Turn::Go);
    state.finish(3);
    // With the running thread gone the first that can run goes on.
    assert_eq!(state.wake(), Wake::One(0));
    state.trap(race(1, 2, 0));
    assert_eq!(state.turn(0), Turn::Aborted);
    assert_eq!(state.wake(), Wake::All);
    let (report, trace, complete) = match state.advance() {
        Ok(_) => panic!("an aborted launch has no next wave"),
        Err(end) => end,
    };
    assert!(report.aborted);
    assert_eq!(report.diagnostics.len(), 1);
    assert_eq!(trace, vec![2, 3, 3, 0]);
    assert!(complete);
}

#[test]
fn shared_arrays_are_per_block_and_name() {
    let mut table = SharedTable::new();
    assert_eq!(table.request(0, "tile", 4, 8), SharedRequest::Fresh(0));
    assert_eq!(table.request(1, "tile", 4, 8), SharedRequest::Fresh(1));
    assert_eq!(table.request(0, "tile", 4, 8), SharedRequest::Known(0));
    assert_eq!(table.request(0, "other", 4, 8), SharedRequest::Fresh(2));
    assert_eq!(table.request(0, "tile", 8, 8), SharedRequest::OtherType);
    assert_eq!(table.request(0, "tile", 4, 9), SharedRequest::OtherLength);
}

#[test]
fn exchange_slots_know_who_published() {
    let mut slots = Lanes::<u32>::new(4);
    assert!(slots.covers(0));
    assert!(!slots.covers(0b10));
    slots.publish(1, 7);
    assert!(slots.covers(0b10));
    assert!(!slots.covers(0b110));
    assert_eq!(slots.get(1), 7);
    assert_eq!(count_lanes(0x8000_00F5), 7);
}

#[test]
fn the_maskless_shuffles_read_the_whole_warp() {
    let config = LaunchConfig::new(1u32, 4u32).warp_size(4);
    let mut state = LaunchState::start(1, &config, Choices::Random(SplitMix64(0)))
        .ok()
        .unwrap();
    let mut slots = Lanes::<u32>::new(4);
    for lane in 0..4 {
        slots.publish(lane, 10 + lane);
    }
    let here = at(1);
    assert_eq!(oxide::warp::shuffle(&mut state, 2, &slots, 12, 5, here), 11);
    assert_eq!(oxide::warp::shuffle_up(&mut state, 2, &slots, 12, 1, here), 11);
    assert_eq!(oxide::warp::shuffle_up(&mut state, 0, &slots, 10, 1, here), 10);
    assert_eq!(oxide::warp::shuffle_down(&mut state, 2, &slots, 12, 1, here), 13);
    assert_eq!(oxide::warp::shuffle_xor(&mut state, 2, &slots, 12, 3, here), 11);
    assert_eq!(oxide::warp::warp_id(&state.thread(2)), 0);
}

// --------------------------------------------------------------- memory ---

#[test]
fn reads_give_back_writes_and_traps_end_the_launch() {
    let config = LaunchConfig::new(1u32, 1u32);
    let mut state = LaunchState::start(1, &config, Choices::Random(SplitMix64(0)))
        .ok()
        .unwrap();
    let mut buf = GlobalBuf::<u32>::uninit("buf", 2);
    assert_eq!(buf.len(), 2);
    assert!(!buf.is_empty());
    buf.write(&mut state, 0, 1, 9, at(1)).ok().unwrap();
    assert_eq!(buf.read(&mut state, 0, 1, at(2)).ok(), Some(9));
    assert_eq!(
        buf.atomic_add(&mut state, 0, 1, 2, AtomicOrdering::Relaxed, at(3)).ok(),
        Some(9)
    );
    assert_eq!(
        buf.atomic_max(&mut state, 0, 1, 3, AtomicOrdering::Relaxed, at(4)).ok(),
        Some(11)
    );
    assert_eq!(
        buf.atomic_min(&mut state, 0, 1, 3, AtomicOrdering::Relaxed, at(5)).ok(),
        Some(11)
    );
    assert_eq!(buf.to_vec()[1], 3);
    assert_eq!(buf.claim(&mut state, 0, 2, true, at(6)).ok(), Some(false));
    assert_eq!(buf.claim(&mut state, 0, 1, true, at(6)).ok(), Some(true));
    assert_eq!(*buf.element(1), 3);
    assert!(buf.read(&mut state, 0, 2, at(7)).is_err());
    let (report, _, _) = state.advance().err().unwrap();
    assert!(report.aborted);
    assert_eq!(report.fingerprints(), vec!["oob@kernel.rs:7"]);
}
