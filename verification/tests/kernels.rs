//! Whole kernels, run one simulated thread at a time.
//!
//! A kernel is an `async` block per thread. An operation that has to wait for
//! the turn suspends it, and the loop in `run` resumes whichever thread the
//! launch names next.

use std::any::{Any, TypeId};
use std::cell::RefCell;
use std::collections::{HashMap, HashSet};
use std::future::{pending, poll_fn, Future};
use std::ops::{Add, Sub};
use std::pin::Pin;
use std::rc::Rc;
use std::sync::atomic::{AtomicU64, Ordering as CpuOrdering};
use std::sync::Arc;
use std::task::{Context, Poll, Wake as WakeTask, Waker};

use riri::explore::explore;
use riri::oxide;
use riri::sched::{Choices, SplitMix64, Turn, Wake};
use riri::shared::{SharedRequest, SharedTable};
use riri::state::LaunchState;
use riri::warp::{self, Lanes};
use riri::{
    replay, AtomicOrdering, Diagnostic, Explore, GlobalBuf, LaneProblem, LaunchConfig, Location,
    MemSpace, Report, Schedule, SharedArray, Shrink, ThreadCtx,
};

// ---------------------------------------------------------- the driver ---

struct Idle;

impl WakeTask for Idle {
    fn wake(self: Arc<Self>) {}
}

/// A wave of a launch and what its threads share.
struct Gpu {
    launch: LaunchState,
    table: SharedTable,
    arrays: Vec<Rc<dyn Any>>,
    slots: HashMap<(u32, u32, TypeId), Rc<dyn Any>>,
}

/// One simulated thread.
#[derive(Clone)]
struct Thread {
    gpu: Rc<RefCell<Gpu>>,
    me: usize,
    ctx: ThreadCtx,
}

fn at(line: u32) -> Location {
    Location::new("src/main.rs", line, 9)
}

impl Thread {
    async fn turn(&self) {
        poll_fn(|_| {
            if self.gpu.borrow().launch.turn(self.me) == Turn::Go {
                Poll::Ready(())
            } else {
                Poll::Pending
            }
        })
        .await
    }

    async fn schedule_point(&self) {
        self.gpu.borrow_mut().launch.schedule_point(self.me);
        self.turn().await
    }

    async fn sync_threads(&self, loc: Location) {
        self.gpu.borrow_mut().launch.sync_threads_at(self.me, loc);
        self.turn().await
    }

    fn threadfence(&self) {
        self.gpu.borrow_mut().launch.threadfence(self.me);
    }

    fn fence(&self, ordering: AtomicOrdering) {
        self.gpu.borrow_mut().launch.fence(self.me, ordering);
    }

    async fn panic(&self, message: &str) {
        self.gpu
            .borrow_mut()
            .launch
            .kernel_panic(self.me, message.to_string());
        pending::<()>().await
    }

    fn shared<T: Copy + Default + 'static>(&self, name: &'static str, len: usize) -> Shared<T> {
        let mut gpu = self.gpu.borrow_mut();
        let block = self.ctx.block_linear() as u32;
        let tag = std::mem::size_of::<T>() as u64;
        match gpu.table.request(block, name, tag, len) {
            SharedRequest::Fresh(_) => {
                let array = Rc::new(RefCell::new(SharedArray::<T>::new(block, name, len)));
                gpu.arrays.push(array.clone());
                Shared(array)
            }
            SharedRequest::Known(slot) => {
                let array = gpu.arrays[slot].clone();
                Shared(array.downcast::<RefCell<SharedArray<T>>>().unwrap())
            }
            SharedRequest::OtherType => {
                panic!("riri: shared array `{name}` reused with a different element type")
            }
            SharedRequest::OtherLength => {
                panic!("riri: shared array `{name}` reused with a different length")
            }
        }
    }

    fn slots<T: Copy + 'static>(&self) -> Rc<RefCell<Lanes<T>>> {
        let key = (
            self.ctx.block_linear() as u32,
            self.ctx.warp_id(),
            TypeId::of::<T>(),
        );
        let lanes = self.ctx.warp_size();
        let mut gpu = self.gpu.borrow_mut();
        let entry = gpu
            .slots
            .entry(key)
            .or_insert_with(|| Rc::new(RefCell::new(Lanes::<T>::new(lanes))));
        entry.clone().downcast::<RefCell<Lanes<T>>>().unwrap()
    }

    async fn collective<T: Copy + 'static, R>(
        &self,
        mask: u32,
        op: &'static str,
        at: Location,
        value: T,
        read: impl FnOnce(&mut LaunchState, usize, &Lanes<T>) -> R,
    ) -> R {
        self.schedule_point().await;
        let slots = self.slots::<T>();
        let entered = warp::arrive(
            &mut self.gpu.borrow_mut().launch,
            self.me,
            &mut slots.borrow_mut(),
            value,
            mask,
            op,
            at,
        );
        if entered.is_err() {
            pending::<()>().await;
        }
        self.turn().await;
        assert!(slots.borrow().covers(mask));
        let result = read(&mut self.gpu.borrow_mut().launch, self.me, &slots.borrow());
        warp::depart(&mut self.gpu.borrow_mut().launch, self.me, mask, op, at);
        self.turn().await;
        result
    }

    async fn shfl_sync<T: Copy + 'static>(&self, mask: u32, v: T, src: u32, at: Location) -> T {
        self.collective(mask, "shfl_sync", at, v, move |l, me, s| {
            warp::shfl_sync(l, me, s, mask, v, src, at)
        })
        .await
    }

    async fn shfl_up_sync<T: Copy + 'static>(&self, mask: u32, v: T, d: u32, at: Location) -> T {
        self.collective(mask, "shfl_up_sync", at, v, move |l, me, s| {
            warp::shfl_up_sync(l, me, s, mask, v, d, at)
        })
        .await
    }

    async fn shfl_down_sync<T: Copy + 'static>(&self, mask: u32, v: T, d: u32, at: Location) -> T {
        self.collective(mask, "shfl_down_sync", at, v, move |l, me, s| {
            warp::shfl_down_sync(l, me, s, mask, v, d, at)
        })
        .await
    }

    async fn shfl_xor_sync<T: Copy + 'static>(&self, mask: u32, v: T, m: u32, at: Location) -> T {
        self.collective(mask, "shfl_xor_sync", at, v, move |l, me, s| {
            warp::shfl_xor_sync(l, me, s, mask, v, m, at)
        })
        .await
    }

    async fn ballot_sync(&self, mask: u32, pred: bool, at: Location) -> u32 {
        self.collective(mask, "ballot_sync", at, pred, move |_, _, s| {
            warp::ballot_sync(s, mask)
        })
        .await
    }

    async fn any_sync(&self, mask: u32, pred: bool, at: Location) -> bool {
        self.collective(mask, "any_sync", at, pred, move |_, _, s| {
            warp::any_sync(s, mask)
        })
        .await
    }

    async fn all_sync(&self, mask: u32, pred: bool, at: Location) -> bool {
        self.collective(mask, "all_sync", at, pred, move |_, _, s| {
            warp::all_sync(s, mask)
        })
        .await
    }

    async fn sync_warp(&self, mask: u32, at: Location) {
        self.collective(mask, "sync_warp", at, (), |_, _, _| ())
            .await
    }

    // The forms without a mask.

    async fn shuffle(&self, v: u32, src: u32, at: Location) -> u32 {
        let mask = self.ctx.warp_valid_mask();
        self.collective(mask, "shfl_sync", at, v, move |l, me, s| {
            oxide::warp::shuffle(l, me, s, v, src, at)
        })
        .await
    }

    async fn shuffle_down(&self, v: u32, delta: u32, at: Location) -> u32 {
        let mask = self.ctx.warp_valid_mask();
        self.collective(mask, "shfl_down_sync", at, v, move |l, me, s| {
            oxide::warp::shuffle_down(l, me, s, v, delta, at)
        })
        .await
    }

    async fn vote<R>(
        &self,
        op: &'static str,
        pred: bool,
        at: Location,
        count: impl FnOnce(&ThreadCtx, &Lanes<bool>) -> R,
    ) -> R {
        let ctx = self.ctx;
        self.collective(ctx.warp_valid_mask(), op, at, pred, move |_, _, s| {
            count(&ctx, s)
        })
        .await
    }
}

/// A buffer that the threads of a kernel share.
struct Buf<T>(Rc<RefCell<GlobalBuf<T>>>);

impl<T> Clone for Buf<T> {
    fn clone(&self) -> Self {
        Buf(self.0.clone())
    }
}

impl<T: Copy + 'static> Buf<T> {
    fn new(name: &str, data: Vec<T>) -> Buf<T> {
        Buf(Rc::new(RefCell::new(GlobalBuf::new(name, data))))
    }

    fn uninit(name: &str, len: usize) -> Buf<T>
    where
        T: Default,
    {
        Buf(Rc::new(RefCell::new(GlobalBuf::uninit(name, len))))
    }

    fn to_vec(&self) -> Vec<T> {
        self.0.borrow().to_vec()
    }

    /// Passes a scheduling point and then acts; an aborted thread goes no
    /// further.
    async fn act<R, E>(
        &self,
        t: &Thread,
        op: impl FnOnce(&mut GlobalBuf<T>, &mut LaunchState, usize) -> Result<R, E>,
    ) -> R {
        t.schedule_point().await;
        let done = op(
            &mut self.0.borrow_mut(),
            &mut t.gpu.borrow_mut().launch,
            t.me,
        );
        match done {
            Ok(r) => r,
            Err(_) => pending().await,
        }
    }

    async fn read(&self, t: &Thread, i: usize, at: Location) -> T {
        self.act(t, |b, l, me| b.read(l, me, i, at)).await
    }

    async fn write(&self, t: &Thread, i: usize, v: T, at: Location) {
        self.act(t, |b, l, me| b.write(l, me, i, v, at)).await
    }

    async fn atomic_load(&self, t: &Thread, i: usize, o: AtomicOrdering, at: Location) -> T {
        self.act(t, |b, l, me| b.atomic_load(l, me, i, o, at)).await
    }

    async fn atomic_store(&self, t: &Thread, i: usize, v: T, o: AtomicOrdering, at: Location) {
        self.act(t, |b, l, me| b.atomic_store(l, me, i, v, o, at))
            .await
    }

    async fn atomic_swap(&self, t: &Thread, i: usize, v: T, o: AtomicOrdering, at: Location) -> T {
        self.act(t, |b, l, me| b.atomic_swap(l, me, i, v, o, at))
            .await
    }

    async fn atomic_add(&self, t: &Thread, i: usize, v: T, o: AtomicOrdering, at: Location) -> T
    where
        T: Add<Output = T>,
    {
        self.act(t, |b, l, me| b.atomic_add(l, me, i, v, o, at))
            .await
    }

    async fn atomic_sub(&self, t: &Thread, i: usize, v: T, o: AtomicOrdering, at: Location) -> T
    where
        T: Sub<Output = T>,
    {
        self.act(t, |b, l, me| b.atomic_sub(l, me, i, v, o, at))
            .await
    }

    async fn atomic_min(&self, t: &Thread, i: usize, v: T, o: AtomicOrdering, at: Location) -> T
    where
        T: PartialOrd,
    {
        self.act(t, |b, l, me| b.atomic_min(l, me, i, v, o, at))
            .await
    }

    async fn atomic_max(&self, t: &Thread, i: usize, v: T, o: AtomicOrdering, at: Location) -> T
    where
        T: PartialOrd,
    {
        self.act(t, |b, l, me| b.atomic_max(l, me, i, v, o, at))
            .await
    }

    async fn atomic_compare_exchange(
        &self,
        t: &Thread,
        i: usize,
        current: T,
        new: T,
        o: AtomicOrdering,
        at: Location,
    ) -> Result<T, T>
    where
        T: PartialEq,
    {
        self.act(t, |b, l, me| {
            b.atomic_compare_exchange(l, me, i, current, new, o, at)
        })
        .await
    }

    async fn get_mut_indexed(&self, t: &Thread, at: Location) -> Option<usize> {
        let found = self
            .act(t, |b, l, me| {
                oxide::slice::get_mut_indexed(b, l, me, at)
            })
            .await;
        found.map(|idx| idx.get())
    }

    async fn get_mut(&self, t: &Thread, idx: oxide::thread::ThreadIndex<'_>, at: Location) -> bool {
        self.act(t, |b, l, me| oxide::slice::get_mut(b, l, me, idx, at))
            .await
    }

    async fn get_unchecked_mut(&self, t: &Thread, i: usize, at: Location) {
        self.act(t, |b, l, me| {
            oxide::slice::get_unchecked_mut(b, l, me, i, at)
        })
        .await
    }

    /// Writes through a claim.
    fn set(&self, i: usize, v: T) {
        *self.0.borrow_mut().element_mut(i) = v;
    }
}

/// A shared array of a block.
#[derive(Clone)]
struct Shared<T>(Rc<RefCell<SharedArray<T>>>);

impl<T: Copy + 'static> Shared<T> {
    async fn read(&self, t: &Thread, i: usize, at: Location) -> T {
        t.schedule_point().await;
        let done = self
            .0
            .borrow_mut()
            .read(&mut t.gpu.borrow_mut().launch, t.me, i, at);
        match done {
            Ok(v) => v,
            Err(_) => pending().await,
        }
    }

    async fn write(&self, t: &Thread, i: usize, v: T, at: Location) {
        t.schedule_point().await;
        let done = self
            .0
            .borrow_mut()
            .write(&mut t.gpu.borrow_mut().launch, t.me, i, v, at);
        if done.is_err() {
            pending().await
        }
    }
}

static NEXT_LAUNCH: AtomicU64 = AtomicU64::new(1);

type Outcome = (Report, Vec<u32>, bool);

fn run<K, F>(config: &LaunchConfig, choices: Choices, kernel: &K) -> Outcome
where
    K: Fn(Thread) -> F,
    F: Future<Output = ()> + 'static,
{
    let id = NEXT_LAUNCH.fetch_add(1, CpuOrdering::Relaxed);
    let mut state = match LaunchState::start(id, config, choices) {
        Ok(state) => state,
        Err(e) => panic!("{}", e.to_string()),
    };
    let waker = Waker::from(Arc::new(Idle));
    loop {
        let n = state.resident_threads();
        let gpu = Rc::new(RefCell::new(Gpu {
            launch: state,
            table: SharedTable::new(),
            arrays: Vec::new(),
            slots: HashMap::new(),
        }));
        let mut threads: Vec<Option<Pin<Box<dyn Future<Output = ()>>>>> = Vec::new();
        for me in 0..n {
            let ctx = gpu.borrow().launch.thread(me);
            let thread = Thread {
                gpu: gpu.clone(),
                me,
                ctx,
            };
            threads.push(Some(Box::pin(kernel(thread))));
        }
        loop {
            let next = gpu.borrow().launch.wake();
            let me = match next {
                Wake::One(me) => me,
                Wake::All | Wake::Nobody => break,
            };
            let thread = threads[me].as_mut().unwrap();
            if thread
                .as_mut()
                .poll(&mut Context::from_waker(&waker))
                .is_ready()
            {
                threads[me] = None;
                gpu.borrow_mut().launch.finish(me);
            }
        }
        drop(threads);
        let gpu = match Rc::try_unwrap(gpu) {
            Ok(gpu) => gpu.into_inner(),
            Err(_) => unreachable!(),
        };
        match gpu.launch.advance() {
            Ok(next) => state = next,
            Err(end) => return end,
        }
    }
}

fn launch<K, F>(config: &LaunchConfig, kernel: K) -> Report
where
    K: Fn(Thread) -> F,
    F: Future<Output = ()> + 'static,
{
    run(config, Choices::Random(SplitMix64(config.seed)), &kernel).0
}

/// One kernel, run again and again.
fn runner<K, F>(kernel: K) -> impl Fn(LaunchConfig, Choices) -> Outcome
where
    K: Fn(Thread) -> F,
    F: Future<Output = ()> + 'static,
{
    move |config, choices| run(&config, choices, &kernel)
}

/// A kernel built anew for each run.
fn fresh_runner<B, K, F>(build: B) -> impl Fn(LaunchConfig, Choices) -> Outcome
where
    B: Fn() -> K,
    K: Fn(Thread) -> F,
    F: Future<Output = ()> + 'static,
{
    move |config, choices| run(&config, choices, &build())
}

fn assert_clean(report: &Report) {
    if let Some(listing) = report.complaint() {
        panic!("{listing}");
    }
}

fn show(report: &Report) -> String {
    report.to_string()
}

fn count<F: Fn(&Diagnostic) -> bool>(r: &Report, f: F) -> usize {
    r.diagnostics.iter().filter(|d| f(d)).count()
}

fn has<F: Fn(&Diagnostic) -> bool>(r: &Report, f: F) -> bool {
    r.diagnostics.iter().any(f)
}

// ------------------------------------------------------------ detection ---

#[test]
fn clean_vecadd() {
    let n = 128;
    let a = Buf::new("a", (0..n).map(|i| i as f32).collect());
    let b = Buf::new("b", vec![1.0f32; n]);
    let c = Buf::new("c", vec![0.0f32; n]);

    let (a2, b2, c2) = (a.clone(), b.clone(), c.clone());
    let report = launch(&LaunchConfig::new(4u32, 32u32).seed(1), |t| {
        let (a, b, c) = (a2.clone(), b2.clone(), c2.clone());
        async move {
            let i = t.ctx.global_linear();
            let sum = a.read(&t, i, at(1)).await + b.read(&t, i, at(2)).await;
            c.write(&t, i, sum, at(3)).await;
        }
    });

    assert_clean(&report);
    assert_eq!(
        c.to_vec(),
        (0..n).map(|i| i as f32 + 1.0).collect::<Vec<_>>()
    );
}

#[test]
fn every_thread_writes_same_slot() {
    let out = Buf::new("out", vec![0u32; 1]);
    let report = launch(&LaunchConfig::new(1u32, 32u32), |t| {
        let out = out.clone();
        async move {
            out.write(&t, 0, t.ctx.thread_linear() as u32, at(1)).await;
        }
    });
    assert!(report.has_race(), "{}", show(&report));
}

#[test]
fn cross_block_race_even_after_barriers() {
    // Barriers order threads within a block, never across blocks.
    let out = Buf::new("out", vec![0u32; 4]);
    let report = launch(&LaunchConfig::new(2u32, 4u32), |t| {
        let out = out.clone();
        async move {
            t.sync_threads(at(1)).await;
            out.write(&t, t.ctx.thread_linear(), 1, at(2)).await;
        }
    });
    assert!(report.has_race(), "{}", show(&report));
}

/// The kernel that hands its neighbour a value, with or without a barrier.
fn neighbours(out: &Buf<u32>, seed: u64, barrier: bool) -> Report {
    launch(&LaunchConfig::new(1u32, 32u32).seed(seed), |t| {
        let out = out.clone();
        async move {
            let tile = t.shared::<u32>("tile", 32);
            let i = t.ctx.thread_linear();
            tile.write(&t, i, i as u32, at(8)).await;
            if barrier {
                t.sync_threads(at(9)).await;
            }
            let v = tile.read(&t, (i + 1) % 32, at(10)).await;
            out.write(&t, i, v, Location::new("src/main.rs", 10, 5))
                .await;
        }
    })
}

#[test]
fn shared_memory_missing_barrier() {
    let out = Buf::new("out", vec![0u32; 32]);
    let report = neighbours(&out, 3, false);
    assert!(report.has_race(), "{}", show(&report));
    assert!(report.diagnostics.iter().any(|d| matches!(
        d,
        Diagnostic::DataRace {
            space: MemSpace::Shared { name: "tile", .. },
            ..
        }
    )));
}

#[test]
fn a_missing_barrier_reads_as_documented() {
    let out = Buf::new("out", vec![0u32; 32]);
    let report = neighbours(&out, 3, false);
    assert_eq!(
        show(&report),
        "riri: 2 diagnostic(s) (seed 3)\n  - data race on shared `tile` (block 0)[21]: \
         block 0 thread 21 (Write at src/main.rs:8) conflicts with block 0 thread 20 \
         (Read at src/main.rs:10) with no barrier between them\n  - read of uninitialised \
         shared `tile` (block 0)[19] by block 0 thread 18 (Read at src/main.rs:10)\n"
    );
}

#[test]
fn shared_memory_with_barrier_is_clean() {
    let out = Buf::new("out", vec![0u32; 32]);
    for seed in 0..8 {
        let report = neighbours(&out, seed, true);
        assert_clean(&report);
    }
    assert_eq!(out.to_vec()[31], 0);
    assert_eq!(out.to_vec()[0], 1);
}

#[test]
fn uninitialised_shared_read() {
    let report = launch(&LaunchConfig::new(1u32, 8u32), |t| async move {
        let tile = t.shared::<u32>("tile", 16);
        // Only the first 8 slots are ever written.
        tile.write(&t, t.ctx.thread_linear(), 7, at(1)).await;
        t.sync_threads(at(2)).await;
        let _ = tile.read(&t, 8 + t.ctx.thread_linear(), at(3)).await;
    });
    assert!(
        count(&report, |d| matches!(d, Diagnostic::UninitRead { .. })) > 0,
        "{}",
        show(&report)
    );
}

#[test]
fn barrier_in_divergent_branch() {
    let report = launch(&LaunchConfig::new(1u32, 32u32), |t| async move {
        if t.ctx.thread_linear() < 16 {
            t.sync_threads(at(1)).await;
        }
    });
    assert!(report.aborted);
    assert!(
        report
            .diagnostics
            .iter()
            .any(|d| matches!(d, Diagnostic::BarrierDivergence { .. })),
        "{}",
        show(&report)
    );
}

#[test]
fn atomics_do_not_race() {
    let sum = Buf::new("sum", vec![0u32; 1]);
    let report = launch(&LaunchConfig::new(4u32, 32u32), |t| {
        let sum = sum.clone();
        async move {
            sum.atomic_add(&t, 0, 1, AtomicOrdering::Relaxed, at(1)).await;
        }
    });
    assert_clean(&report);
    assert_eq!(sum.to_vec()[0], 128);
}

#[test]
fn plain_read_racing_atomics() {
    let sum = Buf::new("sum", vec![0u32; 1]);
    let seen = Buf::new("seen", vec![0u32; 32]);
    let report = launch(&LaunchConfig::new(1u32, 32u32), |t| {
        let (sum, seen) = (sum.clone(), seen.clone());
        async move {
            sum.atomic_add(&t, 0, 1, AtomicOrdering::Relaxed, at(1)).await;
            let v = sum.read(&t, 0, at(2)).await;
            seen.write(&t, t.ctx.thread_linear(), v, at(2)).await;
        }
    });
    assert!(report.has_race(), "{}", show(&report));
}

#[test]
fn out_of_bounds_traps() {
    let buf = Buf::new("buf", vec![0u8; 30]);
    let report = launch(&LaunchConfig::new(1u32, 32u32), |t| {
        let buf = buf.clone();
        async move {
            buf.write(&t, t.ctx.thread_linear(), 1, at(1)).await;
        }
    });
    assert!(report.aborted);
    assert!(
        report
            .diagnostics
            .iter()
            .any(|d| matches!(d, Diagnostic::OutOfBounds { len: 30, .. })),
        "{}",
        show(&report)
    );
}

#[test]
fn kernel_panic_is_reported() {
    let report = launch(&LaunchConfig::new(1u32, 4u32), |t| async move {
        if t.ctx.thread_linear() == 2 {
            t.panic("thread two is cursed").await;
        }
    });
    assert!(report.aborted);
    assert!(report.diagnostics.iter().any(
        |d| matches!(d, Diagnostic::KernelPanic { message, .. } if message.contains("cursed"))
    ));
}

/// A racy kernel whose output depends on the interleaving: `v * 31 + me`,
/// which panics where the arithmetic overflows.
async fn mixing(t: Thread, out: Buf<u32>) {
    let v = out.read(&t, 0, at(1)).await;
    let product = match v.checked_mul(31) {
        Some(p) => p,
        None => return t.panic("attempt to multiply with overflow").await,
    };
    match product.checked_add(t.ctx.global_linear() as u32) {
        Some(mixed) => out.write(&t, 0, mixed, at(2)).await,
        None => t.panic("attempt to add with overflow").await,
    }
}

#[test]
fn detect_same_seed_same_schedule() {
    // A deliberately racy kernel whose output depends on the interleaving.
    let run = |seed: u64| {
        let out = Buf::new("out", vec![0u32; 1]);
        let report = launch(&LaunchConfig::new(2u32, 16u32).seed(seed), |t| {
            let out = out.clone();
            async move {
                mixing(t, out).await;
            }
        });
        (out.to_vec()[0], show(&report))
    };
    assert_eq!(run(42), run(42));
    // And different seeds should explore different interleavings.
    assert!((0..16).map(run).map(|r| r.0).collect::<HashSet<_>>().len() > 1);
}

#[test]
fn diagnostics_are_deduplicated() {
    let out = Buf::new("out", vec![0u32; 1]);
    let report = launch(&LaunchConfig::new(4u32, 64u32), |t| {
        let out = out.clone();
        async move {
            out.write(&t, 0, 1, at(1)).await;
        }
    });
    assert_eq!(report.diagnostics.len(), 1, "{}", show(&report));
}

// ------------------------------------------------- uninitialised memory ---

fn has_global_uninit(report: &Report) -> bool {
    has(report, |d| {
        matches!(
            d,
            Diagnostic::UninitRead {
                space: MemSpace::Global { .. },
                ..
            }
        )
    })
}

#[test]
fn reading_global_memory_nobody_wrote_is_reported() {
    let out = Buf::uninit("out", 32);
    let copy = Buf::new("copy", vec![0u32; 32]);

    let report = launch(&LaunchConfig::new(1u32, 32u32).seed(1), |t| {
        let (out, copy) = (out.clone(), copy.clone());
        async move {
            let i = t.ctx.thread_linear();
            let v = out.read(&t, i, at(1)).await;
            copy.write(&t, i, v, at(1)).await;
        }
    });

    assert!(has_global_uninit(&report), "{}", show(&report));
}

#[test]
fn writing_before_reading_is_clean() {
    let out = Buf::uninit("out", 32);

    let report = launch(&LaunchConfig::new(1u32, 32u32).seed(1), |t| {
        let out = out.clone();
        async move {
            let i = t.ctx.thread_linear();
            out.write(&t, i, i as u32, at(1)).await;
            let seen = out.read(&t, i, at(2)).await;
            out.write(&t, i, seen + 1, at(3)).await;
        }
    });

    assert_clean(&report);
    assert_eq!(out.to_vec()[5], 6);
}

#[test]
fn a_kernel_that_fills_only_half_its_output_is_caught() {
    // The tail is never written, and something downstream reads it.
    let out = Buf::uninit("out", 32);
    let sink = Buf::new("sink", vec![0u32; 32]);

    let report = launch(&LaunchConfig::new(1u32, 32u32).seed(1), |t| {
        let (out, sink) = (out.clone(), sink.clone());
        async move {
            let i = t.ctx.thread_linear();
            if i < 16 {
                out.write(&t, i, i as u32, at(1)).await;
            }
            t.sync_threads(at(2)).await;
            let v = out.read(&t, i, at(3)).await;
            sink.write(&t, i, v, at(3)).await;
        }
    });

    assert!(has_global_uninit(&report), "{}", show(&report));
}

#[test]
fn an_atomic_on_uninitialised_memory_is_caught() {
    // An accumulator nobody zeroed. The read half of the read-modify-write
    // is still a read of memory that holds nothing.
    let total = Buf::<u32>::uninit("total", 1);

    let report = launch(&LaunchConfig::new(1u32, 8u32).seed(1), |t| {
        let total = total.clone();
        async move {
            total.atomic_add(&t, 0, 1, AtomicOrdering::Relaxed, at(1)).await;
        }
    });

    assert!(has_global_uninit(&report), "{}", show(&report));
}

#[test]
fn initialisation_carries_across_launches() {
    // Device memory keeps its contents between launches, so a buffer one
    // kernel filled is not uninitialised for the next.
    let out = Buf::uninit("out", 8);
    let config = LaunchConfig::new(1u32, 8u32).seed(1);

    let first = launch(&config, |t| {
        let out = out.clone();
        async move {
            out.write(&t, t.ctx.thread_linear(), 7, at(1)).await;
        }
    });
    assert_clean(&first);

    let second = launch(&config, |t| {
        let out = out.clone();
        async move {
            let i = t.ctx.thread_linear();
            let seen = out.read(&t, i, at(2)).await;
            out.write(&t, i, seen, at(3)).await;
        }
    });

    assert_clean(&second);
    assert_eq!(out.to_vec(), vec![7u32; 8]);
}

#[test]
fn an_initialised_buffer_is_unaffected() {
    let out = Buf::new("out", vec![0u32; 8]);
    let report = launch(&LaunchConfig::new(1u32, 8u32).seed(1), |t| {
        let out = out.clone();
        async move {
            let i = t.ctx.thread_linear();
            let seen = out.read(&t, i, at(1)).await;
            out.write(&t, i, seen + 1, at(2)).await;
        }
    });

    assert_clean(&report);
}

#[test]
fn a_failed_exchange_initialises_nothing() {
    // A store alone looks at nothing, and an exchange that does not happen
    // stores nothing.
    let cell = Buf::uninit("cell", 2);
    let report = launch(&LaunchConfig::new(1u32, 1u32), |t| {
        let cell = cell.clone();
        async move {
            cell.atomic_store(&t, 1, 5u32, AtomicOrdering::Relaxed, at(1)).await;
            let _ = cell.atomic_load(&t, 1, AtomicOrdering::Relaxed, at(2)).await;
            let lost = cell
                .atomic_compare_exchange(&t, 0, 9, 1, AtomicOrdering::Relaxed, at(3))
                .await;
            assert_eq!(lost, Err(0));
            let _ = cell.read(&t, 0, at(4)).await;
        }
    });
    assert_eq!(
        count(&report, |d| matches!(d, Diagnostic::UninitRead { index: 0, .. })),
        2,
        "{}",
        show(&report)
    );
    assert_eq!(report.diagnostics.len(), 2);
}

// -------------------------------------------------------------- atomics ---

#[test]
fn swap_hands_back_the_previous_value() {
    let cell = Buf::new("cell", vec![0u32; 1]);
    let seen = Buf::new("seen", vec![0u32; 4]);

    let report = launch(&LaunchConfig::new(1u32, 4u32).seed(1), |t| {
        let (cell, seen) = (cell.clone(), seen.clone());
        async move {
            let me = t.ctx.thread_linear() as u32 + 1;
            let previous = cell.atomic_swap(&t, 0, me, AtomicOrdering::Relaxed, at(1)).await;
            seen.write(&t, t.ctx.thread_linear(), previous, at(2)).await;
        }
    });

    assert_clean(&report);
    // Every thread saw a different predecessor, and the last one is left.
    let mut all: Vec<u32> = seen.to_vec();
    all.push(cell.to_vec()[0]);
    all.sort_unstable();
    assert_eq!(all, vec![0, 1, 2, 3, 4]);
}

#[test]
fn compare_exchange_lets_exactly_one_thread_win() {
    let lock = Buf::new("lock", vec![0u32; 1]);
    let winners = Buf::new("winners", vec![0u32; 1]);

    let report = launch(&LaunchConfig::new(2u32, 8u32).seed(1), |t| {
        let (lock, winners) = (lock.clone(), winners.clone());
        async move {
            if lock
                .atomic_compare_exchange(&t, 0, 0, 1, AtomicOrdering::AcqRel, at(1))
                .await
                .is_ok()
            {
                winners.atomic_add(&t, 0, 1, AtomicOrdering::Relaxed, at(2)).await;
            }
        }
    });

    assert_clean(&report);
    assert_eq!(winners.to_vec()[0], 1, "more than one thread took the lock");
}

#[test]
fn min_and_max_reduce() {
    let low = Buf::new("low", vec![u32::MAX; 1]);
    let high = Buf::new("high", vec![0u32; 1]);

    let report = launch(&LaunchConfig::new(2u32, 8u32).seed(1), |t| {
        let (low, high) = (low.clone(), high.clone());
        async move {
            let v = t.ctx.global_linear() as u32;
            low.atomic_min(&t, 0, v, AtomicOrdering::Relaxed, at(1)).await;
            high.atomic_max(&t, 0, v, AtomicOrdering::Relaxed, at(2)).await;
        }
    });

    assert_clean(&report);
    assert_eq!(low.to_vec()[0], 0);
    assert_eq!(high.to_vec()[0], 15);
}

#[test]
fn sub_counts_down() {
    let remaining = Buf::new("remaining", vec![16u32; 1]);

    let report = launch(&LaunchConfig::new(2u32, 8u32).seed(1), |t| {
        let remaining = remaining.clone();
        async move {
            remaining.atomic_sub(&t, 0, 1, AtomicOrdering::Relaxed, at(1)).await;
        }
    });

    assert_clean(&report);
    assert_eq!(remaining.to_vec()[0], 0);
}

#[test]
fn a_plain_access_still_races_with_an_atomic() {
    // Widening the atomic surface must not have widened what counts as safe.
    let cell = Buf::new("cell", vec![0u32; 1]);

    let report = launch(&LaunchConfig::new(2u32, 1u32).seed(1), |t| {
        let cell = cell.clone();
        async move {
            if t.ctx.block_linear() == 0 {
                cell.atomic_max(&t, 0, 5, AtomicOrdering::Relaxed, at(1)).await;
            } else {
                cell.write(&t, 0, 9, at(2)).await;
            }
        }
    });

    assert!(report.has_race(), "{}", show(&report));
}

#[test]
fn oxide_atomics_read_as_they_do_on_the_gpu() {
    let counters = Buf::new("counters", vec![0u32; 4]);

    let report = launch(&LaunchConfig::new(2u32, 8u32).seed(1), |t| {
        let counters = counters.clone();
        async move {
            let slot = oxide::thread::threadIdx_x(&t.ctx) as usize % 4;
            counters.atomic_add(&t, slot, 1, AtomicOrdering::Relaxed, at(1)).await;
        }
    });

    assert_clean(&report);
    assert_eq!(counters.to_vec(), vec![4u32; 4]);
}

#[test]
fn oxide_fences_order_across_blocks() {
    let data = Buf::new("data", vec![0u32; 1]);
    let flag = Buf::new("flag", vec![0u32; 1]);
    let seen = Buf::new("seen", vec![0u32; 1]);

    let report = launch(&LaunchConfig::new(2u32, 1u32).seed(1), |t| {
        let (data, flag, seen) = (data.clone(), flag.clone(), seen.clone());
        async move {
            if oxide::thread::blockIdx_x(&t.ctx) == 0 {
                data.get_unchecked_mut(&t, 0, at(1)).await;
                data.set(0, 42);
                t.threadfence();
                flag.atomic_store(&t, 0, 1, AtomicOrdering::Relaxed, at(2)).await;
            } else {
                let mut arrived = false;
                for _ in 0..200 {
                    if flag.atomic_load(&t, 0, AtomicOrdering::Relaxed, at(3)).await == 1 {
                        arrived = true;
                        break;
                    }
                }
                if arrived {
                    t.threadfence();
                    seen.get_unchecked_mut(&t, 0, at(4)).await;
                    seen.set(0, 1);
                }
            }
        }
    });

    assert_clean(&report);
    assert_eq!(seen.to_vec()[0], 1, "the consumer never ran: {}", show(&report));
    assert_eq!(data.to_vec()[0], 42);
}

#[test]
fn an_oxide_atomic_on_uninitialised_memory_names_the_kernel_line() {
    // The location must be the kernel's.
    let totals = Buf::<u32>::uninit("total", 1);
    let line = Location::new("tests/atomics.rs", 146, 9);

    let report = launch(&LaunchConfig::new(1u32, 4u32).seed(1), |t| {
        let totals = totals.clone();
        async move {
            totals.atomic_add(&t, 0, 1, AtomicOrdering::Relaxed, line).await;
        }
    });

    let found = report.diagnostics.iter().find_map(|d| match d {
        Diagnostic::UninitRead {
            space: MemSpace::Global { .. },
            access,
            ..
        } => Some(access.location.file),
        _ => None,
    });

    let file = found.unwrap_or_else(|| panic!("expected an uninit read: {}", show(&report)));
    assert!(file.contains("atomics.rs"), "reported elsewhere: {file}");
}

// --------------------------------------------------------------- fences ---

/// Producer in block 0, consumer in block 1.
///
/// `fenced` decides whether each side orders itself with a fence, and the
/// orderings whether the atomics do; nothing else tells a correct kernel from
/// a racy one here.
fn message_passing(
    seed: u64,
    publish: bool,
    consume: bool,
    store: AtomicOrdering,
    load: AtomicOrdering,
) -> (Report, u32) {
    let data = Buf::new("data", vec![0u32; 1]);
    let flag = Buf::new("flag", vec![0u32; 1]);
    let seen = Buf::new("seen", vec![0u32; 1]);

    let report = launch(&LaunchConfig::new(2u32, 1u32).seed(seed), |t| {
        let (data, flag, seen) = (data.clone(), flag.clone(), seen.clone());
        async move {
            if t.ctx.block_linear() == 0 {
                data.write(&t, 0, 42, at(1)).await;
                if publish {
                    t.threadfence();
                }
                flag.atomic_store(&t, 0, 1, store, at(2)).await;
            } else {
                // Spin, bounded so a schedule that never runs the producer
                // ends rather than hangs.
                let mut arrived = false;
                for _ in 0..200 {
                    if flag.atomic_load(&t, 0, load, at(3)).await == 1 {
                        arrived = true;
                        break;
                    }
                }
                if arrived {
                    if consume {
                        t.threadfence();
                    }
                    let value = data.read(&t, 0, at(4)).await;
                    seen.write(&t, 0, value, at(5)).await;
                }
            }
        }
    });

    let value = seen.to_vec()[0];
    (report, value)
}

#[test]
fn threadfence_orders_across_blocks() {
    let (report, seen) = message_passing(
        1,
        true,
        true,
        AtomicOrdering::Relaxed,
        AtomicOrdering::Relaxed,
    );

    assert_eq!(seen, 42, "the consumer never read the data: {}", show(&report));
    assert_clean(&report);
}

#[test]
fn without_fences_the_same_kernel_races() {
    let (report, seen) = message_passing(
        1,
        false,
        false,
        AtomicOrdering::Relaxed,
        AtomicOrdering::Relaxed,
    );

    assert_eq!(seen, 42, "the consumer never read the data: {}", show(&report));
    assert!(report.has_race(), "{}", show(&report));
}

#[test]
fn one_fence_alone_is_not_enough() {
    for (publish, consume) in [(true, false), (false, true)] {
        let (report, seen) = message_passing(
            1,
            publish,
            consume,
            AtomicOrdering::Relaxed,
            AtomicOrdering::Relaxed,
        );
        assert_eq!(seen, 42);
        assert!(report.has_race(), "{}", show(&report));
    }
}

#[test]
fn release_and_acquire_order_across_blocks() {
    // The same handoff without explicit fences, carried by the atomics.
    let (report, seen) = message_passing(
        1,
        false,
        false,
        AtomicOrdering::Release,
        AtomicOrdering::Acquire,
    );

    assert_eq!(seen, 42, "the consumer never read the data: {}", show(&report));
    assert_clean(&report);
}

#[test]
fn a_release_without_a_matching_acquire_is_not_enough() {
    // The producer publishes, but the consumer never takes it on.
    let (report, seen) = message_passing(
        1,
        false,
        false,
        AtomicOrdering::Release,
        AtomicOrdering::Relaxed,
    );

    assert_eq!(seen, 42, "the consumer never read the data: {}", show(&report));
    assert!(report.has_race(), "{}", show(&report));
}

#[test]
fn an_acquire_without_a_matching_release_is_not_enough() {
    let (report, seen) = message_passing(
        1,
        false,
        false,
        AtomicOrdering::Relaxed,
        AtomicOrdering::Acquire,
    );

    assert_eq!(seen, 42, "the consumer never read the data: {}", show(&report));
    assert!(report.has_race(), "{}", show(&report));
}

#[test]
fn ordering_holds_on_every_schedule() {
    // Synchronisation is structural, so the answer must not depend on the
    // interleaving.
    for seed in 0..16 {
        let (report, seen) = message_passing(
            seed,
            true,
            true,
            AtomicOrdering::Relaxed,
            AtomicOrdering::Relaxed,
        );
        assert_eq!(seen, 42, "seed {seed}: consumer never read: {}", show(&report));
        assert!(report.is_clean(), "seed {seed}: {}", show(&report));
    }
}

#[test]
fn fencing_does_not_order_an_unrelated_block() {
    // Blocks 0 and 1 hand off correctly. Block 2 writes the same element
    // without taking part, and must still be reported.
    let data = Buf::new("data", vec![0u32; 1]);
    let flag = Buf::new("flag", vec![0u32; 1]);

    let report = launch(&LaunchConfig::new(3u32, 1u32).seed(2), |t| {
        let (data, flag) = (data.clone(), flag.clone());
        async move {
            match t.ctx.block_linear() {
                0 => {
                    data.write(&t, 0, 42, at(1)).await;
                    t.threadfence();
                    flag.atomic_store(&t, 0, 1, AtomicOrdering::Relaxed, at(2)).await;
                }
                1 => {
                    for _ in 0..200 {
                        if flag.atomic_load(&t, 0, AtomicOrdering::Relaxed, at(3)).await == 1 {
                            break;
                        }
                    }
                    t.threadfence();
                    let _ = data.read(&t, 0, at(4)).await;
                }
                _ => {
                    data.write(&t, 0, 99, at(5)).await;
                }
            }
        }
    });

    assert!(report.has_race(), "{}", show(&report));
}

#[test]
fn a_thread_that_never_fences_is_unaffected() {
    // The plain racing kernel, to show the clock machinery stays dormant.
    let out = Buf::new("out", vec![0u32; 1]);
    let report = launch(&LaunchConfig::new(2u32, 4u32).seed(1), |t| {
        let out = out.clone();
        async move {
            out.write(&t, 0, t.ctx.global_linear() as u32, at(1)).await;
        }
    });

    assert!(report.has_race(), "{}", show(&report));
}

/// A block hands over what all its threads wrote: one of them raises the flag
/// after the block met, at a barrier or only at a warp collective.
fn block_handoff(barrier: bool, fenced: bool) -> (Report, Vec<u32>) {
    let data = Buf::new("data", vec![0u32; 4]);
    let flag = Buf::new("flag", vec![0u32; 1]);
    let seen = Buf::new("seen", vec![0u32; 4]);

    let config = LaunchConfig::new(2u32, 4u32).warp_size(4).seed(2026);
    let report = launch(&config, |t| {
        let (data, flag, seen) = (data.clone(), flag.clone(), seen.clone());
        async move {
            let lane = t.ctx.thread_linear();
            if t.ctx.block_linear() == 0 {
                data.write(&t, lane, 100 + lane as u32, at(1)).await;
                if barrier {
                    t.sync_threads(at(2)).await;
                } else {
                    t.sync_warp(0xF, at(2)).await;
                }
                if lane == 0 {
                    if fenced {
                        t.fence(AtomicOrdering::Release);
                    }
                    flag.atomic_store(&t, 0, 1, AtomicOrdering::Relaxed, at(3)).await;
                }
            } else {
                let mut arrived = false;
                for _ in 0..200 {
                    if flag.atomic_load(&t, 0, AtomicOrdering::Relaxed, at(4)).await == 1 {
                        arrived = true;
                        break;
                    }
                }
                if arrived {
                    if fenced {
                        t.fence(AtomicOrdering::Acquire);
                    }
                    let value = data.read(&t, lane, at(5)).await;
                    seen.write(&t, lane, value, at(6)).await;
                }
            }
        }
    });
    (report, seen.to_vec())
}

#[test]
fn a_release_after_a_barrier_publishes_the_whole_block() {
    let (report, seen) = block_handoff(true, true);
    assert_clean(&report);
    assert_eq!(seen, vec![100, 101, 102, 103]);

    let (report, _) = block_handoff(true, false);
    assert!(report.has_race(), "{}", show(&report));
}

#[test]
fn a_release_after_a_collective_publishes_one_lane() {
    let (report, _) = block_handoff(false, true);
    assert!(report.has_race(), "{}", show(&report));
}

// ---------------------------------------------------------------- warps ---

fn one_warp(seed: u64) -> LaunchConfig {
    LaunchConfig::new(1u32, 8u32).warp_size(8).seed(seed)
}

#[test]
fn shuffle_down_reduction_is_clean() {
    let out = Buf::new("out", vec![0u32; 1]);
    let report = launch(&one_warp(1), |t| {
        let out = out.clone();
        async move {
            let mask = t.ctx.warp_valid_mask();
            let mut v = t.ctx.lane_id() + 1;
            let mut delta = 4;
            while delta > 0 {
                v += t.shfl_down_sync(mask, v, delta, at(1)).await;
                delta /= 2;
            }
            if t.ctx.lane_id() == 0 {
                out.write(&t, 0, v, at(2)).await;
            }
        }
    });

    assert_clean(&report);
    assert_eq!(out.to_vec()[0], (1..=8).sum::<u32>());
}

#[test]
fn shuffle_past_the_end_keeps_own_value() {
    let out = Buf::new("out", vec![0u32; 8]);
    let report = launch(&one_warp(1), |t| {
        let out = out.clone();
        async move {
            let v = t
                .shfl_down_sync(t.ctx.warp_valid_mask(), t.ctx.lane_id(), 6, at(1))
                .await;
            out.write(&t, t.ctx.thread_linear(), v, at(2)).await;
        }
    });

    assert_clean(&report);
    assert_eq!(out.to_vec(), vec![6, 7, 2, 3, 4, 5, 6, 7]);
}

#[test]
fn shuffle_up_reads_the_lane_below() {
    let out = Buf::new("out", vec![0u32; 8]);
    let report = launch(&one_warp(1), |t| {
        let out = out.clone();
        async move {
            let v = t
                .shfl_up_sync(t.ctx.warp_valid_mask(), t.ctx.lane_id() * 10, 3, at(1))
                .await;
            out.write(&t, t.ctx.thread_linear(), v, at(2)).await;
        }
    });

    assert_clean(&report);
    assert_eq!(out.to_vec(), vec![0, 10, 20, 0, 10, 20, 30, 40]);
}

#[test]
fn ballot_any_and_all() {
    let bits = Buf::new("bits", vec![0u32; 1]);
    let flags = Buf::new("flags", vec![0u32; 2]);
    let report = launch(&one_warp(2), |t| {
        let (bits, flags) = (bits.clone(), flags.clone());
        async move {
            let mask = t.ctx.warp_valid_mask();
            let lane = t.ctx.lane_id();
            let b = t.ballot_sync(mask, lane % 2 == 0, at(1)).await;
            let any = t.any_sync(mask, lane == 7, at(2)).await;
            let all = t.all_sync(mask, lane < 8, at(3)).await;
            if lane == 0 {
                bits.write(&t, 0, b, at(4)).await;
                flags.write(&t, 0, any as u32, at(5)).await;
                flags.write(&t, 1, all as u32, at(6)).await;
            }
        }
    });

    assert_clean(&report);
    assert_eq!(bits.to_vec()[0], 0b0101_0101);
    assert_eq!(flags.to_vec(), vec![1, 1]);
}

#[test]
fn all_means_every_member() {
    let flags = Buf::new("flags", vec![9u32; 8]);
    let report = launch(&one_warp(2), |t| {
        let flags = flags.clone();
        async move {
            let lane = t.ctx.lane_id();
            let mask = if lane < 4 { 0x0F } else { 0xF0 };
            let all = t.all_sync(mask, lane < 4, at(1)).await;
            flags.write(&t, lane as usize, all as u32, at(2)).await;
        }
    });

    assert_clean(&report);
    assert_eq!(flags.to_vec(), vec![1, 1, 1, 1, 0, 0, 0, 0]);
}

#[test]
fn partial_mask_is_fine_when_every_member_arrives() {
    let out = Buf::new("out", vec![9u32; 8]);
    let report = launch(&one_warp(4), |t| {
        let out = out.clone();
        async move {
            let lane = t.ctx.lane_id();
            // Only the even lanes take part, and they all agree on that.
            if lane % 2 == 0 {
                let v = t.shfl_sync(0x55, lane, 2, at(1)).await;
                out.write(&t, t.ctx.thread_linear(), v, at(2)).await;
            }
        }
    });

    assert_clean(&report);
    assert_eq!(out.to_vec(), vec![2, 9, 2, 9, 2, 9, 2, 9]);
}

#[test]
fn warp_same_seed_same_schedule() {
    let run = || {
        let out = Buf::new("out", vec![0u32; 8]);
        let r = launch(&one_warp(99), |t| {
            let out = out.clone();
            async move {
                let v = t
                    .shfl_xor_sync(t.ctx.warp_valid_mask(), t.ctx.lane_id(), 1, at(1))
                    .await;
                out.write(&t, t.ctx.thread_linear(), v, at(2)).await;
            }
        });
        (show(&r), out.to_vec())
    };
    let (first, values) = run();
    assert_eq!(run(), (first, values.clone()));
    assert_eq!(values, vec![1, 0, 3, 2, 5, 4, 7, 6]);
}

#[test]
fn shuffle_on_a_diverged_warp() {
    let out = Buf::new("out", vec![0u32; 8]);
    let report = launch(&one_warp(1), |t| {
        let out = out.clone();
        async move {
            let lane = t.ctx.lane_id();
            if lane < 4 {
                // BUG: the mask names the whole warp, but only half of it is
                // here.
                let v = t.shfl_sync(t.ctx.warp_valid_mask(), lane, 0, at(1)).await;
                out.write(&t, lane as usize, v, at(2)).await;
            }
        }
    });

    assert!(report.has_warp_divergence(), "{}", show(&report));
    // The report comes as soon as the first high lane exits, so how many low
    // lanes have parked by then depends on the schedule. What must hold is
    // that the mask named the whole warp and no high lane ever arrived.
    assert!(
        has(&report, |d| matches!(
            d,
            Diagnostic::WarpDivergence { mask: 0xFF, arrived, op: "shfl_sync", .. }
                if arrived & 0xF0 == 0 && arrived & 0x0F != 0
        )),
        "{}",
        show(&report)
    );
}

#[test]
fn a_diverged_shuffle_reads_as_documented() {
    let report = launch(&LaunchConfig::new(1u32, 32u32).seed(1), |t| async move {
        if t.ctx.lane_id() < 16 {
            // BUG: the mask names all 32 lanes, but only half of them are
            // here.
            let _ = t.shfl_sync(warp::FULL_MASK, t.ctx.lane_id(), 0, at(6)).await;
        }
    });
    assert_eq!(
        show(&report),
        "riri: 1 diagnostic(s) (seed 1, launch aborted)\n  - warp divergence in block 0 warp 0: \
         `shfl_sync` at src/main.rs:6 names lanes 0-31 but only lanes 10 arrived, so lanes \
         0-9,11-31 never reach it\n"
    );
}

#[test]
fn lanes_disagreeing_about_the_mask() {
    let report = launch(&one_warp(1), |t| async move {
        let lane = t.ctx.lane_id();
        // BUG: the low lanes think the whole warp takes part, the high lanes
        // think only they do.
        let mask = if lane < 4 { 0xFF } else { 0xF0 };
        let _ = t.shfl_sync(mask, lane, 4, at(1)).await;
    });

    assert!(
        has(&report, |d| matches!(
            d,
            Diagnostic::WarpMaskMismatch {
                op: "shfl_sync",
                ..
            }
        )),
        "{}",
        show(&report)
    );
}

#[test]
fn shuffle_reading_a_lane_outside_the_mask() {
    let report = launch(&one_warp(1), |t| async move {
        // Only the high lanes take part, but they read lane 0, which did not
        // contribute a value.
        if t.ctx.lane_id() >= 4 {
            let _ = t.shfl_sync(0xF0, t.ctx.lane_id(), 0, at(1)).await;
        }
    });

    assert!(
        has(&report, |d| matches!(
            d,
            Diagnostic::WarpLaneError {
                problem: LaneProblem::SourceLaneNotInMask { src: 0 },
                ..
            }
        )),
        "{}",
        show(&report)
    );
    // Reported, and the launch goes on.
    assert!(!report.aborted);
}

#[test]
fn caller_left_itself_out_of_the_mask() {
    let report = launch(&one_warp(1), |t| async move {
        // Lanes 0-3 are not members of the mask they pass.
        let _ = t.shfl_sync(0xF0, t.ctx.lane_id(), 4, at(1)).await;
    });

    assert!(report.aborted, "{}", show(&report));
    assert!(
        has(&report, |d| matches!(
            d,
            Diagnostic::WarpLaneError {
                problem: LaneProblem::CallerNotInMask,
                ..
            }
        )),
        "{}",
        show(&report)
    );
}

#[test]
fn mask_naming_lanes_the_block_does_not_have() {
    // A block of 6 with 4-lane warps: warp 1 holds only lanes 0 and 1, so a
    // full mask names threads that do not exist.
    let config = LaunchConfig::new(1u32, 6u32).warp_size(4).seed(1);
    let report = launch(&config, |t| async move {
        let _ = t.shfl_sync(warp::FULL_MASK, t.ctx.lane_id(), 0, at(1)).await;
    });

    assert!(report.aborted, "{}", show(&report));
    assert!(
        has(&report, |d| matches!(
            d,
            Diagnostic::WarpLaneError {
                problem: LaneProblem::MaskOutsideBlock { .. },
                ..
            }
        )),
        "{}",
        show(&report)
    );
}

#[test]
fn lane_exits_while_its_warp_mates_wait() {
    let report = launch(&one_warp(6), |t| async move {
        // Lane 7 returns early, so the collective can never complete.
        if t.ctx.lane_id() == 7 {
            return;
        }
        let _ = t
            .shfl_sync(t.ctx.warp_valid_mask(), t.ctx.lane_id(), 0, at(1))
            .await;
    });

    assert!(report.has_warp_divergence(), "{}", show(&report));
}

#[test]
fn some_lanes_at_a_barrier_others_at_a_shuffle() {
    // The block barrier waits for lanes that are stuck in a collective and
    // vice versa. The warp is blamed, not the barrier.
    let report = launch(&one_warp(1), |t| async move {
        if t.ctx.lane_id() < 4 {
            let _ = t
                .shfl_sync(t.ctx.warp_valid_mask(), t.ctx.lane_id(), 0, at(1))
                .await;
        } else {
            t.sync_threads(at(2)).await;
        }
    });

    assert!(report.has_warp_divergence(), "{}", show(&report));
}

#[test]
fn divergence_is_caught_on_every_schedule() {
    // Convergence is checked structurally, not by hoping for an unlucky
    // interleaving, so every seed must find it, and none may hang.
    for seed in 0..32 {
        let report = launch(&one_warp(seed), |t| async move {
            if t.ctx.lane_id() % 2 == 0 {
                let _ = t
                    .shfl_sync(t.ctx.warp_valid_mask(), t.ctx.lane_id(), 0, at(1))
                    .await;
            }
        });
        assert!(report.has_warp_divergence(), "seed {seed}: {}", show(&report));
    }
}

#[test]
fn looping_a_different_number_of_times_is_caught() {
    let report = launch(&one_warp(3), |t| async move {
        let rounds = if t.ctx.lane_id() < 4 { 2 } else { 3 };
        for _ in 0..rounds {
            t.sync_warp(0xFF, at(1)).await;
        }
    });

    assert!(report.has_warp_divergence(), "{}", show(&report));
}

#[test]
fn full_mask_collective_orders_shared_memory_in_that_warp() {
    let out = Buf::new("out", vec![0u32; 8]);
    let report = launch(&one_warp(5), |t| {
        let out = out.clone();
        async move {
            let tile = t.shared::<u32>("tile", 8);
            let i = t.ctx.thread_linear();
            tile.write(&t, i, i as u32, at(1)).await;
            t.sync_warp(t.ctx.warp_valid_mask(), at(2)).await;
            let v = tile.read(&t, (i + 1) % 8, at(3)).await;
            out.write(&t, i, v, at(3)).await;
        }
    });

    assert_clean(&report);
    assert_eq!(out.to_vec(), vec![1, 2, 3, 4, 5, 6, 7, 0]);
}

#[test]
fn syncing_one_warp_does_not_order_another() {
    // Two warps of four share a tile. `sync_warp` says nothing about the
    // other warp, so reading across the boundary is still a race.
    let out = Buf::new("out", vec![0u32; 8]);
    let config = LaunchConfig::new(1u32, 8u32).warp_size(4).seed(5);
    let report = launch(&config, |t| {
        let out = out.clone();
        async move {
            let tile = t.shared::<u32>("tile", 8);
            let i = t.ctx.thread_linear();
            tile.write(&t, i, i as u32, at(1)).await;
            t.sync_warp(t.ctx.warp_valid_mask(), at(2)).await;
            let v = tile.read(&t, (i + 4) % 8, at(3)).await;
            out.write(&t, i, v, at(3)).await;
        }
    });

    assert!(report.has_race(), "{}", show(&report));
}

#[test]
fn partial_mask_collective_does_not_order_memory() {
    // Only half the warp syncs, so it cannot stand in for a barrier even
    // among the lanes that took part.
    let out = Buf::new("out", vec![0u32; 8]);
    let report = launch(&one_warp(7), |t| {
        let out = out.clone();
        async move {
            let tile = t.shared::<u32>("tile", 8);
            let i = t.ctx.thread_linear();
            tile.write(&t, i, i as u32, at(1)).await;
            if t.ctx.lane_id() < 4 {
                t.sync_warp(0x0F, at(2)).await;
                let v = tile.read(&t, (i + 1) % 4, at(3)).await;
                out.write(&t, i, v, at(3)).await;
            }
        }
    });

    assert!(report.has_race(), "{}", show(&report));
}

// ---------------------------------------------------------------- waves ---

#[test]
fn races_between_waves_are_still_found() {
    // Accesses from different blocks are unordered whether or not they
    // overlapped in time. Running one block at a time must not hide anything.
    let out = Buf::new("out", vec![0u32; 1]);

    let config = LaunchConfig::new(4u32, 1u32).resident_blocks(1).seed(1);
    let report = launch(&config, |t| {
        let out = out.clone();
        async move {
            out.write(&t, 0, t.ctx.block_linear() as u32, at(1)).await;
        }
    });

    assert!(report.has_race(), "{}", show(&report));
}

#[test]
fn every_block_still_runs_and_indices_stay_right() {
    let out = Buf::new("out", vec![0u32; 24]);

    let config = LaunchConfig::new(6u32, 4u32).resident_blocks(2).seed(1);
    let report = launch(&config, |t| {
        let out = out.clone();
        async move {
            // Pack the identity this thread believes it has.
            let packed = t.ctx.block_linear() as u32 * 100 + t.ctx.thread_linear() as u32;
            out.write(&t, t.ctx.global_linear(), packed, at(1)).await;
        }
    });

    assert_clean(&report);
    let expected: Vec<u32> = (0..6)
        .flat_map(|b| (0..4).map(move |i| b * 100 + i))
        .collect();
    assert_eq!(out.to_vec(), expected);
}

#[test]
fn shared_memory_stays_per_block_across_waves() {
    let out = Buf::new("out", vec![0u32; 16]);

    let config = LaunchConfig::new(4u32, 4u32).resident_blocks(1).seed(2);
    let report = launch(&config, |t| {
        let out = out.clone();
        async move {
            let tile = t.shared::<u32>("tile", 4);
            let i = t.ctx.thread_linear();
            tile.write(&t, i, t.ctx.block_linear() as u32, at(1)).await;
            t.sync_threads(at(2)).await;
            let v = tile.read(&t, (i + 1) % 4, at(3)).await;
            out.write(&t, t.ctx.global_linear(), v, at(3)).await;
        }
    });

    assert_clean(&report);
    // Every thread reads a neighbour's slot, which holds its own block index.
    let expected: Vec<u32> = (0..4).flat_map(|b| std::iter::repeat(b).take(4)).collect();
    assert_eq!(out.to_vec(), expected);
}

#[test]
fn a_block_cannot_see_one_in_a_later_wave() {
    // The producer is block 1 and the consumer block 0. With both resident
    // the handoff works. With one block at a time it cannot, because the
    // producer has not run yet.
    let run = |resident: u32| {
        let data = Buf::new("data", vec![0u32; 1]);
        let flag = Buf::new("flag", vec![0u32; 1]);
        let seen = Buf::new("seen", vec![0u32; 1]);

        let config = LaunchConfig::new(2u32, 1u32)
            .resident_blocks(resident)
            .seed(1);
        let report = launch(&config, |t| {
            let (data, flag, seen) = (data.clone(), flag.clone(), seen.clone());
            async move {
                if t.ctx.block_linear() == 1 {
                    data.write(&t, 0, 42, at(1)).await;
                    t.threadfence();
                    flag.atomic_store(&t, 0, 1, AtomicOrdering::Relaxed, at(2)).await;
                } else {
                    let mut arrived = false;
                    for _ in 0..200 {
                        if flag.atomic_load(&t, 0, AtomicOrdering::Relaxed, at(3)).await == 1 {
                            arrived = true;
                            break;
                        }
                    }
                    if arrived {
                        t.threadfence();
                        let v = data.read(&t, 0, at(4)).await;
                        seen.write(&t, 0, v, at(4)).await;
                    }
                }
            }
        });
        let value = seen.to_vec()[0];
        (report, value)
    };

    let (both, seen_both) = run(2);
    assert_clean(&both);
    assert_eq!(seen_both, 42, "co-resident blocks should hand over");

    let (waved, seen_waved) = run(1);
    assert_clean(&waved);
    assert_eq!(seen_waved, 0, "a later wave cannot have published yet");
}

/// Every thread writes the same cell, so any schedule races.
async fn racy(t: Thread, out: Buf<u32>) {
    out.write(&t, 0, t.ctx.thread_linear() as u32, at(1)).await;
}

/// The same over the whole grid.
async fn racy_everywhere(t: Thread, out: Buf<u32>) {
    out.write(&t, 0, t.ctx.global_linear() as u32, at(1)).await;
}

#[test]
fn decisions_are_counted_over_every_wave() {
    // Four threads in each of two waves: one decision to start a wave, one at
    // each write, and one at each return but the last.
    let config = LaunchConfig::new(4u32, 2u32).resident_blocks(2);
    let out = Buf::new("out", vec![0u32; 1]);
    let (report, trace, complete) = run(
        &config,
        Choices::Random(SplitMix64(0)),
        &|t| racy_everywhere(t, out.clone()),
    );
    assert!(report.has_race());
    assert_eq!(trace.len(), 16);
    assert!(!complete);

    let found = explore(&config, 4, runner(|t| racy_everywhere(t, out.clone())));
    assert_eq!(found.failure.unwrap().decisions, 16);
}

#[test]
fn a_multi_wave_launch_cannot_be_shrunk() {
    // Each wave numbers its threads from zero, so a recorded plan would
    // replay into the wrong threads.
    let out = Buf::new("out", vec![0u32; 1]);

    let config = LaunchConfig::new(4u32, 2u32).resident_blocks(2);
    let found = explore(&config, 4, runner(|t| racy_everywhere(t, out.clone())));

    let failure = found.failure.expect("expected a race");
    assert_eq!(failure.shrink, Shrink::TraceTruncated);
}

#[test]
fn a_single_wave_is_unchanged() {
    // Setting the residency to the whole grid must behave exactly as not
    // setting it, including staying shrinkable.
    let out = Buf::new("out", vec![0u32; 1]);

    let config = LaunchConfig::new(4u32, 2u32).resident_blocks(4);
    let found = explore(&config, 4, runner(|t| racy_everywhere(t, out.clone())));

    let failure = found.failure.expect("expected a race");
    assert!(
        matches!(failure.shrink, Shrink::Minimised(_)),
        "{}",
        failure.shrink.to_string()
    );
}

#[test]
fn a_launch_larger_than_the_resident_cap_runs() {
    // 17,408 threads, past the cap, which bounds only what is resident at
    // once.
    let blocks: u32 = 17;
    let threads: u32 = 1024;
    let n = (blocks * threads) as usize;
    let out = Buf::new("out", vec![0u32; n]);

    let config = LaunchConfig::new(blocks, threads).resident_blocks(4).seed(1);
    let report = launch(&config, |t| {
        let out = out.clone();
        async move {
            let i = t.ctx.global_linear();
            out.write(&t, i, i as u32, at(1)).await;
        }
    });

    assert_clean(&report);
    assert_eq!(out.to_vec(), (0..n as u32).collect::<Vec<_>>());
}

// ---------------------------------------------------- cuda-oxide shapes ---

/// The vector add from cuda-oxide's own documentation.
async fn vecadd(t: Thread, a: Rc<Vec<f32>>, b: Rc<Vec<f32>>, c: Buf<f32>) {
    if let Some(i) = c.get_mut_indexed(&t, at(1)).await {
        c.set(i, a[i] + b[i]);
    }
}

#[test]
fn tier_one_vecadd_is_clean() {
    let a: Rc<Vec<f32>> = Rc::new((0..128).map(|i| i as f32).collect());
    let b = Rc::new(vec![1.0f32; 128]);
    let out = Buf::new("c", vec![0.0f32; 128]);

    let report = launch(&LaunchConfig::new(4u32, 32u32).seed(1), |t| {
        vecadd(t, a.clone(), b.clone(), out.clone())
    });

    assert_clean(&report);
    assert_eq!(
        out.to_vec(),
        (0..128).map(|i| i as f32 + 1.0).collect::<Vec<_>>()
    );
}

#[test]
fn indices_past_the_end_get_nothing() {
    // 64 threads over a 48 element buffer: the tail must fall away rather
    // than trap.
    let out = Buf::new("c", vec![0u32; 48]);

    let report = launch(&LaunchConfig::new(2u32, 32u32).seed(1), |t| {
        let c = out.clone();
        async move {
            if let Some(i) = c.get_mut_indexed(&t, at(1)).await {
                c.set(i, i as u32);
            }
        }
    });

    assert_clean(&report);
    assert_eq!(out.to_vec()[47], 47);
}

#[test]
fn a_block_of_two_dimensions_has_a_row_index_and_a_linear_one() {
    // The x indices repeat from row to row; the minted witness does not.
    let rows = Buf::new("rows", vec![9u32; 4]);
    let report = launch(&LaunchConfig::new(1u32, (2u32, 2u32)).seed(1), |t| {
        let rows = rows.clone();
        async move {
            let x = oxide::thread::index_1d(&t.ctx).get();
            if let Some(i) = rows.get_mut_indexed(&t, at(1)).await {
                rows.set(i, x as u32);
            }
        }
    });

    assert_clean(&report);
    assert_eq!(rows.to_vec(), vec![0, 1, 0, 1]);
}

#[test]
fn an_explicit_witness_is_bounds_checked() {
    let out = Buf::new("c", vec![0u32; 4]);

    let report = launch(&LaunchConfig::new(1u32, 8u32).seed(1), |t| {
        let c = out.clone();
        async move {
            let idx = oxide::thread::index_1d(&t.ctx);
            let i = idx.get();
            if c.get_mut(&t, idx, at(1)).await {
                c.set(i, 1);
            }
        }
    });

    assert_clean(&report);
    assert_eq!(out.to_vec(), vec![1; 4]);
}

#[test]
fn unchecked_access_claiming_one_element_twice_is_caught() {
    // An unchecked claim asserts that the index is this thread's alone. Here
    // every thread claims element 0.
    let out = Buf::new("c", vec![0u32; 32]);

    let report = launch(&LaunchConfig::new(1u32, 32u32).seed(1), |t| {
        let c = out.clone();
        async move {
            c.get_unchecked_mut(&t, 0, at(1)).await;
            c.set(0, oxide::thread::threadIdx_x(&t.ctx));
        }
    });

    assert!(report.has_race(), "{}", show(&report));
}

#[test]
fn unchecked_access_with_distinct_indices_is_clean() {
    let out = Buf::new("c", vec![0u32; 32]);

    let report = launch(&LaunchConfig::new(1u32, 32u32).seed(1), |t| {
        let c = out.clone();
        async move {
            let i = oxide::thread::index_1d(&t.ctx).get();
            c.get_unchecked_mut(&t, i, at(1)).await;
            c.set(i, i as u32);
        }
    });

    assert_clean(&report);
    assert_eq!(out.to_vec(), (0..32).collect::<Vec<u32>>());
}

#[test]
fn unchecked_access_out_of_range_traps() {
    let out = Buf::new("c", vec![0u32; 4]);

    let report = launch(&LaunchConfig::new(1u32, 8u32).seed(1), |t| {
        let c = out.clone();
        async move {
            let i = oxide::thread::index_1d(&t.ctx).get();
            c.get_unchecked_mut(&t, i, at(1)).await;
            c.set(i, 1);
        }
    });

    assert!(report.aborted, "{}", show(&report));
}

#[test]
fn block_indices_match_the_launch_shape() {
    let out = Buf::new("c", vec![0u32; 8]);

    let report = launch(&LaunchConfig::new(2u32, 4u32).seed(1), |t| {
        let c = out.clone();
        async move {
            let packed = oxide::thread::blockIdx_x(&t.ctx) * 100
                + oxide::thread::threadIdx_x(&t.ctx) * 10
                + oxide::thread::blockDim_x(&t.ctx);
            if let Some(i) = c.get_mut_indexed(&t, at(1)).await {
                c.set(i, packed);
            }
        }
    });

    assert_clean(&report);
    assert_eq!(out.to_vec(), vec![4, 14, 24, 34, 104, 114, 124, 134]);
}

#[test]
fn sync_threads_orders_the_block() {
    let out = Buf::new("c", vec![0u32; 8]);

    let report = launch(&LaunchConfig::new(1u32, 8u32).seed(3), |t| {
        let c = out.clone();
        async move {
            if let Some(i) = c.get_mut_indexed(&t, at(1)).await {
                c.set(i, i as u32);
            }
            t.sync_threads(at(2)).await;
        }
    });

    assert_clean(&report);
}

#[test]
fn a_shuffle_on_a_diverged_warp_is_caught() {
    // The unsuffixed shuffle carries no member mask, so it assumes the whole
    // warp. Half a warp calling it is a silent hang on hardware.
    let report = launch(&one_warp(1), |t| async move {
        let lane = oxide::warp::lane_id(&t.ctx);
        if lane < 4 {
            let _ = t.shuffle(lane, 0, at(1)).await;
        }
    });

    assert!(report.has_warp_divergence(), "{}", show(&report));
}

#[test]
fn a_converged_warp_reduction_is_clean() {
    let out = Buf::new("c", vec![0u32; 1]);

    let report = launch(&one_warp(1), |t| {
        let c = out.clone();
        async move {
            let mut v = oxide::warp::lane_id(&t.ctx) + 1;
            let mut delta = 4;
            while delta > 0 {
                v += t.shuffle_down(v, delta, at(1)).await;
                delta /= 2;
            }
            if oxide::warp::lane_id(&t.ctx) == 0 {
                c.get_unchecked_mut(&t, 0, at(2)).await;
                c.set(0, v);
            }
        }
    });

    assert_clean(&report);
    assert_eq!(out.to_vec()[0], (1..=8).sum::<u32>());
}

#[test]
fn votes_see_the_whole_warp() {
    let out = Buf::new("c", vec![0u32; 3]);

    let report = launch(&one_warp(1), |t| {
        let c = out.clone();
        async move {
            let lane = oxide::warp::lane_id(&t.ctx);
            let bits = t.vote("ballot", lane % 2 == 0, at(1), oxide::warp::ballot).await;
            let any = t.vote("any", lane == 7, at(2), oxide::warp::any).await;
            let all = t.vote("all", lane < 8, at(3), oxide::warp::all).await;
            if lane == 0 {
                c.get_unchecked_mut(&t, 0, at(4)).await;
                c.set(0, bits);
                c.get_unchecked_mut(&t, 1, at(5)).await;
                c.set(1, any as u32);
                c.get_unchecked_mut(&t, 2, at(6)).await;
                c.set(2, all as u32);
            }
        }
    });

    assert_clean(&report);
    assert_eq!(out.to_vec(), vec![0b0101_0101, 1, 1]);
}

#[test]
fn popc_counts_the_yes_lanes() {
    let out = Buf::new("c", vec![0u32; 1]);

    let report = launch(&one_warp(1), |t| {
        let c = out.clone();
        async move {
            let lane = oxide::warp::lane_id(&t.ctx);
            let yes = t.vote("ballot", lane % 2 == 0, at(1), oxide::warp::popc).await;
            if lane == 0 {
                c.get_unchecked_mut(&t, 0, at(2)).await;
                c.set(0, yes);
            }
        }
    });

    assert_clean(&report);
    assert_eq!(out.to_vec(), vec![4]);
}

// ---------------------------------------------------------- exploration ---

#[test]
fn a_clean_kernel_stays_clean_across_seeds() {
    let out = Buf::new("out", vec![0u32; 32]);
    let found = explore(
        &LaunchConfig::new(1u32, 32u32),
        64,
        runner(|t| {
            let out = out.clone();
            async move {
                out.write(&t, t.ctx.thread_linear(), 1, at(1)).await;
            }
        }),
    );

    assert!(found.complaint().is_none());
    assert_eq!(found.seeds_tried, 64);
    assert_eq!(found.to_string(), "riri: explored 64 seed(s), all clean\n");
}

#[test]
fn a_racy_kernel_is_found_and_shrunk() {
    let out = Buf::new("out", vec![0u32; 1]);
    let found = explore(
        &LaunchConfig::new(1u32, 8u32),
        64,
        runner(|t| racy(t, out.clone())),
    );

    let failure = found.failure.expect("expected a failure");
    assert!(failure.report.has_race(), "{}", show(&failure.report));

    let schedule = match &failure.shrink {
        Shrink::Minimised(s) => s,
        other => panic!("expected a shrunk schedule, got {}", other.to_string()),
    };

    // Two threads writing the same cell is enough, so the shrunk schedule
    // should be tiny rather than the whole run.
    assert!(schedule.len() <= 8, "schedule was {}", schedule.to_string());
    assert!(schedule.switches() <= 2, "schedule was {}", schedule.to_string());
}

#[test]
fn the_shrunk_schedule_replays_the_same_finding() {
    let out = Buf::new("out", vec![0u32; 1]);
    let config = LaunchConfig::new(1u32, 8u32);
    let found = explore(&config, 64, runner(|t| racy(t, out.clone())));

    let failure = found.failure.expect("expected a failure");
    let target = failure.target().expect("expected a target fingerprint");
    let schedule = failure
        .shrink
        .schedule()
        .expect("expected a shrunk schedule");

    let mut replayed = LaunchConfig::new(1u32, 8u32);
    replayed.seed = failure.seed;
    let report = replay(&replayed, schedule, runner(|t| racy(t, out.clone())));

    assert!(
        report.contains(&target),
        "replay lost the finding: {}",
        show(&report)
    );
}

#[test]
fn replaying_a_schedule_is_deterministic() {
    let out = Buf::new("out", vec![0u32; 1]);
    let config = LaunchConfig::new(1u32, 4u32);
    let schedule = Schedule::new(vec![3, 2, 1, 0]);

    let first = show(&replay(&config, &schedule, runner(|t| racy(t, out.clone()))));
    let second = show(&replay(&config, &schedule, runner(|t| racy(t, out.clone()))));

    assert_eq!(first, second);
}

#[test]
fn a_spent_schedule_keeps_the_current_thread_running() {
    // An empty plan means every decision falls to the default, which is to
    // let the running thread continue. That is still a valid schedule, and
    // it still has to find a race on a cell every thread writes.
    let out = Buf::new("out", vec![0u32; 1]);
    let report = replay(
        &LaunchConfig::new(1u32, 4u32),
        &Schedule::new(Vec::new()),
        runner(|t| racy(t, out.clone())),
    );

    assert!(report.has_race(), "{}", show(&report));
}

#[test]
fn shrinking_can_be_turned_off() {
    let out = Buf::new("out", vec![0u32; 1]);
    let found = Explore::new(&LaunchConfig::new(1u32, 8u32))
        .seeds(4)
        .minimise(false)
        .run(runner(|t| racy(t, out.clone())));

    let failure = found.failure.expect("expected a failure");
    assert_eq!(failure.shrink, Shrink::Disabled);
}

/// Writes only while the counter it reads is low, which it raises itself.
async fn counting(t: Thread, runs: Buf<u32>, out: Buf<u32>) {
    let seen = runs
        .atomic_add(&t, 0, 1, AtomicOrdering::Relaxed, at(1))
        .await;
    if seen < 4 {
        out.write(&t, 0, 1, at(2)).await;
    }
}

#[test]
fn a_kernel_that_carries_state_is_reported_as_unreproducible() {
    // This kernel behaves differently every run, because the counter it
    // reads is the one the previous run left behind.
    let runs = Buf::new("runs", vec![0u32; 1]);
    let out = Buf::new("out", vec![0u32; 1]);

    let found = Explore::new(&LaunchConfig::new(1u32, 4u32))
        .seeds(4)
        .run(runner(|t| counting(t, runs.clone(), out.clone())));

    let failure = found.failure.expect("expected a failure");
    assert_eq!(failure.shrink, Shrink::NotReproducible);
}

#[test]
fn run_with_gives_each_run_its_own_state() {
    // The same kernel as above, but with fresh buffers per run, so every run
    // behaves identically and shrinking works.
    let found = Explore::new(&LaunchConfig::new(1u32, 4u32))
        .seeds(4)
        .run(fresh_runner(|| {
            let runs = Buf::new("runs", vec![0u32; 1]);
            let out = Buf::new("out", vec![0u32; 1]);
            move |t| counting(t, runs.clone(), out.clone())
        }));

    let failure = found.failure.expect("expected a failure");
    assert!(
        matches!(failure.shrink, Shrink::Minimised(_)),
        "expected a shrunk schedule, got {}",
        failure.shrink.to_string()
    );
}

#[test]
fn shrinking_a_long_run_cuts_it_down() {
    // A shared-memory handoff with no barrier. The full run makes hundreds of
    // decisions; the bug needs a handful.
    let out = Buf::new("out", vec![0u32; 64]);
    let config = LaunchConfig::new(1u32, 64u32);
    let found = Explore::new(&config).seeds(8).run(runner(|t| {
        let out = out.clone();
        async move {
            let tile = t.shared::<u32>("tile", 64);
            let i = t.ctx.thread_linear();
            tile.write(&t, i, i as u32, at(1)).await;
            let v = tile.read(&t, (i + 1) % 64, at(2)).await;
            out.write(&t, i, v, at(2)).await;
        }
    }));

    let failure = found.failure.expect("expected a failure");
    let schedule = failure
        .shrink
        .schedule()
        .expect("expected a shrunk schedule");

    // Three buffer operations per thread across 64 threads is on the order of
    // 200 decisions. The shrunk schedule should be a small fraction of that.
    assert!(schedule.len() < 64, "schedule was {}", schedule.to_string());
}

#[test]
fn exploration_is_deterministic() {
    let run = || {
        let out = Buf::new("out", vec![0u32; 1]);
        let found = explore(
            &LaunchConfig::new(1u32, 8u32),
            16,
            runner(|t| racy(t, out.clone())),
        );
        let failure = found.failure.expect("expected a failure");
        (failure.seed, failure.shrink.schedule().cloned())
    };

    assert_eq!(run(), run());
}

/// Racy, but only for threads that ran before thread 0 published.
async fn late_flag(t: Thread, flag: Buf<u32>, out: Buf<u32>) {
    let i = t.ctx.thread_linear();
    if i == 0 {
        flag.atomic_add(&t, 0, 1, AtomicOrdering::Relaxed, at(9)).await;
    } else if flag.atomic_add(&t, 0, 0, AtomicOrdering::Relaxed, at(10)).await == 0 {
        out.write(&t, 0, i as u32, at(12)).await;
    }
}

#[test]
fn a_late_flag_reads_as_documented() {
    let config = LaunchConfig::new(1u32, 4u32);
    let build = || {
        let flag = Buf::new("flag", vec![0u32; 1]);
        let out = Buf::new("out", vec![0u32; 1]);
        move |t| late_flag(t, flag.clone(), out.clone())
    };
    let found = Explore::new(&config).seeds(64).run(fresh_runner(build));
    assert_eq!(
        found.to_string(),
        "riri: explored 2 seed(s), seed 1 failed in 10 decision(s), shrunk to 5 decision(s), 2 \
         switch(es)\n  - data race on global `out`[0]: block 0 thread 1 (Write at \
         src/main.rs:12) conflicts with block 0 thread 3 (Write at src/main.rs:12) with no \
         barrier between them\n  schedule: [1, 3, 3, 3, 1]\n"
    );

    // That schedule is the whole reproducer.
    let report = replay(
        &config,
        &Schedule::new(vec![1, 3, 3, 3, 1]),
        fresh_runner(build),
    );
    assert!(report.has_race(), "{}", show(&report));
}

#[test]
fn a_tiny_budget_cannot_shrink() {
    let out = Buf::new("out", vec![0u32; 1]);
    let none = Explore::new(&LaunchConfig::new(1u32, 8u32))
        .budget(0)
        .run(runner(|t| racy(t, out.clone())));
    // Nothing may be replayed, so the recording is the best schedule there is.
    let failure = none.failure.unwrap();
    let (_, recording, _) = run(
        &LaunchConfig::new(1u32, 8u32).seed(failure.seed),
        Choices::Random(SplitMix64(failure.seed)),
        &|t| racy(t, out.clone()),
    );
    assert_eq!(failure.shrink, Shrink::Minimised(Schedule::new(recording)));

    // One replay confirms the recording, and then nothing is left to spend.
    let one = Explore::new(&LaunchConfig::new(1u32, 8u32))
        .budget(1)
        .run(runner(|t| racy(t, out.clone())));
    let failure = one.failure.unwrap();
    assert_eq!(failure.shrink.schedule().unwrap().len(), failure.decisions);
}

#[test]
fn a_structural_race_needs_no_decisions() {
    // Threads running in plain order already hit a missing barrier.
    let config = LaunchConfig::new(1u32, 64u32);
    let found = Explore::new(&config).seeds(64).run(fresh_runner(|| {
        let out = Buf::new("out", vec![0u32; 64]);
        move |t: Thread| {
            let out = out.clone();
            async move {
                let tile = t.shared::<u32>("tile", 64);
                let i = t.ctx.thread_linear();
                tile.write(&t, i, i as u32, at(1)).await;
                let v = tile.read(&t, (i + 1) % 64, at(2)).await;
                out.write(&t, i, v, at(2)).await;
            }
        }
    }));
    let failure = found.failure.expect("expected a failure");
    assert!(failure.shrink.schedule().expect("a schedule").is_empty());
    assert_eq!(failure.seed, 0);
}

#[test]
fn history_does_not_carry_across_launches() {
    let out = Buf::new("out", vec![0u32; 1]);
    let config = LaunchConfig::new(2u32, 1u32).seed(1);
    for turn in 0..2 {
        let report = launch(&config, |t| {
            let out = out.clone();
            async move {
                if t.ctx.block_linear() == turn {
                    out.write(&t, 0, turn as u32 + 1, at(1)).await;
                }
            }
        });
        assert_clean(&report);
    }
    assert_eq!(out.to_vec(), vec![2]);
}

// ---------------------------------------------------- worked reductions ---

/// A block-level tree reduction, with or without the barrier in its loop.
async fn reduce(t: Thread, input: Buf<u32>, partial: Buf<u32>, buggy: bool) {
    let tile = t.shared::<u32>("tile", 64);
    let i = t.ctx.thread_linear();
    let v = input.read(&t, t.ctx.global_linear(), at(1)).await;
    tile.write(&t, i, v, at(1)).await;
    t.sync_threads(at(2)).await;

    let mut stride = 32;
    while stride > 0 {
        if i < stride {
            let sum = tile.read(&t, i, at(3)).await + tile.read(&t, i + stride, at(4)).await;
            tile.write(&t, i, sum, at(5)).await;
        }
        if !buggy {
            t.sync_threads(at(6)).await;
        }
        stride /= 2;
    }

    if i == 0 {
        let v = tile.read(&t, 0, at(7)).await;
        partial.write(&t, t.ctx.block_linear(), v, at(7)).await;
    }
}

#[test]
fn a_tree_reduction_needs_its_barrier() {
    for buggy in [false, true] {
        let input = Buf::new("input", (1..=256u32).collect());
        let partial = Buf::new("partial", vec![0u32; 4]);
        let report = launch(&LaunchConfig::new(4u32, 64u32).seed(2026), |t| {
            reduce(t, input.clone(), partial.clone(), buggy)
        });
        if buggy {
            assert!(report.has_race(), "{}", show(&report));
        } else {
            assert_clean(&report);
            assert_eq!(partial.to_vec().iter().sum::<u32>(), (1..=256u32).sum());
        }
    }
}

/// A warp-level reduction, with the shuffle unconditional or inside a branch.
async fn warp_reduce(t: Thread, input: Buf<u32>, partial: Buf<u32>, buggy: bool) {
    let mask = t.ctx.warp_valid_mask();
    let mut v = input.read(&t, t.ctx.global_linear(), at(1)).await;
    let mut delta = 4;
    while delta > 0 {
        if !(buggy && t.ctx.lane_id() >= delta) {
            v += t.shfl_down_sync(mask, v, delta, at(2)).await;
        }
        delta /= 2;
    }
    if t.ctx.lane_id() == 0 {
        partial.write(&t, t.ctx.block_linear(), v, at(3)).await;
    }
}

#[test]
fn a_warp_reduction_must_not_branch_around_its_shuffle() {
    for buggy in [false, true] {
        let input = Buf::new("input", (1..=32u32).collect());
        let partial = Buf::new("partial", vec![0u32; 4]);
        let config = LaunchConfig::new(4u32, 8u32).warp_size(8).seed(2026);
        let report = launch(&config, |t| {
            warp_reduce(t, input.clone(), partial.clone(), buggy)
        });
        if buggy {
            assert!(report.has_warp_divergence(), "{}", show(&report));
            assert!(report.aborted);
        } else {
            assert_clean(&report);
            assert_eq!(partial.to_vec().iter().sum::<u32>(), (1..=32u32).sum());
        }
    }
}

#[test]
fn a_budget_of_nothing_replays_nothing() {
    // A kernel that would be unreproducible is not found out without a replay.
    let runs = RefCell::new(0u32);
    let out = Buf::new("out", vec![0u32; 1]);
    let found = Explore::new(&LaunchConfig::new(1u32, 4u32)).budget(0).run(
        |config: LaunchConfig, choices: Choices| {
            *runs.borrow_mut() += 1;
            run(&config, choices, &|t| racy(t, out.clone()))
        },
    );
    let failure = found.failure.unwrap();
    assert_eq!(*runs.borrow(), 1);
    assert_eq!(failure.shrink.schedule().unwrap().len(), failure.decisions);
}

#[test]
fn a_recording_reproduces_the_launch_under_any_seed() {
    let config = LaunchConfig::new(2u32, 3u32).seed(5);
    let first = Buf::new("out", vec![1u32; 1]);
    let (report, trace, complete) = run(
        &config,
        Choices::Random(SplitMix64(config.seed)),
        &|t| mixing(t, first.clone()),
    );
    assert!(complete);
    assert!(report.has_race());

    for seed in [0u64, 5, 99] {
        let again = Buf::new("out", vec![1u32; 1]);
        let replayed = replay(
            &config.seed(seed),
            &Schedule::new(trace.clone()),
            runner(|t| mixing(t, again.clone())),
        );
        assert_eq!(replayed.seed, seed);
        assert_eq!(replayed.aborted, report.aborted);
        assert_eq!(replayed.fingerprints(), report.fingerprints());
        assert_eq!(
            replayed.diagnostics.iter().map(|d| d.to_string()).collect::<Vec<_>>(),
            report.diagnostics.iter().map(|d| d.to_string()).collect::<Vec<_>>()
        );
        assert_eq!(again.to_vec(), first.to_vec());
    }
}

#[test]
fn a_seed_fixes_a_launch_of_several_waves() {
    let once = || {
        let out = Buf::new("out", vec![1u32; 1]);
        let config = LaunchConfig::new(3u32, 2u32).resident_blocks(1).seed(7);
        let (report, trace, _) = run(
            &config,
            Choices::Random(SplitMix64(config.seed)),
            &|t| mixing(t, out.clone()),
        );
        (out.to_vec(), show(&report), trace)
    };
    assert_eq!(once(), once());
}

/// Whether a report holds a race on this element.
fn races_on(report: &Report, element: usize) -> bool {
    report
        .diagnostics
        .iter()
        .any(|d| matches!(d, Diagnostic::DataRace { index, .. } if *index == element))
}

#[test]
fn a_race_is_found_whichever_interleaving_comes_up() {
    // The write is read back by its own thread any number of times before or
    // after the other thread comes by.
    for seed in 0..32 {
        let out = Buf::new("out", vec![0u32; 2]);
        let report = launch(&LaunchConfig::new(1u32, 2u32).seed(seed), |t| {
            let out = out.clone();
            async move {
                if t.ctx.thread_linear() == 0 {
                    out.write(&t, 1, 5, at(1)).await;
                    for _ in 0..4 {
                        let _ = out.read(&t, 1, at(2)).await;
                    }
                } else {
                    let _ = out.read(&t, 0, at(3)).await;
                    let _ = out.read(&t, 1, at(4)).await;
                }
            }
        });
        assert!(races_on(&report, 1), "seed {seed}: {}", show(&report));
        assert!(!races_on(&report, 0), "seed {seed}: {}", show(&report));
    }
}

#[test]
fn a_write_that_an_ordered_one_replaced_is_still_stood_for() {
    // Block 0 writes the element twice, in order. The other block is ordered
    // after neither, so it races, although only one write is remembered.
    for seed in 0..32 {
        let out = Buf::new("out", vec![0u32; 1]);
        let report = launch(&LaunchConfig::new(2u32, 2u32).seed(seed), |t| {
            let out = out.clone();
            async move {
                if t.ctx.block_linear() == 0 {
                    if t.ctx.thread_linear() == 0 {
                        out.write(&t, 0, 1, at(1)).await;
                    }
                    t.sync_threads(at(2)).await;
                    if t.ctx.thread_linear() == 1 {
                        out.write(&t, 0, 2, at(3)).await;
                    }
                } else if t.ctx.thread_linear() == 0 {
                    let _ = out.read(&t, 0, at(4)).await;
                }
            }
        });
        assert!(races_on(&report, 0), "seed {seed}: {}", show(&report));
        assert!(
            report.fingerprints().iter().all(|f| f.contains(":4")),
            "seed {seed}: {}",
            show(&report)
        );
    }
}

#[test]
fn as_many_readers_as_there_is_room_for_are_remembered() {
    for seed in 0..32 {
        let out = Buf::new("out", vec![0u32; 1]);
        let report = launch(&LaunchConfig::new(9u32, 1u32).seed(seed), |t| {
            let out = out.clone();
            async move {
                if t.ctx.block_linear() == 8 {
                    out.write(&t, 0, 1, at(1)).await;
                } else {
                    let _ = out.read(&t, 0, at(2)).await;
                }
            }
        });
        assert!(races_on(&report, 0), "seed {seed}: {}", show(&report));
    }
}

#[test]
fn barriers_and_collectives_order_whatever_comes_up() {
    for seed in 0..32 {
        let out = Buf::new("out", vec![0u32; 1]);
        let config = LaunchConfig::new(1u32, 4u32).warp_size(2).seed(seed);
        let report = launch(&config, |t| {
            let out = out.clone();
            async move {
                let me = t.ctx.thread_linear();
                if me == 0 {
                    out.write(&t, 0, 1, at(1)).await;
                }
                if me < 2 {
                    t.sync_warp(0b11, at(2)).await;
                }
                if me == 1 {
                    out.write(&t, 0, 2, at(3)).await;
                }
                t.sync_threads(at(4)).await;
                let _ = out.read(&t, 0, at(5)).await;
                t.sync_threads(at(6)).await;
                if me == 3 {
                    out.write(&t, 0, 3, at(7)).await;
                }
            }
        });
        assert!(report.is_clean(), "seed {seed}: {}", show(&report));
        assert_eq!(out.to_vec(), vec![3]);
    }
}

#[test]
fn hurrying_to_the_next_barrier_hides_no_race() {
    // Both accesses lie between the same two barriers, however far one thread
    // runs ahead of the other.
    for seed in 0..64 {
        let out = Buf::new("out", vec![0u32; 1]);
        let config = LaunchConfig::new(1u32, 2u32).seed(seed);
        let report = launch(&config, |t| {
            let out = out.clone();
            async move {
                t.sync_threads(at(1)).await;
                if t.ctx.thread_linear() == 0 {
                    out.write(&t, 0, 1, at(2)).await;
                } else {
                    let _ = out.read(&t, 0, at(3)).await;
                }
                t.sync_threads(at(4)).await;
            }
        });
        assert!(races_on(&report, 0), "seed {seed}: {}", show(&report));
    }
}
