//! Instrumented memory: global buffers, shared arrays, and the access path
//! every operation on them goes through.

use std::ops::{Add, Sub};

use vstd::prelude::*;

use crate::diag::{Access, AccessKind, Diagnostic, MemSpace};
use crate::location::Location;
use crate::shadow::{self, Cell, History};
use crate::state::{self, LaunchState, Running};
use crate::sync::{self, AtomicOrdering};

verus! {

/// The launch was aborted, and the thread has to unwind.
#[derive(Clone, Copy, Debug, PartialEq, Eq, Structural)]
pub struct AbortSignal;

/// The contents of an instrumented array and the history of each element.
#[verifier::ext_equal]
pub struct Memory<T> {
    pub data: Seq<T>,
    pub shadow: Seq<History>,
    /// Launch the history belongs to.
    pub launch_id: u64,
}

impl<T> Memory<T> {
    pub open spec fn wf(self) -> bool {
        self.shadow.len() == self.data.len()
    }
}

/// A memory whose elements nobody has touched.
pub open spec fn untouched_memory<T>(data: Seq<T>, init: bool) -> Memory<T> {
    Memory {
        data,
        shadow: Seq::new(data.len(), |i: int| shadow::untouched(init)),
        launch_id: 0,
    }
}

/// The memory as a launch finds it: history is launch-local, and whether an
/// element was written outlasts a launch only where `keep_init` says so.
pub open spec fn opened<T>(m: Memory<T>, id: u64, keep_init: bool) -> Memory<T> {
    if m.launch_id == id {
        m
    } else {
        Memory {
            data: m.data,
            shadow: Seq::new(
                m.shadow.len(),
                |i: int| shadow::untouched(keep_init && m.shadow[i].init),
            ),
            launch_id: id,
        }
    }
}

/// What an operation on one element is.
pub struct Request {
    pub kind: AccessKind,
    /// How an atomic orders the operations around it.
    pub ordering: Option<AtomicOrdering>,
    /// Whether the value the element holds is looked at.
    pub reads: bool,
    pub location: Location,
}

/// The launch once the thread took on what the element published, which only
/// an atomic that looks at the element does.
pub open spec fn after_acquire(r: Running, me: int, h: History, req: Request) -> Running {
    match req.ordering {
        Some(o) if req.reads => Running {
            clocks: sync::acquired(r.clocks, me, h.published, o),
            ..r
        },
        _ => r,
    }
}

/// The earlier access the operation conflicts with.
pub open spec fn conflict_of(
    h: History,
    acc: Access,
    clock: Map<u64, u64>,
    kind: AccessKind,
) -> Option<Access> {
    if kind == AccessKind::Read {
        shadow::write_conflict(h, acc, clock)
    } else {
        shadow::any_conflict(h, acc, clock)
    }
}

/// The history once the operation was recorded.
pub open spec fn recorded(h: History, acc: Access, kind: AccessKind, stored: bool) -> History {
    if kind == AccessKind::Read {
        shadow::after_read(h, acc)
    } else {
        shadow::after_write(h, acc, stored)
    }
}

/// The history once the thread published to the element, which only an atomic
/// that stored a value does.
pub open spec fn after_release(h: History, r: Running, me: int, req: Request, stored: bool) -> History {
    match req.ordering {
        Some(o) if stored => History {
            published: sync::published(r.clocks, me, h.published, o),
            ..h
        },
        _ => h,
    }
}

/// The launch once the operation's findings were reported: a read of an
/// element nobody has written, then a conflict.
pub open spec fn with_findings(
    r: Running,
    space: MemSpace,
    index: usize,
    acc: Access,
    uninit: bool,
    conflict: Option<Access>,
) -> Running {
    let first = if uninit {
        state::noted(r, Diagnostic::UninitRead { space, index, access: acc })
    } else {
        r
    };
    match conflict {
        Some(a) => state::noted(
            first,
            Diagnostic::DataRace { space, index, first: a, second: acc },
        ),
        None => first,
    }
}

/// The launch after an operation on an element with history `h`.
pub open spec fn launch_after(
    r: Running,
    me: int,
    space: MemSpace,
    index: usize,
    h: History,
    req: Request,
) -> Running {
    let acc = state::access_now(r, me, req.kind, req.location);
    let synced = after_acquire(state::counted(r, me), me, h, req);
    with_findings(
        synced,
        space,
        index,
        acc,
        req.reads && !h.init,
        conflict_of(h, acc, synced.clocks.clock[me], req.kind),
    )
}

/// The history after an operation on an element with history `h`.
pub open spec fn history_after(
    r: Running,
    me: int,
    h: History,
    req: Request,
    stored: bool,
) -> History {
    let acc = state::access_now(r, me, req.kind, req.location);
    let synced = after_acquire(state::counted(r, me), me, h, req);
    after_release(recorded(h, acc, req.kind, stored), synced, me, req, stored)
}

/// The memory after an operation: `value` is stored, or nothing.
pub open spec fn memory_after<T>(
    m: Memory<T>,
    r: Running,
    me: int,
    index: int,
    req: Request,
    value: Option<T>,
) -> Memory<T> {
    Memory {
        data: match value {
            Some(v) => m.data.update(index, v),
            None => m.data,
        },
        shadow: m.shadow.update(
            index,
            history_after(r, me, m.shadow[index], req, value is Some),
        ),
        launch_id: m.launch_id,
    }
}

/// The launch after an index past the end: a trap.
pub open spec fn launch_past_end(
    r: Running,
    me: int,
    space: MemSpace,
    index: usize,
    len: usize,
    req: Request,
) -> Running {
    let acc = state::access_now(r, me, req.kind, req.location);
    state::trapped(
        state::counted(r, me),
        Diagnostic::OutOfBounds { space, index, len, access: acc },
    )
}

/// Shared implementation for any instrumented array.
pub struct Instrumented<T> {
    data: Vec<T>,
    shadow: Vec<Cell>,
    launch_id: u64,
}

impl<T> View for Instrumented<T> {
    type V = Memory<T>;

    closed spec fn view(&self) -> Memory<T> {
        Memory {
            data: self.data@,
            shadow: self.shadow@.map_values(|c: Cell| c@),
            launch_id: self.launch_id,
        }
    }
}

/// `n` cells nobody has touched.
fn untouched_cells(n: usize, init: bool) -> (r: Vec<Cell>)
    ensures
        r@.len() == n,
        forall|i: int| 0 <= i < n ==> (#[trigger] r@[i])@ == shadow::untouched(init),
{
    let mut out: Vec<Cell> = Vec::new();
    let mut i: usize = 0;
    while i < n
        invariant
            i <= n,
            out@.len() == i,
            forall|j: int| 0 <= j < i ==> (#[trigger] out@[j])@ == shadow::untouched(init),
        decreases n - i,
    {
        out.push(Cell::new(init));
        i = i + 1;
    }
    out
}

/// `n` copies of a value.
fn copies<T: Copy>(n: usize, value: T) -> (r: Vec<T>)
    ensures
        r@ == Seq::new(n as nat, |i: int| value),
{
    let mut out: Vec<T> = Vec::new();
    let mut i: usize = 0;
    while i < n
        invariant
            i <= n,
            out@ == Seq::new(i as nat, |j: int| value),
        decreases n - i,
    {
        out.push(value);
        i = i + 1;
        assert(out@ =~= Seq::new(i as nat, |j: int| value));
    }
    out
}

impl<T: Copy> Instrumented<T> {
    fn new(data: Vec<T>, init: bool) -> (r: Instrumented<T>)
        ensures
            r@.wf(),
            r@ == untouched_memory(data@, init),
    {
        let shadow = untouched_cells(data.len(), init);
        let ghost held = data@;
        let r = Instrumented { data, shadow, launch_id: 0 };
        assert(r@ =~= untouched_memory(held, init));
        r
    }

    fn len(&self) -> (r: usize)
        ensures
            r == self@.data.len(),
    {
        self.data.len()
    }

    /// Starts a new history if the memory was last touched by another launch.
    fn open(&mut self, id: u64, keep_init: bool)
        requires
            old(self)@.wf(),
        ensures
            final(self)@ == opened(old(self)@, id, keep_init),
            final(self)@.wf(),
    {
        let ghost before = self@;
        if self.launch_id == id {
            return ;
        }
        let n: usize = self.shadow.len();
        let mut i: usize = 0;
        while i < n
            invariant
                i <= n,
                n == before.shadow.len(),
                self.shadow@.len() == n,
                self.data@ == before.data,
                forall|j: int|
                    0 <= j < n ==> (#[trigger] self.shadow@[j])@ == if j < i {
                        shadow::untouched(keep_init && before.shadow[j].init)
                    } else {
                        before.shadow[j]
                    },
            decreases n - i,
        {
            self.shadow[i].reset(keep_init);
            i = i + 1;
        }
        self.launch_id = id;
        assert(self@ =~= opened(before, id, keep_init));
    }

    /// The access path: counts the access, checks it against the element's
    /// history, and lets `op` look at the value and decide what to store.
    ///
    /// The caller has passed a scheduling point, which is where interleavings
    /// come from.
    fn checked_access<R, F: FnOnce(T) -> (Option<T>, R)>(
        &mut self,
        launch: &mut LaunchState,
        me: usize,
        space: MemSpace,
        index: usize,
        req: Request,
        keep_init: bool,
        op: F,
    ) -> (r: Result<R, AbortSignal>)
        requires
            old(self)@.wf(),
            old(launch).wf(),
            old(launch)@.has_thread(me as int),
            old(launch)@.has_room(me as int),
            index < old(self)@.data.len() ==> call_requires(op, (old(self)@.data[index as int],)),
        ensures
            final(self)@.wf(),
            final(launch).wf(),
            ({
                let m = opened(old(self)@, old(launch)@.id, keep_init);
                if index >= m.data.len() {
                    &&& r == Err::<R, AbortSignal>(AbortSignal)
                    &&& final(self)@ == m
                    &&& final(launch)@ == launch_past_end(
                        old(launch)@,
                        me as int,
                        space,
                        index,
                        m.data.len() as usize,
                        req,
                    )
                } else {
                    &&& r matches Ok(out)
                    &&& exists|stored: Option<T>|
                        #![trigger memory_after(m, old(launch)@, me as int, index as int, req, stored)]
                        call_ensures(op, (m.data[index as int],), (stored, out)) && final(self)@
                            == memory_after(m, old(launch)@, me as int, index as int, req, stored)
                    &&& final(launch)@ == launch_after(
                        old(launch)@,
                        me as int,
                        space,
                        index,
                        m.shadow[index as int],
                        req,
                    )
                }
            }),
    {
        let ghost r0 = launch@;
        let ghost m = opened(self@, r0.id, keep_init);
        let id: u64 = launch.id();
        let acc: Access = launch.access(me, req.kind, req.location);
        self.open(id, keep_init);
        let len: usize = self.data.len();
        if index >= len {
            launch.trap(Diagnostic::OutOfBounds { space, index, len, access: acc });
            return Err(AbortSignal);
        }
        let ghost h = m.shadow[index as int];
        assert(self.shadow@[index as int]@ == h);
        let uninit = req.reads && !self.shadow[index].is_init();
        if let Some(ordering) = req.ordering {
            if req.reads {
                launch.acquire(me, self.shadow[index].published(), ordering);
            }
        }
        let ghost synced = launch@;
        assert(synced == after_acquire(state::counted(r0, me as int), me as int, h, req));
        let value: T = self.data[index];
        let (stored, out) = op(value);
        let has_stored = stored.is_some();
        let ghost what = stored;
        let conflict = self.record(launch, me, index, acc, &req, has_stored);
        if let Some(v) = stored {
            self.data.set(index, v);
        }
        assert(self@ =~= memory_after(m, r0, me as int, index as int, req, what));
        if uninit {
            launch.report(
                Diagnostic::UninitRead { space: space.clone(), index, access: acc },
            );
        }
        if let Some(first) = conflict {
            launch.report(Diagnostic::DataRace { space, index, first, second: acc });
        }
        Ok(out)
    }

    /// Records an operation in the history of its element and publishes what
    /// it releases; returns what it conflicts with.
    fn record(
        &mut self,
        launch: &LaunchState,
        me: usize,
        index: usize,
        acc: Access,
        req: &Request,
        stored: bool,
    ) -> (r: Option<Access>)
        requires
            old(self)@.wf(),
            index < old(self)@.data.len(),
            launch.wf(),
            launch@.has_thread(me as int),
        ensures
            ({
                let h = old(self)@.shadow[index as int];
                &&& r == conflict_of(h, acc, launch@.clocks.clock[me as int], req.kind)
                &&& final(self)@ == (Memory {
                    shadow: old(self)@.shadow.update(
                        index as int,
                        after_release(
                            recorded(h, acc, req.kind, stored),
                            launch@,
                            me as int,
                            *req,
                            stored,
                        ),
                    ),
                    ..old(self)@
                })
            }),
    {
        proof {
            launch.lemma_wf();
        }
        let ghost before = self@;
        let ghost h = before.shadow[index as int];
        assert(self.shadow@[index as int]@ == h);
        let clocks = launch.clocks();
        let conflict = if req.kind == AccessKind::Read {
            self.shadow[index].on_read(acc, clocks.clock(me))
        } else {
            self.shadow[index].on_write(acc, clocks.clock(me), stored)
        };
        if let Some(ordering) = req.ordering {
            if stored {
                self.shadow[index].publish(clocks, me, ordering);
            }
        }
        assert(self@ =~= (Memory {
            shadow: before.shadow.update(
                index as int,
                after_release(
                    recorded(h, acc, req.kind, stored),
                    launch@,
                    me as int,
                    *req,
                    stored,
                ),
            ),
            ..before
        }));
        conflict
    }
}

// ------------------------------------------------------------- outcomes ---

/// Whether thread `me` can make an access now.
pub open spec fn ready(r: Running, me: usize) -> bool {
    r.has_thread(me as int) && r.has_room(me as int)
}

/// What an element holds.
pub open spec fn held<T>(m: Memory<T>, index: usize) -> T {
    m.data[index as int]
}

/// What one operation inside the bounds leaves behind in the memory and the
/// launch.
pub open spec fn accessed<T>(
    before: Memory<T>,
    after: Memory<T>,
    r: Running,
    r_after: Running,
    me: usize,
    space: MemSpace,
    index: usize,
    req: Request,
    keep_init: bool,
    stored: Option<T>,
) -> bool {
    let m = opened(before, r.id, keep_init);
    &&& index < m.data.len()
    &&& after == memory_after(m, r, me as int, index as int, req, stored)
    &&& r_after == launch_after(r, me as int, space, index, m.shadow[index as int], req)
}

/// What an index past the end leaves behind.
pub open spec fn ran_past_end<T>(
    before: Memory<T>,
    after: Memory<T>,
    r: Running,
    r_after: Running,
    me: usize,
    space: MemSpace,
    index: usize,
    req: Request,
    keep_init: bool,
) -> bool {
    let m = opened(before, r.id, keep_init);
    &&& index >= m.data.len()
    &&& after == m
    &&& r_after == launch_past_end(r, me as int, space, index, m.data.len() as usize, req)
}

/// The smaller of two values; the held one unless the other is less.
pub open spec fn min_of<T: PartialOrd>(held: T, value: T) -> T {
    if vstd::std_specs::cmp::PartialOrdIs::is_lt(&value, &held) {
        value
    } else {
        held
    }
}

/// The larger of two values; the held one unless the other is greater.
pub open spec fn max_of<T: PartialOrd>(held: T, value: T) -> T {
    if vstd::std_specs::cmp::PartialOrdIs::is_gt(&value, &held) {
        value
    } else {
        held
    }
}

/// Whether the comparison of this type is the one specifications know.
pub open spec fn is_ordered<T: vstd::std_specs::cmp::PartialOrdSpec>() -> bool {
    T::obeys_partial_cmp_spec()
}

/// Whether two values are equal.
pub open spec fn are_equal<T: PartialEq>(a: T, b: T) -> bool {
    vstd::std_specs::cmp::PartialEqIs::is_eq(&a, &b)
}

/// Whether `x` is one of two values.
pub open spec fn is_one_of<T>(x: T, a: T, b: T) -> bool {
    x == a || x == b
}

/// Whether the equality of this type is the one specifications know.
pub open spec fn has_equality<T: vstd::std_specs::cmp::PartialEqSpec>() -> bool {
    T::obeys_eq_spec()
}

/// A plain read at a location.
pub open spec fn plain_read(location: Location) -> Request {
    Request { kind: AccessKind::Read, ordering: None, reads: true, location }
}

/// A plain write at a location.
pub open spec fn plain_write(location: Location) -> Request {
    Request { kind: AccessKind::Write, ordering: None, reads: false, location }
}

/// An atomic at a location; a store alone does not look at the element.
pub open spec fn atomic(ordering: AtomicOrdering, reads: bool, location: Location) -> Request {
    Request { kind: AccessKind::Atomic, ordering: Some(ordering), reads, location }
}

// ---------------------------------------------------------------- global ---

/// A buffer in simulated global (device) memory.
///
/// Contents persist across launches; access history does not.
pub struct GlobalBuf<T> {
    name: String,
    mem: Instrumented<T>,
}

impl<T> View for GlobalBuf<T> {
    type V = Memory<T>;

    closed spec fn view(&self) -> Memory<T> {
        self.mem@
    }
}

impl<T> GlobalBuf<T> {
    /// How findings name this memory.
    pub closed spec fn space(&self) -> MemSpace {
        MemSpace::Global { buffer: self.name }
    }
}

impl<T: Copy> GlobalBuf<T> {
    /// Creates a buffer initialised from host data (like a host-to-device
    /// copy).
    pub fn new(name: &str, data: Vec<T>) -> (r: GlobalBuf<T>)
        ensures
            r@.wf(),
            r@ == untouched_memory(data@, true),
            r.space() matches MemSpace::Global { buffer } && buffer@ == name@,
    {
        GlobalBuf { name: name.to_owned(), mem: Instrumented::new(data, true) }
    }

    /// Creates a buffer nothing has written yet, the way an output allocation
    /// arrives before a kernel fills it. Reading an element before writing it
    /// is reported.
    pub fn uninit(name: &str, len: usize) -> (r: GlobalBuf<T>) where T: Default
        ensures
            r@.wf(),
            exists|fill: T| #[trigger]
                call_ensures(T::default, (), fill) && r@ == untouched_memory(
                    Seq::new(len as nat, |i: int| fill),
                    false,
                ),
            r.space() matches MemSpace::Global { buffer } && buffer@ == name@,
    {
        let fill: T = T::default();
        GlobalBuf { name: name.to_owned(), mem: Instrumented::new(copies(len, fill), false) }
    }

    pub fn len(&self) -> (r: usize)
        ensures
            r == self@.data.len(),
    {
        self.mem.len()
    }

    pub fn is_empty(&self) -> (r: bool)
        ensures
            r == (self@.data.len() == 0),
    {
        self.mem.len() == 0
    }

    /// Copies the contents back to the host.
    pub fn to_vec(&self) -> (r: Vec<T>)
        ensures
            r@ == self@.data,
    {
        let n: usize = self.mem.data.len();
        let mut out: Vec<T> = Vec::new();
        let mut i: usize = 0;
        while i < n
            invariant
                i <= n,
                n == self.mem.data@.len(),
                out@ == self.mem.data@.take(i as int),
            decreases n - i,
        {
            out.push(self.mem.data[i]);
            i = i + 1;
            assert(out@ =~= self.mem.data@.take(i as int));
        }
        assert(out@ =~= self.mem.data@);
        out
    }

    fn space_of(&self) -> (r: MemSpace)
        ensures
            r == self.space(),
    {
        MemSpace::Global { buffer: self.name.clone() }
    }

    /// Reads an element.
    pub fn read(
        &mut self,
        launch: &mut LaunchState,
        me: usize,
        index: usize,
        location: Location,
    ) -> (r: Result<T, AbortSignal>)
        requires
            old(self)@.wf(),
            old(launch).wf(),
            ready(old(launch)@, me),
        ensures
            final(self)@.wf(),
            final(self).space() == old(self).space(),
            final(launch).wf(),
            if index >= old(self)@.data.len() {
                r is Err && ran_past_end(
                    old(self)@,
                    final(self)@,
                    old(launch)@,
                    final(launch)@,
                    me,
                    old(self).space(),
                    index,
                    plain_read(location),
                    true,
                )
            } else {
                r == Ok::<T, AbortSignal>(held(old(self)@, index)) && accessed(
                    old(self)@,
                    final(self)@,
                    old(launch)@,
                    final(launch)@,
                    me,
                    old(self).space(),
                    index,
                    plain_read(location),
                    true,
                    None,
                )
            },
    {
        let space = self.space_of();
        let req = Request { kind: AccessKind::Read, ordering: None, reads: true, location };
        let op = |v: T| -> (o: (Option<T>, T))
            ensures
                o.0 is None,
                o.1 == v,
            { (None, v) };
        self.mem.checked_access(launch, me, space, index, req, true, op)
    }

    /// Writes an element.
    pub fn write(
        &mut self,
        launch: &mut LaunchState,
        me: usize,
        index: usize,
        value: T,
        location: Location,
    ) -> (r: Result<(), AbortSignal>)
        requires
            old(self)@.wf(),
            old(launch).wf(),
            ready(old(launch)@, me),
        ensures
            final(self)@.wf(),
            final(self).space() == old(self).space(),
            final(launch).wf(),
            if index >= old(self)@.data.len() {
                r is Err && ran_past_end(
                    old(self)@,
                    final(self)@,
                    old(launch)@,
                    final(launch)@,
                    me,
                    old(self).space(),
                    index,
                    plain_write(location),
                    true,
                )
            } else {
                r is Ok && accessed(
                    old(self)@,
                    final(self)@,
                    old(launch)@,
                    final(launch)@,
                    me,
                    old(self).space(),
                    index,
                    plain_write(location),
                    true,
                    Some(value),
                )
            },
    {
        let space = self.space_of();
        let req = Request { kind: AccessKind::Write, ordering: None, reads: false, location };
        let op = |v: T| -> (o: (Option<T>, ()))
            ensures
                o.0 == Some(value),
            { (Some(value), ()) };
        self.mem.checked_access(launch, me, space, index, req, true, op)
    }

    /// An atomic load.
    pub fn atomic_load(
        &mut self,
        launch: &mut LaunchState,
        me: usize,
        index: usize,
        ordering: AtomicOrdering,
        location: Location,
    ) -> (r: Result<T, AbortSignal>)
        requires
            old(self)@.wf(),
            old(launch).wf(),
            ready(old(launch)@, me),
        ensures
            final(self)@.wf(),
            final(self).space() == old(self).space(),
            final(launch).wf(),
            if index >= old(self)@.data.len() {
                r is Err && ran_past_end(
                    old(self)@,
                    final(self)@,
                    old(launch)@,
                    final(launch)@,
                    me,
                    old(self).space(),
                    index,
                    atomic(ordering, true, location),
                    true,
                )
            } else {
                r == Ok::<T, AbortSignal>(held(old(self)@, index)) && accessed(
                    old(self)@,
                    final(self)@,
                    old(launch)@,
                    final(launch)@,
                    me,
                    old(self).space(),
                    index,
                    atomic(ordering, true, location),
                    true,
                    None,
                )
            },
    {
        let space = self.space_of();
        let req = Request { kind: AccessKind::Atomic, ordering: Some(ordering), reads: true, location };
        let op = |v: T| -> (o: (Option<T>, T))
            ensures
                o.0 is None,
                o.1 == v,
            { (None, v) };
        self.mem.checked_access(launch, me, space, index, req, true, op)
    }

    /// An atomic store.
    pub fn atomic_store(
        &mut self,
        launch: &mut LaunchState,
        me: usize,
        index: usize,
        value: T,
        ordering: AtomicOrdering,
        location: Location,
    ) -> (r: Result<(), AbortSignal>)
        requires
            old(self)@.wf(),
            old(launch).wf(),
            ready(old(launch)@, me),
        ensures
            final(self)@.wf(),
            final(self).space() == old(self).space(),
            final(launch).wf(),
            if index >= old(self)@.data.len() {
                r is Err && ran_past_end(
                    old(self)@,
                    final(self)@,
                    old(launch)@,
                    final(launch)@,
                    me,
                    old(self).space(),
                    index,
                    atomic(ordering, false, location),
                    true,
                )
            } else {
                r is Ok && accessed(
                    old(self)@,
                    final(self)@,
                    old(launch)@,
                    final(launch)@,
                    me,
                    old(self).space(),
                    index,
                    atomic(ordering, false, location),
                    true,
                    Some(value),
                )
            },
    {
        let space = self.space_of();
        let req = Request { kind: AccessKind::Atomic, ordering: Some(ordering), reads: false, location };
        let op = |v: T| -> (o: (Option<T>, ()))
            ensures
                o.0 == Some(value),
            { (Some(value), ()) };
        self.mem.checked_access(launch, me, space, index, req, true, op)
    }

    /// `atomicExch`: stores a value and returns the previous one.
    pub fn atomic_swap(
        &mut self,
        launch: &mut LaunchState,
        me: usize,
        index: usize,
        value: T,
        ordering: AtomicOrdering,
        location: Location,
    ) -> (r: Result<T, AbortSignal>)
        requires
            old(self)@.wf(),
            old(launch).wf(),
            ready(old(launch)@, me),
        ensures
            final(self)@.wf(),
            final(self).space() == old(self).space(),
            final(launch).wf(),
            if index >= old(self)@.data.len() {
                r is Err && ran_past_end(
                    old(self)@,
                    final(self)@,
                    old(launch)@,
                    final(launch)@,
                    me,
                    old(self).space(),
                    index,
                    atomic(ordering, true, location),
                    true,
                )
            } else {
                r == Ok::<T, AbortSignal>(held(old(self)@, index)) && accessed(
                    old(self)@,
                    final(self)@,
                    old(launch)@,
                    final(launch)@,
                    me,
                    old(self).space(),
                    index,
                    atomic(ordering, true, location),
                    true,
                    Some(value),
                )
            },
    {
        let space = self.space_of();
        let req = Request { kind: AccessKind::Atomic, ordering: Some(ordering), reads: true, location };
        let op = |v: T| -> (o: (Option<T>, T))
            ensures
                o.0 == Some(value),
                o.1 == v,
            { (Some(value), v) };
        self.mem.checked_access(launch, me, space, index, req, true, op)
    }
}

impl<T: Copy + Add<Output = T>> GlobalBuf<T> {
    /// `atomicAdd`: returns the previous value. Atomics never race with each
    /// other, only with concurrent plain accesses.
    pub fn atomic_add(
        &mut self,
        launch: &mut LaunchState,
        me: usize,
        index: usize,
        value: T,
        ordering: AtomicOrdering,
        location: Location,
    ) -> (r: Result<T, AbortSignal>)
        requires
            old(self)@.wf(),
            old(launch).wf(),
            ready(old(launch)@, me),
            index < old(self)@.data.len() ==> call_requires(
                T::add,
                (held(old(self)@, index), value),
            ),
        ensures
            final(self)@.wf(),
            final(self).space() == old(self).space(),
            final(launch).wf(),
            if index >= old(self)@.data.len() {
                r is Err && ran_past_end(
                    old(self)@,
                    final(self)@,
                    old(launch)@,
                    final(launch)@,
                    me,
                    old(self).space(),
                    index,
                    atomic(ordering, true, location),
                    true,
                )
            } else {
                r == Ok::<T, AbortSignal>(held(old(self)@, index)) && exists|stored: T| #[trigger]
                    call_ensures(T::add, (held(old(self)@, index), value), stored) && accessed(
                        old(self)@,
                        final(self)@,
                        old(launch)@,
                        final(launch)@,
                        me,
                        old(self).space(),
                        index,
                        atomic(ordering, true, location),
                        true,
                        Some(stored),
                    )
            },
    {
        let space = self.space_of();
        let req = Request { kind: AccessKind::Atomic, ordering: Some(ordering), reads: true, location };
        let op = |v: T| -> (o: (Option<T>, T))
            requires
                call_requires(T::add, (v, value)),
            ensures
                o.0 matches Some(stored) && call_ensures(T::add, (v, value), stored),
                o.1 == v,
            { (Some(v.add(value)), v) };
        self.mem.checked_access(launch, me, space, index, req, true, op)
    }
}

impl<T: Copy + Sub<Output = T>> GlobalBuf<T> {
    /// `atomicSub`: returns the previous value. Atomics never race with each
    /// other, only with concurrent plain accesses.
    pub fn atomic_sub(
        &mut self,
        launch: &mut LaunchState,
        me: usize,
        index: usize,
        value: T,
        ordering: AtomicOrdering,
        location: Location,
    ) -> (r: Result<T, AbortSignal>)
        requires
            old(self)@.wf(),
            old(launch).wf(),
            ready(old(launch)@, me),
            index < old(self)@.data.len() ==> call_requires(
                T::sub,
                (held(old(self)@, index), value),
            ),
        ensures
            final(self)@.wf(),
            final(self).space() == old(self).space(),
            final(launch).wf(),
            if index >= old(self)@.data.len() {
                r is Err && ran_past_end(
                    old(self)@,
                    final(self)@,
                    old(launch)@,
                    final(launch)@,
                    me,
                    old(self).space(),
                    index,
                    atomic(ordering, true, location),
                    true,
                )
            } else {
                r == Ok::<T, AbortSignal>(held(old(self)@, index)) && exists|stored: T| #[trigger]
                    call_ensures(T::sub, (held(old(self)@, index), value), stored) && accessed(
                        old(self)@,
                        final(self)@,
                        old(launch)@,
                        final(launch)@,
                        me,
                        old(self).space(),
                        index,
                        atomic(ordering, true, location),
                        true,
                        Some(stored),
                    )
            },
    {
        let space = self.space_of();
        let req = Request { kind: AccessKind::Atomic, ordering: Some(ordering), reads: true, location };
        let op = |v: T| -> (o: (Option<T>, T))
            requires
                call_requires(T::sub, (v, value)),
            ensures
                o.0 matches Some(stored) && call_ensures(T::sub, (v, value), stored),
                o.1 == v,
            { (Some(v.sub(value)), v) };
        self.mem.checked_access(launch, me, space, index, req, true, op)
    }
}

impl<T: Copy + PartialOrd> GlobalBuf<T> {
    /// `atomicMin`: keeps the smaller value, and returns the previous one.
    pub fn atomic_min(
        &mut self,
        launch: &mut LaunchState,
        me: usize,
        index: usize,
        value: T,
        ordering: AtomicOrdering,
        location: Location,
    ) -> (r: Result<T, AbortSignal>)
        requires
            old(self)@.wf(),
            old(launch).wf(),
            ready(old(launch)@, me),
        ensures
            final(self)@.wf(),
            final(self).space() == old(self).space(),
            final(launch).wf(),
            if index >= old(self)@.data.len() {
                r is Err && ran_past_end(
                    old(self)@,
                    final(self)@,
                    old(launch)@,
                    final(launch)@,
                    me,
                    old(self).space(),
                    index,
                    atomic(ordering, true, location),
                    true,
                )
            } else {
                r == Ok::<T, AbortSignal>(held(old(self)@, index)) && exists|stored: T| #[trigger]
                    is_one_of(stored, held(old(self)@, index), value) && (is_ordered::<T>()
                        ==> stored == min_of(held(old(self)@, index), value)) && accessed(
                        old(self)@,
                        final(self)@,
                        old(launch)@,
                        final(launch)@,
                        me,
                        old(self).space(),
                        index,
                        atomic(ordering, true, location),
                        true,
                        Some(stored),
                    )
            },
    {
        let space = self.space_of();
        let req = Request { kind: AccessKind::Atomic, ordering: Some(ordering), reads: true, location };
        let op = |v: T| -> (o: (Option<T>, T))
            ensures
                o.0 matches Some(stored) && is_one_of(stored, v, value) && (is_ordered::<T>()
                    ==> stored == min_of(v, value)),
                o.1 == v,
            {
                if value < v {
                    (Some(value), v)
                } else {
                    (Some(v), v)
                }
            };
        let ghost before = self.mem@;
        let ghost r0 = launch@;
        let result = self.mem.checked_access(launch, me, space, index, req, true, op);
        proof {
            if index < before.data.len() {
                let m = opened(before, r0.id, true);
                let stored = choose|stored: Option<T>|
                    #![trigger memory_after(m, r0, me as int, index as int, req, stored)]
                    call_ensures(op, (m.data[index as int],), (stored, result->Ok_0))
                        && self.mem@ == memory_after(
                        m,
                        r0,
                        me as int,
                        index as int,
                        req,
                        stored,
                    );
                assert(is_one_of(stored->0, held(before, index), value));
            }
        }
        result
    }

    /// `atomicMax`: keeps the larger value, and returns the previous one.
    pub fn atomic_max(
        &mut self,
        launch: &mut LaunchState,
        me: usize,
        index: usize,
        value: T,
        ordering: AtomicOrdering,
        location: Location,
    ) -> (r: Result<T, AbortSignal>)
        requires
            old(self)@.wf(),
            old(launch).wf(),
            ready(old(launch)@, me),
        ensures
            final(self)@.wf(),
            final(self).space() == old(self).space(),
            final(launch).wf(),
            if index >= old(self)@.data.len() {
                r is Err && ran_past_end(
                    old(self)@,
                    final(self)@,
                    old(launch)@,
                    final(launch)@,
                    me,
                    old(self).space(),
                    index,
                    atomic(ordering, true, location),
                    true,
                )
            } else {
                r == Ok::<T, AbortSignal>(held(old(self)@, index)) && exists|stored: T| #[trigger]
                    is_one_of(stored, held(old(self)@, index), value) && (is_ordered::<T>()
                        ==> stored == max_of(held(old(self)@, index), value)) && accessed(
                        old(self)@,
                        final(self)@,
                        old(launch)@,
                        final(launch)@,
                        me,
                        old(self).space(),
                        index,
                        atomic(ordering, true, location),
                        true,
                        Some(stored),
                    )
            },
    {
        let space = self.space_of();
        let req = Request { kind: AccessKind::Atomic, ordering: Some(ordering), reads: true, location };
        let op = |v: T| -> (o: (Option<T>, T))
            ensures
                o.0 matches Some(stored) && is_one_of(stored, v, value) && (is_ordered::<T>()
                    ==> stored == max_of(v, value)),
                o.1 == v,
            {
                if value > v {
                    (Some(value), v)
                } else {
                    (Some(v), v)
                }
            };
        let ghost before = self.mem@;
        let ghost r0 = launch@;
        let result = self.mem.checked_access(launch, me, space, index, req, true, op);
        proof {
            if index < before.data.len() {
                let m = opened(before, r0.id, true);
                let stored = choose|stored: Option<T>|
                    #![trigger memory_after(m, r0, me as int, index as int, req, stored)]
                    call_ensures(op, (m.data[index as int],), (stored, result->Ok_0))
                        && self.mem@ == memory_after(
                        m,
                        r0,
                        me as int,
                        index as int,
                        req,
                        stored,
                    );
                assert(is_one_of(stored->0, held(before, index), value));
            }
        }
        result
    }
}

impl<T: Copy + PartialEq> GlobalBuf<T> {
    /// `atomicCAS`: stores `new` if the element holds `current`. The previous
    /// value comes back either way, as `Ok` when the exchange happened.
    pub fn atomic_compare_exchange(
        &mut self,
        launch: &mut LaunchState,
        me: usize,
        index: usize,
        current: T,
        new: T,
        ordering: AtomicOrdering,
        location: Location,
    ) -> (r: Result<Result<T, T>, AbortSignal>)
        requires
            old(self)@.wf(),
            old(launch).wf(),
            ready(old(launch)@, me),
        ensures
            final(self)@.wf(),
            final(self).space() == old(self).space(),
            final(launch).wf(),
            if index >= old(self)@.data.len() {
                r is Err && ran_past_end(
                    old(self)@,
                    final(self)@,
                    old(launch)@,
                    final(launch)@,
                    me,
                    old(self).space(),
                    index,
                    atomic(ordering, true, location),
                    true,
                )
            } else {
                &&& r matches Ok(x)
                &&& x == Ok::<T, T>(held(old(self)@, index)) || x == Err::<T, T>(
                    held(old(self)@, index),
                )
                &&& has_equality::<T>() ==> (x is Ok <==> are_equal(
                    held(old(self)@, index),
                    current,
                ))
                &&& accessed(
                    old(self)@,
                    final(self)@,
                    old(launch)@,
                    final(launch)@,
                    me,
                    old(self).space(),
                    index,
                    atomic(ordering, true, location),
                    true,
                    if x is Ok {
                        Some(new)
                    } else {
                        None
                    },
                )
            },
    {
        let space = self.space_of();
        let req = Request { kind: AccessKind::Atomic, ordering: Some(ordering), reads: true, location };
        let op = |v: T| -> (o: (Option<T>, Result<T, T>))
            ensures
                o.1 == Ok::<T, T>(v) || o.1 == Err::<T, T>(v),
                o.0 == if o.1 is Ok {
                    Some(new)
                } else {
                    None
                },
                has_equality::<T>() ==> (o.1 is Ok <==> are_equal(v, current)),
            {
                if v == current {
                    (Some(new), Ok(v))
                } else {
                    (None, Err(v))
                }
            };
        self.mem.checked_access(launch, me, space, index, req, true, op)
    }
}

impl<T: Copy> GlobalBuf<T> {
    /// Claims one element for writing, recording the access first. `Ok(true)`
    /// means that [`GlobalBuf::element_mut`] may be called.
    ///
    /// `checked` decides what an out-of-range index means: `Ok(false)` for a
    /// bounds-checked surface, or a trap for an unchecked one.
    pub fn claim(
        &mut self,
        launch: &mut LaunchState,
        me: usize,
        index: usize,
        checked: bool,
        location: Location,
    ) -> (r: Result<bool, AbortSignal>)
        requires
            old(self)@.wf(),
            old(launch).wf(),
            ready(old(launch)@, me),
        ensures
            final(self)@.wf(),
            final(self).space() == old(self).space(),
            final(launch).wf(),
            if index < old(self)@.data.len() {
                // The element keeps its value until something is written
                // through the claim.
                r == Ok::<bool, AbortSignal>(true) && accessed(
                    old(self)@,
                    final(self)@,
                    old(launch)@,
                    final(launch)@,
                    me,
                    old(self).space(),
                    index,
                    plain_write(location),
                    true,
                    Some(held(old(self)@, index)),
                )
            } else if checked {
                &&& r == Ok::<bool, AbortSignal>(false)
                &&& final(self)@ == opened(old(self)@, old(launch)@.id, true)
                &&& final(launch)@ == state::counted(old(launch)@, me as int)
            } else {
                r is Err && ran_past_end(
                    old(self)@,
                    final(self)@,
                    old(launch)@,
                    final(launch)@,
                    me,
                    old(self).space(),
                    index,
                    plain_write(location),
                    true,
                )
            },
    {
        if index >= self.mem.len() && checked {
            let id: u64 = launch.id();
            let _counted = launch.access(me, AccessKind::Write, location);
            self.mem.open(id, true);
            return Ok(false);
        }
        let space = self.space_of();
        let req = Request { kind: AccessKind::Write, ordering: None, reads: false, location };
        let op = |v: T| -> (o: (Option<T>, bool))
            ensures
                o.0 == Some(v),
                o.1,
            { (Some(v), true) };
        self.mem.checked_access(launch, me, space, index, req, true, op)
    }

    /// A claimed element, to read and to write.
    pub fn element_mut(&mut self, index: usize) -> (r: &mut T)
        requires
            old(self)@.wf(),
            index < old(self)@.data.len(),
        ensures
            *r == old(self)@.data[index as int],
            final(self)@ == (Memory {
                data: old(self)@.data.update(index as int, *final(r)),
                ..old(self)@
            }),
            final(self).space() == old(self).space(),
    {
        &mut self.mem.data[index]
    }

    /// A claimed element, to read.
    pub fn element(&self, index: usize) -> (r: &T)
        requires
            index < self@.data.len(),
        ensures
            *r == self@.data[index as int],
    {
        &self.mem.data[index]
    }
}

// ---------------------------------------------------------------- shared ---

/// A block-wide `__shared__` array.
///
/// It lives for one launch and starts uninitialised: reading an element
/// before writing it is reported.
pub struct SharedArray<T> {
    block: u32,
    name: &'static str,
    mem: Instrumented<T>,
}

impl<T> View for SharedArray<T> {
    type V = Memory<T>;

    closed spec fn view(&self) -> Memory<T> {
        self.mem@
    }
}

impl<T> SharedArray<T> {
    /// How findings name this memory.
    pub closed spec fn space(&self) -> MemSpace {
        MemSpace::Shared { block: self.block, name: self.name }
    }
}

impl<T: Copy> SharedArray<T> {
    pub fn new(block: u32, name: &'static str, len: usize) -> (r: SharedArray<T>) where T: Default
        ensures
            r@.wf(),
            exists|fill: T| #[trigger]
                call_ensures(T::default, (), fill) && r@ == untouched_memory(
                    Seq::new(len as nat, |i: int| fill),
                    false,
                ),
            r.space() == (MemSpace::Shared { block, name }),
    {
        let fill: T = T::default();
        SharedArray { block, name, mem: Instrumented::new(copies(len, fill), false) }
    }

    pub fn len(&self) -> (r: usize)
        ensures
            r == self@.data.len(),
    {
        self.mem.len()
    }

    pub fn is_empty(&self) -> (r: bool)
        ensures
            r == (self@.data.len() == 0),
    {
        self.mem.len() == 0
    }

    fn space_of(&self) -> (r: MemSpace)
        ensures
            r == self.space(),
    {
        MemSpace::Shared { block: self.block, name: self.name }
    }

    /// Reads an element.
    pub fn read(
        &mut self,
        launch: &mut LaunchState,
        me: usize,
        index: usize,
        location: Location,
    ) -> (r: Result<T, AbortSignal>)
        requires
            old(self)@.wf(),
            old(launch).wf(),
            ready(old(launch)@, me),
        ensures
            final(self)@.wf(),
            final(self).space() == old(self).space(),
            final(launch).wf(),
            if index >= old(self)@.data.len() {
                r is Err && ran_past_end(
                    old(self)@,
                    final(self)@,
                    old(launch)@,
                    final(launch)@,
                    me,
                    old(self).space(),
                    index,
                    plain_read(location),
                    false,
                )
            } else {
                r == Ok::<T, AbortSignal>(held(old(self)@, index)) && accessed(
                    old(self)@,
                    final(self)@,
                    old(launch)@,
                    final(launch)@,
                    me,
                    old(self).space(),
                    index,
                    plain_read(location),
                    false,
                    None,
                )
            },
    {
        let space = self.space_of();
        let req = Request { kind: AccessKind::Read, ordering: None, reads: true, location };
        let op = |v: T| -> (o: (Option<T>, T))
            ensures
                o.0 is None,
                o.1 == v,
            { (None, v) };
        self.mem.checked_access(launch, me, space, index, req, false, op)
    }

    /// Writes an element.
    pub fn write(
        &mut self,
        launch: &mut LaunchState,
        me: usize,
        index: usize,
        value: T,
        location: Location,
    ) -> (r: Result<(), AbortSignal>)
        requires
            old(self)@.wf(),
            old(launch).wf(),
            ready(old(launch)@, me),
        ensures
            final(self)@.wf(),
            final(self).space() == old(self).space(),
            final(launch).wf(),
            if index >= old(self)@.data.len() {
                r is Err && ran_past_end(
                    old(self)@,
                    final(self)@,
                    old(launch)@,
                    final(launch)@,
                    me,
                    old(self).space(),
                    index,
                    plain_write(location),
                    false,
                )
            } else {
                r is Ok && accessed(
                    old(self)@,
                    final(self)@,
                    old(launch)@,
                    final(launch)@,
                    me,
                    old(self).space(),
                    index,
                    plain_write(location),
                    false,
                    Some(value),
                )
            },
    {
        let space = self.space_of();
        let req = Request { kind: AccessKind::Write, ordering: None, reads: false, location };
        let op = |v: T| -> (o: (Option<T>, ()))
            ensures
                o.0 == Some(value),
            { (Some(value), ()) };
        self.mem.checked_access(launch, me, space, index, req, false, op)
    }
}

} // verus!
