# riri

A Miri-style undefined-behaviour detector for GPU kernels written in Rust. It
runs SIMT kernels on the CPU and reports which line broke which rule,
reproducibly, with no GPU involved. The part that decides anything is verified
with Verus.

```
kernel -> simulated threads -> seeded scheduler -> shadow memory -> diagnostics
```

## Layout

- `src/` is the verified library. It never blocks and starts no threads: an
  operation of a simulated thread is a call that says whether the thread may go
  on, has to wait for the turn, or has to unwind.
- `app/` runs kernels on operating-system threads on top of it.
  `app/riri_mir.rs` is the root of the compiler driver, which needs a nightly
  with `rustc-dev`.
- `tests/` runs whole kernels one simulated thread at a time.

## What is proved

Every operation has an exact contract over a mathematical model of the launch:
`machine::Machine` for the scheduler, `sync::Clocks` for what threads know of
each other, `shadow::History` for what happened to an element, and
`state::Running` for all of it together. On top of those stand laws:

- `schedule_laws`: no launch hangs, a wedged launch is reported, nobody passes
  a barrier or a rendezvous alone, and a recorded schedule replays its run.
- `launch_laws`: a seed fixes a whole launch, its findings and the values it
  leaves behind, and a recording reproduces them with no seed.
- `sync` and `shadow`: what orders two accesses and what does not, and that a
  handoff by release and acquire or by fences is one.
- `memory_laws`: memory holds what was last stored, unwritten reads and
  unordered conflicts are reported, and messages passed between blocks, by
  release and acquire or by fences, are not.
- `race_laws`, `launch_races` and `launch_order`: of all that a launch ever does
  to an element, two accesses that nothing orders put a race on that element in
  the report, whichever interleaving the seed happened to produce, and no
  access is reported against one that it is ordered after.
- `warp`: votes, shuffles, and that nobody reads before all have published.
- `explore`: a shrunk schedule reproduces the finding it was shrunk for.
- `mir`: interpreted arithmetic is exact, and overflow is caught.
