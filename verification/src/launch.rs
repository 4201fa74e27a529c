//! The shape of a launch: configuration, limits, and the waves it runs in.

use vstd::prelude::*;

use crate::dim::Dim3;
use crate::geometry::Shape;
use crate::text::{self, push_decimal};
use crate::warp::WARP_SIZE;

verus! {

/// The most threads that are resident at once. Simulated threads are real OS
/// threads, so launches are kept test-sized.
pub const MAX_THREADS: u32 = 16384;

/// Grid and block shape, warp width, residency and the scheduler seed.
#[derive(Clone, Copy, Debug)]
pub struct LaunchConfig {
    pub grid: Dim3,
    pub block: Dim3,
    pub seed: u64,
    /// Lanes per warp. Defaults to [`WARP_SIZE`].
    pub warp_size: u32,
    /// How many blocks are resident at once. All of them by default.
    pub resident: Option<u32>,
}

/// Whether a warp can have this many lanes: a power of two no greater than
/// 32.
pub open spec fn is_warp_size(lanes: u32) -> bool {
    lanes == 1 || lanes == 2 || lanes == 4 || lanes == 8 || lanes == 16 || lanes == 32
}

/// Whether a warp can have this many lanes.
pub fn valid_warp_size(lanes: u32) -> (r: bool)
    ensures
        r == is_warp_size(lanes),
{
    lanes == 1 || lanes == 2 || lanes == 4 || lanes == 8 || lanes == 16 || lanes == 32
}

impl LaunchConfig {
    pub fn new<G: Into<Dim3>, B: Into<Dim3>>(grid: G, block: B) -> (r: LaunchConfig)
        ensures
            <G as vstd::std_specs::convert::IntoSpec<Dim3>>::obeys_into_spec() ==> r.grid
                == vstd::std_specs::convert::IntoSpec::<Dim3>::into_spec(grid),
            <B as vstd::std_specs::convert::IntoSpec<Dim3>>::obeys_into_spec() ==> r.block
                == vstd::std_specs::convert::IntoSpec::<Dim3>::into_spec(block),
            r.seed == 0,
            r.warp_size == WARP_SIZE,
            r.resident is None,
    {
        LaunchConfig {
            grid: grid.into(),
            block: block.into(),
            seed: 0,
            warp_size: WARP_SIZE,
            resident: None,
        }
    }

    /// Sets the scheduler seed. Different seeds explore different
    /// interleavings; the same seed always reproduces the same one.
    pub fn seed(self, seed: u64) -> (r: LaunchConfig)
        ensures
            r == (LaunchConfig { seed, ..self }),
    {
        LaunchConfig { seed, ..self }
    }

    /// Sets the number of lanes per warp.
    ///
    /// Must be a power of two no greater than 32, since member masks are
    /// `u32`. Useful for writing small, readable warp tests; 64-lane AMD
    /// wavefronts cannot be modelled with a `u32` mask and are not supported.
    pub fn warp_size(self, lanes: u32) -> (r: LaunchConfig)
        requires
            is_warp_size(lanes),
        ensures
            r == (LaunchConfig { warp_size: lanes, ..self }),
    {
        LaunchConfig { warp_size: lanes, ..self }
    }

    /// Sets how many blocks are resident at once.
    ///
    /// By default every block is, which is the permissive reading of CUDA.
    /// With fewer the grid runs in waves, the way hardware schedules blocks,
    /// which bounds the cost of a launch and exposes kernels that assume
    /// co-residency.
    pub fn resident_blocks(self, blocks: u32) -> (r: LaunchConfig)
        requires
            blocks > 0,
        ensures
            r == (LaunchConfig { resident: Some(blocks), ..self }),
    {
        LaunchConfig { resident: Some(blocks), ..self }
    }
}

/// Why a launch cannot be run as configured.
#[derive(Clone, Copy, Debug, PartialEq, Eq, Structural)]
pub enum ConfigError {
    /// The grid or a block has no threads.
    Empty,
    /// No warp can have this many lanes.
    WarpSize { lanes: u32 },
    /// The launch has no resident blocks.
    NoResidentBlocks,
    /// The number of threads does not fit.
    TooLarge,
    /// More threads would be resident at once than [`MAX_THREADS`].
    TooManyThreads { total: u32 },
}

/// How a configuration error is worded.
pub open spec fn config_error_text(e: ConfigError) -> Seq<char> {
    match e {
        ConfigError::Empty => "riri: grid and block must be non-empty"@,
        ConfigError::WarpSize { lanes } =>
            "riri: warp size must be a power of two no greater than 32, got "@ + text::decimal(
            lanes as nat,
        ),
        ConfigError::NoResidentBlocks => "riri: at least one block must be resident"@,
        ConfigError::TooLarge => "riri: launch too large"@,
        ConfigError::TooManyThreads { total } => "riri: "@ + text::decimal(total as nat)
            + " threads exceeds the limit of "@ + text::decimal(MAX_THREADS as nat)
            + "; shrink the launch for testing"@,
    }
}

impl ConfigError {
    /// The error as it is worded.
    pub fn to_string(&self) -> (r: String)
        ensures
            r@ == config_error_text(*self),
    {
        match self {
            ConfigError::Empty => "riri: grid and block must be non-empty".to_owned(),
            ConfigError::WarpSize { lanes } => {
                let mut out =
                    "riri: warp size must be a power of two no greater than 32, got ".to_owned();
                push_decimal(&mut out, *lanes as u128);
                out
            },
            ConfigError::NoResidentBlocks => "riri: at least one block must be resident".to_owned(),
            ConfigError::TooLarge => "riri: launch too large".to_owned(),
            ConfigError::TooManyThreads { total } => {
                let mut out = "riri: ".to_owned();
                push_decimal(&mut out, *total as u128);
                out.append(" threads exceeds the limit of ");
                push_decimal(&mut out, MAX_THREADS as u128);
                out.append("; shrink the launch for testing");
                out
            },
        }
    }
}

/// Whether an extent has a size that fits.
pub open spec fn countable(d: Dim3) -> bool {
    d.x * d.y <= u32::MAX && d.volume() <= u32::MAX
}

/// How many blocks are resident at once.
pub open spec fn resident_count(c: LaunchConfig) -> int {
    match c.resident {
        Some(n) if n < c.grid.volume() => n as int,
        _ => c.grid.volume(),
    }
}

/// What is wrong with a configuration, if anything. The first problem is the
/// one reported.
pub open spec fn config_problem(c: LaunchConfig) -> Option<ConfigError> {
    if !countable(c.grid) || !countable(c.block) {
        Some(ConfigError::TooLarge)
    } else if c.grid.volume() == 0 || c.block.volume() == 0 {
        Some(ConfigError::Empty)
    } else if !is_warp_size(c.warp_size) {
        Some(ConfigError::WarpSize { lanes: c.warp_size })
    } else if c.resident == Some(0u32) {
        Some(ConfigError::NoResidentBlocks)
    } else if c.grid.volume() * c.block.volume() > u32::MAX {
        Some(ConfigError::TooLarge)
    } else if resident_count(c) * c.block.volume() > MAX_THREADS {
        Some(
            ConfigError::TooManyThreads { total: (resident_count(c) * c.block.volume()) as u32 },
        )
    } else {
        None
    }
}

/// A launch that can be run: how many blocks of how many threads, and how
/// many of the blocks at once.
#[derive(Clone, Copy, Debug, PartialEq, Eq, Structural)]
pub struct Plan {
    pub blocks: u32,
    pub threads: u32,
    pub warp_size: u32,
    pub resident: u32,
}

impl Plan {
    pub open spec fn wf(self) -> bool {
        &&& 0 < self.resident <= self.blocks
        &&& 0 < self.threads
        &&& is_warp_size(self.warp_size)
        &&& self.blocks * self.threads <= u32::MAX
        &&& self.resident * self.threads <= MAX_THREADS
    }
}

/// The plan of a configuration.
pub open spec fn plan_of(c: LaunchConfig) -> Plan {
    Plan {
        blocks: c.grid.volume() as u32,
        threads: c.block.volume() as u32,
        warp_size: c.warp_size,
        resident: resident_count(c) as u32,
    }
}

/// The plan of a configuration that can be run is well formed.
pub proof fn lemma_plan_wf(c: LaunchConfig)
    requires
        config_problem(c) is None,
    ensures
        plan_of(c).wf(),
{
}

impl LaunchConfig {
    /// The plan of this configuration, or why it cannot be run.
    pub fn plan(&self) -> (r: Result<Plan, ConfigError>)
        ensures
            match config_problem(*self) {
                Some(e) => r == Err::<Plan, ConfigError>(e),
                None => r == Ok::<Plan, ConfigError>(plan_of(*self)) && plan_of(*self).wf(),
            },
    {
        let blocks: u32 = match self.grid.checked_count() {
            Some(n) => n,
            None => return Err(ConfigError::TooLarge),
        };
        let threads: u32 = match self.block.checked_count() {
            Some(n) => n,
            None => return Err(ConfigError::TooLarge),
        };
        if blocks == 0 || threads == 0 {
            return Err(ConfigError::Empty);
        }
        if !valid_warp_size(self.warp_size) {
            return Err(ConfigError::WarpSize { lanes: self.warp_size });
        }
        let resident: u32 = match self.resident {
            Some(n) => {
                if n == 0 {
                    return Err(ConfigError::NoResidentBlocks);
                }
                if n < blocks {
                    n
                } else {
                    blocks
                }
            },
            None => blocks,
        };
        if blocks.checked_mul(threads).is_none() {
            return Err(ConfigError::TooLarge);
        }
        proof {
            assert(resident * threads <= blocks * threads) by (nonlinear_arith)
                requires
                    resident <= blocks,
            ;
        }
        let total: u32 = resident * threads;
        if total > MAX_THREADS {
            return Err(ConfigError::TooManyThreads { total });
        }
        Ok(Plan { blocks, threads, warp_size: self.warp_size, resident })
    }
}

// --------------------------------------------------------------- waves ---

/// A run of blocks that are resident together.
#[derive(Clone, Copy, Debug, PartialEq, Eq, Structural)]
pub struct Wave {
    /// The first block of the wave.
    pub first: u32,
    pub blocks: u32,
}

impl Plan {
    /// The wave that starts at block `first`: as many blocks as can be
    /// resident, or all that are left.
    pub open spec fn wave_at(self, first: u32) -> Wave {
        Wave {
            first,
            blocks: if self.blocks - first < self.resident {
                (self.blocks - first) as u32
            } else {
                self.resident
            },
        }
    }

    /// The wave after the one that ended before block `first`, or `None` once
    /// every block has run.
    pub fn next_wave(&self, first: u32) -> (r: Option<Wave>)
        requires
            self.wf(),
            first <= self.blocks,
        ensures
            r == if first < self.blocks {
                Some(self.wave_at(first))
            } else {
                None
            },
            r matches Some(w) ==> 0 < w.blocks && w.first + w.blocks <= self.blocks,
    {
        if first >= self.blocks {
            return None;
        }
        let left: u32 = self.blocks - first;
        Some(
            Wave {
                first,
                blocks: if left < self.resident {
                    left
                } else {
                    self.resident
                },
            },
        )
    }

    /// Whether the whole grid is resident at once.
    pub fn is_single_wave(&self) -> (r: bool)
        ensures
            r == (self.resident == self.blocks),
    {
        self.resident == self.blocks
    }

    /// The threads of a wave, as the scheduler groups them.
    pub fn shape(&self, wave: &Wave) -> (r: Shape)
        requires
            self.wf(),
            0 < wave.blocks <= self.resident,
        ensures
            r == (Shape {
                blocks: wave.blocks as usize,
                threads: self.threads as usize,
                warp_size: self.warp_size as usize,
            }),
            r.wf(),
    {
        proof {
            assert(wave.blocks * self.threads <= self.resident * self.threads) by (nonlinear_arith)
                requires
                    wave.blocks <= self.resident,
            ;
        }
        Shape {
            blocks: wave.blocks as usize,
            threads: self.threads as usize,
            warp_size: self.warp_size as usize,
        }
    }
}

/// The waves from block `first` on.
pub open spec fn waves_from(plan: Plan, first: u32) -> Seq<Wave>
    decreases plan.blocks - first,
{
    if !plan.wf() || first >= plan.blocks {
        Seq::empty()
    } else {
        let wave = plan.wave_at(first);
        seq![wave] + waves_from(plan, (first + wave.blocks) as u32)
    }
}

/// Whether one of the waves runs block `b`.
pub open spec fn runs_in_some(waves: Seq<Wave>, b: u32) -> bool {
    exists|i: int|
        0 <= i < waves.len() && (#[trigger] waves[i]).first <= b < waves[i].first + waves[i].blocks
}

/// The waves run every block exactly once and in order, never with more than
/// the resident blocks at once.
pub proof fn waves_run_every_block_once(plan: Plan, first: u32)
    requires
        plan.wf(),
        first <= plan.blocks,
    ensures
        forall|i: int|
            0 <= i < waves_from(plan, first).len() ==> {
                let w = #[trigger] waves_from(plan, first)[i];
                &&& 0 < w.blocks <= plan.resident
                &&& first <= w.first
                &&& w.first + w.blocks <= plan.blocks
            },
        forall|i: int, j: int|
            0 <= i < j < waves_from(plan, first).len() ==> (#[trigger] waves_from(
                plan,
                first,
            )[i]).first + waves_from(plan, first)[i].blocks <= (#[trigger] waves_from(
                plan,
                first,
            )[j]).first,
        forall|b: u32|
            first <= b < plan.blocks ==> #[trigger] runs_in_some(waves_from(plan, first), b),
    decreases plan.blocks - first,
{
    if first < plan.blocks {
        let wave = plan.wave_at(first);
        let next = (first + wave.blocks) as u32;
        let rest = waves_from(plan, next);
        let all = waves_from(plan, first);
        waves_run_every_block_once(plan, next);
        assert(all == seq![wave] + rest);
        assert forall|i: int| 0 <= i < all.len() implies {
            let w = #[trigger] all[i];
            &&& 0 < w.blocks <= plan.resident
            &&& first <= w.first
            &&& w.first + w.blocks <= plan.blocks
        } by {
            if i > 0 {
                assert(all[i] == rest[i - 1]);
            }
        }
        assert forall|i: int, j: int| 0 <= i < j < all.len() implies (#[trigger] all[i]).first
            + all[i].blocks <= (#[trigger] all[j]).first by {
            assert(all[j] == rest[j - 1]);
            if i > 0 {
                assert(all[i] == rest[i - 1]);
            }
        }
        assert forall|b: u32| first <= b < plan.blocks implies #[trigger] runs_in_some(all, b) by {
            if b < next {
                assert(all[0] == wave);
            } else {
                assert(runs_in_some(rest, b));
                let k = choose|i: int|
                    0 <= i < rest.len() && (#[trigger] rest[i]).first <= b < rest[i].first
                        + rest[i].blocks;
                assert(all[k + 1] == rest[k]);
            }
        }
    }
}

/// Setting the residency to the whole grid is the same as not setting it.
pub proof fn full_residency_is_the_default(c: LaunchConfig, n: u32)
    requires
        c.grid.volume() <= n,
        n > 0,
    ensures
        ({
            let set = LaunchConfig { resident: Some(n), ..c };
            let unset = LaunchConfig { resident: None, ..c };
            config_problem(set) == config_problem(unset) && plan_of(set) == plan_of(unset)
        }),
{
}

/// A warp has a power of two of lanes, at most 32, which is how many it has
/// unless told otherwise.
pub proof fn warps_have_a_power_of_two_of_lanes(lanes: u32)
    ensures
        WARP_SIZE == 32,
        is_warp_size(WARP_SIZE),
        is_warp_size(lanes) <==> exists|k: u32| k <= 5 && #[trigger] (1u32 << k) == lanes,
{
    assert(1u32 << 0u32 == 1 && 1u32 << 1u32 == 2 && 1u32 << 2u32 == 4 && 1u32 << 3u32 == 8 && 1u32
        << 4u32 == 16 && 1u32 << 5u32 == 32) by (bit_vector);
    if exists|k: u32| k <= 5 && #[trigger] (1u32 << k) == lanes {
        let k = choose|k: u32| k <= 5 && #[trigger] (1u32 << k) == lanes;
        assert(k == 0 || k == 1 || k == 2 || k == 3 || k == 4 || k == 5);
    }
}

/// A configuration can be run exactly when its grid and its block have threads,
/// its warps have a power of two of at most 32 lanes, some block is resident,
/// the threads can be numbered, and no more than 16384 are resident at once.
pub proof fn what_can_be_launched(c: LaunchConfig)
    requires
        c.grid.x * c.grid.y <= u32::MAX,
        c.block.x * c.block.y <= u32::MAX,
    ensures
        ({
            let blocks = c.grid.x * c.grid.y * c.grid.z;
            let threads = c.block.x * c.block.y * c.block.z;
            let resident = match c.resident {
                Some(n) => if n < blocks {
                    n as int
                } else {
                    blocks
                },
                None => blocks,
            };
            config_problem(c) is None <==> {
                &&& blocks > 0 && threads > 0
                &&& exists|k: u32| k <= 5 && #[trigger] (1u32 << k) == c.warp_size
                &&& c.resident != Some(0u32)
                &&& blocks * threads <= u32::MAX
                &&& resident * threads <= 16384
            }
        }),
{
    warps_have_a_power_of_two_of_lanes(c.warp_size);
    let blocks = c.grid.volume();
    let threads = c.block.volume();
    assert(0 <= blocks) by (nonlinear_arith)
        requires
            blocks == c.grid.x * c.grid.y * c.grid.z,
    ;
    assert(0 <= threads) by (nonlinear_arith)
        requires
            threads == c.block.x * c.block.y * c.block.z,
    ;
    if blocks > 0 && threads > 0 && blocks * threads <= u32::MAX {
        assert(blocks <= u32::MAX && threads <= u32::MAX) by (nonlinear_arith)
            requires
                blocks > 0,
                threads > 0,
                blocks * threads <= u32::MAX,
        ;
    }
}

/// Each complaint about a configuration is about what it says.
pub proof fn config_errors_are_true(c: LaunchConfig)
    ensures
        config_problem(c) == Some(ConfigError::Empty) ==> c.grid.volume() == 0 || c.block.volume()
            == 0,
        config_problem(c) matches Some(ConfigError::WarpSize { lanes }) ==> lanes == c.warp_size
            && !is_warp_size(lanes),
        config_problem(c) == Some(ConfigError::NoResidentBlocks) ==> c.resident == Some(0u32),
        config_problem(c) matches Some(ConfigError::TooManyThreads { total }) ==> total > 16384
            && total <= c.grid.volume() * c.block.volume(),
        config_problem(c) == Some(ConfigError::TooLarge) ==> c.grid.x * c.grid.y > u32::MAX
            || c.block.x * c.block.y > u32::MAX || c.grid.volume() > u32::MAX || c.block.volume()
            > u32::MAX || c.grid.volume() * c.block.volume() > u32::MAX,
{
    let (b, t, n) = (c.grid.volume(), c.block.volume(), resident_count(c));
    assert(0 <= b) by (nonlinear_arith)
        requires
            b == c.grid.x * c.grid.y * c.grid.z,
    ;
    assert(0 <= t) by (nonlinear_arith)
        requires
            t == c.block.x * c.block.y * c.block.z,
    ;
    assert(0 <= n * t <= b * t) by (nonlinear_arith)
        requires
            0 <= n <= b,
            0 <= t,
    ;
}

/// The plan of a configuration runs all its blocks with all their threads, as
/// many at once as asked for, or as there are.
pub proof fn plans_run_the_whole_grid(c: LaunchConfig)
    requires
        config_problem(c) is None,
    ensures
        plan_of(c).blocks == c.grid.x * c.grid.y * c.grid.z,
        plan_of(c).threads == c.block.x * c.block.y * c.block.z,
        plan_of(c).warp_size == c.warp_size,
        plan_of(c).resident <= plan_of(c).blocks,
        c.resident is None ==> plan_of(c).resident == plan_of(c).blocks,
        c.resident matches Some(n) ==> plan_of(c).resident == if n < plan_of(c).blocks {
            n
        } else {
            plan_of(c).blocks
        },
{
}

/// A wave starts where it is asked to and has as many blocks as may be
/// resident, or all that are left if those are fewer.
pub proof fn waves_are_as_large_as_can_be(plan: Plan, first: u32)
    requires
        plan.wf(),
        first < plan.blocks,
    ensures
        plan.wave_at(first).first == first,
        plan.wave_at(first).blocks <= plan.resident,
        first + plan.wave_at(first).blocks <= plan.blocks,
        plan.wave_at(first).blocks == plan.resident || first + plan.wave_at(first).blocks
            == plan.blocks,
{
}

/// A configuration with several problems is refused for the first of them: it
/// has no threads, then its warps, then its residency, then the number of its
/// threads, then how many of them are resident.
pub proof fn problems_are_named_in_order(c: LaunchConfig)
    requires
        c.grid.x * c.grid.y <= u32::MAX,
        c.block.x * c.block.y <= u32::MAX,
        c.grid.x * c.grid.y * c.grid.z <= u32::MAX,
        c.block.x * c.block.y * c.block.z <= u32::MAX,
    ensures
        ({
            let blocks = c.grid.x * c.grid.y * c.grid.z;
            let threads = c.block.x * c.block.y * c.block.z;
            let some = blocks != 0 && threads != 0;
            let warps = exists|k: u32| k <= 5 && #[trigger] (1u32 << k) == c.warp_size;
            let fewer = c.resident is Some && c.resident->0 < blocks;
            &&& !some ==> config_problem(c) == Some(ConfigError::Empty)
            &&& some && !warps ==> config_problem(c) == Some(
                ConfigError::WarpSize { lanes: c.warp_size },
            )
            &&& some && warps && c.resident == Some(0u32) ==> config_problem(c) == Some(
                ConfigError::NoResidentBlocks,
            )
            &&& some && warps && c.resident != Some(0u32) && blocks * threads > u32::MAX
                ==> config_problem(c) == Some(ConfigError::TooLarge)
            &&& some && warps && c.resident != Some(0u32) && blocks * threads <= u32::MAX && !fewer
                && blocks * threads > 16384 ==> config_problem(c) == Some(
                ConfigError::TooManyThreads { total: (blocks * threads) as u32 },
            )
            &&& some && warps && c.resident != Some(0u32) && blocks * threads <= u32::MAX && fewer
                && c.resident->0 * threads > 16384 ==> config_problem(c) == Some(
                ConfigError::TooManyThreads { total: (c.resident->0 * threads) as u32 },
            )
        }),
{
    warps_have_a_power_of_two_of_lanes(c.warp_size);
}

/// An extent too large to count is refused before anything else.
pub proof fn large_extents_are_refused_first(c: LaunchConfig)
    requires
        c.grid.x * c.grid.y > u32::MAX || c.block.x * c.block.y > u32::MAX || c.grid.x * c.grid.y
            * c.grid.z > u32::MAX || c.block.x * c.block.y * c.block.z > u32::MAX,
    ensures
        config_problem(c) == Some(ConfigError::TooLarge),
{
}

/// What a refused configuration is told names the number it is refused for.
pub proof fn refusals_name_the_number(n: u32)
    ensures
        exists|a: Seq<char>|
            config_error_text(ConfigError::WarpSize { lanes: n }) == #[trigger] (a + text::decimal(
                n as nat,
            )),
        exists|a: Seq<char>, b: Seq<char>|
            config_error_text(ConfigError::TooManyThreads { total: n }) == #[trigger] (a
                + text::decimal(n as nat) + " threads exceeds the limit of "@ + text::decimal(16384)
                + b),
{
    let a = "riri: warp size must be a power of two no greater than 32, got "@;
    assert(config_error_text(ConfigError::WarpSize { lanes: n }) == a + text::decimal(n as nat));
    let c = "riri: "@;
    let d = "; shrink the launch for testing"@;
    assert(config_error_text(ConfigError::TooManyThreads { total: n }) == c + text::decimal(
        n as nat,
    ) + " threads exceeds the limit of "@ + text::decimal(16384) + d);
}

} // verus!
