//! Lane masks: sets of lanes of one warp, one bit per lane.

use vstd::prelude::*;

use crate::text::{self, push_decimal};

verus! {

/// Whether `mask` names `lane`.
pub open spec fn has_lane(mask: u32, lane: int) -> bool {
    0 <= lane < 32 && mask & (1u32 << (lane as u32)) != 0
}

/// The mask of the lanes below `n` that satisfy `member`.
pub open spec fn mask_of(member: spec_fn(int) -> bool, n: int) -> u32
    decreases n,
{
    if n <= 0 {
        0
    } else {
        let rest = mask_of(member, n - 1);
        if member(n - 1) {
            rest | (1u32 << ((n - 1) as u32))
        } else {
            rest
        }
    }
}

/// Setting one bit changes that lane and no other.
pub proof fn lemma_set_lane(mask: u32, lane: u32)
    requires
        lane < 32,
    ensures
        forall|l: int| #[trigger]
            has_lane(mask | (1u32 << lane), l) == (has_lane(mask, l) || l == lane),
{
    assert forall|l: int| #[trigger] has_lane(mask | (1u32 << lane), l) == (has_lane(mask, l) || l
        == lane) by {
        if 0 <= l < 32 {
            let k = l as u32;
            assert((mask | (1u32 << lane)) & (1u32 << k) != 0 <==> (mask & (1u32 << k) != 0 || k
                == lane)) by (bit_vector)
                requires
                    lane < 32,
                    k < 32,
            ;
        }
    }
}

/// No lane is named by the empty mask.
pub proof fn lemma_empty_mask(lane: int)
    ensures
        !has_lane(0, lane),
{
    if 0 <= lane < 32 {
        let k = lane as u32;
        assert(0u32 & (1u32 << k) == 0) by (bit_vector);
    }
}

/// A mask names exactly the lanes it was built from.
pub proof fn mask_names_its_members(member: spec_fn(int) -> bool, n: int, lane: int)
    requires
        n <= 32,
    ensures
        has_lane(mask_of(member, n), lane) == (0 <= lane < n && member(lane)),
    decreases n,
{
    if n <= 0 {
        lemma_empty_mask(lane);
    } else {
        mask_names_its_members(member, n - 1, lane);
        lemma_set_lane(mask_of(member, n - 1), (n - 1) as u32);
    }
}

/// Every mask is the mask of the lanes it names.
pub proof fn mask_is_its_lanes(mask: u32)
    ensures
        mask == mask_of(|l: int| has_lane(mask, l), 32),
{
    lemma_low_part(mask, 32);
    assert(mask & ((((1u64 << 32u32) - 1) as u64) as u32) == mask) by (bit_vector);
}

proof fn lemma_low_part(mask: u32, n: u32)
    requires
        n <= 32,
    ensures
        mask_of(|l: int| has_lane(mask, l), n as int) == mask & ((((1u64 << n) - 1) as u64) as u32),
    decreases n,
{
    if n == 0 {
        assert(mask & ((((1u64 << 0u32) - 1) as u64) as u32) == 0) by (bit_vector);
    } else {
        let k = (n - 1) as u32;
        lemma_low_part(mask, k);
        assert(mask & ((((1u64 << n) - 1) as u64) as u32) == (mask & ((((1u64 << k) - 1) as u64)
            as u32)) | (if mask & (1u32 << k) != 0 {
            1u32 << k
        } else {
            0u32
        })) by (bit_vector)
            requires
                n == k + 1,
                k < 32,
        ;
        let low = mask & ((((1u64 << k) - 1) as u64) as u32);
        assert(low | 0u32 == low) by (bit_vector);
    }
}

/// Masks of predicates that agree below `n` are equal.
pub proof fn lemma_mask_of_agrees(p: spec_fn(int) -> bool, q: spec_fn(int) -> bool, n: int)
    requires
        forall|l: int| 0 <= l < n ==> #[trigger] p(l) == q(l),
    ensures
        mask_of(p, n) == mask_of(q, n),
    decreases n,
{
    if n > 0 {
        lemma_mask_of_agrees(p, q, n - 1);
    }
}

/// Two masks that name the same lanes are the same mask.
pub proof fn masks_agree_when_lanes_do(a: u32, b: u32)
    requires
        forall|l: int| 0 <= l < 32 ==> has_lane(a, l) == has_lane(b, l),
    ensures
        a == b,
{
    mask_is_its_lanes(a);
    mask_is_its_lanes(b);
    lemma_mask_of_agrees(|l: int| has_lane(a, l), |l: int| has_lane(b, l), 32);
}

/// The mask of the first `n` lanes.
pub open spec fn low_mask(n: int) -> u32 {
    mask_of(|l: int| true, n)
}

/// Whether `mask` names `lane`.
pub fn names_lane(mask: u32, lane: u32) -> (r: bool)
    requires
        lane < 32,
    ensures
        r == has_lane(mask, lane as int),
{
    mask & (1u32 << lane) != 0
}

/// The mask naming lanes `0..n`.
pub fn first_lanes(n: u32) -> (r: u32)
    requires
        n <= 32,
    ensures
        r == low_mask(n as int),
{
    let mut mask: u32 = 0;
    let mut l: u32 = 0;
    while l < n
        invariant
            l <= n,
            n <= 32,
            mask == low_mask(l as int),
        decreases n - l,
    {
        mask = mask | (1u32 << l);
        l = l + 1;
    }
    mask
}

/// The last lane of the unbroken run of named lanes that starts at `lane`.
pub open spec fn run_end(mask: u32, lane: int) -> int
    decreases 32 - lane,
{
    if lane < 31 && has_lane(mask, lane + 1) {
        run_end(mask, lane + 1)
    } else {
        lane
    }
}

/// The runs of named lanes at or above `from`, lowest first, each as its
/// first and last lane.
pub open spec fn runs_from(mask: u32, from: int) -> Seq<(int, int)>
    decreases 33 - from,
    when 0 <= from
    via runs_from_terminates
{
    if from >= 32 {
        Seq::empty()
    } else if has_lane(mask, from) {
        seq![(from, run_end(mask, from))] + runs_from(mask, run_end(mask, from) + 1)
    } else {
        runs_from(mask, from + 1)
    }
}

#[via_fn]
proof fn runs_from_terminates(mask: u32, from: int) {
    if from < 32 {
        lemma_run_end(mask, from);
    }
}

/// A run as it is written: `3` or `0-15`.
pub open spec fn run_text(run: (int, int)) -> Seq<char> {
    if run.0 == run.1 {
        text::decimal(run.0 as nat)
    } else {
        text::decimal(run.0 as nat) + "-"@ + text::decimal(run.1 as nat)
    }
}

/// A mask as it is written: `0-15,31`, or `none`.
pub open spec fn lane_list_text(mask: u32) -> Seq<char> {
    if mask == 0 {
        "none"@
    } else {
        text::join(run_texts(runs_from(mask, 0)), ","@)
    }
}

/// Each run as it is written.
pub open spec fn run_texts(runs: Seq<(int, int)>) -> Seq<Seq<char>> {
    runs.map_values(|run: (int, int)| run_text(run))
}

proof fn lemma_run_end(mask: u32, lane: int)
    requires
        0 <= lane < 32,
    ensures
        lane <= run_end(mask, lane) < 32,
        has_lane(mask, lane) ==> forall|l: int|
            lane <= l <= run_end(mask, lane) ==> has_lane(mask, l),
        !has_lane(mask, run_end(mask, lane) + 1),
    decreases 32 - lane,
{
    if lane < 31 && has_lane(mask, lane + 1) {
        lemma_run_end(mask, lane + 1);
    }
}

/// The written runs of a mask are unbroken, in order, apart from each other,
/// and together name exactly the lanes of the mask.
pub proof fn runs_cover_the_mask(mask: u32, from: int)
    requires
        0 <= from <= 33,
        from == 0 || !has_lane(mask, from - 1),
    ensures
        forall|i: int|
            0 <= i < runs_from(mask, from).len() ==> {
                let run = #[trigger] runs_from(mask, from)[i];
                &&& from <= run.0 <= run.1 < 32
                &&& forall|l: int| run.0 <= l <= run.1 ==> has_lane(mask, l)
                &&& !has_lane(mask, run.0 - 1)
                &&& !has_lane(mask, run.1 + 1)
            },
        forall|i: int, j: int|
            0 <= i < j < runs_from(mask, from).len() ==> (#[trigger] runs_from(mask, from)[i]).1 + 1
                < (#[trigger] runs_from(mask, from)[j]).0,
        forall|l: int|
            from <= l && has_lane(mask, l) ==> exists|i: int|
                0 <= i < runs_from(mask, from).len() && (#[trigger] runs_from(mask, from)[i]).0 <= l
                    <= runs_from(mask, from)[i].1,
    decreases 33 - from,
{
    let all = runs_from(mask, from);
    if from >= 32 {
    } else if has_lane(mask, from) {
        lemma_run_end(mask, from);
        let end = run_end(mask, from);
        let rest = runs_from(mask, end + 1);
        assert(all == seq![(from, end)] + rest);
        runs_cover_the_mask(mask, end + 2);
        assert(rest == runs_from(mask, end + 2));
        assert forall|l: int| from <= l && has_lane(mask, l) implies exists|i: int|
            0 <= i < all.len() && (#[trigger] all[i]).0 <= l <= all[i].1 by {
            if l <= end {
                assert(all[0] == (from, end));
            } else {
                let k = choose|i: int|
                    0 <= i < rest.len() && (#[trigger] rest[i]).0 <= l <= rest[i].1;
                assert(all[k + 1] == rest[k]);
            }
        }
        assert forall|i: int| 0 <= i < all.len() implies {
            let run = #[trigger] all[i];
            &&& from <= run.0 <= run.1 < 32
            &&& forall|l: int| run.0 <= l <= run.1 ==> has_lane(mask, l)
            &&& !has_lane(mask, run.0 - 1)
            &&& !has_lane(mask, run.1 + 1)
        } by {
            if i > 0 {
                assert(all[i] == rest[i - 1]);
            }
        }
        assert forall|i: int, j: int| 0 <= i < j < all.len() implies (#[trigger] all[i]).1 + 1 < (
        #[trigger] all[j]).0 by {
            assert(all[j] == rest[j - 1]);
            if i > 0 {
                assert(all[i] == rest[i - 1]);
            }
        }
    } else {
        runs_cover_the_mask(mask, from + 1);
        assert(forall|l: int| from <= l && has_lane(mask, l) ==> from + 1 <= l);
    }
}

/// Renders a lane mask as a compact list, e.g. `0-15,31`.
pub fn lane_list(mask: u32) -> (r: String)
    ensures
        r@ == lane_list_text(mask),
{
    if mask == 0 {
        return "none".to_owned();
    }
    let mut out = String::new();
    let mut lane: u32 = 0;
    let mut first = true;
    let ghost mut done: Seq<Seq<char>> = Seq::empty();
    assert(out@ =~= text::join(done, ","@));
    assert(run_texts(runs_from(mask, 0)) =~= done + run_texts(runs_from(mask, 0)));
    while lane < 32
        invariant
            lane <= 33,
            run_texts(runs_from(mask, 0)) == done + run_texts(runs_from(mask, lane as int)),
            out@ == text::join(done, ","@),
            first == (done.len() == 0),
        decreases 33 - lane,
    {
        let start: u32 = lane;
        if names_lane(mask, lane) {
            while lane + 1 < 32 && names_lane(mask, lane + 1)
                invariant
                    start <= lane < 32,
                    run_end(mask, start as int) == run_end(mask, lane as int),
                decreases 32 - lane,
            {
                lane = lane + 1;
            }
            let ghost run = (start as int, lane as int);
            let ghost before = out@;
            if !first {
                out.append(",");
            }
            let ghost lead = out@;
            push_decimal(&mut out, start as u128);
            if start != lane {
                out.append("-");
                push_decimal(&mut out, lane as u128);
            }
            assert(out@ =~= lead + run_text(run));
            proof {
                lemma_run_end(mask, start as int);
                let rest = runs_from(mask, lane + 1);
                assert(run_end(mask, start as int) == lane);
                assert(runs_from(mask, start as int) == seq![run] + rest);
                assert(run_texts(seq![run] + rest) =~= seq![run_text(run)] + run_texts(rest));
                let longer = done.push(run_text(run));
                assert(done + (seq![run_text(run)] + run_texts(rest)) =~= longer + run_texts(rest));
                assert(longer.drop_last() =~= done);
                assert(out@ =~= text::join(longer, ","@));
                done = longer;
            }
            first = false;
        }
        lane = lane + 1;
    }
    proof {
        assert(run_texts(runs_from(mask, lane as int)) =~= Seq::empty());
        assert(run_texts(runs_from(mask, 0)) =~= done);
    }
    out
}

/// A mask names lane `l` exactly when its bit `l` is set, that is, when it is
/// odd after `l` halvings.
pub proof fn lanes_are_bits(mask: u32, l: u32)
    requires
        l < 32,
    ensures
        has_lane(mask, l as int) <==> (mask >> l) % 2 == 1,
        !has_lane(mask, -1),
        !has_lane(mask, 32),
{
    assert(mask & (1u32 << l) != 0 <==> (mask >> l) % 2 == 1) by (bit_vector)
        requires
            l < 32,
    ;
}

/// The mask of the first `n` lanes names those and no others.
pub proof fn low_masks_name_the_first_lanes(n: int, l: int)
    requires
        0 <= n <= 32,
    ensures
        has_lane(low_mask(n), l) <==> 0 <= l < n,
{
    mask_names_its_members(|l: int| true, n, l);
}

/// A run is written as its only lane, or as its first and its last.
pub proof fn runs_are_written_by_their_ends(first: int, last: int)
    requires
        0 <= first <= last < 32,
    ensures
        first == last ==> run_text((first, last)) == text::decimal(first as nat),
        first < last ==> run_text((first, last)) == text::decimal(first as nat) + "-"@
            + text::decimal(last as nat),
{
}

/// Taking the lanes of one mask out of another leaves those of the other alone.
pub proof fn lemma_masks_subtract(mask: u32, out: u32)
    ensures
        forall|l: int| #[trigger]
            has_lane(mask & !out, l) <==> has_lane(mask, l) && !has_lane(out, l),
{
    assert forall|l: int| #[trigger]
        has_lane(mask & !out, l) <==> has_lane(mask, l) && !has_lane(out, l) by {
        if 0 <= l < 32 {
            let k = l as u32;
            assert(((mask & !out) & (1u32 << k) != 0) <==> (mask & (1u32 << k) != 0) && (out & (1u32
                << k) == 0)) by (bit_vector);
        }
    }
}

} // verus!
