//! Which findings are the same, which are kept, and what a fingerprint says.

use vstd::prelude::*;

use crate::diag::{self, Access, Diagnostic, Findings, LaneProblem, MemSpace};
use crate::lanes;
use crate::location::{self, Place};
use crate::text;

verus! {

// ------------------------------------------------------------ identity ---

/// Whether two pairs are of the same two places, in whichever order.
pub open spec fn same_pair(a: Place, b: Place, c: Place, d: Place) -> bool {
    (a == c && b == d) || (a == d && b == c)
}

/// Two races are the same finding exactly when they are about the same two
/// places, whatever the memory, the element, the threads and the order.
pub proof fn races_are_told_apart_by_their_two_places(
    space: MemSpace,
    index: usize,
    first: Access,
    second: Access,
    other_space: MemSpace,
    other_index: usize,
    other_first: Access,
    other_second: Access,
)
    ensures
        diag::key_of(Diagnostic::DataRace { space, index, first, second }) == diag::key_of(
            Diagnostic::DataRace {
                space: other_space,
                index: other_index,
                first: other_first,
                second: other_second,
            },
        ) <==> same_pair(
            first.location@,
            second.location@,
            other_first.location@,
            other_second.location@,
        ),
{
    location::place_order_is_total(first.location@, second.location@);
    location::place_order_is_total(other_first.location@, other_second.location@);
}

/// Whether two findings say the same: they are of one kind and about the same
/// place or pair of places, in the same block if they are about a barrier, in
/// the same warp if they are about who takes part in a collective, and with
/// the same problem or the same message where there is one.
pub open spec fn say_the_same(one: Diagnostic, other: Diagnostic) -> bool {
    match one {
        Diagnostic::DataRace { first: a, second: b, .. } => match other {
            Diagnostic::DataRace { first: c, second: d, .. } => same_pair(
                a.location@,
                b.location@,
                c.location@,
                d.location@,
            ),
            _ => false,
        },
        Diagnostic::UninitRead { access: a, .. } => match other {
            Diagnostic::UninitRead { access: b, .. } => a.location@ == b.location@,
            _ => false,
        },
        Diagnostic::OutOfBounds { access: a, .. } => match other {
            Diagnostic::OutOfBounds { access: b, .. } => a.location@ == b.location@,
            _ => false,
        },
        Diagnostic::BarrierDivergence { block: x, barrier: a, .. } => match other {
            Diagnostic::BarrierDivergence { block: y, barrier: b, .. } => x == y && a@ == b@,
            _ => false,
        },
        Diagnostic::WarpDivergence { block: x, warp: v, at: a, .. } => match other {
            Diagnostic::WarpDivergence { block: y, warp: w, at: b, .. } => x == y && v == w && a@
                == b@,
            _ => false,
        },
        Diagnostic::WarpMaskMismatch { block: x, warp: v, at: a, .. } => match other {
            Diagnostic::WarpMaskMismatch { block: y, warp: w, at: b, .. } => x == y && v == w && a@
                == b@,
            _ => false,
        },
        Diagnostic::WarpLaneError { problem: p, at: a, .. } => match other {
            Diagnostic::WarpLaneError { problem: q, at: b, .. } => p == q && a@ == b@,
            _ => false,
        },
        Diagnostic::KernelPanic { message: a, .. } => match other {
            Diagnostic::KernelPanic { message: b, .. } => a@ == b@,
            _ => false,
        },
    }
}

/// Findings share a key exactly when they say the same.
pub proof fn keys_tell_findings_apart(one: Diagnostic, other: Diagnostic)
    ensures
        diag::key_of(one) == diag::key_of(other) <==> say_the_same(one, other),
{
    if let (
        Diagnostic::DataRace { space, index, first: a, second: b },
        Diagnostic::DataRace { space: s, index: i, first: c, second: d },
    ) = (one, other) {
        races_are_told_apart_by_their_two_places(space, index, a, b, s, i, c, d);
    }
}

// ---------------------------------------------------------- what is kept ---

/// The key of every finding kept is known, and no other key is.
proof fn lemma_keys_are_those_of_the_kept(ds: Seq<Diagnostic>)
    ensures
        ({
            let f = diag::reported_all(diag::no_findings(), ds);
            &&& f.keys.len() == f.kept.len()
            &&& f.kept.len() <= 64
            &&& forall|i: int|
                0 <= i < f.kept.len() ==> f.keys[i] == diag::key_of(#[trigger] f.kept[i])
        }),
    decreases ds.len(),
{
    if ds.len() > 0 {
        lemma_keys_are_those_of_the_kept(ds.drop_last());
    }
}

/// A launch keeps a finding unless it says the same as one it has kept, or has
/// kept 64 already; what it kept before stays, in the order it was reported.
pub proof fn each_finding_is_kept_once(ds: Seq<Diagnostic>, d: Diagnostic)
    ensures
        ({
            let before = diag::reported_all(diag::no_findings(), ds).kept;
            let after = diag::reported_all(diag::no_findings(), ds.push(d)).kept;
            let repeats = exists|i: int|
                0 <= i < before.len() && say_the_same(#[trigger] before[i], d);
            &&& before.len() < 64 && !repeats ==> after == before.push(d)
            &&& before.len() >= 64 || repeats ==> after == before
            &&& after.len() <= 64
        }),
{
    let f = diag::reported_all(diag::no_findings(), ds);
    let k = diag::key_of(d);
    assert(ds.push(d).drop_last() =~= ds);
    lemma_keys_are_those_of_the_kept(ds);
    assert forall|i: int| 0 <= i < f.kept.len() implies (f.keys[i] == k <==> say_the_same(
        #[trigger] f.kept[i],
        d,
    )) by {
        keys_tell_findings_apart(f.kept[i], d);
    }
    if f.keys.contains(k) {
        let i = choose|i: int| 0 <= i < f.keys.len() && f.keys[i] == k;
        assert(say_the_same(f.kept[i], d));
    }
}

/// A finding that was taken out of the reporter is not reported again, and
/// neither is one that says the same.
pub proof fn taken_findings_are_not_reported_again(
    ds: Seq<Diagnostic>,
    d: Diagnostic,
    again: Diagnostic,
)
    requires
        diag::reported_all(diag::no_findings(), ds).kept.contains(d),
        say_the_same(d, again),
    ensures
        ({
            let f = diag::reported_all(diag::no_findings(), ds);
            let taken = Findings { kept: Seq::empty(), keys: f.keys };
            diag::reported(taken, again) == taken && diag::reported(f, again) == f
        }),
{
    let f = diag::reported_all(diag::no_findings(), ds);
    lemma_keys_are_those_of_the_kept(ds);
    keys_tell_findings_apart(d, again);
    let i = choose|i: int| 0 <= i < f.kept.len() && f.kept[i] == d;
    assert(f.keys[i] == diag::key_of(again));
}

// -------------------------------------------------------- fingerprints ---

/// Whether the names in a finding keep clear of the characters that separate
/// the parts of a fingerprint.
pub open spec fn has_plain_names(d: Diagnostic) -> bool {
    match d {
        Diagnostic::DataRace { first, second, .. } => !first.location@.file.contains('~')
            && !second.location@.file.contains('~'),
        Diagnostic::WarpDivergence { op, .. } => !op@.contains('@'),
        Diagnostic::WarpMaskMismatch { op, .. } => !op@.contains('@'),
        Diagnostic::WarpLaneError { op, .. } => !op@.contains(':'),
        _ => true,
    }
}

proof fn lemma_place_without(p: Place, c: char)
    requires
        !p.file.contains(c),
        c != ':',
        !('0' <= c && c <= '9'),
    ensures
        !location::place_text(p).contains(c),
{
    reveal_strlit(":");
    text::decimals_read_back(p.line as nat);
    let whole = location::place_text(p);
    let n = p.file.len() as int;
    if whole.contains(c) {
        let i = choose|i: int| 0 <= i < whole.len() && whole[i] == c;
        if i < n {
            assert(p.file[i] == c);
        } else if i > n {
            assert(text::decimal(p.line as nat)[i - n - 1] == c);
        }
    }
}

/// What follows a common lead is the same where the whole is.
proof fn lemma_after_lead(lead: Seq<char>, a: Seq<char>, b: Seq<char>)
    requires
        lead + a == lead + b,
    ensures
        a == b,
{
    assert(a =~= (lead + a).skip(lead.len() as int));
    assert(b =~= (lead + b).skip(lead.len() as int));
}

proof fn lemma_race_fingerprints(one: Diagnostic, other: Diagnostic)
    requires
        one is DataRace,
        other is DataRace,
        has_plain_names(one),
        has_plain_names(other),
        diag::fingerprint_text(one) == diag::fingerprint_text(other),
    ensures
        diag::same_complaint(one, other),
{
    if let (
        Diagnostic::DataRace { first: a, second: b, .. },
        Diagnostic::DataRace { first: c, second: d, .. },
    ) = (one, other) {
        let (p, q) = diag::in_order(a.location@, b.location@);
        let (r, s) = diag::in_order(c.location@, d.location@);
        let (x, y) = (location::place_text(p), location::place_text(q));
        let (z, w) = (location::place_text(r), location::place_text(s));
        reveal_strlit("~");
        assert(diag::fingerprint_text(one) =~= "race@"@ + (x.push('~') + y));
        assert(diag::fingerprint_text(other) =~= "race@"@ + (z.push('~') + w));
        lemma_after_lead("race@"@, x.push('~') + y, z.push('~') + w);
        lemma_place_without(p, '~');
        lemma_place_without(r, '~');
        text::lemma_split_at_first(x, y, z, w, '~');
        location::names_tell_lines_apart(p, r);
        location::names_tell_lines_apart(q, s);
    }
}

/// The parts of a fingerprint that names a collective.
proof fn lemma_collective_fingerprints(
    lead: Seq<char>,
    op: Seq<char>,
    at: Place,
    other_op: Seq<char>,
    other_at: Place,
)
    requires
        lead + op + "@"@ + location::place_text(at) == lead + other_op + "@"@
            + location::place_text(other_at),
        !op.contains('@'),
        !other_op.contains('@'),
    ensures
        op == other_op,
        location::same_line(at, other_at),
{
    reveal_strlit("@");
    let (x, y) = (location::place_text(at), location::place_text(other_at));
    assert(lead + op + "@"@ + x =~= lead + (op.push('@') + x));
    assert(lead + other_op + "@"@ + y =~= lead + (other_op.push('@') + y));
    lemma_after_lead(lead, op.push('@') + x, other_op.push('@') + y);
    text::lemma_split_at_first(op, x, other_op, y, '@');
    location::names_tell_lines_apart(at, other_at);
}

proof fn lemma_problem_kind_plain(p: LaneProblem)
    ensures
        !diag::problem_kind(p).contains('@'),
{
    reveal_strlit("caller-not-in-mask");
    reveal_strlit("mask-outside-block");
    reveal_strlit("source-lane-not-in-mask");
}

proof fn lemma_lane_fingerprints(one: Diagnostic, other: Diagnostic)
    requires
        one is WarpLaneError,
        other is WarpLaneError,
        has_plain_names(one),
        has_plain_names(other),
        diag::fingerprint_text(one) == diag::fingerprint_text(other),
    ensures
        diag::same_complaint(one, other),
{
    if let (
        Diagnostic::WarpLaneError { op: a, at, problem: p, .. },
        Diagnostic::WarpLaneError { op: b, at: there, problem: q, .. },
    ) = (one, other) {
        reveal_strlit(":");
        reveal_strlit("@");
        let lead = "warp-lane-error:"@;
        let (x, y) = (location::place_text(at@), location::place_text(there@));
        let (k, l) = (diag::problem_kind(p), diag::problem_kind(q));
        let (u, v) = (k.push('@') + x, l.push('@') + y);
        assert(diag::fingerprint_text(one) =~= lead + (a@.push(':') + u));
        assert(diag::fingerprint_text(other) =~= lead + (b@.push(':') + v));
        lemma_after_lead(lead, a@.push(':') + u, b@.push(':') + v);
        text::lemma_split_at_first(a@, u, b@, v, ':');
        lemma_problem_kind_plain(p);
        lemma_problem_kind_plain(q);
        text::lemma_split_at_first(k, x, l, y, '@');
        location::names_tell_lines_apart(at@, there@);
    }
}

/// A fingerprint says what the bug is: findings share one only if they are of
/// one kind and about the same line or pair of lines, with the same collective,
/// problem or message where there is one. The names in them must not hold the
/// characters that separate the parts of a fingerprint.
pub proof fn fingerprints_tell_complaints_apart(one: Diagnostic, other: Diagnostic)
    requires
        has_plain_names(one),
        has_plain_names(other),
        diag::fingerprint_text(one) == diag::fingerprint_text(other),
    ensures
        diag::same_complaint(one, other),
{
    if !diag::same_kind(one, other) {
        diag::fingerprints_tell_kinds_apart(one, other);
    }
    match (one, other) {
        (Diagnostic::DataRace { .. }, Diagnostic::DataRace { .. }) => {
            lemma_race_fingerprints(one, other);
        },
        (
            Diagnostic::UninitRead { access: a, .. },
            Diagnostic::UninitRead { access: b, .. },
        ) => {
            let (x, y) = (a.location@, b.location@);
            lemma_after_lead("uninit@"@, location::place_text(x), location::place_text(y));
            location::names_tell_lines_apart(x, y);
        },
        (
            Diagnostic::OutOfBounds { access: a, .. },
            Diagnostic::OutOfBounds { access: b, .. },
        ) => {
            let (x, y) = (a.location@, b.location@);
            lemma_after_lead("oob@"@, location::place_text(x), location::place_text(y));
            location::names_tell_lines_apart(x, y);
        },
        (
            Diagnostic::BarrierDivergence { barrier: a, .. },
            Diagnostic::BarrierDivergence { barrier: b, .. },
        ) => {
            lemma_after_lead("barrier@"@, location::place_text(a@), location::place_text(b@));
            location::names_tell_lines_apart(a@, b@);
        },
        (
            Diagnostic::WarpDivergence { op: a, at, .. },
            Diagnostic::WarpDivergence { op: b, at: there, .. },
        ) => {
            lemma_collective_fingerprints("warp-divergence:"@, a@, at@, b@, there@);
        },
        (
            Diagnostic::WarpMaskMismatch { op: a, at, .. },
            Diagnostic::WarpMaskMismatch { op: b, at: there, .. },
        ) => {
            lemma_collective_fingerprints("warp-mask-mismatch:"@, a@, at@, b@, there@);
        },
        (Diagnostic::WarpLaneError { .. }, Diagnostic::WarpLaneError { .. }) => {
            lemma_lane_fingerprints(one, other);
        },
        (
            Diagnostic::KernelPanic { message: a, .. },
            Diagnostic::KernelPanic { message: b, .. },
        ) => {
            lemma_after_lead("panic:"@, a@, b@);
        },
        _ => {},
    }
}

/// The kinds of lane problems have names of their own.
pub proof fn lane_problems_are_named_apart(valid: u32, src: u32)
    ensures
        diag::problem_kind(LaneProblem::CallerNotInMask) != diag::problem_kind(
            LaneProblem::MaskOutsideBlock { valid },
        ),
        diag::problem_kind(LaneProblem::CallerNotInMask) != diag::problem_kind(
            LaneProblem::SourceLaneNotInMask { src },
        ),
        diag::problem_kind(LaneProblem::MaskOutsideBlock { valid }) != diag::problem_kind(
            LaneProblem::SourceLaneNotInMask { src },
        ),
{
    reveal_strlit("caller-not-in-mask");
    reveal_strlit("mask-outside-block");
    reveal_strlit("source-lane-not-in-mask");
    assert("caller-not-in-mask"@[0] == 'c');
    assert("mask-outside-block"@[0] == 'm');
    assert("source-lane-not-in-mask"@[0] == 's');
}

// -------------------------------------------------------------- listings ---

/// Findings are listed one after the other in the order they were reported: a
/// list of two parts is written as the one part and then the other.
pub proof fn listings_keep_the_order(a: Seq<Diagnostic>, b: Seq<Diagnostic>)
    ensures
        diag::finding_lines(a + b) == diag::finding_lines(a) + diag::finding_lines(b),
        a.len() > 0 ==> diag::finding_lines(a).len() > diag::diagnostic_text(a[0]).len(),
        a.len() == 0 ==> diag::finding_lines(a).len() == 0,
    decreases b.len(),
{
    if b.len() == 0 {
        assert(a + b =~= a);
        assert(diag::finding_lines(a) + diag::finding_lines(b) =~= diag::finding_lines(a));
        if a.len() > 0 {
            lemma_lines_hold_the_first(a);
        }
    } else {
        listings_keep_the_order(a, b.drop_last());
        assert((a + b).drop_last() =~= a + b.drop_last());
        assert((a + b).last() == b.last());
        assert(diag::finding_lines(a + b) =~= diag::finding_lines(a) + diag::finding_lines(b));
    }
}

proof fn lemma_lines_hold_the_first(a: Seq<Diagnostic>)
    requires
        a.len() > 0,
    ensures
        diag::finding_lines(a).len() > diag::diagnostic_text(a[0]).len(),
    decreases a.len(),
{
    reveal_strlit("  - ");
    if a.len() > 1 {
        lemma_lines_hold_the_first(a.drop_last());
    }
}

// -------------------------------------------------------------- messages ---

/// Whether a text says the given parts, one after the other.
pub open spec fn says(t: Seq<char>, parts: Seq<Seq<char>>) -> bool
    decreases parts.len(),
{
    if parts.len() == 0 {
        true
    } else {
        exists|rest: Seq<char>, after: Seq<char>|
            t == #[trigger] (rest + parts.last() + after) && says(rest, parts.drop_last())
    }
}

/// A text that goes on says what it said, and the next part too.
proof fn lemma_says(t: Seq<char>, parts: Seq<Seq<char>>, between: Seq<char>, part: Seq<char>)
    requires
        says(t, parts),
    ensures
        says(t + between + part, parts.push(part)),
        says(t + between, parts),
{
    let all = parts.push(part);
    assert(all.drop_last() =~= parts);
    assert(all.last() == part);
    if parts.len() > 0 {
        let (rest, after) = choose|rest: Seq<char>, after: Seq<char>|
            t == #[trigger] (rest + parts.last() + after) && says(rest, parts.drop_last());
        assert(t + between =~= rest + parts.last() + (after + between));
        assert(says(t + between, parts));
    }
    let rest = t + between;
    let nothing = Seq::<char>::empty();
    assert(says(rest, all.drop_last()));
    assert(rest + part =~= rest + all.last() + nothing);
    assert(exists|x: Seq<char>, y: Seq<char>|
        rest + part == #[trigger] (x + all.last() + y) && says(x, all.drop_last()));
}

/// Where a thread and what it did are named: its block, its number there, how
/// it touched the memory, and the place in the source.
pub open spec fn about_access(a: Access) -> Seq<Seq<char>> {
    seq![
        "block "@,
        text::decimal(a.block as nat),
        " thread "@,
        text::decimal(a.thread as nat),
        " at "@,
        location::place_text(a.location@),
    ]
}

proof fn lemma_says_access(a: Access)
    ensures
        says(diag::who_text(a), about_access(a)),
{
    let e = Seq::<char>::empty();
    let none = Seq::<Seq<char>>::empty();
    let p = about_access(a);
    lemma_says(e, none, e, p[0]);
    let t1 = e + e + p[0];
    lemma_says(t1, none.push(p[0]), e, p[1]);
    let t2 = t1 + e + p[1];
    lemma_says(t2, none.push(p[0]).push(p[1]), e, p[2]);
    let t3 = t2 + e + p[2];
    lemma_says(t3, none.push(p[0]).push(p[1]).push(p[2]), e, p[3]);
    let t4 = t3 + e + p[3];
    let how = " ("@ + diag::kind_text(a.kind);
    lemma_says(t4, none.push(p[0]).push(p[1]).push(p[2]).push(p[3]), how, p[4]);
    let t5 = t4 + how + p[4];
    lemma_says(t5, none.push(p[0]).push(p[1]).push(p[2]).push(p[3]).push(p[4]), e, p[5]);
    let t6 = t5 + e + p[5];
    assert(none.push(p[0]).push(p[1]).push(p[2]).push(p[3]).push(p[4]).push(p[5]) =~= p);
    lemma_says(t6, p, ")"@, e);
    assert(diag::who_text(a) =~= t6 + ")"@);
}

/// A message about an access says whose it was and where, a message about a
/// race says so of both, the earlier first, and each says which element of
/// which memory it is about.
pub proof fn messages_name_the_accesses(
    space: MemSpace,
    index: usize,
    len: usize,
    first: Access,
    second: Access,
)
    ensures
        says(diag::who_text(first), about_access(first)),
        says(
            diag::diagnostic_text(Diagnostic::DataRace { space, index, first, second }),
            seq![
                diag::element_text(space, index),
                diag::who_text(first),
                " conflicts with "@,
                diag::who_text(second),
            ],
        ),
        says(
            diag::diagnostic_text(Diagnostic::UninitRead { space, index, access: first }),
            seq![diag::element_text(space, index), diag::who_text(first)],
        ),
        says(
            diag::diagnostic_text(Diagnostic::OutOfBounds { space, index, len, access: first }),
            seq![
                diag::element_text(space, index),
                text::decimal(len as nat),
                diag::who_text(first),
            ],
        ),
        says(
            diag::element_text(space, index),
            seq![diag::space_text(space), text::decimal(index as nat)],
        ),
        space matches MemSpace::Global { buffer } ==> says(
            diag::space_text(space),
            seq!["global `"@, buffer@],
        ),
        space matches MemSpace::Shared { block, name } ==> says(
            diag::space_text(space),
            seq!["shared `"@, name@, text::decimal(block as nat)],
        ),
{
    lemma_says_access(first);
    let e = Seq::<char>::empty();
    let none = Seq::<Seq<char>>::empty();
    let (el, w1, w2) = (
        diag::element_text(space, index),
        diag::who_text(first),
        diag::who_text(second),
    );
    // A race.
    let t = "data race on "@;
    lemma_says(t, none, e, el);
    lemma_says(t + e + el, none.push(el), ": "@, w1);
    let u = t + e + el + ": "@ + w1;
    lemma_says(u, none.push(el).push(w1), e, " conflicts with "@);
    let v = u + e + " conflicts with "@;
    lemma_says(v, none.push(el).push(w1).push(" conflicts with "@), e, w2);
    let parts = none.push(el).push(w1).push(" conflicts with "@).push(w2);
    assert(parts =~= seq![el, w1, " conflicts with "@, w2]);
    let tail = " with no barrier between them"@;
    lemma_says(v + e + w2, parts, tail, e);
    assert(diag::diagnostic_text(Diagnostic::DataRace { space, index, first, second }) =~= v + e + w2
        + tail);
    // A read of nothing.
    let t = "read of uninitialised "@;
    lemma_says(t, none, e, el);
    lemma_says(t + e + el, none.push(el), " by "@, w1);
    assert(none.push(el).push(w1) =~= seq![el, w1]);
    assert(diag::diagnostic_text(Diagnostic::UninitRead { space, index, access: first }) =~= t + e
        + el + " by "@ + w1);
    // A trap.
    let t = "out-of-bounds access "@;
    let n = text::decimal(len as nat);
    lemma_says(t, none, e, el);
    lemma_says(t + e + el, none.push(el), " (len "@, n);
    lemma_says(t + e + el + " (len "@ + n, none.push(el).push(n), ") by "@, w1);
    assert(none.push(el).push(n).push(w1) =~= seq![el, n, w1]);
    assert(diag::diagnostic_text(Diagnostic::OutOfBounds { space, index, len, access: first })
        =~= t + e + el + " (len "@ + n + ") by "@ + w1);
    // An element.
    let s = diag::space_text(space);
    let i = text::decimal(index as nat);
    lemma_says(e, none, e, s);
    lemma_says(e + e + s, none.push(s), "["@, i);
    assert(none.push(s).push(i) =~= seq![s, i]);
    lemma_says(e + e + s + "["@ + i, seq![s, i], "]"@, e);
    assert(el =~= e + e + s + "["@ + i + "]"@);
    // A memory.
    match space {
        MemSpace::Global { buffer } => {
            let g = "global `"@;
            lemma_says(e, none, e, g);
            lemma_says(e + e + g, none.push(g), e, buffer@);
            assert(none.push(g).push(buffer@) =~= seq![g, buffer@]);
            lemma_says(e + e + g + e + buffer@, seq![g, buffer@], "`"@, e);
            assert(s =~= e + e + g + e + buffer@ + "`"@);
        },
        MemSpace::Shared { block, name } => {
            let g = "shared `"@;
            let b = text::decimal(block as nat);
            lemma_says(e, none, e, g);
            lemma_says(e + e + g, none.push(g), e, name@);
            lemma_says(e + e + g + e + name@, none.push(g).push(name@), "` (block "@, b);
            assert(none.push(g).push(name@).push(b) =~= seq![g, name@, b]);
            lemma_says(e + e + g + e + name@ + "` (block "@ + b, seq![g, name@, b], ")"@, e);
            assert(s =~= e + e + g + e + name@ + "` (block "@ + b + ")"@);
        },
    }
}

/// A message about a barrier says which block it was in, how many of its
/// threads wait and where, and how many are gone; one about a panic says on
/// which thread it was, and what was said.
pub proof fn messages_count_the_threads(
    block: u32,
    waiting: usize,
    exited: usize,
    barrier: location::Location,
    thread: u32,
    message: String,
)
    ensures
        says(
            diag::diagnostic_text(
                Diagnostic::BarrierDivergence { block, waiting, exited, barrier },
            ),
            seq![
                "in block "@,
                text::decimal(block as nat),
                text::decimal(waiting as nat),
                " thread(s) wait at "@,
                location::place_text(barrier@),
                text::decimal(exited as nat),
                " thread(s) exited"@,
            ],
        ),
        says(
            diag::diagnostic_text(Diagnostic::KernelPanic { block, thread, message }),
            seq![
                "in block "@,
                text::decimal(block as nat),
                " thread "@,
                text::decimal(thread as nat),
                message@,
            ],
        ),
{
    let e = Seq::<char>::empty();
    let none = Seq::<Seq<char>>::empty();
    let b = text::decimal(block as nat);
    let p = seq![
        "in block "@,
        b,
        text::decimal(waiting as nat),
        " thread(s) wait at "@,
        location::place_text(barrier@),
        text::decimal(exited as nat),
        " thread(s) exited"@,
    ];
    reveal_strlit("barrier divergence in block ");
    reveal_strlit("kernel panic in block ");
    reveal_strlit("barrier divergence ");
    reveal_strlit("kernel panic ");
    reveal_strlit("in block ");
    reveal_strlit(" thread(s) exited without reaching it");
    reveal_strlit(" thread(s) exited");
    reveal_strlit(" without reaching it");
    assert("barrier divergence in block "@ =~= "barrier divergence "@ + "in block "@);
    assert("kernel panic in block "@ =~= "kernel panic "@ + "in block "@);
    assert(" thread(s) exited without reaching it"@ =~= " thread(s) exited"@
        + " without reaching it"@);
    let t = "barrier divergence "@;
    lemma_says(t, none, e, p[0]);
    let t1 = t + e + p[0];
    lemma_says(t1, none.push(p[0]), e, p[1]);
    let t2 = t1 + e + p[1];
    lemma_says(t2, none.push(p[0]).push(p[1]), ": "@, p[2]);
    let t3 = t2 + ": "@ + p[2];
    lemma_says(t3, none.push(p[0]).push(p[1]).push(p[2]), e, p[3]);
    let t4 = t3 + e + p[3];
    let four = none.push(p[0]).push(p[1]).push(p[2]).push(p[3]);
    lemma_says(t4, four, e, p[4]);
    let t5 = t4 + e + p[4];
    lemma_says(t5, four.push(p[4]), " but "@, p[5]);
    let t6 = t5 + " but "@ + p[5];
    lemma_says(t6, four.push(p[4]).push(p[5]), e, p[6]);
    let t7 = t6 + e + p[6];
    assert(four.push(p[4]).push(p[5]).push(p[6]) =~= p);
    lemma_says(t7, p, " without reaching it"@, e);
    assert(diag::diagnostic_text(
        Diagnostic::BarrierDivergence { block, waiting, exited, barrier },
    ) =~= t7 + " without reaching it"@);
    let q = seq!["in block "@, b, " thread "@, text::decimal(thread as nat), message@];
    let t = "kernel panic "@;
    lemma_says(t, none, e, q[0]);
    let t1 = t + e + q[0];
    lemma_says(t1, none.push(q[0]), e, q[1]);
    let t2 = t1 + e + q[1];
    lemma_says(t2, none.push(q[0]).push(q[1]), e, q[2]);
    let t3 = t2 + e + q[2];
    lemma_says(t3, none.push(q[0]).push(q[1]).push(q[2]), e, q[3]);
    let t4 = t3 + e + q[3];
    lemma_says(t4, none.push(q[0]).push(q[1]).push(q[2]).push(q[3]), ": "@, q[4]);
    assert(none.push(q[0]).push(q[1]).push(q[2]).push(q[3]).push(q[4]) =~= q);
    assert(diag::diagnostic_text(Diagnostic::KernelPanic { block, thread, message }) =~= t4 + ": "@
        + q[4]);
}

/// A message about a warp that came apart lists the lanes named, those that
/// arrived, and those that were named and did not arrive.
pub proof fn messages_list_the_missing_lanes(
    block: u32,
    warp: u32,
    op: &'static str,
    mask: u32,
    arrived: u32,
    at: location::Location,
)
    ensures
        exists|missing: u32, before: Seq<char>|
            {
                &&& forall|l: int| #[trigger]
                    lanes::has_lane(missing, l) <==> lanes::has_lane(mask, l) && !lanes::has_lane(
                        arrived,
                        l,
                    )
                &&& diag::diagnostic_text(
                    Diagnostic::WarpDivergence { block, warp, op, mask, arrived, at },
                ) == #[trigger] (before + " names lanes "@ + lanes::lane_list_text(mask)
                    + " but only lanes "@ + lanes::lane_list_text(arrived) + " arrived, so lanes "@
                    + lanes::lane_list_text(missing) + " never reach it"@)
            },
{
    let missing = mask & !arrived;
    lanes::lemma_masks_subtract(mask, arrived);
    let before = "warp divergence in block "@ + diag::warp_text(block, warp) + ": `"@ + op@
        + "` at "@ + location::place_text(at@);
    assert(diag::diagnostic_text(
        Diagnostic::WarpDivergence { block, warp, op, mask, arrived, at },
    ) =~= before + " names lanes "@ + lanes::lane_list_text(mask) + " but only lanes "@
        + lanes::lane_list_text(arrived) + " arrived, so lanes "@ + lanes::lane_list_text(missing)
        + " never reach it"@);
}

/// A report says how many findings it has, and of which seed, and that the
/// launch was cut short only if it was.
pub proof fn reports_say_how_many_and_of_which_seed(r: diag::Report)
    ensures
        !r.aborted ==> diag::report_text(r) == "riri: "@ + text::decimal(r.diagnostics@.len())
            + " diagnostic(s) (seed "@ + text::decimal(r.seed as nat) + ")\n"@
            + diag::finding_lines(r.diagnostics@),
        r.aborted ==> diag::report_text(r) == "riri: "@ + text::decimal(r.diagnostics@.len())
            + " diagnostic(s) (seed "@ + text::decimal(r.seed as nat) + ", launch aborted)\n"@
            + diag::finding_lines(r.diagnostics@),
{
    reveal_strlit("");
    reveal_strlit(", launch aborted");
    reveal_strlit(")\n");
    reveal_strlit(", launch aborted)\n");
    assert(", launch aborted"@ + ")\n"@ =~= ", launch aborted)\n"@);
    let head = "riri: "@ + text::decimal(r.diagnostics@.len()) + " diagnostic(s) (seed "@
        + text::decimal(r.seed as nat);
    assert(head + ""@ + ")\n"@ =~= head + ")\n"@);
    assert(head + ", launch aborted"@ + ")\n"@ =~= head + (", launch aborted"@ + ")\n"@));
}

proof fn lemma_says_next(t: Seq<char>, parts: Seq<Seq<char>>, part: Seq<char>)
    requires
        says(t, parts),
    ensures
        says(t + part, parts.push(part)),
{
    let nothing = Seq::<char>::empty();
    lemma_says(t, parts, nothing, part);
    assert(t + nothing + part =~= t + part);
}

/// A message about two masks that do not agree says which warp it was in, which
/// collective and where, and whose each mask is.
pub proof fn messages_name_both_masks(
    block: u32,
    warp: u32,
    op: &'static str,
    at: location::Location,
    lane: u32,
    mask: u32,
    other_lane: u32,
    other_mask: u32,
)
    ensures
        says(
            diag::diagnostic_text(
                Diagnostic::WarpMaskMismatch {
                    block,
                    warp,
                    op,
                    at,
                    lane,
                    mask,
                    other_lane,
                    other_mask,
                },
            ),
            seq![
                text::decimal(block as nat),
                " warp "@,
                text::decimal(warp as nat),
                op@,
                location::place_text(at@),
                " was called by lane "@,
                text::decimal(lane as nat),
                lanes::lane_list_text(mask),
                " but by lane "@,
                text::decimal(other_lane as nat),
                lanes::lane_list_text(other_mask),
            ],
        ),
{
    let none = Seq::<Seq<char>>::empty();
    let p = seq![
        text::decimal(block as nat),
        " warp "@,
        text::decimal(warp as nat),
        op@,
        location::place_text(at@),
        " was called by lane "@,
        text::decimal(lane as nat),
        lanes::lane_list_text(mask),
        " but by lane "@,
        text::decimal(other_lane as nat),
        lanes::lane_list_text(other_mask),
    ];
    let start = "warp mask mismatch in block "@;
    lemma_says_next(start, none, p[0]);
    let t1 = start + p[0];
    let a1 = none.push(p[0]);
    lemma_says_next(t1, a1, p[1]);
    let t2 = t1 + p[1];
    let a2 = a1.push(p[1]);
    lemma_says_next(t2, a2, p[2]);
    let t3 = t2 + p[2];
    let a3 = a2.push(p[2]);
    assert(start + diag::warp_text(block, warp) =~= t3);
    lemma_says(t3, a3, ": `"@, p[3]);
    let t4 = t3 + ": `"@ + p[3];
    let a4 = a3.push(p[3]);
    lemma_says(t4, a4, "` at "@, p[4]);
    let t5 = t4 + "` at "@ + p[4];
    let a5 = a4.push(p[4]);
    lemma_says_next(t5, a5, p[5]);
    let t6 = t5 + p[5];
    let a6 = a5.push(p[5]);
    lemma_says_next(t6, a6, p[6]);
    let t7 = t6 + p[6];
    let a7 = a6.push(p[6]);
    lemma_says(t7, a7, " with lanes "@, p[7]);
    let t8 = t7 + " with lanes "@ + p[7];
    let a8 = a7.push(p[7]);
    lemma_says_next(t8, a8, p[8]);
    let t9 = t8 + p[8];
    let a9 = a8.push(p[8]);
    lemma_says_next(t9, a9, p[9]);
    let t10 = t9 + p[9];
    let a10 = a9.push(p[9]);
    lemma_says(t10, a10, " with lanes "@, p[10]);
    let t11 = t10 + " with lanes "@ + p[10];
    let a11 = a10.push(p[10]);
    assert(a11 =~= p);
    assert(diag::diagnostic_text(
        Diagnostic::WarpMaskMismatch {
            block,
            warp,
            op,
            at,
            lane,
            mask,
            other_lane,
            other_mask,
        },
    ) == t11);
}

/// A message about a wrong call says which warp it was in, which lane called
/// what, where and with which mask, and what was wrong.
pub proof fn messages_name_the_caller(
    block: u32,
    warp: u32,
    op: &'static str,
    at: location::Location,
    lane: u32,
    mask: u32,
    problem: LaneProblem,
)
    ensures
        says(
            diag::diagnostic_text(Diagnostic::WarpLaneError { block, warp, op, at, lane, mask, problem }),
            seq![
                text::decimal(block as nat),
                " warp "@,
                text::decimal(warp as nat),
                ": lane "@,
                text::decimal(lane as nat),
                op@,
                location::place_text(at@),
                lanes::lane_list_text(mask),
                diag::problem_text(problem),
            ],
        ),
{
    let none = Seq::<Seq<char>>::empty();
    let p = seq![
        text::decimal(block as nat),
        " warp "@,
        text::decimal(warp as nat),
        ": lane "@,
        text::decimal(lane as nat),
        op@,
        location::place_text(at@),
        lanes::lane_list_text(mask),
        diag::problem_text(problem),
    ];
    let start = "invalid warp collective in block "@;
    lemma_says_next(start, none, p[0]);
    let t1 = start + p[0];
    let a1 = none.push(p[0]);
    lemma_says_next(t1, a1, p[1]);
    let t2 = t1 + p[1];
    let a2 = a1.push(p[1]);
    lemma_says_next(t2, a2, p[2]);
    let t3 = t2 + p[2];
    let a3 = a2.push(p[2]);
    assert(start + diag::warp_text(block, warp) =~= t3);
    lemma_says_next(t3, a3, p[3]);
    let t4 = t3 + p[3];
    let a4 = a3.push(p[3]);
    lemma_says_next(t4, a4, p[4]);
    let t5 = t4 + p[4];
    let a5 = a4.push(p[4]);
    lemma_says(t5, a5, " called `"@, p[5]);
    let t6 = t5 + " called `"@ + p[5];
    let a6 = a5.push(p[5]);
    lemma_says(t6, a6, "` at "@, p[6]);
    let t7 = t6 + "` at "@ + p[6];
    let a7 = a6.push(p[6]);
    lemma_says(t7, a7, " with lanes "@, p[7]);
    let t8 = t7 + " with lanes "@ + p[7];
    let a8 = a7.push(p[7]);
    lemma_says(t8, a8, " but "@, p[8]);
    let t9 = t8 + " but "@ + p[8];
    let a9 = a8.push(p[8]);
    assert(a9 =~= p);
    assert(diag::diagnostic_text(
        Diagnostic::WarpLaneError { block, warp, op, at, lane, mask, problem },
    ) == t9);
}

/// A message about a warp that came apart says which it was, which collective,
/// and where.
pub proof fn messages_name_the_collective(
    block: u32,
    warp: u32,
    op: &'static str,
    at: location::Location,
    mask: u32,
    arrived: u32,
)
    ensures
        says(
            diag::diagnostic_text(Diagnostic::WarpDivergence { block, warp, op, mask, arrived, at }),
            seq![
                text::decimal(block as nat),
                " warp "@,
                text::decimal(warp as nat),
                op@,
                location::place_text(at@),
            ],
        ),
{
    let none = Seq::<Seq<char>>::empty();
    let p = seq![
        text::decimal(block as nat),
        " warp "@,
        text::decimal(warp as nat),
        op@,
        location::place_text(at@),
    ];
    let start = "warp divergence in block "@;
    lemma_says_next(start, none, p[0]);
    let t1 = start + p[0];
    let a1 = none.push(p[0]);
    lemma_says_next(t1, a1, p[1]);
    let t2 = t1 + p[1];
    let a2 = a1.push(p[1]);
    lemma_says_next(t2, a2, p[2]);
    let t3 = t2 + p[2];
    let a3 = a2.push(p[2]);
    assert(start + diag::warp_text(block, warp) =~= t3);
    lemma_says(t3, a3, ": `"@, p[3]);
    let t4 = t3 + ": `"@ + p[3];
    let a4 = a3.push(p[3]);
    lemma_says(t4, a4, "` at "@, p[4]);
    let t5 = t4 + "` at "@ + p[4];
    let a5 = a4.push(p[4]);
    assert(a5 =~= p);
    lemma_says(t5, p, " names lanes "@, Seq::empty());
    let u1 = t5 + " names lanes "@;
    lemma_says(u1, p, lanes::lane_list_text(mask), Seq::empty());
    let u2 = u1 + lanes::lane_list_text(mask);
    lemma_says(u2, p, " but only lanes "@, Seq::empty());
    let u3 = u2 + " but only lanes "@;
    lemma_says(u3, p, lanes::lane_list_text(arrived), Seq::empty());
    let u4 = u3 + lanes::lane_list_text(arrived);
    lemma_says(u4, p, " arrived, so lanes "@, Seq::empty());
    let u5 = u4 + " arrived, so lanes "@;
    lemma_says(u5, p, lanes::lane_list_text(mask & !arrived), Seq::empty());
    let u6 = u5 + lanes::lane_list_text(mask & !arrived);
    lemma_says(u6, p, " never reach it"@, Seq::empty());
    let u7 = u6 + " never reach it"@;
    assert(diag::diagnostic_text(
        Diagnostic::WarpDivergence { block, warp, op, mask, arrived, at },
    ) == u7);
}

/// What was wrong with a call is said with the lanes it is about.
pub proof fn lane_problems_name_their_lanes(valid: u32, src: u32)
    ensures
        exists|a: Seq<char>, b: Seq<char>|
            diag::problem_text(LaneProblem::MaskOutsideBlock { valid }) == #[trigger] (a
                + lanes::lane_list_text(valid) + b),
        exists|a: Seq<char>, b: Seq<char>|
            diag::problem_text(LaneProblem::SourceLaneNotInMask { src }) == #[trigger] (a
                + text::decimal(src as nat) + b),
{
    let a = "the mask names lanes outside the block (lanes "@;
    let b = " exist)"@;
    assert(diag::problem_text(LaneProblem::MaskOutsideBlock { valid }) == a + lanes::lane_list_text(
        valid,
    ) + b);
    let c = "source lane "@;
    let d = " is not a member of the mask"@;
    assert(diag::problem_text(LaneProblem::SourceLaneNotInMask { src }) == c + text::decimal(
        src as nat,
    ) + d);
}

} // verus!
