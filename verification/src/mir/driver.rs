//! What the compiler driver does with each function it finds, and what it
//! prints.

use vstd::prelude::*;

use crate::mir::value::{self, Val, Value};
use crate::text::{self, push_decimal};

verus! {

// ----------------------------------------------------------- mathematics ---

/// Whether `part` stands in `whole` from position `i` on.
pub open spec fn stands_at(whole: Seq<char>, part: Seq<char>, i: int) -> bool {
    0 <= i && i + part.len() <= whole.len() && whole.subrange(i, i + part.len()) == part
}

/// Whether `part` stands somewhere in `whole`.
pub open spec fn has_part(whole: Seq<char>, part: Seq<char>) -> bool {
    exists|i: int| #[trigger] stands_at(whole, part, i)
}

/// What to do with a function.
#[derive(Clone, Copy, Debug, PartialEq, Eq, Structural)]
pub enum Action {
    /// It was not asked for, or is a declaration without a body.
    Skip,
    /// Print its MIR.
    Print,
    /// Interpret it.
    Run,
}

/// What to do with a function: with `run` set, the functions whose name has it
/// are interpreted and no other is printed, and `only` leaves out the
/// functions whose name does not have it either way.
pub open spec fn action_for(
    name: Seq<char>,
    has_body: bool,
    only: Option<Seq<char>>,
    run: Option<Seq<char>>,
) -> Action {
    if (only matches Some(filter) && !has_part(name, filter)) || !has_body {
        Action::Skip
    } else {
        match run {
            Some(target) => if has_part(name, target) {
                Action::Run
            } else {
                Action::Skip
            },
            None => Action::Print,
        }
    }
}

/// What an interpreted function came to, as it is printed.
pub open spec fn outcome_line(name: Seq<char>, r: Result<Val, Seq<char>>) -> Seq<char> {
    match r {
        Ok(v) => name + " = "@ + value::display_text(v),
        Err(why) => name + " stopped: "@ + why,
    }
}

/// The texts of a block: its statements, and its end.
#[derive(Debug)]
pub struct BlockText {
    pub statements: Vec<String>,
    pub terminator: String,
}

/// The first `n` statements of a block, as they are printed.
pub open spec fn statement_lines(statements: Seq<String>, n: int) -> Seq<char>
    decreases n,
{
    if n <= 0 {
        Seq::empty()
    } else {
        statement_lines(statements, n - 1) + "    "@ + statements[n - 1]@ + "\n"@
    }
}

/// The first `n` blocks of a body, as they are printed.
pub open spec fn block_lines(blocks: Seq<BlockText>, n: int) -> Seq<char>
    decreases n,
{
    if n <= 0 {
        Seq::empty()
    } else {
        let b = blocks[n - 1];
        block_lines(blocks, n - 1) + "  bb"@ + text::decimal((n - 1) as nat) + ":\n"@
            + statement_lines(b.statements@, b.statements@.len() as int) + "    -> "@
            + b.terminator@ + "\n"@
    }
}

/// The MIR of a function, as it is printed.
pub open spec fn listing_text(name: Seq<char>, locals: nat, blocks: Seq<BlockText>) -> Seq<char> {
    "fn "@ + name + "\n  "@ + text::decimal(blocks.len()) + " block(s), "@ + text::decimal(locals)
        + " local(s)\n"@ + block_lines(blocks, blocks.len() as int)
}

/// Whether an argument already says where the sysroot is.
pub open spec fn names_sysroot(args: Seq<String>) -> bool {
    exists|i: int| 0 <= i < args.len() && #[trigger] stands_at(args[i]@, "--sysroot"@, 0)
}

// ------------------------------------------------------------ operations ---

/// Whether `part` stands in `whole` from position `i` on.
fn matches_at(whole: &str, part: &str, i: usize) -> (r: bool)
    requires
        i + part@.len() <= whole@.len(),
        whole@.len() <= usize::MAX,
    ensures
        r == stands_at(whole@, part@, i as int),
{
    let n: usize = part.unicode_len();
    let mut j: usize = 0;
    while j < n
        invariant
            j <= n,
            n == part@.len(),
            i + n <= whole@.len(),
            whole@.len() <= usize::MAX,
            forall|k: int| 0 <= k < j ==> whole@[i + k] == part@[k],
        decreases n - j,
    {
        if whole.get_char(i + j) != part.get_char(j) {
            assert(whole@.subrange(i as int, i + n)[j as int] != part@[j as int]);
            return false;
        }
        j = j + 1;
    }
    assert(whole@.subrange(i as int, i + n) =~= part@);
    true
}

/// Whether `part` stands somewhere in `whole`.
pub fn contains(whole: &str, part: &str) -> (r: bool)
    ensures
        r == has_part(whole@, part@),
{
    let n: usize = whole.unicode_len();
    let m: usize = part.unicode_len();
    if m > n {
        return false;
    }
    let last: usize = n - m;
    let mut i: usize = 0;
    loop
        invariant
            i <= last,
            last + part@.len() == whole@.len(),
            whole@.len() <= usize::MAX,
            forall|k: int| 0 <= k < i ==> !#[trigger] stands_at(whole@, part@, k),
        decreases last - i,
    {
        if matches_at(whole, part, i) {
            return true;
        }
        if i == last {
            return false;
        }
        i = i + 1;
    }
}

/// A filter as mathematics.
pub open spec fn filter_text(filter: Option<&str>) -> Option<Seq<char>> {
    match filter {
        Some(s) => Some(s@),
        None => None,
    }
}

/// What to do with a function.
pub fn choose_action(name: &str, has_body: bool, only: Option<&str>, run: Option<&str>) -> (r:
    Action)
    ensures
        r == action_for(name@, has_body, filter_text(only), filter_text(run)),
{
    if let Some(filter) = only {
        if !contains(name, filter) {
            return Action::Skip;
        }
    }
    // An item with no body is a declaration, not a definition.
    if !has_body {
        return Action::Skip;
    }
    match run {
        Some(target) => if contains(name, target) {
            Action::Run
        } else {
            Action::Skip
        },
        None => Action::Print,
    }
}

/// What an interpreted function came to, as it is printed.
pub fn describe_outcome(name: &str, r: &Result<Value, String>) -> (out: String)
    requires
        r matches Ok(v) ==> value::well_formed(v@),
    ensures
        out@ == outcome_line(name@, value::outcome(*r)),
{
    let mut out = name.to_owned();
    match r {
        Ok(v) => {
            out.append(" = ");
            v.push_to(&mut out);
        },
        Err(why) => {
            out.append(" stopped: ");
            out.append(why.as_str());
        },
    }
    out
}

/// The MIR of a function, as it is printed.
pub fn listing(name: &str, locals: usize, blocks: &Vec<BlockText>) -> (out: String)
    ensures
        out@ == listing_text(name@, locals as nat, blocks@),
{
    let mut out = "fn ".to_owned();
    out.append(name);
    out.append("\n  ");
    push_decimal(&mut out, blocks.len() as u128);
    out.append(" block(s), ");
    push_decimal(&mut out, locals as u128);
    out.append(" local(s)\n");
    let ghost heading = out@;
    let n: usize = blocks.len();
    let mut i: usize = 0;
    assert(out@ =~= heading + block_lines(blocks@, 0));
    while i < n
        invariant
            i <= n,
            n == blocks@.len(),
            out@ == heading + block_lines(blocks@, i as int),
        decreases n - i,
    {
        let ghost lead = out@;
        out.append("  bb");
        push_decimal(&mut out, i as u128);
        out.append(":\n");
        push_statements(&mut out, &blocks[i].statements);
        out.append("    -> ");
        out.append(blocks[i].terminator.as_str());
        out.append("\n");
        i = i + 1;
        assert(out@ =~= heading + block_lines(blocks@, i as int));
    }
    out
}

/// Appends the statements of a block, as they are printed.
fn push_statements(out: &mut String, statements: &Vec<String>)
    ensures
        final(out)@ == old(out)@ + statement_lines(statements@, statements@.len() as int),
{
    let ghost lead = out@;
    let n: usize = statements.len();
    let mut i: usize = 0;
    assert(out@ =~= lead + statement_lines(statements@, 0));
    while i < n
        invariant
            i <= n,
            n == statements@.len(),
            out@ == lead + statement_lines(statements@, i as int),
        decreases n - i,
    {
        out.append("    ");
        out.append(statements[i].as_str());
        out.append("\n");
        i = i + 1;
        assert(out@ =~= lead + statement_lines(statements@, i as int));
    }
}

/// Whether an argument already says where the sysroot is.
pub fn has_sysroot(args: &Vec<String>) -> (r: bool)
    ensures
        r == names_sysroot(args@),
{
    let flag: &str = "--sysroot";
    let mut i: usize = 0;
    while i < args.len()
        invariant
            i <= args@.len(),
            flag@ == "--sysroot"@,
            forall|k: int| 0 <= k < i ==> !#[trigger] stands_at(args@[k]@, "--sysroot"@, 0),
        decreases args@.len() - i,
    {
        let arg: &str = args[i].as_str();
        if flag.unicode_len() <= arg.unicode_len() && matches_at(arg, flag, 0) {
            assert(stands_at(args@[i as int]@, "--sysroot"@, 0));
            return true;
        }
        i = i + 1;
    }
    false
}

/// The arguments the compiler is called with: those given, and where the
/// sysroot is unless they say so already.
pub fn with_sysroot(args: Vec<String>, sysroot: Option<String>) -> (r: Vec<String>)
    ensures
        match sysroot {
            Some(path) if !names_sysroot(args@) => {
                &&& r@.len() == args@.len() + 2
                &&& r@.take(args@.len() as int) == args@
                &&& r@[args@.len() as int]@ == "--sysroot"@
                &&& r@[args@.len() as int + 1] == path
            },
            _ => r@ == args@,
        },
{
    let mut args = args;
    let ghost given = args@;
    if has_sysroot(&args) {
        return args;
    }
    if let Some(path) = sysroot {
        args.push("--sysroot".to_owned());
        args.push(path);
        assert(args@.take(given.len() as int) =~= given);
    }
    args
}

/// What is done with a function: nothing if it has no body or the filter is not
/// part of its name; if a target is named, it is interpreted if the target is
/// part of its name and else left alone; and if none is, it is printed.
pub proof fn functions_are_chosen_by_name(
    name: Seq<char>,
    has_body: bool,
    only: Option<Seq<char>>,
    run: Option<Seq<char>>,
)
    ensures
        !has_body ==> action_for(name, has_body, only, run) == Action::Skip,
        only is Some && !has_part(name, only->0) ==> action_for(name, has_body, only, run)
            == Action::Skip,
        has_body && (only is None || has_part(name, only->0)) ==> {
            &&& run is None ==> action_for(name, has_body, only, run) == Action::Print
            &&& run is Some ==> (action_for(name, has_body, only, run) == Action::Run <==> has_part(
                name,
                run->0,
            ))
            &&& run is Some && !has_part(name, run->0) ==> action_for(name, has_body, only, run)
                == Action::Skip
        },
{
}

/// One text is part of another exactly when something before it and something
/// after it make up the other.
pub proof fn parts_have_a_before_and_an_after(
    before: Seq<char>,
    part: Seq<char>,
    after: Seq<char>,
    whole: Seq<char>,
)
    ensures
        has_part(before + part + after, part),
        has_part(whole, part) ==> exists|a: Seq<char>, b: Seq<char>|
            whole == #[trigger] (a + part + b),
{
    let all = before + part + after;
    let i = before.len() as int;
    assert(all.subrange(i, i + part.len()) =~= part);
    assert(stands_at(all, part, i));
    if has_part(whole, part) {
        let k = choose|k: int| #[trigger] stands_at(whole, part, k);
        let (a, b) = (whole.take(k), whole.skip(k + part.len()));
        assert(whole =~= a + part + b);
    }
}

/// What a function came to is printed behind its name, and a value can be told
/// from a reason to stop.
pub proof fn outcomes_are_told_apart(name: Seq<char>, v: Val, why: Seq<char>)
    ensures
        outcome_line(name, Ok(v)) == name + " = "@ + value::display_text(v),
        outcome_line(name, Err(why)) == name + " stopped: "@ + why,
        outcome_line(name, Ok(v)) != outcome_line(name, Err(why)),
{
    reveal_strlit(" = ");
    reveal_strlit(" stopped: ");
    let n = name.len() as int;
    assert(outcome_line(name, Ok(v))[n + 1] == '=');
    assert(outcome_line(name, Err(why))[n + 1] == 's');
}

/// A listing counts the blocks and the locals and then prints the blocks in
/// order: one more block is printed after the others, under its number, and its
/// statements in order, then how it ends.
pub proof fn blocks_are_listed_in_order(
    name: Seq<char>,
    locals: nat,
    blocks: Seq<BlockText>,
    b: BlockText,
    statements: Seq<String>,
    s: String,
)
    ensures
        block_lines(blocks.push(b), blocks.len() as int + 1) == block_lines(blocks, blocks.len() as int)
            + "  bb"@ + text::decimal(blocks.len()) + ":\n"@ + statement_lines(
            b.statements@,
            b.statements@.len() as int,
        ) + "    -> "@ + b.terminator@ + "\n"@,
        statement_lines(statements.push(s), statements.len() as int + 1) == statement_lines(
            statements,
            statements.len() as int,
        ) + "    "@ + s@ + "\n"@,
        exists|rest: Seq<char>|
            listing_text(name, locals, blocks) == #[trigger] ("fn "@ + name + "\n  "@
                + text::decimal(blocks.len()) + " block(s), "@ + text::decimal(locals) + rest),
{
    lemma_block_lines_so_far(blocks, b, blocks.len() as int);
    lemma_statement_lines_so_far(statements, s, statements.len() as int);
    let rest = " local(s)\n"@ + block_lines(blocks, blocks.len() as int);
    assert(listing_text(name, locals, blocks) =~= "fn "@ + name + "\n  "@ + text::decimal(
        blocks.len(),
    ) + " block(s), "@ + text::decimal(locals) + rest);
}

proof fn lemma_block_lines_so_far(blocks: Seq<BlockText>, b: BlockText, n: int)
    requires
        n <= blocks.len(),
    ensures
        block_lines(blocks.push(b), n) == block_lines(blocks, n),
    decreases n,
{
    if n > 0 {
        lemma_block_lines_so_far(blocks, b, n - 1);
        assert(blocks.push(b)[n - 1] == blocks[n - 1]);
    }
}

proof fn lemma_statement_lines_so_far(statements: Seq<String>, s: String, n: int)
    requires
        n <= statements.len(),
    ensures
        statement_lines(statements.push(s), n) == statement_lines(statements, n),
    decreases n,
{
    if n > 0 {
        lemma_statement_lines_so_far(statements, s, n - 1);
        assert(statements.push(s)[n - 1] == statements[n - 1]);
    }
}

/// The argument that says where the sysroot is may stand anywhere among the
/// arguments, and is known by how it starts.
pub proof fn the_sysroot_may_stand_anywhere(a: Seq<String>, b: Seq<String>, s: String)
    ensures
        names_sysroot(a + b) <==> names_sysroot(a) || names_sysroot(b),
        names_sysroot(Seq::<String>::empty().push(s)) <==> exists|rest: Seq<char>|
            s@ == #[trigger] ("--sysroot"@ + rest),
        !names_sysroot(Seq::<String>::empty()),
{
    let all = a + b;
    let what = "--sysroot"@;
    if names_sysroot(all) {
        let i = choose|i: int| 0 <= i < all.len() && #[trigger] stands_at(all[i]@, what, 0);
        if i < a.len() {
            assert(stands_at(a[i]@, what, 0));
        } else {
            assert(stands_at(b[i - a.len()]@, what, 0));
        }
    }
    if names_sysroot(a) {
        let i = choose|i: int| 0 <= i < a.len() && #[trigger] stands_at(a[i]@, what, 0);
        assert(stands_at(all[i]@, what, 0));
    }
    if names_sysroot(b) {
        let i = choose|i: int| 0 <= i < b.len() && #[trigger] stands_at(b[i]@, what, 0);
        assert(stands_at(all[a.len() + i]@, what, 0));
    }
    let one = Seq::<String>::empty().push(s);
    assert(one[0] == s);
    if names_sysroot(one) {
        assert(stands_at(s@, what, 0));
        let rest = s@.skip(what.len() as int);
        assert(s@ =~= what + rest);
    }
    if exists|rest: Seq<char>| s@ == #[trigger] (what + rest) {
        let rest = choose|rest: Seq<char>| s@ == #[trigger] (what + rest);
        assert(s@.subrange(0, what.len() as int) =~= what);
        assert(stands_at(one[0]@, what, 0));
    }
}

} // verus!
