//! What an interpreted MIR local can hold.
//!
//! Scalars carry their own width and signedness rather than leaning on the
//! type of whatever holds them, because MIR arithmetic is width-dependent:
//! overflow is only defined once you know how many bits there were. Bits are
//! kept zero-extended in a `u128` and interpreted on demand.

use vstd::prelude::*;

use crate::mir::kinds::{self, push_bool, IntKind};
use crate::text::{self, push_decimal, push_signed_decimal};

verus! {

#[derive(Debug, PartialEq)]
pub enum Value {
    /// A local that has been declared but not assigned. Reading one is a bug
    /// in the interpreted program, or in this interpreter.
    Uninit,
    Int { raw: u128, kind: IntKind },
    Bool(bool),
    /// Tuples and structs, including the pair checked arithmetic produces.
    Aggregate(Vec<Value>),
}

/// A value as mathematics.
pub enum Val {
    Uninit,
    Int { raw: u128, kind: IntKind },
    Bool(bool),
    Aggregate(Seq<Val>),
}

/// A value as mathematics.
pub open spec fn val_of(v: Value) -> Val
    decreases v, 0nat,
{
    match v {
        Value::Uninit => Val::Uninit,
        Value::Int { raw, kind } => Val::Int { raw, kind },
        Value::Bool(b) => Val::Bool(b),
        Value::Aggregate(parts) => Val::Aggregate(views(parts@, parts@.len())),
    }
}

impl View for Value {
    type V = Val;

    open spec fn view(&self) -> Val {
        val_of(*self)
    }
}

/// The first `n` values as mathematics.
pub open spec fn views(parts: Seq<Value>, n: nat) -> Seq<Val>
    decreases parts, n,
{
    if n == 0 || n > parts.len() {
        Seq::empty()
    } else {
        views(parts, (n - 1) as nat).push(val_of(parts[n - 1]))
    }
}

/// Each view is the view of the value in its place.
pub proof fn lemma_views(parts: Seq<Value>, n: nat)
    requires
        n <= parts.len(),
    ensures
        views(parts, n).len() == n,
        forall|i: int| 0 <= i < n ==> #[trigger] views(parts, n)[i] == parts[i]@,
    decreases n,
{
    if n > 0 {
        lemma_views(parts, (n - 1) as nat);
    }
}

/// All values as mathematics.
pub open spec fn all_views(parts: Seq<Value>) -> Seq<Val> {
    views(parts, parts.len())
}

/// Integers have a width of the language and no bits above it.
pub open spec fn well_formed(v: Val) -> bool
    decreases v, 0nat,
{
    match v {
        Val::Int { raw, kind } => kind.wf() && raw < kind.size(),
        Val::Aggregate(parts) => all_well_formed(parts, parts.len()),
        _ => true,
    }
}

/// The first `n` values are well formed.
pub open spec fn all_well_formed(parts: Seq<Val>, n: nat) -> bool
    decreases parts, n,
{
    n == 0 || n > parts.len() || (all_well_formed(parts, (n - 1) as nat) && well_formed(
        parts[n - 1],
    ))
}

/// A value of well formed values is well formed in every place.
pub proof fn lemma_well_formed_parts(parts: Seq<Val>, n: nat)
    requires
        n <= parts.len(),
    ensures
        all_well_formed(parts, n) <==> forall|i: int|
            0 <= i < n ==> well_formed(#[trigger] parts[i]),
    decreases n,
{
    if n > 0 {
        lemma_well_formed_parts(parts, (n - 1) as nat);
    }
}

// ---------------------------------------------------------------- texts ---

/// A value as diagnostics show it.
pub open spec fn debug_text(v: Val) -> Seq<char>
    decreases v, 0nat,
{
    match v {
        Val::Uninit => "Uninit"@,
        Val::Int { raw, kind } => "Int { raw: "@ + text::decimal(raw as nat) + ", kind: "@
            + kinds::kind_debug(kind) + " }"@,
        Val::Bool(b) => "Bool("@ + kinds::bool_text(b) + ")"@,
        Val::Aggregate(parts) => "Aggregate(["@ + debug_list(parts, parts.len()) + "])"@,
    }
}

/// The first `n` values as diagnostics list them.
pub open spec fn debug_list(parts: Seq<Val>, n: nat) -> Seq<char>
    decreases parts, n,
{
    if n == 0 || n > parts.len() {
        Seq::empty()
    } else if n == 1 {
        debug_text(parts[0])
    } else {
        debug_list(parts, (n - 1) as nat) + ", "@ + debug_text(parts[n - 1])
    }
}

/// A value as results show it.
pub open spec fn display_text(v: Val) -> Seq<char>
    decreases v, 0nat,
{
    match v {
        Val::Uninit => "uninit"@,
        Val::Bool(b) => kinds::bool_text(b),
        Val::Int { raw, kind } => if kind.signed {
            text::signed_decimal(kind.signed_value(raw)) + "_i"@ + text::decimal(kind.bits as nat)
        } else {
            text::decimal(raw as nat) + "_u"@ + text::decimal(kind.bits as nat)
        },
        Val::Aggregate(parts) => "("@ + display_list(parts, parts.len()) + ")"@,
    }
}

/// The first `n` values as results list them.
pub open spec fn display_list(parts: Seq<Val>, n: nat) -> Seq<char>
    decreases parts, n,
{
    if n == 0 || n > parts.len() {
        Seq::empty()
    } else if n == 1 {
        display_text(parts[0])
    } else {
        display_list(parts, (n - 1) as nat) + ", "@ + display_text(parts[n - 1])
    }
}

/// What an interpreter step gives: a value, or why it stopped.
pub open spec fn outcome(r: Result<Value, String>) -> Result<Val, Seq<char>> {
    match r {
        Ok(v) => Ok(v@),
        Err(why) => Err(why@),
    }
}

// ------------------------------------------------------------ operations ---

impl Clone for Value {
    fn clone(&self) -> (r: Value)
        ensures
            r@ == self@,
        decreases self,
    {
        match self {
            Value::Uninit => Value::Uninit,
            Value::Int { raw, kind } => Value::Int { raw: *raw, kind: *kind },
            Value::Bool(b) => Value::Bool(*b),
            Value::Aggregate(parts) => {
                let n: usize = parts.len();
                let mut out: Vec<Value> = Vec::new();
                let mut i: usize = 0;
                while i < n
                    invariant
                        i <= n,
                        n == parts@.len(),
                        out@.len() == i,
                        *self == Value::Aggregate(*parts),
                        forall|j: int| 0 <= j < i ==> (#[trigger] out@[j])@ == parts@[j]@,
                    decreases n - i,
                {
                    assert(decreases_to!(*self => self->Aggregate_0));
                    assert(decreases_to!(*parts => parts@));
                    assert(decreases_to!(parts@ => parts@[i as int]));
                    out.push(parts[i].clone());
                    i = i + 1;
                }
                proof {
                    lemma_views(parts@, parts@.len());
                    lemma_views(out@, out@.len());
                    assert(all_views(out@) =~= all_views(parts@));
                }
                Value::Aggregate(out)
            },
        }
    }
}

impl Value {
    /// An integer with anything above its width discarded.
    pub fn integer(raw: u128, kind: IntKind) -> (r: Value)
        ensures
            r@ == (Val::Int { raw: kind.wrap(raw as int), kind }),
            kind.wf() ==> well_formed(r@),
    {
        proof {
            if kind.bits >= 1 {
                kinds::truncating_twice_is_truncating_once(kind, raw);
            }
        }
        Value::Int { raw: kind.truncate(raw), kind }
    }

    pub fn as_int(&self) -> (r: Result<(u128, IntKind), String>)
        ensures
            match self@ {
                Val::Int { raw, kind } => r == Ok::<(u128, IntKind), String>((raw, kind)),
                other => r matches Err(why) && why@ == "expected an integer, found "@ + debug_text(
                    other,
                ),
            },
    {
        match self {
            Value::Int { raw, kind } => Ok((*raw, *kind)),
            other => {
                let mut why = "expected an integer, found ".to_owned();
                other.push_debug(&mut why);
                Err(why)
            },
        }
    }

    pub fn as_bool(&self) -> (r: Result<bool, String>)
        ensures
            match self@ {
                Val::Bool(b) => r == Ok::<bool, String>(b),
                other => r matches Err(why) && why@ == "expected a bool, found "@ + debug_text(
                    other,
                ),
            },
    {
        match self {
            Value::Bool(b) => Ok(*b),
            other => {
                let mut why = "expected a bool, found ".to_owned();
                other.push_debug(&mut why);
                Err(why)
            },
        }
    }

    /// The value as it would select a switch arm.
    pub fn discriminant(&self) -> (r: Result<u128, String>)
        ensures
            match self@ {
                Val::Bool(b) => r == Ok::<u128, String>(
                    if b {
                        1
                    } else {
                        0
                    },
                ),
                Val::Int { raw, .. } => r == Ok::<u128, String>(raw),
                other => r matches Err(why) && why@ == "cannot switch on "@ + debug_text(other),
            },
    {
        match self {
            Value::Bool(b) => Ok(
                if *b {
                    1
                } else {
                    0
                },
            ),
            Value::Int { raw, .. } => Ok(*raw),
            other => {
                let mut why = "cannot switch on ".to_owned();
                other.push_debug(&mut why);
                Err(why)
            },
        }
    }

    /// Whether this is a local that was not assigned.
    pub fn is_uninit(&self) -> (r: bool)
        ensures
            r == (self@ is Uninit),
    {
        matches!(self, Value::Uninit)
    }

    /// Appends the value as diagnostics show it.
    pub fn push_debug(&self, out: &mut String)
        ensures
            final(out)@ == old(out)@ + debug_text(self@),
        decreases self,
    {
        let ghost before = out@;
        match self {
            Value::Uninit => {
                out.append("Uninit");
            },
            Value::Int { raw, kind } => {
                out.append("Int { raw: ");
                push_decimal(out, *raw);
                out.append(", kind: ");
                kind.push_debug(out);
                out.append(" }");
            },
            Value::Bool(b) => {
                out.append("Bool(");
                push_bool(out, *b);
                out.append(")");
            },
            Value::Aggregate(parts) => {
                out.append("Aggregate([");
                let ghost lead = out@;
                let n: usize = parts.len();
                let mut i: usize = 0;
                proof {
                    lemma_views(parts@, parts@.len());
                    assert(out@ =~= lead + debug_list(all_views(parts@), 0));
                }
                while i < n
                    invariant
                        i <= n,
                        n == parts@.len(),
                        *self == Value::Aggregate(*parts),
                        all_views(parts@).len() == n,
                        forall|j: int|
                            0 <= j < n ==> #[trigger] all_views(parts@)[j] == parts@[j]@,
                        out@ == lead + debug_list(all_views(parts@), i as nat),
                    decreases n - i,
                {
                    let ghost shorter = out@;
                    if i > 0 {
                        out.append(", ");
                    }
                    assert(decreases_to!(*self => self->Aggregate_0));
                    assert(decreases_to!(*parts => parts@));
                    assert(decreases_to!(parts@ => parts@[i as int]));
                    parts[i].push_debug(out);
                    i = i + 1;
                    assert(out@ =~= lead + debug_list(all_views(parts@), i as nat));
                }
                out.append("])");
            },
        }
        assert(out@ =~= before + debug_text(self@));
    }

    /// Appends the value as results show it.
    pub fn push_to(&self, out: &mut String)
        requires
            well_formed(self@),
        ensures
            final(out)@ == old(out)@ + display_text(self@),
        decreases self,
    {
        let ghost before = out@;
        match self {
            Value::Uninit => {
                out.append("uninit");
            },
            Value::Int { raw, kind } => {
                if kind.signed {
                    push_signed_decimal(out, kind.as_signed(*raw));
                    out.append("_i");
                } else {
                    push_decimal(out, *raw);
                    out.append("_u");
                }
                push_decimal(out, kind.bits as u128);
            },
            Value::Bool(b) => {
                push_bool(out, *b);
            },
            Value::Aggregate(parts) => {
                out.append("(");
                let ghost lead = out@;
                let n: usize = parts.len();
                let mut i: usize = 0;
                proof {
                    lemma_views(parts@, parts@.len());
                    lemma_well_formed_parts(all_views(parts@), parts@.len());
                    assert(out@ =~= lead + display_list(all_views(parts@), 0));
                }
                while i < n
                    invariant
                        i <= n,
                        n == parts@.len(),
                        *self == Value::Aggregate(*parts),
                        all_views(parts@).len() == n,
                        forall|j: int|
                            0 <= j < n ==> #[trigger] all_views(parts@)[j] == parts@[j]@
                                && well_formed(all_views(parts@)[j]),
                        out@ == lead + display_list(all_views(parts@), i as nat),
                    decreases n - i,
                {
                    let ghost shorter = out@;
                    if i > 0 {
                        out.append(", ");
                    }
                    assert(decreases_to!(*self => self->Aggregate_0));
                    assert(decreases_to!(*parts => parts@));
                    assert(decreases_to!(parts@ => parts@[i as int]));
                    assert(well_formed(all_views(parts@)[i as int]));
                    parts[i].push_to(out);
                    i = i + 1;
                    assert(out@ =~= lead + display_list(all_views(parts@), i as nat));
                }
                out.append(")");
            },
        }
        assert(out@ =~= before + display_text(self@));
    }

    /// The value as results show it.
    pub fn to_string(&self) -> (r: String)
        requires
            well_formed(self@),
        ensures
            r@ == display_text(self@),
    {
        let mut out = String::new();
        self.push_to(&mut out);
        assert(out@ =~= display_text(self@));
        out
    }
}

/// A number is shown as the number it stands for, with its sign, and then its
/// type: whether it is signed, and how many bits it has.
pub proof fn numbers_are_shown_with_their_type(raw: u128, kind: IntKind)
    requires
        well_formed(Val::Int { raw, kind }),
    ensures
        kind.value(raw) >= 0 ==> display_text(Val::Int { raw, kind }) == text::decimal(
            kind.value(raw) as nat,
        ) + (if kind.signed {
            "_i"@
        } else {
            "_u"@
        }) + text::decimal(kind.bits as nat),
        kind.value(raw) < 0 ==> kind.signed && display_text(Val::Int { raw, kind }) == "-"@
            + text::decimal((-kind.value(raw)) as nat) + "_i"@ + text::decimal(kind.bits as nat),
{
    kinds::lemma_sizes(kind);
    vstd::arithmetic::div_mod::lemma_small_mod(raw as nat, kind.size() as nat);
}

/// An aggregate is shown as its parts in order, between brackets, and an
/// aggregate of one part as that part between brackets.
pub proof fn aggregates_are_shown_in_order(parts: Seq<Val>, v: Val)
    ensures
        display_text(Val::Aggregate(Seq::<Val>::empty().push(v))) == "("@ + display_text(v) + ")"@,
        parts.len() > 0 ==> display_text(Val::Aggregate(parts.push(v))) == "("@ + display_list(
            parts,
            parts.len(),
        ) + ", "@ + display_text(v) + ")"@,
        display_text(Val::Bool(true)) == "true"@,
        display_text(Val::Bool(false)) == "false"@,
{
    let one = Seq::<Val>::empty().push(v);
    assert(one[0] == v);
    assert(display_list(one, 1) == display_text(v));
    if parts.len() > 0 {
        let more = parts.push(v);
        lemma_shown_so_far(parts, v, parts.len());
        assert(display_list(more, more.len()) == display_list(more, parts.len()) + ", "@
            + display_text(v));
        assert("("@ + (display_list(parts, parts.len()) + ", "@ + display_text(v)) + ")"@ =~= "("@
            + display_list(parts, parts.len()) + ", "@ + display_text(v) + ")"@);
    }
}

proof fn lemma_shown_so_far(parts: Seq<Val>, v: Val, n: nat)
    requires
        n <= parts.len(),
    ensures
        display_list(parts.push(v), n) == display_list(parts, n),
    decreases n,
{
    let more = parts.push(v);
    if n > 1 {
        lemma_shown_so_far(parts, v, (n - 1) as nat);
        assert(more[n - 1] == parts[n - 1]);
    } else if n == 1 {
        assert(more[0] == parts[0]);
    }
}

} // verus!
