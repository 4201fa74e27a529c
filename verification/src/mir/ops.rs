//! The operators of MIR on scalar values.

use vstd::arithmetic::power2::*;
use vstd::prelude::*;

use crate::mir::kinds::{self, IntKind};
use crate::mir::value::{self, Val, Value};

verus! {

/// A binary operator.
#[derive(Clone, Copy, Debug, PartialEq, Eq, Structural)]
pub enum BinOp {
    Add,
    AddUnchecked,
    Sub,
    SubUnchecked,
    Mul,
    MulUnchecked,
    Div,
    Rem,
    BitXor,
    BitAnd,
    BitOr,
    Shl,
    ShlUnchecked,
    Shr,
    ShrUnchecked,
    Eq,
    Lt,
    Le,
    Ne,
    Ge,
    Gt,
    Cmp,
    Offset,
}

/// A unary operator.
#[derive(Clone, Copy, Debug, PartialEq, Eq, Structural)]
pub enum UnOp {
    Not,
    Neg,
    PtrMetadata,
}

/// The name of a binary operator.
pub open spec fn op_text(op: BinOp) -> Seq<char> {
    match op {
        BinOp::Add => "Add"@,
        BinOp::AddUnchecked => "AddUnchecked"@,
        BinOp::Sub => "Sub"@,
        BinOp::SubUnchecked => "SubUnchecked"@,
        BinOp::Mul => "Mul"@,
        BinOp::MulUnchecked => "MulUnchecked"@,
        BinOp::Div => "Div"@,
        BinOp::Rem => "Rem"@,
        BinOp::BitXor => "BitXor"@,
        BinOp::BitAnd => "BitAnd"@,
        BinOp::BitOr => "BitOr"@,
        BinOp::Shl => "Shl"@,
        BinOp::ShlUnchecked => "ShlUnchecked"@,
        BinOp::Shr => "Shr"@,
        BinOp::ShrUnchecked => "ShrUnchecked"@,
        BinOp::Eq => "Eq"@,
        BinOp::Lt => "Lt"@,
        BinOp::Le => "Le"@,
        BinOp::Ne => "Ne"@,
        BinOp::Ge => "Ge"@,
        BinOp::Gt => "Gt"@,
        BinOp::Cmp => "Cmp"@,
        BinOp::Offset => "Offset"@,
    }
}

impl BinOp {
    /// The operator's name.
    pub fn name(self) -> (r: &'static str)
        ensures
            r@ == op_text(self),
    {
        match self {
            BinOp::Add => "Add",
            BinOp::AddUnchecked => "AddUnchecked",
            BinOp::Sub => "Sub",
            BinOp::SubUnchecked => "SubUnchecked",
            BinOp::Mul => "Mul",
            BinOp::MulUnchecked => "MulUnchecked",
            BinOp::Div => "Div",
            BinOp::Rem => "Rem",
            BinOp::BitXor => "BitXor",
            BinOp::BitAnd => "BitAnd",
            BinOp::BitOr => "BitOr",
            BinOp::Shl => "Shl",
            BinOp::ShlUnchecked => "ShlUnchecked",
            BinOp::Shr => "Shr",
            BinOp::ShrUnchecked => "ShrUnchecked",
            BinOp::Eq => "Eq",
            BinOp::Lt => "Lt",
            BinOp::Le => "Le",
            BinOp::Ne => "Ne",
            BinOp::Ge => "Ge",
            BinOp::Gt => "Gt",
            BinOp::Cmp => "Cmp",
            BinOp::Offset => "Offset",
        }
    }
}

// ---------------------------------------------------------- mathematics ---

/// Division that rounds towards zero.
pub open spec fn quotient(a: int, b: int) -> int {
    if (a < 0) == (b < 0) {
        magnitude(a) / magnitude(b)
    } else {
        -(magnitude(a) / magnitude(b))
    }
}

/// The remainder of division that rounds towards zero; it has the sign of the
/// dividend.
pub open spec fn remainder(a: int, b: int) -> int {
    if a < 0 {
        -(magnitude(a) % magnitude(b))
    } else {
        magnitude(a) % magnitude(b)
    }
}

/// The size of a number without its sign.
pub open spec fn magnitude(a: int) -> int {
    if a < 0 {
        -a
    } else {
        a
    }
}

/// An integer with the bits of `n`.
pub open spec fn integer(kind: IntKind, n: int) -> Val {
    Val::Int { raw: kind.wrap(n), kind }
}

/// What an operator gives on two truth values.
pub open spec fn bool_result(op: BinOp, a: bool, b: bool) -> Result<(Val, bool), Seq<char>> {
    match op {
        BinOp::Eq => Ok((Val::Bool(a == b), false)),
        BinOp::Ne => Ok((Val::Bool(a != b), false)),
        BinOp::BitAnd => Ok((Val::Bool(a && b), false)),
        BinOp::BitOr => Ok((Val::Bool(a || b), false)),
        BinOp::BitXor => Ok((Val::Bool(a != b), false)),
        _ => Err(op_text(op) + " is not defined on bools"@),
    }
}

/// Whether the operator shifts, and so takes its amount from a possibly
/// different type.
pub open spec fn is_shift(op: BinOp) -> bool {
    op == BinOp::Shl || op == BinOp::ShlUnchecked || op == BinOp::Shr || op == BinOp::ShrUnchecked
}

/// Arithmetic on numbers: the bits of the result, and whether the result has
/// none that stand for it.
pub open spec fn arithmetic(kind: IntKind, n: int) -> Result<(Val, bool), Seq<char>> {
    Ok((integer(kind, n), !kind.in_range(n)))
}

/// What an operator gives on two integers with these bits.
pub open spec fn int_result(op: BinOp, kind: IntKind, left: u128, right: u128) -> Result<
    (Val, bool),
    Seq<char>,
> {
    let a = kind.value(left);
    let b = kind.value(right);
    match op {
        BinOp::Add | BinOp::AddUnchecked => arithmetic(kind, a + b),
        BinOp::Sub | BinOp::SubUnchecked => arithmetic(kind, a - b),
        BinOp::Mul | BinOp::MulUnchecked => arithmetic(kind, a * b),
        BinOp::Div => if right == 0 {
            Err("division by zero"@)
        } else {
            Ok((integer(kind, quotient(a, b)), false))
        },
        BinOp::Rem => if right == 0 {
            Err("remainder by zero"@)
        } else {
            Ok((integer(kind, remainder(a, b)), false))
        },
        BinOp::BitAnd => Ok((integer(kind, (left & right) as int), false)),
        BinOp::BitOr => Ok((integer(kind, (left | right) as int), false)),
        BinOp::BitXor => Ok((integer(kind, (left ^ right) as int), false)),
        BinOp::Shl | BinOp::ShlUnchecked => Ok(
            (
                integer(kind, a * pow2((right % kind.bits as u128) as nat)),
                right >= kind.bits,
            ),
        ),
        BinOp::Shr | BinOp::ShrUnchecked => Ok(
            (
                integer(kind, a / (pow2((right % kind.bits as u128) as nat) as int)),
                right >= kind.bits,
            ),
        ),
        BinOp::Eq => Ok((Val::Bool(left == right), false)),
        BinOp::Ne => Ok((Val::Bool(left != right), false)),
        BinOp::Lt => Ok((Val::Bool(a < b), false)),
        BinOp::Gt => Ok((Val::Bool(a > b), false)),
        BinOp::Le => Ok((Val::Bool(a <= b), false)),
        BinOp::Ge => Ok((Val::Bool(a >= b), false)),
        BinOp::Cmp | BinOp::Offset => Err("operator not interpreted yet: "@ + op_text(op)),
    }
}

/// What a binary operator gives: the value and whether it overflowed, or why
/// it has none.
pub open spec fn binary_result(op: BinOp, lhs: Val, rhs: Val) -> Result<(Val, bool), Seq<char>> {
    match (lhs, rhs) {
        (Val::Bool(a), Val::Bool(b)) => bool_result(op, a, b),
        (Val::Int { raw: left, kind }, Val::Int { raw: right, kind: right_kind }) => if !is_shift(
            op,
        ) && kind != right_kind {
            Err(
                "mismatched operand types: "@ + kinds::kind_debug(kind) + " and "@
                    + kinds::kind_debug(right_kind),
            )
        } else {
            int_result(op, kind, left, right)
        },
        (Val::Int { .. }, other) => Err("expected an integer, found "@ + value::debug_text(other)),
        (other, _) => Err("expected an integer, found "@ + value::debug_text(other)),
    }
}

/// What a unary operator gives.
pub open spec fn unary_result(op: UnOp, v: Val) -> Result<Val, Seq<char>> {
    match op {
        UnOp::Not => match v {
            Val::Bool(b) => Ok(Val::Bool(!b)),
            Val::Int { raw, kind } => Ok(integer(kind, -1 - kind.value(raw))),
            other => Err("cannot negate "@ + value::debug_text(other)),
        },
        UnOp::Neg => match v {
            Val::Int { raw, kind } => Ok(integer(kind, -kind.value(raw))),
            other => Err("expected an integer, found "@ + value::debug_text(other)),
        },
        UnOp::PtrMetadata => Err("pointer metadata needs a memory model"@),
    }
}

/// What a cast to an integer type gives: the number, kept modulo the target's
/// size.
pub open spec fn cast_result(v: Val, kind: IntKind) -> Result<Val, Seq<char>> {
    match v {
        Val::Bool(b) => Ok(
            integer(
                kind,
                if b {
                    1
                } else {
                    0
                },
            ),
        ),
        Val::Int { raw, kind: from } => Ok(integer(kind, from.value(raw))),
        other => Err("cannot cast "@ + value::debug_text(other)),
    }
}

/// An operator's result as mathematics.
pub open spec fn pair_outcome(r: Result<(Value, bool), String>) -> Result<(Val, bool), Seq<char>> {
    match r {
        Ok(x) => Ok((x.0@, x.1)),
        Err(why) => Err(why@),
    }
}

// ------------------------------------------------------------ operations ---

/// Bits already reduced stay as they are, and stand for the number.
proof fn lemma_reduced(kind: IntKind, raw: u128)
    requires
        kind.wf(),
        raw < kind.size(),
    ensures
        raw as int % kind.size() == raw,
        kind.value(raw) % kind.size() == raw,
        kind.in_range(kind.value(raw)),
        !kind.signed ==> kind.value(raw) == raw,
        kind.signed ==> -kind.half() <= kind.value(raw) < kind.half(),
        kind.value(raw) == 0 <==> raw == 0,
{
    kinds::lemma_sizes(kind);
    vstd::arithmetic::div_mod::lemma_small_mod(raw as nat, kind.size() as nat);
    kinds::lemma_value_congruent(kind, raw);
}

/// The bits a value holds, with the number they stand for.
fn number(kind: IntKind, raw: u128) -> (r: (bool, u128))
    requires
        kind.wf(),
        raw < kind.size(),
    ensures
        kind.value(raw) == if r.0 {
            -(r.1 as int)
        } else {
            r.1 as int
        },
        r.0 == (kind.value(raw) < 0),
        r.1 == magnitude(kind.value(raw)),
{
    proof {
        lemma_reduced(kind, raw);
    }
    if !kind.signed {
        return (false, raw);
    }
    let a: i128 = kind.as_signed(raw);
    if a < 0 {
        (true, (-(a + 1)) as u128 + 1)
    } else {
        (false, a as u128)
    }
}

/// An integer with the bits of a number given by sign and magnitude.
fn make(kind: IntKind, negative: bool, size: u128) -> (r: Value)
    requires
        kind.wf(),
    ensures
        r@ == integer(
            kind,
            if negative {
                -(size as int)
            } else {
                size as int
            },
        ),
        value::well_formed(r@),
{
    Value::Int { raw: kind.wrap_signed(negative, size), kind }
}

/// Which of the three arithmetic operators is meant.
#[derive(Clone, Copy, Debug, PartialEq, Eq, Structural)]
enum Arith {
    Add,
    Sub,
    Mul,
}

/// The operator on numbers.
spec fn arith(op: Arith, a: int, b: int) -> int {
    match op {
        Arith::Add => a + b,
        Arith::Sub => a - b,
        Arith::Mul => a * b,
    }
}

/// Working on bits gives the bits of working on numbers.
proof fn lemma_arith_congruent(op: Arith, kind: IntKind, left: u128, right: u128)
    requires
        kind.wf(),
        left < kind.size(),
        right < kind.size(),
    ensures
        arith(op, left as int, right as int) % kind.size() == arith(
            op,
            kind.value(left),
            kind.value(right),
        ) % kind.size(),
{
    lemma_reduced(kind, left);
    lemma_reduced(kind, right);
    kinds::lemma_sizes(kind);
    let s = kind.size();
    let (a, b) = (kind.value(left), kind.value(right));
    match op {
        Arith::Add => {
            vstd::arithmetic::div_mod::lemma_add_mod_noop(a, b, s);
        },
        Arith::Sub => {
            vstd::arithmetic::div_mod::lemma_sub_mod_noop(a, b, s);
        },
        Arith::Mul => {
            vstd::arithmetic::div_mod::lemma_mul_mod_noop(a, b, s);
        },
    }
}

/// Arithmetic plus the overflow flag checked arithmetic wants.
///
/// Overflow is decided on the numbers: signed ones on the signed result,
/// unsigned ones on the unsigned result.
fn checked(op: Arith, kind: IntKind, left: u128, right: u128) -> (r: (Value, bool))
    requires
        kind.wf(),
        left < kind.size(),
        right < kind.size(),
    ensures
        ({
            let n = arith(op, kind.value(left), kind.value(right));
            &&& r.0@ == integer(kind, n)
            &&& value::well_formed(r.0@)
            &&& r.1 == !kind.in_range(n)
        }),
{
    let raw: u128 = match op {
        Arith::Add => left.wrapping_add(right),
        Arith::Sub => left.wrapping_sub(right),
        Arith::Mul => left.wrapping_mul(right),
    };
    proof {
        kinds::lemma_sizes(kind);
        lemma_reduced(kind, left);
        lemma_reduced(kind, right);
        lemma_arith_congruent(op, kind, left, right);
        let exact = arith(op, left as int, right as int);
        lemma_wrapping(op, left, right, raw);
        kinds::lemma_low_bits(kind, exact);
    }
    let overflowed = if kind.signed {
        let a: i128 = kind.as_signed(left);
        let b: i128 = kind.as_signed(right);
        let exact: Option<i128> = match op {
            Arith::Add => a.checked_add(b),
            Arith::Sub => a.checked_sub(b),
            Arith::Mul => a.checked_mul(b),
        };
        match exact {
            Some(n) => !kind.fits(n),
            None => true,
        }
    } else {
        !fits_unsigned(op, kind, left, right)
    };
    (Value::integer(raw, kind), overflowed)
}

/// Whether an unsigned operation stays in range.
fn fits_unsigned(op: Arith, kind: IntKind, left: u128, right: u128) -> (r: bool)
    requires
        kind.wf(),
        left < kind.size(),
        right < kind.size(),
    ensures
        r == (0 <= arith(op, left as int, right as int) < kind.size()),
{
    proof {
        kinds::lemma_sizes(kind);
    }
    let exact: Option<u128> = match op {
        Arith::Add => left.checked_add(right),
        Arith::Sub => left.checked_sub(right),
        Arith::Mul => left.checked_mul(right),
    };
    match exact {
        Some(n) => n <= kind.mask(),
        None => false,
    }
}

/// Wrapping arithmetic is arithmetic modulo all the bits.
proof fn lemma_wrapping(op: Arith, left: u128, right: u128, raw: u128)
    requires
        raw == match op {
            Arith::Add => left.wrapping_add(right),
            Arith::Sub => left.wrapping_sub(right),
            Arith::Mul => left.wrapping_mul(right),
        },
    ensures
        raw as int == arith(op, left as int, right as int) % (pow2(128) as int),
{
    kinds::lemma_sizes(IntKind { bits: 128, signed: false });
    let m = pow2(128) as int;
    let exact = arith(op, left as int, right as int);
    match op {
        Arith::Add => {
            if exact < m {
                vstd::arithmetic::div_mod::lemma_small_mod(exact as nat, m as nat);
            } else {
                vstd::arithmetic::div_mod::lemma_mod_multiples_vanish(-1, exact, m);
                vstd::arithmetic::div_mod::lemma_small_mod((exact - m) as nat, m as nat);
            }
        },
        Arith::Sub => {
            if exact >= 0 {
                vstd::arithmetic::div_mod::lemma_small_mod(exact as nat, m as nat);
            } else {
                vstd::arithmetic::div_mod::lemma_mod_multiples_vanish(1, exact, m);
                vstd::arithmetic::div_mod::lemma_small_mod((exact + m) as nat, m as nat);
            }
        },
        Arith::Mul => {},
    }
}

/// A shift to the left by fewer places than there are bits.
fn shift_left(kind: IntKind, left: u128, amount: u32) -> (r: Value)
    requires
        kind.wf(),
        left < kind.size(),
        amount < kind.bits,
    ensures
        r@ == integer(kind, kind.value(left) * pow2(amount as nat)),
        value::well_formed(r@),
{
    proof {
        kinds::lemma_sizes(kind);
        lemma_reduced(kind, left);
        kinds::lemma_shl(left, amount);
        let p = pow2(amount as nat) as int;
        let s = kind.size();
        kinds::lemma_low_bits(kind, left * p);
        vstd::arithmetic::div_mod::lemma_mul_mod_noop_left(left as int, p, s);
        vstd::arithmetic::div_mod::lemma_mul_mod_noop_left(kind.value(left), p, s);
    }
    Value::integer(left << amount, kind)
}

/// A shift to the right by fewer places than there are bits, filling with the
/// sign.
fn shift_right(kind: IntKind, left: u128, amount: u32) -> (r: Value)
    requires
        kind.wf(),
        left < kind.size(),
        amount < kind.bits,
    ensures
        r@ == integer(kind, kind.value(left) / (pow2(amount as nat) as int)),
        value::well_formed(r@),
{
    let (negative, size) = number(kind, left);
    let places: u128 = amount as u128;
    if !negative {
        proof {
            vstd::bits::lemma_u128_shr_is_div(size, places);
        }
        make(kind, false, size >> places)
    } else {
        let ghost p = pow2(amount as nat) as int;
        let ghost below = (size - 1) as int;
        proof {
            lemma_pow2_pos(amount as nat);
            lemma_reduced(kind, left);
            vstd::bits::lemma_u128_shr_is_div((size - 1) as u128, places);
            kinds::lemma_sizes(kind);
            // Rounding down: -(q p + r) - 1 = (-q - 1) p + (p - 1 - r).
            vstd::arithmetic::div_mod::lemma_fundamental_div_mod(below, p);
            let (q, rest) = (below / p, below % p);
            assert(-(size as int) == p * (-q - 1) + (p - 1 - rest)) by (nonlinear_arith)
                requires
                    size - 1 == p * q + rest,
            ;
            vstd::arithmetic::div_mod::lemma_fundamental_div_mod_converse(
                -(size as int),
                p,
                -q - 1,
                p - 1 - rest,
            );
            vstd::arithmetic::div_mod::lemma_div_pos_is_pos(below, p);
            vstd::arithmetic::div_mod::lemma_div_nonincreasing(below, p);
        }
        make(kind, true, ((size - 1) >> places) + 1)
    }
}

/// Applies a binary operator to integers, returning the value and whether it
/// overflowed.
fn int_binary(op: BinOp, kind: IntKind, left: u128, right: u128) -> (r: Result<
    (Value, bool),
    String,
>)
    requires
        kind.wf(),
        left < kind.size(),
        is_shift(op) || right < kind.size(),
    ensures
        pair_outcome(r) == int_result(op, kind, left, right),
        r matches Ok(x) ==> value::well_formed(x.0@),
{
    proof {
        kinds::lemma_sizes(kind);
        lemma_reduced(kind, left);
        if !is_shift(op) {
            lemma_reduced(kind, right);
        }
    }
    match op {
        BinOp::Add | BinOp::AddUnchecked => Ok(checked(Arith::Add, kind, left, right)),
        BinOp::Sub | BinOp::SubUnchecked => Ok(checked(Arith::Sub, kind, left, right)),
        BinOp::Mul | BinOp::MulUnchecked => Ok(checked(Arith::Mul, kind, left, right)),
        BinOp::Div => {
            if right == 0 {
                return Err("division by zero".to_owned());
            }
            let (a_negative, a) = number(kind, left);
            let (b_negative, b) = number(kind, right);
            Ok((make(kind, a_negative != b_negative, a / b), false))
        },
        BinOp::Rem => {
            if right == 0 {
                return Err("remainder by zero".to_owned());
            }
            let (a_negative, a) = number(kind, left);
            let (_b_negative, b) = number(kind, right);
            Ok((make(kind, a_negative, a % b), false))
        },
        BinOp::BitAnd => Ok((Value::integer(left & right, kind), false)),
        BinOp::BitOr => Ok((Value::integer(left | right, kind), false)),
        BinOp::BitXor => Ok((Value::integer(left ^ right, kind), false)),
        BinOp::Shl | BinOp::ShlUnchecked => {
            let amount: u128 = right % (kind.bits as u128);
            Ok((shift_left(kind, left, amount as u32), right >= kind.bits as u128))
        },
        BinOp::Shr | BinOp::ShrUnchecked => {
            let amount: u128 = right % (kind.bits as u128);
            Ok((shift_right(kind, left, amount as u32), right >= kind.bits as u128))
        },
        BinOp::Eq => Ok((Value::Bool(left == right), false)),
        BinOp::Ne => Ok((Value::Bool(left != right), false)),
        BinOp::Lt => Ok((Value::Bool(less(kind, left, right)), false)),
        BinOp::Gt => Ok((Value::Bool(less(kind, right, left)), false)),
        BinOp::Le => Ok((Value::Bool(!less(kind, right, left)), false)),
        BinOp::Ge => Ok((Value::Bool(!less(kind, left, right)), false)),
        other => {
            let mut why = "operator not interpreted yet: ".to_owned();
            why.append(other.name());
            Err(why)
        },
    }
}

/// Whether the first number is the smaller one.
fn less(kind: IntKind, left: u128, right: u128) -> (r: bool)
    requires
        kind.wf(),
        left < kind.size(),
        right < kind.size(),
    ensures
        r == (kind.value(left) < kind.value(right)),
{
    proof {
        lemma_reduced(kind, left);
        lemma_reduced(kind, right);
    }
    if kind.signed {
        kind.as_signed(left) < kind.as_signed(right)
    } else {
        left < right
    }
}

/// Applies a binary operator, returning the value and whether it overflowed.
///
/// Overflow is only meaningful for the arithmetic cases; comparisons report
/// false, which is what checked arithmetic would want if it ever saw one.
pub fn binary(op: BinOp, lhs: &Value, rhs: &Value) -> (r: Result<(Value, bool), String>)
    requires
        value::well_formed(lhs@),
        value::well_formed(rhs@),
    ensures
        pair_outcome(r) == binary_result(op, lhs@, rhs@),
        r matches Ok(x) ==> value::well_formed(x.0@),
{
    if let (Value::Bool(a), Value::Bool(b)) = (lhs, rhs) {
        let (a, b) = (*a, *b);
        let value = match op {
            BinOp::Eq => a == b,
            BinOp::Ne => a != b,
            BinOp::BitAnd => a && b,
            BinOp::BitOr => a || b,
            BinOp::BitXor => a != b,
            other => {
                let mut why = other.name().to_owned();
                why.append(" is not defined on bools");
                return Err(why);
            },
        };
        return Ok((Value::Bool(value), false));
    }
    let (left, kind) = match lhs.as_int() {
        Ok(x) => x,
        Err(why) => return Err(why),
    };
    let (right, right_kind) = match rhs.as_int() {
        Ok(x) => x,
        Err(why) => return Err(why),
    };

    // Shifts take their amount from a possibly different type; everything
    // else in MIR is same-typed by construction.
    let shift = matches!(
        op,
        BinOp::Shl | BinOp::ShlUnchecked | BinOp::Shr | BinOp::ShrUnchecked
    );
    if !shift && kind != right_kind {
        let mut why = "mismatched operand types: ".to_owned();
        kind.push_debug(&mut why);
        why.append(" and ");
        right_kind.push_debug(&mut why);
        return Err(why);
    }
    int_binary(op, kind, left, right)
}

/// Applies a unary operator.
pub fn unary(op: UnOp, v: &Value) -> (r: Result<Value, String>)
    requires
        value::well_formed(v@),
    ensures
        value::outcome(r) == unary_result(op, v@),
        r matches Ok(x) ==> value::well_formed(x@),
{
    match op {
        UnOp::Not => match v {
            Value::Bool(b) => Ok(Value::Bool(!*b)),
            Value::Int { raw, kind } => {
                let (raw, kind) = (*raw, *kind);
                proof {
                    kinds::lemma_sizes(kind);
                    lemma_reduced(kind, raw);
                }
                // All ones less the bits, which is one less than their
                // negation.
                let flipped: u128 = kind.mask() - raw;
                proof {
                    let s = kind.size();
                    let n = kind.value(raw);
                    vstd::arithmetic::div_mod::lemma_sub_mod_noop(-1, n, s);
                    vstd::arithmetic::div_mod::lemma_sub_mod_noop(-1, raw as int, s);
                    vstd::arithmetic::div_mod::lemma_mod_multiples_vanish(1, -1 - raw, s);
                    vstd::arithmetic::div_mod::lemma_small_mod(flipped as nat, s as nat);
                }
                Ok(Value::Int { raw: flipped, kind })
            },
            other => {
                let mut why = "cannot negate ".to_owned();
                other.push_debug(&mut why);
                Err(why)
            },
        },
        UnOp::Neg => {
            let (raw, kind) = match v.as_int() {
                Ok(x) => x,
                Err(why) => return Err(why),
            };
            let (negative, size) = number(kind, raw);
            Ok(make(kind, !negative, size))
        },
        UnOp::PtrMetadata => Err("pointer metadata needs a memory model".to_owned()),
    }
}

/// Converts a value to an integer type.
///
/// Widening a signed value sign-extends; everything else is a truncation.
pub fn cast_to(v: &Value, kind: IntKind) -> (r: Result<Value, String>)
    requires
        value::well_formed(v@),
        kind.wf(),
    ensures
        value::outcome(r) == cast_result(v@, kind),
        r matches Ok(x) ==> value::well_formed(x@),
{
    match v {
        Value::Bool(b) => Ok(
            make(
                kind,
                false,
                if *b {
                    1
                } else {
                    0
                },
            ),
        ),
        Value::Int { raw, kind: from } => {
            let (negative, size) = number(*from, *raw);
            Ok(make(kind, negative, size))
        },
        other => {
            let mut why = "cannot cast ".to_owned();
            other.push_debug(&mut why);
            Err(why)
        },
    }
}

// ---------------------------------------------------------------- laws ---

/// Quotient and remainder fit together: the dividend is the quotient times the
/// divisor plus the remainder, which is smaller than the divisor and has the
/// sign of the dividend.
pub proof fn quotient_and_remainder_fit(a: int, b: int)
    requires
        b != 0,
    ensures
        a == quotient(a, b) * b + remainder(a, b),
        magnitude(remainder(a, b)) < magnitude(b),
        remainder(a, b) != 0 ==> (remainder(a, b) < 0) == (a < 0),
{
    let (x, y) = (magnitude(a), magnitude(b));
    vstd::arithmetic::div_mod::lemma_fundamental_div_mod(x, y);
    let q = x / y;
    assert(y * q == q * y && (-q) * b == -(q * b) && q * (-y) == -(q * y)) by (nonlinear_arith);
    assert(a == quotient(a, b) * b + remainder(a, b)) by {
        if b < 0 {
            assert(q * b == -(q * y)) by (nonlinear_arith)
                requires
                    b == -y,
            ;
        }
    }
}

/// Checked arithmetic that does not overflow gives the exact number, for
/// addition, subtraction and multiplication at every width and signedness.
pub proof fn arithmetic_without_overflow_is_exact(
    op: BinOp,
    kind: IntKind,
    left: u128,
    right: u128,
)
    requires
        kind.wf(),
        left < kind.size(),
        right < kind.size(),
        op == BinOp::Add || op == BinOp::Sub || op == BinOp::Mul,
    ensures
        ({
            let n = match op {
                BinOp::Add => kind.value(left) + kind.value(right),
                BinOp::Sub => kind.value(left) - kind.value(right),
                _ => kind.value(left) * kind.value(right),
            };
            &&& int_result(op, kind, left, right) matches Ok(x)
            &&& x.1 == !kind.in_range(n)
            &&& !x.1 ==> (x.0 matches Val::Int { raw, kind: k } && k == kind && kind.value(raw)
                == n)
        }),
{
    let n = match op {
        BinOp::Add => kind.value(left) + kind.value(right),
        BinOp::Sub => kind.value(left) - kind.value(right),
        _ => kind.value(left) * kind.value(right),
    };
    if kind.in_range(n) {
        kinds::numbers_in_range_survive(kind, n);
    }
}

/// Casting to a type that can hold the number and back changes nothing.
pub proof fn widening_casts_lose_nothing(kind: IntKind, wide: IntKind, raw: u128)
    requires
        kind.wf(),
        wide.wf(),
        raw < kind.size(),
        wide.in_range(kind.value(raw)),
    ensures
        ({
            let there = cast_result(Val::Int { raw, kind }, wide);
            &&& there matches Ok(v)
            &&& cast_result(v, kind) == Ok::<Val, Seq<char>>(Val::Int { raw, kind })
        }),
{
    kinds::numbers_in_range_survive(wide, kind.value(raw));
    lemma_reduced(kind, raw);
}

} // verus!
