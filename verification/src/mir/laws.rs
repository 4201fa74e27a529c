//! What holds of interpreted arithmetic, operator by operator.
//!
//! The laws speak of the numbers that bits stand for, of single bits, and of
//! how operators relate to each other.

use vstd::arithmetic::power2::*;
use vstd::prelude::*;

use crate::mir::kinds::{self, IntKind};
use crate::mir::ops::{self, BinOp, UnOp};
use crate::mir::syntax::{self, IntTy, TyShape, UintTy};
use crate::mir::value::Val;

verus! {

// -------------------------------------------------------------- numbers ---

/// The bits of an integer stand for themselves read as a binary number, and in
/// a signed type, if the top bit is set, for `2^bits` less.
pub proof fn bits_stand_for_numbers(kind: IntKind, raw: u128)
    requires
        kind.wf(),
        raw < pow2(kind.bits as nat),
    ensures
        !kind.signed ==> kind.value(raw) == raw,
        kind.signed && raw < pow2((kind.bits - 1) as nat) ==> kind.value(raw) == raw,
        kind.signed && raw >= pow2((kind.bits - 1) as nat) ==> kind.value(raw) == raw - pow2(
            kind.bits as nat,
        ),
{
    kinds::lemma_sizes(kind);
    vstd::arithmetic::div_mod::lemma_small_mod(raw as nat, kind.size() as nat);
}

/// Which numbers a type holds: those from zero up to `2^bits`, or from
/// `-2^(bits-1)` up to `2^(bits-1)`, the upper end left out.
pub proof fn types_hold_their_range(kind: IntKind, n: int)
    requires
        kind.wf(),
    ensures
        !kind.signed ==> (kind.in_range(n) <==> 0 <= n < pow2(kind.bits as nat)),
        kind.signed ==> (kind.in_range(n) <==> -pow2((kind.bits - 1) as nat) <= n < pow2(
            (kind.bits - 1) as nat,
        )),
        kind.size() == pow2(kind.bits as nat),
{
}

/// Working modulo `2^bits`: the bits of a number stand for one that differs
/// from it by whole multiples.
proof fn lemma_wrapped(kind: IntKind, n: int)
    requires
        kind.wf(),
    ensures
        kind.wrap(n) < kind.size(),
        (kind.value(kind.wrap(n)) - n) % (pow2(kind.bits as nat) as int) == 0,
        kind.in_range(kind.value(kind.wrap(n))),
        kind.in_range(n) ==> kind.value(kind.wrap(n)) == n,
{
    kinds::lemma_sizes(kind);
    let s = kind.size();
    let raw = kind.wrap(n);
    vstd::arithmetic::div_mod::lemma_mod_twice(n, s);
    kinds::lemma_value_congruent(kind, raw);
    let v = kind.value(raw);
    assert(v % s == n % s);
    vstd::arithmetic::div_mod::lemma_mod_equivalence(v, n, s);
    if kind.in_range(n) {
        kinds::numbers_in_range_survive(kind, n);
    }
}

// ---------------------------------------------------------- comparisons ---

/// Whether a comparison of two integers of one type holds.
pub open spec fn holds(op: BinOp, kind: IntKind, left: u128, right: u128) -> bool {
    ops::binary_result(op, Val::Int { raw: left, kind }, Val::Int { raw: right, kind }) == Ok::<
        (Val, bool),
        Seq<char>,
    >((Val::Bool(true), false))
}

/// Whether a comparison of two integers of one type fails.
pub open spec fn fails(op: BinOp, kind: IntKind, left: u128, right: u128) -> bool {
    ops::binary_result(op, Val::Int { raw: left, kind }, Val::Int { raw: right, kind }) == Ok::<
        (Val, bool),
        Seq<char>,
    >((Val::Bool(false), false))
}

/// The comparisons agree with the numbers and with each other: each holds or
/// fails, exactly one of less, equal and greater holds, and the other three
/// are their negations. Turning the operands round turns the comparison round.
pub proof fn comparisons_agree(kind: IntKind, left: u128, right: u128)
    requires
        kind.wf(),
        left < pow2(kind.bits as nat),
        right < pow2(kind.bits as nat),
    ensures
        holds(BinOp::Lt, kind, left, right) <==> kind.value(left) < kind.value(right),
        holds(BinOp::Eq, kind, left, right) <==> kind.value(left) == kind.value(right),
        holds(BinOp::Gt, kind, left, right) <==> kind.value(left) > kind.value(right),
        holds(BinOp::Ge, kind, left, right) <==> fails(BinOp::Lt, kind, left, right),
        fails(BinOp::Ge, kind, left, right) <==> holds(BinOp::Lt, kind, left, right),
        holds(BinOp::Le, kind, left, right) <==> fails(BinOp::Gt, kind, left, right),
        fails(BinOp::Le, kind, left, right) <==> holds(BinOp::Gt, kind, left, right),
        holds(BinOp::Ne, kind, left, right) <==> fails(BinOp::Eq, kind, left, right),
        fails(BinOp::Ne, kind, left, right) <==> holds(BinOp::Eq, kind, left, right),
        holds(BinOp::Gt, kind, left, right) <==> holds(BinOp::Lt, kind, right, left),
        holds(BinOp::Ge, kind, left, right) <==> holds(BinOp::Le, kind, right, left),
        holds(BinOp::Lt, kind, left, right) <==> !fails(BinOp::Lt, kind, left, right),
        holds(BinOp::Gt, kind, left, right) <==> !fails(BinOp::Gt, kind, left, right),
        holds(BinOp::Eq, kind, left, right) <==> !fails(BinOp::Eq, kind, left, right),
        holds(BinOp::Le, kind, left, left),
        holds(BinOp::Ge, kind, left, left),
        holds(BinOp::Eq, kind, left, left),
        fails(BinOp::Lt, kind, left, left),
        fails(BinOp::Gt, kind, left, left),
        fails(BinOp::Ne, kind, left, left),
{
    bits_stand_for_numbers(kind, left);
    bits_stand_for_numbers(kind, right);
    lemma_pow2_unfold(kind.bits as nat);
}

// ----------------------------------------------------------- arithmetic ---

/// Addition, subtraction and multiplication give the number modulo `2^bits`,
/// exactly if the type holds it, and flag an overflow if it does not. The
/// unchecked forms give the same.
pub proof fn arithmetic_is_modular(kind: IntKind, left: u128, right: u128)
    requires
        kind.wf(),
        left < pow2(kind.bits as nat),
        right < pow2(kind.bits as nat),
    ensures
        ({
            let (a, b) = (kind.value(left), kind.value(right));
            let (x, y) = (Val::Int { raw: left, kind }, Val::Int { raw: right, kind });
            &&& gives(ops::binary_result(BinOp::Add, x, y), kind, a + b)
            &&& gives(ops::binary_result(BinOp::Sub, x, y), kind, a - b)
            &&& gives(ops::binary_result(BinOp::Mul, x, y), kind, a * b)
            &&& ops::binary_result(BinOp::AddUnchecked, x, y) == ops::binary_result(
                BinOp::Add,
                x,
                y,
            )
            &&& ops::binary_result(BinOp::SubUnchecked, x, y) == ops::binary_result(
                BinOp::Sub,
                x,
                y,
            )
            &&& ops::binary_result(BinOp::MulUnchecked, x, y) == ops::binary_result(
                BinOp::Mul,
                x,
                y,
            )
        }),
{
    let (a, b) = (kind.value(left), kind.value(right));
    lemma_wrapped(kind, a + b);
    lemma_wrapped(kind, a - b);
    lemma_wrapped(kind, a * b);
}

/// Whether an operator gave an integer of this type that stands for `n` modulo
/// `2^bits`, with the flag set exactly when the type does not hold `n`.
pub open spec fn gives(r: Result<(Val, bool), Seq<char>>, kind: IntKind, n: int) -> bool {
    &&& r matches Ok((Val::Int { raw, kind: k }, overflowed))
    &&& k == kind
    &&& raw < pow2(kind.bits as nat)
    &&& (kind.value(raw) - n) % (pow2(kind.bits as nat) as int) == 0
    &&& kind.in_range(kind.value(raw))
    &&& overflowed <==> !kind.in_range(n)
    &&& !overflowed ==> kind.value(raw) == n
}

/// Quotient and remainder take a dividend apart: it is the quotient times the
/// divisor plus the remainder, which is smaller than the divisor and has the
/// sign of the dividend. A divisor of zero is refused. The one quotient that
/// its type does not hold comes back as the dividend.
pub proof fn division_takes_apart(kind: IntKind, left: u128, right: u128)
    requires
        kind.wf(),
        left < pow2(kind.bits as nat),
        right < pow2(kind.bits as nat),
    ensures
        ({
            let (a, b) = (kind.value(left), kind.value(right));
            let (x, y) = (Val::Int { raw: left, kind }, Val::Int { raw: right, kind });
            let q = ops::binary_result(BinOp::Div, x, y);
            let r = ops::binary_result(BinOp::Rem, x, y);
            &&& b == 0 ==> q == Err::<(Val, bool), Seq<char>>("division by zero"@)
            &&& b == 0 ==> r == Err::<(Val, bool), Seq<char>>("remainder by zero"@)
            &&& b != 0 ==> takes_apart(q, r, kind, a, b)
        }),
{
    let (a, b) = (kind.value(left), kind.value(right));
    kinds::lemma_sizes(kind);
    bits_stand_for_numbers(kind, left);
    bits_stand_for_numbers(kind, right);
    lemma_pow2_unfold(kind.bits as nat);
    kinds::lemma_value_congruent(kind, left);
    kinds::lemma_value_congruent(kind, right);
    if b != 0 {
        let (q, r) = (ops::quotient(a, b), ops::remainder(a, b));
        ops::quotient_and_remainder_fit(a, b);
        lemma_wrapped(kind, q);
        lemma_wrapped(kind, r);
        let h = kind.half();
        // The remainder is no further from zero than the dividend, and so is
        // the quotient.
        let (x, y) = (ops::magnitude(a), ops::magnitude(b));
        vstd::arithmetic::div_mod::lemma_fundamental_div_mod(x, y);
        vstd::arithmetic::div_mod::lemma_mod_decreases(x as nat, y as nat);
        vstd::arithmetic::div_mod::lemma_div_nonincreasing(x, y);
        vstd::arithmetic::div_mod::lemma_div_pos_is_pos(x, y);
        if kind.signed && a == -h && b == -1 {
            assert(x / 1 == x);
            assert(q == h);
            vstd::arithmetic::div_mod::lemma_mod_multiples_vanish(1, -h, kind.size());
            assert(kind.wrap(h) == kind.wrap(-h));
            kinds::numbers_in_range_survive(kind, -h);
        } else if kind.signed && q == h {
            if b == 1 {
                assert(x / 1 == x);
            } else if b != -1 {
                vstd::arithmetic::div_mod::lemma_div_decreases(x, y);
            } else {
                assert(x / 1 == x);
            }
            assert(false);
        }
        assert(kind.in_range(r));
    }
}

/// Whether a quotient and a remainder of one type take `a` apart by `b`.
pub open spec fn takes_apart(
    q: Result<(Val, bool), Seq<char>>,
    r: Result<(Val, bool), Seq<char>>,
    kind: IntKind,
    a: int,
    b: int,
) -> bool {
    &&& q matches Ok((Val::Int { raw: whole, kind: k }, q_flag))
    &&& r matches Ok((Val::Int { raw: rest, kind: l }, r_flag))
    &&& k == kind && l == kind && !q_flag && !r_flag
    &&& whole < pow2(kind.bits as nat) && rest < pow2(kind.bits as nat)
    &&& {
        let (whole, rest) = (kind.value(whole), kind.value(rest));
        let lowest = -(pow2((kind.bits - 1) as nat) as int);
        &&& -(if b < 0 {
            -b
        } else {
            b
        }) < rest < if b < 0 {
            -b
        } else {
            b
        }
        &&& rest > 0 ==> a > 0
        &&& rest < 0 ==> a < 0
        &&& kind.signed && a == lowest && b == -1 ==> whole == a && rest == 0
        &&& !(kind.signed && a == lowest && b == -1) ==> a == whole * b + rest
    }
}

// ----------------------------------------------------------------- bits ---

/// Bits above a width are zero exactly when the number is below `2^width`.
proof fn lemma_high_bits(x: u128, w: u32)
    requires
        w < 128,
    ensures
        x < pow2(w as nat) <==> x >> (w as u128) == 0,
{
    let places = w as u128;
    vstd::bits::lemma_u128_shr_is_div(x, places);
    lemma_pow2_pos(w as nat);
    let p = pow2(w as nat) as int;
    if x < p {
        vstd::arithmetic::div_mod::lemma_basic_div(x as int, p);
    } else {
        vstd::arithmetic::div_mod::lemma_div_non_zero(x as int, p);
    }
}

/// Combining bits one by one stays within the width.
proof fn lemma_bitwise_fits(kind: IntKind, left: u128, right: u128)
    requires
        kind.wf(),
        left < kind.size(),
        right < kind.size(),
    ensures
        left & right < kind.size(),
        left | right < kind.size(),
        left ^ right < kind.size(),
{
    kinds::lemma_sizes(kind);
    if kind.bits < 128 {
        let w = kind.bits;
        let n = w as u128;
        lemma_high_bits(left, w);
        lemma_high_bits(right, w);
        lemma_high_bits(left & right, w);
        lemma_high_bits(left | right, w);
        lemma_high_bits(left ^ right, w);
        assert(left >> n == 0 && right >> n == 0 ==> (left & right) >> n == 0 && (left | right)
            >> n == 0 && (left ^ right) >> n == 0) by (bit_vector);
    }
}

/// Whether bit `k` is set.
pub open spec fn bit(x: u128, k: u128) -> bool {
    (x >> k) % 2 == 1
}

/// The bitwise operators work on each bit by itself: and sets the bits that
/// both have, or those that either has, exclusive or those that one has.
pub proof fn bitwise_operators_work_bit_by_bit(kind: IntKind, left: u128, right: u128, k: u128)
    requires
        kind.wf(),
        left < pow2(kind.bits as nat),
        right < pow2(kind.bits as nat),
        k < 128,
    ensures
        ({
            let (x, y) = (Val::Int { raw: left, kind }, Val::Int { raw: right, kind });
            &&& ops::binary_result(BinOp::BitAnd, x, y) matches Ok((
                Val::Int { raw: both, kind: k1 },
                f1,
            ))
            &&& ops::binary_result(BinOp::BitOr, x, y) matches Ok((
                Val::Int { raw: either, kind: k2 },
                f2,
            ))
            &&& ops::binary_result(BinOp::BitXor, x, y) matches Ok((
                Val::Int { raw: one, kind: k3 },
                f3,
            ))
            &&& k1 == kind && k2 == kind && k3 == kind && !f1 && !f2 && !f3
            &&& bit(both, k) <==> bit(left, k) && bit(right, k)
            &&& bit(either, k) <==> bit(left, k) || bit(right, k)
            &&& bit(one, k) <==> bit(left, k) != bit(right, k)
        }),
{
    kinds::lemma_sizes(kind);
    lemma_bitwise_fits(kind, left, right);
    let s = kind.size();
    vstd::arithmetic::div_mod::lemma_small_mod((left & right) as nat, s as nat);
    vstd::arithmetic::div_mod::lemma_small_mod((left | right) as nat, s as nat);
    vstd::arithmetic::div_mod::lemma_small_mod((left ^ right) as nat, s as nat);
    assert(((left & right) >> k) % 2 == 1 <==> (left >> k) % 2 == 1 && (right >> k) % 2 == 1)
        by (bit_vector);
    assert(((left | right) >> k) % 2 == 1 <==> (left >> k) % 2 == 1 || (right >> k) % 2 == 1)
        by (bit_vector);
    assert(((left ^ right) >> k) % 2 == 1 <==> ((left >> k) % 2 == 1) != ((right >> k) % 2 == 1))
        by (bit_vector);
}

/// Negating bits turns each of them round, so that a value and its complement
/// add up to all ones, which is minus one modulo `2^bits`; negating a number
/// gives what adds up to zero with it.
pub proof fn negation_adds_up(kind: IntKind, raw: u128)
    requires
        kind.wf(),
        raw < pow2(kind.bits as nat),
    ensures
        ({
            let v = Val::Int { raw, kind };
            let m = pow2(kind.bits as nat) as int;
            &&& ops::unary_result(UnOp::Not, v) matches Ok(Val::Int { raw: flipped, kind: k })
            &&& ops::unary_result(UnOp::Neg, v) matches Ok(Val::Int { raw: minus, kind: l })
            &&& k == kind && l == kind
            &&& flipped + raw == m - 1
            &&& (minus + raw) % m == 0
            &&& minus < m
        }),
{
    kinds::lemma_sizes(kind);
    let s = kind.size();
    kinds::lemma_value_congruent(kind, raw);
    vstd::arithmetic::div_mod::lemma_small_mod(raw as nat, s as nat);
    let n = kind.value(raw);
    vstd::arithmetic::div_mod::lemma_sub_mod_noop(-1, n, s);
    vstd::arithmetic::div_mod::lemma_sub_mod_noop(-1, raw as int, s);
    vstd::arithmetic::div_mod::lemma_mod_multiples_vanish(1, -1 - raw, s);
    vstd::arithmetic::div_mod::lemma_small_mod((s - 1 - raw) as nat, s as nat);
    vstd::arithmetic::div_mod::lemma_sub_mod_noop(0, n, s);
    vstd::arithmetic::div_mod::lemma_sub_mod_noop(0, raw as int, s);
    let minus = (-n) % s;
    assert(minus == (-(raw as int)) % s);
    if raw == 0 {
        vstd::arithmetic::div_mod::lemma_small_mod(0, s as nat);
    } else {
        vstd::arithmetic::div_mod::lemma_mod_multiples_vanish(1, -(raw as int), s);
        vstd::arithmetic::div_mod::lemma_small_mod((s - raw) as nat, s as nat);
        vstd::arithmetic::div_mod::lemma_mod_self_0(s);
    }
}

/// Shifts count their amount modulo the width and flag one that is not below
/// it, whatever the type of the amount. To the left they multiply by a power
/// of two, modulo `2^bits`; to the right they divide by it and round down, so
/// the sign stays.
pub proof fn shifts_scale(kind: IntKind, left: u128, amount_kind: IntKind, amount: u128)
    requires
        kind.wf(),
        left < pow2(kind.bits as nat),
    ensures
        ({
            let a = kind.value(left);
            let n = (amount % (kind.bits as u128)) as nat;
            let p = pow2(n) as int;
            let m = pow2(kind.bits as nat) as int;
            let (x, y) = (
                Val::Int { raw: left, kind },
                Val::Int { raw: amount, kind: amount_kind },
            );
            &&& ops::binary_result(BinOp::Shl, x, y) matches Ok((
                Val::Int { raw: up, kind: k },
                up_flag,
            ))
            &&& ops::binary_result(BinOp::Shr, x, y) matches Ok((
                Val::Int { raw: down, kind: l },
                down_flag,
            ))
            &&& k == kind && l == kind
            &&& up_flag == (amount >= kind.bits) && down_flag == (amount >= kind.bits)
            &&& up < m && down < m
            &&& (kind.value(up) - a * p) % m == 0
            &&& kind.value(down) * p <= a
            &&& a < (kind.value(down) + 1) * p
            &&& ops::binary_result(BinOp::ShlUnchecked, x, y) == ops::binary_result(
                BinOp::Shl,
                x,
                y,
            )
            &&& ops::binary_result(BinOp::ShrUnchecked, x, y) == ops::binary_result(
                BinOp::Shr,
                x,
                y,
            )
        }),
{
    let a = kind.value(left);
    let n = (amount % (kind.bits as u128)) as nat;
    let p = pow2(n) as int;
    lemma_pow2_pos(n);
    kinds::lemma_sizes(kind);
    kinds::lemma_value_congruent(kind, left);
    lemma_wrapped(kind, a * p);
    let q = a / p;
    vstd::arithmetic::div_mod::lemma_fundamental_div_mod(a, p);
    assert(p * q == q * p && (q + 1) * p == q * p + p) by (nonlinear_arith);
    let h = kind.half();
    // Rounding down does not leave the range.
    assert(a >= 0 ==> 0 <= q <= a) by (nonlinear_arith)
        requires
            q * p <= a < q * p + p,
            p >= 1,
    ;
    assert(a < 0 ==> a <= q < 0) by (nonlinear_arith)
        requires
            q * p <= a < q * p + p,
            p >= 1,
    ;
    lemma_wrapped(kind, q);
}

/// Operands of different types are refused except by shifts, and so is what is
/// neither a truth value nor an integer.
pub proof fn mixed_operands_are_refused(op: BinOp, x: Val, y: Val)
    ensures
        x is Uninit || x is Aggregate ==> ops::binary_result(op, x, y) is Err,
        y is Uninit || y is Aggregate ==> ops::binary_result(op, x, y) is Err,
        x is Bool && y is Int || x is Int && y is Bool ==> ops::binary_result(op, x, y) is Err,
        x is Int && y is Int && x->kind != y->kind && op != BinOp::Shl && op != BinOp::Shr && op
            != BinOp::ShlUnchecked && op != BinOp::ShrUnchecked ==> ops::binary_result(op, x, y)
            is Err,
        op == BinOp::Cmp || op == BinOp::Offset ==> ops::binary_result(op, x, y) is Err,
        ops::unary_result(UnOp::PtrMetadata, x) is Err,
        x is Uninit || x is Aggregate ==> ops::unary_result(UnOp::Not, x) is Err
            && ops::unary_result(UnOp::Neg, x) is Err,
        x is Bool ==> ops::unary_result(UnOp::Neg, x) is Err,
{
}

/// What an operator on truth values gives, if it gives one.
pub open spec fn truth(op: BinOp, a: bool, b: bool) -> Option<bool> {
    match ops::binary_result(op, Val::Bool(a), Val::Bool(b)) {
        Ok((Val::Bool(c), false)) => Some(c),
        _ => None,
    }
}

/// Truth values: and holds when both do, or when one does at least, exclusive
/// or and not-equal when one does exactly, equal when not exactly one does,
/// and not when its operand does not. No other operator takes them.
pub proof fn truth_values_combine(op: BinOp, a: bool, b: bool)
    ensures
        truth(BinOp::BitAnd, true, b) == Some(b),
        truth(BinOp::BitAnd, false, b) == Some(false),
        truth(BinOp::BitOr, true, b) == Some(true),
        truth(BinOp::BitOr, false, b) == Some(b),
        truth(BinOp::Eq, a, a) == Some(true),
        truth(BinOp::Eq, a, !a) == Some(false),
        truth(BinOp::Ne, a, a) == Some(false),
        truth(BinOp::Ne, a, !a) == Some(true),
        truth(BinOp::BitXor, a, b) == truth(BinOp::Ne, a, b),
        ops::unary_result(UnOp::Not, Val::Bool(true)) == Ok::<Val, Seq<char>>(Val::Bool(false)),
        ops::unary_result(UnOp::Not, Val::Bool(false)) == Ok::<Val, Seq<char>>(Val::Bool(true)),
        op != BinOp::BitAnd && op != BinOp::BitOr && op != BinOp::BitXor && op != BinOp::Eq && op
            != BinOp::Ne ==> ops::binary_result(op, Val::Bool(a), Val::Bool(b)) is Err,
{
}

// ---------------------------------------------------------------- casts ---

/// A cast keeps the number modulo `2^bits` of its target, exactly if the target
/// holds it. Truth values are cast to zero and one, and nothing else is cast.
pub proof fn casts_keep_the_number(from: IntKind, raw: u128, to: IntKind, v: Val)
    requires
        from.wf(),
        to.wf(),
        raw < pow2(from.bits as nat),
    ensures
        ({
            let n = from.value(raw);
            &&& ops::cast_result(Val::Int { raw, kind: from }, to) matches Ok(
                Val::Int { raw: bits, kind },
            )
            &&& kind == to
            &&& bits < pow2(to.bits as nat)
            &&& (to.value(bits) - n) % (pow2(to.bits as nat) as int) == 0
            &&& to.in_range(n) ==> to.value(bits) == n
        }),
        to.bits > 1 || !to.signed ==> {
            &&& ops::cast_result(Val::Bool(true), to) matches Ok(Val::Int { raw: one, kind })
            &&& kind == to && to.value(one) == 1
        },
        ({
            &&& ops::cast_result(Val::Bool(false), to) matches Ok(Val::Int { raw: zero, kind })
            &&& kind == to && to.value(zero) == 0
        }),
        v is Uninit || v is Aggregate ==> ops::cast_result(v, to) is Err,
{
    lemma_wrapped(to, from.value(raw));
    lemma_wrapped(to, 0);
    lemma_wrapped(to, 1);
    kinds::lemma_sizes(to);
    if to.bits > 1 {
        lemma_pow2_unfold((to.bits - 1) as nat);
        lemma_pow2_pos((to.bits - 2) as nat);
    }
}

/// The integer types hold what their names say; pointer-sized ones hold 64
/// bits. No other type is an integer type.
pub proof fn integer_types_are_as_wide_as_named(n: int)
    ensures
        ({
            let u = |t: UintTy| syntax::kind_of(TyShape::Uint(t))->0;
            let i = |t: IntTy| syntax::kind_of(TyShape::Int(t))->0;
            &&& u(UintTy::U8).in_range(n) <==> 0 <= n <= 0xFF
            &&& u(UintTy::U16).in_range(n) <==> 0 <= n <= 0xFFFF
            &&& u(UintTy::U32).in_range(n) <==> 0 <= n <= 0xFFFF_FFFF
            &&& u(UintTy::U64).in_range(n) <==> 0 <= n <= 0xFFFF_FFFF_FFFF_FFFF
            &&& u(UintTy::U128).in_range(n) <==> 0 <= n <= u128::MAX
            &&& u(UintTy::Usize) == u(UintTy::U64)
            &&& i(IntTy::I8).in_range(n) <==> -0x80 <= n <= 0x7F
            &&& i(IntTy::I16).in_range(n) <==> -0x8000 <= n <= 0x7FFF
            &&& i(IntTy::I32).in_range(n) <==> i32::MIN <= n <= i32::MAX
            &&& i(IntTy::I64).in_range(n) <==> i64::MIN <= n <= i64::MAX
            &&& i(IntTy::I128).in_range(n) <==> i128::MIN <= n <= i128::MAX
            &&& i(IntTy::Isize) == i(IntTy::I64)
        }),
        forall|t: UintTy| #[trigger] syntax::kind_of(TyShape::Uint(t)) is Some,
        forall|t: IntTy| #[trigger] syntax::kind_of(TyShape::Int(t)) is Some,
        syntax::kind_of(TyShape::Bool) is None,
        syntax::kind_of(TyShape::Other) is None,
{
    lemma2_to64();
    lemma2_to64_rest();
    kinds::lemma_sizes(IntKind { bits: 128, signed: true });
    kinds::lemma_sizes(IntKind { bits: 128, signed: false });
    kinds::lemma_sizes(IntKind { bits: 64, signed: true });
    kinds::lemma_sizes(IntKind { bits: 32, signed: true });
    kinds::lemma_sizes(IntKind { bits: 16, signed: true });
    kinds::lemma_sizes(IntKind { bits: 8, signed: true });
}

/// An operator that skips its check computes what the checked one does, and the
/// operators that need more than two numbers are refused.
pub proof fn unchecked_operators_agree(
    kind: IntKind,
    left: u128,
    right: u128,
    amount_kind: IntKind,
    amount: u128,
)
    ensures
        ({
            let (x, y) = (Val::Int { raw: left, kind }, Val::Int { raw: right, kind });
            let n = Val::Int { raw: amount, kind: amount_kind };
            &&& ops::binary_result(BinOp::AddUnchecked, x, y) == ops::binary_result(
                BinOp::Add,
                x,
                y,
            )
            &&& ops::binary_result(BinOp::SubUnchecked, x, y) == ops::binary_result(
                BinOp::Sub,
                x,
                y,
            )
            &&& ops::binary_result(BinOp::MulUnchecked, x, y) == ops::binary_result(
                BinOp::Mul,
                x,
                y,
            )
            &&& ops::binary_result(BinOp::ShlUnchecked, x, n) == ops::binary_result(
                BinOp::Shl,
                x,
                n,
            )
            &&& ops::binary_result(BinOp::ShrUnchecked, x, n) == ops::binary_result(
                BinOp::Shr,
                x,
                n,
            )
            &&& ops::binary_result(BinOp::Cmp, x, y) is Err
            &&& ops::binary_result(BinOp::Offset, x, y) is Err
        }),
{
}

/// Addition and multiplication do not depend on the order of their operands,
/// nor do the bitwise operators, and a comparison turned round is the other one.
pub proof fn operands_can_be_exchanged(kind: IntKind, left: u128, right: u128)
    ensures
        ({
            let (x, y) = (Val::Int { raw: left, kind }, Val::Int { raw: right, kind });
            let f = |op: BinOp, a: Val, b: Val| ops::binary_result(op, a, b);
            &&& f(BinOp::Add, x, y) == f(BinOp::Add, y, x)
            &&& f(BinOp::Mul, x, y) == f(BinOp::Mul, y, x)
            &&& f(BinOp::BitAnd, x, y) == f(BinOp::BitAnd, y, x)
            &&& f(BinOp::BitOr, x, y) == f(BinOp::BitOr, y, x)
            &&& f(BinOp::BitXor, x, y) == f(BinOp::BitXor, y, x)
            &&& f(BinOp::Lt, x, y) == f(BinOp::Gt, y, x)
            &&& f(BinOp::Le, x, y) == f(BinOp::Ge, y, x)
            &&& f(BinOp::Eq, x, y) == f(BinOp::Eq, y, x)
            &&& f(BinOp::Ne, x, y) == f(BinOp::Ne, y, x)
        }),
{
    let (a, b) = (kind.value(left), kind.value(right));
    assert(a * b == b * a) by (nonlinear_arith);
    assert(left & right == right & left && left | right == right | left && left ^ right == right
        ^ left) by (bit_vector);
}

} // verus!
