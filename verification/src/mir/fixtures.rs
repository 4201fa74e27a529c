//! Bodies for the interpreter to run.
//!
//! Each takes no arguments and returns a scalar, so the expected answer can be
//! written down beside it.

use vstd::prelude::*;

verus! {

/// The sum of the numbers below `n`.
pub open spec fn sum_below(n: nat) -> nat {
    (n * (n - 1) / 2) as nat
}

pub fn sum_to_ten() -> (r: u32)
    ensures
        r == sum_below(10),
        r == 45,
{
    let mut total: u32 = 0;
    let mut i: u32 = 0;
    while i < 10
        invariant
            i <= 10,
            total == sum_below(i as nat),
            total <= 45,
        decreases 10 - i,
    {
        assert(i * (i - 1) / 2 + i == (i + 1) * i / 2) by (nonlinear_arith);
        assert(total + i <= 45) by {
            assert((i + 1) * i <= 90) by (nonlinear_arith)
                requires
                    i < 10,
            ;
        }
        total = total + i;
        i = i + 1;
    }
    assert(sum_below(10) == 45) by (nonlinear_arith);
    total
}

pub fn signed_division() -> (r: i32)
    ensures
        r == -2,
{
    let a: i32 = -7;
    let b: i32 = 3;
    a / b
}

pub fn truncating_cast() -> (r: u8)
    ensures
        r == 300int % 256,
{
    let wide: u32 = 300;
    assert(300u32 as u8 == 44u8) by (bit_vector);
    wide as u8
}

pub fn sign_extending_cast() -> (r: i64)
    ensures
        r == -3,
{
    let narrow: i8 = -3;
    narrow as i64
}

pub fn comparisons() -> (r: bool)
    ensures
        r,
{
    let a: i32 = -1;
    let b: i32 = 1;
    a < b
}

pub fn shifts() -> (r: u32)
    ensures
        r == 32,
{
    let x: u32 = 1;
    assert(1u32 << 5 == 32) by (bit_vector);
    x << 5
}

/// A kernel-shaped function: each thread of a block writes its own element.
pub fn scatter(out: &mut [u32], stride: usize, tid: usize, block: usize)
    requires
        block * stride + tid <= usize::MAX,
    ensures
        ({
            let i = block * stride + tid;
            final(out)@ == if i < old(out)@.len() {
                old(out)@.update(i, i as u32)
            } else {
                old(out)@
            }
        }),
{
    assert(block * stride <= usize::MAX) by {
        assert(0 <= block * stride) by (nonlinear_arith);
    }
    let i: usize = block * stride + tid;
    if i < out.len() {
        out[i] = i as u32;
    }
}

} // verus!
